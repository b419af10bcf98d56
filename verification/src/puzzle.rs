//! The puzzle model: three letter terms aligned into columns.
//!
//! Construction left-pads the terms with the pad symbol `'0'` to a common
//! width, derives the column triples right-to-left (least-significant column
//! first), the search order of the distinct letters, and the leading letter
//! of each term.

use vstd::prelude::*;

use crate::assignment::Assignment;

verus! {

/// Why a puzzle could not be built.
#[derive(Clone, Copy, Debug, PartialEq, Eq, Structural)]
pub enum MalformedPuzzle {
    /// One of the three terms was empty.
    EmptyTerm,
    /// One of the terms held a symbol that is not a letter.
    NonLetter,
}

/// The symbol used to left-pad short terms; it always evaluates to 0 and is
/// never a variable.
pub open spec fn pad_sym() -> char {
    '0'
}

/// An ASCII letter, the only admissible variable symbol.
pub open spec fn is_letter(c: char) -> bool {
    ('A' as u32 <= c as u32 && c as u32 <= 'Z' as u32) || ('a' as u32 <= c as u32 && c as u32
        <= 'z' as u32)
}

/// Every symbol of the sequence is a letter.
pub open spec fn all_letters(s: Seq<char>) -> bool {
    forall|i: int| 0 <= i < s.len() ==> is_letter(#[trigger] s[i])
}

/// The sequence left-padded with the pad symbol to width `w`.
pub open spec fn pad(s: Seq<char>, w: int) -> Seq<char>
    recommends
        s.len() <= w,
{
    Seq::new((w - s.len()) as nat, |i: int| pad_sym()) + s
}

/// The column triples of three padded lines, least-significant column first:
/// entry `j` holds the symbols at position `w - 1 - j` of each line.
pub open spec fn col_seq(l0: Seq<char>, l1: Seq<char>, l2: Seq<char>, w: int) -> Seq<
    (char, char, char),
> {
    Seq::new(w as nat, |j: int| (l0[w - 1 - j], l1[w - 1 - j], l2[w - 1 - j]))
}

/// The symbol met at scan step `k` when walking columns right to left and,
/// within a column, the three lines top to bottom.
pub open spec fn scan_char(l0: Seq<char>, l1: Seq<char>, l2: Seq<char>, w: int, k: int) -> char {
    let j = w - 1 - k / 3;
    if k % 3 == 0 {
        l0[j]
    } else if k % 3 == 1 {
        l1[j]
    } else {
        l2[j]
    }
}

/// The distinct letters met in the first `k` scan steps, in order of first
/// occurrence; the pad symbol is skipped.
pub open spec fn var_prefix(l0: Seq<char>, l1: Seq<char>, l2: Seq<char>, w: int, k: int) -> Seq<
    char,
>
    decreases k,
{
    if k <= 0 {
        Seq::empty()
    } else {
        let prev = var_prefix(l0, l1, l2, w, k - 1);
        let c = scan_char(l0, l1, l2, w, k - 1);
        if c == pad_sym() || prev.contains(c) {
            prev
        } else {
            prev.push(c)
        }
    }
}

/// The full search order: rightmost column first, top to bottom within a
/// column, first occurrence only.
pub open spec fn var_order(l0: Seq<char>, l1: Seq<char>, l2: Seq<char>, w: int) -> Seq<char> {
    var_prefix(l0, l1, l2, w, 3 * w)
}

/// The first symbol of the sequence that is not the pad symbol.
pub open spec fn first_nonpad(s: Seq<char>) -> char
    decreases s.len(),
{
    if s.len() == 0 {
        pad_sym()
    } else if s[0] != pad_sym() {
        s[0]
    } else {
        first_nonpad(s.skip(1))
    }
}

/// A cryptarithm instance: `lines[0] + lines[1] == lines[2]`, with derived
/// search data.  Immutable once constructed.
pub struct Puzzle {
    /// The three padded terms: the two addends, then the sum.
    pub lines: Vec<Vec<char>>,
    /// The distinct letters in search order, least significant first.
    pub pvars: Vec<char>,
    /// The column triples, least-significant column first.
    pub tuples: Vec<(char, char, char)>,
    /// The first non-pad symbol of each term, in term order.
    pub leading: Vec<char>,
}

impl Puzzle {
    /// The common width of the padded terms.
    pub open spec fn width(self) -> int {
        self.lines@[0]@.len() as int
    }

    /// The padded term `t`, as a sequence of symbols.
    pub open spec fn line(self, t: int) -> Seq<char> {
        self.lines@[t]@
    }

    /// Structural invariant tying the derived fields to the three lines.
    pub open spec fn wf(self) -> bool {
        &&& self.lines@.len() == 3
        &&& self.width() >= 1
        &&& forall|t: int| 0 <= t < 3 ==> #[trigger] self.line(t).len() == self.width()
        &&& forall|t: int, j: int|
            0 <= t < 3 && 0 <= j < self.width() ==> is_letter(#[trigger] self.line(t)[j])
                || self.line(t)[j] == pad_sym()
        &&& self.tuples@ == col_seq(self.line(0), self.line(1), self.line(2), self.width())
        &&& self.pvars@.no_duplicates()
        &&& forall|t: int, j: int|
            0 <= t < 3 && 0 <= j < self.width() && #[trigger] self.line(t)[j] != pad_sym()
                ==> self.pvars@.contains(self.line(t)[j])
        &&& forall|i: int|
            0 <= i < self.pvars@.len() ==> is_letter(#[trigger] self.pvars@[i]) && exists|
                t: int,
                j: int,
            | 0 <= t < 3 && 0 <= j < self.width() && self.line(t)[j] == self.pvars@[i]
        &&& self.leading@.len() == 3
        &&& forall|t: int|
            0 <= t < 3 ==> #[trigger] self.leading@[t] == first_nonpad(self.line(t))
                && self.leading@[t] != pad_sym() && self.pvars@.contains(self.leading@[t])
    }
}

/// The largest of three lengths.
pub open spec fn max3(a: int, b: int, c: int) -> int {
    if a >= b && a >= c {
        a
    } else if b >= c {
        b
    } else {
        c
    }
}

/// The scan order never repeats a letter and holds exactly the non-pad
/// symbols met in the first `k` steps.
proof fn lemma_var_prefix_props(l0: Seq<char>, l1: Seq<char>, l2: Seq<char>, w: int, k: int)
    requires
        k >= 0,
    ensures
        var_prefix(l0, l1, l2, w, k).no_duplicates(),
        forall|c: char|
            #[trigger] var_prefix(l0, l1, l2, w, k).contains(c) <==> (c != pad_sym() && exists|
                k2: int,
            | 0 <= k2 < k && scan_char(l0, l1, l2, w, k2) == c),
    decreases k,
{
    if k > 0 {
        lemma_var_prefix_props(l0, l1, l2, w, k - 1);
        let prev = var_prefix(l0, l1, l2, w, k - 1);
        let c0 = scan_char(l0, l1, l2, w, k - 1);
        let cur = var_prefix(l0, l1, l2, w, k);
        assert forall|c: char| #[trigger] cur.contains(c) implies (c != pad_sym() && exists|
            k2: int,
        | 0 <= k2 < k && scan_char(l0, l1, l2, w, k2) == c) by {
            if c0 != pad_sym() && !prev.contains(c0) {
                assert(cur == prev.push(c0));
                if c == c0 {
                    assert(scan_char(l0, l1, l2, w, k - 1) == c);
                } else {
                    assert(prev.contains(c)) by {
                        let i = choose|i: int| 0 <= i < cur.len() && cur[i] == c;
                        assert(prev[i] == c);
                    }
                }
            }
        }
        assert forall|c: char|
            (c != pad_sym() && exists|k2: int|
                0 <= k2 < k && scan_char(l0, l1, l2, w, k2) == c) implies #[trigger] cur.contains(
            c,
        ) by {
            let k2 = choose|k2: int| 0 <= k2 < k && scan_char(l0, l1, l2, w, k2) == c;
            if k2 < k - 1 {
                assert(prev.contains(c));
                let i = choose|i: int| 0 <= i < prev.len() && prev[i] == c;
                if c0 != pad_sym() && !prev.contains(c0) {
                    assert(cur[i] == c);
                }
            } else {
                if prev.contains(c) {
                    let i = choose|i: int| 0 <= i < prev.len() && prev[i] == c;
                    if c0 != pad_sym() && !prev.contains(c0) {
                        assert(cur[i] == c);
                    }
                } else {
                    assert(cur == prev.push(c));
                    assert(cur[cur.len() - 1] == c);
                }
            }
        }
        if c0 != pad_sym() && !prev.contains(c0) {
            assert(cur.drop_last() =~= prev);
            assert(cur.no_duplicates()) by {
                assert forall|i: int, j: int| 0 <= i < j < cur.len() implies cur[i] != cur[j] by {
                    if j == cur.len() - 1 {
                        assert(prev[i] == cur[i]);
                        if cur[i] == c0 {
                            assert(prev.contains(c0));
                        }
                    } else {
                        assert(prev[i] == cur[i] && prev[j] == cur[j]);
                    }
                }
            }
        }
    }
}

/// The first non-pad symbol of a padded term is the term's first symbol.
proof fn lemma_first_nonpad_pad(s: Seq<char>, w: int)
    requires
        1 <= s.len() <= w,
        s[0] != pad_sym(),
    ensures
        first_nonpad(pad(s, w)) == s[0],
    decreases w,
{
    if s.len() == w {
        assert(pad(s, w) =~= s);
    } else {
        assert(pad(s, w)[0] == pad_sym());
        assert(pad(s, w).skip(1) =~= pad(s, w - 1));
        lemma_first_nonpad_pad(s, w - 1);
    }
}

/// Whether every symbol of the vector is a letter.
#[verifier::loop_isolation(false)]
fn check_letters(v: &Vec<char>) -> (r: bool)
    ensures
        r == all_letters(v@),
{
    let mut i: usize = 0;
    while i < v.len()
        invariant
            i <= v@.len(),
            forall|j: int| 0 <= j < i ==> is_letter(#[trigger] v@[j]),
        decreases v@.len() - i,
    {
        let u = v[i] as u32;
        let lower = 'a' as u32;
        let upper = 'A' as u32;
        if !((upper <= u && u <= 'Z' as u32) || (lower <= u && u <= 'z' as u32)) {
            return false;
        }
        i = i + 1;
    }
    true
}

/// The vector left-padded with the pad symbol to width `w`.
#[verifier::loop_isolation(false)]
fn pad_line(v: &Vec<char>, w: usize) -> (r: Vec<char>)
    requires
        v@.len() <= w,
    ensures
        r@ == pad(v@, w as int),
{
    let pad_len = w - v.len();
    let mut out: Vec<char> = Vec::new();
    let mut i: usize = 0;
    while i < pad_len
        invariant
            i <= pad_len,
            out@ =~= pad(v@, w as int).take(i as int),
        decreases pad_len - i,
    {
        out.push('0');
        proof {
            assert(pad(v@, w as int).take(i + 1) =~= pad(v@, w as int).take(i as int).push(
                pad_sym(),
            ));
        }
        i = i + 1;
    }
    let mut j: usize = 0;
    while j < v.len()
        invariant
            j <= v@.len(),
            out@ =~= pad(v@, w as int).take(pad_len + j),
        decreases v@.len() - j,
    {
        out.push(v[j]);
        proof {
            assert(pad(v@, w as int).take(pad_len + j + 1) =~= pad(v@, w as int).take(
                pad_len + j,
            ).push(v@[j as int]));
        }
        j = j + 1;
    }
    proof {
        assert(out@ =~= pad(v@, w as int));
    }
    out
}

impl Puzzle {
    /// Build a puzzle from the two addends and the sum, in that order.
    ///
    /// The terms are padded to a common width; the derived fields follow the
    /// fixed scan rules, so the result is determined by the three inputs.
    #[verifier::rlimit(30)]
    #[verifier::loop_isolation(false)]
    pub fn new(addend1: &Vec<char>, addend2: &Vec<char>, sum: &Vec<char>) -> (r: Result<
        Puzzle,
        MalformedPuzzle,
    >)
        ensures
            r == Err::<Puzzle, MalformedPuzzle>(MalformedPuzzle::EmptyTerm) <==> (addend1@.len()
                == 0 || addend2@.len() == 0 || sum@.len() == 0),
            r == Err::<Puzzle, MalformedPuzzle>(MalformedPuzzle::NonLetter) <==> (addend1@.len()
                > 0 && addend2@.len() > 0 && sum@.len() > 0 && !(all_letters(addend1@)
                && all_letters(addend2@) && all_letters(sum@))),
            r matches Ok(p) ==> ({
                let w = max3(addend1@.len() as int, addend2@.len() as int, sum@.len() as int);
                &&& p.wf()
                &&& p.width() == w
                &&& p.line(0) == pad(addend1@, w)
                &&& p.line(1) == pad(addend2@, w)
                &&& p.line(2) == pad(sum@, w)
                &&& p.pvars@ == var_order(pad(addend1@, w), pad(addend2@, w), pad(sum@, w), w)
                &&& p.leading@ == seq![addend1@[0], addend2@[0], sum@[0]]
            }),
            r is Ok <==> (addend1@.len() > 0 && addend2@.len() > 0 && sum@.len() > 0
                && all_letters(addend1@) && all_letters(addend2@) && all_letters(sum@)),
    {
        if addend1.len() == 0 || addend2.len() == 0 || sum.len() == 0 {
            return Err(MalformedPuzzle::EmptyTerm);
        }
        if !check_letters(addend1) || !check_letters(addend2) || !check_letters(sum) {
            return Err(MalformedPuzzle::NonLetter);
        }
        let mut w = addend1.len();
        if addend2.len() > w {
            w = addend2.len();
        }
        if sum.len() > w {
            w = sum.len();
        }
        let l0 = pad_line(addend1, w);
        let l1 = pad_line(addend2, w);
        let l2 = pad_line(sum, w);
        let ghost g0 = l0@;
        let ghost g1 = l1@;
        let ghost g2 = l2@;

        let mut pvars: Vec<char> = Vec::new();
        let mut jj: usize = 0;
        while jj < w
            invariant
                jj <= w,
                pvars@ == var_prefix(g0, g1, g2, w as int, 3 * jj),
            decreases w - jj,
        {
            let col = w - 1 - jj;
            let mut row: usize = 0;
            while row < 3
                invariant
                    row <= 3,
                    jj < w,
                    pvars@ == var_prefix(g0, g1, g2, w as int, 3 * jj + row),
                decreases 3 - row,
            {
                let c = if row == 0 {
                    l0[col]
                } else if row == 1 {
                    l1[col]
                } else {
                    l2[col]
                };
                proof {
                    vstd::arithmetic::div_mod::lemma_fundamental_div_mod_converse(
                        3 * jj + row,
                        3,
                        jj as int,
                        row as int,
                    );
                    assert(scan_char(g0, g1, g2, w as int, 3 * jj + row) == c);
                }
                if c != '0' && !holds_char(&pvars, c) {
                    pvars.push(c);
                }
                proof {
                    assert(pvars@ == var_prefix(g0, g1, g2, w as int, 3 * jj + row + 1));
                }
                row = row + 1;
            }
            jj = jj + 1;
        }

        let mut tuples: Vec<(char, char, char)> = Vec::new();
        let mut j: usize = 0;
        while j < w
            invariant
                j <= w,
                tuples@.len() == j,
                forall|x: int|
                    0 <= x < j ==> #[trigger] tuples@[x] == col_seq(g0, g1, g2, w as int)[x],
            decreases w - j,
        {
            tuples.push((l0[w - 1 - j], l1[w - 1 - j], l2[w - 1 - j]));
            j = j + 1;
        }
        proof {
            assert(tuples@ =~= col_seq(g0, g1, g2, w as int));
        }

        let mut leading: Vec<char> = Vec::new();
        leading.push(addend1[0]);
        leading.push(addend2[0]);
        leading.push(sum[0]);

        let mut lines: Vec<Vec<char>> = Vec::new();
        lines.push(l0);
        lines.push(l1);
        lines.push(l2);
        let p = Puzzle { lines, pvars, tuples, leading };

        proof {
            assert(p.leading@ =~= seq![addend1@[0], addend2@[0], sum@[0]]);
            lemma_new_wf(p, addend1@, addend2@, sum@, w as int);
        }
        Ok(p)
    }
}

/// The constructed fields satisfy the puzzle invariant.
proof fn lemma_new_wf(p: Puzzle, t0: Seq<char>, t1: Seq<char>, t2: Seq<char>, w: int)
    requires
        t0.len() >= 1 && t1.len() >= 1 && t2.len() >= 1,
        all_letters(t0) && all_letters(t1) && all_letters(t2),
        w == max3(t0.len() as int, t1.len() as int, t2.len() as int),
        p.lines@.len() == 3,
        p.line(0) == pad(t0, w),
        p.line(1) == pad(t1, w),
        p.line(2) == pad(t2, w),
        p.pvars@ == var_order(p.line(0), p.line(1), p.line(2), w),
        p.tuples@ == col_seq(p.line(0), p.line(1), p.line(2), w),
        p.leading@ == seq![t0[0], t1[0], t2[0]],
    ensures
        p.wf(),
        p.width() == w,
{
    let g0 = p.line(0);
    let g1 = p.line(1);
    let g2 = p.line(2);
    assert(g0.len() == w && g1.len() == w && g2.len() == w);
    assert(!is_letter(pad_sym()));
    assert forall|t: int, j: int| 0 <= t < 3 && 0 <= j < w implies is_letter(
        #[trigger] p.line(t)[j],
    ) || p.line(t)[j] == pad_sym() by {
        let s = if t == 0 {
            t0
        } else if t == 1 {
            t1
        } else {
            t2
        };
        if j >= w - s.len() {
            assert(p.line(t)[j] == s[j - (w - s.len())]);
            assert(is_letter(s[j - (w - s.len())]));
        }
    }
    lemma_var_prefix_props(g0, g1, g2, w, 3 * w);
    assert forall|t: int, j: int|
        0 <= t < 3 && 0 <= j < w && #[trigger] p.line(t)[j] != pad_sym() implies p.pvars@.contains(
        p.line(t)[j],
    ) by {
        let k = 3 * (w - 1 - j) + t;
        vstd::arithmetic::div_mod::lemma_fundamental_div_mod_converse(k, 3, w - 1 - j, t);
        assert(scan_char(g0, g1, g2, w, k) == p.line(t)[j]);
        assert(0 <= k < 3 * w) by (nonlinear_arith)
            requires
                0 <= t < 3 && 0 <= j < w && k == 3 * (w - 1 - j) + t,
        ;
    }
    assert forall|i: int| 0 <= i < p.pvars@.len() implies is_letter(#[trigger] p.pvars@[i])
        && exists|t: int, j: int|
        0 <= t < 3 && 0 <= j < w && p.line(t)[j] == p.pvars@[i] by {
        let c = p.pvars@[i];
        assert(p.pvars@.contains(c));
        let k = choose|k: int| 0 <= k < 3 * w && scan_char(g0, g1, g2, w, k) == c;
        let tt = k % 3;
        let jc = w - 1 - k / 3;
        vstd::arithmetic::div_mod::lemma_fundamental_div_mod(k, 3);
        assert(0 <= k % 3 < 3);
        assert(0 <= k / 3 < w) by (nonlinear_arith)
            requires
                0 <= k < 3 * w,
                k == 3 * (k / 3) + k % 3,
                0 <= k % 3 < 3,
        ;
        assert(p.line(tt)[jc] == c);
    }
    assert forall|t: int| 0 <= t < 3 implies #[trigger] p.leading@[t] == first_nonpad(p.line(t))
        && p.leading@[t] != pad_sym() && p.pvars@.contains(p.leading@[t]) by {
        let s = if t == 0 {
            t0
        } else if t == 1 {
            t1
        } else {
            t2
        };
        lemma_first_nonpad_pad(s, w);
        assert(p.leading@[t] == s[0]);
        assert(p.line(t)[w - s.len()] == s[0]);
    }
}

/// The display character of a digit.
pub open spec fn digit_char(d: u8) -> char
    recommends
        d < 10,
{
    ((48 + d) as u8) as char
}

/// How one symbol is displayed: the pad symbol as a blank, an assigned
/// letter as its digit, anything else as itself.
pub open spec fn render_sym(m: Option<Map<char, u8>>, c: char) -> char {
    if c == pad_sym() {
        ' '
    } else {
        match m {
            None => c,
            Some(m) => if m.contains_key(c) {
                digit_char(m[c])
            } else {
                c
            },
        }
    }
}

/// One displayed line: each symbol rendered, then a line break.
pub open spec fn render_line(s: Seq<char>, m: Option<Map<char, u8>>) -> Seq<char> {
    s.map_values(|c: char| render_sym(m, c)).push('\n')
}

/// The view of an optional assignment argument.
pub open spec fn opt_env(vals: Option<&Assignment>) -> Option<Map<char, u8>> {
    match vals {
        None => None,
        Some(a) => Some(a@),
    }
}

/// The whole displayed puzzle: the three lines in order.
pub open spec fn spec_render(p: Puzzle, m: Option<Map<char, u8>>) -> Seq<char> {
    render_line(p.line(0), m) + render_line(p.line(1), m) + render_line(p.line(2), m)
}

impl Puzzle {
    /// Display text for the puzzle: pad symbols become blanks, and letters
    /// assigned by `vals` are replaced by their digits.
    #[verifier::loop_isolation(false)]
    pub fn render(&self, vals: Option<&Assignment>) -> (r: Vec<char>)
        requires
            self.wf(),
            vals matches Some(a) ==> a.wf(),
        ensures
            r@ == spec_render(*self, opt_env(vals)),
    {
        proof {
            if let Some(a) = vals {
                a.lemma_wf_digits();
            }
        }
        let ghost m = opt_env(vals);
        let mut out: Vec<char> = Vec::new();
        let mut t: usize = 0;
        while t < 3
            invariant
                t <= 3,
                out@ == (if t == 0 {
                    Seq::<char>::empty()
                } else if t == 1 {
                    render_line(self.line(0), m)
                } else if t == 2 {
                    render_line(self.line(0), m) + render_line(self.line(1), m)
                } else {
                    spec_render(*self, m)
                }),
            decreases 3 - t,
        {
            let line = &self.lines[t];
            let ghost start = out@;
            let mut j: usize = 0;
            while j < line.len()
                invariant
                    j <= line@.len(),
                    t < 3,
                    line@ == self.line(t as int),
                    out@ =~= start + line@.map_values(|c: char| render_sym(m, c)).take(j as int),
                decreases line@.len() - j,
            {
                let c = line[j];
                let shown: char = if c == '0' {
                    ' '
                } else {
                    match vals {
                        None => c,
                        Some(a) => {
                            match a.get(c) {
                                Some(d) => (48u8 + d) as char,
                                None => c,
                            }
                        },
                    }
                };
                proof {
                    assert(shown == render_sym(m, line@[j as int]));
                    assert(line@.map_values(|c: char| render_sym(m, c)).take(j + 1)
                        =~= line@.map_values(|c: char| render_sym(m, c)).take(j as int).push(
                        shown,
                    ));
                }
                out.push(shown);
                j = j + 1;
            }
            out.push('\n');
            proof {
                assert(line@.map_values(|c: char| render_sym(m, c)).take(line@.len() as int)
                    =~= line@.map_values(|c: char| render_sym(m, c)));
                assert(out@ =~= start + render_line(self.line(t as int), m));
                if t == 2 {
                    assert(out@ =~= spec_render(*self, m));
                }
            }
            t = t + 1;
        }
        out
    }
}

/// Whether the vector holds the symbol `c`.
#[verifier::loop_isolation(false)]
fn holds_char(v: &Vec<char>, c: char) -> (r: bool)
    ensures
        r == v@.contains(c),
{
    let mut i: usize = 0;
    while i < v.len()
        invariant
            i <= v@.len(),
            forall|j: int| 0 <= j < i ==> v@[j] != c,
        decreases v@.len() - i,
    {
        if v[i] == c {
            return true;
        }
        i = i + 1;
    }
    false
}

} // verus!
