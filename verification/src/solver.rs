//! The constraint check and the depth-first backtracking search.
//!
//! `spec_ok` is the pruning check: a partial assignment is acceptable until
//! a fully-known column contradicts the addition.  `spec_solve` is the
//! mathematical search: variables are taken from the back of the order,
//! digits 0–9 are tried in ascending order, and the first solution wins.
//! The executable `ok` and `solve` return exactly these functions' values.

use vstd::prelude::*;

use crate::assignment::digit_used;
use crate::assignment::env_digits;
use crate::assignment::env_injective;
use crate::assignment::Assignment;
use crate::puzzle::pad_sym;
use crate::puzzle::Puzzle;

verus! {

/// The value a symbol takes: the pad symbol is 0, a letter has its assigned
/// digit or is unknown.
pub open spec fn sym_lookup(m: Map<char, u8>, c: char) -> Option<u8> {
    if c == pad_sym() {
        Some(0u8)
    } else if m.contains_key(c) {
        Some(m[c])
    } else {
        None
    }
}

/// No leading symbol is known to be 0.
pub open spec fn leading_ok(p: Puzzle, m: Map<char, u8>) -> bool {
    forall|t: int|
        0 <= t < p.leading@.len() ==> sym_lookup(m, #[trigger] p.leading@[t]) != Some(0u8)
}

/// Columns `i` and up pass the carry walk that starts with carry `carry`:
/// a fully-known column must match the addition modulo 10 and hands its
/// carry on; the walk stops, accepting, at the first unknown symbol; a
/// completed walk must end with carry 0.
pub open spec fn cols_ok(p: Puzzle, m: Map<char, u8>, i: int, carry: int) -> bool
    decreases p.tuples@.len() - i,
{
    if i < 0 || i >= p.tuples@.len() {
        carry == 0
    } else {
        let t = p.tuples@[i];
        match (sym_lookup(m, t.0), sym_lookup(m, t.1), sym_lookup(m, t.2)) {
            (Some(v1), Some(v2), Some(vs)) => {
                let total = v1 as int + v2 as int + carry;
                total % 10 == vs as int && cols_ok(p, m, i + 1, total / 10)
            },
            _ => true,
        }
    }
}

/// A (possibly partial) assignment that could still lead to a solution.
pub open spec fn spec_ok(p: Puzzle, m: Map<char, u8>) -> bool {
    leading_ok(p, m) && cols_ok(p, m, 0, 0)
}

/// The depth-first search outcome from a partial state: `vars` is the stack
/// of still-open variables (next one last) and `m` the bindings so far.
pub open spec fn spec_solve(p: Puzzle, vars: Seq<char>, m: Map<char, u8>) -> Option<
    Map<char, u8>,
>
    decreases vars.len(), 0int,
{
    if !spec_ok(p, m) {
        None
    } else if vars.len() == 0 {
        Some(m)
    } else {
        spec_try(p, vars.drop_last(), m, vars.last(), 0)
    }
}

/// Try digits `d..10` in ascending order for the variable `v`, skipping
/// digits already in use; the first digit whose branch solves wins.
pub open spec fn spec_try(p: Puzzle, rest: Seq<char>, m: Map<char, u8>, v: char, d: int) -> Option<
    Map<char, u8>,
>
    decreases rest.len(), 11 - d,
{
    if d < 0 || d >= 10 {
        None
    } else if digit_used(m, d as u8) {
        spec_try(p, rest, m, v, d + 1)
    } else {
        match spec_solve(p, rest, m.insert(v, d as u8)) {
            Some(s) => Some(s),
            None => spec_try(p, rest, m, v, d + 1),
        }
    }
}

/// The solving entry point's outcome: the search from the empty assignment
/// over the puzzle's full variable order.
pub open spec fn spec_solve_puzzle(p: Puzzle) -> Option<Map<char, u8>> {
    spec_solve(p, p.pvars@, Map::empty())
}

impl Puzzle {
    /// The value of the symbol `c` under `vals`: helper for the column walk.
    fn lookup(vals: &Assignment, c: char) -> (r: Option<u8>)
        ensures
            r == sym_lookup(vals@, c),
            vals.wf() && r is Some ==> r->Some_0 < 10,
    {
        proof {
            if vals.wf() {
                vals.lemma_wf_digits();
            }
        }
        if c == '0' {
            Some(0)
        } else {
            vals.get(c)
        }
    }

    /// True iff `vals` violates no constraint yet: no leading letter holds
    /// 0, and the column walk from the least significant column accepts.
    #[verifier::loop_isolation(false)]
    pub fn ok(&self, vals: &Assignment) -> (r: bool)
        requires
            self.wf(),
            vals.wf(),
        ensures
            r == spec_ok(*self, vals@),
    {
        let mut t: usize = 0;
        while t < self.leading.len()
            invariant
                t <= self.leading@.len(),
                forall|x: int| 0 <= x < t ==> sym_lookup(vals@, #[trigger] self.leading@[x])
                    != Some(0u8),
            decreases self.leading@.len() - t,
        {
            if let Some(0) = Self::lookup(vals, self.leading[t]) {
                return false;
            }
            t = t + 1;
        }

        let mut carry: u8 = 0;
        let mut i: usize = 0;
        while i < self.tuples.len()
            invariant
                i <= self.tuples@.len(),
                carry <= 1,
                cols_ok(*self, vals@, 0, 0) == cols_ok(*self, vals@, i as int, carry as int),
            decreases self.tuples@.len() - i,
        {
            let (a, b, s) = self.tuples[i];
            let v1 = Self::lookup(vals, a);
            let v2 = Self::lookup(vals, b);
            let vs = Self::lookup(vals, s);
            match (v1, v2, vs) {
                (Some(v1), Some(v2), Some(vs)) => {
                    let total = v1 + v2 + carry;
                    if total % 10 != vs {
                        return false;
                    }
                    carry = total / 10;
                },
                _ => {
                    return true;
                },
            }
            i = i + 1;
        }
        carry == 0
    }

    /// Depth-first search for a solution extending `vals`, assigning the
    /// variables of `pvars` from its back.  Returns exactly the outcome of
    /// [`spec_solve`]; on failure `pvars` and `vals` are restored, on
    /// success `pvars` keeps only the variables never reached.
    #[verifier::loop_isolation(false)]
    pub fn solve(&self, pvars: &mut Vec<char>, vals: &mut Assignment) -> (r: Option<Assignment>)
        requires
            self.wf(),
            old(vals).wf(),
            old(pvars)@.no_duplicates(),
            forall|i: int|
                0 <= i < old(pvars)@.len() ==> !old(vals)@.contains_key(
                    #[trigger] old(pvars)@[i],
                ),
        ensures
            final(vals).wf(),
            r matches Some(e) ==> e.wf() && Some(e@) == spec_solve(*self, old(pvars)@, old(vals)@),
            r is None ==> spec_solve(*self, old(pvars)@, old(vals)@) is None && final(pvars)@
                == old(pvars)@ && final(vals)@ == old(vals)@,
            final(pvars)@.len() <= old(pvars)@.len(),
            final(pvars)@ == old(pvars)@.take(final(pvars)@.len() as int),
        decreases old(pvars)@.len(),
    {
        if !self.ok(vals) {
            proof {
                assert(pvars@ == pvars@.take(pvars@.len() as int)) by {
                    assert(pvars@.take(pvars@.len() as int) =~= pvars@);
                }
            }
            return None;
        }
        if pvars.len() == 0 {
            let e = vals.snapshot();
            proof {
                assert(pvars@.take(pvars@.len() as int) =~= pvars@);
            }
            return Some(e);
        }
        let ghost pvars0 = pvars@;
        let ghost m0 = vals@;
        let v = pvars.pop().unwrap();
        let ghost rest = pvars@;
        proof {
            assert(rest == pvars0.drop_last() && v == pvars0.last());
        }
        let mut d: u8 = 0;
        while d < 10
            invariant
                d <= 10,
                pvars@ == rest,
                vals.wf(),
                vals@ == m0 || (exists|x: u8| x < d && vals@ == m0.insert(v, x)),
                spec_try(*self, rest, m0, v, 0) == spec_try(*self, rest, m0, v, d as int),
            decreases 10 - d,
        {
            let ghost m_before = vals@;
            let used = vals.digit_used(d);
            proof {
                assert(digit_used(m_before, d) == digit_used(m0, d)) by {
                    if m_before != m0 {
                        let x = choose|x: u8| x < d && m_before == m0.insert(v, x);
                        assert(!m0.contains_key(v));
                        if digit_used(m_before, d) {
                            let c = choose|c: char|
                                m_before.contains_key(c) && m_before[c] == d;
                            assert(c != v);
                            assert(m0.contains_key(c) && m0[c] == d);
                        }
                        if digit_used(m0, d) {
                            let c = choose|c: char| m0.contains_key(c) && m0[c] == d;
                            assert(c != v);
                            assert(m_before.contains_key(c) && m_before[c] == d);
                        }
                    }
                }
            }
            if !used {
                vals.insert(v, d);
                proof {
                    assert(vals@ == m0.insert(v, d)) by {
                        if m_before != m0 {
                            let x = choose|x: u8| x < d && m_before == m0.insert(v, x);
                            assert(m0.insert(v, x).insert(v, d) =~= m0.insert(v, d));
                        }
                    }
                    assert forall|i: int| 0 <= i < rest.len() implies !vals@.contains_key(
                        #[trigger] rest[i],
                    ) by {
                        assert(rest[i] == pvars0[i]);
                        assert(pvars0[i] != v) by {
                            assert(pvars0[pvars0.len() - 1] == v);
                        }
                    }
                }
                let soln = self.solve(pvars, vals);
                match soln {
                    Some(e) => {
                        proof {
                            assert(spec_try(*self, rest, m0, v, d as int) == Some(e@));
                            assert(spec_solve(*self, pvars0, m0) == Some(e@));
                            assert(pvars@ == pvars0.take(pvars@.len() as int)) by {
                                assert(pvars@ == rest.take(pvars@.len() as int));
                                assert(rest.take(pvars@.len() as int) =~= pvars0.take(
                                    pvars@.len() as int,
                                ));
                            }
                        }
                        return Some(e);
                    },
                    None => {
                        proof {
                            assert(spec_solve(*self, rest, m0.insert(v, d as u8)) is None);
                            assert(spec_try(*self, rest, m0, v, d as int) == spec_try(
                                *self,
                                rest,
                                m0,
                                v,
                                d + 1,
                            ));
                        }
                    },
                }
            } else {
                proof {
                    assert(spec_try(*self, rest, m0, v, d as int) == spec_try(
                        *self,
                        rest,
                        m0,
                        v,
                        d + 1,
                    ));
                }
            }
            d = d + 1;
        }
        proof {
            assert(spec_try(*self, rest, m0, v, 10) is None);
            assert(spec_solve(*self, pvars0, m0) is None);
        }
        let ghost m_end = vals@;
        vals.remove(v);
        proof {
            assert(vals@ == m0) by {
                assert(!m0.contains_key(v));
                assert(m0.remove(v) =~= m0);
                if m_end != m0 {
                    let x = choose|x: u8| x < 10 && m_end == m0.insert(v, x);
                    assert(m0.insert(v, x).remove(v) =~= m0);
                }
            }
        }
        pvars.push(v);
        proof {
            assert(pvars@ =~= pvars0);
            assert(pvars@ == pvars0.take(pvars@.len() as int)) by {
                assert(pvars0.take(pvars0.len() as int) =~= pvars0);
            }
        }
        None
    }

    /// Solve the puzzle: search from the empty assignment over the derived
    /// variable order.  With more than 10 distinct letters no injective
    /// digit assignment exists, so the search is skipped outright.
    pub fn solve_puzzle(&self) -> (r: Option<Assignment>)
        requires
            self.wf(),
        ensures
            r matches Some(e) ==> e.wf() && Some(e@) == spec_solve_puzzle(*self),
            r is None ==> spec_solve_puzzle(*self) is None,
            self.pvars@.len() > 10 ==> r is None,
    {
        if self.pvars.len() > 10 {
            proof {
                lemma_too_many_letters(*self);
            }
            return None;
        }
        let mut pv = copy_chars(&self.pvars);
        let mut vals = Assignment::new();
        self.solve(&mut pv, &mut vals)
    }
}

/// An independent copy of a symbol vector.
#[verifier::loop_isolation(false)]
fn copy_chars(v: &Vec<char>) -> (r: Vec<char>)
    ensures
        r@ == v@,
{
    let mut out: Vec<char> = Vec::new();
    let mut i: usize = 0;
    while i < v.len()
        invariant
            i <= v@.len(),
            out@ == v@.take(i as int),
        decreases v@.len() - i,
    {
        out.push(v[i]);
        proof {
            assert(v@.take(i + 1) =~= v@.take(i as int).push(v@[i as int]));
        }
        i = i + 1;
    }
    proof {
        assert(v@.take(v@.len() as int) =~= v@);
    }
    out
}

/// Soundness of the search: a returned map extends the partial assignment,
/// assigns exactly the open variables besides, keeps digits 0–9 injective,
/// and passes the full constraint check.
pub proof fn lemma_solve_sound(p: Puzzle, vars: Seq<char>, m: Map<char, u8>, s: Map<char, u8>)
    requires
        vars.no_duplicates(),
        forall|i: int| 0 <= i < vars.len() ==> !m.contains_key(#[trigger] vars[i]),
        env_injective(m),
        env_digits(m),
        spec_solve(p, vars, m) == Some(s),
    ensures
        spec_ok(p, s),
        env_injective(s),
        env_digits(s),
        forall|c: char| #[trigger] m.contains_key(c) ==> s.contains_key(c) && s[c] == m[c],
        forall|c: char| #[trigger] s.contains_key(c) <==> m.contains_key(c) || vars.contains(c),
    decreases vars.len(), 0int,
{
    if vars.len() == 0 {
        assert(s == m);
        assert(forall|c: char| !vars.contains(c));
    } else {
        let v = vars.last();
        let rest = vars.drop_last();
        assert(!m.contains_key(v)) by {
            assert(!m.contains_key(vars[vars.len() - 1]));
        }
        assert(!rest.contains(v)) by {
            if rest.contains(v) {
                let i = choose|i: int| 0 <= i < rest.len() && rest[i] == v;
                assert(vars[i] == vars[vars.len() - 1]);
            }
        }
        assert(forall|i: int| 0 <= i < rest.len() ==> !m.contains_key(#[trigger] rest[i]));
        lemma_try_sound(p, rest, m, v, 0, s);
        assert forall|c: char| #[trigger] s.contains_key(c) <==> m.contains_key(c)
            || vars.contains(c) by {
            if s.contains_key(c) && !m.contains_key(c) {
                if c == v {
                    assert(vars[vars.len() - 1] == c);
                } else {
                    let i = choose|i: int| 0 <= i < rest.len() && rest[i] == c;
                    assert(vars[i] == c);
                }
            }
            if vars.contains(c) {
                let i = choose|i: int| 0 <= i < vars.len() && vars[i] == c;
                if i < vars.len() - 1 {
                    assert(rest[i] == c);
                }
            }
        }
    }
}

/// Soundness of the digit loop: a map returned while trying digits `d..10`
/// for `v` binds `v` and the remaining variables and preserves injectivity.
proof fn lemma_try_sound(
    p: Puzzle,
    rest: Seq<char>,
    m: Map<char, u8>,
    v: char,
    d: int,
    s: Map<char, u8>,
)
    requires
        rest.no_duplicates(),
        !rest.contains(v),
        !m.contains_key(v),
        forall|i: int| 0 <= i < rest.len() ==> !m.contains_key(#[trigger] rest[i]),
        env_injective(m),
        env_digits(m),
        0 <= d <= 10,
        spec_try(p, rest, m, v, d) == Some(s),
    ensures
        spec_ok(p, s),
        env_injective(s),
        env_digits(s),
        forall|c: char| #[trigger] m.contains_key(c) ==> s.contains_key(c) && s[c] == m[c],
        s.contains_key(v),
        forall|c: char|
            #[trigger] s.contains_key(c) <==> m.contains_key(c) || c == v || rest.contains(c),
    decreases rest.len(), 11 - d,
{
    if digit_used(m, d as u8) {
        lemma_try_sound(p, rest, m, v, d + 1, s);
    } else {
        let m2 = m.insert(v, d as u8);
        if spec_solve(p, rest, m2) == Some(s) {
            assert(env_injective(m2)) by {
                assert forall|c1: char, c2: char|
                    m2.contains_key(c1) && m2.contains_key(c2) && c1 != c2 implies m2[c1]
                    != m2[c2] by {
                    if c1 == v {
                        assert(!(m.contains_key(c2) && m[c2] == d as u8));
                    } else if c2 == v {
                        assert(!(m.contains_key(c1) && m[c1] == d as u8));
                    }
                }
            }
            assert(forall|i: int| 0 <= i < rest.len() ==> !m2.contains_key(#[trigger] rest[i]));
            lemma_solve_sound(p, rest, m2, s);
        } else {
            lemma_try_sound(p, rest, m, v, d + 1, s);
        }
    }
}

/// The pruning check is optimistic: a partial assignment contained in an
/// acceptable one is itself acceptable.
proof fn lemma_cols_monotone(p: Puzzle, m: Map<char, u8>, s: Map<char, u8>, i: int, carry: int)
    requires
        forall|c: char| #[trigger] m.contains_key(c) ==> s.contains_key(c) && s[c] == m[c],
        cols_ok(p, s, i, carry),
    ensures
        cols_ok(p, m, i, carry),
    decreases p.tuples@.len() - i,
{
    if 0 <= i < p.tuples@.len() {
        let t = p.tuples@[i];
        match (sym_lookup(m, t.0), sym_lookup(m, t.1), sym_lookup(m, t.2)) {
            (Some(v1), Some(v2), Some(vs)) => {
                assert(sym_lookup(s, t.0) == Some(v1));
                assert(sym_lookup(s, t.1) == Some(v2));
                assert(sym_lookup(s, t.2) == Some(vs));
                let total = v1 as int + v2 as int + carry;
                lemma_cols_monotone(p, m, s, i + 1, total / 10);
            },
            _ => {},
        }
    }
}

/// A partial assignment contained in one that passes the full check passes
/// the check itself.
proof fn lemma_ok_monotone(p: Puzzle, m: Map<char, u8>, s: Map<char, u8>)
    requires
        forall|c: char| #[trigger] m.contains_key(c) ==> s.contains_key(c) && s[c] == m[c],
        spec_ok(p, s),
    ensures
        spec_ok(p, m),
{
    assert forall|t: int| 0 <= t < p.leading@.len() implies sym_lookup(
        m,
        #[trigger] p.leading@[t],
    ) != Some(0u8) by {
        let c = p.leading@[t];
        if sym_lookup(m, c) == Some(0u8) {
            assert(sym_lookup(s, c) == Some(0u8));
        }
    }
    lemma_cols_monotone(p, m, s, 0, 0);
}

/// Completeness of the search: if some acceptable full assignment extends
/// the partial state, the search from that state succeeds.
pub proof fn lemma_solve_complete(p: Puzzle, vars: Seq<char>, m: Map<char, u8>, s: Map<char, u8>)
    requires
        vars.no_duplicates(),
        forall|i: int| 0 <= i < vars.len() ==> !m.contains_key(#[trigger] vars[i]),
        forall|c: char| #[trigger] m.contains_key(c) ==> s.contains_key(c) && s[c] == m[c],
        forall|i: int| 0 <= i < vars.len() ==> s.contains_key(#[trigger] vars[i]),
        env_injective(s),
        env_digits(s),
        spec_ok(p, s),
    ensures
        spec_solve(p, vars, m) is Some,
    decreases vars.len(), 0int,
{
    lemma_ok_monotone(p, m, s);
    if vars.len() > 0 {
        let v = vars.last();
        let rest = vars.drop_last();
        assert(s.contains_key(v) && !m.contains_key(v)) by {
            assert(s.contains_key(vars[vars.len() - 1]));
            assert(!m.contains_key(vars[vars.len() - 1]));
        }
        assert(!rest.contains(v)) by {
            if rest.contains(v) {
                let i = choose|i: int| 0 <= i < rest.len() && rest[i] == v;
                assert(vars[i] == vars[vars.len() - 1]);
            }
        }
        assert(forall|i: int| 0 <= i < rest.len() ==> !m.contains_key(#[trigger] rest[i]));
        assert(forall|i: int| 0 <= i < rest.len() ==> s.contains_key(#[trigger] rest[i]));
        assert(s[v] < 10);
        lemma_try_complete(p, rest, m, v, 0, s);
    }
}

/// Completeness of the digit loop: with the target digit `s[v]` still
/// ahead, some digit at or past `d` leads to a solution.
proof fn lemma_try_complete(
    p: Puzzle,
    rest: Seq<char>,
    m: Map<char, u8>,
    v: char,
    d: int,
    s: Map<char, u8>,
)
    requires
        rest.no_duplicates(),
        !rest.contains(v),
        !m.contains_key(v),
        forall|i: int| 0 <= i < rest.len() ==> !m.contains_key(#[trigger] rest[i]),
        forall|c: char| #[trigger] m.contains_key(c) ==> s.contains_key(c) && s[c] == m[c],
        forall|i: int| 0 <= i < rest.len() ==> s.contains_key(#[trigger] rest[i]),
        s.contains_key(v),
        env_injective(s),
        env_digits(s),
        spec_ok(p, s),
        0 <= d <= s[v],
    ensures
        spec_try(p, rest, m, v, d) is Some,
    decreases rest.len(), 10 - d,
{
    let dv = s[v];
    assert(dv < 10);
    if digit_used(m, d as u8) {
        assert(d < dv) by {
            if d == dv {
                let c = choose|c: char| m.contains_key(c) && m[c] == d as u8;
                assert(s[c] == s[v] && c != v);
            }
        }
        lemma_try_complete(p, rest, m, v, d + 1, s);
    } else if spec_solve(p, rest, m.insert(v, d as u8)) is Some {
    } else {
        assert(d < dv) by {
            if d == dv {
                let m2 = m.insert(v, dv);
                assert(forall|c: char|
                    #[trigger] m2.contains_key(c) ==> s.contains_key(c) && s[c] == m2[c]);
                lemma_solve_complete(p, rest, m2, s);
            }
        }
        lemma_try_complete(p, rest, m, v, d + 1, s);
    }
}

/// `None` from the search means unsatisfiable: were there any acceptable
/// assignment of the puzzle's letters, the search would return one.
pub proof fn lemma_solve_puzzle_complete(p: Puzzle, s: Map<char, u8>)
    requires
        p.wf(),
        env_injective(s),
        env_digits(s),
        forall|i: int| 0 <= i < p.pvars@.len() ==> s.contains_key(#[trigger] p.pvars@[i]),
        spec_ok(p, s),
    ensures
        spec_solve_puzzle(p) is Some,
{
    lemma_solve_complete(p, p.pvars@, Map::empty(), s);
}

/// Pigeonhole: variables holding pairwise distinct digits drawn from 0–9
/// number at most 10.
proof fn lemma_pigeonhole(vars: Seq<char>, s: Map<char, u8>)
    requires
        vars.no_duplicates(),
        env_injective(s),
        env_digits(s),
        forall|i: int| 0 <= i < vars.len() ==> s.contains_key(#[trigger] vars[i]),
    ensures
        vars.len() <= 10,
{
    let dg = Seq::new(vars.len(), |i: int| s[vars[i]] as int);
    assert(dg.no_duplicates()) by {
        assert forall|i: int, j: int| 0 <= i < j < dg.len() implies dg[i] != dg[j] by {
            assert(vars[i] != vars[j]);
        }
    }
    dg.unique_seq_to_set();
    assert(dg.to_set().subset_of(vstd::set_lib::set_int_range(0, 10))) by {
        assert forall|x: int| dg.to_set().contains(x) implies vstd::set_lib::set_int_range(
            0,
            10,
        ).contains(x) by {
            let i = choose|i: int| 0 <= i < dg.len() && dg[i] == x;
            assert(s[vars[i]] < 10);
        }
    }
    vstd::set_lib::lemma_int_range(0, 10);
    vstd::set_lib::lemma_len_subset(dg.to_set(), vstd::set_lib::set_int_range(0, 10));
}

/// A puzzle with more than 10 distinct letters is unsatisfiable: the search
/// itself can never return a map.
pub proof fn lemma_too_many_letters(p: Puzzle)
    requires
        p.wf(),
        p.pvars@.len() > 10,
    ensures
        spec_solve_puzzle(p) is None,
{
    if spec_solve_puzzle(p) is Some {
        let s = spec_solve_puzzle(p)->Some_0;
        lemma_solve_sound(p, p.pvars@, Map::empty(), s);
        assert(forall|i: int|
            0 <= i < p.pvars@.len() ==> s.contains_key(#[trigger] p.pvars@[i]));
        lemma_pigeonhole(p.pvars@, s);
    }
}

} // verus!
