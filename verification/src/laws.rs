//! What a returned solution means: the laws of the solver.
//!
//! A map returned by the search assigns distinct digits to exactly the
//! puzzle's letters, makes the column walk succeed, and therefore satisfies
//! the decimal addition `addend1 + addend2 == sum` of the term values, with
//! no leading letter holding 0.

use vstd::prelude::*;

use crate::assignment::env_digits;
use crate::assignment::env_injective;
use crate::puzzle::pad;
use crate::puzzle::pad_sym;
use crate::puzzle::Puzzle;
use crate::solver::cols_ok;
use crate::solver::leading_ok;
use crate::solver::lemma_solve_puzzle_complete;
use crate::solver::lemma_solve_sound;
use crate::solver::spec_ok;
use crate::solver::spec_solve_puzzle;
use crate::solver::sym_lookup;

verus! {

/// The digit a symbol denotes under a full assignment: 0 for the pad symbol.
pub open spec fn sym_digit(m: Map<char, u8>, c: char) -> int {
    if c == pad_sym() {
        0
    } else {
        m[c] as int
    }
}

/// The number a term denotes, read most-significant symbol first.
pub open spec fn term_value(s: Seq<char>, m: Map<char, u8>) -> int
    decreases s.len(),
{
    if s.len() == 0 {
        0
    } else {
        term_value(s.drop_last(), m) * 10 + sym_digit(m, s.last())
    }
}

/// Every letter of the puzzle's lines is assigned by `m`.
pub open spec fn all_known(p: Puzzle, m: Map<char, u8>) -> bool {
    forall|t: int, j: int|
        0 <= t < 3 && 0 <= j < p.width() ==> #[trigger] p.line(t)[j] == pad_sym()
            || m.contains_key(p.line(t)[j])
}

/// A successful carry walk over fully-known columns `i..` equates the
/// values of the remaining (most significant) line prefixes.
proof fn lemma_cols_value(p: Puzzle, m: Map<char, u8>, i: int, carry: int)
    requires
        p.wf(),
        all_known(p, m),
        0 <= i <= p.width(),
        cols_ok(p, m, i, carry),
    ensures
        term_value(p.line(0).take(p.width() - i), m) + term_value(
            p.line(1).take(p.width() - i),
            m,
        ) + carry == term_value(p.line(2).take(p.width() - i), m),
    decreases p.width() - i,
{
    let w = p.width();
    if i == w {
        assert(p.line(0).take(0) =~= Seq::<char>::empty());
        assert(p.line(1).take(0) =~= Seq::<char>::empty());
        assert(p.line(2).take(0) =~= Seq::<char>::empty());
        assert(carry == 0);
    } else {
        let t = p.tuples@[i];
        assert(t == (p.line(0)[w - 1 - i], p.line(1)[w - 1 - i], p.line(2)[w - 1 - i]));
        assert(sym_lookup(m, t.0) is Some && sym_lookup(m, t.0)->Some_0 as int == sym_digit(
            m,
            t.0,
        ));
        assert(sym_lookup(m, t.1) is Some && sym_lookup(m, t.1)->Some_0 as int == sym_digit(
            m,
            t.1,
        ));
        assert(sym_lookup(m, t.2) is Some && sym_lookup(m, t.2)->Some_0 as int == sym_digit(
            m,
            t.2,
        ));
        let total = sym_digit(m, t.0) + sym_digit(m, t.1) + carry;
        assert(total % 10 == sym_digit(m, t.2) && cols_ok(p, m, i + 1, total / 10));
        lemma_cols_value(p, m, i + 1, total / 10);
        vstd::arithmetic::div_mod::lemma_fundamental_div_mod(total, 10);
        assert(p.line(0).take(w - i).drop_last() =~= p.line(0).take(w - i - 1));
        assert(p.line(1).take(w - i).drop_last() =~= p.line(1).take(w - i - 1));
        assert(p.line(2).take(w - i).drop_last() =~= p.line(2).take(w - i - 1));
        assert(p.line(0).take(w - i).last() == t.0);
        assert(p.line(1).take(w - i).last() == t.1);
        assert(p.line(2).take(w - i).last() == t.2);
    }
}

/// Padding a term does not change its value: the pad symbol denotes 0.
pub proof fn lemma_pad_value(s: Seq<char>, w: int, m: Map<char, u8>)
    requires
        s.len() <= w,
    ensures
        term_value(pad(s, w), m) == term_value(s, m),
    decreases w,
{
    if w <= 0 {
        assert(pad(s, w) =~= s);
    } else if s.len() == 0 {
        assert(pad(s, w).last() == pad_sym());
        assert(pad(s, w).drop_last() =~= pad(s, w - 1));
        lemma_pad_value(s, w - 1, m);
    } else {
        assert(pad(s, w).last() == s.last());
        assert(pad(s, w).drop_last() =~= pad(s.drop_last(), w - 1));
        lemma_pad_value(s.drop_last(), w - 1, m);
    }
}

/// A solved puzzle's assignment maps exactly the puzzle's letters to
/// pairwise distinct digits 0–9, satisfies the decimal addition of the
/// padded lines, and gives no leading letter the digit 0.
pub proof fn lemma_solution_correct(p: Puzzle, s: Map<char, u8>)
    requires
        p.wf(),
        spec_solve_puzzle(p) == Some(s),
    ensures
        env_injective(s),
        env_digits(s),
        forall|c: char| #[trigger] s.contains_key(c) <==> p.pvars@.contains(c),
        term_value(p.line(0), s) + term_value(p.line(1), s) == term_value(p.line(2), s),
        forall|t: int|
            0 <= t < 3 ==> s.contains_key(#[trigger] p.leading@[t]) && s[p.leading@[t]] != 0,
{
    let w = p.width();
    lemma_solve_sound(p, p.pvars@, Map::empty(), s);
    assert(all_known(p, s)) by {
        assert forall|t: int, j: int|
            0 <= t < 3 && 0 <= j < w && #[trigger] p.line(t)[j] != pad_sym() implies
            s.contains_key(p.line(t)[j]) by {
            assert(p.pvars@.contains(p.line(t)[j]));
        }
    }
    assert(spec_ok(p, s));
    assert forall|t: int| 0 <= t < 3 implies s.contains_key(#[trigger] p.leading@[t])
        && s[p.leading@[t]] != 0 by {
        assert(p.pvars@.contains(p.leading@[t]));
        assert(sym_lookup(s, p.leading@[t]) != Some(0u8));
    }
    lemma_cols_value(p, s, 0, 0);
    assert(p.line(0).take(w) =~= p.line(0));
    assert(p.line(1).take(w) =~= p.line(1));
    assert(p.line(2).take(w) =~= p.line(2));
}

/// The addition also holds over the original, unpadded terms the puzzle was
/// built from.
pub proof fn lemma_solution_on_terms(
    p: Puzzle,
    t0: Seq<char>,
    t1: Seq<char>,
    t2: Seq<char>,
    s: Map<char, u8>,
)
    requires
        p.wf(),
        t0.len() <= p.width() && p.line(0) == pad(t0, p.width()),
        t1.len() <= p.width() && p.line(1) == pad(t1, p.width()),
        t2.len() <= p.width() && p.line(2) == pad(t2, p.width()),
        spec_solve_puzzle(p) == Some(s),
    ensures
        term_value(t0, s) + term_value(t1, s) == term_value(t2, s),
{
    lemma_solution_correct(p, s);
    lemma_pad_value(t0, p.width(), s);
    lemma_pad_value(t1, p.width(), s);
    lemma_pad_value(t2, p.width(), s);
}

/// Converse of the carry walk: if the values of the remaining prefixes add
/// up with the incoming carry, the walk over fully-known columns accepts.
proof fn lemma_cols_converse(p: Puzzle, m: Map<char, u8>, i: int, carry: int)
    requires
        p.wf(),
        all_known(p, m),
        env_digits(m),
        0 <= i <= p.width(),
        0 <= carry <= 1,
        term_value(p.line(0).take(p.width() - i), m) + term_value(
            p.line(1).take(p.width() - i),
            m,
        ) + carry == term_value(p.line(2).take(p.width() - i), m),
    ensures
        cols_ok(p, m, i, carry),
    decreases p.width() - i,
{
    let w = p.width();
    if i == w {
        assert(p.line(0).take(0) =~= Seq::<char>::empty());
        assert(p.line(1).take(0) =~= Seq::<char>::empty());
        assert(p.line(2).take(0) =~= Seq::<char>::empty());
    } else {
        let t = p.tuples@[i];
        assert(t == (p.line(0)[w - 1 - i], p.line(1)[w - 1 - i], p.line(2)[w - 1 - i]));
        assert(sym_lookup(m, t.0) is Some && sym_lookup(m, t.0)->Some_0 as int == sym_digit(
            m,
            t.0,
        ));
        assert(sym_lookup(m, t.1) is Some && sym_lookup(m, t.1)->Some_0 as int == sym_digit(
            m,
            t.1,
        ));
        assert(sym_lookup(m, t.2) is Some && sym_lookup(m, t.2)->Some_0 as int == sym_digit(
            m,
            t.2,
        ));
        let a = sym_digit(m, t.0);
        let b = sym_digit(m, t.1);
        let sd = sym_digit(m, t.2);
        assert(0 <= a < 10 && 0 <= b < 10 && 0 <= sd < 10);
        let total = a + b + carry;
        assert(p.line(0).take(w - i).drop_last() =~= p.line(0).take(w - i - 1));
        assert(p.line(1).take(w - i).drop_last() =~= p.line(1).take(w - i - 1));
        assert(p.line(2).take(w - i).drop_last() =~= p.line(2).take(w - i - 1));
        assert(p.line(0).take(w - i).last() == t.0);
        assert(p.line(1).take(w - i).last() == t.1);
        assert(p.line(2).take(w - i).last() == t.2);
        let va = term_value(p.line(0).take(w - i - 1), m);
        let vb = term_value(p.line(1).take(w - i - 1), m);
        let vs = term_value(p.line(2).take(w - i - 1), m);
        assert(va * 10 + a + (vb * 10 + b) + carry == vs * 10 + sd);
        vstd::arithmetic::div_mod::lemma_fundamental_div_mod(total, 10);
        let q = total / 10;
        let r = total % 10;
        assert(0 <= r < 10 && 0 <= q <= 1);
        vstd::arithmetic::div_mod::lemma_fundamental_div_mod_converse(
            (va + vb + q) * 10 + r,
            10,
            va + vb + q,
            r,
        );
        vstd::arithmetic::div_mod::lemma_fundamental_div_mod_converse(
            vs * 10 + sd,
            10,
            vs,
            sd,
        );
        assert((va + vb + q) * 10 + r == vs * 10 + sd);
        assert(r == sd && va + vb + q == vs);
        lemma_cols_converse(p, m, i + 1, q);
    }
}

/// Success is owed exactly when a solution exists: if some injective
/// assignment of the puzzle's letters satisfies the addition with no
/// leading letter holding 0, the search returns a solution.
pub proof fn lemma_solve_puzzle_succeeds(p: Puzzle, s: Map<char, u8>)
    requires
        p.wf(),
        env_injective(s),
        env_digits(s),
        forall|i: int| 0 <= i < p.pvars@.len() ==> s.contains_key(#[trigger] p.pvars@[i]),
        term_value(p.line(0), s) + term_value(p.line(1), s) == term_value(p.line(2), s),
        forall|t: int| 0 <= t < 3 ==> s[#[trigger] p.leading@[t]] != 0,
    ensures
        spec_solve_puzzle(p) is Some,
{
    let w = p.width();
    assert(all_known(p, s)) by {
        assert forall|t: int, j: int|
            0 <= t < 3 && 0 <= j < w && #[trigger] p.line(t)[j] != pad_sym() implies
            s.contains_key(p.line(t)[j]) by {
            assert(p.pvars@.contains(p.line(t)[j]));
            let i = choose|i: int| 0 <= i < p.pvars@.len() && p.pvars@[i] == p.line(t)[j];
            assert(s.contains_key(p.pvars@[i]));
        }
    }
    assert(leading_ok(p, s)) by {
        assert forall|t: int| 0 <= t < p.leading@.len() implies sym_lookup(
            s,
            #[trigger] p.leading@[t],
        ) != Some(0u8) by {
            assert(p.pvars@.contains(p.leading@[t]));
            let i = choose|i: int| 0 <= i < p.pvars@.len() && p.pvars@[i] == p.leading@[t];
            assert(s.contains_key(p.pvars@[i]));
            assert(s[p.leading@[t]] != 0);
        }
    }
    assert(p.line(0).take(w) =~= p.line(0));
    assert(p.line(1).take(w) =~= p.line(1));
    assert(p.line(2).take(w) =~= p.line(2));
    lemma_cols_converse(p, s, 0, 0);
    lemma_solve_puzzle_complete(p, s);
}

/// The search is deterministic: its outcome is a function of the puzzle
/// alone, so two solves of one puzzle agree.
pub proof fn lemma_solve_deterministic(
    p: Puzzle,
    r1: Option<Map<char, u8>>,
    r2: Option<Map<char, u8>>,
)
    requires
        r1 == spec_solve_puzzle(p),
        r2 == spec_solve_puzzle(p),
    ensures
        r1 == r2,
{
}

} // verus!
