//! Partial assignments of decimal digits to letter variables.
//!
//! An [`Assignment`] is the mutable state of the backtracking search: a
//! partial map from letters to digits 0–9.  Its mathematical view is a
//! `Map<char, u8>`.

use vstd::prelude::*;

verus! {

/// The map denoted by a sequence of key/value pairs; later pairs win.
spec fn map_of(s: Seq<(char, u8)>) -> Map<char, u8>
    decreases s.len(),
{
    if s.len() == 0 {
        Map::empty()
    } else {
        map_of(s.drop_last()).insert(s.last().0, s.last().1)
    }
}

/// No key occurs twice in the pair sequence.
spec fn distinct_keys(s: Seq<(char, u8)>) -> bool {
    forall|i: int, j: int| 0 <= i < j < s.len() ==> s[i].0 != s[j].0
}

/// Looking a key up in a pair sequence, scanning from the back.
spec fn seq_get(s: Seq<(char, u8)>, c: char) -> Option<u8>
    decreases s.len(),
{
    if s.len() == 0 {
        None
    } else if s.last().0 == c {
        Some(s.last().1)
    } else {
        seq_get(s.drop_last(), c)
    }
}

/// `map_of` agrees with the linear lookup `seq_get`.
proof fn lemma_map_of_get(s: Seq<(char, u8)>, c: char)
    ensures
        map_of(s).contains_key(c) <==> seq_get(s, c) is Some,
        seq_get(s, c) is Some ==> map_of(s)[c] == seq_get(s, c)->Some_0,
    decreases s.len(),
{
    if s.len() > 0 {
        lemma_map_of_get(s.drop_last(), c);
    }
}

/// Under distinct keys, `map_of` holds exactly the pairs of the sequence.
proof fn lemma_map_of_pairs(s: Seq<(char, u8)>)
    requires
        distinct_keys(s),
    ensures
        forall|i: int|
            0 <= i < s.len() ==> map_of(s).contains_key(#[trigger] s[i].0)
                && map_of(s)[s[i].0] == s[i].1,
        forall|c: char|
            #[trigger] map_of(s).contains_key(c) ==> exists|i: int|
                0 <= i < s.len() && s[i].0 == c,
    decreases s.len(),
{
    if s.len() > 0 {
        let t = s.drop_last();
        lemma_map_of_pairs(t);
        assert(forall|i: int| 0 <= i < t.len() ==> #[trigger] t[i] == s[i]);
        assert(map_of(s) == map_of(t).insert(s.last().0, s.last().1));
        assert forall|i: int|
            0 <= i < s.len() implies map_of(s).contains_key(#[trigger] s[i].0)
                && map_of(s)[s[i].0] == s[i].1 by {
            if i < s.len() - 1 {
                assert(t[i].0 == s[i].0 && t[i].1 == s[i].1);
                assert(map_of(t).contains_key(t[i].0) && map_of(t)[t[i].0] == t[i].1);
                assert(s[i].0 != s.last().0);
            }
        }
        assert forall|c: char|
            #[trigger] map_of(s).contains_key(c) implies exists|i: int|
                0 <= i < s.len() && s[i].0 == c by {
            if c == s.last().0 {
                let w: int = s.len() - 1;
                assert(0 <= w < s.len() && s[w].0 == c);
            } else {
                assert(map_of(t).contains_key(c));
                let w = choose|i: int| 0 <= i < t.len() && t[i].0 == c;
                assert(0 <= w < s.len() && s[w].0 == c);
            }
        }
    }
}

/// A digit already held by some variable of the map.
pub open spec fn digit_used(m: Map<char, u8>, d: u8) -> bool {
    exists|c: char| m.contains_key(c) && m[c] == d
}

/// Distinct variables hold distinct digits.
pub open spec fn env_injective(m: Map<char, u8>) -> bool {
    forall|c1: char, c2: char|
        m.contains_key(c1) && m.contains_key(c2) && c1 != c2 ==> m[c1] != m[c2]
}

/// Every digit of the map is one of 0–9.
pub open spec fn env_digits(m: Map<char, u8>) -> bool {
    forall|c: char| m.contains_key(c) ==> m[c] < 10
}

/// A partial mapping from letter variables to decimal digits 0–9.
///
/// Distinct variables need not hold distinct digits here; digit uniqueness
/// is the solver's concern, enforced through [`Assignment::digit_used`].
pub struct Assignment {
    pairs: Vec<(char, u8)>,
}

impl View for Assignment {
    type V = Map<char, u8>;

    closed spec fn view(&self) -> Map<char, u8> {
        map_of(self.pairs@)
    }
}

impl Assignment {
    /// Internal well-formedness: keys occur once, digits are 0–9.
    pub closed spec fn wf(self) -> bool {
        &&& distinct_keys(self.pairs@)
        &&& forall|i: int| 0 <= i < self.pairs@.len() ==> (#[trigger] self.pairs@[i]).1 < 10
    }

    /// A well-formed assignment holds only digits 0–9.
    pub proof fn lemma_wf_digits(&self)
        requires
            self.wf(),
        ensures
            forall|c: char| self@.contains_key(c) ==> self@[c] < 10,
    {
        lemma_map_of_pairs(self.pairs@);
        assert forall|c: char| self@.contains_key(c) implies self@[c] < 10 by {
            let i = choose|i: int| 0 <= i < self.pairs@.len() && self.pairs@[i].0 == c;
            assert(self@[c] == self.pairs@[i].1);
        }
    }

    /// The empty assignment.
    pub fn new() -> (r: Assignment)
        ensures
            r@ == Map::<char, u8>::empty(),
            r.wf(),
    {
        Assignment { pairs: Vec::new() }
    }

    /// The digit held by `c`, or `None` if `c` is unassigned.
    #[verifier::loop_isolation(false)]
    pub fn get(&self, c: char) -> (r: Option<u8>)
        ensures
            r == (if self@.contains_key(c) {
                Some(self@[c])
            } else {
                None::<u8>
            }),
    {
        proof {
            lemma_map_of_get(self.pairs@, c);
            assert(self.pairs@.take(self.pairs@.len() as int) =~= self.pairs@);
        }
        let mut i: usize = self.pairs.len();
        while i > 0
            invariant
                i <= self.pairs@.len(),
                seq_get(self.pairs@, c) == seq_get(self.pairs@.take(i as int), c),
            decreases i,
        {
            i = i - 1;
            let (k, d) = self.pairs[i];
            proof {
                assert(self.pairs@.take(i + 1).drop_last() =~= self.pairs@.take(i as int));
                assert(self.pairs@.take(i + 1).last() == self.pairs@[i as int]);
            }
            if k == c {
                return Some(d);
            }
        }
        proof {
            assert(self.pairs@.take(0) =~= Seq::<(char, u8)>::empty());
        }
        None
    }

    /// Whether the digit `d` is already held by some assigned variable.
    #[verifier::loop_isolation(false)]
    pub fn digit_used(&self, d: u8) -> (r: bool)
        requires
            self.wf(),
        ensures
            r == digit_used(self@, d),
    {
        proof {
            lemma_map_of_pairs(self.pairs@);
        }
        let mut i: usize = 0;
        while i < self.pairs.len()
            invariant
                i <= self.pairs@.len(),
                self.wf(),
                forall|j: int| 0 <= j < i ==> (#[trigger] self.pairs@[j]).1 != d,
            decreases self.pairs@.len() - i,
        {
            if self.pairs[i].1 == d {
                assert(digit_used(self@, d)) by {
                    assert(self@.contains_key(self.pairs@[i as int].0));
                };
                return true;
            }
            i = i + 1;
        }
        assert(!digit_used(self@, d)) by {
            lemma_map_of_pairs(self.pairs@);
            if digit_used(self@, d) {
                let c = choose|c: char| self@.contains_key(c) && self@[c] == d;
                let j = choose|j: int| 0 <= j < self.pairs@.len() && self.pairs@[j].0 == c;
                assert(self.pairs@[j].1 != d);
            }
        };
        false
    }

    /// Remove the binding of `c`, if any.
    #[verifier::loop_isolation(false)]
    pub fn remove(&mut self, c: char)
        requires
            old(self).wf(),
        ensures
            final(self)@ == old(self)@.remove(c),
            final(self).wf(),
    {
        proof {
            lemma_map_of_pairs(self.pairs@);
        }
        let ghost s0 = self.pairs@;
        let mut i: usize = 0;
        while i < self.pairs.len()
            invariant
                i <= self.pairs@.len(),
                self.pairs@ == s0,
                forall|j: int| 0 <= j < i ==> (#[trigger] s0[j]).0 != c,
            decreases self.pairs@.len() - i,
        {
            if self.pairs[i].0 == c {
                proof {
                    assert(distinct_keys(s0));
                    lemma_remove_pair(s0, i as int);
                }
                self.pairs.remove(i);
                return;
            }
            i = i + 1;
        }
        proof {
            if map_of(s0).contains_key(c) {
                lemma_map_of_pairs(s0);
                let j = choose|j: int| 0 <= j < s0.len() && s0[j].0 == c;
                assert(s0[j].0 != c);
            }
            assert(map_of(s0) =~= map_of(s0).remove(c));
        }
    }

    /// Bind `c` to digit `d`, replacing any earlier binding of `c`.
    pub fn insert(&mut self, c: char, d: u8)
        requires
            old(self).wf(),
            d < 10,
        ensures
            final(self)@ == old(self)@.insert(c, d),
            final(self).wf(),
    {
        let ghost m0 = self@;
        self.remove(c);
        let ghost s1 = self.pairs@;
        self.pairs.push((c, d));
        proof {
            assert(self.pairs@.drop_last() =~= s1);
            assert(self.pairs@.last() == (c, d));
            lemma_map_of_pairs(s1);
            assert forall|j: int| 0 <= j < s1.len() implies (#[trigger] s1[j]).0 != c by {
                if s1[j].0 == c {
                    assert(map_of(s1).contains_key(c));
                }
            }
            assert(self@ =~= m0.insert(c, d));
        }
    }

    /// An independent copy holding the same bindings.
    pub fn snapshot(&self) -> (r: Assignment)
        ensures
            r@ == self@,
            r.wf() <==> self.wf(),
    {
        let mut out: Vec<(char, u8)> = Vec::new();
        let mut i: usize = 0;
        while i < self.pairs.len()
            invariant
                i <= self.pairs@.len(),
                out@ == self.pairs@.take(i as int),
            decreases self.pairs@.len() - i,
        {
            out.push(self.pairs[i]);
            proof {
                assert(self.pairs@.take(i + 1) =~= self.pairs@.take(i as int).push(
                    self.pairs@[i as int],
                ));
            }
            i = i + 1;
        }
        proof {
            assert(out@ =~= self.pairs@);
        }
        Assignment { pairs: out }
    }
}

/// Removing the pair at `idx` removes its key from the denoted map.
proof fn lemma_remove_pair(s: Seq<(char, u8)>, idx: int)
    requires
        distinct_keys(s),
        0 <= idx < s.len(),
    ensures
        map_of(s.remove(idx)) == map_of(s).remove(s[idx].0),
        distinct_keys(s.remove(idx)),
        forall|i: int| 0 <= i < idx ==> #[trigger] s.remove(idx)[i] == s[i],
        forall|i: int| idx <= i < s.len() - 1 ==> #[trigger] s.remove(idx)[i] == s[i + 1],
{
    let c = s[idx].0;
    let t = s.remove(idx);
    assert(forall|i: int| 0 <= i < idx ==> #[trigger] t[i] == s[i]);
    assert(forall|i: int| idx <= i < t.len() ==> #[trigger] t[i] == s[i + 1]);
    assert(distinct_keys(t));
    lemma_map_of_pairs(s);
    lemma_map_of_pairs(t);
    assert forall|k: char| map_of(t).contains_key(k) implies map_of(s).remove(c).contains_key(k)
        && map_of(s).remove(c)[k] == map_of(t)[k] by {
        let i = choose|i: int| 0 <= i < t.len() && t[i].0 == k;
        let j: int = if i < idx {
            i
        } else {
            i + 1
        };
        assert(s[j] == t[i]);
        assert(k != c);
        assert(map_of(s)[k] == s[j].1 && map_of(t)[k] == t[i].1);
    }
    assert forall|k: char| map_of(s).remove(c).contains_key(k) implies map_of(
        t,
    ).contains_key(k) by {
        let j = choose|j: int| 0 <= j < s.len() && s[j].0 == k;
        assert(j != idx);
        let i: int = if j < idx {
            j
        } else {
            j - 1
        };
        assert(t[i] == s[j]);
    }
    assert(map_of(t) =~= map_of(s).remove(c));
}

} // verus!
