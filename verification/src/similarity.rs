//! Jaccard similarity of two sets of words, kept as an exact ratio.

use crate::ratio::Ratio;
use crate::text::Text;
use crate::wordset::WordSet;
use vstd::prelude::*;

verus! {

/// The number of words that `a` and `b` share, out of the number of words
/// that either has.
pub open spec fn jaccard(a: Set<Text>, b: Set<Text>) -> Ratio {
    Ratio { num: a.intersect(b).len(), den: a.union(b).len() }
}

/// Two sets that are not empty and share no word have similarity zero.
pub proof fn lemma_jaccard_disjoint(a: Set<Text>, b: Set<Text>)
    requires
        a.finite(),
        b.finite(),
        a.len() > 0,
        b.len() > 0,
        a.disjoint(b),
    ensures
        jaccard(a, b).is_zero(),
        jaccard(a, b).den == a.len() + b.len(),
{
    assert(a.intersect(b) =~= Set::<Text>::empty());
    vstd::set_lib::lemma_set_intersect_union_lens(a, b);
}

/// A set that is not empty has similarity one with itself.
pub proof fn lemma_jaccard_same(a: Set<Text>)
    requires
        a.finite(),
        a.len() > 0,
    ensures
        jaccard(a, a).is_one(),
{
    assert(a.intersect(a) =~= a);
    assert(a.union(a) =~= a);
}

/// With an empty set, every similarity is zero.
pub proof fn lemma_jaccard_empty(a: Set<Text>, b: Set<Text>)
    requires
        a.finite(),
        b.finite(),
        a.len() == 0 || b.len() == 0,
    ensures
        jaccard(a, b).is_zero(),
{
    assert(a.intersect(b) =~= Set::<Text>::empty());
}

/// The similarity of two sets: how many words they share, out of how many
/// words either has.
#[derive(Debug, Clone, Copy)]
pub struct Similarity {
    shared: u64,
    total: u128,
}

impl View for Similarity {
    type V = Ratio;

    closed spec fn view(&self) -> Ratio {
        Ratio { num: self.shared as nat, den: self.total as nat }
    }
}

impl Similarity {
    /// The shared words are among all the words, of which two sets have at
    /// most twice what one set can hold.
    #[verifier::type_invariant]
    closed spec fn in_range(&self) -> bool {
        self.shared <= self.total <= 2 * u64::MAX
    }

    /// The number of shared words.
    pub fn shared(&self) -> (n: u64)
        ensures
            n == self@.num,
    {
        self.shared
    }

    /// The number of words in either set.
    pub fn total(&self) -> (n: u128)
        ensures
            n == self@.den,
    {
        self.total
    }

    /// The similarity of nothing with nothing.
    pub fn zero() -> (sim: Similarity)
        ensures
            sim@ == (Ratio { num: 0, den: 0 }),
    {
        Similarity { shared: 0, total: 0 }
    }

    /// Whether the sets share no word.
    pub fn is_zero(&self) -> (r: bool)
        ensures
            r == self@.is_zero(),
    {
        self.shared == 0
    }

    /// Whether the sets have a word and share every word.
    pub fn is_one(&self) -> (r: bool)
        ensures
            r == self@.is_one(),
    {
        self.total > 0 && self.shared as u128 == self.total
    }

    /// Whether the similarity is `num / den` or more.
    pub fn at_least(&self, num: u32, den: u32) -> (r: bool)
        ensures
            r == self@.at_least(num as nat, den as nat),
    {
        proof {
            use_type_invariant(self);
        }
        let base: u128 = if self.total == 0 {
            1
        } else {
            self.total
        };
        assert(self.shared * den <= u64::MAX * u32::MAX) by (nonlinear_arith)
            requires
                self.shared <= u64::MAX,
                den <= u32::MAX,
        ;
        assert(num * base <= u32::MAX * (2 * u64::MAX)) by (nonlinear_arith)
            requires
                num <= u32::MAX,
                base <= 2 * u64::MAX,
        ;
        self.shared as u128 * den as u128 >= num as u128 * base
    }

    /// Whether the similarity is greater than `other`.
    pub fn exceeds(&self, other: &Similarity) -> (r: bool)
        ensures
            r == self@.exceeds(other@),
    {
        proof {
            use_type_invariant(self);
            use_type_invariant(other);
        }
        let mine = half_product(
            self.shared,
            if other.total == 0 {
                1
            } else {
                other.total
            },
        );
        let theirs = half_product(
            other.shared,
            if self.total == 0 {
                1
            } else {
                self.total
            },
        );
        mine.0 > theirs.0 || (mine.0 == theirs.0 && mine.1 > theirs.1)
    }
}

/// The product `a * b` as `2 * half + rest`, which fits where the product
/// itself may not.
fn half_product(a: u64, b: u128) -> (r: (u128, u8))
    requires
        b <= 2 * u64::MAX,
    ensures
        a * b == 2 * r.0 + r.1,
        r.1 <= 1,
{
    let high: u128 = b / 2;
    let low: u128 = b % 2;
    assert(a * high <= u64::MAX * u64::MAX) by (nonlinear_arith)
        requires
            a <= u64::MAX,
            high <= u64::MAX,
    ;
    assert(a * b == 2 * (a * high) + a * low) by (nonlinear_arith)
        requires
            b == 2 * high + low,
    ;
    assert(a * low <= a) by (nonlinear_arith)
        requires
            low <= 1,
    ;
    let upper: u128 = a as u128 * high;
    let lower: u128 = a as u128 * low;
    (upper + lower / 2, (lower % 2) as u8)
}

/// The Jaccard similarity of two sets of words.
pub fn jaccard_similarity(left: &WordSet, right: &WordSet) -> (sim: Similarity)
    requires
        left.wf(),
        right.wf(),
    ensures
        sim@ == jaccard(left@, right@),
{
    let mut shared: usize = 0;
    let mut i: usize = 0;
    let n = left.len();
    proof {
        assert(left.seq().take(0).to_set() =~= Set::<Text>::empty());
        assert(Set::<Text>::empty().intersect(right@) =~= Set::<Text>::empty());
    }
    while i < n
        invariant
            i <= n,
            n == left.seq().len(),
            left.wf(),
            right.wf(),
            shared <= i,
            shared == left.seq().take(i as int).to_set().intersect(right@).len(),
        decreases n - i,
    {
        let ghost before = left.seq().take(i as int);
        let word = left.get(i);
        proof {
            assert(left.seq().take(i + 1) =~= before.push(word@));
            before.lemma_push_to_set_commute(word@);
            vstd::seq_lib::seq_to_set_is_finite(before);
            assert(!before.to_set().contains(word@)) by {
                if before.to_set().contains(word@) {
                    let j = choose|j: int| 0 <= j < before.len() && before[j] == word@;
                    assert(left.seq()[j] == left.seq()[i as int]);
                }
            }
            if right@.contains(word@) {
                assert(before.to_set().insert(word@).intersect(right@)
                    =~= before.to_set().intersect(right@).insert(word@));
            } else {
                assert(before.to_set().insert(word@).intersect(right@)
                    =~= before.to_set().intersect(right@));
            }
        }
        if right.contains(word) {
            shared += 1;
        }
        i += 1;
    }
    let m = right.len();
    proof {
        assert(left.seq().take(n as int) =~= left.seq());
        left.lemma_len();
        right.lemma_len();
        vstd::set_lib::lemma_set_intersect_union_lens(left@, right@);
        vstd::set_lib::lemma_len_intersect(right@, left@);
        assert(right@.intersect(left@) =~= left@.intersect(right@));
    }
    Similarity { shared: shared as u64, total: n as u128 + m as u128 - shared as u128 }
}

} // verus!
