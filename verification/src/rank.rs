//! The order in which counted texts are ranked, and a sort by it.

use crate::text::Text;
use vstd::prelude::*;
use vstd::relations::{sorted_by, total_ordering};
use vstd::std_specs::iter::IteratorSpec;

verus! {

/// `a` is `b` or comes before it in the dictionary, character by character
/// in the order of the code points. This is the order of `str`.
pub open spec fn text_le(a: Text, b: Text) -> bool
    decreases a.len(),
{
    if a.len() == 0 {
        true
    } else if b.len() == 0 {
        false
    } else if a[0] != b[0] {
        a[0] < b[0]
    } else {
        text_le(a.drop_first(), b.drop_first())
    }
}

/// Every text is itself or before itself.
pub proof fn lemma_text_le_reflexive(a: Text)
    ensures
        text_le(a, a),
    decreases a.len(),
{
    if a.len() > 0 {
        lemma_text_le_reflexive(a.drop_first());
    }
}

/// Of two texts one is the other or before it.
pub proof fn lemma_text_le_total(a: Text, b: Text)
    ensures
        text_le(a, b) || text_le(b, a),
    decreases a.len(),
{
    if a.len() > 0 && b.len() > 0 && a[0] == b[0] {
        lemma_text_le_total(a.drop_first(), b.drop_first());
    }
}

/// Two texts that are each the other or before it are the same.
pub proof fn lemma_text_le_antisymmetric(a: Text, b: Text)
    requires
        text_le(a, b),
        text_le(b, a),
    ensures
        a == b,
    decreases a.len(),
{
    if a.len() > 0 && b.len() > 0 {
        lemma_text_le_antisymmetric(a.drop_first(), b.drop_first());
        assert(a =~= seq![a[0]] + a.drop_first());
        assert(b =~= seq![b[0]] + b.drop_first());
    } else {
        assert(a =~= b);
    }
}

/// What is before a text is before what the text is before.
pub proof fn lemma_text_le_transitive(a: Text, b: Text, c: Text)
    requires
        text_le(a, b),
        text_le(b, c),
    ensures
        text_le(a, c),
    decreases a.len(),
{
    if a.len() > 0 && b.len() > 0 && c.len() > 0 && a[0] == b[0] && b[0] == c[0] {
        lemma_text_le_transitive(a.drop_first(), b.drop_first(), c.drop_first());
    }
}

/// Whether `a` is `b` or comes before it in the dictionary.
pub fn text_precedes(a: &str, b: &str) -> (r: bool)
    ensures
        r == text_le(a@, b@),
{
    let mut rest_a = a.chars();
    let mut rest_b = b.chars();
    let ghost mut i: int = 0;
    assert(a@.skip(0) =~= a@);
    assert(b@.skip(0) =~= b@);
    loop
        invariant
            0 <= i <= a@.len(),
            i <= b@.len(),
            rest_a.remaining() == a@.skip(i),
            rest_b.remaining() == b@.skip(i),
            text_le(a@, b@) == text_le(a@.skip(i), b@.skip(i)),
        decreases a@.len() - i,
    {
        let next_a = rest_a.next();
        let next_b = rest_b.next();
        match (next_a, next_b) {
            (Some(x), Some(y)) => {
                if x != y {
                    return x < y;
                }
                proof {
                    assert(a@.skip(i).drop_first() =~= a@.skip(i + 1));
                    assert(b@.skip(i).drop_first() =~= b@.skip(i + 1));
                    i = i + 1;
                }
            },
            (None, _) => {
                return true;
            },
            (Some(_), None) => {
                return false;
            },
        }
    }
}

/// A text with the number of times it was counted.
#[verifier::ext_equal]
pub struct Entry {
    pub text: Text,
    pub count: nat,
}

/// `a` is ranked no later than `b`: the greater count first, and of two
/// equal counts the text that comes first in the dictionary.
pub open spec fn ranks_before(a: Entry, b: Entry) -> bool {
    a.count > b.count || (a.count == b.count && text_le(a.text, b.text))
}

/// `ranks_before` as a relation.
pub open spec fn rank_order() -> spec_fn(Entry, Entry) -> bool {
    |a: Entry, b: Entry| ranks_before(a, b)
}

/// `entries` in the order of their rank.
pub open spec fn ranking(entries: Seq<Entry>) -> Seq<Entry> {
    entries.sort_by(rank_order())
}

/// The rank is a total order.
pub proof fn lemma_rank_order_total()
    ensures
        total_ordering(rank_order()),
{
    let r = rank_order();
    assert forall|x: Entry| #[trigger] r(x, x) by {
        lemma_text_le_reflexive(x.text);
    }
    assert forall|x: Entry, y: Entry| #[trigger] r(x, y) && #[trigger] r(y, x) implies x == y by {
        lemma_text_le_antisymmetric(x.text, y.text);
        assert(x =~= y);
    }
    assert forall|x: Entry, y: Entry, z: Entry| #[trigger] r(x, y) && #[trigger] r(y, z) implies r(
        x,
        z,
    ) by {
        if x.count == y.count && y.count == z.count {
            lemma_text_le_transitive(x.text, y.text, z.text);
        }
    }
    assert forall|x: Entry, y: Entry| #[trigger] r(x, y) || #[trigger] r(y, x) by {
        lemma_text_le_total(x.text, y.text);
    }
}

/// The ranking of `entries` is in order, and holds what `entries` holds.
pub proof fn lemma_ranking(entries: Seq<Entry>)
    ensures
        sorted_by(ranking(entries), rank_order()),
        ranking(entries).to_multiset() == entries.to_multiset(),
        ranking(entries).len() == entries.len(),
{
    lemma_rank_order_total();
    entries.lemma_sort_by_ensures(rank_order());
    vstd::seq_lib::to_multiset_len(entries);
    vstd::seq_lib::to_multiset_len(ranking(entries));
}

/// A sequence in order that holds what `entries` holds is its ranking.
pub proof fn lemma_ranking_unique(entries: Seq<Entry>, sorted: Seq<Entry>)
    requires
        sorted_by(sorted, rank_order()),
        sorted.to_multiset() == entries.to_multiset(),
    ensures
        sorted == ranking(entries),
{
    lemma_rank_order_total();
    lemma_ranking(entries);
    vstd::seq_lib::lemma_sorted_unique(sorted, ranking(entries), rank_order());
}

/// Something that is ranked by a text and a count.
pub trait Ranked {
    /// The text and the count by which this is ranked.
    spec fn entry(&self) -> Entry;

    /// The text by which this is ranked.
    fn rank_text(&self) -> (text: &str)
        ensures
            text@ == self.entry().text,
    ;

    /// The count by which this is ranked.
    fn rank_count(&self) -> (count: usize)
        ensures
            count == self.entry().count,
    ;
}

/// The entry of each member of `items`.
pub open spec fn entries<T: Ranked>(items: Seq<T>) -> Seq<Entry> {
    Seq::new(items.len(), |i: int| items[i].entry())
}

/// Whether `a` is ranked no later than `b`.
pub fn precedes<T: Ranked>(a: &T, b: &T) -> (r: bool)
    ensures
        r == ranks_before(a.entry(), b.entry()),
{
    let count_a = a.rank_count();
    let count_b = b.rank_count();
    count_a > count_b || (count_a == count_b && text_precedes(a.rank_text(), b.rank_text()))
}

/// Puts `items` in the order of their rank.
pub fn sort_by_rank<T: Ranked>(items: &mut Vec<T>)
    ensures
        entries(final(items)@) == ranking(entries(old(items)@)),
        final(items)@.len() == old(items)@.len(),
{
    let ghost start = entries(items@);
    let n = items.len();
    let mut i: usize = 0;
    proof {
        lemma_rank_order_total();
    }
    while i < n
        invariant
            i <= n,
            n == items@.len(),
            total_ordering(rank_order()),
            sorted_by(entries(items@).take(i as int), rank_order()),
            entries(items@).to_multiset() == start.to_multiset(),
        decreases n - i,
    {
        let mut at: usize = 0;
        let mut found = false;
        while at < i && !found
            invariant
                at <= i < n,
                n == items@.len(),
                forall|k: int|
                    0 <= k < at ==> ranks_before(
                        #[trigger] items@[k].entry(),
                        items@[i as int].entry(),
                    ),
                found ==> at < i && !ranks_before(
                    items@[at as int].entry(),
                    items@[i as int].entry(),
                ),
            decreases i - at + (if found { 0int } else { 1int }),
        {
            if precedes(&items[at], &items[i]) {
                at += 1;
            } else {
                found = true;
            }
        }
        let ghost before = entries(items@);
        proof {
            let order = rank_order();
            assert forall|k: int| 0 <= k < at implies order(before[k], before[i as int]) by {
                assert(ranks_before(items@[k].entry(), items@[i as int].entry()));
            }
            if at < i {
                assert(order(before[at as int], before[i as int]) || order(
                    before[i as int],
                    before[at as int],
                ));
            }
        }
        let item = items.remove(i);
        items.insert(at, item);
        proof {
            let moved = before[i as int];
            let after = entries(items@);
            assert(after =~= before.remove(i as int).insert(at as int, moved));
            broadcast use vstd::seq_lib::group_to_multiset_ensures;

            assert(after.to_multiset() =~= before.to_multiset());
            let order = rank_order();
            assert forall|k: int, l: int| 0 <= k < l < i + 1 implies #[trigger] order(
                after.take(i + 1)[k],
                after.take(i + 1)[l],
            ) by {
                let prefix = before.take(i as int);
                let low = if k < at { prefix[k] } else if k == at { moved } else { prefix[k - 1] };
                let high = if l < at { prefix[l] } else if l == at { moved } else { prefix[l - 1] };
                assert(after.take(i + 1)[k] == low);
                assert(after.take(i + 1)[l] == high);
                if k == at {
                    assert(order(moved, prefix[at as int]));
                    if l - 1 > at {
                        assert(order(prefix[at as int], prefix[l - 1]));
                    }
                } else if l == at {
                    assert(order(before[k], moved));
                } else {
                    let kk = if k < at { k } else { k - 1 };
                    let ll = if l < at { l } else { l - 1 };
                    assert(order(prefix[kk], prefix[ll]));
                }
            }
        }
        i += 1;
    }
    proof {
        assert(entries(items@).take(n as int) =~= entries(items@));
        lemma_ranking_unique(start, entries(items@));
    }
}

} // verus!
