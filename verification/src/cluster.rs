//! Theme clusters: answers grouped greedily by the words they share.

use crate::rank::{entries, Entry, Ranked};
use crate::ratio::{
    lemma_exceeds_asymmetric, lemma_exceeds_chain, lemma_exceeds_nonzero, lemma_exceeds_zero, Ratio,
};
use crate::similarity::{jaccard, jaccard_similarity, Similarity};
use crate::text::Text;
use crate::wordset::WordSet;
use vstd::prelude::*;

verus! {

/// An answer joins the cluster it is most like if their similarity is
/// `MERGE_NUM / MERGE_DEN` or more.
pub const MERGE_NUM: u32 = 35;

/// See `MERGE_NUM`.
pub const MERGE_DEN: u32 = 100;

/// `counts` with one more for each word of `set`; a word that was not
/// counted before starts at zero.
pub open spec fn counted(counts: Map<Text, nat>, set: Set<Text>) -> Map<Text, nat> {
    Map::new(
        |t: Text| counts.dom().contains(t) || set.contains(t),
        |t: Text|
            (if counts.dom().contains(t) {
                counts[t]
            } else {
                0nat
            }) + (if set.contains(t) {
                1nat
            } else {
                0nat
            }),
    )
}

/// A cluster as the contracts see it: the answers in it by their index, in
/// the order in which they joined, and for each token of these answers the
/// number of them that have it.
#[verifier::ext_equal]
pub struct ClusterView {
    pub members: Seq<usize>,
    pub counts: Map<Text, nat>,
}

impl ClusterView {
    /// The tokens of all the answers of the cluster.
    pub open spec fn tokens(self) -> Set<Text> {
        self.counts.dom()
    }

    /// The cluster of the one answer `index` with the tokens `set`.
    pub open spec fn seed(index: usize, set: Set<Text>) -> ClusterView {
        ClusterView { members: seq![index], counts: counted(Map::empty(), set) }
    }

    /// The cluster after the answer `index` with the tokens `set` joined.
    pub open spec fn absorb(self, index: usize, set: Set<Text>) -> ClusterView {
        ClusterView { members: self.members.push(index), counts: counted(self.counts, set) }
    }
}

/// `list` holds each term of `counts` once, with its count.
pub open spec fn lists(counts: Map<Text, nat>, list: Seq<Entry>) -> bool {
    &&& list.no_duplicates()
    &&& forall|i: int|
        0 <= i < list.len() ==> counts.dom().contains((#[trigger] list[i]).text) && list[i].count
            == counts[list[i].text]
    &&& forall|t: Text|
        counts.dom().contains(t) ==> exists|i: int|
            0 <= i < list.len() && (#[trigger] list[i]).text == t
}

/// A term of a cluster with the number of its answers that have it.
#[derive(Debug, Clone)]
pub struct TermCount {
    pub term: String,
    pub count: usize,
}

impl Ranked for TermCount {
    open spec fn entry(&self) -> Entry {
        Entry { text: self.term@, count: self.count as nat }
    }

    fn rank_text(&self) -> (text: &str) {
        self.term.as_str()
    }

    fn rank_count(&self) -> (count: usize) {
        self.count
    }
}

/// A cluster of answers.
#[derive(Debug, Clone)]
pub struct Cluster {
    answer_indexes: Vec<usize>,
    terms: WordSet,
    counts: Vec<usize>,
}

impl View for Cluster {
    type V = ClusterView;

    closed spec fn view(&self) -> ClusterView {
        ClusterView { members: self.answer_indexes@, counts: self.count_map() }
    }
}

impl Cluster {
    /// The count of each term.
    spec fn count_map(&self) -> Map<Text, nat> {
        Map::new(
            |t: Text| self.terms@.contains(t),
            |t: Text| self.counts@[self.terms.seq().index_of(t)] as nat,
        )
    }

    /// Each term has its count.
    spec fn shaped(&self) -> bool {
        &&& self.terms.wf()
        &&& self.counts@.len() == self.terms.seq().len()
    }

    /// Each term has its count, and no count is more than the number of
    /// answers.
    pub closed spec fn wf(&self) -> bool {
        &&& self.shaped()
        &&& forall|i: int|
            0 <= i < self.counts@.len() ==> self.counts@[i] <= self.answer_indexes@.len()
    }

    /// The cluster of the one answer `index` with the tokens `set`.
    pub fn new(index: usize, set: &WordSet) -> (cluster: Cluster)
        requires
            set.wf(),
        ensures
            cluster.wf(),
            cluster@ == ClusterView::seed(index, set@),
    {
        let mut cluster = Cluster {
            answer_indexes: Vec::new(),
            terms: WordSet::new(),
            counts: Vec::new(),
        };
        assert(cluster.count_map() =~= Map::<Text, nat>::empty());
        cluster.count(set, Ghost(0));
        cluster.answer_indexes.push(index);
        assert(cluster.answer_indexes@ =~= seq![index]);
        cluster
    }

    /// Lets the answer `index` with the tokens `set` join.
    pub fn absorb(&mut self, index: usize, set: &WordSet)
        requires
            old(self).wf(),
            set.wf(),
            old(self)@.members.len() < usize::MAX,
        ensures
            final(self).wf(),
            final(self)@ == old(self)@.absorb(index, set@),
    {
        self.count(set, Ghost(self.answer_indexes@.len()));
        self.answer_indexes.push(index);
    }

    /// Counts one more for each word of `set`.
    fn count(&mut self, set: &WordSet, Ghost(limit): Ghost<nat>)
        requires
            old(self).shaped(),
            set.wf(),
            limit < usize::MAX,
            forall|i: int| 0 <= i < old(self).counts@.len() ==> old(self).counts@[i] <= limit,
        ensures
            final(self).shaped(),
            final(self).answer_indexes == old(self).answer_indexes,
            final(self).count_map() == counted(old(self).count_map(), set@),
            forall|i: int|
                0 <= i < final(self).counts@.len() ==> final(self).counts@[i] <= limit + 1,
    {
        let ghost start = self.count_map();
        let n = set.len();
        let mut j: usize = 0;
        proof {
            assert(set.seq().take(0).to_set() =~= Set::<Text>::empty());
            assert(self.count_map() =~= counted(start, Set::<Text>::empty()));
        }
        while j < n
            invariant
                j <= n,
                n == set.seq().len(),
                set.wf(),
                self.shaped(),
                self.answer_indexes == old(self).answer_indexes,
                limit < usize::MAX,
                forall|t: Text| start.dom().contains(t) ==> #[trigger] start[t] <= limit,
                self.count_map() == counted(start, set.seq().take(j as int).to_set()),
            decreases n - j,
        {
            let ghost done = set.seq().take(j as int);
            let ghost before = self.count_map();
            let ghost terms_before = self.terms.seq();
            let ghost counts_before = self.counts@;
            let word = set.get(j);
            proof {
                assert(set.seq().take(j + 1) =~= done.push(word@));
                done.lemma_push_to_set_commute(word@);
                assert(!done.to_set().contains(word@)) by {
                    if done.to_set().contains(word@) {
                        let k = choose|k: int| 0 <= k < done.len() && done[k] == word@;
                        assert(set.seq()[k] == set.seq()[j as int]);
                    }
                }
            }
            match self.terms.position(word) {
                Some(at) => {
                    proof {
                        lemma_index_of(terms_before, at as int);
                        assert(self.terms@.contains(word@));
                        assert(before.dom().contains(word@));
                        assert(before[word@] == counts_before[at as int]);
                        assert(before[word@] == counted(start, done.to_set())[word@]);
                        assert(start.dom().contains(word@));
                    }
                    let now = self.counts[at];
                    self.counts.set(at, now + 1);
                    proof {
                        assert forall|t: Text| self.terms@.contains(t) implies self.count_map()[t]
                            == counted(start, done.to_set().insert(word@))[t] by {
                            let k = choose|k: int|
                                0 <= k < terms_before.len() && terms_before[k] == t;
                            lemma_index_of(terms_before, k);
                            assert(before.dom().contains(t));
                            assert(before[t] == counts_before[k]);
                            assert(before[t] == counted(start, done.to_set())[t]);
                            assert((k == at) == (t == word@));
                        }
                        assert(self.count_map() =~= counted(start, done.to_set().insert(word@)));
                    }
                },
                None => {
                    proof {
                        assert(!before.dom().contains(word@));
                        assert(before.dom().contains(word@) == counted(
                            start,
                            done.to_set(),
                        ).dom().contains(word@));
                        assert(!start.dom().contains(word@));
                    }
                    self.terms.insert(word.clone());
                    self.counts.push(1);
                    proof {
                        let terms_now = self.terms.seq();
                        assert(terms_now =~= terms_before.push(word@));
                        assert(self.terms@ =~= before.dom().insert(word@));
                        assert forall|t: Text| self.terms@.contains(t) implies self.count_map()[t]
                            == counted(start, done.to_set().insert(word@))[t] by {
                            let k = choose|k: int| 0 <= k < terms_now.len() && terms_now[k] == t;
                            lemma_index_of(terms_now, k);
                            if k < terms_before.len() {
                                lemma_index_of(terms_before, k);
                                assert(terms_before.to_set().contains(t));
                                assert(before.dom().contains(t));
                                assert(before[t] == counts_before[k]);
                                assert(before[t] == counted(start, done.to_set())[t]);
                                assert(t != word@);
                            } else {
                                assert(t == word@);
                            }
                        }
                        assert(self.count_map() =~= counted(start, done.to_set().insert(word@)));
                    }
                },
            }
            j += 1;
        }
        proof {
            assert(set.seq().take(n as int) =~= set.seq());
            assert forall|i: int| 0 <= i < self.counts@.len() implies self.counts@[i] <= limit
                + 1 by {
                lemma_index_of(self.terms.seq(), i);
                let t = self.terms.seq()[i];
                assert(self.terms@.contains(t));
                assert(self.count_map()[t] == self.counts@[i]);
            }
        }
    }

    /// The terms of the cluster with their counts, in no particular order.
    pub fn term_counts(&self) -> (list: Vec<TermCount>)
        requires
            self.wf(),
        ensures
            lists(self@.counts, entries(list@)),
    {
        let mut list: Vec<TermCount> = Vec::new();
        let n = self.terms.len();
        let mut i: usize = 0;
        while i < n
            invariant
                i <= n,
                n == self.terms.seq().len(),
                self.wf(),
                list@.len() == i,
                forall|k: int|
                    0 <= k < i ==> (#[trigger] list@[k]).entry() == (Entry {
                        text: self.terms.seq()[k],
                        count: self.counts@[k] as nat,
                    }),
            decreases n - i,
        {
            list.push(TermCount { term: self.terms.get(i).clone(), count: self.counts[i] });
            i += 1;
        }
        proof {
            let listed = entries(list@);
            let terms = self.terms.seq();
            assert forall|a: int, b: int| 0 <= a < listed.len() && 0 <= b < listed.len() && a
                != b implies listed[a] != listed[b] by {
                assert(list@[a].entry().text == terms[a]);
                assert(list@[b].entry().text == terms[b]);
            }
            assert forall|k: int| 0 <= k < listed.len() implies self@.counts.dom().contains(
                (#[trigger] listed[k]).text,
            ) && listed[k].count == self@.counts[listed[k].text] by {
                assert(list@[k].entry().text == terms[k]);
                lemma_index_of(terms, k);
                assert(self.terms@.contains(terms[k]));
            }
            assert forall|t: Text| self@.counts.dom().contains(t) implies exists|k: int|
                0 <= k < listed.len() && (#[trigger] listed[k]).text == t by {
                let k = choose|k: int| 0 <= k < terms.len() && terms[k] == t;
                assert(list@[k].entry().text == terms[k]);
                assert(listed[k].text == t);
            }
        }
        list
    }

    /// The tokens of the answers of the cluster.
    pub fn terms(&self) -> (set: &WordSet)
        ensures
            set@ == self@.tokens(),
            self.wf() ==> set.wf(),
    {
        assert(self.terms@ =~= self@.tokens());
        &self.terms
    }

    /// The number of answers in the cluster.
    pub fn size(&self) -> (n: usize)
        ensures
            n == self@.members.len(),
    {
        self.answer_indexes.len()
    }

    /// The answers of the cluster by their index, in the order in which
    /// they joined.
    pub fn answer_indexes(&self) -> (indexes: &Vec<usize>)
        ensures
            indexes@ == self@.members,
    {
        &self.answer_indexes
    }
}

/// What each cluster of `clusters` holds.
pub open spec fn cluster_views(clusters: Seq<Cluster>) -> Seq<ClusterView> {
    Seq::new(clusters.len(), |i: int| clusters[i]@)
}

/// What each set of `sets` holds.
pub open spec fn set_views(sets: Seq<WordSet>) -> Seq<Set<Text>> {
    Seq::new(sets.len(), |i: int| sets[i]@)
}

/// How like the answers of `cluster` an answer with the tokens `set` is.
pub open spec fn likeness(cluster: ClusterView, set: Set<Text>) -> Ratio {
    jaccard(cluster.tokens(), set)
}

/// The cluster at `b` is the one that an answer with the tokens `set` is
/// most like: it is like it at all, more than any cluster before it, and no
/// cluster after it is more.
pub open spec fn is_best(clusters: Seq<ClusterView>, set: Set<Text>, b: int) -> bool {
    &&& 0 <= b < clusters.len()
    &&& !likeness(clusters[b], set).is_zero()
    &&& forall|j: int|
        0 <= j < b ==> likeness(clusters[b], set).exceeds(likeness(#[trigger] clusters[j], set))
    &&& forall|j: int|
        b < j < clusters.len() ==> !likeness(#[trigger] clusters[j], set).exceeds(
            likeness(clusters[b], set),
        )
}

/// The place of the cluster that an answer with the tokens `set` is most
/// like, if it is like any.
pub open spec fn best_match(clusters: Seq<ClusterView>, set: Set<Text>) -> Option<int> {
    if exists|b: int| is_best(clusters, set, b) {
        Some(choose|b: int| is_best(clusters, set, b))
    } else {
        None
    }
}

/// The place of the cluster that an answer with the tokens `set` joins, if
/// it joins one: the one it is most like, if it is like enough.
pub open spec fn joins(clusters: Seq<ClusterView>, set: Set<Text>) -> Option<int> {
    match best_match(clusters, set) {
        Some(b) => if likeness(clusters[b], set).at_least(MERGE_NUM as nat, MERGE_DEN as nat) {
            Some(b)
        } else {
            None
        },
        None => None,
    }
}

/// The clusters after the answer `index` with the tokens `set` was placed:
/// in the cluster it joins, or else in a new one at the end.
pub open spec fn place(clusters: Seq<ClusterView>, index: usize, set: Set<Text>) -> Seq<
    ClusterView,
> {
    match joins(clusters, set) {
        Some(b) => clusters.update(b, clusters[b].absorb(index, set)),
        None => clusters.push(ClusterView::seed(index, set)),
    }
}

/// The clusters of the answers whose tokens are `sets`, placed one after
/// the other in their order. An answer without tokens is left out.
pub open spec fn clustered(sets: Seq<Set<Text>>) -> Seq<ClusterView>
    decreases sets.len(),
{
    if sets.len() == 0 {
        Seq::empty()
    } else {
        let before = clustered(sets.drop_last());
        if sets.last().len() == 0 {
            before
        } else {
            place(before, (sets.len() - 1) as usize, sets.last())
        }
    }
}

/// The number of answers in all of `clusters`.
pub open spec fn member_total(clusters: Seq<ClusterView>) -> nat
    decreases clusters.len(),
{
    if clusters.len() == 0 {
        0
    } else {
        member_total(clusters.drop_last()) + clusters.last().members.len()
    }
}

/// The number of sets of `sets` that are not empty.
pub open spec fn placed(sets: Seq<Set<Text>>) -> nat
    decreases sets.len(),
{
    if sets.len() == 0 {
        0
    } else {
        placed(sets.drop_last()) + if sets.last().len() == 0 {
            0nat
        } else {
            1nat
        }
    }
}

/// In a sequence without duplicates, a member is found where it stands.
pub proof fn lemma_index_of(s: Seq<Text>, i: int)
    requires
        s.no_duplicates(),
        0 <= i < s.len(),
    ensures
        s.index_of(s[i]) == i,
{
    let k = s.index_of(s[i]);
    assert(0 <= k < s.len() && s[k] == s[i]);
}

/// A cluster put in the place of another changes the number of answers by
/// the difference of the two.
proof fn lemma_member_total_update(clusters: Seq<ClusterView>, b: int, cluster: ClusterView)
    requires
        0 <= b < clusters.len(),
    ensures
        member_total(clusters.update(b, cluster)) + clusters[b].members.len() == member_total(
            clusters,
        ) + cluster.members.len(),
    decreases clusters.len(),
{
    let updated = clusters.update(b, cluster);
    if b == clusters.len() - 1 {
        assert(updated.drop_last() =~= clusters.drop_last());
    } else {
        assert(updated.drop_last() =~= clusters.drop_last().update(b, cluster));
        lemma_member_total_update(clusters.drop_last(), b, cluster);
    }
}

/// Every answer that has tokens is in one cluster, and in one only: the
/// clusters hold as many answers as there are answers with tokens, and no
/// cluster is empty.
pub proof fn lemma_clustered_members(sets: Seq<Set<Text>>)
    ensures
        member_total(clustered(sets)) == placed(sets),
        clustered(sets).len() <= placed(sets),
        forall|i: int|
            0 <= i < clustered(sets).len() ==> (#[trigger] clustered(sets)[i]).members.len() > 0,
    decreases sets.len(),
{
    if sets.len() > 0 {
        lemma_clustered_members(sets.drop_last());
        let before = clustered(sets.drop_last());
        let index = (sets.len() - 1) as usize;
        if sets.last().len() != 0 {
            match joins(before, sets.last()) {
                Some(b) => {
                    assert(is_best(before, sets.last(), b));
                    lemma_member_total_update(before, b, before[b].absorb(index, sets.last()));
                },
                None => {
                    assert(before.push(ClusterView::seed(index, sets.last())).drop_last()
                        =~= before);
                },
            }
        }
    }
}

/// At most one cluster is the best.
pub proof fn lemma_best_unique(clusters: Seq<ClusterView>, set: Set<Text>, a: int, b: int)
    requires
        is_best(clusters, set, a),
        is_best(clusters, set, b),
    ensures
        a == b,
{
    if a < b {
        assert(likeness(clusters[b], set).exceeds(likeness(clusters[a], set)));
        assert(!likeness(clusters[b], set).exceeds(likeness(clusters[a], set)));
    } else if b < a {
        assert(likeness(clusters[a], set).exceeds(likeness(clusters[b], set)));
        assert(!likeness(clusters[a], set).exceeds(likeness(clusters[b], set)));
    }
}

/// Where an answer is like some cluster, there is one that it is most
/// like. The result is its place.
pub proof fn lemma_best_exists(clusters: Seq<ClusterView>, set: Set<Text>) -> (b: int)
    requires
        exists|j: int| 0 <= j < clusters.len() && !likeness(#[trigger] clusters[j], set).is_zero(),
    ensures
        is_best(clusters, set, b),
        best_match(clusters, set) == Some(b),
    decreases clusters.len(),
{
    let head = clusters.drop_last();
    let last = clusters.len() - 1;
    let mine = likeness(clusters[last], set);
    let b = if exists|j: int| 0 <= j < head.len() && !likeness(#[trigger] head[j], set).is_zero() {
        let before = lemma_best_exists(head, set);
        let best = likeness(head[before], set);
        assert(clusters[before] == head[before]);
        if mine.exceeds(best) {
            lemma_exceeds_nonzero(mine, best);
            assert forall|j: int| 0 <= j < last implies mine.exceeds(
                likeness(#[trigger] clusters[j], set),
            ) by {
                assert(clusters[j] == head[j]);
                let other = likeness(head[j], set);
                if j < before {
                    assert(best.exceeds(other));
                    lemma_exceeds_asymmetric(best, other);
                } else if j > before {
                    assert(!other.exceeds(best));
                }
                assert(!other.exceeds(best));
                lemma_exceeds_chain(other, best, mine);
            }
            assert(is_best(clusters, set, last));
            last
        } else {
            assert(!likeness(clusters[before], set).is_zero());
            assert forall|j: int| 0 <= j < before implies likeness(clusters[before], set).exceeds(
                likeness(#[trigger] clusters[j], set),
            ) by {
                assert(clusters[j] == head[j]);
                assert(best.exceeds(likeness(head[j], set)));
            }
            assert forall|j: int| before < j < clusters.len() implies !likeness(
                #[trigger] clusters[j],
                set,
            ).exceeds(likeness(clusters[before], set)) by {
                if j < last {
                    assert(clusters[j] == head[j]);
                    assert(!likeness(head[j], set).exceeds(best));
                }
            }
            assert(is_best(clusters, set, before));
            before
        }
    } else {
        let j = choose|j: int|
            0 <= j < clusters.len() && !likeness(#[trigger] clusters[j], set).is_zero();
        if j < last {
            assert(clusters[j] == head[j]);
            assert(!likeness(head[j], set).is_zero());
        }
        assert(j == last);
        assert(!mine.is_zero());
        assert forall|k: int| 0 <= k < last implies mine.exceeds(
            likeness(#[trigger] clusters[k], set),
        ) by {
            assert(clusters[k] == head[k]);
            assert(likeness(head[k], set).is_zero());
            lemma_exceeds_zero(mine, likeness(clusters[k], set));
        }
        assert(is_best(clusters, set, last));
        last
    };
    assert(is_best(clusters, set, b));
    let chosen = choose|c: int| is_best(clusters, set, c);
    assert(is_best(clusters, set, chosen));
    lemma_best_unique(clusters, set, b, chosen);
    b
}

/// An answer is most like no cluster if and only if it is like none.
pub proof fn lemma_best_match_none(clusters: Seq<ClusterView>, set: Set<Text>)
    ensures
        best_match(clusters, set) is None <==> forall|j: int|
            0 <= j < clusters.len() ==> likeness(#[trigger] clusters[j], set).is_zero(),
{
    if exists|j: int| 0 <= j < clusters.len() && !likeness(#[trigger] clusters[j], set).is_zero() {
        lemma_best_exists(clusters, set);
    } else {
        assert forall|b: int| !is_best(clusters, set, b) by {
            if 0 <= b < clusters.len() {
                assert(likeness(clusters[b], set).is_zero());
            }
        }
    }
}

/// The cluster that an answer with the tokens `set` is most like, by its
/// place and with the similarity; `None` if it is like none.
pub fn best_cluster(clusters: &Vec<Cluster>, set: &WordSet) -> (best: Option<(usize, Similarity)>)
    requires
        set.wf(),
        forall|i: int| 0 <= i < clusters@.len() ==> #[trigger] clusters@[i].wf(),
    ensures
        best is None <==> best_match(cluster_views(clusters@), set@) is None,
        best matches Some((b, sim)) ==> {
            &&& best_match(cluster_views(clusters@), set@) == Some(b as int)
            &&& b < clusters@.len()
            &&& sim@ == likeness(clusters@[b as int]@, set@)
        },
{
    let ghost views = cluster_views(clusters@);
    let mut best: Option<usize> = None;
    let mut best_sim = Similarity::zero();
    let mut k: usize = 0;
    while k < clusters.len()
        invariant
            k <= clusters.len(),
            set.wf(),
            views == cluster_views(clusters@),
            forall|i: int| 0 <= i < clusters@.len() ==> #[trigger] clusters@[i].wf(),
            best is None ==> best_sim@.is_zero() && forall|j: int|
                0 <= j < k ==> likeness(#[trigger] views[j], set@).is_zero(),
            best matches Some(b) ==> {
                &&& b < k
                &&& best_sim@ == likeness(views[b as int], set@)
                &&& is_best(views.take(k as int), set@, b as int)
            },
        decreases clusters.len() - k,
    {
        let ghost prefix = views.take(k as int);
        let ghost grown = views.take(k + 1);
        assert(clusters@[k as int].wf());
        let sim = jaccard_similarity(clusters[k].terms(), set);
        assert(sim@ == likeness(views[k as int], set@));
        if sim.exceeds(&best_sim) {
            proof {
                match best {
                    None => {
                        lemma_exceeds_zero(sim@, best_sim@);
                        assert forall|j: int| 0 <= j < k implies sim@.exceeds(
                            likeness(#[trigger] grown[j], set@),
                        ) by {
                            assert(grown[j] == views[j]);
                            lemma_exceeds_zero(sim@, likeness(views[j], set@));
                        }
                    },
                    Some(b) => {
                        assert forall|j: int| 0 <= j < k implies sim@.exceeds(
                            likeness(#[trigger] grown[j], set@),
                        ) by {
                            assert(grown[j] == prefix[j]);
                            if j < b {
                                assert(best_sim@.exceeds(likeness(prefix[j], set@)));
                            }
                            lemma_exceeds_chain(likeness(prefix[j], set@), best_sim@, sim@);
                        }
                        lemma_exceeds_nonzero(sim@, best_sim@);
                    },
                }
                assert(is_best(grown, set@, k as int));
            }
            best = Some(k);
            best_sim = sim;
        } else {
            proof {
                match best {
                    None => {
                        lemma_exceeds_zero(sim@, best_sim@);
                    },
                    Some(b) => {
                        assert forall|j: int| b < j < k + 1 implies !likeness(
                            #[trigger] grown[j],
                            set@,
                        ).exceeds(likeness(grown[b as int], set@)) by {
                            if j < k {
                                assert(grown[j] == prefix[j]);
                            }
                        }
                        assert forall|j: int| 0 <= j < b implies likeness(
                            grown[b as int],
                            set@,
                        ).exceeds(likeness(#[trigger] grown[j], set@)) by {
                            assert(grown[j] == prefix[j]);
                        }
                        assert(is_best(grown, set@, b as int));
                    },
                }
            }
        }
        k += 1;
    }
    proof {
        assert(views.take(k as int) =~= views);
        match best {
            None => {
                assert forall|b: int| !is_best(views, set@, b) by {
                    if 0 <= b < views.len() {
                        assert(likeness(views[b], set@).is_zero());
                    }
                }
            },
            Some(b) => {
                lemma_best_unique(
                    views,
                    set@,
                    b as int,
                    choose|c: int| is_best(views, set@, c),
                );
            },
        }
    }
    match best {
        None => None,
        Some(b) => Some((b, best_sim)),
    }
}

/// The clusters of the answers whose tokens are `sets`.
pub fn build_clusters(sets: &Vec<WordSet>) -> (clusters: Vec<Cluster>)
    requires
        forall|i: int| 0 <= i < sets@.len() ==> #[trigger] sets@[i].wf(),
    ensures
        cluster_views(clusters@) == clustered(set_views(sets@)),
        forall|i: int| 0 <= i < clusters@.len() ==> #[trigger] clusters@[i].wf(),
{
    let mut clusters: Vec<Cluster> = Vec::new();
    let mut i: usize = 0;
    proof {
        assert(set_views(sets@).take(0) =~= Seq::<Set<Text>>::empty());
        assert(cluster_views(clusters@) =~= Seq::<ClusterView>::empty());
    }
    while i < sets.len()
        invariant
            i <= sets.len(),
            forall|k: int| 0 <= k < sets@.len() ==> #[trigger] sets@[k].wf(),
            forall|k: int| 0 <= k < clusters@.len() ==> #[trigger] clusters@[k].wf(),
            forall|k: int|
                0 <= k < clusters@.len() ==> (#[trigger] clusters@[k])@.members.len() <= i,
            cluster_views(clusters@) == clustered(set_views(sets@).take(i as int)),
        decreases sets.len() - i,
    {
        let ghost before = cluster_views(clusters@);
        let set = &sets[i];
        proof {
            assert(sets@[i as int].wf());
            assert(set_views(sets@).take(i + 1).drop_last() =~= set_views(sets@).take(i as int));
            assert(set_views(sets@).take(i + 1).last() == set@);
            set.lemma_len();
        }
        if !set.is_empty() {
            let mut target: Option<usize> = None;
            match best_cluster(&clusters, set) {
                Some((b, sim)) => {
                    if sim.at_least(MERGE_NUM, MERGE_DEN) {
                        target = Some(b);
                    }
                },
                None => {},
            }
            assert(match target {
                Some(b) => joins(before, set@) == Some(b as int),
                None => joins(before, set@) is None,
            });
            match target {
                Some(b) => {
                    let ghost old_clusters = clusters@;
                    assert(clusters@[b as int].wf());
                    let mut cluster = clusters.remove(b);
                    cluster.absorb(i, set);
                    clusters.insert(b, cluster);
                    proof {
                        assert(cluster_views(clusters@) =~= before.update(
                            b as int,
                            before[b as int].absorb(i, set@),
                        ));
                        assert forall|k: int| 0 <= k < clusters@.len() implies (
                        #[trigger] clusters@[k]).wf() && clusters@[k]@.members.len() <= i + 1 by {
                            if k != b {
                                assert(clusters@[k] == old_clusters[k]);
                            }
                        }
                    }
                },
                None => {
                    let ghost old_clusters = clusters@;
                    clusters.push(Cluster::new(i, set));
                    proof {
                        assert(cluster_views(clusters@) =~= before.push(
                            ClusterView::seed(i, set@),
                        ));
                        assert forall|k: int| 0 <= k < clusters@.len() implies (
                        #[trigger] clusters@[k]).wf() && clusters@[k]@.members.len() <= i + 1 by {
                            if k < old_clusters.len() {
                                assert(clusters@[k] == old_clusters[k]);
                            }
                        }
                    }
                },
            }
        }
        i += 1;
    }
    assert(set_views(sets@).take(sets@.len() as int) =~= set_views(sets@));
    clusters
}

} // verus!
