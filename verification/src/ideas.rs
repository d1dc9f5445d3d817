//! Ideas: each cluster summarised by its leading terms, and the summaries
//! ranked.

use crate::analysis::AnswerAnalysis;
use crate::cluster::{
    build_clusters, cluster_views, clustered, lists, set_views, Cluster, ClusterView, TermCount,
};
use crate::model::ModelResources;
use crate::rank::{
    entries, lemma_rank_order_total, lemma_ranking, rank_order, ranking, ranks_before,
    sort_by_rank, Entry, Ranked,
};
use crate::text::{token_set, tokenize_set, Text};
use crate::wordset::WordSet;
use vstd::prelude::*;
use vstd::relations::sorted_by;
use vstd::string::StringExecFns;

verus! {

/// The number of ranked terms that a summary is made from.
pub const TOP_TERMS: usize = 3;

/// The greatest number of ideas that is given out.
pub const MAX_IDEAS: usize = 10;

/// The terms of `counts` with their counts, in the order of rank.
pub open spec fn ranked_terms(counts: Map<Text, nat>) -> Seq<Entry> {
    choose|ranked: Seq<Entry>| lists(counts, ranked) && sorted_by(ranked, rank_order())
}

/// Whether the text of an entry has a character.
pub open spec fn named() -> spec_fn(Entry) -> bool {
    |e: Entry| e.text.len() > 0
}

/// The first `limit` members of `s`, or all of them if there are fewer.
pub open spec fn first<A>(s: Seq<A>, limit: nat) -> Seq<A> {
    if s.len() <= limit {
        s
    } else {
        s.take(limit as int)
    }
}

/// The leading terms of `counts`: of its ranked terms those that are not
/// empty, and of these the first three.
pub open spec fn top_terms(counts: Map<Text, nat>) -> Seq<Entry> {
    first(ranked_terms(counts).filter(named()), TOP_TERMS as nat)
}

/// The summary of a cluster with the leading terms `top`.
pub open spec fn summary_of(top: Seq<Entry>) -> Text {
    if top.len() >= 2 {
        "Feedback highlights "@ + top[0].text + " and "@ + top[1].text + "."@
    } else if top.len() == 1 {
        "Feedback repeatedly mentions "@ + top[0].text + "."@
    } else {
        "Feedback highlights mixed perspectives."@
    }
}

/// The idea of a cluster: its summary, counted as often as the cluster has
/// answers.
pub open spec fn idea_of(cluster: ClusterView) -> Entry {
    Entry { text: summary_of(top_terms(cluster.counts)), count: cluster.members.len() }
}

/// The idea that stands for answers without a theme.
pub open spec fn fallback_idea() -> Entry {
    Entry { text: "Feedback highlights mixed perspectives."@, count: 1 }
}

/// The idea of each cluster of `clusters`.
pub open spec fn cluster_ideas(clusters: Seq<ClusterView>) -> Seq<Entry> {
    Seq::new(clusters.len(), |i: int| idea_of(clusters[i]))
}

/// The ideas of `clusters`: the first ten of the ideas of the clusters in
/// the order of rank, or the fallback idea where there is no cluster.
pub open spec fn ideas_of(clusters: Seq<ClusterView>) -> Seq<Entry> {
    if clusters.len() == 0 {
        seq![fallback_idea()]
    } else {
        first(ranking(cluster_ideas(clusters)), MAX_IDEAS as nat)
    }
}

/// Two lists of the terms of `counts` hold the same entries.
pub proof fn lemma_lists_agree(counts: Map<Text, nat>, a: Seq<Entry>, b: Seq<Entry>)
    requires
        lists(counts, a),
        lists(counts, b),
    ensures
        a.to_multiset() == b.to_multiset(),
{
    a.lemma_multiset_has_no_duplicates();
    b.lemma_multiset_has_no_duplicates();
    assert forall|x: Entry| a.to_multiset().count(x) == b.to_multiset().count(x) by {
        vstd::seq_lib::to_multiset_contains(a, x);
        vstd::seq_lib::to_multiset_contains(b, x);
        if a.contains(x) {
            lemma_lists_cover(counts, a, b, x);
        }
        if b.contains(x) {
            lemma_lists_cover(counts, b, a, x);
        }
    }
    assert(a.to_multiset() =~= b.to_multiset());
}

/// What one list of the terms of `counts` holds, another holds too.
proof fn lemma_lists_cover(counts: Map<Text, nat>, a: Seq<Entry>, b: Seq<Entry>, x: Entry)
    requires
        lists(counts, a),
        lists(counts, b),
        a.contains(x),
    ensures
        b.contains(x),
{
    let i = choose|i: int| 0 <= i < a.len() && a[i] == x;
    assert(counts.dom().contains(a[i].text));
    let j = choose|j: int| 0 <= j < b.len() && (#[trigger] b[j]).text == x.text;
    assert(b[j] =~= x);
}

/// A list of the terms of `counts`, put in the order of rank, is the
/// ranked terms of `counts`.
pub proof fn lemma_ranked_terms(counts: Map<Text, nat>, list: Seq<Entry>)
    requires
        lists(counts, list),
    ensures
        ranking(list) == ranked_terms(counts),
        lists(counts, ranked_terms(counts)),
        sorted_by(ranked_terms(counts), rank_order()),
{
    let sorted = ranking(list);
    lemma_ranking(list);
    list.lemma_multiset_has_no_duplicates();
    sorted.lemma_multiset_has_no_duplicates_conv();
    assert forall|i: int| 0 <= i < sorted.len() implies counts.dom().contains(
        (#[trigger] sorted[i]).text,
    ) && sorted[i].count == counts[sorted[i].text] by {
        assert(sorted.contains(sorted[i]));
        vstd::seq_lib::to_multiset_contains(sorted, sorted[i]);
        vstd::seq_lib::to_multiset_contains(list, sorted[i]);
        assert(list.contains(sorted[i]));
        let k = choose|k: int| 0 <= k < list.len() && list[k] == sorted[i];
        assert(counts.dom().contains(list[k].text));
    }
    assert forall|t: Text| counts.dom().contains(t) implies exists|i: int|
        0 <= i < sorted.len() && (#[trigger] sorted[i]).text == t by {
        let k = choose|k: int| 0 <= k < list.len() && (#[trigger] list[k]).text == t;
        assert(list.contains(list[k]));
        vstd::seq_lib::to_multiset_contains(sorted, list[k]);
        vstd::seq_lib::to_multiset_contains(list, list[k]);
        assert(sorted.contains(list[k]));
        let i = choose|i: int| 0 <= i < sorted.len() && sorted[i] == list[k];
        assert(sorted[i].text == t);
    }
    assert(lists(counts, sorted));
    let chosen = ranked_terms(counts);
    assert(lists(counts, chosen) && sorted_by(chosen, rank_order()));
    lemma_lists_agree(counts, sorted, chosen);
    lemma_rank_order_total();
    vstd::seq_lib::lemma_sorted_unique(sorted, chosen, rank_order());
}

/// The ideas are in the order of rank: the greater count first, and the
/// summaries of equal counts in the order of the dictionary. There is one
/// idea for each cluster up to ten, and one where there is no cluster.
pub proof fn lemma_ideas_ranked(clusters: Seq<ClusterView>)
    ensures
        sorted_by(ideas_of(clusters), rank_order()),
        1 <= ideas_of(clusters).len() <= MAX_IDEAS,
        ideas_of(clusters).len() == if clusters.len() == 0 {
            1
        } else if clusters.len() <= MAX_IDEAS {
            clusters.len()
        } else {
            MAX_IDEAS as nat
        },
        forall|i: int, j: int|
            0 <= i < j < ideas_of(clusters).len() ==> ranks_before(
                #[trigger] ideas_of(clusters)[i],
                #[trigger] ideas_of(clusters)[j],
            ),
{
    lemma_ranking(cluster_ideas(clusters));
    let all = ranking(cluster_ideas(clusters));
    let ideas = ideas_of(clusters);
    let order = rank_order();
    assert forall|i: int, j: int| 0 <= i < j < ideas.len() implies #[trigger] order(
        ideas[i],
        ideas[j],
    ) by {
        if clusters.len() > 0 {
            assert(ideas[i] == all[i] && ideas[j] == all[j]);
        }
    }
    assert forall|i: int, j: int| 0 <= i < j < ideas.len() implies ranks_before(
        #[trigger] ideas[i],
        #[trigger] ideas[j],
    ) by {
        assert(order(ideas[i], ideas[j]));
    }
}

/// A short text that sums up a theme, with the number of answers that
/// belong to it.
#[derive(Debug, Clone, PartialEq, Eq)]
pub struct IdeaItem {
    pub idea: String,
    pub count: usize,
}

impl Ranked for IdeaItem {
    open spec fn entry(&self) -> Entry {
        Entry { text: self.idea@, count: self.count as nat }
    }

    fn rank_text(&self) -> (text: &str) {
        self.idea.as_str()
    }

    fn rank_count(&self) -> (count: usize) {
        self.count
    }
}

/// The summary of a cluster with the leading terms `top`.
pub fn summary(top: &Vec<TermCount>) -> (text: String)
    ensures
        text@ == summary_of(entries(top@)),
{
    if top.len() >= 2 {
        let mut text = String::from_str("Feedback highlights ");
        text.append(top[0].term.as_str());
        text.append(" and ");
        text.append(top[1].term.as_str());
        text.append(".");
        text
    } else if top.len() == 1 {
        let mut text = String::from_str("Feedback repeatedly mentions ");
        text.append(top[0].term.as_str());
        text.append(".");
        text
    } else {
        String::from_str("Feedback highlights mixed perspectives.")
    }
}

/// The leading terms of `cluster`.
pub fn leading_terms(cluster: &Cluster) -> (top: Vec<TermCount>)
    requires
        cluster.wf(),
    ensures
        entries(top@) == top_terms(cluster@.counts),
{
    let mut ranked = cluster.term_counts();
    proof {
        lemma_ranked_terms(cluster@.counts, entries(ranked@));
    }
    sort_by_rank(&mut ranked);
    let ghost all = entries(ranked@);
    let mut top: Vec<TermCount> = Vec::new();
    let mut i: usize = 0;
    proof {
        assert(all.take(0) =~= Seq::<Entry>::empty());
        assert(entries(top@) =~= Seq::<Entry>::empty());
    }
    while i < ranked.len()
        invariant
            i <= ranked.len(),
            all == entries(ranked@),
            entries(top@) == first(all.take(i as int).filter(named()), TOP_TERMS as nat),
        decreases ranked.len() - i,
    {
        let ghost seen = all.take(i as int);
        let ghost kept = entries(top@);
        proof {
            broadcast use Seq::lemma_filter_push;

            assert(all.take(i + 1) =~= seen.push(all[i as int]));
            assert(all[i as int] == ranked@[i as int].entry());
        }
        if !ranked[i].term.as_str().is_empty() && top.len() < TOP_TERMS {
            top.push(TermCount { term: ranked[i].term.clone(), count: ranked[i].count });
            proof {
                assert(entries(top@) =~= kept.push(all[i as int]));
                assert(kept == seen.filter(named()));
            }
        } else {
            proof {
                if all[i as int].text.len() > 0 {
                    let longer = seen.filter(named()).push(all[i as int]);
                    assert(longer.take(TOP_TERMS as int) =~= kept);
                }
            }
        }
        i += 1;
    }
    assert(all.take(ranked@.len() as int) =~= all);
    top
}

/// The idea of `cluster`.
pub fn summarize(cluster: &Cluster) -> (idea: IdeaItem)
    requires
        cluster.wf(),
    ensures
        idea.entry() == idea_of(cluster@),
{
    let top = leading_terms(cluster);
    IdeaItem { idea: summary(&top), count: cluster.size() }
}

/// The ideas of `clusters`, ranked and cut to ten.
pub fn summarize_all(clusters: &Vec<Cluster>) -> (ideas: Vec<IdeaItem>)
    requires
        forall|i: int| 0 <= i < clusters@.len() ==> #[trigger] clusters@[i].wf(),
    ensures
        entries(ideas@) == ideas_of(cluster_views(clusters@)),
        1 <= ideas@.len() <= MAX_IDEAS,
{
    let mut ideas: Vec<IdeaItem> = Vec::new();
    let mut i: usize = 0;
    while i < clusters.len()
        invariant
            i <= clusters.len(),
            forall|k: int| 0 <= k < clusters@.len() ==> #[trigger] clusters@[k].wf(),
            ideas@.len() == i,
            forall|k: int| 0 <= k < i ==> (#[trigger] ideas@[k]).entry() == idea_of(clusters@[k]@),
        decreases clusters.len() - i,
    {
        assert(clusters@[i as int].wf());
        ideas.push(summarize(&clusters[i]));
        i += 1;
    }
    assert(entries(ideas@) =~= cluster_ideas(cluster_views(clusters@)));
    sort_by_rank(&mut ideas);
    if ideas.len() == 0 {
        ideas.push(
            IdeaItem {
                idea: String::from_str("Feedback highlights mixed perspectives."),
                count: 1,
            },
        );
        assert(entries(ideas@) =~= seq![fallback_idea()]);
        return ideas;
    }
    let ghost all = entries(ideas@);
    ideas.truncate(MAX_IDEAS);
    assert(entries(ideas@) =~= first(all, MAX_IDEAS as nat));
    ideas
}

/// The text of each answer of `answers`.
pub open spec fn answer_texts(answers: Seq<AnswerAnalysis>) -> Seq<Text> {
    Seq::new(answers.len(), |i: int| answers[i].answer_text@)
}

/// The tokens of each text of `texts` by which answers are compared.
pub open spec fn token_sets(texts: Seq<Text>, stop_words: Set<Text>) -> Seq<Set<Text>> {
    Seq::new(texts.len(), |i: int| token_set(texts[i], stop_words))
}

/// The ideas of the answers with the texts `texts`: the answers are grouped
/// into clusters by the tokens they share, and each cluster is summarised.
pub open spec fn ideas_in(texts: Seq<Text>, stop_words: Set<Text>) -> Seq<Entry> {
    ideas_of(clustered(token_sets(texts, stop_words)))
}

/// The ideas of `answers`: the answers are grouped into clusters by the
/// tokens they share, and each cluster is summarised.
pub fn cluster_and_summarize(answers: &[AnswerAnalysis], model: &ModelResources) -> (ideas: Vec<
    IdeaItem,
>)
    ensures
        entries(ideas@) == ideas_in(answer_texts(answers@), model.stops()),
        1 <= ideas@.len() <= MAX_IDEAS,
{
    let mut sets: Vec<WordSet> = Vec::new();
    let mut i: usize = 0;
    while i < answers.len()
        invariant
            i <= answers.len(),
            sets@.len() == i,
            forall|k: int| 0 <= k < i ==> (#[trigger] sets@[k]).wf(),
            forall|k: int|
                0 <= k < i ==> (#[trigger] sets@[k])@ == token_set(
                    answers@[k].answer_text@,
                    model.stops(),
                ),
        decreases answers.len() - i,
    {
        sets.push(tokenize_set(answers[i].answer_text.as_str(), model.stop_words()));
        i += 1;
    }
    assert(set_views(sets@) =~= token_sets(answer_texts(answers@), model.stops()));
    let clusters = build_clusters(&sets);
    summarize_all(&clusters)
}

} // verus!
