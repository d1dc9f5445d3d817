//! The analysis of the answers to one question.

use crate::ideas::{answer_texts, cluster_and_summarize, fallback_idea, ideas_in, IdeaItem};
use crate::model::ModelResources;
use crate::rank::{entries, Entry};
use crate::sentiment::{score_of, sentiment_score, Score, ScoreView, SentimentLabel};
use crate::text::{nonempty, normalize_text, normalized, texts, tokenize, tokens, Text};
use vstd::prelude::*;

verus! {

/// An analysed answer as the contracts see it.
pub struct AnswerView {
    pub text: Text,
    pub score: ScoreView,
    pub label: SentimentLabel,
}

/// One answer with its sentiment.
#[derive(Debug, Clone)]
pub struct AnswerAnalysis {
    /// The answer, normalised.
    pub answer_text: String,
    pub sentiment_score: Score,
    pub sentiment_label: SentimentLabel,
}

impl View for AnswerAnalysis {
    type V = AnswerView;

    open spec fn view(&self) -> AnswerView {
        AnswerView {
            text: self.answer_text@,
            score: self.sentiment_score@,
            label: self.sentiment_label,
        }
    }
}

/// What each answer of `answers` holds.
pub open spec fn answer_views(answers: Seq<AnswerAnalysis>) -> Seq<AnswerView> {
    Seq::new(answers.len(), |i: int| answers[i]@)
}

/// The number of answers with each label. The share of a label is its
/// number out of the three together.
#[derive(Debug, Clone, Copy, PartialEq, Eq, Structural)]
pub struct SentimentCounts {
    pub positive: usize,
    pub neutral: usize,
    pub negative: usize,
}

/// The result of an analysis as the contracts see it.
pub struct AnalysisView {
    pub answers: Seq<AnswerView>,
    pub top_ideas: Seq<Entry>,
    pub positive: nat,
    pub neutral: nat,
    pub negative: nat,
}

/// The result of an analysis.
#[derive(Debug, Clone)]
pub struct AnalysisOutput {
    /// The answers that are not empty, in their order.
    pub answers: Vec<AnswerAnalysis>,
    /// The ideas in the order of rank: at least one, at most ten.
    pub top_ideas: Vec<IdeaItem>,
    /// The number of answers with each label.
    pub sentiment: SentimentCounts,
}

impl View for AnalysisOutput {
    type V = AnalysisView;

    open spec fn view(&self) -> AnalysisView {
        AnalysisView {
            answers: answer_views(self.answers@),
            top_ideas: entries(self.top_ideas@),
            positive: self.sentiment.positive as nat,
            neutral: self.sentiment.neutral as nat,
            negative: self.sentiment.negative as nat,
        }
    }
}

/// Each text of `raw`, normalised.
pub open spec fn normalized_each(raw: Seq<Text>) -> Seq<Text> {
    Seq::new(raw.len(), |i: int| normalized(raw[i]))
}

/// The answers that are analysed: those of `raw`, normalised, that are not
/// empty.
pub open spec fn surviving(raw: Seq<Text>) -> Seq<Text> {
    normalized_each(raw).filter(nonempty())
}

/// The answer `text` with its score and label.
pub open spec fn analysed(text: Text, positive: Set<Text>, negative: Set<Text>) -> AnswerView {
    let score = score_of(tokens(text), positive, negative);
    AnswerView { text, score, label: score.label() }
}

/// Each text of `texts` with its score and label.
pub open spec fn analysed_each(texts: Seq<Text>, positive: Set<Text>, negative: Set<Text>) -> Seq<
    AnswerView,
> {
    Seq::new(texts.len(), |i: int| analysed(texts[i], positive, negative))
}

/// The number of `answers` with the label `label`.
pub open spec fn label_count(answers: Seq<AnswerView>, label: SentimentLabel) -> nat
    decreases answers.len(),
{
    if answers.len() == 0 {
        0
    } else {
        label_count(answers.drop_last(), label) + if answers.last().label == label {
            1nat
        } else {
            0nat
        }
    }
}

/// The analysis of the answers `raw` with the given word lists.
pub open spec fn analysis_of(
    raw: Seq<Text>,
    positive: Set<Text>,
    negative: Set<Text>,
    stop_words: Set<Text>,
) -> AnalysisView {
    let answers = analysed_each(surviving(raw), positive, negative);
    AnalysisView {
        answers,
        top_ideas: ideas_in(surviving(raw), stop_words),
        positive: label_count(answers, SentimentLabel::Positive),
        neutral: label_count(answers, SentimentLabel::Neutral),
        negative: label_count(answers, SentimentLabel::Negative),
    }
}

/// Every answer has one label: the three counts together are the number of
/// answers.
pub proof fn lemma_label_counts(answers: Seq<AnswerView>)
    ensures
        label_count(answers, SentimentLabel::Positive) + label_count(
            answers,
            SentimentLabel::Neutral,
        ) + label_count(answers, SentimentLabel::Negative) == answers.len(),
    decreases answers.len(),
{
    if answers.len() > 0 {
        lemma_label_counts(answers.drop_last());
    }
}

/// The analysis of `answers`: each answer that is not empty when
/// normalised gets its score and label, the labels are counted, and the
/// answers are grouped into ideas. An answer without tokens is counted
/// too.
pub fn analyze_answers(model: &ModelResources, answers: &[String]) -> (output: AnalysisOutput)
    ensures
        output@ == analysis_of(
            texts(answers@),
            model.positive(),
            model.negative(),
            model.stops(),
        ),
        output.sentiment.positive + output.sentiment.neutral + output.sentiment.negative
            == output.answers@.len(),
        output.answers@.len() <= answers@.len(),
        1 <= output.top_ideas@.len() <= 10,
{
    let mut analyzed: Vec<AnswerAnalysis> = Vec::new();
    let mut positive: usize = 0;
    let mut neutral: usize = 0;
    let mut negative: usize = 0;
    let mut i: usize = 0;
    let ghost raw = texts(answers@);
    let ghost pos = model.positive();
    let ghost neg = model.negative();
    proof {
        assert(raw.take(0) =~= Seq::<Text>::empty());
        assert(normalized_each(Seq::<Text>::empty()) =~= Seq::<Text>::empty());
        assert(answer_views(analyzed@) =~= analysed_each(surviving(raw.take(0)), pos, neg));
        assert(answer_texts(analyzed@) =~= surviving(raw.take(0)));
    }
    while i < answers.len()
        invariant
            i <= answers.len(),
            raw == texts(answers@),
            pos == model.positive(),
            neg == model.negative(),
            analyzed@.len() <= i,
            answer_texts(analyzed@) == surviving(raw.take(i as int)),
            answer_views(analyzed@) == analysed_each(surviving(raw.take(i as int)), pos, neg),
            positive == label_count(answer_views(analyzed@), SentimentLabel::Positive),
            neutral == label_count(answer_views(analyzed@), SentimentLabel::Neutral),
            negative == label_count(answer_views(analyzed@), SentimentLabel::Negative),
            positive + neutral + negative == analyzed@.len(),
        decreases answers.len() - i,
    {
        let ghost seen = raw.take(i as int);
        let ghost before = answer_views(analyzed@);
        let ghost before_texts = answer_texts(analyzed@);
        let answer_text = normalize_text(answers[i].as_str());
        proof {
            broadcast use Seq::lemma_filter_push;

            assert(raw.take(i + 1) =~= seen.push(raw[i as int]));
            assert(normalized_each(seen.push(raw[i as int])) =~= normalized_each(seen).push(
                answer_text@,
            ));
        }
        if !answer_text.as_str().is_empty() {
            let tokens = tokenize(answer_text.as_str());
            let score = sentiment_score(tokens.as_slice(), model);
            let label = score.label();
            match label {
                SentimentLabel::Positive => {
                    positive += 1;
                },
                SentimentLabel::Negative => {
                    negative += 1;
                },
                SentimentLabel::Neutral => {
                    neutral += 1;
                },
            }
            analyzed.push(
                AnswerAnalysis { answer_text, sentiment_score: score, sentiment_label: label },
            );
            proof {
                let added = analysed(answer_text@, pos, neg);
                assert(answer_views(analyzed@) =~= before.push(added));
                assert(answer_texts(analyzed@) =~= before_texts.push(answer_text@));
                assert(before.push(added).drop_last() =~= before);
            }
        }
        i += 1;
    }
    assert(raw.take(answers@.len() as int) =~= raw);
    let top_ideas = cluster_and_summarize(analyzed.as_slice(), model);
    AnalysisOutput {
        answers: analyzed,
        top_ideas,
        sentiment: SentimentCounts { positive, neutral, negative },
    }
}

/// Without answers there is no answer with any label, and the one idea is
/// the fallback idea.
pub proof fn lemma_analysis_of_nothing(
    positive: Set<Text>,
    negative: Set<Text>,
    stop_words: Set<Text>,
)
    ensures
        analysis_of(Seq::empty(), positive, negative, stop_words) == (AnalysisView {
            answers: Seq::empty(),
            top_ideas: seq![fallback_idea()],
            positive: 0,
            neutral: 0,
            negative: 0,
        }),
{
    let raw = Seq::<Text>::empty();
    assert(normalized_each(raw) =~= Seq::<Text>::empty());
    assert(surviving(raw) =~= Seq::<Text>::empty());
    assert(analysed_each(surviving(raw), positive, negative) =~= Seq::<AnswerView>::empty());
    assert(crate::ideas::token_sets(surviving(raw), stop_words) =~= Seq::<Set<Text>>::empty());
}

/// Two analyses of the same answers with the same word lists hold the same.
pub proof fn lemma_analysis_repeats(
    first: AnalysisOutput,
    second: AnalysisOutput,
    raw: Seq<Text>,
    positive: Set<Text>,
    negative: Set<Text>,
    stop_words: Set<Text>,
)
    requires
        first@ == analysis_of(raw, positive, negative, stop_words),
        second@ == analysis_of(raw, positive, negative, stop_words),
    ensures
        first@ == second@,
        answer_views(first.answers@) == answer_views(second.answers@),
        entries(first.top_ideas@) == entries(second.top_ideas@),
        first.sentiment == second.sentiment,
{
}

} // verus!
