//! Sentiment of one answer: a score from the lexicon, and the label that the
//! score stands for. A score is kept as the exact fraction that it is.

use crate::model::ModelResources;
use crate::ratio::Ratio;
use crate::text::{texts, Text};
use vstd::prelude::*;

verus! {

/// The thresholds of the labels count tenths.
pub const TENTHS: u32 = 10;

/// A score of this many tenths or more is positive.
pub const POSITIVE_FROM: u32 = 6;

/// A score of this many tenths or less is negative.
pub const NEGATIVE_UPTO: u32 = 4;

/// What a score says of an answer.
#[derive(Debug, Clone, Copy, PartialEq, Eq, Structural)]
pub enum SentimentLabel {
    Positive,
    Neutral,
    Negative,
}

/// The label of a score: positive from six tenths, negative up to four
/// tenths, neutral between the two.
pub open spec fn label_of(score: Ratio) -> SentimentLabel {
    if score.at_least(POSITIVE_FROM as nat, TENTHS as nat) {
        SentimentLabel::Positive
    } else if score.at_most(NEGATIVE_UPTO as nat, TENTHS as nat) {
        SentimentLabel::Negative
    } else {
        SentimentLabel::Neutral
    }
}

/// The name of a label as it is written out.
pub open spec fn label_name(label: SentimentLabel) -> Text {
    match label {
        SentimentLabel::Positive => "POSITIVE"@,
        SentimentLabel::Neutral => "NEUTRAL"@,
        SentimentLabel::Negative => "NEGATIVE"@,
    }
}

impl SentimentLabel {
    /// The name of the label as it is written out.
    pub fn as_str(&self) -> (name: &'static str)
        ensures
            name@ == label_name(*self),
    {
        match self {
            SentimentLabel::Positive => "POSITIVE",
            SentimentLabel::Neutral => "NEUTRAL",
            SentimentLabel::Negative => "NEGATIVE",
        }
    }
}

/// The number of members of `tokens`, each time it occurs, that are in
/// `words`.
pub open spec fn hits(tokens: Seq<Text>, words: Set<Text>) -> nat
    decreases tokens.len(),
{
    if tokens.len() == 0 {
        0
    } else {
        hits(tokens.drop_last(), words) + if words.contains(tokens.last()) {
            1nat
        } else {
            0nat
        }
    }
}

/// The tally of `tokens`: one up for each positive token, one down for each
/// negative one. It lies between minus and plus the number of tokens.
pub open spec fn tally(tokens: Seq<Text>, positive: Set<Text>, negative: Set<Text>) -> int {
    hits(tokens, positive) - hits(tokens, negative)
}

/// A score as the contracts see it: the tally of an answer and the number
/// of its tokens.
pub struct ScoreView {
    pub tally: int,
    pub tokens: nat,
}

impl ScoreView {
    /// The score as a fraction. Without tokens it is one half. Else the
    /// tally is divided by the number of tokens, which gives a number from
    /// -1 to 1, and that is brought to the range from 0 to 1 by adding one
    /// and halving: `(tally / tokens + 1) / 2`, which is
    /// `(tally + tokens) / (2 * tokens)`.
    pub open spec fn value(self) -> Ratio {
        if self.tokens == 0 {
            Ratio { num: 1, den: 2 }
        } else {
            Ratio { num: (self.tally + self.tokens) as nat, den: 2 * self.tokens }
        }
    }

    /// The label that the score stands for.
    pub open spec fn label(self) -> SentimentLabel {
        label_of(self.value())
    }
}

/// The score of `tokens`: their tally and their number.
pub open spec fn score_of(
    tokens: Seq<Text>,
    positive: Set<Text>,
    negative: Set<Text>,
) -> ScoreView {
    ScoreView { tally: tally(tokens, positive, negative), tokens: tokens.len() }
}

/// There are no more hits than tokens.
pub proof fn lemma_hits_bound(tokens: Seq<Text>, words: Set<Text>)
    ensures
        hits(tokens, words) <= tokens.len(),
    decreases tokens.len(),
{
    if tokens.len() > 0 {
        lemma_hits_bound(tokens.drop_last(), words);
    }
}

/// Every score lies between zero and one, and that of no tokens is one
/// half.
pub proof fn lemma_score_bounds(tokens: Seq<Text>, positive: Set<Text>, negative: Set<Text>)
    ensures
        -tokens.len() <= tally(tokens, positive, negative) <= tokens.len(),
        0 <= score_of(tokens, positive, negative).value().num <= score_of(
            tokens,
            positive,
            negative,
        ).value().den,
        score_of(tokens, positive, negative).value().den > 0,
        tokens.len() == 0 ==> score_of(tokens, positive, negative).value() == (Ratio {
            num: 1,
            den: 2,
        }),
        tokens.len() == 0 ==> score_of(tokens, positive, negative).label()
            == SentimentLabel::Neutral,
{
    lemma_hits_bound(tokens, positive);
    lemma_hits_bound(tokens, negative);
}

/// The label of the fraction `num / den` is positive exactly if the
/// fraction is six tenths or more, negative exactly if it is four tenths or
/// less, and neutral exactly between the two. So six tenths itself is
/// positive, four tenths itself negative, and one half neutral.
pub proof fn lemma_label_thresholds(score: Ratio)
    requires
        score.den > 0,
    ensures
        label_of(score) == SentimentLabel::Positive <==> 10 * score.num >= 6 * score.den,
        label_of(score) == SentimentLabel::Negative <==> 10 * score.num <= 4 * score.den,
        label_of(score) == SentimentLabel::Neutral <==> 4 * score.den < 10 * score.num < 6
            * score.den,
        10 * score.num == 6 * score.den ==> label_of(score) == SentimentLabel::Positive,
        10 * score.num == 4 * score.den ==> label_of(score) == SentimentLabel::Negative,
        2 * score.num == score.den ==> label_of(score) == SentimentLabel::Neutral,
{
}

/// The label of a score by its tally `t` of `n` tokens: positive exactly if
/// `(t / n + 1) / 2` is six tenths or more, which is if `5 * t >= n`, and
/// negative exactly if it is four tenths or less, which is if
/// `5 * t <= -n`.
pub proof fn lemma_score_label(score: ScoreView)
    requires
        score.tokens > 0,
        -score.tokens <= score.tally <= score.tokens,
    ensures
        score.label() == SentimentLabel::Positive <==> 5 * score.tally >= score.tokens,
        score.label() == SentimentLabel::Negative <==> 5 * score.tally <= -score.tokens,
{
    lemma_label_thresholds(score.value());
}

/// A sentiment score: a number from zero to one, held as the tally and the
/// number of tokens that it was made from.
#[derive(Debug, Clone, Copy, PartialEq, Eq, Structural)]
pub struct Score {
    tally: i128,
    tokens: usize,
}

impl View for Score {
    type V = ScoreView;

    closed spec fn view(&self) -> ScoreView {
        ScoreView { tally: self.tally as int, tokens: self.tokens as nat }
    }
}

impl Score {
    /// The tally lies between minus and plus the number of tokens.
    #[verifier::type_invariant]
    closed spec fn in_range(&self) -> bool {
        -self.tokens <= self.tally <= self.tokens
    }

    /// The score of the tally `tally` of `tokens` tokens, if the tally lies
    /// between minus and plus the number of tokens.
    pub fn new(tally: i128, tokens: usize) -> (score: Option<Score>)
        ensures
            score is Some <==> -tokens <= tally <= tokens,
            score matches Some(s) ==> s@ == (ScoreView {
                tally: tally as int,
                tokens: tokens as nat,
            }),
    {
        if -(tokens as i128) <= tally && tally <= tokens as i128 {
            Some(Score { tally, tokens })
        } else {
            None
        }
    }

    /// The score of an answer without tokens: one half.
    pub fn neutral() -> (score: Score)
        ensures
            score@ == (ScoreView { tally: 0, tokens: 0 }),
    {
        Score { tally: 0, tokens: 0 }
    }

    /// The tally that the score was made from.
    pub fn tally(&self) -> (tally: i128)
        ensures
            tally == self@.tally,
            -self@.tokens <= tally <= self@.tokens,
    {
        proof {
            use_type_invariant(self);
        }
        self.tally
    }

    /// The number of tokens that the score was made from.
    pub fn tokens(&self) -> (tokens: usize)
        ensures
            tokens == self@.tokens,
    {
        self.tokens
    }

    /// The numerator of the score as a fraction.
    pub fn numerator(&self) -> (num: u128)
        ensures
            num == self@.value().num,
            num <= self@.value().den,
    {
        proof {
            use_type_invariant(self);
        }
        if self.tokens == 0 {
            1
        } else {
            (self.tally + self.tokens as i128) as u128
        }
    }

    /// The denominator of the score as a fraction.
    pub fn denominator(&self) -> (den: u128)
        ensures
            den == self@.value().den,
            0 < den <= 2 * usize::MAX,
    {
        if self.tokens == 0 {
            2
        } else {
            2 * (self.tokens as u128)
        }
    }

    /// The label that the score stands for.
    pub fn label(&self) -> (label: SentimentLabel)
        ensures
            label == self@.label(),
    {
        let num = self.numerator();
        let den = self.denominator();
        let tenfold: u128 = num * (TENTHS as u128);
        assert(den * 4 <= den * 6 <= 6 * (2 * usize::MAX));
        let upper: u128 = den * (POSITIVE_FROM as u128);
        let lower: u128 = den * (NEGATIVE_UPTO as u128);
        if tenfold >= upper {
            SentimentLabel::Positive
        } else if tenfold <= lower {
            SentimentLabel::Negative
        } else {
            SentimentLabel::Neutral
        }
    }
}

/// The score of `tokens` against the positive and negative words of
/// `model`: one up for each token that is a positive word, one down for
/// each that is a negative word, so that a token that is both counts for
/// nothing.
pub fn sentiment_score(tokens: &[String], model: &ModelResources) -> (score: Score)
    ensures
        score@ == score_of(texts(tokens@), model.positive(), model.negative()),
{
    let n = tokens.len();
    let mut up: usize = 0;
    let mut down: usize = 0;
    let mut i: usize = 0;
    while i < n
        invariant
            i <= n,
            n == tokens@.len(),
            up == hits(texts(tokens@).take(i as int), model.positive()),
            down == hits(texts(tokens@).take(i as int), model.negative()),
            up <= i,
            down <= i,
        decreases n - i,
    {
        proof {
            assert(texts(tokens@).take(i + 1).drop_last() =~= texts(tokens@).take(i as int));
        }
        if model.positive_words().contains(&tokens[i]) {
            up += 1;
        }
        if model.negative_words().contains(&tokens[i]) {
            down += 1;
        }
        i += 1;
    }
    assert(texts(tokens@).take(n as int) =~= texts(tokens@));
    Score { tally: up as i128 - down as i128, tokens: n }
}

} // verus!
