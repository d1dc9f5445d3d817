use intelligence_fn_rs::model::{stop_word_list, ModelError, ModelResources};
use intelligence_fn_rs::sentiment::{sentiment_score, Score, SentimentLabel};

fn list(words: &[&str]) -> Vec<String> {
    words.iter().map(|w| w.to_string()).collect()
}

fn model() -> ModelResources {
    ModelResources::new(list(&["good", "excellent"]), list(&["bad", "poor"]), list(&["the", "and"]))
        .unwrap()
}

fn score_of(tokens: &[&str]) -> (i128, usize) {
    let score = sentiment_score(&list(tokens), &model());
    (score.tally(), score.tokens())
}

fn fraction_of(tokens: &[&str]) -> (u128, u128) {
    let score = sentiment_score(&list(tokens), &model());
    (score.numerator(), score.denominator())
}

/// The score as a floating-point number: the tally by the number of tokens,
/// plus one, halved; one half without tokens.
fn value(score: Score) -> f64 {
    if score.tokens() == 0 {
        return 0.5;
    }
    let normalized = (score.tally() as f64 / score.tokens() as f64).clamp(-1.0, 1.0);
    ((normalized + 1.0) / 2.0).clamp(0.0, 1.0)
}

#[test]
fn sentiment_score_is_bounded() {
    let score = sentiment_score(&vec!["good".to_string()], &model());
    let score = value(score);
    assert!(score >= 0.0 && score <= 1.0);
}

#[test]
fn score_of_no_tokens_is_one_half() {
    assert_eq!(score_of(&[]), (0, 0));
    assert_eq!(fraction_of(&[]), (1, 2));
    assert_eq!(value(sentiment_score(&[], &model())), 0.5);
    assert_eq!(sentiment_score(&[], &model()).label(), SentimentLabel::Neutral);
}

#[test]
fn score_follows_the_tally() {
    assert_eq!(score_of(&["good"]), (1, 1));
    assert_eq!(score_of(&["bad"]), (-1, 1));
    assert_eq!(score_of(&["good", "bad", "plain"]), (0, 3));
    assert_eq!(score_of(&["good", "plain", "plain"]), (1, 3));
    assert_eq!(score_of(&["poor", "plain", "plain"]), (-1, 3));
    assert_eq!(score_of(&["excellent", "good", "bad", "plain"]), (1, 4));
    assert_eq!(score_of(&["plain", "words", "only"]), (0, 3));
    assert_eq!(score_of(&["good", "good", "good"]), (3, 3));
}

#[test]
fn score_is_the_exact_fraction() {
    assert_eq!(fraction_of(&["good"]), (2, 2));
    assert_eq!(fraction_of(&["bad"]), (0, 2));
    assert_eq!(fraction_of(&["good", "plain", "plain"]), (4, 6));
    assert_eq!(fraction_of(&["poor", "plain", "plain"]), (2, 6));
    assert_eq!(fraction_of(&["excellent", "good", "bad", "plain"]), (5, 8));
    let mut sixty_four = list(&["plain"; 63]);
    sixty_four.push("good".to_string());
    let score = sentiment_score(&sixty_four, &model());
    assert_eq!((score.numerator(), score.denominator()), (65, 128));
    assert_eq!(value(score), 0.5078125);
}

#[test]
fn score_value_is_that_of_floating_point() {
    let samples: [&[&str]; 6] = [
        &["good"],
        &["good", "x", "x"],
        &["bad", "x", "x", "x", "x", "x", "x"],
        &["good", "good", "bad", "x", "y", "z", "w"],
        &["poor", "bad", "good"],
        &["good", "a", "b", "c", "d", "e", "f", "g", "h", "i", "j", "k", "l", "m", "n"],
    ];
    for tokens in samples {
        let mut tally = 0.0_f64;
        for token in tokens {
            if *token == "good" || *token == "excellent" {
                tally += 1.0;
            }
            if *token == "bad" || *token == "poor" {
                tally -= 1.0;
            }
        }
        let normalized = (tally / tokens.len() as f64).clamp(-1.0, 1.0);
        let expected = ((normalized + 1.0) / 2.0).clamp(0.0, 1.0);
        assert_eq!(value(sentiment_score(&list(tokens), &model())), expected);
    }
}

#[test]
fn token_in_both_lists_counts_for_nothing() {
    let both = ModelResources::new(list(&["fine"]), list(&["fine"]), list(&[])).unwrap();
    let one = sentiment_score(&list(&["fine"]), &both);
    assert_eq!((one.tally(), one.tokens()), (0, 1));
    let three = sentiment_score(&list(&["fine", "fine", "day"]), &both);
    assert_eq!((three.tally(), three.tokens()), (0, 3));
    assert_eq!(three.label(), SentimentLabel::Neutral);
}

#[test]
fn label_boundaries() {
    let label = |tally: i128, tokens: usize| Score::new(tally, tokens).unwrap().label();
    assert_eq!(label(1, 5), SentimentLabel::Positive);
    assert_eq!(label(-1, 5), SentimentLabel::Negative);
    assert_eq!(label(0, 5), SentimentLabel::Neutral);
    assert_eq!(label(0, 0), SentimentLabel::Neutral);
    assert_eq!(label(5, 5), SentimentLabel::Positive);
    assert_eq!(label(-5, 5), SentimentLabel::Negative);
    assert_eq!(label(1, 6), SentimentLabel::Neutral);
    assert_eq!(label(-1, 6), SentimentLabel::Neutral);
    assert_eq!(label(2, 10), SentimentLabel::Positive);
    assert_eq!(label(-2, 10), SentimentLabel::Negative);
}

#[test]
fn label_of_scored_answers_at_the_boundaries() {
    let positive = sentiment_score(&list(&["good", "a", "b", "c", "d"]), &model());
    assert_eq!((positive.numerator(), positive.denominator()), (6, 10));
    assert_eq!(positive.label(), SentimentLabel::Positive);
    let negative = sentiment_score(&list(&["bad", "a", "b", "c", "d"]), &model());
    assert_eq!((negative.numerator(), negative.denominator()), (4, 10));
    assert_eq!(negative.label(), SentimentLabel::Negative);
    let neutral = sentiment_score(&list(&["good", "bad", "c", "d"]), &model());
    assert_eq!((neutral.numerator(), neutral.denominator()), (4, 8));
    assert_eq!(neutral.label(), SentimentLabel::Neutral);
}

#[test]
fn labels_are_exact_next_to_a_threshold() {
    let mut low = list(&["bad"; 40_000]);
    low.extend(list(&["plain"; 160_001]));
    let just_above_four_tenths = sentiment_score(&low, &model());
    assert_eq!(just_above_four_tenths.tally(), -40_000);
    assert_eq!(just_above_four_tenths.tokens(), 200_001);
    assert_eq!(just_above_four_tenths.label(), SentimentLabel::Neutral);

    let mut high = list(&["good"; 40_000]);
    high.extend(list(&["plain"; 160_001]));
    let just_below_six_tenths = sentiment_score(&high, &model());
    assert_eq!(just_below_six_tenths.label(), SentimentLabel::Neutral);

    let mut at = list(&["good"; 40_000]);
    at.extend(list(&["plain"; 160_000]));
    assert_eq!(sentiment_score(&at, &model()).label(), SentimentLabel::Positive);
}

#[test]
fn label_names() {
    assert_eq!(SentimentLabel::Positive.as_str(), "POSITIVE");
    assert_eq!(SentimentLabel::Neutral.as_str(), "NEUTRAL");
    assert_eq!(SentimentLabel::Negative.as_str(), "NEGATIVE");
}

#[test]
fn score_keeps_its_range() {
    assert!(Score::new(6, 5).is_none());
    assert!(Score::new(-6, 5).is_none());
    assert!(Score::new(1, 0).is_none());
    let high = Score::new(4, 5).unwrap();
    assert_eq!((high.tally(), high.tokens()), (4, 5));
    assert_eq!((high.numerator(), high.denominator()), (9, 10));
    assert_eq!(value(high), 0.9);
    let neutral = Score::neutral();
    assert_eq!((neutral.tally(), neutral.tokens()), (0, 0));
    assert_eq!((neutral.numerator(), neutral.denominator()), (1, 2));
    assert_eq!(Score::new(0, 0), Some(Score::neutral()));
}

#[test]
fn lexicon_needs_positive_and_negative_words() {
    let missing = |positive: &[&str], negative: &[&str]| {
        ModelResources::new(list(positive), list(negative), list(&["the"])).err()
    };
    assert_eq!(missing(&[], &["bad"]), Some(ModelError::EmptyLexicon));
    assert_eq!(missing(&["good"], &[]), Some(ModelError::EmptyLexicon));
    assert_eq!(missing(&[], &[]), Some(ModelError::EmptyLexicon));
    assert_eq!(missing(&["good"], &["bad"]), None);
    assert_eq!(
        ModelResources::from_lexicon(list(&[]), list(&["bad"])).err(),
        Some(ModelError::EmptyLexicon)
    );
    assert_eq!(
        ModelError::EmptyLexicon.message(),
        "sentiment lexicon must include positive and negative words"
    );
}

#[test]
fn lexicon_from_lists_is_lowered_and_has_the_default_stop_words() {
    let model = ModelResources::from_lexicon(list(&["Good", "GREAT"]), list(&["Bad"])).unwrap();
    assert!(model.positive_words().contains(&"good".to_string()));
    assert!(model.positive_words().contains(&"great".to_string()));
    assert!(!model.positive_words().contains(&"Good".to_string()));
    assert!(model.negative_words().contains(&"bad".to_string()));
    assert!(!model.stop_words().is_empty());
    assert!(!model.stop_words().contains(&"good".to_string()));
    for word in ["the", "and", "should", "about", "too"] {
        assert!(model.stop_words().contains(&word.to_string()));
    }
    assert_eq!(stop_word_list().len(), 32);
    assert_eq!(stop_word_list()[0], "the");
    assert_eq!(stop_word_list()[31], "should");
}
