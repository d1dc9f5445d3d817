use intelligence_fn_rs::analysis::{analyze_answers, AnalysisOutput, SentimentCounts};
use intelligence_fn_rs::ideas::IdeaItem;
use intelligence_fn_rs::model::ModelResources;
use intelligence_fn_rs::sentiment::Score;

fn owned(words: &[&str]) -> Vec<String> {
    words.iter().map(|w| w.to_string()).collect()
}

fn resources() -> ModelResources {
    let positive = owned(&["good", "excellent"]);
    let negative = owned(&["bad", "poor"]);
    ModelResources::new(positive, negative, owned(&["the", "and"])).unwrap()
}

fn counts(positive: usize, neutral: usize, negative: usize) -> SentimentCounts {
    SentimentCounts { positive, neutral, negative }
}

/// The score as a floating-point number: the tally by the number of tokens,
/// plus one, halved; one half without tokens.
fn number(score: Score) -> f64 {
    if score.tokens() == 0 {
        return 0.5;
    }
    let normalized = (score.tally() as f64 / score.tokens() as f64).clamp(-1.0, 1.0);
    ((normalized + 1.0) / 2.0).clamp(0.0, 1.0)
}

/// The mean of the scores as floating-point numbers; one half of none.
fn mean(output: &AnalysisOutput) -> f64 {
    if output.answers.is_empty() {
        return 0.5;
    }
    let sum: f64 = output.answers.iter().map(|answer| number(answer.sentiment_score)).sum();
    sum / output.answers.len() as f64
}

/// The share of `count` among the answers, in percent.
fn percent(count: usize, output: &AnalysisOutput) -> f64 {
    if output.answers.is_empty() {
        return 0.0;
    }
    (count as f64 / output.answers.len() as f64) * 100.0
}

fn flatten(output: &AnalysisOutput) -> String {
    let mut text = String::new();
    for answer in &output.answers {
        text.push_str(&format!(
            "{}|{}/{}|{};",
            answer.answer_text,
            answer.sentiment_score.tally(),
            answer.sentiment_score.tokens(),
            answer.sentiment_label.as_str()
        ));
    }
    for idea in &output.top_ideas {
        text.push_str(&format!("{}#{};", idea.idea, idea.count));
    }
    text.push_str(&format!("{:?}", output.sentiment));
    text
}

#[test]
fn analysis_of_no_answers() {
    let output = analyze_answers(&resources(), &[]);
    assert!(output.answers.is_empty());
    assert_eq!(output.sentiment, counts(0, 0, 0));
    assert_eq!(percent(output.sentiment.positive, &output), 0.0);
    assert_eq!(percent(output.sentiment.neutral, &output), 0.0);
    assert_eq!(percent(output.sentiment.negative, &output), 0.0);
    assert_eq!(mean(&output), 0.5);
    assert_eq!(
        output.top_ideas,
        vec![IdeaItem { idea: "Feedback highlights mixed perspectives.".to_string(), count: 1 }]
    );
}

#[test]
fn blank_answers_are_skipped() {
    let output = analyze_answers(&resources(), &owned(&["", "   ", "\t\n", "good  service "]));
    assert_eq!(output.answers.len(), 1);
    assert_eq!(output.answers[0].answer_text, "good service");
    assert_eq!(output.answers[0].sentiment_score, Score::new(1, 2).unwrap());
    assert_eq!(output.answers[0].sentiment_label.as_str(), "POSITIVE");
    assert_eq!(output.sentiment, counts(1, 0, 0));
    assert_eq!(percent(output.sentiment.positive, &output), 100.0);
    assert_eq!(mean(&output), 0.75);

    let blank = analyze_answers(&resources(), &owned(&["", "  "]));
    assert!(blank.answers.is_empty());
    assert_eq!(blank.sentiment, counts(0, 0, 0));
    assert_eq!(blank.top_ideas.len(), 1);
}

#[test]
fn analysis_counts_labels() {
    let answers = owned(&[
        "Good and excellent support",
        "bad  experience,   poor support",
        "the delivery was late",
        "...",
    ]);
    let output = analyze_answers(&resources(), &answers);
    let seen: Vec<(&str, i128, usize, &str)> = output
        .answers
        .iter()
        .map(|a| {
            (
                a.answer_text.as_str(),
                a.sentiment_score.tally(),
                a.sentiment_score.tokens(),
                a.sentiment_label.as_str(),
            )
        })
        .collect();
    assert_eq!(
        seen,
        vec![
            ("Good and excellent support", 2, 4, "POSITIVE"),
            ("bad experience, poor support", -2, 4, "NEGATIVE"),
            ("the delivery was late", 0, 4, "NEUTRAL"),
            ("...", 0, 0, "NEUTRAL"),
        ]
    );
    assert_eq!(output.sentiment, counts(1, 2, 1));
    assert_eq!(percent(output.sentiment.positive, &output), 25.0);
    assert_eq!(percent(output.sentiment.neutral, &output), 50.0);
    assert_eq!(percent(output.sentiment.negative, &output), 25.0);
    assert_eq!(mean(&output), 0.5);
    assert_eq!(
        output.top_ideas,
        vec![
            IdeaItem { idea: "Feedback highlights bad and experience.".to_string(), count: 1 },
            IdeaItem { idea: "Feedback highlights delivery and late.".to_string(), count: 1 },
            IdeaItem { idea: "Feedback highlights excellent and good.".to_string(), count: 1 },
        ]
    );
}

#[test]
fn counts_are_the_shares_of_the_answers() {
    let output = analyze_answers(&resources(), &owned(&["good", "plain", "bad"]));
    assert_eq!(output.sentiment, counts(1, 1, 1));
    let total = output.sentiment.positive + output.sentiment.neutral + output.sentiment.negative;
    assert_eq!(total, output.answers.len());
    let third = (1.0_f64 / 3.0) * 100.0;
    assert_eq!(percent(output.sentiment.positive, &output), third);
    assert_eq!(percent(output.sentiment.neutral, &output), third);
    assert_eq!(percent(output.sentiment.negative, &output), third);
}

#[test]
fn exact_scores_give_the_mean_at_a_threshold() {
    let output = analyze_answers(
        &resources(),
        &owned(&["good a b", "good c d e f g h i j k l m n o p"]),
    );
    assert_eq!(output.answers[0].sentiment_score, Score::new(1, 3).unwrap());
    assert_eq!(output.answers[1].sentiment_score, Score::new(1, 15).unwrap());
    assert_eq!(output.answers[0].sentiment_label.as_str(), "POSITIVE");
    assert_eq!(output.answers[1].sentiment_label.as_str(), "NEUTRAL");
    assert_eq!(output.sentiment, counts(1, 1, 0));
    assert_eq!(mean(&output), 0.6);
    assert!(mean(&output) >= 0.6);
}

#[test]
fn analysis_is_repeatable() {
    let answers = owned(&[
        "great support and fast response",
        "great support, fast replies",
        "completely unrelated topic",
        "bad bad bad",
        "",
    ]);
    let first = analyze_answers(&resources(), &answers);
    let second = analyze_answers(&resources(), &answers);
    assert_eq!(flatten(&first), flatten(&second));
    assert_eq!(first.top_ideas, second.top_ideas);
    assert_eq!(first.sentiment, second.sentiment);
    assert_eq!(first.top_ideas.iter().map(|i| i.count).sum::<usize>(), 4);
}
