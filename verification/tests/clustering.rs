use intelligence_fn_rs::analysis::AnswerAnalysis;
use intelligence_fn_rs::cluster::{best_cluster, build_clusters, Cluster};
use intelligence_fn_rs::ideas::{cluster_and_summarize, leading_terms, summarize, IdeaItem};
use intelligence_fn_rs::model::ModelResources;
use intelligence_fn_rs::rank::{sort_by_rank, text_precedes};
use intelligence_fn_rs::sentiment::{Score, SentimentLabel};
use intelligence_fn_rs::similarity::jaccard_similarity;
use intelligence_fn_rs::text::tokenize_set;
use intelligence_fn_rs::wordset::WordSet;

fn strings(words: &[&str]) -> Vec<String> {
    words.iter().map(|w| w.to_string()).collect()
}

fn set_of(words: &[&str]) -> WordSet {
    WordSet::from_words(strings(words))
}

fn lexicon(stop_words: &[&str]) -> ModelResources {
    let positive = strings(&["good", "excellent"]);
    let negative = strings(&["bad", "poor"]);
    ModelResources::new(positive, negative, strings(stop_words)).unwrap()
}

fn answer(text: &str) -> AnswerAnalysis {
    AnswerAnalysis {
        answer_text: text.to_string(),
        sentiment_score: Score::neutral(),
        sentiment_label: SentimentLabel::Neutral,
    }
}

fn idea(text: &str, count: usize) -> IdeaItem {
    IdeaItem { idea: text.to_string(), count }
}

#[test]
fn cluster_builder_returns_at_least_one_idea() {
    let answers = vec![AnswerAnalysis {
        answer_text: "Good support and clear feedback".to_string(),
        sentiment_score: Score::new(4, 5).unwrap(),
        sentiment_label: SentimentLabel::Positive,
    }];
    let ideas = cluster_and_summarize(&answers, &lexicon(&["the", "and"]));
    assert!(!ideas.is_empty());
    assert_eq!(ideas, vec![idea("Feedback highlights clear and feedback.", 1)]);
}

#[test]
fn jaccard_of_disjoint_sets_is_zero() {
    let sim = jaccard_similarity(&set_of(&["red", "green"]), &set_of(&["blue"]));
    assert!(sim.is_zero());
    assert!(!sim.is_one());
    assert_eq!((sim.shared(), sim.total()), (0, 3));
}

#[test]
fn jaccard_of_equal_sets_is_one() {
    let sim = jaccard_similarity(&set_of(&["red", "green"]), &set_of(&["green", "red"]));
    assert!(sim.is_one());
    assert!(!sim.is_zero());
    assert_eq!((sim.shared(), sim.total()), (2, 2));
}

#[test]
fn jaccard_with_an_empty_set_is_zero() {
    let empty = WordSet::new();
    assert!(jaccard_similarity(&empty, &set_of(&["red"])).is_zero());
    assert!(jaccard_similarity(&set_of(&["red"]), &empty).is_zero());
    let neither = jaccard_similarity(&empty, &empty);
    assert!(neither.is_zero());
    assert!(!neither.is_one());
    assert!(!neither.at_least(35, 100));
    assert!(neither.at_least(0, 1));
}

#[test]
fn jaccard_counts_shared_out_of_all() {
    let left = set_of(&["great", "support", "fast", "response"]);
    let right = set_of(&["great", "support", "fast", "replies"]);
    let sim = jaccard_similarity(&left, &right);
    assert_eq!((sim.shared(), sim.total()), (3, 5));
    assert!(sim.at_least(35, 100));
    assert!(sim.at_least(3, 5));
    assert!(!sim.at_least(61, 100));
    let ratio = sim.shared() as f64 / sim.total() as f64;
    assert!((ratio - 0.6).abs() < 1e-12);
}

#[test]
fn similarities_compare_as_fractions() {
    let half = jaccard_similarity(&set_of(&["a", "b"]), &set_of(&["b", "c", "d"]));
    let third = jaccard_similarity(&set_of(&["a", "b"]), &set_of(&["b", "c"]));
    let same_third =
        jaccard_similarity(&set_of(&["a", "b", "c", "d"]), &set_of(&["c", "d", "e", "f"]));
    assert_eq!((half.shared(), half.total()), (1, 4));
    assert_eq!((third.shared(), third.total()), (1, 3));
    assert_eq!((same_third.shared(), same_third.total()), (2, 6));
    assert!(third.exceeds(&half));
    assert!(!half.exceeds(&third));
    assert!(!third.exceeds(&same_third));
    assert!(!same_third.exceeds(&third));
    assert!(!third.exceeds(&third));
}

#[test]
fn merge_threshold_is_thirty_five_percent() {
    let at = jaccard_similarity(
        &set_of(&["a", "b", "c", "d", "e", "f", "g", "h", "i", "j", "k", "l", "m"]),
        &set_of(&["a", "b", "c", "d", "e", "f", "g", "n", "o", "p", "q", "r", "s", "t"]),
    );
    assert_eq!((at.shared(), at.total()), (7, 20));
    assert!(at.at_least(35, 100));
    let below = jaccard_similarity(&set_of(&["a", "b", "c"]), &set_of(&["a", "d", "e"]));
    assert_eq!((below.shared(), below.total()), (1, 5));
    assert!(!below.at_least(35, 100));
}

#[test]
fn text_order_is_the_order_of_str() {
    let samples = ["", "a", "ab", "abc", "b", "B", "a1", "1a", "\u{e9}", "z", "zz", "\u{10348}"];
    for left in samples {
        for right in samples {
            assert_eq!(text_precedes(left, right), left <= right, "{left:?} and {right:?}");
        }
    }
}

#[test]
fn ranking_puts_greater_counts_first_and_equal_counts_by_text() {
    let mut ideas = vec![idea("b", 1), idea("a", 1), idea("z", 3), idea("c", 2), idea("a", 2)];
    sort_by_rank(&mut ideas);
    assert_eq!(ideas, vec![idea("z", 3), idea("a", 2), idea("c", 2), idea("a", 1), idea("b", 1)]);
    let mut none: Vec<IdeaItem> = Vec::new();
    sort_by_rank(&mut none);
    assert!(none.is_empty());
}

#[test]
fn ranking_agrees_with_std_sort() {
    let mut ideas: Vec<IdeaItem> = Vec::new();
    let mut seed: u32 = 7;
    for _ in 0..60 {
        seed = seed.wrapping_mul(1_103_515_245).wrapping_add(12_345);
        let count = (seed >> 16) as usize % 4;
        let text = format!("t{}", (seed >> 8) % 9);
        ideas.push(idea(&text, count));
    }
    let mut expected = ideas.clone();
    expected.sort_by(|left, right| {
        right.count.cmp(&left.count).then_with(|| left.idea.cmp(&right.idea))
    });
    sort_by_rank(&mut ideas);
    assert_eq!(ideas, expected);
}

#[test]
fn similar_answers_share_a_cluster() {
    let model = lexicon(&["and"]);
    let answers = vec![
        answer("great support and fast response"),
        answer("great support, fast replies"),
        answer("completely unrelated topic"),
    ];
    let sets: Vec<WordSet> =
        answers.iter().map(|a| tokenize_set(&a.answer_text, model.stop_words())).collect();
    let clusters = build_clusters(&sets);
    assert_eq!(clusters.len(), 2);
    assert_eq!(clusters[0].answer_indexes(), &vec![0, 1]);
    assert_eq!(clusters[1].answer_indexes(), &vec![2]);
    assert_eq!(clusters[0].size(), 2);
    assert_eq!(clusters[0].terms().len(), 5);

    let ideas = cluster_and_summarize(&answers, &model);
    assert_eq!(
        ideas,
        vec![
            idea("Feedback highlights fast and great.", 2),
            idea("Feedback highlights completely and topic.", 1),
        ]
    );
    assert_eq!(ideas.iter().map(|i| i.count).sum::<usize>(), 3);
}

#[test]
fn first_cluster_wins_a_tie() {
    let sets = vec![
        set_of(&["aaa", "bbb"]),
        set_of(&["ccc", "ddd"]),
        set_of(&["aaa", "ccc"]),
        set_of(&["bbb", "ddd", "aaa", "ccc"]),
    ];
    let clusters = build_clusters(&sets[..2].to_vec());
    let tied = best_cluster(&clusters, &sets[2]).unwrap();
    assert_eq!(tied.0, 0);
    assert_eq!((tied.1.shared(), tied.1.total()), (1, 3));

    let all = build_clusters(&sets);
    assert_eq!(all.len(), 3);
    assert_eq!(all[0].answer_indexes(), &vec![0, 3]);
    assert_eq!(all[1].answer_indexes(), &vec![1]);
    assert_eq!(all[2].answer_indexes(), &vec![2]);
}

#[test]
fn later_cluster_wins_when_it_is_more_alike() {
    let sets = vec![
        set_of(&["aaa", "bbb", "ccc", "ddd"]),
        set_of(&["eee", "fff"]),
        set_of(&["aaa", "bbb", "eee", "fff"]),
    ];
    let clusters = build_clusters(&sets);
    assert_eq!(clusters.len(), 2);
    assert_eq!(clusters[0].answer_indexes(), &vec![0]);
    assert_eq!(clusters[1].answer_indexes(), &vec![1, 2]);
}

#[test]
fn no_cluster_is_best_when_none_is_alike() {
    let clusters = build_clusters(&vec![set_of(&["aaa"]), set_of(&["bbb"])]);
    assert_eq!(clusters.len(), 2);
    assert!(best_cluster(&clusters, &set_of(&["ccc"])).is_none());
    assert!(best_cluster(&Vec::new(), &set_of(&["ccc"])).is_none());
}

#[test]
fn answers_without_tokens_join_no_cluster() {
    let model = lexicon(&["the"]);
    let answers = vec![answer("ok"), answer("the"), answer("solid product"), answer("...")];
    let sets: Vec<WordSet> =
        answers.iter().map(|a| tokenize_set(&a.answer_text, model.stop_words())).collect();
    let clusters = build_clusters(&sets);
    assert_eq!(clusters.len(), 1);
    assert_eq!(clusters[0].answer_indexes(), &vec![2]);
    assert_eq!(
        cluster_and_summarize(&answers, &model),
        vec![idea("Feedback highlights product and solid.", 1)]
    );
}

#[test]
fn cluster_counts_each_answer_once_per_token() {
    let mut cluster = Cluster::new(4, &set_of(&["slow", "app"]));
    cluster.absorb(9, &set_of(&["slow", "login"]));
    cluster.absorb(11, &set_of(&["slow", "app"]));
    assert_eq!(cluster.answer_indexes(), &vec![4, 9, 11]);
    let mut counts: Vec<(String, usize)> =
        cluster.term_counts().into_iter().map(|t| (t.term, t.count)).collect();
    counts.sort();
    assert_eq!(
        counts,
        vec![("app".to_string(), 2), ("login".to_string(), 1), ("slow".to_string(), 3)]
    );
    let top: Vec<(String, usize)> =
        leading_terms(&cluster).into_iter().map(|t| (t.term, t.count)).collect();
    assert_eq!(
        top,
        vec![("slow".to_string(), 3), ("app".to_string(), 2), ("login".to_string(), 1)]
    );
    assert_eq!(summarize(&cluster), idea("Feedback highlights slow and app.", 3));
}

#[test]
fn summary_wording_follows_the_number_of_terms() {
    let one = Cluster::new(0, &set_of(&["pricing"]));
    assert_eq!(summarize(&one), idea("Feedback repeatedly mentions pricing.", 1));
    let none = Cluster::new(0, &WordSet::new());
    assert_eq!(summarize(&none), idea("Feedback highlights mixed perspectives.", 1));
    let unnamed = Cluster::new(0, &set_of(&["", "pricing"]));
    assert_eq!(summarize(&unnamed), idea("Feedback repeatedly mentions pricing.", 1));
    let many = Cluster::new(0, &set_of(&["delta", "alpha", "charlie", "bravo"]));
    assert_eq!(summarize(&many), idea("Feedback highlights alpha and bravo.", 1));
    assert_eq!(leading_terms(&many).len(), 3);
}

#[test]
fn no_answers_give_the_fallback_idea() {
    let model = lexicon(&["the", "and"]);
    assert_eq!(
        cluster_and_summarize(&[], &model),
        vec![idea("Feedback highlights mixed perspectives.", 1)]
    );
    assert_eq!(
        cluster_and_summarize(&[answer("ok"), answer("!!")], &model),
        vec![idea("Feedback highlights mixed perspectives.", 1)]
    );
}

#[test]
fn fifteen_clusters_give_ten_ideas_in_order() {
    let model = lexicon(&["the", "and"]);
    let names = [
        "mango", "apple", "zebra", "quartz", "violet", "lemon", "nickel", "bronze", "yellow",
        "copper", "walnut", "indigo", "hazel", "pepper", "salmon",
    ];
    let mut answers: Vec<AnswerAnalysis> =
        names.iter().map(|name| answer(&format!("{name}one {name}two"))).collect();
    answers.push(answer("zebraone zebratwo again"));
    answers.push(answer("pepperone peppertwo"));
    answers.push(answer("zebratwo zebraone"));
    let ideas = cluster_and_summarize(&answers, &model);
    assert_eq!(ideas.len(), 10);
    assert_eq!(ideas[0], idea("Feedback highlights zebraone and zebratwo.", 3));
    assert_eq!(ideas[1], idea("Feedback highlights pepperone and peppertwo.", 2));
    let mut rest: Vec<String> = names
        .iter()
        .filter(|name| **name != "zebra" && **name != "pepper")
        .map(|name| format!("Feedback highlights {name}one and {name}two."))
        .collect();
    rest.sort();
    for (place, summary) in rest.iter().take(8).enumerate() {
        assert_eq!(ideas[place + 2], idea(summary, 1));
    }
    for pair in ideas.windows(2) {
        assert!(
            pair[0].count > pair[1].count
                || (pair[0].count == pair[1].count && pair[0].idea <= pair[1].idea)
        );
    }
}

#[test]
fn fifteen_distinct_answers_give_exactly_ten_ideas() {
    let model = lexicon(&["the", "and"]);
    let answers: Vec<AnswerAnalysis> =
        (0..15).map(|n| answer(&format!("topic{n:02}first topic{n:02}second"))).collect();
    let ideas = cluster_and_summarize(&answers, &model);
    assert_eq!(ideas.len(), 10);
    for (n, item) in ideas.iter().enumerate() {
        assert_eq!(
            *item,
            idea(&format!("Feedback highlights topic{n:02}first and topic{n:02}second."), 1)
        );
    }
}
