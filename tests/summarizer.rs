use text_summarizer::summarizer::{Summarizer, Term};
use text_summarizer::tokenizer::Tokenizer;

const EXAMPLE: &str = "A cat sat. A dog ran. A cat sat on mat.";

fn tokenize<'a>(sentences: &[&'a str]) -> Vec<Vec<&'a str>> {
    sentences.iter().map(|s| Tokenizer::sentence_to_tokens(s)).collect()
}

fn score(row: &[Term]) -> f32 {
    let mut sum = 0.0f32;
    for t in row {
        let tf = t.count as f32 / t.length as f32;
        let idf = (t.sentences as f32 / t.occurrences as f32).log10();
        sum += tf * idf;
    }
    sum
}

fn key(score: f32) -> i32 {
    let bits = score.to_bits() as i32;
    bits ^ ((((bits >> 31) as u32) >> 1) as i32)
}

fn summarize(text: &str, reduction_factor: f32) -> String {
    let (sentences, terms) = Summarizer::score_sentences(text);
    let keys: Vec<i32> = terms.iter().map(|row| key(score(row))).collect();
    let count = (reduction_factor * sentences.len() as f32) as usize;
    Summarizer::select(&sentences, &keys, count)
}

#[test]
fn term_frequency_table() {
    let tokens = vec!["A", "cat", "sat", "on", "a", "cat"];
    let tf = Summarizer::compute_term_frequency(&tokens);
    assert_eq!(tf.len(), 5);
    assert_eq!(tf.get("cat"), Some(2));
    assert_eq!(tf.get("A"), Some(1));
    assert_eq!(tf.get("a"), Some(1));
    assert_eq!(tf.total(), 6);
}

#[test]
fn document_frequency_sums_occurrences() {
    let sentences = Tokenizer::text_to_sentences(EXAMPLE);
    let tokens = tokenize(&sentences);
    let df = Summarizer::compute_inverse_doc_frequency(&tokens[2], &tokens);
    assert_eq!(df, vec![3, 2, 2, 1, 1]);
    let repeated = vec![vec!["x", "x", "y"], vec!["x"]];
    let df = Summarizer::compute_inverse_doc_frequency(&repeated[1], &repeated);
    assert_eq!(df, vec![3]);
}

#[test]
fn terms_of_example() {
    let sentences = Tokenizer::text_to_sentences(EXAMPLE);
    let tokens = tokenize(&sentences);
    let terms = Summarizer::score_terms(&tokens);
    assert_eq!(terms.len(), 3);
    assert_eq!(terms[0].len(), 3);
    assert_eq!(terms[2].len(), 5);
    assert_eq!(
        terms[0][1],
        Term { count: 1, length: 3, occurrences: 2, sentences: 3 }
    );
    assert_eq!(
        terms[1][1],
        Term { count: 1, length: 3, occurrences: 1, sentences: 3 }
    );
    assert_eq!(
        terms[2][0],
        Term { count: 1, length: 5, occurrences: 3, sentences: 3 }
    );
}

#[test]
fn example_scores_by_hand() {
    let sentences = Tokenizer::text_to_sentences(EXAMPLE);
    let terms = Summarizer::score_terms(&tokenize(&sentences));
    let s: Vec<f32> = terms.iter().map(|r| score(r)).collect();
    // (2 * log10(3/2)) / 3, (2 * log10(3)) / 3, (2 * log10(3/2) + 2 * log10(3)) / 5
    assert!((s[0] - 0.117_393).abs() < 1e-5);
    assert!((s[1] - 0.318_081).abs() < 1e-5);
    assert!((s[2] - 0.261_285).abs() < 1e-5);
}

#[test]
fn example_summary_picks_best_sentence() {
    assert_eq!(summarize(EXAMPLE, 0.34), "A dog ran");
}

#[test]
fn summary_length_follows_reduction_factor() {
    assert_eq!(summarize(EXAMPLE, 0.67), "A dog ran. A cat sat on mat");
    assert_eq!(summarize(EXAMPLE, 0.5), "A dog ran");
    assert_eq!(summarize(EXAMPLE, 0.3), "");
}

#[test]
fn reduction_factor_zero_and_one() {
    assert_eq!(summarize(EXAMPLE, 0.0), "");
    assert_eq!(summarize(EXAMPLE, 1.0), "A dog ran. A cat sat on mat. A cat sat");
}

#[test]
fn count_beyond_sentences_is_clamped() {
    let sentences = vec!["one", "two"];
    let keys = vec![1, 2];
    assert_eq!(Summarizer::select(&sentences, &keys, 7), "two. one");
}

#[test]
fn blank_document_gives_empty_summary() {
    assert_eq!(summarize("", 1.0), "");
    assert_eq!(summarize("  \n\t ", 1.0), "");
    let tokens: Vec<Vec<&str>> = Vec::new();
    assert!(Summarizer::score_terms(&tokens).is_empty());
}

#[test]
fn single_sentence_scores_zero() {
    let sentences = Tokenizer::text_to_sentences("just one sentence here.");
    let terms = Summarizer::score_terms(&tokenize(&sentences));
    assert_eq!(terms.len(), 1);
    for t in &terms[0] {
        assert_eq!(t.occurrences, 1);
        assert_eq!(t.sentences, 1);
    }
    assert_eq!(score(&terms[0]), 0.0);
}

#[test]
fn single_sentence_with_repeated_word_scores_below_zero() {
    let tokens = vec![vec!["a", "a", "b"]];
    let terms = Summarizer::score_terms(&tokens);
    assert_eq!(terms[0][0], Term { count: 2, length: 3, occurrences: 2, sentences: 1 });
    assert!(score(&terms[0]) < 0.0);
}

#[test]
fn duplicate_sentences_are_ranked_apart() {
    let text = "Red fox. Blue bird sings. Red fox.";
    let sentences = Tokenizer::text_to_sentences(text);
    let terms = Summarizer::score_terms(&tokenize(&sentences));
    assert_eq!(terms[0], terms[2]);
    let keys: Vec<i32> = terms.iter().map(|row| key(score(row))).collect();
    assert_eq!(Summarizer::rank(&keys), vec![1, 0, 2]);
    assert_eq!(summarize(text, 1.0), "Blue bird sings. Red fox. Red fox");
}

#[test]
fn rank_orders_by_key_then_position() {
    assert_eq!(Summarizer::rank(&vec![5, 9, 5, 1, 9]), vec![1, 4, 0, 2, 3]);
    assert_eq!(Summarizer::rank(&vec![-3, 0, -3]), vec![1, 0, 2]);
    assert!(Summarizer::rank(&Vec::new()).is_empty());
}

#[test]
fn select_joins_in_ranked_order() {
    let sentences = vec!["first", "second", "third"];
    let keys = vec![1, 3, 2];
    assert_eq!(Summarizer::select(&sentences, &keys, 0), "");
    assert_eq!(Summarizer::select(&sentences, &keys, 1), "second");
    assert_eq!(Summarizer::select(&sentences, &keys, 2), "second. third");
    assert_eq!(Summarizer::select(&sentences, &keys, 3), "second. third. first");
}

#[test]
fn select_size_matches_count() {
    let sentences = vec!["a", "b", "c", "d"];
    let keys = vec![4, 3, 2, 1];
    for count in 0..6usize {
        let s = Summarizer::select(&sentences, &keys, count);
        let parts = if s.is_empty() { 0 } else { s.split(". ").count() };
        assert_eq!(parts, count.min(4));
    }
}

#[test]
fn score_sentences_matches_stepwise_scoring() {
    let (sentences, terms) = Summarizer::score_sentences(EXAMPLE);
    assert_eq!(sentences, vec!["A cat sat", "A dog ran", "A cat sat on mat"]);
    let stepwise = Summarizer::score_terms(&tokenize(&sentences));
    assert_eq!(terms, stepwise);
    let (none, no_terms) = Summarizer::score_sentences("   ");
    assert!(none.is_empty());
    assert!(no_terms.is_empty());
}
