use text_summarizer::tokenizer::Tokenizer;

#[test]
fn sentences_split_on_periods() {
    let s = Tokenizer::text_to_sentences("A cat sat. A dog ran. A cat sat on mat.");
    assert_eq!(s, vec!["A cat sat", "A dog ran", "A cat sat on mat"]);
}

#[test]
fn sentences_split_on_all_terminators() {
    let s = Tokenizer::text_to_sentences("Hi! How are you? Fine.");
    assert_eq!(s, vec!["Hi", "How are you", "Fine"]);
}

#[test]
fn blank_fragments_are_dropped() {
    let s = Tokenizer::text_to_sentences("Wait... what?!  . \n");
    assert_eq!(s, vec!["Wait", "what"]);
}

#[test]
fn text_without_terminator_is_one_sentence() {
    let s = Tokenizer::text_to_sentences("  no full stop here \n");
    assert_eq!(s, vec!["no full stop here"]);
}

#[test]
fn empty_text_has_no_sentences() {
    assert!(Tokenizer::text_to_sentences("").is_empty());
}

#[test]
fn whitespace_text_has_no_sentences() {
    assert!(Tokenizer::text_to_sentences(" \t\n  \r\n").is_empty());
}

#[test]
fn single_sentence_round_trip() {
    let one = "The sky is blue";
    let again = format!("{}.", one);
    assert_eq!(Tokenizer::text_to_sentences(&again), vec![one]);
    let padded = "  The sky is blue \n.";
    assert_eq!(Tokenizer::text_to_sentences(padded), vec![one]);
}

#[test]
fn sentences_keep_non_ascii_text() {
    let s = Tokenizer::text_to_sentences("Ça va? Très bien.");
    assert_eq!(s, vec!["Ça va", "Très bien"]);
}

#[test]
fn tokens_split_on_ascii_whitespace() {
    let t = Tokenizer::sentence_to_tokens("  a  b\tc\nd\r\x0Ce ");
    assert_eq!(t, vec!["a", "b", "c", "d", "e"]);
}

#[test]
fn tokens_of_blank_sentence() {
    assert!(Tokenizer::sentence_to_tokens("").is_empty());
    assert!(Tokenizer::sentence_to_tokens("   ").is_empty());
}

#[test]
fn tokens_keep_punctuation_and_case() {
    let t = Tokenizer::sentence_to_tokens("Hello, hello World");
    assert_eq!(t, vec!["Hello,", "hello", "World"]);
}

#[test]
fn freq_map_counts_each_word() {
    let words = vec!["a", "b", "a", "c", "a"];
    let m = Tokenizer::get_freq_map(&words);
    assert_eq!(m.len(), 3);
    assert_eq!(m.get("a"), Some(3));
    assert_eq!(m.get("b"), Some(1));
    assert_eq!(m.get("c"), Some(1));
    assert_eq!(m.get("z"), None);
    assert_eq!(m.word(0), "a");
    assert_eq!(m.word(1), "b");
    assert_eq!(m.word(2), "c");
    assert_eq!(m.count(0), 3);
}

#[test]
fn freq_map_is_case_sensitive() {
    let words = vec!["The", "the", "THE", "the"];
    let m = Tokenizer::get_freq_map(&words);
    assert_eq!(m.len(), 3);
    assert_eq!(m.get("the"), Some(2));
    assert_eq!(m.get("The"), Some(1));
}

#[test]
fn freq_map_counts_sum_to_token_count() {
    let words = vec!["x", "y", "x", "z", "z", "z", "w"];
    let m = Tokenizer::get_freq_map(&words);
    assert_eq!(m.total(), words.len());
    let mut sum = 0.0f32;
    for i in 0..m.len() {
        sum += m.count(i) as f32 / words.len() as f32;
    }
    assert!((sum - 1.0).abs() < 1e-6);
}

#[test]
fn freq_map_of_no_words() {
    let words: Vec<&str> = Vec::new();
    let m = Tokenizer::get_freq_map(&words);
    assert_eq!(m.len(), 0);
    assert_eq!(m.total(), 0);
    assert_eq!(m.get("a"), None);
}
