use searsch::document::{search_terms, words_time_by_documents, Document};

fn count(d: &Document, w: &str) -> usize {
    d.word_count
        .iter()
        .find(|(k, _)| k == w)
        .map(|(_, c)| *c)
        .unwrap_or(0)
}

#[test]
fn counts_terms_case_insensitively() {
    let d = words_time_by_documents("The cat saw the CAT and THE dog");
    assert_eq!(d.length, 8);
    assert_eq!(count(&d, "the"), 3);
    assert_eq!(count(&d, "cat"), 2);
    assert_eq!(count(&d, "saw"), 1);
    assert_eq!(count(&d, "dog"), 1);
    assert_eq!(count(&d, "The"), 0);
    assert_eq!(d.word_count.len(), 5);
}

#[test]
fn counts_add_up_to_length() {
    let d = words_time_by_documents("a b a c b a\n\td  e");
    let sum: usize = d.word_count.iter().map(|(_, c)| *c).sum();
    assert_eq!(sum, d.length);
    assert_eq!(d.length, 8);
}

#[test]
fn empty_text_has_no_terms() {
    let d = words_time_by_documents("");
    assert_eq!(d.length, 0);
    assert!(d.word_count.is_empty());
}

#[test]
fn whitespace_only_text_has_no_terms() {
    let d = words_time_by_documents("  \t\n \r\n  \u{3000} ");
    assert_eq!(d.length, 0);
    assert!(d.word_count.is_empty());
}

#[test]
fn punctuation_stays_attached() {
    let d = words_time_by_documents("Cat, cat cat.");
    assert_eq!(d.length, 3);
    assert_eq!(count(&d, "cat,"), 1);
    assert_eq!(count(&d, "cat"), 1);
    assert_eq!(count(&d, "cat."), 1);
}

#[test]
fn query_splits_on_single_spaces_and_lowercases() {
    assert_eq!(search_terms("Cat SAT"), vec!["cat".to_string(), "sat".to_string()]);
    assert_eq!(
        search_terms("a  B"),
        vec!["a".to_string(), String::new(), "b".to_string()]
    );
    assert_eq!(search_terms(""), vec![String::new()]);
}
