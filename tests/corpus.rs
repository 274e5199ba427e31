use searsch::corpus::{scan_all_documents, Entry, Global};
use searsch::document::words_time_by_documents;

fn file(path: &str, text: &str) -> Entry {
    Entry::File { path: path.to_string(), text: text.to_string() }
}

fn keys(g: &Global) -> Vec<String> {
    g.documents.iter().map(|(k, _)| k.clone()).collect()
}

#[test]
fn no_directory_leaves_corpus_unchanged() {
    let mut g = Global::new(vec![("a".to_string(), words_time_by_documents("x y"))], 7);
    scan_all_documents(None, &mut g);
    assert_eq!(keys(&g), vec!["a".to_string()]);
    assert_eq!(g.entry_count, 7);
    assert_eq!(g.documents[0].1.length, 2);
}

#[test]
fn scan_indexes_files_and_counts_every_entry() {
    let mut g = Global::new(Vec::new(), 0);
    let entries = vec![file("d/a", "cat sat"), Entry::Other, file("d/b", "dog")];
    scan_all_documents(Some(entries), &mut g);
    assert_eq!(keys(&g), vec!["d/a".to_string(), "d/b".to_string()]);
    assert_eq!(g.entry_count, 3);
    assert_eq!(g.documents[0].1.length, 2);
    assert_eq!(g.documents[1].1.length, 1);
}

#[test]
fn known_files_are_never_reindexed() {
    let mut g = Global::new(Vec::new(), 0);
    scan_all_documents(Some(vec![file("a", "one two three"), Entry::Other]), &mut g);
    scan_all_documents(Some(vec![file("a", "changed"), file("b", "new file")]), &mut g);
    assert_eq!(keys(&g), vec!["a".to_string(), "b".to_string()]);
    assert_eq!(g.documents[0].1.length, 3);
    assert_eq!(g.documents[1].1.length, 2);
    assert_eq!(g.entry_count, 2);
}

#[test]
fn rescanning_keeps_documents_and_recounts_entries() {
    let entries = vec![file("a", "x y x"), Entry::Other, Entry::Other, file("b", "z")];
    let mut g = Global::new(Vec::new(), 0);
    scan_all_documents(Some(entries.clone()), &mut g);
    let first = g.clone();
    g.entry_count = 99;
    scan_all_documents(Some(entries), &mut g);
    assert_eq!(keys(&g), keys(&first));
    for (d1, d2) in g.documents.iter().zip(first.documents.iter()) {
        assert_eq!(d1.1.word_count, d2.1.word_count);
        assert_eq!(d1.1.length, d2.1.length);
    }
    assert_eq!(g.entry_count, 4);
}

#[test]
fn empty_scan_sets_entry_count_to_zero() {
    let mut g = Global::new(vec![("a".to_string(), words_time_by_documents("x"))], 5);
    scan_all_documents(Some(Vec::new()), &mut g);
    assert_eq!(g.entry_count, 0);
    assert_eq!(keys(&g), vec!["a".to_string()]);
}

#[test]
fn duplicate_path_in_one_scan_is_indexed_once() {
    let mut g = Global::new(Vec::new(), 0);
    scan_all_documents(Some(vec![file("a", "x"), file("a", "y y")]), &mut g);
    assert_eq!(keys(&g), vec!["a".to_string()]);
    assert_eq!(g.documents[0].1.length, 1);
}

#[test]
fn contains_reports_indexed_paths() {
    let g = Global::new(vec![("a".to_string(), words_time_by_documents("x"))], 1);
    assert!(g.contains(&"a".to_string()));
    assert!(!g.contains(&"b".to_string()));
}
