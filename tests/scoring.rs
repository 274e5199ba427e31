use searsch::corpus::Global;
use searsch::document::Document;
use searsch::ranking::top_five;
use searsch::scoring::{document_frequency, idf_fraction, relevance_terms, total_length, TermWeight};

fn doc(terms: &[(&str, usize)], length: usize) -> Document {
    Document::new(terms.iter().map(|(k, c)| (k.to_string(), *c)).collect(), length)
}

fn two_documents() -> Global {
    Global::new(
        vec![
            ("A".to_string(), doc(&[("cat", 2), ("sat", 1)], 3)),
            ("B".to_string(), doc(&[("dog", 3)], 3)),
        ],
        2,
    )
}

fn query(words: &[&str]) -> Vec<String> {
    words.iter().map(|w| w.to_string()).collect()
}

fn score(d: &Document, q: &Vec<String>, g: &Global) -> i32 {
    let weights = relevance_terms(d, q, g);
    if weights.is_empty() {
        return 0;
    }
    let avg = total_length(g) as f32 / g.entry_count as f32;
    let mut s: f32 = 0.0;
    for w in &weights {
        let (num, den) = idf_fraction(w.containing, g.entry_count);
        let idf = (1.0 + num as f32 / den as f32).log10();
        let f = w.frequency as f32;
        s += idf * (f * 2.2 / (f + 1.2 * (1.0 - 0.75 + 0.75 * avg)));
    }
    (s * 1000.0).round() as i32
}

#[test]
fn document_frequency_counts_holding_documents() {
    let g = two_documents();
    assert_eq!(document_frequency(&"cat".to_string(), &g), 1);
    assert_eq!(document_frequency(&"dog".to_string(), &g), 1);
    assert_eq!(document_frequency(&"bird".to_string(), &g), 0);
}

#[test]
fn total_length_sums_document_lengths() {
    assert_eq!(total_length(&two_documents()), 6);
    assert_eq!(total_length(&Global::new(Vec::new(), 0)), 0);
}

#[test]
fn idf_fraction_is_doubled_numerator_and_denominator() {
    assert_eq!(idf_fraction(1, 2), (3, 3));
    assert_eq!(idf_fraction(0, 4), (9, 1));
    assert_eq!(idf_fraction(3, 1), (-3, 7));
}

#[test]
fn idf_fraction_decreases_with_more_holding_documents() {
    let n = 10;
    let mut last: f64 = f64::INFINITY;
    for c in 0..15 {
        let (a, b) = idf_fraction(c, n);
        let v = a as f64 / b as f64;
        assert!(v < last);
        last = v;
    }
}

#[test]
fn relevance_terms_of_two_document_scenario() {
    let g = two_documents();
    let q = query(&["cat"]);
    assert_eq!(relevance_terms(&g.documents[0].1, &q, &g), vec![TermWeight { frequency: 2, containing: 1 }]);
    assert!(relevance_terms(&g.documents[1].1, &q, &g).is_empty());
}

#[test]
fn repeated_query_terms_weigh_repeatedly() {
    let g = two_documents();
    let q = query(&["cat", "dog", "cat", "sat"]);
    assert_eq!(
        relevance_terms(&g.documents[0].1, &q, &g),
        vec![
            TermWeight { frequency: 2, containing: 1 },
            TermWeight { frequency: 2, containing: 1 },
            TermWeight { frequency: 1, containing: 1 },
        ]
    );
}

#[test]
fn document_without_query_terms_scores_zero() {
    let g = two_documents();
    let q = query(&["bird", "fish"]);
    assert!(relevance_terms(&g.documents[0].1, &q, &g).is_empty());
    assert_eq!(score(&g.documents[0].1, &q, &g), 0);
}

#[test]
fn no_scanned_entries_gives_no_weights() {
    let mut g = two_documents();
    g.entry_count = 0;
    assert!(relevance_terms(&g.documents[0].1, &query(&["cat"]), &g).is_empty());
}

#[test]
fn two_document_scenario_ranks_a_first() {
    let g = two_documents();
    let q = query(&["cat"]);
    let scores: Vec<i32> = g.documents.iter().map(|(_, d)| score(d, &q, &g)).collect();
    assert_eq!(scores[1], 0);
    assert!(scores[0] > 0);
    // idf = log10(1 + 1.5 / 1.5) and tf = 4.4 / (2 + 1.2 * (0.25 + 0.75 * 3))
    assert_eq!(scores[0], 265);
    assert_eq!(top_five(&scores), vec![Some(0), Some(1), None, None, None]);
}

#[test]
fn empty_corpus_reports_no_results() {
    let g = Global::new(Vec::new(), 0);
    let scores: Vec<i32> = g.documents.iter().map(|(_, d)| score(d, &query(&["cat"]), &g)).collect();
    assert_eq!(top_five(&scores), vec![None, None, None, None, None]);
}

#[test]
fn top_five_orders_by_score_and_stops_at_five() {
    let scores = vec![5, 40, -3, 17, 40, 8, 0];
    let r = top_five(&scores);
    assert_eq!(r.len(), 5);
    let picked: Vec<usize> = r.iter().map(|s| s.unwrap()).collect();
    let got: Vec<i32> = picked.iter().map(|&i| scores[i]).collect();
    assert_eq!(got, vec![40, 40, 17, 8, 5]);
    assert!(picked.contains(&1) && picked.contains(&4));
}

#[test]
fn top_five_with_fewer_documents_pads_with_none() {
    assert_eq!(top_five(&vec![3, 9]), vec![Some(1), Some(0), None, None, None]);
    assert_eq!(top_five(&vec![7]), vec![Some(0), None, None, None, None]);
}
