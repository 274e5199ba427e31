//! The integer statistics that relevance scoring is made of: term
//! frequencies, document frequencies, the corpus length, and the fraction
//! inside the inverse-frequency logarithm.
use vstd::prelude::*;
use crate::corpus::Global;
use crate::document::{Document, has_term, position_of};

verus! {

/// The number of documents whose term table has the key `w`.
pub open spec fn doc_freq(docs: Seq<(String, Document)>, w: Seq<char>) -> nat
    decreases docs.len(),
{
    if docs.len() == 0 {
        0
    } else {
        doc_freq(docs.drop_last(), w) + if has_term(docs.last().1.word_count@, w) { 1nat } else { 0nat }
    }
}

/// The sum of the lengths of all documents.
pub open spec fn corpus_length(docs: Seq<(String, Document)>) -> nat
    decreases docs.len(),
{
    if docs.len() == 0 {
        0
    } else {
        corpus_length(docs.drop_last()) + docs.last().1.length as nat
    }
}

/// Numerator of the fraction added to 1 inside the inverse-frequency logarithm,
/// doubled: `(N - n) + 1/2` is `idf_numerator(N, n) / 2`.
pub open spec fn idf_numerator(entries: int, containing: int) -> int {
    2 * (entries - containing) + 1
}

/// Denominator of that fraction, doubled: `n + 1/2` is `idf_denominator(n) / 2`.
pub open spec fn idf_denominator(containing: int) -> int {
    2 * containing + 1
}

/// What one query term that occurs in a document contributes to its score:
/// the term's count in the document and the number of documents that hold it.
#[derive(Clone, Copy, Debug, PartialEq, Eq)]
pub struct TermWeight {
    pub frequency: usize,
    pub containing: usize,
}

/// The weights of the query terms that occur in `d`, in query order, with
/// repeats, over the documents `docs`.
pub open spec fn weights(d: Document, query: Seq<String>, docs: Seq<(String, Document)>) -> Seq<TermWeight>
    decreases query.len(),
{
    if query.len() == 0 {
        seq![]
    } else {
        let prev = weights(d, query.drop_last(), docs);
        let w = query.last()@;
        if d.count(w) > 0 {
            prev.push(TermWeight { frequency: d.count(w) as usize, containing: doc_freq(docs, w) as usize })
        } else {
            prev
        }
    }
}

/// The terms that make up a document's score. A term that the document lacks
/// adds nothing to a score, and with no entries scanned every score is 0, so
/// neither yields a weight.
pub open spec fn relevance(d: Document, query: Seq<String>, corpus: Global) -> Seq<TermWeight> {
    if corpus.entry_count == 0 {
        seq![]
    } else {
        weights(d, query, corpus.documents@)
    }
}

proof fn lemma_doc_freq_bound(docs: Seq<(String, Document)>, w: Seq<char>)
    ensures
        doc_freq(docs, w) <= docs.len(),
    decreases docs.len(),
{
    if docs.len() > 0 {
        lemma_doc_freq_bound(docs.drop_last(), w);
    }
}

/// The number of indexed documents that hold `word`.
pub fn document_frequency(word: &String, corpus: &Global) -> (r: usize)
    ensures
        r == doc_freq(corpus.documents@, word@),
{
    let mut count: usize = 0;
    let mut i: usize = 0;
    while i < corpus.documents.len()
        invariant
            i <= corpus.documents@.len(),
            count == doc_freq(corpus.documents@.subrange(0, i as int), word@),
        decreases corpus.documents.len() - i,
    {
        proof {
            let next = corpus.documents@.subrange(0, i + 1);
            assert(next.drop_last() =~= corpus.documents@.subrange(0, i as int));
            lemma_doc_freq_bound(corpus.documents@.subrange(0, i as int), word@);
        }
        match position_of(&corpus.documents[i].1.word_count, word) {
            Some(_) => {
                count = count + 1;
            },
            None => {},
        }
        i = i + 1;
    }
    proof {
        assert(corpus.documents@.subrange(0, i as int) =~= corpus.documents@);
    }
    count
}

/// The sum of the lengths of all indexed documents.
pub fn total_length(corpus: &Global) -> (r: u128)
    ensures
        r == corpus_length(corpus.documents@),
{
    let mut sum: u128 = 0;
    let mut i: usize = 0;
    while i < corpus.documents.len()
        invariant
            i <= corpus.documents@.len(),
            sum == corpus_length(corpus.documents@.subrange(0, i as int)),
            sum <= i * (usize::MAX as int),
        decreases corpus.documents.len() - i,
    {
        proof {
            let next = corpus.documents@.subrange(0, i + 1);
            assert(next.drop_last() =~= corpus.documents@.subrange(0, i as int));
            assert(i * (usize::MAX as int) + usize::MAX == (i + 1) * (usize::MAX as int)) by (nonlinear_arith);
            assert((i + 1) * (usize::MAX as int) <= (usize::MAX as int) * (usize::MAX as int)) by (nonlinear_arith)
                requires i + 1 <= usize::MAX;
        }
        sum = sum + corpus.documents[i].1.length as u128;
        i = i + 1;
    }
    proof {
        assert(corpus.documents@.subrange(0, i as int) =~= corpus.documents@);
    }
    sum
}

/// The fraction that the inverse-frequency weight adds to 1 before taking the
/// logarithm, `((N - n) + 1/2) / (n + 1/2)`, as a numerator and a denominator
/// both doubled, for `n` documents holding the term and `N` entries scanned.
pub fn idf_fraction(containing: usize, entries: usize) -> (r: (i128, i128))
    ensures
        r.0 == idf_numerator(entries as int, containing as int),
        r.1 == idf_denominator(containing as int),
{
    (2 * (entries as i128 - containing as i128) + 1, 2 * containing as i128 + 1)
}

/// The weights that make up the score of `document` for `query`: one for each
/// query term, repeats included, that the document holds; none at all when the
/// corpus has no scanned entries, so that such a score is 0 rather than a
/// division by zero.
pub fn relevance_terms(document: &Document, query: &Vec<String>, corpus: &Global) -> (r: Vec<TermWeight>)
    ensures
        r@ == relevance(*document, query@, *corpus),
{
    let mut out: Vec<TermWeight> = Vec::new();
    if corpus.entry_count == 0 {
        return out;
    }
    let mut i: usize = 0;
    while i < query.len()
        invariant
            i <= query@.len(),
            corpus.entry_count != 0,
            out@ == weights(*document, query@.subrange(0, i as int), corpus.documents@),
        decreases query.len() - i,
    {
        proof {
            let next = query@.subrange(0, i + 1);
            assert(next.drop_last() =~= query@.subrange(0, i as int));
        }
        match position_of(&document.word_count, &query[i]) {
            Some(j) => {
                let frequency = document.word_count[j].1;
                if frequency > 0 {
                    let containing = document_frequency(&query[i], corpus);
                    out.push(TermWeight { frequency, containing });
                }
            },
            None => {
                proof {
                    crate::document::lemma_count_absent(document.word_count@, query@[i as int]@);
                }
            },
        }
        i = i + 1;
    }
    proof {
        assert(query@.subrange(0, i as int) =~= query@);
    }
    out
}

/// For a fixed number of scanned entries, the fraction inside the
/// inverse-frequency logarithm, `((N - n) + 1/2) / (n + 1/2)`, strictly
/// decreases as the number `n` of documents holding the term grows.
pub proof fn lemma_idf_fraction_decreasing(entries: int, n1: int, n2: int)
    requires
        0 <= entries,
        0 <= n1 < n2,
    ensures
        idf_denominator(n1) > 0,
        idf_denominator(n2) > 0,
        idf_numerator(entries, n1) * idf_denominator(n2) > idf_numerator(entries, n2) * idf_denominator(n1),
{
    assert((2 * (entries - n1) + 1) * (2 * n2 + 1) - (2 * (entries - n2) + 1) * (2 * n1 + 1)
        == (4 * entries + 4) * (n2 - n1)) by (nonlinear_arith);
    assert((4 * entries + 4) * (n2 - n1) > 0) by (nonlinear_arith)
        requires entries >= 0, n2 > n1;
}

proof fn lemma_no_weights(d: Document, query: Seq<String>, docs: Seq<(String, Document)>)
    requires
        forall|i: int| 0 <= i < query.len() ==> d.count((#[trigger] query[i])@) == 0,
    ensures
        weights(d, query, docs).len() == 0,
    decreases query.len(),
{
    if query.len() > 0 {
        let prefix = query.drop_last();
        assert forall|i: int| 0 <= i < prefix.len() implies d.count((#[trigger] prefix[i])@) == 0 by {
            assert(prefix[i] == query[i]);
        }
        lemma_no_weights(d, prefix, docs);
        assert(d.count(query[query.len() - 1]@) == 0);
    }
}

/// A document that holds none of the query terms has no weighted terms, so its
/// score, their sum, is exactly 0.
pub proof fn lemma_absent_terms_score_zero(d: Document, query: Seq<String>, corpus: Global)
    requires
        forall|i: int| 0 <= i < query.len() ==> !has_term(d.word_count@, (#[trigger] query[i])@),
    ensures
        relevance(d, query, corpus).len() == 0,
{
    assert forall|i: int| 0 <= i < query.len() implies d.count((#[trigger] query[i])@) == 0 by {
        crate::document::lemma_count_absent(d.word_count@, query[i]@);
    }
    lemma_no_weights(d, query, corpus.documents@);
}

} // verus!
