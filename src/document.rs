//! Per-document term statistics and the tokenizer that produces them.
use vstd::prelude::*;

verus! {

/// The whitespace-separated pieces of a text, in order.
pub uninterp spec fn whitespace_words(s: Seq<char>) -> Seq<Seq<char>>;

/// The lowercase form of a text.
pub uninterp spec fn lower_of(s: Seq<char>) -> Seq<char>;

/// Unicode's White_Space property.
pub open spec fn is_white_space(c: char) -> bool {
    ('\u{9}' <= c && c <= '\u{d}') || c == ' ' || c == '\u{85}' || c == '\u{a0}'
        || c == '\u{1680}' || ('\u{2000}' <= c && c <= '\u{200a}') || c == '\u{2028}'
        || c == '\u{2029}' || c == '\u{202f}' || c == '\u{205f}' || c == '\u{3000}'
}

/// Relies on str::split_whitespace: the pieces between runs of White_Space
/// characters; a text made only of such characters (or empty) has none.
#[verifier::external_body]
fn split_words(s: &str) -> (r: Vec<String>)
    ensures
        r@.map_values(|w: String| w@) == whitespace_words(s@),
        (forall|i: int| 0 <= i < s@.len() ==> is_white_space(#[trigger] s@[i])) ==> r@.len() == 0,
{
    s.split_whitespace().map(String::from).collect()
}

/// Relies on str::to_lowercase: the lowercase form depends on the text alone.
#[verifier::external_body]
pub(crate) fn lowercase(s: &str) -> (r: String)
    ensures
        r@ == lower_of(s@),
{
    s.to_lowercase()
}

/// The pieces of `s` between single spaces, empty pieces included: one more
/// than the number of spaces.
pub open spec fn space_pieces(s: Seq<char>) -> Seq<Seq<char>>
    decreases s.len(),
{
    if s.len() == 0 {
        seq![Seq::<char>::empty()]
    } else {
        let prev = space_pieces(s.drop_last());
        if s.last() == ' ' {
            prev.push(Seq::<char>::empty())
        } else {
            prev.update(prev.len() - 1, prev.last().push(s.last()))
        }
    }
}

/// Relies on str::split with a `' '` pattern: the pieces between single spaces.
#[verifier::external_body]
fn split_spaces(s: &str) -> (r: Vec<String>)
    ensures
        r@.map_values(|w: String| w@) == space_pieces(s@),
{
    s.split(' ').map(String::from).collect()
}

/// The terms of a query: its pieces between single spaces, each lowercased.
pub fn search_terms(search: &str) -> (r: Vec<String>)
    ensures
        r@.map_values(|w: String| w@) == space_pieces(search@).map_values(|w: Seq<char>| lower_of(w)),
{
    let pieces = split_spaces(search);
    let ghost want = space_pieces(search@).map_values(|w: Seq<char>| lower_of(w));
    let mut out: Vec<String> = Vec::new();
    let mut i: usize = 0;
    while i < pieces.len()
        invariant
            i <= pieces@.len(),
            pieces@.map_values(|w: String| w@) == space_pieces(search@),
            want == space_pieces(search@).map_values(|w: Seq<char>| lower_of(w)),
            out@.len() == i,
            forall|k: int| 0 <= k < i ==> (#[trigger] out@[k])@ == want[k],
        decreases pieces.len() - i,
    {
        proof {
            assert(pieces@.map_values(|w: String| w@)[i as int] == pieces@[i as int]@);
        }
        out.push(lowercase(pieces[i].as_str()));
        i = i + 1;
    }
    proof {
        assert(out@.map_values(|w: String| w@) =~= want);
    }
    out
}

/// The terms of a text: its whitespace-separated pieces, lowercased.
pub open spec fn tokens(text: Seq<char>) -> Seq<Seq<char>> {
    whitespace_words(text).map_values(|w: Seq<char>| lower_of(w))
}

/// How many times `w` occurs in `ws`.
pub open spec fn occurrences(ws: Seq<Seq<char>>, w: Seq<char>) -> nat
    decreases ws.len(),
{
    if ws.len() == 0 {
        0
    } else {
        occurrences(ws.drop_last(), w) + if ws.last() == w { 1nat } else { 0nat }
    }
}

/// Whether some entry of a term table has the key `w`.
pub open spec fn has_term(terms: Seq<(String, usize)>, w: Seq<char>) -> bool {
    exists|i: int| 0 <= i < terms.len() && (#[trigger] terms[i]).0@ == w
}

/// The count that a term table gives `w`: that of its first entry with that key, else 0.
pub open spec fn term_count(terms: Seq<(String, usize)>, w: Seq<char>) -> nat
    decreases terms.len(),
{
    if terms.len() == 0 {
        0
    } else if terms[0].0@ == w {
        terms[0].1 as nat
    } else {
        term_count(terms.drop_first(), w)
    }
}

/// The sum of all counts of a term table.
pub open spec fn total_count(terms: Seq<(String, usize)>) -> nat
    decreases terms.len(),
{
    if terms.len() == 0 {
        0
    } else {
        total_count(terms.drop_last()) + terms.last().1 as nat
    }
}

/// No two entries of a term table share a key.
pub open spec fn keys_unique(terms: Seq<(String, usize)>) -> bool {
    forall|i: int, j: int|
        0 <= i < terms.len() && 0 <= j < terms.len() && i != j ==> (#[trigger] terms[i]).0@
            != (#[trigger] terms[j]).0@
}

/// Statistics of one indexed document: how often each term occurs, and how many
/// terms it has in all.
#[derive(Clone, Debug)]
pub struct Document {
    pub word_count: Vec<(String, usize)>,
    pub length: usize,
}

impl Document {
    pub fn new(word_count: Vec<(String, usize)>, length: usize) -> (r: Self)
        ensures
            r.word_count == word_count,
            r.length == length,
    {
        Document { word_count, length }
    }

    /// Keys are unique, every count is positive, and the counts add up to the length.
    pub open spec fn wf(&self) -> bool {
        &&& keys_unique(self.word_count@)
        &&& forall|i: int| 0 <= i < self.word_count@.len() ==> (#[trigger] self.word_count@[i]).1 > 0
        &&& total_count(self.word_count@) == self.length
    }

    /// The number of times the document holds the term `w`.
    pub open spec fn count(&self, w: Seq<char>) -> nat {
        term_count(self.word_count@, w)
    }
}

/// `d` holds the statistics of `text`: each term counted as often as it occurs,
/// and the number of terms as the length.
pub open spec fn tokenized(d: Document, text: Seq<char>) -> bool {
    &&& d.wf()
    &&& d.length == tokens(text).len()
    &&& forall|w: Seq<char>| #[trigger] d.count(w) == occurrences(tokens(text), w)
}

/// Where a key first stands in a term table.
pub fn position_of(terms: &Vec<(String, usize)>, w: &String) -> (r: Option<usize>)
    ensures
        match r {
            Some(j) => j < terms@.len() && terms@[j as int].0@ == w@ && term_count(terms@, w@)
                == terms@[j as int].1,
            None => !has_term(terms@, w@),
        },
{
    let mut j: usize = 0;
    proof {
        assert(terms@.subrange(0, terms@.len() as int) =~= terms@);
    }
    while j < terms.len()
        invariant
            0 <= j <= terms@.len(),
            forall|k: int| 0 <= k < j ==> (#[trigger] terms@[k]).0@ != w@,
            term_count(terms@, w@) == term_count(terms@.subrange(j as int, terms@.len() as int), w@),
        decreases terms.len() - j,
    {
        if terms[j].0 == *w {
            return Some(j);
        }
        proof {
            let rest = terms@.subrange(j as int, terms@.len() as int);
            assert(rest.drop_first() =~= terms@.subrange(j + 1, terms@.len() as int));
        }
        j = j + 1;
    }
    None
}

pub(crate) proof fn lemma_count_absent(s: Seq<(String, usize)>, w: Seq<char>)
    requires
        !has_term(s, w),
    ensures
        term_count(s, w) == 0,
    decreases s.len(),
{
    if s.len() > 0 {
        assert(s[0].0@ != w);
        assert forall|i: int| 0 <= i < s.drop_first().len() implies (#[trigger] s.drop_first()[i]).0@ != w by {
            assert(s.drop_first()[i] == s[i + 1]);
        }
        lemma_count_absent(s.drop_first(), w);
    }
}

proof fn lemma_count_push(s: Seq<(String, usize)>, x: (String, usize), w: Seq<char>)
    requires
        !has_term(s, x.0@),
    ensures
        term_count(s.push(x), w) == if x.0@ == w { x.1 as nat } else { term_count(s, w) },
    decreases s.len(),
{
    if s.len() == 0 {
        assert(s.push(x).drop_first() =~= s);
    } else {
        assert(s.push(x).drop_first() =~= s.drop_first().push(x));
        assert(s[0].0@ != x.0@);
        assert forall|i: int| 0 <= i < s.drop_first().len() implies (#[trigger] s.drop_first()[i]).0@ != x.0@ by {
            assert(s.drop_first()[i] == s[i + 1]);
        }
        lemma_count_push(s.drop_first(), x, w);
    }
}

proof fn lemma_count_update(s: Seq<(String, usize)>, j: int, c: usize, w: Seq<char>)
    requires
        keys_unique(s),
        0 <= j < s.len(),
    ensures
        term_count(s.update(j, (s[j].0, c)), w) == if s[j].0@ == w { c as nat } else { term_count(s, w) },
    decreases s.len(),
{
    let t = s.update(j, (s[j].0, c));
    if j == 0 {
        assert(t.drop_first() =~= s.drop_first());
    } else {
        assert(t[0] == s[0]);
        assert(s[0].0@ != s[j].0@);
        assert(t.drop_first() =~= s.drop_first().update(j - 1, (s[j].0, c)));
        assert(keys_unique(s.drop_first())) by {
            assert forall|a: int, b: int|
                0 <= a < s.drop_first().len() && 0 <= b < s.drop_first().len() && a != b
                implies (#[trigger] s.drop_first()[a]).0@ != (#[trigger] s.drop_first()[b]).0@ by {
                assert(s[a + 1].0@ != s[b + 1].0@);
            }
        }
        lemma_count_update(s.drop_first(), j - 1, c, w);
    }
}

proof fn lemma_total_update(s: Seq<(String, usize)>, j: int, c: usize)
    requires
        0 <= j < s.len(),
    ensures
        total_count(s.update(j, (s[j].0, c))) == total_count(s) - s[j].1 + c,
    decreases s.len(),
{
    let t = s.update(j, (s[j].0, c));
    if j == s.len() - 1 {
        assert(t.drop_last() =~= s.drop_last());
    } else {
        assert(t.drop_last() =~= s.drop_last().update(j, (s[j].0, c)));
        lemma_total_update(s.drop_last(), j, c);
    }
}

proof fn lemma_entry_le_total(s: Seq<(String, usize)>, j: int)
    requires
        0 <= j < s.len(),
    ensures
        s[j].1 <= total_count(s),
    decreases s.len(),
{
    if j < s.len() - 1 {
        lemma_entry_le_total(s.drop_last(), j);
    }
}

/// Tokenizes a text: splits it on runs of white space, lowercases each piece,
/// and counts each distinct term.
pub fn words_time_by_documents(document: &str) -> (r: Document)
    ensures
        tokenized(r, document@),
        total_count(r.word_count@) == r.length,
        (forall|i: int| 0 <= i < document@.len() ==> is_white_space(#[trigger] document@[i])) ==> (
        r.length == 0 && r.word_count@.len() == 0),
{
    let words = split_words(document);
    let ghost toks = tokens(document@);
    proof {
        assert(words@.map_values(|w: String| w@).len() == words@.len());
    }
    let mut word_count: Vec<(String, usize)> = Vec::new();
    let mut counter: usize = 0;
    while counter < words.len()
        invariant
            counter <= words@.len(),
            toks.len() == words@.len(),
            toks == whitespace_words(document@).map_values(|w: Seq<char>| lower_of(w)),
            words@.map_values(|w: String| w@) == whitespace_words(document@),
            keys_unique(word_count@),
            word_count@.len() <= counter,
            forall|i: int| 0 <= i < word_count@.len() ==> (#[trigger] word_count@[i]).1 > 0,
            total_count(word_count@) == counter,
            forall|w: Seq<char>| #[trigger] term_count(word_count@, w) == occurrences(
                toks.subrange(0, counter as int),
                w,
            ),
        decreases words.len() - counter,
    {
        let word = lowercase(words[counter].as_str());
        let ghost before = word_count@;
        proof {
            assert(word@ == toks[counter as int]);
            assert(toks.subrange(0, counter + 1).drop_last() =~= toks.subrange(0, counter as int));
        }
        match position_of(&word_count, &word) {
            Some(j) => {
                proof {
                    lemma_entry_le_total(before, j as int);
                }
                let c = word_count[j].1 + 1;
                let key = word_count[j].0.clone();
                word_count.set(j, (key, c));
                proof {
                    assert(word_count@ == before.update(j as int, (before[j as int].0, c)));
                    lemma_total_update(before, j as int, c);
                    assert forall|w: Seq<char>| #[trigger] term_count(word_count@, w) == occurrences(
                        toks.subrange(0, counter + 1),
                        w,
                    ) by {
                        lemma_count_update(before, j as int, c, w);
                    }
                    assert forall|a: int, b: int|
                        0 <= a < word_count@.len() && 0 <= b < word_count@.len() && a != b
                        implies (#[trigger] word_count@[a]).0@ != (#[trigger] word_count@[b]).0@ by {
                        assert(before[a].0@ != before[b].0@);
                    }
                }
            },
            None => {
                word_count.push((word, 1));
                proof {
                    assert(word_count@ == before.push((word, 1usize)));
                    assert(word_count@.drop_last() =~= before);
                    assert forall|w: Seq<char>| #[trigger] term_count(word_count@, w) == occurrences(
                        toks.subrange(0, counter + 1),
                        w,
                    ) by {
                        lemma_count_push(before, (word, 1usize), w);
                        if word@ == w {
                            lemma_count_absent(before, w);
                        }
                    }
                    assert forall|a: int, b: int|
                        0 <= a < word_count@.len() && 0 <= b < word_count@.len() && a != b
                        implies (#[trigger] word_count@[a]).0@ != (#[trigger] word_count@[b]).0@ by {
                        if a < before.len() && b < before.len() {
                            assert(before[a].0@ != before[b].0@);
                        } else if a < before.len() {
                            assert(before[a] == word_count@[a]);
                        } else {
                            assert(before[b] == word_count@[b]);
                        }
                    }
                }
            },
        }
        counter = counter + 1;
    }
    proof {
        assert(toks.subrange(0, counter as int) =~= toks);
    }
    Document::new(word_count, counter)
}

} // verus!
