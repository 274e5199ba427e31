//! The indexed collection, and the merge of a directory scan into it.
use vstd::prelude::*;
use crate::document::{Document, tokenized, words_time_by_documents};

verus! {

/// One entry of a scanned directory: a regular file with its identifier and
/// its text, or anything else. The text of a file whose identifier is already
/// indexed is never used, so such a file need not be read.
#[derive(Clone, Debug)]
pub enum Entry {
    File { path: String, text: String },
    Other,
}

/// The indexed collection: each document's identifier with its statistics, and
/// the number of entries that the most recent scan visited.
#[derive(Clone, Debug)]
pub struct Global {
    pub documents: Vec<(String, Document)>,
    pub entry_count: usize,
}

/// The identifiers of a list of documents, in order.
pub open spec fn keys(docs: Seq<(String, Document)>) -> Seq<Seq<char>> {
    docs.map_values(|d: (String, Document)| d.0@)
}

/// The files of a scan that are to be indexed, as (identifier, text): those
/// whose identifier is neither in `known` nor taken by an earlier file of the scan.
pub open spec fn new_files(known: Seq<Seq<char>>, entries: Seq<Entry>) -> Seq<(Seq<char>, Seq<char>)>
    decreases entries.len(),
{
    if entries.len() == 0 {
        seq![]
    } else {
        let prev = new_files(known, entries.drop_last());
        match entries.last() {
            Entry::File { path, text } => {
                if known.contains(path@) || prev.map_values(|f: (Seq<char>, Seq<char>)| f.0).contains(
                    path@,
                ) {
                    prev
                } else {
                    prev.push((path@, text@))
                }
            },
            Entry::Other => prev,
        }
    }
}

/// `after` is `before` with the scan `entries` merged in: every known document
/// stays as it was, each new file is appended with its statistics, and the entry
/// count becomes the number of entries visited.
pub open spec fn scanned(before: Global, entries: Seq<Entry>, after: Global) -> bool {
    let old_docs = before.documents@;
    let added = new_files(keys(old_docs), entries);
    &&& after.documents@.len() == old_docs.len() + added.len()
    &&& after.documents@.subrange(0, old_docs.len() as int) == old_docs
    &&& forall|i: int|
        0 <= i < added.len() ==> {
            let d = #[trigger] after.documents@[old_docs.len() + i];
            d.0@ == added[i].0 && tokenized(d.1, added[i].1)
        }
    &&& after.entry_count == entries.len()
}

/// `entry` is not a regular file, or its identifier is among `known`.
pub open spec fn known_entry(known: Seq<Seq<char>>, entry: Entry) -> bool {
    match entry {
        Entry::File { path, .. } => known.contains(path@),
        Entry::Other => true,
    }
}

proof fn lemma_new_files_cover(known: Seq<Seq<char>>, entries: Seq<Entry>)
    ensures
        forall|k: int|
            0 <= k < entries.len() ==> known_entry(
                known + new_files(known, entries).map_values(|f: (Seq<char>, Seq<char>)| f.0),
                #[trigger] entries[k],
            ),
    decreases entries.len(),
{
    if entries.len() > 0 {
        let prefix = entries.drop_last();
        lemma_new_files_cover(known, prefix);
        let prev = new_files(known, prefix);
        let all_prev = known + prev.map_values(|f: (Seq<char>, Seq<char>)| f.0);
        let all = known + new_files(known, entries).map_values(|f: (Seq<char>, Seq<char>)| f.0);
        assert forall|p: Seq<char>| all_prev.contains(p) implies all.contains(p) by {
            let k = choose|k: int| 0 <= k < all_prev.len() && all_prev[k] == p;
            assert(all[k] == p);
        }
        assert forall|k: int| 0 <= k < entries.len() implies known_entry(all, #[trigger] entries[k]) by {
            if k < prefix.len() {
                assert(entries[k] == prefix[k]);
                assert(known_entry(all_prev, prefix[k]));
            } else {
                match entries[k] {
                    Entry::File { path, text } => {
                        let fsts = prev.map_values(|f: (Seq<char>, Seq<char>)| f.0);
                        if known.contains(path@) {
                            let j = choose|j: int| 0 <= j < known.len() && known[j] == path@;
                            assert(all[j] == path@);
                        } else if fsts.contains(path@) {
                            assert(all_prev.contains(path@)) by {
                                let j = choose|j: int| 0 <= j < fsts.len() && fsts[j] == path@;
                                assert(all_prev[known.len() + j] == path@);
                            }
                        } else {
                            assert(all[all.len() - 1] == path@);
                        }
                    },
                    Entry::Other => {},
                }
            }
        }
    }
}

proof fn lemma_new_files_none(known: Seq<Seq<char>>, entries: Seq<Entry>)
    requires
        forall|k: int| 0 <= k < entries.len() ==> known_entry(known, #[trigger] entries[k]),
    ensures
        new_files(known, entries).len() == 0,
    decreases entries.len(),
{
    if entries.len() > 0 {
        let prefix = entries.drop_last();
        assert forall|k: int| 0 <= k < prefix.len() implies known_entry(known, #[trigger] prefix[k]) by {
            assert(prefix[k] == entries[k]);
        }
        lemma_new_files_none(known, prefix);
        assert(known_entry(known, entries[entries.len() - 1]));
    }
}

/// Scanning the same directory listing a second time adds no document and
/// leaves every indexed document exactly as it was; only the entry count is
/// set again, to the number of entries visited.
pub proof fn lemma_rescan_keeps_documents(c0: Global, entries: Seq<Entry>, c1: Global, c2: Global)
    requires
        scanned(c0, entries, c1),
        scanned(c1, entries, c2),
    ensures
        c2.documents@ == c1.documents@,
        c2.entry_count == entries.len(),
{
    let k0 = keys(c0.documents@);
    let added = new_files(k0, entries);
    let k1 = keys(c1.documents@);
    lemma_new_files_cover(k0, entries);
    let all = k0 + added.map_values(|f: (Seq<char>, Seq<char>)| f.0);
    assert forall|p: Seq<char>| all.contains(p) implies k1.contains(p) by {
        let j = choose|j: int| 0 <= j < all.len() && all[j] == p;
        if j < k0.len() {
            assert(c1.documents@.subrange(0, c0.documents@.len() as int)[j] == c0.documents@[j]);
            assert(k1[j] == p);
        } else {
            let i = j - k0.len();
            assert(c1.documents@[c0.documents@.len() + i].0@ == added[i].0);
            assert(k1[c0.documents@.len() + i] == p);
        }
    }
    assert forall|k: int| 0 <= k < entries.len() implies known_entry(k1, #[trigger] entries[k]) by {
        assert(known_entry(all, entries[k]));
    }
    lemma_new_files_none(k1, entries);
    assert(c2.documents@ =~= c2.documents@.subrange(0, c1.documents@.len() as int));
}

impl Global {
    pub fn new(documents: Vec<(String, Document)>, entry_count: usize) -> (r: Self)
        ensures
            r.documents == documents,
            r.entry_count == entry_count,
    {
        Global { documents, entry_count }
    }

    /// No two documents share an identifier.
    pub open spec fn wf(&self) -> bool {
        keys(self.documents@).no_duplicates()
    }

    /// Whether a document with identifier `path` is indexed.
    pub fn contains(&self, path: &String) -> (r: bool)
        ensures
            r == keys(self.documents@).contains(path@),
    {
        let mut i: usize = 0;
        while i < self.documents.len()
            invariant
                i <= self.documents@.len(),
                forall|k: int| 0 <= k < i ==> (#[trigger] self.documents@[k]).0@ != path@,
            decreases self.documents.len() - i,
        {
            if self.documents[i].0 == *path {
                proof {
                    assert(keys(self.documents@)[i as int] == path@);
                }
                return true;
            }
            i = i + 1;
        }
        proof {
            if keys(self.documents@).contains(path@) {
                let k = choose|k: int| 0 <= k < keys(self.documents@).len() && keys(self.documents@)[k] == path@;
                assert(self.documents@[k].0@ == path@);
            }
        }
        false
    }
}

/// Merges a directory scan into the collection. Without a scan the collection
/// is left as it is. Otherwise each regular file whose identifier is not yet
/// indexed is tokenized and added, files already indexed are never indexed
/// again, and the entry count becomes the number of entries visited, files or not.
pub fn scan_all_documents(dir: Option<Vec<Entry>>, scanned_documents: &mut Global)
    ensures
        match dir {
            None => *final(scanned_documents) == *old(scanned_documents),
            Some(entries) => scanned(*old(scanned_documents), entries@, *final(scanned_documents)),
        },
        old(scanned_documents).wf() ==> final(scanned_documents).wf(),
{
    let entries = match dir {
        None => {
            return;
        },
        Some(entries) => entries,
    };
    let ghost before = scanned_documents.documents@;
    let mut counter: usize = 0;
    while counter < entries.len()
        invariant
            counter <= entries@.len(),
            ({
                let added = new_files(keys(before), entries@.subrange(0, counter as int));
                &&& scanned_documents.documents@.len() == before.len() + added.len()
                &&& scanned_documents.documents@.subrange(0, before.len() as int) == before
                &&& keys(scanned_documents.documents@) == keys(before) + added.map_values(
                    |f: (Seq<char>, Seq<char>)| f.0,
                )
                &&& forall|i: int|
                    0 <= i < added.len() ==> {
                        let d = #[trigger] scanned_documents.documents@[before.len() + i];
                        d.0@ == added[i].0 && tokenized(d.1, added[i].1)
                    }
            }),
            keys(before).no_duplicates() ==> keys(scanned_documents.documents@).no_duplicates(),
        decreases entries.len() - counter,
    {
        let ghost prefix = entries@.subrange(0, counter as int);
        let ghost added = new_files(keys(before), prefix);
        let ghost cur = scanned_documents.documents@;
        proof {
            assert(entries@.subrange(0, counter + 1).drop_last() =~= prefix);
            assert(entries@.subrange(0, counter + 1).last() == entries@[counter as int]);
        }
        match &entries[counter] {
            Entry::File { path, text } => {
                let known = scanned_documents.contains(path);
                proof {
                    let fsts = added.map_values(|f: (Seq<char>, Seq<char>)| f.0);
                    if keys(before).contains(path@) {
                        let k = choose|k: int| 0 <= k < keys(before).len() && keys(before)[k] == path@;
                        assert(keys(cur)[k] == path@);
                    }
                    if fsts.contains(path@) {
                        let k = choose|k: int| 0 <= k < fsts.len() && fsts[k] == path@;
                        assert(keys(cur)[keys(before).len() + k] == path@);
                    }
                    if keys(cur).contains(path@) {
                        let k = choose|k: int| 0 <= k < keys(cur).len() && keys(cur)[k] == path@;
                        if k < keys(before).len() {
                            assert(keys(before)[k] == path@);
                        } else {
                            assert(fsts[k - keys(before).len()] == path@);
                        }
                    }
                }
                if !known {
                    let doc = words_time_by_documents(text.as_str());
                    let key = path.clone();
                    scanned_documents.documents.push((key, doc));
                    proof {
                        let na = new_files(keys(before), entries@.subrange(0, counter + 1));
                        assert(na == added.push((path@, text@)));
                        assert(scanned_documents.documents@.subrange(0, before.len() as int)
                            =~= cur.subrange(0, before.len() as int));
                        assert(scanned_documents.documents@ == cur.push((key, doc)));
                        assert(keys(scanned_documents.documents@) =~= keys(cur).push(path@));
                        if keys(before).no_duplicates() {
                            assert forall|a: int, b: int|
                                0 <= a < keys(cur).push(path@).len() && 0 <= b < keys(cur).push(path@).len() && a != b
                                implies keys(cur).push(path@)[a] != keys(cur).push(path@)[b] by {
                                if a < keys(cur).len() && b < keys(cur).len() {
                                } else if a < keys(cur).len() {
                                    assert(keys(cur)[a] == keys(cur).push(path@)[a]);
                                } else {
                                    assert(keys(cur)[b] == keys(cur).push(path@)[b]);
                                }
                            }
                        }
                        assert(na.map_values(|f: (Seq<char>, Seq<char>)| f.0) =~= added.map_values(
                            |f: (Seq<char>, Seq<char>)| f.0,
                        ).push(path@));
                        assert(keys(scanned_documents.documents@) =~= keys(before) + na.map_values(
                            |f: (Seq<char>, Seq<char>)| f.0,
                        ));
                        assert forall|i: int| 0 <= i < na.len() implies {
                            let d = #[trigger] scanned_documents.documents@[before.len() + i];
                            d.0@ == na[i].0 && tokenized(d.1, na[i].1)
                        } by {
                            if i < added.len() {
                                assert(scanned_documents.documents@[before.len() + i] == cur[before.len() + i]);
                            }
                        }
                    }
                }
            },
            Entry::Other => {},
        }
        counter = counter + 1;
    }
    proof {
        assert(entries@.subrange(0, counter as int) =~= entries@);
    }
    scanned_documents.entry_count = counter;
}

} // verus!
