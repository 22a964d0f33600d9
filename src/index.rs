//! TF-IDF indexing over the whole corpus of term frequencies.
//!
//! For each (document, term) row the indexer gathers the exact quantities of
//! the score `frequency * -log10(documents_with_term / documents)`: the
//! frequency as `count / total`, the number of distinct documents that hold
//! the term, and the number of distinct documents in the corpus.
use vstd::prelude::*;
use crate::terms::TermFrequency;

verus! {

/// The inputs of one row's TF-IDF score.
#[derive(Debug)]
pub struct IndexEntry {
    pub url: String,
    pub term: String,
    pub count: u64,
    pub total: u64,
    pub documents_with_term: u64,
    pub documents: u64,
}

/// A term-frequency row as values: url, term, count, total.
pub type RowModel = (Seq<char>, Seq<char>, u64, u64);

pub open spec fn row_view(t: TermFrequency) -> RowModel {
    (t.url@, t.term@, t.count, t.total)
}

pub open spec fn rows_view(rows: Seq<TermFrequency>) -> Seq<RowModel> {
    rows.map_values(|t: TermFrequency| row_view(t))
}

/// The urls of the rows, in order; only of the rows for `term` when one is given.
pub open spec fn urls_of(rows: Seq<RowModel>, term: Option<Seq<char>>) -> Seq<Seq<char>>
    decreases rows.len(),
{
    if rows.len() == 0 {
        Seq::empty()
    } else {
        let earlier = urls_of(rows.drop_last(), term);
        if term is None || term == Some(rows.last().1) {
            earlier.push(rows.last().0)
        } else {
            earlier
        }
    }
}

/// The distinct elements of `s`, in order of first appearance.
pub open spec fn distinct(s: Seq<Seq<char>>) -> Seq<Seq<char>>
    decreases s.len(),
{
    if s.len() == 0 {
        Seq::empty()
    } else {
        let earlier = distinct(s.drop_last());
        if earlier.contains(s.last()) {
            earlier
        } else {
            earlier.push(s.last())
        }
    }
}

/// Number of distinct documents in the corpus.
pub open spec fn document_count(rows: Seq<RowModel>) -> nat {
    distinct(urls_of(rows, None)).len()
}

/// Number of distinct documents that hold `term`.
pub open spec fn documents_with(rows: Seq<RowModel>, term: Seq<char>) -> nat {
    distinct(urls_of(rows, Some(term))).len()
}

pub type EntryModel = (Seq<char>, Seq<char>, u64, u64, nat, nat);

pub open spec fn entry_view(e: IndexEntry) -> EntryModel {
    (e.url@, e.term@, e.count, e.total, e.documents_with_term as nat, e.documents as nat)
}

/// The index of a corpus: one entry per row, in the rows' order.
pub open spec fn index_of(rows: Seq<RowModel>) -> Seq<EntryModel> {
    rows.map_values(
        |r: RowModel| (r.0, r.1, r.2, r.3, documents_with(rows, r.1), document_count(rows)),
    )
}

fn contains_text(seen: &Vec<String>, s: &String) -> (r: bool)
    ensures
        r == seen@.map_values(|t: String| t@).contains(s@),
{
    let ghost v = seen@.map_values(|t: String| t@);
    let mut i: usize = 0;
    while i < seen.len()
        invariant
            i <= seen@.len(),
            v == seen@.map_values(|t: String| t@),
            forall|m: int| 0 <= m < i ==> v[m] != s@,
        decreases seen@.len() - i,
    {
        if seen[i] == *s {
            assert(v[i as int] == s@);
            return true;
        }
        i = i + 1;
    }
    false
}

/// Number of distinct urls among the rows, or among the rows for `term`.
fn distinct_urls(rows: &Vec<TermFrequency>, term: Option<&String>) -> (r: u64)
    ensures
        r == distinct(
            urls_of(
                rows_view(rows@),
                match term {
                    Some(t) => Some(t@),
                    None => None,
                },
            ),
        ).len(),
{
    let ghost t = match term {
        Some(t) => Some(t@),
        None => None,
    };
    let ghost rv = rows_view(rows@);
    let mut seen: Vec<String> = Vec::new();
    let mut i: usize = 0;
    while i < rows.len()
        invariant
            i <= rows@.len(),
            rv == rows_view(rows@),
            t == match term {
                Some(w) => Some(w@),
                None => None,
            },
            seen@.map_values(|s: String| s@) == distinct(urls_of(rv.subrange(0, i as int), t)),
            seen@.len() <= i,
        decreases rows@.len() - i,
    {
        assert(rv.subrange(0, i + 1).drop_last() =~= rv.subrange(0, i as int));
        assert(rv[i as int] == row_view(rows@[i as int]));
        let row = &rows[i];
        let wanted = match term {
            Some(wanted_term) => {
                let same = row.term == *wanted_term;
                assert(same == (row.term@ == wanted_term@));
                same
            },
            None => true,
        };
        let ghost earlier = urls_of(rv.subrange(0, i as int), t);
        let ghost later = urls_of(rv.subrange(0, i + 1), t);
        assert(rv.subrange(0, i + 1).last() == rv[i as int]);
        assert(wanted == (t is None || t == Some(rv[i as int].1)));
        if wanted {
            assert(later == earlier.push(row.url@));
            assert(later.drop_last() =~= earlier);
        } else {
            assert(later == earlier);
        }
        if wanted {
            if !contains_text(&seen, &row.url) {
                let ghost before = seen@;
                seen.push(row.url.clone());
                assert(seen@.map_values(|s: String| s@) =~= before.map_values(|s: String| s@).push(
                    row.url@,
                ));
            }
        }
        i = i + 1;
    }
    assert(rv.subrange(0, rows@.len() as int) =~= rv);
    seen.len() as u64
}

/// The TF-IDF inputs of every row of the corpus `rows`, counted over the
/// whole corpus as it stands. The result is a function of the rows alone.
pub fn index(rows: &Vec<TermFrequency>) -> (r: Vec<IndexEntry>)
    ensures
        r@.map_values(|e: IndexEntry| entry_view(e)) == index_of(rows_view(rows@)),
{
    let documents = distinct_urls(rows, None);
    let ghost rv = rows_view(rows@);
    let mut r: Vec<IndexEntry> = Vec::new();
    let mut i: usize = 0;
    while i < rows.len()
        invariant
            i <= rows@.len(),
            rv == rows_view(rows@),
            documents == document_count(rv),
            r@.map_values(|e: IndexEntry| entry_view(e)) == index_of(rv).subrange(0, i as int),
        decreases rows@.len() - i,
    {
        let row = &rows[i];
        let with_term = distinct_urls(rows, Some(&row.term));
        let entry = IndexEntry {
            url: row.url.clone(),
            term: row.term.clone(),
            count: row.count,
            total: row.total,
            documents_with_term: with_term,
            documents,
        };
        let ghost before = r@;
        assert(rv[i as int] == row_view(rows@[i as int]));
        assert(entry_view(entry) == index_of(rv)[i as int]);
        r.push(entry);
        assert(r@.map_values(|e: IndexEntry| entry_view(e)) =~= before.map_values(
            |e: IndexEntry| entry_view(e),
        ).push(index_of(rv)[i as int]));
        assert(r@.map_values(|e: IndexEntry| entry_view(e)) =~= index_of(rv).subrange(
            0,
            i + 1,
        ));
        i = i + 1;
    }
    assert(index_of(rv).subrange(0, rows@.len() as int) =~= index_of(rv));
    r
}

/// Indexing the same corpus twice gives the same entries, and so the same
/// scores bit for bit.
pub proof fn lemma_index_deterministic(a: Seq<TermFrequency>, b: Seq<TermFrequency>)
    requires
        rows_view(a) == rows_view(b),
    ensures
        index_of(rows_view(a)) == index_of(rows_view(b)),
{
}

} // verus!
