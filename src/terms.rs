//! Term counting: how often each lower-cased token occurs in one document.
use vstd::prelude::*;
use crate::text::{split_tokens, tokens, views};

verus! {

pub uninterp spec fn lower_of(s: Seq<char>) -> Seq<char>;

/// Relies on `str::to_lowercase`: the lower-case form of a string depends on
/// its characters alone.
#[verifier::external_body]
pub(crate) fn lowercase(s: &str) -> (r: String)
    ensures
        r@ == lower_of(s@),
{
    s.to_lowercase()
}

/// The terms of a text: its whitespace-separated tokens, lower-cased.
pub open spec fn terms_of(text: Seq<char>) -> Seq<Seq<char>> {
    tokens(text).map_values(|t: Seq<char>| lower_of(t))
}

/// How many times `t` occurs in `ts`.
pub open spec fn occurrences(ts: Seq<Seq<char>>, t: Seq<char>) -> nat
    decreases ts.len(),
{
    if ts.len() == 0 {
        0
    } else {
        occurrences(ts.drop_last(), t) + if ts.last() == t {
            1nat
        } else {
            0nat
        }
    }
}

pub open spec fn sum_counts(cs: Seq<(String, u64)>) -> nat
    decreases cs.len(),
{
    if cs.len() == 0 {
        0
    } else {
        sum_counts(cs.drop_last()) + cs.last().1 as nat
    }
}

/// Per-term counts of one document, and its number of tokens.
pub struct TermCounts {
    pub counts: Vec<(String, u64)>,
    pub total: u64,
}

/// `tc` holds the exact counts of the terms `ts`: one entry per distinct term,
/// each with its number of occurrences, and the number of terms in all.
pub open spec fn counts_exact(tc: TermCounts, ts: Seq<Seq<char>>) -> bool {
    let cs = tc.counts@;
    &&& tc.total == ts.len()
    &&& forall|i: int, j: int| 0 <= i < j < cs.len() ==> (#[trigger] cs[i]).0@ != (#[trigger] cs[j]).0@
    &&& forall|i: int| 0 <= i < cs.len() ==> cs[i].1 == occurrences(ts, cs[i].0@) && cs[i].1 > 0
    &&& forall|k: int| 0 <= k < ts.len() ==> exists|i: int| 0 <= i < cs.len() && (#[trigger] cs[i]).0@ == #[trigger] ts[k]
}

proof fn lemma_occurrences_zero(ts: Seq<Seq<char>>, t: Seq<char>)
    requires
        forall|k: int| 0 <= k < ts.len() ==> ts[k] != t,
    ensures
        occurrences(ts, t) == 0,
    decreases ts.len(),
{
    if ts.len() > 0 {
        lemma_occurrences_zero(ts.drop_last(), t);
    }
}

/// Counts the terms of `text`: every token lower-cased, an exact count per
/// distinct term, and the number of tokens. The counts add up to the total,
/// so the frequencies add up to one.
pub fn counts(text: &str) -> (r: TermCounts)
    ensures
        counts_exact(r, terms_of(text@)),
        sum_counts(r.counts@) == r.total,
{
    let toks = split_tokens(text);
    let ghost ts = terms_of(text@);
    let mut cs: Vec<(String, u64)> = Vec::new();
    let mut i: usize = 0;
    while i < toks.len()
        invariant
            i <= toks@.len(),
            views(toks@) == tokens(text@),
            ts == terms_of(text@),
            ts.len() == toks@.len(),
            forall|a: int, b: int|
                0 <= a < b < cs@.len() ==> (#[trigger] cs@[a]).0@ != (#[trigger] cs@[b]).0@,
            forall|m: int|
                0 <= m < cs@.len() ==> (#[trigger] cs@[m]).1 == occurrences(
                    ts.subrange(0, i as int),
                    cs@[m].0@,
                ) && cs@[m].1 > 0,
            forall|k: int|
                0 <= k < i ==> exists|m: int|
                    0 <= m < cs@.len() && (#[trigger] cs@[m]).0@ == #[trigger] ts[k],
            sum_counts(cs@) == i,
        decreases toks@.len() - i,
    {
        let ghost pre = ts.subrange(0, i as int);
        let ghost post = ts.subrange(0, i + 1);
        assert(post.drop_last() =~= pre);
        assert(views(toks@)[i as int] == toks@[i as int]@);
        let term = lowercase(toks[i].as_str());
        assert(term@ == ts[i as int]);
        let mut j: usize = 0;
        while j < cs.len() && !(cs[j].0 == term)
            invariant
                j <= cs@.len(),
                forall|m: int| 0 <= m < j ==> cs@[m].0@ != term@,
            decreases cs@.len() - j,
        {
            j = j + 1;
        }
        let ghost old_cs = cs@;
        if j < cs.len() {
            let c = cs[j].1;
            let t = cs[j].0.clone();
            assert(c <= i) by {
                lemma_occurrences_bound(pre, old_cs[j as int].0@);
            }
            cs.set(j, (t, c + 1));
            proof {
                lemma_sum_update(old_cs, j as int, (t, (c + 1) as u64));
                assert forall|m: int| 0 <= m < cs@.len() implies (#[trigger] cs@[m]).0@
                    == old_cs[m].0@ by {}
                assert forall|m: int| 0 <= m < cs@.len() implies (#[trigger] cs@[m]).1
                    == occurrences(post, cs@[m].0@) && cs@[m].1 > 0 by {
                    if m != j {
                        assert(cs@[m] == old_cs[m]);
                        if m < j {
                            assert(old_cs[m].0@ != old_cs[j as int].0@);
                        } else {
                            assert(old_cs[j as int].0@ != old_cs[m].0@);
                        }
                    }
                }
                assert forall|k: int| 0 <= k < i + 1 implies exists|m: int|
                    0 <= m < cs@.len() && (#[trigger] cs@[m]).0@ == #[trigger] ts[k] by {
                    if k < i {
                        let m = choose|m: int|
                            0 <= m < old_cs.len() && (#[trigger] old_cs[m]).0@ == ts[k];
                        assert(cs@[m].0@ == ts[k]);
                    } else {
                        assert(cs@[j as int].0@ == ts[k]);
                    }
                }
            }
        } else {
            cs.push((term, 1));
            proof {
                lemma_occurrences_zero(pre, ts[i as int]);
                assert(cs@.drop_last() =~= old_cs);
                assert forall|m: int| 0 <= m < cs@.len() implies (#[trigger] cs@[m]).1
                    == occurrences(post, cs@[m].0@) && cs@[m].1 > 0 by {
                    if m < old_cs.len() {
                        assert(cs@[m] == old_cs[m]);
                    }
                }
                assert forall|k: int| 0 <= k < i + 1 implies exists|m: int|
                    0 <= m < cs@.len() && (#[trigger] cs@[m]).0@ == #[trigger] ts[k] by {
                    if k < i {
                        let m = choose|m: int|
                            0 <= m < old_cs.len() && (#[trigger] old_cs[m]).0@ == ts[k];
                        assert(cs@[m] == old_cs[m]);
                    } else {
                        assert(cs@[old_cs.len() as int].0@ == ts[k]);
                    }
                }
            }
        }
        i = i + 1;
    }
    assert(ts.subrange(0, toks@.len() as int) =~= ts);
    let r = TermCounts { counts: cs, total: i as u64 };
    assert forall|k: int| 0 <= k < ts.len() implies exists|m: int|
        0 <= m < r.counts@.len() && (#[trigger] r.counts@[m]).0@ == #[trigger] ts[k] by {
        assert(k < i);
        let m = choose|m: int| 0 <= m < cs@.len() && (#[trigger] cs@[m]).0@ == ts[k];
        assert(r.counts@[m].0@ == ts[k]);
    }
    r
}

proof fn lemma_occurrences_bound(ts: Seq<Seq<char>>, t: Seq<char>)
    ensures
        occurrences(ts, t) <= ts.len(),
    decreases ts.len(),
{
    if ts.len() > 0 {
        lemma_occurrences_bound(ts.drop_last(), t);
    }
}

proof fn lemma_sum_update(cs: Seq<(String, u64)>, j: int, e: (String, u64))
    requires
        0 <= j < cs.len(),
    ensures
        sum_counts(cs.update(j, e)) == sum_counts(cs) - cs[j].1 + e.1,
    decreases cs.len(),
{
    if j < cs.len() - 1 {
        assert(cs.update(j, e).drop_last() =~= cs.drop_last().update(j, e));
        lemma_sum_update(cs.drop_last(), j, e);
    } else {
        assert(cs.update(j, e).drop_last() =~= cs.drop_last());
    }
}

/// One term of one document. Its frequency is the rational `count / total`:
/// occurrences of the term over the number of tokens in the document.
#[derive(Debug)]
pub struct TermFrequency {
    pub url: String,
    pub term: String,
    pub count: u64,
    pub total: u64,
}

impl TermFrequency {
    pub fn new(url: &str, term: &str, count: u64, total: u64) -> (r: TermFrequency)
        ensures
            r.url@ == url@,
            r.term@ == term@,
            r.count == count,
            r.total == total,
    {
        TermFrequency { url: url.to_owned(), term: term.to_owned(), count, total }
    }
}

pub open spec fn sum_term_counts(fs: Seq<TermFrequency>) -> nat
    decreases fs.len(),
{
    if fs.len() == 0 {
        0
    } else {
        sum_term_counts(fs.drop_last()) + fs.last().count as nat
    }
}

/// The frequency rows of one document at `url`, one per entry of `term_counts`.
pub fn frequencies(term_counts: &TermCounts, url: &str) -> (r: Vec<TermFrequency>)
    ensures
        r@.len() == term_counts.counts@.len(),
        forall|i: int|
            0 <= i < r@.len() ==> {
                &&& (#[trigger] r@[i]).url@ == url@
                &&& r@[i].term@ == term_counts.counts@[i].0@
                &&& r@[i].count == term_counts.counts@[i].1
                &&& r@[i].total == term_counts.total
            },
        sum_term_counts(r@) == sum_counts(term_counts.counts@),
{
    let mut r: Vec<TermFrequency> = Vec::new();
    let mut i: usize = 0;
    while i < term_counts.counts.len()
        invariant
            i <= term_counts.counts@.len(),
            r@.len() == i,
            forall|k: int|
                0 <= k < i ==> {
                    &&& (#[trigger] r@[k]).url@ == url@
                    &&& r@[k].term@ == term_counts.counts@[k].0@
                    &&& r@[k].count == term_counts.counts@[k].1
                    &&& r@[k].total == term_counts.total
                },
            sum_term_counts(r@) == sum_counts(term_counts.counts@.subrange(0, i as int)),
        decreases term_counts.counts@.len() - i,
    {
        let entry = &term_counts.counts[i];
        let row = TermFrequency::new(url, entry.0.as_str(), entry.1, term_counts.total);
        let ghost before = r@;
        r.push(row);
        assert(r@.drop_last() =~= before);
        assert(term_counts.counts@.subrange(0, i + 1).drop_last() =~= term_counts.counts@.subrange(
            0,
            i as int,
        ));
        i = i + 1;
    }
    assert(term_counts.counts@.subrange(0, i as int) =~= term_counts.counts@);
    r
}

/// `fs` are the frequency rows of the document at `url` whose terms are `ts`:
/// one row per distinct term, with its exact count and the number of terms.
pub open spec fn frequencies_exact(fs: Seq<TermFrequency>, url: Seq<char>, ts: Seq<Seq<char>>) -> bool {
    &&& forall|i: int, j: int|
        0 <= i < j < fs.len() ==> (#[trigger] fs[i]).term@ != (#[trigger] fs[j]).term@
    &&& forall|i: int|
        0 <= i < fs.len() ==> {
            &&& (#[trigger] fs[i]).url@ == url
            &&& fs[i].count == occurrences(ts, fs[i].term@)
            &&& fs[i].count > 0
            &&& fs[i].total == ts.len()
        }
    &&& forall|k: int|
        0 <= k < ts.len() ==> exists|i: int| 0 <= i < fs.len() && (#[trigger] fs[i]).term@ == #[trigger] ts[k]
    &&& sum_term_counts(fs) == ts.len()
}

/// The frequency rows of the document at `url` whose text is `text`: one row
/// per distinct lower-cased token, with its exact count and the document's
/// token total. The counts add up to the total, so the frequencies add up to
/// one; an empty text gives no rows.
pub fn analyze_terms(text: &str, url: &str) -> (r: Vec<TermFrequency>)
    ensures
        frequencies_exact(r@, url@, terms_of(text@)),
{
    let tc = counts(text);
    let r = frequencies(&tc, url);
    assert forall|i: int, j: int| 0 <= i < j < r@.len() implies (#[trigger] r@[i]).term@
        != (#[trigger] r@[j]).term@ by {
        assert(tc.counts@[i].0@ != tc.counts@[j].0@);
    }
    assert forall|i: int| 0 <= i < r@.len() implies {
        &&& (#[trigger] r@[i]).url@ == url@
        &&& r@[i].count == occurrences(terms_of(text@), r@[i].term@)
        &&& r@[i].count > 0
        &&& r@[i].total == terms_of(text@).len()
    } by {
        assert(tc.counts@[i].1 == occurrences(terms_of(text@), tc.counts@[i].0@));
    }
    assert forall|k: int| 0 <= k < terms_of(text@).len() implies exists|i: int|
        0 <= i < r@.len() && (#[trigger] r@[i]).term@ == #[trigger] terms_of(text@)[k] by {
        let i = choose|i: int|
            0 <= i < tc.counts@.len() && (#[trigger] tc.counts@[i]).0@ == terms_of(text@)[k];
        assert(r@[i].term@ == terms_of(text@)[k]);
    }
    r
}

} // verus!
