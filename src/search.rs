//! Ranked search: merging each query term's best-scoring documents.
//!
//! Scores are fixed-point: `SCORE_SCALE` units make a score of one.
use vstd::prelude::*;
use crate::terms::{lower_of, lowercase};

verus! {

broadcast use vstd::seq_lib::group_to_multiset_ensures;

/// Score units per unit of TF-IDF score.
pub const SCORE_SCALE: u64 = 1_000_000_000;

/// How many of the best documents of each query term take part in a search.
pub const TOP_K: u64 = 100;

/// One document in one term's list of best documents.
#[derive(Debug)]
pub struct Scored {
    pub url: String,
    pub score: u64,
}

/// One document of a search result, with its aggregate score.
#[derive(Debug, PartialEq, Eq)]
pub struct Document {
    pub url: String,
    pub score: u64,
}

impl Document {
    pub fn new(url: &str, score: u64) -> (r: Document)
        ensures
            r.url@ == url@,
            r.score == score,
    {
        Document { url: url.to_owned(), score }
    }
}

/// A (url, score) pair as values.
pub type Hit = (Seq<char>, nat);

pub open spec fn scored_view(s: Scored) -> Hit {
    (s.url@, s.score as nat)
}

pub open spec fn document_view(d: Document) -> Hit {
    (d.url@, d.score as nat)
}

pub open spec fn lists_view(per_term: Seq<Vec<Scored>>) -> Seq<Seq<Hit>> {
    per_term.map_values(|l: Vec<Scored>| l@.map_values(|s: Scored| scored_view(s)))
}

/// What a score of the term at `position` adds: the first term counts in
/// full, the term at position `i >= 1` counts `1 / i` of its score.
pub open spec fn weight(score: nat, position: int) -> nat {
    if position == 0 {
        score
    } else {
        score / (position as nat)
    }
}

pub open spec fn weighted(list: Seq<Hit>, position: int) -> Seq<Hit> {
    list.map_values(|h: Hit| (h.0, weight(h.1, position)))
}

/// Every contribution of every term, in query order.
pub open spec fn contributions(lists: Seq<Seq<Hit>>) -> Seq<Hit>
    decreases lists.len(),
{
    if lists.len() == 0 {
        Seq::empty()
    } else {
        contributions(lists.drop_last()) + weighted(lists.last(), lists.len() - 1)
    }
}

/// Index of the entry for `url` in `acc`, if there is one.
pub open spec fn position_of(acc: Seq<Hit>, url: Seq<char>) -> Option<int>
    decreases acc.len(),
{
    if acc.len() == 0 {
        None
    } else {
        match position_of(acc.drop_last(), url) {
            Some(k) => Some(k),
            None => if acc.last().0 == url {
                Some(acc.len() - 1)
            } else {
                None
            },
        }
    }
}

/// Per-document sums of the contributions, in order of each document's first
/// contribution.
pub open spec fn accumulate(cs: Seq<Hit>) -> Seq<Hit>
    decreases cs.len(),
{
    if cs.len() == 0 {
        Seq::empty()
    } else {
        let acc = accumulate(cs.drop_last());
        let c = cs.last();
        match position_of(acc, c.0) {
            Some(k) => acc.update(k, (c.0, acc[k].1 + c.1)),
            None => acc.push(c),
        }
    }
}

/// Inserts `x` after every entry of `s` whose score is at least its own.
pub open spec fn insert_desc(s: Seq<Hit>, x: Hit) -> Seq<Hit>
    decreases s.len(),
{
    if s.len() == 0 {
        seq![x]
    } else if s.last().1 >= x.1 {
        s.push(x)
    } else {
        insert_desc(s.drop_last(), x).push(s.last())
    }
}

/// `s` in descending order of score; entries with equal scores keep their order.
pub open spec fn sort_desc(s: Seq<Hit>) -> Seq<Hit>
    decreases s.len(),
{
    if s.len() == 0 {
        Seq::empty()
    } else {
        insert_desc(sort_desc(s.drop_last()), s.last())
    }
}

/// The ranked result of a search whose terms' best documents are `lists`.
pub open spec fn ranked(lists: Seq<Seq<Hit>>) -> Seq<Hit> {
    sort_desc(accumulate(contributions(lists)))
}

pub open spec fn sum_scores(cs: Seq<Hit>) -> nat
    decreases cs.len(),
{
    if cs.len() == 0 {
        0
    } else {
        sum_scores(cs.drop_last()) + cs.last().1
    }
}

pub open spec fn sorted_desc(s: Seq<Hit>) -> bool {
    forall|i: int, j: int| 0 <= i < j < s.len() ==> (#[trigger] s[i]).1 >= (#[trigger] s[j]).1
}

proof fn lemma_insert_desc(s: Seq<Hit>, x: Hit)
    requires
        sorted_desc(s),
    ensures
        sorted_desc(insert_desc(s, x)),
        insert_desc(s, x).to_multiset() == s.to_multiset().insert(x),
        forall|k: int|
            0 <= k < insert_desc(s, x).len() ==> #[trigger] insert_desc(s, x)[k] == x
                || s.contains(insert_desc(s, x)[k]),
    decreases s.len(),
{
    let r = insert_desc(s, x);
    if s.len() == 0 {
        assert(r.to_multiset() =~= s.to_multiset().insert(x)) by {
            assert(r == Seq::<Hit>::empty().push(x));
        }
    } else if s.last().1 >= x.1 {
        assert forall|i: int, j: int| 0 <= i < j < r.len() implies (#[trigger] r[i]).1 >= (
        #[trigger] r[j]).1 by {
            if j == s.len() {
                assert(s[i].1 >= s[s.len() - 1].1);
            }
        }
        assert forall|k: int| 0 <= k < r.len() implies #[trigger] r[k] == x || s.contains(r[k]) by {
            if k < s.len() {
                assert(r[k] == s[k]);
            }
        }
    } else {
        let p = s.drop_last();
        let t = insert_desc(p, x);
        assert(sorted_desc(p)) by {
            assert forall|i: int, j: int| 0 <= i < j < p.len() implies (#[trigger] p[i]).1 >= (
            #[trigger] p[j]).1 by {
                assert(p[i] == s[i] && p[j] == s[j]);
            }
        }
        lemma_insert_desc(p, x);
        assert forall|k: int| 0 <= k < t.len() implies (#[trigger] t[k]).1 >= s.last().1 by {
            if t[k] != x {
                assert(p.contains(t[k]));
                let m = choose|m: int| 0 <= m < p.len() && p[m] == t[k];
                assert(s[m] == p[m]);
            }
        }
        assert forall|i: int, j: int| 0 <= i < j < r.len() implies (#[trigger] r[i]).1 >= (
        #[trigger] r[j]).1 by {
            if j == t.len() {
                assert(r[i] == t[i]);
            } else {
                assert(r[i] == t[i] && r[j] == t[j]);
            }
        }
        assert forall|k: int| 0 <= k < r.len() implies #[trigger] r[k] == x || s.contains(r[k]) by {
            if k < t.len() {
                assert(r[k] == t[k]);
                if t[k] != x {
                    let m = choose|m: int| 0 <= m < p.len() && p[m] == t[k];
                    assert(s[m] == p[m]);
                }
            } else {
                assert(r[k] == s[s.len() - 1]);
            }
        }
        assert(s =~= p.push(s.last()));
        assert(r.to_multiset() =~= s.to_multiset().insert(x));
    }
}

proof fn lemma_sort_desc(s: Seq<Hit>)
    ensures
        sorted_desc(sort_desc(s)),
        sort_desc(s).to_multiset() == s.to_multiset(),
    decreases s.len(),
{
    if s.len() == 0 {
        assert(sort_desc(s).to_multiset() =~= s.to_multiset());
    } else {
        lemma_sort_desc(s.drop_last());
        lemma_insert_desc(sort_desc(s.drop_last()), s.last());
        assert(s =~= s.drop_last().push(s.last()));
    }
}

/// A search result is in descending order of score and holds exactly the
/// per-document aggregates, each once.
pub proof fn lemma_ranked_is_sorted_aggregate(lists: Seq<Seq<Hit>>)
    ensures
        sorted_desc(ranked(lists)),
        ranked(lists).to_multiset() == accumulate(contributions(lists)).to_multiset(),
{
    lemma_sort_desc(accumulate(contributions(lists)));
}

proof fn lemma_sum_prefix(c: Seq<Hit>, n: int)
    requires
        0 <= n <= c.len(),
    ensures
        sum_scores(c.subrange(0, n)) <= sum_scores(c),
    decreases c.len() - n,
{
    if n < c.len() {
        lemma_sum_prefix(c, n + 1);
        assert(c.subrange(0, n + 1).drop_last() =~= c.subrange(0, n));
    } else {
        assert(c.subrange(0, n) =~= c);
    }
}

proof fn lemma_position_of(acc: Seq<Hit>, url: Seq<char>, k: int)
    requires
        0 <= k <= acc.len(),
        forall|m: int| 0 <= m < k ==> (#[trigger] acc[m]).0 != url,
        k < acc.len() ==> acc[k].0 == url,
    ensures
        position_of(acc, url) == if k < acc.len() {
            Some(k)
        } else {
            None
        },
    decreases acc.len(),
{
    if acc.len() > 0 {
        let p = acc.drop_last();
        if k < acc.len() - 1 {
            lemma_position_of(p, url, k);
        } else {
            assert forall|m: int| 0 <= m < p.len() implies (#[trigger] p[m]).0 != url by {
                assert(p[m] == acc[m]);
            }
            lemma_position_of(p, url, p.len() as int);
        }
    }
}

pub open spec fn docs_view(v: Seq<Document>) -> Seq<Hit> {
    v.map_values(|d: Document| document_view(d))
}

/// The contributions of every term's list, in query order.
fn flatten(per_term: &Vec<Vec<Scored>>) -> (r: Vec<Scored>)
    ensures
        r@.map_values(|s: Scored| scored_view(s)) == contributions(lists_view(per_term@)),
{
    let ghost lv = lists_view(per_term@);
    let mut r: Vec<Scored> = Vec::new();
    let mut i: usize = 0;
    while i < per_term.len()
        invariant
            i <= per_term@.len(),
            lv == lists_view(per_term@),
            r@.map_values(|s: Scored| scored_view(s)) == contributions(lv.subrange(0, i as int)),
        decreases per_term@.len() - i,
    {
        let list = &per_term[i];
        let ghost base = r@.map_values(|s: Scored| scored_view(s));
        assert(lv[i as int] == list@.map_values(|s: Scored| scored_view(s)));
        let ghost w = weighted(lv[i as int], i as int);
        let mut e: usize = 0;
        while e < list.len()
            invariant
                i < per_term@.len(),
                list == per_term@[i as int],
                e <= list@.len(),
                lv == lists_view(per_term@),
                lv[i as int] == list@.map_values(|s: Scored| scored_view(s)),
                w == weighted(lv[i as int], i as int),
                r@.map_values(|s: Scored| scored_view(s)) == base + w.subrange(0, e as int),
            decreases list@.len() - e,
        {
            let item = &list[e];
            let score = if i == 0 {
                item.score
            } else {
                item.score / (i as u64)
            };
            let ghost before = r@;
            r.push(Scored { url: item.url.clone(), score });
            assert(score as nat == weight(item.score as nat, i as int));
            assert(lv[i as int][e as int] == scored_view(list@[e as int]));
            assert(w[e as int] == (item.url@, weight(item.score as nat, i as int)));
            assert(r@.map_values(|s: Scored| scored_view(s)) =~= before.map_values(
                |s: Scored| scored_view(s),
            ).push(w[e as int]));
            assert(r@.map_values(|s: Scored| scored_view(s)) =~= base + w.subrange(0, e + 1));
            e = e + 1;
        }
        assert(w.subrange(0, list@.len() as int) =~= w);
        assert(lv.subrange(0, i + 1).drop_last() =~= lv.subrange(0, i as int));
        i = i + 1;
    }
    assert(lv.subrange(0, per_term@.len() as int) =~= lv);
    r
}

/// Whether the contributions add up to no more than `u64::MAX`.
fn total_fits(cs: &Vec<Scored>) -> (r: bool)
    ensures
        r == (sum_scores(cs@.map_values(|s: Scored| scored_view(s))) <= u64::MAX),
{
    let ghost c = cs@.map_values(|s: Scored| scored_view(s));
    let mut total: u64 = 0;
    let mut n: usize = 0;
    while n < cs.len()
        invariant
            n <= cs@.len(),
            c == cs@.map_values(|s: Scored| scored_view(s)),
            total == sum_scores(c.subrange(0, n as int)),
        decreases cs@.len() - n,
    {
        assert(c.subrange(0, n + 1).drop_last() =~= c.subrange(0, n as int));
        if total > u64::MAX - cs[n].score {
            proof {
                lemma_sum_prefix(c, n + 1);
            }
            return false;
        }
        total = total + cs[n].score;
        n = n + 1;
    }
    assert(c.subrange(0, n as int) =~= c);
    true
}

/// Per-document sums of the contributions `cs`.
fn aggregate(cs: &Vec<Scored>) -> (r: Vec<Document>)
    requires
        sum_scores(cs@.map_values(|s: Scored| scored_view(s))) <= u64::MAX,
    ensures
        docs_view(r@) == accumulate(cs@.map_values(|s: Scored| scored_view(s))),
{
    let ghost c = cs@.map_values(|s: Scored| scored_view(s));
    let mut acc: Vec<Document> = Vec::new();
    let mut n: usize = 0;
    while n < cs.len()
        invariant
            n <= cs@.len(),
            c == cs@.map_values(|s: Scored| scored_view(s)),
            sum_scores(c) <= u64::MAX,
            docs_view(acc@) == accumulate(c.subrange(0, n as int)),
            forall|k: int|
                0 <= k < acc@.len() ==> (#[trigger] acc@[k]).score <= sum_scores(
                    c.subrange(0, n as int),
                ),
        decreases cs@.len() - n,
    {
        let ghost pre = c.subrange(0, n as int);
        assert(c.subrange(0, n + 1).drop_last() =~= pre);
        proof {
            lemma_sum_prefix(c, n + 1);
        }
        let item = &cs[n];
        let ghost av = docs_view(acc@);
        let mut k: usize = 0;
        while k < acc.len() && !(acc[k].url == item.url)
            invariant
                k <= acc@.len(),
                av == docs_view(acc@),
                forall|m: int| 0 <= m < k ==> (#[trigger] av[m]).0 != item.url@,
            decreases acc@.len() - k,
        {
            k = k + 1;
        }
        proof {
            lemma_position_of(av, item.url@, k as int);
        }
        let ghost old_acc = acc@;
        if k < acc.len() {
            let url = acc[k].url.clone();
            let score = acc[k].score + item.score;
            acc.set(k, Document { url, score });
            assert(docs_view(acc@) =~= av.update(k as int, (item.url@, av[k as int].1 + item.score as nat)));
            assert forall|j: int| 0 <= j < acc@.len() implies (#[trigger] acc@[j]).score
                <= sum_scores(c.subrange(0, n + 1)) by {
                if j != k {
                    assert(acc@[j] == old_acc[j]);
                }
            }
        } else {
            acc.push(Document { url: item.url.clone(), score: item.score });
            assert(docs_view(acc@) =~= av.push((item.url@, item.score as nat)));
            assert forall|j: int| 0 <= j < acc@.len() implies (#[trigger] acc@[j]).score
                <= sum_scores(c.subrange(0, n + 1)) by {
                if j < old_acc.len() {
                    assert(acc@[j] == old_acc[j]);
                }
            }
        }
        n = n + 1;
    }
    assert(c.subrange(0, n as int) =~= c);
    acc
}

fn insert_ranked(out: &mut Vec<Document>, d: Document)
    ensures
        docs_view(final(out)@) == insert_desc(docs_view(old(out)@), document_view(d)),
{
    let ghost v = docs_view(out@);
    let ghost x = document_view(d);
    let mut p = out.len();
    assert(v.subrange(0, p as int) =~= v);
    assert(v.subrange(p as int, v.len() as int) =~= Seq::<Hit>::empty());
    while p > 0 && out[p - 1].score < d.score
        invariant
            p <= out@.len(),
            v == docs_view(out@),
            x == document_view(d),
            insert_desc(v, x) == insert_desc(v.subrange(0, p as int), x) + v.subrange(
                p as int,
                v.len() as int,
            ),
        decreases p,
    {
        let ghost q = v.subrange(0, p as int);
        assert(q.drop_last() =~= v.subrange(0, p - 1));
        assert(q.last() == v[p - 1]);
        assert(insert_desc(v.subrange(0, p - 1), x).push(v[p - 1]) + v.subrange(
            p as int,
            v.len() as int,
        ) =~= insert_desc(v.subrange(0, p - 1), x) + v.subrange(p - 1, v.len() as int));
        p = p - 1;
    }
    let ghost q = v.subrange(0, p as int);
    if p > 0 {
        assert(q.last() == v[p - 1]);
        assert(insert_desc(q, x) == q.push(x));
    } else {
        assert(insert_desc(q, x) == seq![x]);
    }
    out.insert(p, d);
    assert(docs_view(out@) =~= insert_desc(v, x));
}

/// Ranks the documents of a search from each query term's best documents,
/// in query order: a document's score is the sum of its scores under every
/// term that lists it, the first term in full and the term at position `i >= 1`
/// divided by `i`. The result is in descending order of score; documents with
/// equal scores come in order of first appearance. `None` when the scores
/// add up to more than `u64::MAX`.
pub fn rank(per_term: &Vec<Vec<Scored>>) -> (r: Option<Vec<Document>>)
    ensures
        r is None <==> sum_scores(contributions(lists_view(per_term@))) > u64::MAX,
        r matches Some(v) ==> docs_view(v@) == ranked(lists_view(per_term@)),
{
    let cs = flatten(per_term);
    if !total_fits(&cs) {
        return None;
    }
    let acc = aggregate(&cs);
    let ghost av = docs_view(acc@);
    let mut out: Vec<Document> = Vec::new();
    let mut j: usize = 0;
    while j < acc.len()
        invariant
            j <= acc@.len(),
            av == docs_view(acc@),
            docs_view(out@) == sort_desc(av.subrange(0, j as int)),
        decreases acc@.len() - j,
    {
        assert(av.subrange(0, j + 1).drop_last() =~= av.subrange(0, j as int));
        let d = Document { url: acc[j].url.clone(), score: acc[j].score };
        insert_ranked(&mut out, d);
        j = j + 1;
    }
    assert(av.subrange(0, j as int) =~= av);
    Some(out)
}

/// The query terms as searched for: each lower-cased.
pub fn normalize_terms(terms: &Vec<String>) -> (r: Vec<String>)
    ensures
        r@.len() == terms@.len(),
        forall|i: int| 0 <= i < r@.len() ==> (#[trigger] r@[i])@ == lower_of(terms@[i]@),
{
    let mut r: Vec<String> = Vec::new();
    let mut i: usize = 0;
    while i < terms.len()
        invariant
            i <= terms@.len(),
            r@.len() == i,
            forall|k: int| 0 <= k < i ==> (#[trigger] r@[k])@ == lower_of(terms@[k]@),
        decreases terms@.len() - i,
    {
        r.push(lowercase(terms[i].as_str()));
        i = i + 1;
    }
    r
}

} // verus!
