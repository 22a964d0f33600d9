use nvgs::index::index;
use nvgs::search::{normalize_terms, rank, Document, Scored};
use nvgs::terms::TermFrequency;

fn scored(url: &str, score: u64) -> Scored {
    Scored { url: url.to_string(), score }
}

#[test]
fn index_counts_documents_per_term() {
    let rows = vec![
        TermFrequency::new("d1", "a", 2, 3),
        TermFrequency::new("d1", "b", 1, 3),
        TermFrequency::new("d2", "a", 1, 1),
        TermFrequency::new("d3", "c", 4, 4),
    ];
    let entries = index(&rows);
    assert_eq!(entries.len(), 4);
    let got: Vec<(&str, &str, u64, u64)> = entries
        .iter()
        .map(|e| (e.url.as_str(), e.term.as_str(), e.documents_with_term, e.documents))
        .collect();
    assert_eq!(
        got,
        vec![("d1", "a", 2, 3), ("d1", "b", 1, 3), ("d2", "a", 2, 3), ("d3", "c", 1, 3)]
    );
    assert_eq!((entries[0].count, entries[0].total), (2, 3));
    let again = index(&rows);
    let scores = |es: &Vec<nvgs::index::IndexEntry>| -> Vec<f64> {
        es.iter()
            .map(|e| {
                (e.count as f64 / e.total as f64)
                    * -((e.documents_with_term as f64 / e.documents as f64).log10())
            })
            .collect()
    };
    let a = scores(&entries);
    let b = scores(&again);
    assert_eq!(a.iter().map(|x| x.to_bits()).collect::<Vec<_>>(), b.iter().map(|x| x.to_bits()).collect::<Vec<_>>());
}

#[test]
fn empty_corpus_has_no_entries() {
    assert!(index(&vec![]).is_empty());
}

#[test]
fn later_terms_are_weighted_down() {
    let per_term = vec![
        vec![scored("a", 100), scored("b", 50)],
        vec![scored("b", 60), scored("c", 200)],
        vec![scored("c", 30), scored("a", 10)],
    ];
    let r = rank(&per_term).unwrap();
    assert_eq!(
        r,
        vec![
            Document::new("c", 215),
            Document::new("b", 110),
            Document::new("a", 105),
        ]
    );
}

#[test]
fn equal_scores_keep_first_appearance() {
    let per_term = vec![vec![scored("x", 5), scored("y", 5)], vec![scored("z", 5)]];
    let r = rank(&per_term).unwrap();
    let urls: Vec<&str> = r.iter().map(|d| d.url.as_str()).collect();
    assert_eq!(urls, vec!["x", "y", "z"]);
}

#[test]
fn missing_terms_contribute_nothing() {
    let per_term = vec![vec![scored("docA", 20), scored("docB", 10)], vec![]];
    let r = rank(&per_term).unwrap();
    assert_eq!(r, vec![Document::new("docA", 20), Document::new("docB", 10)]);
    assert!(rank(&vec![]).unwrap().is_empty());
}

#[test]
fn overflowing_scores_are_refused() {
    let per_term = vec![vec![scored("a", u64::MAX), scored("b", 1)]];
    assert!(rank(&per_term).is_none());
}

#[test]
fn query_terms_are_lower_cased() {
    let terms = vec!["Alpha".to_string(), "BRAVO".to_string(), "x".to_string()];
    assert_eq!(normalize_terms(&terms), vec!["alpha", "bravo", "x"]);
}
