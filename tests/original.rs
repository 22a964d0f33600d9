use nvgs::extract::ContentType;
use nvgs::search::{normalize_terms, rank, Document, Scored, SCORE_SCALE, TOP_K};

#[test]
fn content_type() {
    let test = "text/html; charset=UTF-8".to_string();
    let result = ContentType::from_string(&test);
    assert_eq!(result.mime_type, "text/html");
}

/// The best documents for `term` from a table of (url, term, score) rows,
/// highest score first, as the score store hands them out.
fn top_by_term(table: &[(&str, &str, f64)], term: &str, limit: u64) -> Vec<Scored> {
    let mut rows: Vec<(&str, f64)> = table
        .iter()
        .filter(|r| r.1 == term)
        .map(|r| (r.0, r.2))
        .collect();
    rows.sort_by(|a, b| b.1.partial_cmp(&a.1).unwrap());
    rows.truncate(limit as usize);
    rows.into_iter()
        .map(|(url, score)| Scored {
            url: url.to_string(),
            score: (score * SCORE_SCALE as f64).round() as u64,
        })
        .collect()
}

fn execute(table: &[(&str, &str, f64)], terms: &Vec<String>) -> Vec<Document> {
    let terms = normalize_terms(terms);
    let per_term: Vec<Vec<Scored>> = terms
        .iter()
        .map(|t| top_by_term(table, t, TOP_K))
        .collect();
    rank(&per_term).unwrap()
}

fn units(score: f64) -> u64 {
    (score * SCORE_SCALE as f64).round() as u64
}

#[test]
fn test_execute() {
    let terms = vec![
        "Alpha".to_string(),
        "bravo".to_string(),
        "charlie".to_string(),
    ];
    let mut table: Vec<(&str, &str, f64)> = vec![];
    let results = execute(&table, &terms);

    let expected: Vec<Document> = vec![];
    assert_eq!(expected, results);

    table.push(("http://alpha.example.com", "alpha", 0.01));
    table.push(("http://alpha2.example.com", "alpha", 0.02));

    let results = execute(&table, &terms);
    assert_eq!(
        vec![
            Document::new("http://alpha2.example.com", units(0.02)),
            Document::new("http://alpha.example.com", units(0.01)),
        ],
        results
    );
}
