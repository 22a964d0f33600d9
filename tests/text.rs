use nvgs::archive::{ArchiveRecord, RecordKind};
use nvgs::extract::{extract_text, html_text, ExtractError};
use nvgs::terms::{analyze_terms, counts};
use nvgs::text::{split_tokens, trim};

fn page(content_type: Option<&str>, body: &[u8]) -> ArchiveRecord {
    ArchiveRecord {
        id: "<id>".to_string(),
        kind: RecordKind::Response,
        date: "d".to_string(),
        ip_address: Some("1.2.3.4:80".to_string()),
        content_type: content_type.map(|s| s.to_string()),
        content_length: body.len() as u64,
        body: body.to_vec(),
    }
}

#[test]
fn tokens_split_on_any_whitespace() {
    assert_eq!(split_tokens("  a\tb\n\u{3000}c  "), vec!["a", "b", "c"]);
    assert!(split_tokens("   ").is_empty());
    assert_eq!(trim("\u{a0} x y \n"), "x y");
}

#[test]
fn plain_text_is_decoded_lossily() {
    let r = extract_text(&page(Some("text/plain"), b"caf\xc3\xa9 \xff")).unwrap();
    assert_eq!(r, "caf\u{e9} \u{fffd}");
}

#[test]
fn html_text_skips_markup_scripts_and_blank_runs() {
    let html = "<html><head><title> Title </title><style>p {}</style></head><body><p>Hello  <b>world</b></p>\n<script>var x;</script></body></html>";
    assert_eq!(html_text(html), "Title \nHello \nworld \n");
    let r = extract_text(&page(Some("text/html"), html.as_bytes())).unwrap();
    assert_eq!(r, "Title \nHello \nworld \n");
    assert_eq!(html_text("<p>  a \t b </p><p> </p>"), "a b \n");
}

#[test]
fn unsupported_and_missing_content_types() {
    assert_eq!(
        extract_text(&page(Some("image/png"), b"\x89PNG")),
        Err(ExtractError::UnsupportedContentType)
    );
    assert_eq!(extract_text(&page(None, b"x")), Err(ExtractError::MissingContentType));
}

#[test]
fn extraction_is_repeatable() {
    let html = "<p>one two</p><p>two</p>";
    let mut a = page(Some("text/html"), html.as_bytes());
    let first = extract_text(&a).unwrap();
    a.id = "<other>".to_string();
    let second = extract_text(&a).unwrap();
    assert_eq!(first, second);
    assert_eq!(split_tokens(&first), split_tokens(&second));
}

#[test]
fn counts_of_a_a_b() {
    let tc = counts("a a b");
    assert_eq!(tc.total, 3);
    assert_eq!(tc.counts, vec![("a".to_string(), 2), ("b".to_string(), 1)]);
    let fs = analyze_terms("a a b", "http://d");
    assert_eq!(fs.len(), 2);
    assert_eq!((fs[0].term.as_str(), fs[0].count, fs[0].total), ("a", 2, 3));
    assert_eq!((fs[1].term.as_str(), fs[1].count, fs[1].total), ("b", 1, 3));
    let sum: f64 = fs.iter().map(|f| f.count as f64 / f.total as f64).sum();
    assert!((sum - 1.0).abs() < 1e-12);
    assert!((fs[0].count as f64 / fs[0].total as f64 - 2.0 / 3.0).abs() < 1e-12);
    assert_eq!(fs[0].url, "http://d");
}

#[test]
fn counting_lower_cases_tokens() {
    let tc = counts("Apple APPLE pie\napple");
    assert_eq!(tc.total, 4);
    assert_eq!(tc.counts, vec![("apple".to_string(), 3), ("pie".to_string(), 1)]);
}

#[test]
fn empty_text_has_no_terms() {
    let tc = counts("");
    assert_eq!(tc.total, 0);
    assert!(tc.counts.is_empty());
    assert!(analyze_terms(" \n ", "u").is_empty());
}
