use nvgs::archive::{read_next, RecordKind};
use nvgs::crawl::{
    archive_exchange, archive_file_name, begin_crawl, crawl_document, is_due, record_outcome,
    select_due, CrawlError, FetchedResponse, Status, ToCrawl, TransportError, FAILED_FETCH,
    NEVER_FETCHED,
};
use nvgs::archive::Field;
use nvgs::crawl::{source_lines, Entry, Source};
use nvgs::extract::ExtractError;

fn entry(status: Status, last_updated: i64) -> ToCrawl {
    ToCrawl {
        url: "http://example.com/".to_string(),
        status,
        last_updated,
        source: "s".to_string(),
    }
}

fn plain(body: &str) -> FetchedResponse {
    FetchedResponse {
        peer_address: Some("93.184.216.34:80".to_string()),
        content_type: Some("text/plain; charset=utf-8".to_string()),
        content_length: Some(body.len() as u64),
        body: body.as_bytes().to_vec(),
    }
}

#[test]
fn staleness_scheduling() {
    let now = 1_000_000;
    let day = 86_400;
    assert!(is_due(&entry(Status::Ready, NEVER_FETCHED), now, day));
    assert!(!is_due(&entry(Status::Ready, now), now, day));
    assert!(is_due(&entry(Status::Ready, now - day - 1), now, day));
    assert!(!is_due(&entry(Status::Ready, now - day), now, day));
    assert!(!is_due(&entry(Status::Crawling, NEVER_FETCHED), now, day));
    assert!(is_due(&entry(Status::Ready, FAILED_FETCH), now, day));
    let all = vec![
        entry(Status::Ready, now),
        entry(Status::Ready, NEVER_FETCHED),
        entry(Status::Crawling, 0),
        entry(Status::Ready, 0),
    ];
    assert_eq!(select_due(&all, now, day), vec![1, 3]);
}

#[test]
fn failed_fetch_returns_to_ready_at_zero() {
    let mut e = entry(Status::Ready, NEVER_FETCHED);
    assert!(begin_crawl(&mut e));
    assert_eq!(e.status, Status::Crawling);
    assert!(!begin_crawl(&mut e));
    let mut missing = plain("x");
    missing.content_length = None;
    let outcome = crawl_document("http://example.com/", "GET / HTTP/1.1\n", &missing, 5);
    assert!(matches!(
        outcome,
        Err(CrawlError::Transport(TransportError::MissingContentLength))
    ));
    record_outcome(&mut e, &outcome, 5);
    assert_eq!(e.status, Status::Ready);
    assert_eq!(e.last_updated, 0);
}

#[test]
fn successful_fetch_is_archived_and_counted() {
    let out = crawl_document("http://example.com/", "GET / HTTP/1.1\n", &plain("Hello hello world"), 0)
        .unwrap();
    let (req, next) = read_next(&out.archive, 0).unwrap().unwrap();
    assert_eq!(req.kind, RecordKind::Request);
    assert_eq!(req.body, b"GET / HTTP/1.1\n".to_vec());
    assert_eq!(req.date, "1970-01-01T00:00:00Z");
    assert!(req.id.starts_with("<urn:uuid:"));
    let (resp, end) = read_next(&out.archive, next).unwrap().unwrap();
    assert_eq!(end, out.archive.len());
    assert_eq!(resp.kind, RecordKind::Response);
    assert_eq!(resp.content_type, Some("text/plain".to_string()));
    assert_eq!(resp.ip_address, Some("93.184.216.34:80".to_string()));
    assert_ne!(resp.id, req.id);
    let terms: Vec<(&str, u64, u64)> = out
        .terms
        .iter()
        .map(|t| (t.term.as_str(), t.count, t.total))
        .collect();
    assert_eq!(terms, vec![("hello", 2, 3), ("world", 1, 3)]);
    let mut e = entry(Status::Crawling, NEVER_FETCHED);
    record_outcome(&mut e, &Ok(out), 77);
    assert_eq!((e.status, e.last_updated), (Status::Ready, 77));
}

#[test]
fn exchange_errors() {
    let id = "<a>".to_string();
    let date = "d".to_string();
    let mut no_peer = plain("x");
    no_peer.peer_address = None;
    assert!(matches!(
        archive_exchange("u", "GET", &no_peer, &id, &id, &date),
        Err(CrawlError::Transport(TransportError::MissingPeerAddress))
    ));
    let mut short = plain("x");
    short.content_length = Some(5);
    assert!(matches!(
        archive_exchange("u", "GET", &short, &id, &id, &date),
        Err(CrawlError::Transport(TransportError::ShortBody))
    ));
    let bad_date = " d".to_string();
    assert!(matches!(
        archive_exchange("u", "GET", &plain("x"), &id, &id, &bad_date),
        Err(CrawlError::BadHeader(Field::Date))
    ));
    let mut image = plain("x");
    image.content_type = Some("image/png".to_string());
    assert!(matches!(
        archive_exchange("u", "GET", &image, &id, &id, &date),
        Err(CrawlError::Extract(ExtractError::UnsupportedContentType))
    ));
    let mut longer = plain("abcdef");
    longer.content_length = Some(3);
    let out = archive_exchange("u", "GET", &longer, &id, &id, &date).unwrap();
    assert_eq!(out.terms.len(), 1);
    assert_eq!(out.terms[0].term, "abc");
}

#[test]
fn status_names() {
    assert_eq!(Status::Ready.name(), "ready");
    assert_eq!(Status::Crawling.name(), "crawling");
    assert_eq!(Status::from_name("crawling"), Some(Status::Crawling));
    assert_eq!(Status::from_name("Ready"), None);
}

#[test]
fn new_entries_are_ready_and_never_fetched() {
    let e = ToCrawl::new("http://example.com", "feed").unwrap();
    assert_eq!(e.url, "http://example.com/");
    assert_eq!(e.status, Status::Ready);
    assert_eq!(e.last_updated, NEVER_FETCHED);
    assert_eq!(e.source, "feed");
    assert!(ToCrawl::new("not a url", "feed").is_err());
}

#[test]
fn archive_names_use_url_safe_base64() {
    assert_eq!(archive_file_name("http://a"), "aHR0cDovL2E=.warc");
    assert_eq!(archive_file_name("??>"), "Pz8-.warc");
}

#[test]
fn source_listing_lines() {
    assert_eq!(
        source_lines("http://a/\r\n\n  http://b/  \nhttp://c/"),
        vec!["http://a/", "", "  http://b/  ", "http://c/"]
    );
    assert!(source_lines("").is_empty());
    assert_eq!(source_lines("x\n"), vec!["x"]);
    assert_eq!(source_lines(" \n\t\n"), vec![" ", "\t"]);
}

#[test]
fn sources_are_stamped_when_polled() {
    let s = Source::new("https://feeds.example.com/list").unwrap();
    assert_eq!(s.last_updated, NEVER_FETCHED);
    let t = s.get_updated(1234);
    assert_eq!(t.url, "https://feeds.example.com/list");
    assert_eq!(t.last_updated, 1234);
    assert!(Source::new("::").is_err());
}

#[test]
fn index_entries_start_ready() {
    let e = Entry::new("http://example.com/a").unwrap();
    assert_eq!((e.status, e.last_updated), (Status::Ready, NEVER_FETCHED));
    assert!(Entry::new("example").is_err());
}

#[test]
fn dates_outside_the_calendar_fail() {
    let outcome = crawl_document("http://example.com/", "GET", &plain("x"), i64::MAX);
    assert!(matches!(outcome, Err(CrawlError::BadHeader(Field::Date))));
}

#[test]
fn media_type_is_recorded_as_sent() {
    let id = "<a>".to_string();
    let date = "d".to_string();
    let mut padded = plain("x");
    padded.content_type = Some("text/plain ; charset=utf-8".to_string());
    assert!(matches!(
        archive_exchange("u", "GET", &padded, &id, &id, &date),
        Err(CrawlError::BadHeader(Field::ContentType))
    ));
    let out = archive_exchange("u", "GET", &plain("one two"), &id, &id, &date).unwrap();
    assert_eq!(out.text, "one two");
}
