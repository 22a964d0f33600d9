use nvgs::archive::{find_first, read_next, write_record, ArchiveRecord, Field, FormatError, RecordKind};

fn response(body: &[u8]) -> ArchiveRecord {
    ArchiveRecord {
        id: "<urn:uuid:2f1c>".to_string(),
        kind: RecordKind::Response,
        date: "2024-01-02T03:04:05Z".to_string(),
        ip_address: Some("10.0.0.1:80".to_string()),
        content_type: Some("text/plain".to_string()),
        content_length: body.len() as u64,
        body: body.to_vec(),
    }
}

fn request(body: &[u8]) -> ArchiveRecord {
    ArchiveRecord {
        id: "<urn:uuid:aa>".to_string(),
        kind: RecordKind::Request,
        date: "2024-01-02T03:04:05Z".to_string(),
        ip_address: None,
        content_type: None,
        content_length: body.len() as u64,
        body: body.to_vec(),
    }
}

fn same(a: &ArchiveRecord, b: &ArchiveRecord) {
    assert_eq!(a.id, b.id);
    assert_eq!(a.kind, b.kind);
    assert_eq!(a.date, b.date);
    assert_eq!(a.ip_address, b.ip_address);
    assert_eq!(a.content_type, b.content_type);
    assert_eq!(a.content_length, b.content_length);
    assert_eq!(a.body, b.body);
}

#[test]
fn writes_the_expected_bytes() {
    let mut out = Vec::new();
    write_record(&mut out, &request(b"GET / HTTP/1.1\n"));
    let text = String::from_utf8(out).unwrap();
    assert_eq!(
        text,
        "WARC/1.1\r\nWARC-Record-ID: <urn:uuid:aa>\r\nWARC-Type: request\r\nWARC-Date: 2024-01-02T03:04:05Z\r\nContent-Length: 15\r\n\r\nGET / HTTP/1.1\n\r\n\r\n"
    );
}

#[test]
fn round_trip_keeps_header_and_body() {
    let record = response(b"hello world");
    let mut out = Vec::new();
    write_record(&mut out, &record);
    let (back, next) = read_next(&out, 0).unwrap().unwrap();
    same(&record, &back);
    assert_eq!(next, out.len());
    assert!(read_next(&out, next).unwrap().is_none());
}

#[test]
fn body_with_marker_bytes_is_skipped_by_length() {
    let body = b"a\r\n\r\nWARC/1.1\r\nContent-Length: 2\r\n\r\nxx\r\n\r\n".to_vec();
    let first = response(&body);
    let second = request(b"second");
    let mut out = Vec::new();
    write_record(&mut out, &first);
    write_record(&mut out, &second);
    let (a, next) = read_next(&out, 0).unwrap().unwrap();
    same(&first, &a);
    let (b, end) = read_next(&out, next).unwrap().unwrap();
    same(&second, &b);
    assert_eq!(end, out.len());
}

#[test]
fn empty_body_round_trips() {
    let record = response(b"");
    let mut out = Vec::new();
    write_record(&mut out, &record);
    let (back, _) = read_next(&out, 0).unwrap().unwrap();
    same(&record, &back);
}

#[test]
fn find_first_skips_other_records() {
    let mut out = Vec::new();
    write_record(&mut out, &request(b"GET"));
    write_record(&mut out, &response(b"body"));
    let found = find_first(&out, &RecordKind::Response).unwrap().unwrap();
    same(&response(b"body"), &found);
    let none = find_first(&out[..0], &RecordKind::Response).unwrap();
    assert!(none.is_none());
    let other = find_first(&out, &RecordKind::Other("warcinfo".to_string())).unwrap();
    assert!(other.is_none());
}

#[test]
fn names_are_case_insensitive_and_unknown_fields_skipped() {
    let text = b"WARC/1.0\r\nwarc-record-id:  <x> \r\nX-Custom: a: b\r\nwarc-type: resource\r\nWARC-DATE: d\r\ncontent-length: 3\r\n\r\nabc\r\n\r\n";
    let (rec, next) = read_next(text, 0).unwrap().unwrap();
    assert_eq!(rec.id, "<x>");
    assert_eq!(rec.kind, RecordKind::Other("resource".to_string()));
    assert_eq!(rec.date, "d");
    assert_eq!(rec.ip_address, None);
    assert_eq!(rec.body, b"abc".to_vec());
    assert_eq!(next, text.len());
}

#[test]
fn later_field_replaces_earlier() {
    let text = b"WARC/1.1\r\nWARC-Record-ID: a\r\nWARC-Record-ID: b\r\nWARC-Type: request\r\nWARC-Date: d\r\nContent-Length: 0\r\n\r\n\r\n\r\n";
    let (rec, _) = read_next(text, 0).unwrap().unwrap();
    assert_eq!(rec.id, "b");
}

fn error_of(text: &[u8]) -> FormatError {
    match read_next(text, 0) {
        Err(e) => e,
        Ok(_) => panic!("expected an error"),
    }
}

#[test]
fn bad_version() {
    assert_eq!(error_of(b"HTTP/1.1\r\n\r\n"), FormatError::BadVersion);
    assert_eq!(error_of(b"WARC/1.1"), FormatError::BadVersion);
}

#[test]
fn malformed_header() {
    assert_eq!(error_of(b"WARC/1.1\r\nno colon here\r\n\r\n"), FormatError::MalformedHeader);
    assert_eq!(error_of(b"WARC/1.1\r\nWARC-Type: request"), FormatError::MalformedHeader);
}

#[test]
fn missing_fields() {
    assert_eq!(
        error_of(b"WARC/1.1\r\nWARC-Type: request\r\nWARC-Date: d\r\nContent-Length: 0\r\n\r\n\r\n\r\n"),
        FormatError::MissingField(Field::RecordId)
    );
    assert_eq!(
        error_of(b"WARC/1.1\r\nWARC-Record-ID: a\r\nWARC-Type: request\r\nWARC-Date: d\r\n\r\n"),
        FormatError::MissingField(Field::ContentLength)
    );
}

#[test]
fn bad_content_length() {
    assert_eq!(
        error_of(b"WARC/1.1\r\nWARC-Record-ID: a\r\nWARC-Type: request\r\nWARC-Date: d\r\nContent-Length: 1x\r\n\r\n"),
        FormatError::BadContentLength
    );
    assert_eq!(
        error_of(b"WARC/1.1\r\nWARC-Record-ID: a\r\nWARC-Type: request\r\nWARC-Date: d\r\nContent-Length: 99999999999999999999\r\n\r\n"),
        FormatError::BadContentLength
    );
}

#[test]
fn truncated_body() {
    assert_eq!(
        error_of(b"WARC/1.1\r\nWARC-Record-ID: a\r\nWARC-Type: request\r\nWARC-Date: d\r\nContent-Length: 10\r\n\r\nabc"),
        FormatError::Truncated
    );
}

#[test]
fn missing_boundary() {
    assert_eq!(
        error_of(b"WARC/1.1\r\nWARC-Record-ID: a\r\nWARC-Type: request\r\nWARC-Date: d\r\nContent-Length: 3\r\n\r\nabcXX\r\n"),
        FormatError::MissingBoundary
    );
}

#[test]
fn invalid_text() {
    assert_eq!(
        error_of(b"WARC/1.1\r\nWARC-Record-ID: \xff\r\nWARC-Type: request\r\nWARC-Date: d\r\nContent-Length: 0\r\n\r\n\r\n\r\n"),
        FormatError::InvalidText
    );
}
