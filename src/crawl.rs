//! Crawl state: which URLs are due for a fetch, the fetch lease, and what a
//! completed fetch turns into (an archive and the document's term frequencies).
use vstd::prelude::*;
use vstd::slice::*;
use crate::archive::{
    encode_record, find_first, lemma_round_trip, model_wf, spec_find_first, text_bytes,
    value_safe, write_record, ArchiveRecord, Field, FormatError, KindModel, RecordKind,
    RecordModel,
};
use crate::extract::{extract_text, extracted, mime_of, ContentType, ExtractError};
use crate::terms::{analyze_terms, frequencies_exact, terms_of, TermFrequency};
use crate::text::{chars_of, string_of, views};

verus! {

/// Where a known URL stands in its fetch cycle.
#[derive(Debug, Clone, Copy, PartialEq, Eq, Structural)]
pub enum Status {
    Ready,
    Crawling,
}

impl Status {
    /// The name a status is stored under.
    pub fn name(&self) -> (r: String)
        ensures
            r@ == (match self {
                Status::Ready => "ready"@,
                Status::Crawling => "crawling"@,
            }),
    {
        match self {
            Status::Ready => String::from_str("ready"),
            Status::Crawling => String::from_str("crawling"),
        }
    }

    /// The status stored under `name`, if any.
    pub fn from_name(name: &str) -> (r: Option<Status>)
        ensures
            r == (if name@ == "ready"@ {
                Some(Status::Ready)
            } else if name@ == "crawling"@ {
                Some(Status::Crawling)
            } else {
                None
            }),
    {
        if crate::extract::text_equals(name, "ready") {
            Some(Status::Ready)
        } else if crate::extract::text_equals(name, "crawling") {
            Some(Status::Crawling)
        } else {
            None
        }
    }
}

/// `last_updated` of a URL that was never fetched.
pub const NEVER_FETCHED: i64 = -1;

/// `last_updated` recorded after a failed fetch: far in the past, so the URL is
/// due again on the next scheduling pass.
pub const FAILED_FETCH: i64 = 0;

/// Seconds after a fetch before a URL is due again.
pub const STALENESS_SECONDS: i64 = 86400;

/// The intent to crawl a URL, found through `source`.
#[derive(Debug)]
pub struct ToCrawl {
    pub url: String,
    pub status: Status,
    pub last_updated: i64,
    pub source: String,
}

pub uninterp spec fn parsed_url(s: Seq<char>) -> Option<Seq<char>>;

/// Relies on `url::Url::parse` (as re-exported by reqwest) and the URL's
/// serialization: `None` for text that is not an absolute URL.
#[verifier::external_body]
pub(crate) fn parse_url(s: &str) -> (r: Option<String>)
    ensures
        r is Some <==> parsed_url(s@) is Some,
        r matches Some(u) ==> parsed_url(s@) == Some(u@),
{
    match reqwest::Url::parse(s) {
        Ok(u) => Some(String::from(u)),
        Err(_) => None,
    }
}

/// A URL that does not parse.
#[derive(Debug, Clone, Copy, PartialEq, Eq, Structural)]
pub struct InvalidUrl;

impl ToCrawl {
    /// A newly registered URL: ready, never fetched, under its normalized form.
    pub fn new(url_str: &str, source: &str) -> (r: Result<ToCrawl, InvalidUrl>)
        ensures
            r is Ok <==> parsed_url(url_str@) is Some,
            r matches Ok(e) ==> {
                &&& Some(e.url@) == parsed_url(url_str@)
                &&& e.status == Status::Ready
                &&& e.last_updated == NEVER_FETCHED
                &&& e.source@ == source@
            },
    {
        match parse_url(url_str) {
            Some(url) => Ok(
                ToCrawl {
                    url,
                    status: Status::Ready,
                    last_updated: NEVER_FETCHED,
                    source: source.to_owned(),
                },
            ),
            None => Err(InvalidUrl),
        }
    }
}

/// Whether an entry in `status`, last updated at `last_updated`, is due for a
/// fetch at time `now`: it is ready, and was never fetched or is older than
/// the staleness threshold.
pub open spec fn spec_is_due(status: Status, last_updated: int, now: int, threshold: int) -> bool {
    status == Status::Ready && (last_updated == NEVER_FETCHED || now - last_updated > threshold)
}

/// Whether `entry` is due for a fetch at time `now`.
pub fn is_due(entry: &ToCrawl, now: i64, threshold: i64) -> (r: bool)
    ensures
        r == spec_is_due(entry.status, entry.last_updated as int, now as int, threshold as int),
{
    match entry.status {
        Status::Crawling => false,
        Status::Ready => entry.last_updated == NEVER_FETCHED || (now as i128) - (
        entry.last_updated as i128) > threshold as i128,
    }
}

/// The indices of the entries that are due at time `now`, in order.
pub fn select_due(entries: &Vec<ToCrawl>, now: i64, threshold: i64) -> (r: Vec<usize>)
    ensures
        forall|k: int| 0 <= k < r@.len() ==> (#[trigger] r@[k]) < entries@.len(),
        forall|k: int, m: int| 0 <= k < m < r@.len() ==> (#[trigger] r@[k]) < (#[trigger] r@[m]),
        forall|i: int|
            0 <= i < entries@.len() ==> (r@.contains(i as usize) <==> spec_is_due(
                #[trigger] entries@[i].status,
                entries@[i].last_updated as int,
                now as int,
                threshold as int,
            )),
{
    let mut r: Vec<usize> = Vec::new();
    let mut i: usize = 0;
    while i < entries.len()
        invariant
            i <= entries@.len(),
            forall|k: int| 0 <= k < r@.len() ==> (#[trigger] r@[k]) < i,
            forall|k: int, m: int| 0 <= k < m < r@.len() ==> (#[trigger] r@[k]) < (#[trigger] r@[m]),
            forall|j: int|
                0 <= j < i ==> (r@.contains(j as usize) <==> spec_is_due(
                    #[trigger] entries@[j].status,
                    entries@[j].last_updated as int,
                    now as int,
                    threshold as int,
                )),
        decreases entries@.len() - i,
    {
        let ghost before = r@;
        if is_due(&entries[i], now, threshold) {
            r.push(i);
            assert(r@[before.len() as int] == i);
        }
        assert forall|j: int| 0 <= j < i + 1 implies (r@.contains(j as usize) <==> spec_is_due(
            #[trigger] entries@[j].status,
            entries@[j].last_updated as int,
            now as int,
            threshold as int,
        )) by {
            if r@.contains(j as usize) && j < i {
                let k = choose|k: int| 0 <= k < r@.len() && r@[k] == j as usize;
                if k == before.len() {
                    assert(r@[k] == i);
                } else {
                    assert(before[k] == r@[k]);
                }
            }
            if j < i && before.contains(j as usize) {
                let k = choose|k: int| 0 <= k < before.len() && before[k] == j as usize;
                assert(r@[k] == before[k]);
            }
        }
        i = i + 1;
    }
    r
}

/// Takes the fetch lease on `entry`: a ready entry becomes crawling and the
/// call returns `true`; an entry already crawling is left as it is.
pub fn begin_crawl(entry: &mut ToCrawl) -> (r: bool)
    ensures
        r == (old(entry).status == Status::Ready),
        final(entry).status == Status::Crawling,
        final(entry).last_updated == old(entry).last_updated,
        final(entry).url == old(entry).url,
        final(entry).source == old(entry).source,
{
    let was_ready = entry.status == Status::Ready;
    entry.status = Status::Crawling;
    was_ready
}

/// Ends a fetch: the entry is ready again, stamped with the time of a
/// successful fetch, or with `FAILED_FETCH` after a failure of any kind.
pub fn finish_crawl(entry: &mut ToCrawl, fetched_at: Option<i64>)
    ensures
        final(entry).status == Status::Ready,
        final(entry).last_updated == match fetched_at {
            Some(t) => t,
            None => FAILED_FETCH,
        },
        final(entry).url == old(entry).url,
        final(entry).source == old(entry).source,
{
    entry.status = Status::Ready;
    entry.last_updated = match fetched_at {
        Some(t) => t,
        None => FAILED_FETCH,
    };
}

/// Scheduling: a URL that was never fetched is due whenever it is ready; one
/// fetched at `now` is not due at `now` (unless `now` is the never-fetched
/// sentinel itself); one fetched longer ago than the threshold is due.
pub proof fn lemma_staleness(now: int, threshold: int, fetched: int)
    requires
        threshold >= 0,
        fetched != NEVER_FETCHED,
    ensures
        spec_is_due(Status::Ready, NEVER_FETCHED as int, now, threshold),
        now != NEVER_FETCHED ==> !spec_is_due(Status::Ready, now, now, threshold),
        now - fetched > threshold ==> spec_is_due(Status::Ready, fetched, now, threshold),
        !spec_is_due(Status::Crawling, fetched, now, threshold),
{
}

// ---------------------------------------------------------------------------
// Processing one fetch

/// What the HTTP client handed back for one fetch, as plain values.
#[derive(Debug)]
pub struct FetchedResponse {
    pub peer_address: Option<String>,
    pub content_type: Option<String>,
    pub content_length: Option<u64>,
    pub body: Vec<u8>,
}

/// A fetch that did not deliver what archiving needs.
#[derive(Debug, Clone, Copy, PartialEq, Eq, Structural)]
pub enum TransportError {
    MissingContentLength,
    MissingPeerAddress,
    /// Fewer body bytes arrived than the declared content length.
    ShortBody,
}

/// Why processing a fetch failed; the URL then goes back to ready with
/// `FAILED_FETCH`.
#[derive(Debug, Clone, Copy, PartialEq, Eq, Structural)]
pub enum CrawlError {
    Transport(TransportError),
    /// A header value that an archive record cannot carry.
    BadHeader(Field),
    Format(FormatError),
    Extract(ExtractError),
}

/// The archive of one exchange and the term frequencies of its document.
#[derive(Debug)]
pub struct CrawlOutput {
    pub archive: Vec<u8>,
    /// The text extracted from the response.
    pub text: String,
    pub terms: Vec<TermFrequency>,
}

/// The media type recorded for a response.
pub open spec fn response_mime(content_type: Option<String>) -> Seq<char> {
    match content_type {
        Some(v) => mime_of(v@),
        None => "application/octet-stream"@,
    }
}

pub open spec fn request_model(id: Seq<char>, date: Seq<char>, text: Seq<char>) -> RecordModel {
    RecordModel {
        id,
        kind: KindModel::Request,
        date,
        ip_address: None,
        content_type: None,
        content_length: text_bytes(text).len(),
        body: text_bytes(text),
    }
}

pub open spec fn response_model(
    id: Seq<char>,
    date: Seq<char>,
    peer: Seq<char>,
    mime: Seq<char>,
    body: Seq<u8>,
) -> RecordModel {
    RecordModel {
        id,
        kind: KindModel::Response,
        date,
        ip_address: Some(peer),
        content_type: Some(mime),
        content_length: body.len(),
        body,
    }
}

pub open spec fn safe(t: Seq<char>) -> bool {
    value_safe(text_bytes(t))
}

/// What processing a fetch yields: the archive bytes and the extracted text,
/// or the first thing that stops it.
pub open spec fn exchange(
    request_text: Seq<char>,
    response: FetchedResponse,
    request_id: Seq<char>,
    response_id: Seq<char>,
    date: Seq<char>,
) -> Result<(Seq<u8>, Seq<char>), CrawlError> {
    match response.content_length {
        None => Err(CrawlError::Transport(TransportError::MissingContentLength)),
        Some(n) => match response.peer_address {
            None => Err(CrawlError::Transport(TransportError::MissingPeerAddress)),
            Some(peer) => {
                let mime = response_mime(response.content_type);
                if response.body@.len() < n {
                    Err(CrawlError::Transport(TransportError::ShortBody))
                } else if !(safe(request_id) && safe(response_id)) {
                    Err(CrawlError::BadHeader(Field::RecordId))
                } else if !safe(date) {
                    Err(CrawlError::BadHeader(Field::Date))
                } else if !safe(peer@) {
                    Err(CrawlError::BadHeader(Field::IpAddress))
                } else if !safe(mime) {
                    Err(CrawlError::BadHeader(Field::ContentType))
                } else {
                    let req = request_model(request_id, date, request_text);
                    let resp = response_model(
                        response_id,
                        date,
                        peer@,
                        mime,
                        response.body@.subrange(0, n as int),
                    );
                    match extracted(resp) {
                        Err(e) => Err(CrawlError::Extract(e)),
                        Ok(text) => Ok((encode_record(req) + encode_record(resp), text)),
                    }
                }
            },
        },
    }
}

/// Whether `s` can stand as an archive header value.
pub fn header_safe(s: &str) -> (r: bool)
    ensures
        r == safe(s@),
{
    let b = s.as_bytes();
    let mut i: usize = 0;
    while i < b.len()
        invariant
            i <= b@.len(),
            b@ == text_bytes(s@),
            forall|k: int| 0 <= k < i ==> b@[k] != crate::archive::CR,
        decreases b@.len() - i,
    {
        if b[i] == crate::archive::CR {
            return false;
        }
        i = i + 1;
    }
    if b.len() == 0 {
        return true;
    }
    let first = b[0];
    let last = b[b.len() - 1];
    !(first == crate::archive::SPACE || first == crate::archive::TAB || last
        == crate::archive::SPACE || last == crate::archive::TAB)
}

/// The media type recorded for a response: the type part of its
/// `Content-Type` header as it stands, or `application/octet-stream` without one.
pub fn response_content_type(content_type: &Option<String>) -> (r: String)
    ensures
        r@ == response_mime(*content_type),
{
    match content_type {
        Some(v) => {
            ContentType::from_string(v.as_str()).mime_type
        },
        None => String::from_str("application/octet-stream"),
    }
}

/// Archives a request and its response, reads the response back from the
/// archive, extracts its text and counts its terms. The response record is
/// found again by reading the archive record by record.
pub fn archive_exchange(
    url: &str,
    request_text: &str,
    response: &FetchedResponse,
    request_id: &String,
    response_id: &String,
    date: &String,
) -> (r: Result<CrawlOutput, CrawlError>)
    ensures
        match (r, exchange(request_text@, *response, request_id@, response_id@, date@)) {
            (Ok(out), Ok((bytes, text))) => out.archive@ == bytes && out.text@ == text
                && frequencies_exact(
                out.terms@,
                url@,
                terms_of(text),
            ),
            (Err(a), Err(b)) => a == b,
            _ => false,
        },
{
    let n = match response.content_length {
        Some(n) => n,
        None => return Err(CrawlError::Transport(TransportError::MissingContentLength)),
    };
    let peer = match &response.peer_address {
        Some(p) => p,
        None => return Err(CrawlError::Transport(TransportError::MissingPeerAddress)),
    };
    let mime = response_content_type(&response.content_type);
    if (response.body.len() as u64) < n {
        return Err(CrawlError::Transport(TransportError::ShortBody));
    }
    if !(header_safe(request_id.as_str()) && header_safe(response_id.as_str())) {
        return Err(CrawlError::BadHeader(Field::RecordId));
    }
    if !header_safe(date.as_str()) {
        return Err(CrawlError::BadHeader(Field::Date));
    }
    if !header_safe(peer.as_str()) {
        return Err(CrawlError::BadHeader(Field::IpAddress));
    }
    if !header_safe(mime.as_str()) {
        return Err(CrawlError::BadHeader(Field::ContentType));
    }
    let request_bytes = request_text.as_bytes();
    let request = ArchiveRecord {
        id: request_id.clone(),
        kind: RecordKind::Request,
        date: date.clone(),
        ip_address: None,
        content_type: None,
        content_length: request_bytes.len() as u64,
        body: slice_to_vec(request_bytes),
    };
    let stored = ArchiveRecord {
        id: response_id.clone(),
        kind: RecordKind::Response,
        date: date.clone(),
        ip_address: Some(peer.clone()),
        content_type: Some(mime),
        content_length: n,
        body: slice_to_vec(slice_subrange(response.body.as_slice(), 0, n as usize)),
    };
    let ghost req = request_model(request_id@, date@, request_text@);
    let ghost resp = response_model(
        response_id@,
        date@,
        peer@,
        response_mime(response.content_type),
        response.body@.subrange(0, n as int),
    );
    assert(request@ == req);
    assert(stored@ == resp);
    let mut archive: Vec<u8> = Vec::new();
    write_record(&mut archive, &request);
    write_record(&mut archive, &stored);
    assert(archive@ =~= encode_record(req) + encode_record(resp));
    proof {
        lemma_read_back(req, resp);
    }
    let found = match find_first(archive.as_slice(), &RecordKind::Response) {
        Ok(Some(rec)) => rec,
        Ok(None) => {
            assert(false);
            return Err(CrawlError::Format(FormatError::Truncated));
        },
        Err(e) => {
            assert(false);
            return Err(CrawlError::Format(e));
        },
    };
    assert(found@ == resp);
    let text = match extract_text(&found) {
        Ok(t) => t,
        Err(e) => return Err(CrawlError::Extract(e)),
    };
    let terms = analyze_terms(text.as_str(), url);
    Ok(CrawlOutput { archive, text, terms })
}

/// Reading an archive of a request followed by its response finds the
/// response as it was written.
proof fn lemma_read_back(req: RecordModel, resp: RecordModel)
    requires
        model_wf(req),
        model_wf(resp),
        req.kind == KindModel::Request,
        resp.kind == KindModel::Response,
    ensures
        spec_find_first(encode_record(req) + encode_record(resp), 0, KindModel::Response) == Ok::<
            Option<RecordModel>,
            FormatError,
        >(Some(resp)),
{
    let a = encode_record(req);
    let b = encode_record(resp);
    let all = a + b;
    lemma_round_trip(req, Seq::empty(), b);
    assert(Seq::<u8>::empty() + a + b =~= all);
    lemma_round_trip(resp, a, Seq::empty());
    assert(a + b + Seq::<u8>::empty() =~= all);
    assert(b.len() > 0) by {
        assert(encode_record(resp).len() >= crate::archive::boundary().len());
    }
    assert(spec_find_first(all, a.len() as int, KindModel::Response) == Ok::<
        Option<RecordModel>,
        FormatError,
    >(Some(resp)));
}

/// Relies on another_rust_warc's `RecordID::new`: a fresh random identifier
/// written `<urn:uuid:...>` with a hyphenated hexadecimal UUID, so it holds no
/// carriage return and no blank.
#[verifier::external_body]
fn new_record_id() -> (r: String)
    ensures
        safe(r@),
{
    another_rust_warc::header::RecordID::new().to_string()
}

pub uninterp spec fn rfc3339_of(seconds: int) -> Seq<char>;

/// The last second of the year 9999, in seconds since the epoch.
pub const LAST_DATE: i64 = 253_402_300_799;

/// Relies on chrono's `DateTime::<Utc>::from_timestamp` and `to_rfc3339_opts`
/// with whole seconds and a `Z` zone; `None` only for a time outside chrono's
/// range, which holds every time up to `LAST_DATE`. The text has digits,
/// signs, `-`, `:`, `T` and `Z`: no carriage return and no blank.
#[verifier::external_body]
fn format_timestamp(seconds: i64) -> (r: Option<String>)
    ensures
        0 <= seconds <= LAST_DATE ==> r is Some,
        r matches Some(t) ==> t@ == rfc3339_of(seconds as int) && safe(t@),
{
    match chrono::DateTime::from_timestamp(seconds, 0) {
        Some(d) => Some(d.to_rfc3339_opts(chrono::SecondsFormat::Secs, true)),
        None => None,
    }
}

/// Processes one fetch made at time `now` (seconds since the epoch): both
/// records get fresh identifiers and the date of `now`. Whatever identifiers
/// came back, they are valid header values and the result is what `exchange`
/// gives for them; the date fails only for a time past `LAST_DATE` or before
/// the epoch that chrono cannot represent.
pub fn crawl_document(url: &str, request_text: &str, response: &FetchedResponse, now: i64) -> (r:
    Result<CrawlOutput, CrawlError>)
    ensures
        match r {
            Ok(out) => exists|rid: Seq<char>, sid: Seq<char>|
                safe(rid) && safe(sid) && (#[trigger] exchange(
                    request_text@,
                    *response,
                    rid,
                    sid,
                    rfc3339_of(now as int),
                ) matches Ok((bytes, text)) && bytes == out.archive@ && out.text@ == text
                    && frequencies_exact(out.terms@, url@, terms_of(text))),
            Err(e) => (!(0 <= now <= LAST_DATE) && e == CrawlError::BadHeader(Field::Date))
                || exists|rid: Seq<char>, sid: Seq<char>|
                safe(rid) && safe(sid) && safe(rfc3339_of(now as int)) && #[trigger] exchange(
                    request_text@,
                    *response,
                    rid,
                    sid,
                    rfc3339_of(now as int),
                ) == Err::<(Seq<u8>, Seq<char>), CrawlError>(e),
        },
{
    let date = match format_timestamp(now) {
        Some(d) => d,
        None => return Err(CrawlError::BadHeader(Field::Date)),
    };
    let request_id = new_record_id();
    let response_id = new_record_id();
    let r = archive_exchange(url, request_text, response, &request_id, &response_id, &date);
    proof {
        let x = exchange(request_text@, *response, request_id@, response_id@, date@);
        match &r {
            Ok(out) => {
                assert(date@ == rfc3339_of(now as int));
            },
            Err(e) => {
                assert(exchange(request_text@, *response, request_id@, response_id@, rfc3339_of(now as int))
                    == Err::<(Seq<u8>, Seq<char>), CrawlError>(*e));
            },
        }
    }
    r
}

/// Records how a fetch of `entry` ended: ready with the time `now` after a
/// success; ready with `FAILED_FETCH` after any failure, never left crawling.
pub fn record_outcome(entry: &mut ToCrawl, outcome: &Result<CrawlOutput, CrawlError>, now: i64)
    ensures
        final(entry).status == Status::Ready,
        final(entry).last_updated == (if outcome is Ok {
            now
        } else {
            FAILED_FETCH
        }),
        final(entry).url == old(entry).url,
        final(entry).source == old(entry).source,
{
    match outcome {
        Ok(_) => finish_crawl(entry, Some(now)),
        Err(_) => finish_crawl(entry, None),
    }
}

/// The digits of URL-safe base64: letters, digits, `-` and `_`.
pub open spec fn url_safe_digits() -> Seq<char> {
    seq![
        'A', 'B', 'C', 'D', 'E', 'F', 'G', 'H', 'I', 'J', 'K', 'L', 'M',
        'N', 'O', 'P', 'Q', 'R', 'S', 'T', 'U', 'V', 'W', 'X', 'Y', 'Z',
        'a', 'b', 'c', 'd', 'e', 'f', 'g', 'h', 'i', 'j', 'k', 'l', 'm',
        'n', 'o', 'p', 'q', 'r', 's', 't', 'u', 'v', 'w', 'x', 'y', 'z',
        '0', '1', '2', '3', '4', '5', '6', '7', '8', '9', '-', '_',
    ]
}

/// URL-safe base64 with padding: each three bytes become four digits of six
/// bits each; a last group of one or two bytes is padded with `=`.
pub open spec fn base64_url(b: Seq<u8>) -> Seq<char>
    decreases b.len(),
{
    let d = url_safe_digits();
    let x = b[0] as int;
    let y = b[1] as int;
    let z = b[2] as int;
    if b.len() == 0 {
        Seq::empty()
    } else if b.len() == 1 {
        seq![d[x / 4], d[(x % 4) * 16], '=', '=']
    } else if b.len() == 2 {
        seq![d[x / 4], d[(x % 4) * 16 + y / 16], d[(y % 16) * 4], '=']
    } else {
        seq![d[x / 4], d[(x % 4) * 16 + y / 16], d[(y % 16) * 4 + z / 64], d[z % 64]]
            + base64_url(b.subrange(3, b.len() as int))
    }
}

/// Relies on base64's `URL_SAFE` engine (padded) through `Engine::encode`.
#[verifier::external_body]
fn encode_url(url: &str) -> (r: String)
    ensures
        r@ == base64_url(text_bytes(url@)),
{
    base64::Engine::encode(&base64::engine::general_purpose::URL_SAFE, url)
}

/// The name of the archive file of `url`: its URL-safe base64 form and `.warc`.
pub fn archive_file_name(url: &str) -> (r: String)
    ensures
        r@ == base64_url(text_bytes(url@)) + ".warc"@,
{
    let mut name = encode_url(url);
    name.append(".warc");
    name
}

/// A URL in the single-table index: its key, fetch status and last fetch time.
#[derive(Debug)]
pub struct Entry {
    pub url: String,
    pub status: Status,
    pub last_updated: i64,
}

impl Entry {
    /// A newly registered URL: ready, never fetched, under its normalized form.
    pub fn new(url_str: &str) -> (r: Result<Entry, InvalidUrl>)
        ensures
            r is Ok <==> parsed_url(url_str@) is Some,
            r matches Ok(e) ==> {
                &&& Some(e.url@) == parsed_url(url_str@)
                &&& e.status == Status::Ready
                &&& e.last_updated == NEVER_FETCHED
            },
    {
        match parse_url(url_str) {
            Some(url) => Ok(Entry { url, status: Status::Ready, last_updated: NEVER_FETCHED }),
            None => Err(InvalidUrl),
        }
    }
}

/// A remote list of URLs that feeds new crawl targets.
#[derive(Debug)]
pub struct Source {
    pub url: String,
    pub last_updated: i64,
}

impl Source {
    /// A newly registered source, never polled.
    pub fn new(url_str: &str) -> (r: Result<Source, InvalidUrl>)
        ensures
            r is Ok <==> parsed_url(url_str@) is Some,
            r matches Ok(s) ==> Some(s.url@) == parsed_url(url_str@) && s.last_updated
                == NEVER_FETCHED,
    {
        match parse_url(url_str) {
            Some(url) => Ok(Source { url, last_updated: NEVER_FETCHED }),
            None => Err(InvalidUrl),
        }
    }

    /// The same source, polled at time `now`.
    pub fn get_updated(&self, now: i64) -> (r: Source)
        ensures
            r.url@ == self.url@,
            r.last_updated == now,
    {
        Source { url: self.url.clone(), last_updated: now }
    }
}

/// A line without the carriage return of a CR LF line ending.
pub open spec fn strip_cr(line: Seq<char>) -> Seq<char> {
    if line.len() > 0 && line.last() == '\r' {
        line.drop_last()
    } else {
        line
    }
}

/// Splitting state after reading `s`: the lines completed so far and the line
/// being read.
pub open spec fn line_state(s: Seq<char>) -> (Seq<Seq<char>>, Seq<char>)
    decreases s.len(),
{
    if s.len() == 0 {
        (Seq::empty(), Seq::empty())
    } else {
        let (done, current) = line_state(s.drop_last());
        if s.last() == '\n' {
            (done.push(strip_cr(current)), Seq::empty())
        } else {
            (done, current.push(s.last()))
        }
    }
}

/// The lines of `s` as `str::lines` gives them: split at each line feed, a
/// CR LF ending taken off, and no empty line after a final line feed.
pub open spec fn lines_of(s: Seq<char>) -> Seq<Seq<char>> {
    let (done, current) = line_state(s);
    if current.len() > 0 {
        done.push(current)
    } else {
        done
    }
}

/// The lines of a source's listing, one URL per line. Every line, a blank
/// one too, is handed on to `ToCrawl::new`, which refuses what is not a URL.
pub fn source_lines(listing: &str) -> (r: Vec<String>)
    ensures
        views(r@) == lines_of(listing@),
{
    let cs = chars_of(listing);
    let mut r: Vec<String> = Vec::new();
    let mut start: usize = 0;
    let mut i: usize = 0;
    while i < cs.len()
        invariant
            start <= i <= cs@.len(),
            cs@ == listing@,
            views(r@) == line_state(cs@.subrange(0, i as int)).0,
            line_state(cs@.subrange(0, i as int)).1 == cs@.subrange(start as int, i as int),
        decreases cs@.len() - i,
    {
        let ghost pre = cs@.subrange(0, i as int);
        assert(cs@.subrange(0, i + 1).drop_last() =~= pre);
        let ghost line = cs@.subrange(start as int, i as int);
        if cs[i] == '\n' {
            let end = if i > start && cs[i - 1] == '\r' {
                i - 1
            } else {
                i
            };
            assert(cs@.subrange(start as int, end as int) =~= strip_cr(line));
            let ghost before = r@;
            r.push(string_of(&cs, start, end));
            assert(views(r@) =~= views(before).push(strip_cr(line)));
            start = i + 1;
            assert(cs@.subrange(start as int, i + 1) =~= Seq::<char>::empty());
        } else {
            assert(cs@.subrange(start as int, i + 1) =~= line.push(cs@[i as int]));
        }
        i = i + 1;
    }
    assert(cs@.subrange(0, i as int) =~= cs@);
    if start < i {
        let ghost before = r@;
        r.push(string_of(&cs, start, i));
        assert(views(r@) =~= views(before).push(cs@.subrange(start as int, i as int)));
    }
    r
}

} // verus!
