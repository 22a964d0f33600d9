//! Archive codec: request and response exchanges stored as framed records.
//!
//! A record is a version line, a block of `Name: value` header lines closed by
//! an empty line, exactly `Content-Length` body bytes, and a boundary marker.
//! Readers find the next record by the declared length, never by searching the
//! body, so bodies may hold any bytes.
//!
//! The layout is the WARC framing that another_rust_warc reads and writes, and
//! its field names; the codec is written here rather than called there. That
//! crate's writer emits the header fields in hash-map order, so the bytes of a
//! record differ from process to process, and its reader hands back the header
//! as a map of names to strings, read from a buffered stream. Here a record is
//! a fixed struct with named fields, written in a fixed order, so that its
//! bytes are a function of the record and reading them back is proved to give
//! the record again (`lemma_round_trip`).
use vstd::prelude::*;
use vstd::utf8::*;
use vstd::slice::*;

verus! {

pub const CR: u8 = 13;
pub const LF: u8 = 10;
pub const COLON: u8 = 58;
pub const SPACE: u8 = 32;
pub const TAB: u8 = 9;

/// The header fields that the codec knows by name.
#[derive(Debug, Clone, Copy, PartialEq, Eq, Structural)]
pub enum Field {
    RecordId,
    Type,
    Date,
    IpAddress,
    ContentType,
    ContentLength,
}

/// Why a byte stream does not hold a well-framed record.
#[derive(Debug, Clone, Copy, PartialEq, Eq, Structural)]
pub enum FormatError {
    /// The first line is missing or does not name a WARC/1.x version.
    BadVersion,
    /// A header line has no colon, or the header block is not closed.
    MalformedHeader,
    /// A required header field is absent.
    MissingField(Field),
    /// The declared content length is not a decimal number that fits in 64 bits.
    BadContentLength,
    /// The declared content length exceeds the bytes that remain.
    Truncated,
    /// The body is not followed by the record boundary marker.
    MissingBoundary,
    /// A header value is not valid UTF-8.
    InvalidText,
}

/// The type of a record.
#[derive(Debug, PartialEq, Eq)]
pub enum RecordKind {
    Request,
    Response,
    /// Any other record type, kept by name so that readers can skip it.
    Other(String),
}

/// One archived exchange: a fixed header with named fields, and the body.
#[derive(Debug)]
pub struct ArchiveRecord {
    pub id: String,
    pub kind: RecordKind,
    pub date: String,
    pub ip_address: Option<String>,
    pub content_type: Option<String>,
    pub content_length: u64,
    pub body: Vec<u8>,
}

pub enum KindModel {
    Request,
    Response,
    Other(Seq<char>),
}

/// Mathematical value of an [`ArchiveRecord`].
pub struct RecordModel {
    pub id: Seq<char>,
    pub kind: KindModel,
    pub date: Seq<char>,
    pub ip_address: Option<Seq<char>>,
    pub content_type: Option<Seq<char>>,
    pub content_length: nat,
    pub body: Seq<u8>,
}

pub open spec fn opt_text(o: Option<String>) -> Option<Seq<char>> {
    match o {
        Some(s) => Some(s@),
        None => None,
    }
}

impl View for RecordKind {
    type V = KindModel;

    open spec fn view(&self) -> KindModel {
        match self {
            RecordKind::Request => KindModel::Request,
            RecordKind::Response => KindModel::Response,
            RecordKind::Other(s) => KindModel::Other(s@),
        }
    }
}

impl View for ArchiveRecord {
    type V = RecordModel;

    open spec fn view(&self) -> RecordModel {
        RecordModel {
            id: self.id@,
            kind: self.kind@,
            date: self.date@,
            ip_address: opt_text(self.ip_address),
            content_type: opt_text(self.content_type),
            content_length: self.content_length as nat,
            body: self.body@,
        }
    }
}

// ---------------------------------------------------------------------------
// Byte vocabulary

pub open spec fn crlf() -> Seq<u8> {
    seq![CR, LF]
}

pub open spec fn boundary() -> Seq<u8> {
    seq![CR, LF, CR, LF]
}

pub open spec fn separator() -> Seq<u8> {
    seq![COLON, SPACE]
}

pub open spec fn version_bytes() -> Seq<u8> {
    // "WARC/1.1"
    seq![87u8, 65, 82, 67, 47, 49, 46, 49]
}

pub open spec fn version_prefix() -> Seq<u8> {
    // "WARC/1."
    seq![87u8, 65, 82, 67, 47, 49, 46]
}

pub open spec fn request_bytes() -> Seq<u8> {
    // "request"
    seq![114u8, 101, 113, 117, 101, 115, 116]
}

pub open spec fn response_bytes() -> Seq<u8> {
    // "response"
    seq![114u8, 101, 115, 112, 111, 110, 115, 101]
}

pub open spec fn field_name(f: Field) -> Seq<u8> {
    match f {
        // "WARC-Record-ID"
        Field::RecordId => seq![87u8, 65, 82, 67, 45, 82, 101, 99, 111, 114, 100, 45, 73, 68],
        // "WARC-Type"
        Field::Type => seq![87u8, 65, 82, 67, 45, 84, 121, 112, 101],
        // "WARC-Date"
        Field::Date => seq![87u8, 65, 82, 67, 45, 68, 97, 116, 101],
        // "WARC-IP-Address"
        Field::IpAddress => seq![
            87u8, 65, 82, 67, 45, 73, 80, 45, 65, 100, 100, 114, 101, 115, 115,
        ],
        // "Content-Type"
        Field::ContentType => seq![67u8, 111, 110, 116, 101, 110, 116, 45, 84, 121, 112, 101],
        // "Content-Length"
        Field::ContentLength => seq![
            67u8, 111, 110, 116, 101, 110, 116, 45, 76, 101, 110, 103, 116, 104,
        ],
    }
}

pub open spec fn lower_byte(c: u8) -> u8 {
    if 65 <= c <= 90 {
        (c + 32) as u8
    } else {
        c
    }
}

/// Field names compare without regard to ASCII case.
pub open spec fn same_name(a: Seq<u8>, b: Seq<u8>) -> bool {
    a.len() == b.len() && forall|i: int| 0 <= i < a.len() ==> lower_byte(a[i]) == lower_byte(b[i])
}

pub open spec fn field_of(name: Seq<u8>) -> Option<Field> {
    if same_name(name, field_name(Field::RecordId)) {
        Some(Field::RecordId)
    } else if same_name(name, field_name(Field::Type)) {
        Some(Field::Type)
    } else if same_name(name, field_name(Field::Date)) {
        Some(Field::Date)
    } else if same_name(name, field_name(Field::IpAddress)) {
        Some(Field::IpAddress)
    } else if same_name(name, field_name(Field::ContentType)) {
        Some(Field::ContentType)
    } else if same_name(name, field_name(Field::ContentLength)) {
        Some(Field::ContentLength)
    } else {
        None
    }
}

// ---------------------------------------------------------------------------
// Decimal numbers

pub open spec fn is_digit(c: u8) -> bool {
    48 <= c <= 57
}

pub open spec fn decimal(n: nat) -> Seq<u8>
    decreases n,
{
    if n < 10 {
        seq![(48 + n) as u8]
    } else {
        decimal(n / 10).push((48 + n % 10) as u8)
    }
}

pub open spec fn digits_value(s: Seq<u8>) -> nat
    decreases s.len(),
{
    if s.len() == 0 {
        0
    } else {
        digits_value(s.drop_last()) * 10 + (s.last() - 48) as nat
    }
}

pub open spec fn parse_decimal(s: Seq<u8>) -> Option<nat> {
    if s.len() > 0 && forall|i: int| 0 <= i < s.len() ==> is_digit(s[i]) {
        Some(digits_value(s))
    } else {
        None
    }
}

// ---------------------------------------------------------------------------
// Encoding

pub open spec fn text_bytes(t: Seq<char>) -> Seq<u8> {
    encode_utf8(t)
}

pub open spec fn header_line(f: Field, v: Seq<u8>) -> Seq<u8> {
    field_name(f) + separator() + v + crlf()
}

pub open spec fn optional_line(f: Field, v: Option<Seq<char>>) -> Seq<u8> {
    match v {
        Some(t) => header_line(f, text_bytes(t)),
        None => Seq::empty(),
    }
}

pub open spec fn kind_bytes(k: KindModel) -> Seq<u8> {
    match k {
        KindModel::Request => request_bytes(),
        KindModel::Response => response_bytes(),
        KindModel::Other(t) => text_bytes(t),
    }
}

pub open spec fn header_block(m: RecordModel) -> Seq<u8> {
    header_line(Field::RecordId, text_bytes(m.id)) + header_line(Field::Type, kind_bytes(m.kind))
        + header_line(Field::Date, text_bytes(m.date)) + optional_line(
        Field::IpAddress,
        m.ip_address,
    ) + optional_line(Field::ContentType, m.content_type) + header_line(
        Field::ContentLength,
        decimal(m.content_length),
    )
}

/// The bytes that one record is written as.
pub open spec fn encode_record(m: RecordModel) -> Seq<u8> {
    version_bytes() + crlf() + header_block(m) + crlf() + m.body + boundary()
}

// ---------------------------------------------------------------------------
// Decoding

pub open spec fn is_blank(c: u8) -> bool {
    c == SPACE || c == TAB
}

pub open spec fn trim_front(s: Seq<u8>) -> Seq<u8>
    decreases s.len(),
{
    if s.len() > 0 && is_blank(s[0]) {
        trim_front(s.drop_first())
    } else {
        s
    }
}

pub open spec fn trim_back(s: Seq<u8>) -> Seq<u8>
    decreases s.len(),
{
    if s.len() > 0 && is_blank(s.last()) {
        trim_back(s.drop_last())
    } else {
        s
    }
}

pub open spec fn trim(s: Seq<u8>) -> Seq<u8> {
    trim_back(trim_front(s))
}

/// Index of the first CR LF pair in `s` at or after `k`.
pub open spec fn find_crlf(s: Seq<u8>, k: int) -> Option<int>
    decreases s.len() - k,
{
    if k < 0 || k + 1 >= s.len() {
        None
    } else if s[k] == CR && s[k + 1] == LF {
        Some(k)
    } else {
        find_crlf(s, k + 1)
    }
}

/// Index of the first colon in `s` at or after `k`.
pub open spec fn find_colon(s: Seq<u8>, k: int) -> Option<int>
    decreases s.len() - k,
{
    if k < 0 || k >= s.len() {
        None
    } else if s[k] == COLON {
        Some(k)
    } else {
        find_colon(s, k + 1)
    }
}

/// A header line split at its first colon into a trimmed name and value.
pub open spec fn split_field(line: Seq<u8>) -> Option<(Seq<u8>, Seq<u8>)> {
    match find_colon(line, 0) {
        Some(c) => Some(
            (trim(line.subrange(0, c)), trim(line.subrange(c + 1, line.len() as int))),
        ),
        None => None,
    }
}

/// Header values as they were read, before any check.
pub struct RawHeader {
    pub id: Option<Seq<u8>>,
    pub kind: Option<Seq<u8>>,
    pub date: Option<Seq<u8>>,
    pub ip_address: Option<Seq<u8>>,
    pub content_type: Option<Seq<u8>>,
    pub content_length: Option<Seq<u8>>,
}

pub open spec fn empty_header() -> RawHeader {
    RawHeader {
        id: None,
        kind: None,
        date: None,
        ip_address: None,
        content_type: None,
        content_length: None,
    }
}

/// A later line for the same field replaces an earlier one.
pub open spec fn with_field(h: RawHeader, f: Field, v: Seq<u8>) -> RawHeader {
    match f {
        Field::RecordId => RawHeader { id: Some(v), ..h },
        Field::Type => RawHeader { kind: Some(v), ..h },
        Field::Date => RawHeader { date: Some(v), ..h },
        Field::IpAddress => RawHeader { ip_address: Some(v), ..h },
        Field::ContentType => RawHeader { content_type: Some(v), ..h },
        Field::ContentLength => RawHeader { content_length: Some(v), ..h },
    }
}

/// Reads header lines of `s` from `k` up to and including the empty line that
/// closes the block; yields the fields and the index just past that line.
/// Lines whose name is not known are skipped.
pub open spec fn parse_fields(s: Seq<u8>, k: int, h: RawHeader) -> Result<
    (RawHeader, int),
    FormatError,
>
    decreases s.len() - k,
{
    match find_crlf(s, k) {
        None => Err(FormatError::MalformedHeader),
        Some(j) => {
            // `find_crlf` never yields such an index; the test keeps the
            // recursion visibly decreasing.
            if j < k || j + 2 > s.len() {
                Err(FormatError::MalformedHeader)
            } else if j == k {
                Ok((h, k + 2))
            } else {
                match split_field(s.subrange(k, j)) {
                    None => Err(FormatError::MalformedHeader),
                    Some((name, value)) => parse_fields(
                        s,
                        j + 2,
                        match field_of(name) {
                            Some(f) => with_field(h, f, value),
                            None => h,
                        },
                    ),
                }
            }
        },
    }
}

pub open spec fn opt_decode(o: Option<Seq<u8>>) -> Option<Seq<char>> {
    match o {
        Some(b) => Some(decode_utf8(b)),
        None => None,
    }
}

pub open spec fn opt_valid(o: Option<Seq<u8>>) -> bool {
    match o {
        Some(b) => valid_utf8(b),
        None => true,
    }
}

/// The type names that the codec knows need no decoding; any other is text.
pub open spec fn kind_valid(b: Seq<u8>) -> bool {
    b == request_bytes() || b == response_bytes() || valid_utf8(b)
}

pub open spec fn kind_of(b: Seq<u8>) -> KindModel {
    if b == request_bytes() {
        KindModel::Request
    } else if b == response_bytes() {
        KindModel::Response
    } else {
        KindModel::Other(decode_utf8(b))
    }
}

/// Checks the fields read from a header that ends at `start`, and takes the
/// body and the boundary that follow it.
pub open spec fn finish_record(s: Seq<u8>, h: RawHeader, start: int) -> Result<
    (RecordModel, int),
    FormatError,
> {
    if h.id is None {
        Err(FormatError::MissingField(Field::RecordId))
    } else if h.kind is None {
        Err(FormatError::MissingField(Field::Type))
    } else if h.date is None {
        Err(FormatError::MissingField(Field::Date))
    } else if h.content_length is None {
        Err(FormatError::MissingField(Field::ContentLength))
    } else {
        match parse_decimal(h.content_length->0) {
            None => Err(FormatError::BadContentLength),
            Some(n) => {
                if n > u64::MAX {
                    Err(FormatError::BadContentLength)
                } else if start + n > s.len() {
                    Err(FormatError::Truncated)
                } else if start + n + 4 > s.len() || s.subrange(start + n, start + n + 4)
                    != boundary() {
                    Err(FormatError::MissingBoundary)
                } else if !(valid_utf8(h.id->0) && kind_valid(h.kind->0) && valid_utf8(h.date->0)
                    && opt_valid(h.ip_address) && opt_valid(h.content_type)) {
                    Err(FormatError::InvalidText)
                } else {
                    Ok(
                        (
                            RecordModel {
                                id: decode_utf8(h.id->0),
                                kind: kind_of(h.kind->0),
                                date: decode_utf8(h.date->0),
                                ip_address: opt_decode(h.ip_address),
                                content_type: opt_decode(h.content_type),
                                content_length: n,
                                body: s.subrange(start, start + n),
                            },
                            start + n + 4,
                        ),
                    )
                }
            },
        }
    }
}

/// Parses the record at the start of `s`; yields it and the number of bytes it takes.
pub open spec fn parse_record(s: Seq<u8>) -> Result<(RecordModel, int), FormatError> {
    match find_crlf(s, 0) {
        None => Err(FormatError::BadVersion),
        Some(v) => {
            if v < 7 || s.subrange(0, 7) != version_prefix() {
                Err(FormatError::BadVersion)
            } else {
                match parse_fields(s, v + 2, empty_header()) {
                    Err(e) => Err(e),
                    Ok((h, start)) => finish_record(s, h, start),
                }
            }
        },
    }
}

/// The record that starts at `pos` of `b`, with the index just past it; `None`
/// at the end of the stream.
pub open spec fn spec_read_next(b: Seq<u8>, pos: int) -> Result<Option<(RecordModel, int)>, FormatError> {
    if pos >= b.len() {
        Ok(None)
    } else {
        match parse_record(b.subrange(pos, b.len() as int)) {
            Ok((m, n)) => Ok(Some((m, pos + n))),
            Err(e) => Err(e),
        }
    }
}

// ---------------------------------------------------------------------------
// Writing

fn push_all(out: &mut Vec<u8>, src: &[u8])
    ensures
        final(out)@ == old(out)@ + src@,
{
    let mut i: usize = 0;
    while i < src.len()
        invariant
            i <= src@.len(),
            out@ == old(out)@ + src@.subrange(0, i as int),
        decreases src@.len() - i,
    {
        out.push(src[i]);
        i = i + 1;
        assert(out@ =~= old(out)@ + src@.subrange(0, i as int));
    }
    assert(src@.subrange(0, src@.len() as int) =~= src@);
}

fn field_name_bytes(f: Field) -> (r: Vec<u8>)
    ensures
        r@ == field_name(f),
{
    let r = match f {
        Field::RecordId => vec![87u8, 65, 82, 67, 45, 82, 101, 99, 111, 114, 100, 45, 73, 68],
        Field::Type => vec![87u8, 65, 82, 67, 45, 84, 121, 112, 101],
        Field::Date => vec![87u8, 65, 82, 67, 45, 68, 97, 116, 101],
        Field::IpAddress => vec![
            87u8, 65, 82, 67, 45, 73, 80, 45, 65, 100, 100, 114, 101, 115, 115,
        ],
        Field::ContentType => vec![67u8, 111, 110, 116, 101, 110, 116, 45, 84, 121, 112, 101],
        Field::ContentLength => vec![
            67u8, 111, 110, 116, 101, 110, 116, 45, 76, 101, 110, 103, 116, 104,
        ],
    };
    assert(r@ =~= field_name(f));
    r
}

fn request_name() -> (r: Vec<u8>)
    ensures
        r@ == request_bytes(),
{
    let r = vec![114u8, 101, 113, 117, 101, 115, 116];
    assert(r@ =~= request_bytes());
    r
}

fn response_name() -> (r: Vec<u8>)
    ensures
        r@ == response_bytes(),
{
    let r = vec![114u8, 101, 115, 112, 111, 110, 115, 101];
    assert(r@ =~= response_bytes());
    r
}

fn push_decimal(out: &mut Vec<u8>, n: u64)
    ensures
        final(out)@ == old(out)@ + decimal(n as nat),
    decreases n,
{
    if n >= 10 {
        push_decimal(out, n / 10);
    }
    out.push((48 + n % 10) as u8);
    assert(out@ =~= old(out)@ + decimal(n as nat));
}

fn push_crlf(out: &mut Vec<u8>)
    ensures
        final(out)@ == old(out)@ + crlf(),
{
    out.push(CR);
    out.push(LF);
    assert(out@ =~= old(out)@ + crlf());
}

fn push_line(out: &mut Vec<u8>, f: Field, value: &[u8])
    ensures
        final(out)@ == old(out)@ + header_line(f, value@),
{
    let name = field_name_bytes(f);
    push_all(out, name.as_slice());
    out.push(COLON);
    out.push(SPACE);
    push_all(out, value);
    push_crlf(out);
    assert(out@ =~= old(out)@ + header_line(f, value@));
}

fn push_optional_line(out: &mut Vec<u8>, f: Field, value: &Option<String>)
    ensures
        final(out)@ == old(out)@ + optional_line(f, opt_text(*value)),
{
    match value {
        Some(t) => push_line(out, f, t.as_str().as_bytes()),
        None => {
            assert(out@ =~= old(out)@ + optional_line(f, opt_text(*value)));
        },
    }
}

fn kind_value(kind: &RecordKind) -> (r: Vec<u8>)
    ensures
        r@ == kind_bytes(kind@),
{
    match kind {
        RecordKind::Request => request_name(),
        RecordKind::Response => response_name(),
        RecordKind::Other(t) => slice_to_vec(t.as_str().as_bytes()),
    }
}

/// Appends `record` to `out` in the archive format. Only a well-formed record
/// is written, so that every record written reads back as it was.
pub fn write_record(out: &mut Vec<u8>, record: &ArchiveRecord)
    requires
        record.wf(),
    ensures
        final(out)@ == old(out)@ + encode_record(record@),
{
    let ghost m = record@;
    let version = vec![87u8, 65, 82, 67, 47, 49, 46, 49];
    assert(version@ =~= version_bytes());
    push_all(out, version.as_slice());
    push_crlf(out);
    let ghost before_header = out@;
    push_line(out, Field::RecordId, record.id.as_str().as_bytes());
    let kind = kind_value(&record.kind);
    push_line(out, Field::Type, kind.as_slice());
    push_line(out, Field::Date, record.date.as_str().as_bytes());
    push_optional_line(out, Field::IpAddress, &record.ip_address);
    push_optional_line(out, Field::ContentType, &record.content_type);
    let mut length: Vec<u8> = Vec::new();
    push_decimal(&mut length, record.content_length);
    assert(length@ =~= decimal(m.content_length));
    push_line(out, Field::ContentLength, length.as_slice());
    assert(out@ =~= before_header + header_block(m));
    push_crlf(out);
    push_all(out, record.body.as_slice());
    let boundary_bytes = vec![CR, LF, CR, LF];
    assert(boundary_bytes@ =~= boundary());
    push_all(out, boundary_bytes.as_slice());
    assert(out@ =~= old(out)@ + encode_record(m));
}

// ---------------------------------------------------------------------------
// Reading

fn find_crlf_from(s: &[u8], k: usize) -> (r: Option<usize>)
    ensures
        match r {
            Some(j) => find_crlf(s@, k as int) == Some(j as int) && k <= j && j + 2 <= s@.len(),
            None => find_crlf(s@, k as int) is None,
        },
{
    let mut i = k;
    while i <= s.len() && s.len() - i >= 2
        invariant
            k <= i,
            find_crlf(s@, k as int) == find_crlf(s@, i as int),
        decreases s@.len() - i,
    {
        if s[i] == CR && s[i + 1] == LF {
            return Some(i);
        }
        i = i + 1;
    }
    None
}

fn find_colon_in(s: &[u8], start: usize, end: usize) -> (r: Option<usize>)
    requires
        start <= end <= s@.len(),
    ensures
        match r {
            Some(c) => find_colon(s@.subrange(start as int, end as int), 0) == Some(c as int)
                && start + c < end,
            None => find_colon(s@.subrange(start as int, end as int), 0) is None,
        },
{
    let ghost line = s@.subrange(start as int, end as int);
    let mut i = start;
    while i < end
        invariant
            start <= i <= end,
            end <= s@.len(),
            line == s@.subrange(start as int, end as int),
            find_colon(line, 0) == find_colon(line, i - start),
        decreases end - i,
    {
        if s[i] == COLON {
            return Some(i - start);
        }
        i = i + 1;
    }
    None
}

fn is_blank_byte(c: u8) -> (r: bool)
    ensures
        r == is_blank(c),
{
    c == SPACE || c == TAB
}

/// The bounds of `s[start..end]` with blanks taken off both ends.
fn trim_range(s: &[u8], start: usize, end: usize) -> (r: (usize, usize))
    requires
        start <= end <= s@.len(),
    ensures
        start <= r.0 <= r.1 <= end,
        s@.subrange(r.0 as int, r.1 as int) == trim(s@.subrange(start as int, end as int)),
{
    let mut a = start;
    while a < end && is_blank_byte(s[a])
        invariant
            start <= a <= end,
            end <= s@.len(),
            trim_front(s@.subrange(start as int, end as int)) == trim_front(
                s@.subrange(a as int, end as int),
            ),
        decreases end - a,
    {
        assert(s@.subrange(a as int, end as int).drop_first() =~= s@.subrange(
            a + 1,
            end as int,
        ));
        a = a + 1;
    }
    let mut e = end;
    while e > a && is_blank_byte(s[e - 1])
        invariant
            start <= a <= e <= end,
            end <= s@.len(),
            trim_back(s@.subrange(a as int, end as int)) == trim_back(
                s@.subrange(a as int, e as int),
            ),
        decreases e,
    {
        assert(s@.subrange(a as int, e as int).drop_last() =~= s@.subrange(a as int, e - 1));
        e = e - 1;
    }
    (a, e)
}

fn lower(c: u8) -> (r: u8)
    ensures
        r == lower_byte(c),
{
    if 65 <= c && c <= 90 {
        c + 32
    } else {
        c
    }
}

fn name_matches(s: &[u8], start: usize, end: usize, name: &[u8]) -> (r: bool)
    requires
        start <= end <= s@.len(),
    ensures
        r == same_name(s@.subrange(start as int, end as int), name@),
{
    let ghost part = s@.subrange(start as int, end as int);
    if end - start != name.len() {
        return false;
    }
    let mut i: usize = 0;
    while i < name.len()
        invariant
            end - start == name@.len(),
            start <= end <= s@.len(),
            part == s@.subrange(start as int, end as int),
            i <= name@.len(),
            forall|m: int| 0 <= m < i ==> lower_byte(part[m]) == lower_byte(name@[m]),
        decreases name@.len() - i,
    {
        if lower(s[start + i]) != lower(name[i]) {
            assert(lower_byte(part[i as int]) != lower_byte(name@[i as int]));
            return false;
        }
        i = i + 1;
    }
    true
}

fn field_named(s: &[u8], start: usize, end: usize) -> (r: Option<Field>)
    requires
        start <= end <= s@.len(),
    ensures
        r == field_of(s@.subrange(start as int, end as int)),
{
    if name_matches(s, start, end, field_name_bytes(Field::RecordId).as_slice()) {
        Some(Field::RecordId)
    } else if name_matches(s, start, end, field_name_bytes(Field::Type).as_slice()) {
        Some(Field::Type)
    } else if name_matches(s, start, end, field_name_bytes(Field::Date).as_slice()) {
        Some(Field::Date)
    } else if name_matches(s, start, end, field_name_bytes(Field::IpAddress).as_slice()) {
        Some(Field::IpAddress)
    } else if name_matches(s, start, end, field_name_bytes(Field::ContentType).as_slice()) {
        Some(Field::ContentType)
    } else if name_matches(s, start, end, field_name_bytes(Field::ContentLength).as_slice()) {
        Some(Field::ContentLength)
    } else {
        None
    }
}

fn bytes_equal(s: &[u8], start: usize, end: usize, other: &[u8]) -> (r: bool)
    requires
        start <= end <= s@.len(),
    ensures
        r == (s@.subrange(start as int, end as int) == other@),
{
    let ghost part = s@.subrange(start as int, end as int);
    if end - start != other.len() {
        return false;
    }
    let mut i: usize = 0;
    while i < other.len()
        invariant
            end - start == other@.len(),
            start <= end <= s@.len(),
            part == s@.subrange(start as int, end as int),
            i <= other@.len(),
            forall|m: int| 0 <= m < i ==> part[m] == other@[m],
        decreases other@.len() - i,
    {
        if s[start + i] != other[i] {
            assert(part[i as int] != other@[i as int]);
            return false;
        }
        i = i + 1;
    }
    assert(part =~= other@);
    true
}

proof fn lemma_digits_monotone(s: Seq<u8>, k: int)
    requires
        0 <= k <= s.len(),
        forall|i: int| 0 <= i < s.len() ==> is_digit(s[i]),
    ensures
        digits_value(s.subrange(0, k)) <= digits_value(s),
    decreases s.len() - k,
{
    if k < s.len() {
        lemma_digits_monotone(s, k + 1);
        assert(s.subrange(0, k + 1).drop_last() =~= s.subrange(0, k));
    } else {
        assert(s.subrange(0, k) =~= s);
    }
}

fn parse_u64(s: &[u8], start: usize, end: usize) -> (r: Option<u64>)
    requires
        start <= end <= s@.len(),
    ensures
        match parse_decimal(s@.subrange(start as int, end as int)) {
            Some(n) => if n <= u64::MAX {
                r == Some(n as u64)
            } else {
                r is None
            },
            None => r is None,
        },
{
    let ghost part = s@.subrange(start as int, end as int);
    if start == end {
        return None;
    }
    let mut value: u64 = 0;
    let mut i = start;
    while i < end
        invariant
            start < end <= s@.len(),
            part == s@.subrange(start as int, end as int),
            start <= i <= end,
            forall|m: int| 0 <= m < i - start ==> is_digit(part[m]),
            value == digits_value(part.subrange(0, i - start)),
        decreases end - i,
    {
        let c = s[i];
        if c < 48 || c > 57 {
            assert(!is_digit(part[i - start]));
            return None;
        }
        let d = (c - 48) as u64;
        assert(part.subrange(0, i + 1 - start).drop_last() =~= part.subrange(0, i - start));
        if value > (u64::MAX - d) / 10 {
            proof {
                let ghost pre = part.subrange(0, i + 1 - start);
                assert(digits_value(pre) == value * 10 + d);
                assert(value * 10 + d > u64::MAX) by (nonlinear_arith)
                    requires
                        value > (u64::MAX - d) / 10,
                        d <= 9,
                ;
                if forall|m: int| 0 <= m < part.len() ==> is_digit(part[m]) {
                    lemma_digits_monotone(part, i + 1 - start);
                }
            }
            return None;
        }
        value = value * 10 + d;
        i = i + 1;
    }
    assert(part.subrange(0, end - start) =~= part);
    Some(value)
}

/// Relies on `std::str::from_utf8`: it accepts exactly the valid UTF-8 byte
/// sequences and yields the characters they encode.
#[verifier::external_body]
fn decode_text(b: &[u8]) -> (r: Option<String>)
    ensures
        r is Some <==> valid_utf8(b@),
        r matches Some(t) ==> t@ == decode_utf8(b@),
{
    match std::str::from_utf8(b) {
        Ok(t) => Some(t.to_string()),
        Err(_) => None,
    }
}

/// Where each known field's value lies in the input.
struct Spans {
    id: Option<(usize, usize)>,
    kind: Option<(usize, usize)>,
    date: Option<(usize, usize)>,
    ip_address: Option<(usize, usize)>,
    content_type: Option<(usize, usize)>,
    content_length: Option<(usize, usize)>,
}

spec fn span_ok(o: Option<(usize, usize)>, len: nat) -> bool {
    match o {
        Some((a, b)) => a <= b <= len,
        None => true,
    }
}

spec fn span_bytes(s: Seq<u8>, o: Option<(usize, usize)>) -> Option<Seq<u8>> {
    match o {
        Some((a, b)) => Some(s.subrange(a as int, b as int)),
        None => None,
    }
}

impl Spans {
    spec fn wf(&self, len: nat) -> bool {
        &&& span_ok(self.id, len)
        &&& span_ok(self.kind, len)
        &&& span_ok(self.date, len)
        &&& span_ok(self.ip_address, len)
        &&& span_ok(self.content_type, len)
        &&& span_ok(self.content_length, len)
    }

    spec fn header(&self, s: Seq<u8>) -> RawHeader {
        RawHeader {
            id: span_bytes(s, self.id),
            kind: span_bytes(s, self.kind),
            date: span_bytes(s, self.date),
            ip_address: span_bytes(s, self.ip_address),
            content_type: span_bytes(s, self.content_type),
            content_length: span_bytes(s, self.content_length),
        }
    }

    fn set(&mut self, f: Field, a: usize, b: usize)
        ensures
            final(self).id == (if f == Field::RecordId { Some((a, b)) } else { old(self).id }),
            final(self).kind == (if f == Field::Type { Some((a, b)) } else { old(self).kind }),
            final(self).date == (if f == Field::Date { Some((a, b)) } else { old(self).date }),
            final(self).ip_address == (if f == Field::IpAddress { Some((a, b)) } else { old(self).ip_address }),
            final(self).content_type == (if f == Field::ContentType { Some((a, b)) } else { old(self).content_type }),
            final(self).content_length == (if f == Field::ContentLength { Some((a, b)) } else { old(self).content_length }),
    {
        match f {
            Field::RecordId => self.id = Some((a, b)),
            Field::Type => self.kind = Some((a, b)),
            Field::Date => self.date = Some((a, b)),
            Field::IpAddress => self.ip_address = Some((a, b)),
            Field::ContentType => self.content_type = Some((a, b)),
            Field::ContentLength => self.content_length = Some((a, b)),
        }
    }
}

fn read_fields(s: &[u8], k0: usize) -> (r: Result<(Spans, usize), FormatError>)
    ensures
        match (r, parse_fields(s@, k0 as int, empty_header())) {
            (Ok((sp, e)), Ok((h, e2))) => sp.header(s@) == h && e == e2 && sp.wf(s@.len())
                && e <= s@.len(),
            (Err(a), Err(b)) => a == b,
            _ => false,
        },
{
    let mut sp = Spans {
        id: None,
        kind: None,
        date: None,
        ip_address: None,
        content_type: None,
        content_length: None,
    };
    let mut k = k0;
    let n = s.len();
    loop
        invariant
            n == s@.len(),
            parse_fields(s@, k0 as int, empty_header()) == parse_fields(
                s@,
                k as int,
                sp.header(s@),
            ),
            sp.wf(s@.len()),
        decreases s@.len() - k,
    {
        match find_crlf_from(s, k) {
            None => {
                return Err(FormatError::MalformedHeader);
            },
            Some(j) => {
                if j == k {
                    return Ok((sp, k + 2));
                }
                let ghost line = s@.subrange(k as int, j as int);
                match find_colon_in(s, k, j) {
                    None => {
                        return Err(FormatError::MalformedHeader);
                    },
                    Some(c) => {
                        let (na, nb) = trim_range(s, k, k + c);
                        let (va, vb) = trim_range(s, k + c + 1, j);
                        assert(line.subrange(0, c as int) =~= s@.subrange(k as int, k + c));
                        assert(line.subrange(c + 1, line.len() as int) =~= s@.subrange(
                            k + c + 1,
                            j as int,
                        ));
                        let ghost old_sp = sp.header(s@);
                        match field_named(s, na, nb) {
                            Some(f) => {
                                sp.set(f, va, vb);
                                assert(sp.header(s@) == with_field(
                                    old_sp,
                                    f,
                                    s@.subrange(va as int, vb as int),
                                ));
                            },
                            None => {},
                        }
                        k = j + 2;
                    },
                }
            },
        }
    }
}

fn decode_span(s: &[u8], span: (usize, usize)) -> (r: Option<String>)
    requires
        span.0 <= span.1 <= s@.len(),
    ensures
        r is Some <==> valid_utf8(s@.subrange(span.0 as int, span.1 as int)),
        r matches Some(t) ==> t@ == decode_utf8(s@.subrange(span.0 as int, span.1 as int)),
{
    decode_text(slice_subrange(s, span.0, span.1))
}

fn decode_optional(s: &[u8], span: Option<(usize, usize)>) -> (r: Result<Option<String>, FormatError>)
    requires
        span_ok(span, s@.len()),
    ensures
        r is Ok <==> opt_valid(span_bytes(s@, span)),
        r matches Ok(o) ==> opt_text(o) == opt_decode(span_bytes(s@, span)),
        r matches Err(e) ==> e == FormatError::InvalidText,
{
    match span {
        None => Ok(None),
        Some(sp) => match decode_span(s, sp) {
            Some(t) => Ok(Some(t)),
            None => Err(FormatError::InvalidText),
        },
    }
}

fn finish(s: &[u8], sp: &Spans, start: usize) -> (r: Result<(ArchiveRecord, usize), FormatError>)
    requires
        sp.wf(s@.len()),
        start <= s@.len(),
    ensures
        match (r, finish_record(s@, sp.header(s@), start as int)) {
            (Ok((rec, e)), Ok((m, e2))) => rec@ == m && e == e2 && rec.content_length
                == rec.body@.len() && 4 <= e <= s@.len(),
            (Err(a), Err(b)) => a == b,
            _ => false,
        },
{
    let id_span = match sp.id {
        Some(x) => x,
        None => return Err(FormatError::MissingField(Field::RecordId)),
    };
    let kind_span = match sp.kind {
        Some(x) => x,
        None => return Err(FormatError::MissingField(Field::Type)),
    };
    let date_span = match sp.date {
        Some(x) => x,
        None => return Err(FormatError::MissingField(Field::Date)),
    };
    let length_span = match sp.content_length {
        Some(x) => x,
        None => return Err(FormatError::MissingField(Field::ContentLength)),
    };
    let n = match parse_u64(s, length_span.0, length_span.1) {
        Some(n) => n,
        None => return Err(FormatError::BadContentLength),
    };
    if n > (s.len() - start) as u64 {
        return Err(FormatError::Truncated);
    }
    let body_end = start + n as usize;
    if s.len() - body_end < 4 || s[body_end] != CR || s[body_end + 1] != LF || s[body_end + 2]
        != CR || s[body_end + 3] != LF {
        proof {
            if body_end + 4 <= s@.len() {
                let tail = s@.subrange(body_end as int, body_end + 4);
                assert(tail[0] == s@[body_end as int]);
                assert(tail[1] == s@[body_end + 1]);
                assert(tail[2] == s@[body_end + 2]);
                assert(tail[3] == s@[body_end + 3]);
            }
        }
        return Err(FormatError::MissingBoundary);
    }
    assert(s@.subrange(body_end as int, body_end + 4) =~= boundary());
    let id = match decode_span(s, id_span) {
        Some(t) => t,
        None => return Err(FormatError::InvalidText),
    };
    let kind = if bytes_equal(s, kind_span.0, kind_span.1, request_name().as_slice()) {
        RecordKind::Request
    } else if bytes_equal(s, kind_span.0, kind_span.1, response_name().as_slice()) {
        RecordKind::Response
    } else {
        match decode_span(s, kind_span) {
            Some(t) => RecordKind::Other(t),
            None => return Err(FormatError::InvalidText),
        }
    };
    let date = match decode_span(s, date_span) {
        Some(t) => t,
        None => return Err(FormatError::InvalidText),
    };
    let ip_address = match decode_optional(s, sp.ip_address) {
        Ok(o) => o,
        Err(e) => return Err(e),
    };
    let content_type = match decode_optional(s, sp.content_type) {
        Ok(o) => o,
        Err(e) => return Err(e),
    };
    let body = slice_to_vec(slice_subrange(s, start, body_end));
    Ok(
        (
            ArchiveRecord { id, kind, date, ip_address, content_type, content_length: n, body },
            body_end + 4,
        ),
    )
}

/// Whether an executable read result is the one that `spec_read_next` describes.
pub open spec fn read_matches(
    r: Result<Option<(ArchiveRecord, usize)>, FormatError>,
    expected: Result<Option<(RecordModel, int)>, FormatError>,
) -> bool {
    match (r, expected) {
        (Ok(None), Ok(None)) => true,
        (Ok(Some((rec, next))), Ok(Some((m, n)))) => rec@ == m && next == n
            && rec.content_length == rec.body@.len(),
        (Err(a), Err(b)) => a == b,
        _ => false,
    }
}

/// Reads the record that starts at `pos` of `input`: `Ok(None)` at the end of
/// the input, else the record and the index where the next one starts. The body
/// is taken by its declared length, whatever bytes it holds.
pub fn read_next(input: &[u8], pos: usize) -> (r: Result<Option<(ArchiveRecord, usize)>, FormatError>)
    ensures
        read_matches(r, spec_read_next(input@, pos as int)),
        r matches Ok(Some((_, next))) ==> pos < next <= input@.len(),
{
    if pos >= input.len() {
        return Ok(None);
    }
    let s = slice_subrange(input, pos, input.len());
    let v = match find_crlf_from(s, 0) {
        Some(v) => v,
        None => return Err(FormatError::BadVersion),
    };
    let prefix = vec![87u8, 65, 82, 67, 47, 49, 46];
    assert(prefix@ =~= version_prefix());
    if v < 7 || !bytes_equal(s, 0, 7, prefix.as_slice()) {
        return Err(FormatError::BadVersion);
    }
    let (sp, start) = match read_fields(s, v + 2) {
        Ok(x) => x,
        Err(e) => return Err(e),
    };
    match finish(s, &sp, start) {
        Ok((rec, used)) => Ok(Some((rec, pos + used))),
        Err(e) => Err(e),
    }
}

/// The first record of `b`, from `pos` on, whose type is `k`; `None` when the
/// stream ends first. A malformed record before it is an error.
pub open spec fn spec_find_first(b: Seq<u8>, pos: int, k: KindModel) -> Result<Option<RecordModel>, FormatError>
    decreases b.len() - pos,
{
    if pos < 0 || pos >= b.len() {
        Ok(None)
    } else {
        match spec_read_next(b, pos) {
            Err(e) => Err(e),
            Ok(None) => Ok(None),
            Ok(Some((m, next))) => {
                if m.kind == k {
                    Ok(Some(m))
                } else if next <= pos {
                    // a record always takes bytes; this keeps the recursion decreasing
                    Ok(None)
                } else {
                    spec_find_first(b, next, k)
                }
            },
        }
    }
}

fn same_kind(a: &RecordKind, b: &RecordKind) -> (r: bool)
    ensures
        r == (a@ == b@),
{
    match (a, b) {
        (RecordKind::Request, RecordKind::Request) => true,
        (RecordKind::Response, RecordKind::Response) => true,
        (RecordKind::Other(x), RecordKind::Other(y)) => *x == *y,
        _ => false,
    }
}

/// Finds the first record of type `kind`, reading records one after another
/// by their declared lengths.
pub fn find_first(input: &[u8], kind: &RecordKind) -> (r: Result<Option<ArchiveRecord>, FormatError>)
    ensures
        match (r, spec_find_first(input@, 0, kind@)) {
            (Ok(None), Ok(None)) => true,
            (Ok(Some(rec)), Ok(Some(m))) => rec@ == m && rec.content_length == rec.body@.len(),
            (Err(a), Err(b)) => a == b,
            _ => false,
        },
{
    let mut pos: usize = 0;
    loop
        invariant
            spec_find_first(input@, 0, kind@) == spec_find_first(input@, pos as int, kind@),
            pos <= input@.len(),
        decreases input@.len() - pos,
    {
        if pos >= input.len() {
            return Ok(None);
        }
        match read_next(input, pos) {
            Err(e) => {
                return Err(e);
            },
            Ok(None) => {
                return Ok(None);
            },
            Ok(Some((rec, next))) => {
                if same_kind(&rec.kind, kind) {
                    return Ok(Some(rec));
                }
                pos = next;
            },
        }
    }
}

// ---------------------------------------------------------------------------
// Round trip

/// A header value that reads back as written: no carriage return inside, and
/// no blank at either end.
pub open spec fn value_safe(v: Seq<u8>) -> bool {
    &&& forall|i: int| 0 <= i < v.len() ==> v[i] != CR
    &&& v.len() == 0 || (!is_blank(v[0]) && !is_blank(v.last()))
}

pub open spec fn text_safe(t: Seq<char>) -> bool {
    value_safe(text_bytes(t))
}

pub open spec fn optional_safe(o: Option<Seq<char>>) -> bool {
    match o {
        Some(t) => text_safe(t),
        None => true,
    }
}

pub open spec fn kind_safe(k: KindModel) -> bool {
    match k {
        KindModel::Other(t) => text_safe(t) && text_bytes(t) != request_bytes() && text_bytes(t)
            != response_bytes(),
        _ => true,
    }
}

/// A record that the format can carry: the declared length is the body's
/// length, and every header value reads back as written.
pub open spec fn model_wf(m: RecordModel) -> bool {
    &&& m.content_length == m.body.len()
    &&& m.content_length <= u64::MAX
    &&& text_safe(m.id)
    &&& kind_safe(m.kind)
    &&& text_safe(m.date)
    &&& optional_safe(m.ip_address)
    &&& optional_safe(m.content_type)
}

impl ArchiveRecord {
    pub open spec fn wf(&self) -> bool {
        model_wf(self@)
    }
}

proof fn lemma_split(s: Seq<u8>, k: int, a: Seq<u8>, b: Seq<u8>)
    requires
        0 <= k,
        k + a.len() + b.len() <= s.len(),
        s.subrange(k, k + a.len() + b.len()) == a + b,
    ensures
        s.subrange(k, k + a.len()) == a,
        s.subrange(k + a.len(), k + a.len() + b.len()) == b,
{
    assert(s.subrange(k, k + a.len()) =~= (a + b).subrange(0, a.len() as int));
    assert((a + b).subrange(0, a.len() as int) =~= a);
    assert(s.subrange(k + a.len(), k + a.len() + b.len()) =~= (a + b).subrange(
        a.len() as int,
        (a.len() + b.len()) as int,
    ));
    assert((a + b).subrange(a.len() as int, (a.len() + b.len()) as int) =~= b);
}

proof fn lemma_find_crlf_at(s: Seq<u8>, k: int, j: int)
    requires
        0 <= k <= j,
        j + 1 < s.len(),
        s[j] == CR,
        s[j + 1] == LF,
        forall|i: int| k <= i < j ==> s[i] != CR,
    ensures
        find_crlf(s, k) == Some(j),
    decreases j - k,
{
    if k < j {
        lemma_find_crlf_at(s, k + 1, j);
    }
}

proof fn lemma_find_colon_at(s: Seq<u8>, k: int, c: int)
    requires
        0 <= k <= c < s.len(),
        s[c] == COLON,
        forall|i: int| k <= i < c ==> s[i] != COLON,
    ensures
        find_colon(s, k) == Some(c),
    decreases c - k,
{
    if k < c {
        lemma_find_colon_at(s, k + 1, c);
    }
}

pub open spec fn name_byte(c: u8) -> bool {
    c == 45 || (65 <= c <= 90) || (97 <= c <= 122)
}

proof fn lemma_field_name_bytes(f: Field)
    ensures
        field_name(f).len() > 0,
        forall|i: int| 0 <= i < field_name(f).len() ==> name_byte(#[trigger] field_name(f)[i]),
{
    let n = field_name(f);
    assert forall|i: int| 0 <= i < n.len() implies name_byte(#[trigger] n[i]) by {
        match f {
            Field::RecordId => {},
            Field::Type => {},
            Field::Date => {},
            Field::IpAddress => {},
            Field::ContentType => {},
            Field::ContentLength => {},
        }
    }
}

proof fn lemma_field_of_name(f: Field)
    ensures
        field_of(field_name(f)) == Some(f),
{
    let t = field_name(Field::Type);
    let d = field_name(Field::Date);
    let r = field_name(Field::RecordId);
    let l = field_name(Field::ContentLength);
    assert(lower_byte(t[5]) != lower_byte(d[5]));
    assert(lower_byte(r[0]) != lower_byte(l[0]));
    assert(same_name(field_name(f), field_name(f)));
}

proof fn lemma_trim_plain(v: Seq<u8>)
    requires
        v.len() == 0 || (!is_blank(v[0]) && !is_blank(v.last())),
    ensures
        trim(v) == v,
{
}

/// Reading one header line written by `header_line` sets that field.
proof fn lemma_read_line(s: Seq<u8>, k: int, f: Field, v: Seq<u8>, h: RawHeader)
    requires
        0 <= k,
        k + header_line(f, v).len() <= s.len(),
        s.subrange(k, k + header_line(f, v).len()) == header_line(f, v),
        value_safe(v),
    ensures
        parse_fields(s, k, h) == parse_fields(
            s,
            k + header_line(f, v).len(),
            with_field(h, f, v),
        ),
{
    let name = field_name(f);
    let line = header_line(f, v);
    let c = k + name.len();
    let j = c + 2 + v.len();
    lemma_field_name_bytes(f);
    assert(s[j] == line[j - k]);
    assert(s[j + 1] == line[j + 1 - k]);
    assert forall|i: int| k <= i < j implies s[i] != CR by {
        assert(s[i] == line[i - k]);
        if i < c {
            assert(line[i - k] == name[i - k]);
        } else if i >= c + 2 {
            assert(line[i - k] == v[i - c - 2]);
        }
    }
    lemma_find_crlf_at(s, k, j);
    let text = s.subrange(k, j);
    assert(text =~= name + separator() + v);
    assert forall|i: int| 0 <= i < name.len() implies text[i] != COLON by {
        assert(text[i] == name[i]);
    }
    lemma_find_colon_at(text, 0, name.len() as int);
    assert(text.subrange(0, name.len() as int) =~= name);
    lemma_trim_plain(name);
    let rest = text.subrange((name.len() + 1) as int, text.len() as int);
    assert(rest =~= seq![SPACE] + v);
    assert(rest.drop_first() =~= v);
    assert(trim_front(rest) == trim_front(v));
    lemma_trim_plain(v);
    assert(split_field(text) == Some((name, v)));
    lemma_field_of_name(f);
}

proof fn lemma_read_optional(s: Seq<u8>, k: int, f: Field, o: Option<Seq<char>>, h: RawHeader)
    requires
        0 <= k,
        k + optional_line(f, o).len() <= s.len(),
        s.subrange(k, k + optional_line(f, o).len()) == optional_line(f, o),
        optional_safe(o),
    ensures
        parse_fields(s, k, h) == parse_fields(
            s,
            k + optional_line(f, o).len(),
            match o {
                Some(t) => with_field(h, f, text_bytes(t)),
                None => h,
            },
        ),
{
    if let Some(t) = o {
        lemma_read_line(s, k, f, text_bytes(t), h);
    }
}

proof fn lemma_decimal(n: nat)
    ensures
        parse_decimal(decimal(n)) == Some(n),
        value_safe(decimal(n)),
        forall|i: int| 0 <= i < decimal(n).len() ==> is_digit(#[trigger] decimal(n)[i]),
    decreases n,
{
    let d = decimal(n);
    if n >= 10 {
        lemma_decimal(n / 10);
        let p = decimal(n / 10);
        assert(d.drop_last() =~= p);
        assert forall|i: int| 0 <= i < d.len() implies is_digit(#[trigger] d[i]) by {
            if i < p.len() {
                assert(d[i] == p[i]);
            }
        }
        assert(digits_value(p) == n / 10);
        assert(digits_value(d) == digits_value(p) * 10 + (n % 10));
        assert((n / 10) * 10 + n % 10 == n);
    } else {
        assert(d.drop_last() =~= Seq::<u8>::empty());
        assert(digits_value(Seq::<u8>::empty()) == 0);
        assert(d.last() == 48 + n);
        assert(digits_value(d) == n);
    }
    assert(is_digit(d[0]));
    assert(is_digit(d.last()));
}

pub open spec fn optional_bytes(o: Option<Seq<char>>) -> Option<Seq<u8>> {
    match o {
        Some(t) => Some(text_bytes(t)),
        None => None,
    }
}

/// The header fields that the header block of `m` is read as.
pub open spec fn header_of(m: RecordModel) -> RawHeader {
    RawHeader {
        id: Some(text_bytes(m.id)),
        kind: Some(kind_bytes(m.kind)),
        date: Some(text_bytes(m.date)),
        ip_address: optional_bytes(m.ip_address),
        content_type: optional_bytes(m.content_type),
        content_length: Some(decimal(m.content_length)),
    }
}

proof fn lemma_read_header(s: Seq<u8>, k: int, m: RecordModel)
    requires
        model_wf(m),
        0 <= k,
        k + header_block(m).len() + 2 <= s.len(),
        s.subrange(k, k + header_block(m).len()) == header_block(m),
        s.subrange(k + header_block(m).len(), k + header_block(m).len() + 2) == crlf(),
    ensures
        parse_fields(s, k, empty_header()) == Ok::<(RawHeader, int), FormatError>(
            (header_of(m), k + header_block(m).len() + 2),
        ),
{
    let l1 = header_line(Field::RecordId, text_bytes(m.id));
    let l2 = header_line(Field::Type, kind_bytes(m.kind));
    let l3 = header_line(Field::Date, text_bytes(m.date));
    let o4 = optional_line(Field::IpAddress, m.ip_address);
    let o5 = optional_line(Field::ContentType, m.content_type);
    let l6 = header_line(Field::ContentLength, decimal(m.content_length));
    let k2: int = k + l1.len();
    let k3: int = k2 + l2.len();
    let k4: int = k3 + l3.len();
    let k5: int = k4 + o4.len();
    let k6: int = k5 + o5.len();
    let k7: int = k6 + l6.len();
    assert(header_block(m) == l1 + l2 + l3 + o4 + o5 + l6);
    lemma_split(s, k, l1 + l2 + l3 + o4 + o5, l6);
    lemma_split(s, k, l1 + l2 + l3 + o4, o5);
    lemma_split(s, k, l1 + l2 + l3, o4);
    lemma_split(s, k, l1 + l2, l3);
    lemma_split(s, k, l1, l2);
    lemma_decimal(m.content_length);
    let h0 = empty_header();
    lemma_read_line(s, k, Field::RecordId, text_bytes(m.id), h0);
    let h1 = with_field(h0, Field::RecordId, text_bytes(m.id));
    lemma_read_line(s, k2, Field::Type, kind_bytes(m.kind), h1);
    let h2 = with_field(h1, Field::Type, kind_bytes(m.kind));
    lemma_read_line(s, k3, Field::Date, text_bytes(m.date), h2);
    let h3 = with_field(h2, Field::Date, text_bytes(m.date));
    lemma_read_optional(s, k4, Field::IpAddress, m.ip_address, h3);
    let h4 = match m.ip_address {
        Some(t) => with_field(h3, Field::IpAddress, text_bytes(t)),
        None => h3,
    };
    lemma_read_optional(s, k5, Field::ContentType, m.content_type, h4);
    let h5 = match m.content_type {
        Some(t) => with_field(h4, Field::ContentType, text_bytes(t)),
        None => h4,
    };
    lemma_read_line(s, k6, Field::ContentLength, decimal(m.content_length), h5);
    let h6 = with_field(h5, Field::ContentLength, decimal(m.content_length));
    assert(h6 == header_of(m));
    assert(s[k7] == s.subrange(k7, k7 + 2)[0]);
    assert(s[k7 + 1] == s.subrange(k7, k7 + 2)[1]);
    lemma_find_crlf_at(s, k7, k7);
}

proof fn lemma_version_line(s: Seq<u8>)
    requires
        10 <= s.len(),
        s.subrange(0, 8) == version_bytes(),
        s.subrange(8, 10) == crlf(),
    ensures
        find_crlf(s, 0) == Some(8int),
        s.subrange(0, 7) == version_prefix(),
{
    assert forall|i: int| 0 <= i < 8 implies s[i] != CR by {
        assert(s[i] == s.subrange(0, 8)[i]);
    }
    assert(s[8] == s.subrange(8, 10)[0]);
    assert(s[9] == s.subrange(8, 10)[1]);
    lemma_find_crlf_at(s, 0, 8);
    assert(s.subrange(0, 7) =~= s.subrange(0, 8).subrange(0, 7));
    assert(s.subrange(0, 8).subrange(0, 7) =~= version_prefix());
}

proof fn lemma_finish(s: Seq<u8>, m: RecordModel, start: int)
    requires
        model_wf(m),
        0 <= start,
        start + m.body.len() + 4 <= s.len(),
        s.subrange(start, start + m.body.len()) == m.body,
        s.subrange(start + m.body.len(), start + m.body.len() + 4) == boundary(),
    ensures
        finish_record(s, header_of(m), start) == Ok::<(RecordModel, int), FormatError>(
            (m, start + m.body.len() + 4),
        ),
{
    broadcast use encode_utf8_valid_utf8, encode_utf8_decode_utf8;

    lemma_decimal(m.content_length);
    let h = header_of(m);
    assert(kind_valid(kind_bytes(m.kind)));
    assert(kind_of(kind_bytes(m.kind)) == m.kind);
    assert(opt_decode(h.ip_address) == m.ip_address);
    assert(opt_decode(h.content_type) == m.content_type);
}

/// Whatever bytes surround it, a well-formed record written by `write_record`
/// is read back by `read_next` with the same header fields and the same body,
/// and reading resumes right after it.
#[verifier::rlimit(50)]
pub proof fn lemma_round_trip(m: RecordModel, prefix: Seq<u8>, rest: Seq<u8>)
    requires
        model_wf(m),
    ensures
        spec_read_next(prefix + encode_record(m) + rest, prefix.len() as int) == Ok::<
            Option<(RecordModel, int)>,
            FormatError,
        >(Some((m, (prefix.len() + encode_record(m).len()) as int))),
{
    let b = prefix + encode_record(m) + rest;
    let p = prefix.len() as int;
    let e = encode_record(m);
    let s = b.subrange(p, b.len() as int);
    assert(s.subrange(0, e.len() as int) =~= e);
    let v = version_bytes();
    let hb = header_block(m);
    let start: int = v.len() + 2int + hb.len() + 2int;
    lemma_split(s, 0, v + crlf() + hb + crlf() + m.body, boundary());
    lemma_split(s, 0, v + crlf() + hb + crlf(), m.body);
    lemma_split(s, 0, v + crlf() + hb, crlf());
    lemma_split(s, 0, v + crlf(), hb);
    lemma_split(s, 0, v, crlf());
    lemma_version_line(s);
    lemma_read_header(s, 10, m);
    lemma_finish(s, m, start);
}

} // verus!
