//! Text extraction: the indexable text of an archived response, by content type.
use vstd::prelude::*;
use crate::archive::{ArchiveRecord, RecordModel};
use crate::text::{chars_of, split_tokens, string_of, tokens, trim, trimmed, views};

verus! {

/// The parts of a `Content-Type` header value.
pub struct ContentType {
    pub mime_type: String,
    pub charset: String,
    pub boundary: String,
}

/// Index of the first `;` in `s` at or after `k`.
pub open spec fn semicolon_at(s: Seq<char>, k: int) -> Option<int>
    decreases s.len() - k,
{
    if k < 0 || k >= s.len() {
        None
    } else if s[k] == ';' {
        Some(k)
    } else {
        semicolon_at(s, k + 1)
    }
}

/// The media type of a header value: what stands before the first `;`.
pub open spec fn mime_of(s: Seq<char>) -> Seq<char> {
    match semicolon_at(s, 0) {
        Some(i) => s.subrange(0, i),
        None => s,
    }
}

impl ContentType {
    /// Reads a `Content-Type` value; parameters after the media type are not kept.
    pub fn from_string(input: &str) -> (r: ContentType)
        ensures
            r.mime_type@ == mime_of(input@),
            r.charset@.len() == 0,
            r.boundary@.len() == 0,
    {
        let cs = chars_of(input);
        let mut i: usize = 0;
        while i < cs.len() && cs[i] != ';'
            invariant
                i <= cs@.len(),
                cs@ == input@,
                semicolon_at(input@, 0) == semicolon_at(input@, i as int),
            decreases cs@.len() - i,
        {
            i = i + 1;
        }
        assert(cs@.subrange(0, cs@.len() as int) =~= cs@);
        ContentType { mime_type: string_of(&cs, 0, i), charset: String::new(), boundary: String::new() }
    }
}

/// Why a record yields no text.
#[derive(Debug, Clone, Copy, PartialEq, Eq, Structural)]
pub enum ExtractError {
    /// The record declares no content type.
    MissingContentType,
    /// The content type is neither plain text nor HTML; the document is skipped.
    UnsupportedContentType,
}

/// Whether two strings hold the same characters.
pub fn text_equals(a: &str, b: &str) -> (r: bool)
    ensures
        r == (a@ == b@),
{
    let x = chars_of(a);
    let y = chars_of(b);
    if x.len() != y.len() {
        return false;
    }
    let mut i: usize = 0;
    while i < x.len()
        invariant
            x@ == a@,
            y@ == b@,
            x@.len() == y@.len(),
            i <= x@.len(),
            forall|m: int| 0 <= m < i ==> x@[m] == y@[m],
        decreases x@.len() - i,
    {
        if x[i] != y[i] {
            return false;
        }
        i = i + 1;
    }
    assert(x@ =~= y@);
    true
}

pub uninterp spec fn utf8_lossy_of(b: Seq<u8>) -> Seq<char>;

/// Relies on `String::from_utf8_lossy`: the characters of `b`, with each
/// invalid sequence replaced by U+FFFD.
#[verifier::external_body]
fn decode_lossy(b: &[u8]) -> (r: String)
    ensures
        r@ == utf8_lossy_of(b@),
{
    String::from_utf8_lossy(b).into_owned()
}

/// One node of a parsed document, in source order: its text if it is a text
/// node, and the name of its parent element if it has one.
pub type HtmlNode = (Option<String>, Option<String>);

pub open spec fn node_view(n: HtmlNode) -> (Option<Seq<char>>, Option<Seq<char>>) {
    (
        match n.0 {
            Some(t) => Some(t@),
            None => None,
        },
        match n.1 {
            Some(p) => Some(p@),
            None => None,
        },
    )
}

pub uninterp spec fn html_nodes_of(html: Seq<char>) -> Seq<(Option<Seq<char>>, Option<Seq<char>>)>;

/// Relies on scraper's `Html::parse_document` and the tree walk in document
/// order from its root element.
#[verifier::external_body]
fn html_nodes(html: &str) -> (r: Vec<HtmlNode>)
    ensures
        r@.map_values(|n: HtmlNode| node_view(n)) == html_nodes_of(html@),
{
    let document = scraper::Html::parse_document(html);
    let mut nodes = Vec::new();
    for node in document.root_element().descendants() {
        let text = match node.value() { scraper::Node::Text(t) => Some(t.to_string()), _ => None };
        let parent = match node.parent() {
            Some(p) => match p.value() { scraper::Node::Element(e) => Some(e.name().to_string()), _ => None },
            None => None,
        };
        nodes.push((text, parent));
    }
    nodes
}

/// Text inside these elements is code or styling, not rendered text.
pub open spec fn hidden_parent(p: Option<Seq<char>>) -> bool {
    p == Some("script"@) || p == Some("style"@)
}

/// Words, each followed by one space.
pub open spec fn spaced(words: Seq<Seq<char>>) -> Seq<char>
    decreases words.len(),
{
    if words.len() == 0 {
        Seq::empty()
    } else {
        spaced(words.drop_last()) + words.last().push(' ')
    }
}

/// What one node adds to the extracted text: unless it is not rendered or is
/// blank, its words, each followed by a space, and a line break.
pub open spec fn node_text(n: (Option<Seq<char>>, Option<Seq<char>>)) -> Seq<char> {
    match n.0 {
        Some(t) => if hidden_parent(n.1) || trimmed(t).len() == 0 {
            Seq::empty()
        } else {
            spaced(tokens(t)).push('\n')
        },
        None => Seq::empty(),
    }
}

fn push_spaced(out: &mut String, words: &Vec<String>)
    ensures
        final(out)@ == old(out)@ + spaced(views(words@)),
{
    let ghost ws = views(words@);
    let mut i: usize = 0;
    while i < words.len()
        invariant
            i <= words@.len(),
            ws == views(words@),
            out@ == old(out)@ + spaced(ws.subrange(0, i as int)),
        decreases words@.len() - i,
    {
        let ghost before = out@;
        assert(ws.subrange(0, i + 1).drop_last() =~= ws.subrange(0, i as int));
        assert(ws[i as int] == words@[i as int]@);
        out.append(words[i].as_str());
        out.push(' ');
        assert(out@ =~= old(out)@ + spaced(ws.subrange(0, i + 1)));
        i = i + 1;
    }
    assert(ws.subrange(0, words@.len() as int) =~= ws);
}

pub open spec fn nodes_text(ns: Seq<(Option<Seq<char>>, Option<Seq<char>>)>) -> Seq<char>
    decreases ns.len(),
{
    if ns.len() == 0 {
        Seq::empty()
    } else {
        nodes_text(ns.drop_last()) + node_text(ns.last())
    }
}

fn is_hidden(p: &Option<String>) -> (r: bool)
    ensures
        r == hidden_parent(
            match p {
                Some(s) => Some(s@),
                None => None,
            },
        ),
{
    match p {
        Some(s) => text_equals(s.as_str(), "script") || text_equals(s.as_str(), "style"),
        None => false,
    }
}

/// The rendered text of an HTML document: each non-blank text run outside
/// `script` and `style` on a line of its own, in source order, its words
/// each followed by one space.
pub fn html_text(html: &str) -> (r: String)
    ensures
        r@ == nodes_text(html_nodes_of(html@)),
{
    let nodes = html_nodes(html);
    let ghost ns = html_nodes_of(html@);
    let mut out = String::new();
    let mut i: usize = 0;
    while i < nodes.len()
        invariant
            i <= nodes@.len(),
            nodes@.map_values(|n: HtmlNode| node_view(n)) == ns,
            out@ == nodes_text(ns.subrange(0, i as int)),
        decreases nodes@.len() - i,
    {
        let ghost before = out@;
        assert(ns.subrange(0, i + 1).drop_last() =~= ns.subrange(0, i as int));
        assert(ns[i as int] == node_view(nodes@[i as int]));
        let node = &nodes[i];
        if let Some(t) = &node.0 {
            if !is_hidden(&node.1) {
                let run = trim(t.as_str());
                if !run.as_str().is_empty() {
                    push_spaced(&mut out, &split_tokens(t.as_str()));
                    out.push('\n');
                }
            }
        }
        assert(out@ =~= before + node_text(ns[i as int]));
        i = i + 1;
    }
    assert(ns.subrange(0, nodes@.len() as int) =~= ns);
    out
}

/// The text that a record yields, by its content type.
pub open spec fn extracted(m: RecordModel) -> Result<Seq<char>, ExtractError> {
    match m.content_type {
        None => Err(ExtractError::MissingContentType),
        Some(ct) => if ct == "text/plain"@ {
            Ok(utf8_lossy_of(m.body))
        } else if ct == "text/html"@ {
            Ok(nodes_text(html_nodes_of(utf8_lossy_of(m.body))))
        } else {
            Err(ExtractError::UnsupportedContentType)
        },
    }
}

/// The indexable text of an archived response: a plain-text body as decoded,
/// an HTML body as its rendered text; other content types are refused.
pub fn extract_text(record: &ArchiveRecord) -> (r: Result<String, ExtractError>)
    ensures
        match (r, extracted(record@)) {
            (Ok(t), Ok(e)) => t@ == e,
            (Err(a), Err(b)) => a == b,
            _ => false,
        },
{
    let ct = match &record.content_type {
        Some(ct) => ct,
        None => return Err(ExtractError::MissingContentType),
    };
    if text_equals(ct.as_str(), "text/plain") {
        Ok(decode_lossy(record.body.as_slice()))
    } else if text_equals(ct.as_str(), "text/html") {
        let body = decode_lossy(record.body.as_slice());
        Ok(html_text(body.as_str()))
    } else {
        Err(ExtractError::UnsupportedContentType)
    }
}

/// Extraction depends on the content type and the body alone: extracting the
/// same content twice, under any record id or date, yields the same text and
/// so the same tokens.
pub proof fn lemma_extraction_repeatable(a: RecordModel, b: RecordModel)
    requires
        a.content_type == b.content_type,
        a.body == b.body,
    ensures
        extracted(a) == extracted(b),
{
}

} // verus!
