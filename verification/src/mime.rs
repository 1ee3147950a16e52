//! The MIME structure of a message as `mail_parser` reports it, read through
//! small accessors. Every accessor's result is named as a function of the
//! message bytes: parsing is deterministic, so the same bytes give the same
//! structure.
use vstd::prelude::*;
use mail_parser::{HeaderValue, MessageParser, PartType};

verus! {

#[verifier::external_type_specification]
#[verifier::external_body]
pub struct ExMessage<'a>(mail_parser::Message<'a>);

/// A message parsed by `mail_parser`, kept with the bytes it was parsed from.
/// It is only made by [`mime_parse`], so its message is always the parse of
/// its bytes.
pub struct ParsedMime<'a> {
    raw: &'a [u8],
    msg: mail_parser::Message<'a>,
}

impl<'a> View for ParsedMime<'a> {
    type V = Seq<u8>;

    closed spec fn view(&self) -> Seq<u8> {
        self.raw@
    }
}

/// Whether `MessageParser::default().parse` accepts `raw`.
pub uninterp spec fn mime_parses(raw: Seq<u8>) -> bool;

/// `MessageParser::default().parse`: parses `raw`, or gives `None` when the
/// bytes hold no message; which inputs those are is named, not restated.
#[verifier::external_body]
pub(crate) fn mime_parse<'a>(raw: &'a [u8]) -> (r: Option<ParsedMime<'a>>)
    ensures
        r is Some <==> mime_parses(raw@),
        r matches Some(p) ==> p@ == raw@,
{
    match MessageParser::default().parse(raw) {
        Some(msg) => Some(ParsedMime { raw, msg }),
        None => None,
    }
}

/// Number of MIME parts of the parse of `raw`.
pub uninterp spec fn mime_part_count(raw: Seq<u8>) -> nat;

/// `Message::parts.len()`: the number of MIME parts, in document order.
#[verifier::external_body]
pub(crate) fn part_count(p: &ParsedMime) -> (r: usize)
    ensures
        r == mime_part_count(p@),
{
    p.msg.parts.len()
}

} // verus!

verus! {

/// The variant of a part's body, as `mail_parser::PartType` tells them apart.
#[derive(Clone, Copy, Debug, PartialEq, Eq, Structural)]
pub enum PartBody {
    Text,
    Html,
    Binary,
    InlineBinary,
    Message,
    Multipart,
}

/// The variant of a header value, as `mail_parser::HeaderValue` tells them apart.
#[derive(Clone, Copy, Debug, PartialEq, Eq, Structural)]
pub enum ValueKind {
    Address,
    Text,
    TextList,
    DateTime,
    ContentType,
    Received,
    Empty,
}

/// Body variant of part `q`.
pub uninterp spec fn mime_part_body(raw: Seq<u8>, q: int) -> PartBody;

/// Variant of `MessagePart::body` of part `q`.
#[verifier::external_body]
pub(crate) fn part_body(p: &ParsedMime, q: usize) -> (r: PartBody)
    requires
        q < mime_part_count(p@),
    ensures
        r == mime_part_body(p@, q as int),
{
    match &p.msg.parts[q].body {
        PartType::Text(_) => PartBody::Text,
        PartType::Html(_) => PartBody::Html,
        PartType::Binary(_) => PartBody::Binary,
        PartType::InlineBinary(_) => PartBody::InlineBinary,
        PartType::Message(_) => PartBody::Message,
        PartType::Multipart(_) => PartBody::Multipart,
    }
}

/// Decoded contents of part `q`.
pub uninterp spec fn mime_part_contents(raw: Seq<u8>, q: int) -> Seq<u8>;

/// `MessagePart::contents`: the decoded bytes of part `q`.
#[verifier::external_body]
pub(crate) fn part_contents(p: &ParsedMime, q: usize) -> (r: Vec<u8>)
    requires
        q < mime_part_count(p@),
    ensures
        r@ == mime_part_contents(p@, q as int),
{
    p.msg.parts[q].contents().to_vec()
}

/// Child part indexes of part `q` when it is multipart.
pub uninterp spec fn mime_part_children(raw: Seq<u8>, q: int) -> Option<Seq<u32>>;

/// `MessagePart::sub_parts`: the indexes of the children of a multipart part.
#[verifier::external_body]
pub(crate) fn part_children(p: &ParsedMime, q: usize) -> (r: Option<Vec<u32>>)
    requires
        q < mime_part_count(p@),
    ensures
        match r {
            Some(v) => mime_part_children(p@, q as int) == Some(v@),
            None => mime_part_children(p@, q as int) is None,
        },
{
    p.msg.parts[q].sub_parts().map(|ids| ids.to_vec())
}

/// Whether part `q` had an encoding problem.
pub uninterp spec fn mime_part_encoding_problem(raw: Seq<u8>, q: int) -> bool;

/// `MessagePart::is_encoding_problem`.
#[verifier::external_body]
pub(crate) fn part_encoding_problem(p: &ParsedMime, q: usize) -> (r: bool)
    requires
        q < mime_part_count(p@),
    ensures
        r == mime_part_encoding_problem(p@, q as int),
{
    p.msg.parts[q].is_encoding_problem
}

/// Message-ID of the message nested in part `q`.
pub uninterp spec fn mime_nested_message_id(raw: Seq<u8>, q: int) -> Option<Seq<char>>;

/// `MessagePart::message` then `Message::message_id`: the Message-ID of the
/// nested message of part `q`, when it has one.
#[verifier::external_body]
pub(crate) fn nested_message_id(p: &ParsedMime, q: usize) -> (r: Option<String>)
    requires
        q < mime_part_count(p@),
    ensures
        crate::dto::opt_string(r) == mime_nested_message_id(p@, q as int),
{
    match p.msg.parts[q].message() {
        Some(m) => m.message_id().map(str::to_string),
        None => None,
    }
}

/// Subject of the message nested in part `q`.
pub uninterp spec fn mime_nested_subject(raw: Seq<u8>, q: int) -> Option<Seq<char>>;

/// `MessagePart::message` then `Message::subject`: the subject of the nested
/// message of part `q`, when it has one.
#[verifier::external_body]
pub(crate) fn nested_subject(p: &ParsedMime, q: usize) -> (r: Option<String>)
    requires
        q < mime_part_count(p@),
    ensures
        crate::dto::opt_string(r) == mime_nested_subject(p@, q as int),
{
    match p.msg.parts[q].message() {
        Some(m) => m.subject().map(str::to_string),
        None => None,
    }
}

/// Number of header fields of part `q`.
pub uninterp spec fn mime_header_count(raw: Seq<u8>, q: int) -> nat;

/// `MessagePart::headers().len()`.
#[verifier::external_body]
pub(crate) fn header_count(p: &ParsedMime, q: usize) -> (r: usize)
    requires
        q < mime_part_count(p@),
    ensures
        r == mime_header_count(p@, q as int),
{
    p.msg.parts[q].headers.len()
}

/// The numeric id of the name of header `h` of part `q`.
pub uninterp spec fn mime_header_id(raw: Seq<u8>, q: int, h: int) -> u8;

/// `HeaderName::id`: one number per known header name, 37 for the others.
#[verifier::external_body]
pub(crate) fn header_id(p: &ParsedMime, q: usize, h: usize) -> (r: u8)
    requires
        q < mime_part_count(p@),
        h < mime_header_count(p@, q as int),
    ensures
        r == mime_header_id(p@, q as int, h as int),
{
    p.msg.parts[q].headers[h].name.id()
}

/// The name text of header `h` of part `q`.
pub uninterp spec fn mime_header_name(raw: Seq<u8>, q: int, h: int) -> Seq<char>;

/// `HeaderName::as_str`: the canonical name of a known header, the name as
/// written for the others.
#[verifier::external_body]
pub(crate) fn header_name(p: &ParsedMime, q: usize, h: usize) -> (r: String)
    requires
        q < mime_part_count(p@),
        h < mime_header_count(p@, q as int),
    ensures
        r@ == mime_header_name(p@, q as int, h as int),
{
    p.msg.parts[q].headers[h].name.as_str().to_string()
}

/// Byte offsets of the value of header `h` of part `q` in the message bytes.
pub uninterp spec fn mime_header_span(raw: Seq<u8>, q: int, h: int) -> (u32, u32);

/// `Header::offset_start` and `Header::offset_end`.
#[verifier::external_body]
pub(crate) fn header_span(p: &ParsedMime, q: usize, h: usize) -> (r: (u32, u32))
    requires
        q < mime_part_count(p@),
        h < mime_header_count(p@, q as int),
    ensures
        r == mime_header_span(p@, q as int, h as int),
{
    let header = &p.msg.parts[q].headers[h];
    (header.offset_start, header.offset_end)
}

/// Variant of the value of header `h` of part `q`.
pub uninterp spec fn mime_header_kind(raw: Seq<u8>, q: int, h: int) -> ValueKind;

/// Variant of `Header::value`.
#[verifier::external_body]
pub(crate) fn header_kind(p: &ParsedMime, q: usize, h: usize) -> (r: ValueKind)
    requires
        q < mime_part_count(p@),
        h < mime_header_count(p@, q as int),
    ensures
        r == mime_header_kind(p@, q as int, h as int),
{
    match &p.msg.parts[q].headers[h].value {
        HeaderValue::Address(_) => ValueKind::Address,
        HeaderValue::Text(_) => ValueKind::Text,
        HeaderValue::TextList(_) => ValueKind::TextList,
        HeaderValue::DateTime(_) => ValueKind::DateTime,
        HeaderValue::ContentType(_) => ValueKind::ContentType,
        HeaderValue::Received(_) => ValueKind::Received,
        HeaderValue::Empty => ValueKind::Empty,
    }
}

/// Text of header `h` of part `q` when its value is a single text.
pub uninterp spec fn mime_header_text(raw: Seq<u8>, q: int, h: int) -> Seq<char>;

/// The text held by a `HeaderValue::Text` value.
#[verifier::external_body]
pub(crate) fn header_text(p: &ParsedMime, q: usize, h: usize) -> (r: String)
    requires
        q < mime_part_count(p@),
        h < mime_header_count(p@, q as int),
        mime_header_kind(p@, q as int, h as int) == ValueKind::Text,
    ensures
        r@ == mime_header_text(p@, q as int, h as int),
{
    match &p.msg.parts[q].headers[h].value {
        HeaderValue::Text(s) => s.to_string(),
        _ => String::new(),
    }
}

/// Items of header `h` of part `q` when its value is a text list.
pub uninterp spec fn mime_header_text_list(raw: Seq<u8>, q: int, h: int) -> Seq<Seq<char>>;

/// The texts held by a `HeaderValue::TextList` value, in order.
#[verifier::external_body]
pub(crate) fn header_text_list(p: &ParsedMime, q: usize, h: usize) -> (r: Vec<String>)
    requires
        q < mime_part_count(p@),
        h < mime_header_count(p@, q as int),
        mime_header_kind(p@, q as int, h as int) == ValueKind::TextList,
    ensures
        r@.len() == mime_header_text_list(p@, q as int, h as int).len(),
        forall|i: int|
            0 <= i < r@.len() ==> (#[trigger] r@[i])@ == mime_header_text_list(
                p@,
                q as int,
                h as int,
            )[i],
{
    match &p.msg.parts[q].headers[h].value {
        HeaderValue::TextList(l) => l.iter().map(|s| s.to_string()).collect(),
        _ => Vec::new(),
    }
}

/// Unix timestamp of header `h` of part `q` when its value is a date.
pub uninterp spec fn mime_header_timestamp(raw: Seq<u8>, q: int, h: int) -> i64;

/// `DateTime::to_timestamp` of a `HeaderValue::DateTime` value.
#[verifier::external_body]
pub(crate) fn header_timestamp(p: &ParsedMime, q: usize, h: usize) -> (r: i64)
    requires
        q < mime_part_count(p@),
        h < mime_header_count(p@, q as int),
        mime_header_kind(p@, q as int, h as int) == ValueKind::DateTime,
    ensures
        r == mime_header_timestamp(p@, q as int, h as int),
{
    match &p.msg.parts[q].headers[h].value {
        HeaderValue::DateTime(d) => d.to_timestamp(),
        _ => 0,
    }
}

/// RFC 3339 text, with its own offset, of header `h` of part `q` when its value is a date.
pub uninterp spec fn mime_header_rfc3339(raw: Seq<u8>, q: int, h: int) -> Seq<char>;

/// `DateTime::to_rfc3339` of a `HeaderValue::DateTime` value.
#[verifier::external_body]
pub(crate) fn header_rfc3339(p: &ParsedMime, q: usize, h: usize) -> (r: String)
    requires
        q < mime_part_count(p@),
        h < mime_header_count(p@, q as int),
        mime_header_kind(p@, q as int, h as int) == ValueKind::DateTime,
    ensures
        r@ == mime_header_rfc3339(p@, q as int, h as int),
{
    match &p.msg.parts[q].headers[h].value {
        HeaderValue::DateTime(d) => d.to_rfc3339(),
        _ => String::new(),
    }
}

/// Type and subtype of header `h` of part `q` when its value is a content type.
pub uninterp spec fn mime_header_ctype(raw: Seq<u8>, q: int, h: int) -> (Seq<char>, Option<Seq<char>>);

/// `ContentType::c_type` and `ContentType::c_subtype` of a `HeaderValue::ContentType` value.
#[verifier::external_body]
pub(crate) fn header_ctype(p: &ParsedMime, q: usize, h: usize) -> (r: (String, Option<String>))
    requires
        q < mime_part_count(p@),
        h < mime_header_count(p@, q as int),
        mime_header_kind(p@, q as int, h as int) == ValueKind::ContentType,
    ensures
        (r.0@, crate::dto::opt_string(r.1)) == mime_header_ctype(p@, q as int, h as int),
{
    match &p.msg.parts[q].headers[h].value {
        HeaderValue::ContentType(c) => (c.c_type.to_string(), c.c_subtype.as_ref().map(|s| s.to_string())),
        _ => (String::new(), None),
    }
}

/// Attributes of header `h` of part `q` when its value is a content type.
pub uninterp spec fn mime_header_attrs(raw: Seq<u8>, q: int, h: int) -> Option<Seq<(Seq<char>, Seq<char>)>>;

/// `ContentType::attributes` of a `HeaderValue::ContentType` value, as
/// `(name, value)` pairs in order.
#[verifier::external_body]
pub(crate) fn header_attrs(p: &ParsedMime, q: usize, h: usize) -> (r: Option<Vec<(String, String)>>)
    requires
        q < mime_part_count(p@),
        h < mime_header_count(p@, q as int),
        mime_header_kind(p@, q as int, h as int) == ValueKind::ContentType,
    ensures
        match r {
            Some(v) => mime_header_attrs(p@, q as int, h as int) matches Some(a) && a.len() == v@.len()
                && forall|i: int| 0 <= i < v@.len() ==> #[trigger] a[i] == (v@[i].0@, v@[i].1@),
            None => mime_header_attrs(p@, q as int, h as int) is None,
        },
{
    match &p.msg.parts[q].headers[h].value {
        HeaderValue::ContentType(c) => c.attributes.as_ref().map(|a| a.iter().map(|x| (x.name.to_string(), x.value.to_string())).collect()),
        _ => None,
    }
}

/// Debug text of header `h` of part `q` when its value is a `Received` trace.
pub uninterp spec fn mime_header_received(raw: Seq<u8>, q: int, h: int) -> Seq<char>;

/// The `Debug` rendering of a `HeaderValue::Received` value.
#[verifier::external_body]
pub(crate) fn header_received(p: &ParsedMime, q: usize, h: usize) -> (r: String)
    requires
        q < mime_part_count(p@),
        h < mime_header_count(p@, q as int),
        mime_header_kind(p@, q as int, h as int) == ValueKind::Received,
    ensures
        r@ == mime_header_received(p@, q as int, h as int),
{
    match &p.msg.parts[q].headers[h].value {
        HeaderValue::Received(received) => format!("{received:?}"),
        _ => String::new(),
    }
}

/// Shape of header `h` of part `q` when its value is an address: whether it
/// is a list of groups, and how many addresses or groups it holds.
pub uninterp spec fn mime_header_addr_shape(raw: Seq<u8>, q: int, h: int) -> (bool, nat);

/// `Address::List` or `Address::Group`, with the number of its entries.
#[verifier::external_body]
pub(crate) fn header_addr_shape(p: &ParsedMime, q: usize, h: usize) -> (r: (bool, usize))
    requires
        q < mime_part_count(p@),
        h < mime_header_count(p@, q as int),
        mime_header_kind(p@, q as int, h as int) == ValueKind::Address,
    ensures
        (r.0, r.1 as nat) == mime_header_addr_shape(p@, q as int, h as int),
{
    match &p.msg.parts[q].headers[h].value {
        HeaderValue::Address(mail_parser::Address::List(l)) => (false, l.len()),
        HeaderValue::Address(mail_parser::Address::Group(g)) => (true, g.len()),
        _ => (false, 0),
    }
}

/// Number of addresses in group `g` of header `h` of part `q`.
pub uninterp spec fn mime_header_group_len(raw: Seq<u8>, q: int, h: int, g: int) -> nat;

/// `Group::addresses.len()` of group `g` of an `Address::Group` value.
#[verifier::external_body]
pub(crate) fn header_group_len(p: &ParsedMime, q: usize, h: usize, g: usize) -> (r: usize)
    requires
        q < mime_part_count(p@),
        h < mime_header_count(p@, q as int),
        mime_header_kind(p@, q as int, h as int) == ValueKind::Address,
        mime_header_addr_shape(p@, q as int, h as int).0,
        g < mime_header_addr_shape(p@, q as int, h as int).1,
    ensures
        r == mime_header_group_len(p@, q as int, h as int, g as int),
{
    match &p.msg.parts[q].headers[h].value {
        HeaderValue::Address(mail_parser::Address::Group(gs)) => gs[g].addresses.len(),
        _ => 0,
    }
}

/// Display name and address of entry `k` of header `h` of part `q`, when its value is a list.
pub uninterp spec fn mime_header_list_addr(raw: Seq<u8>, q: int, h: int, k: int) -> (
    Option<Seq<char>>,
    Option<Seq<char>>,
);

/// `Addr::name` and `Addr::address` of entry `k` of an `Address::List` value.
#[verifier::external_body]
pub(crate) fn header_list_addr(p: &ParsedMime, q: usize, h: usize, k: usize) -> (r:
    crate::dto::AddressDto)
    requires
        q < mime_part_count(p@),
        h < mime_header_count(p@, q as int),
        mime_header_kind(p@, q as int, h as int) == ValueKind::Address,
        !mime_header_addr_shape(p@, q as int, h as int).0,
        k < mime_header_addr_shape(p@, q as int, h as int).1,
    ensures
        (crate::dto::opt_string(r.name), crate::dto::opt_string(r.email))
            == mime_header_list_addr(p@, q as int, h as int, k as int),
{
    match &p.msg.parts[q].headers[h].value {
        HeaderValue::Address(mail_parser::Address::List(l)) => crate::dto::AddressDto {
            name: l[k].name.as_ref().map(|s| s.to_string()),
            email: l[k].address.as_ref().map(|s| s.to_string()),
        },
        _ => crate::dto::AddressDto { name: None, email: None },
    }
}

/// Display name and address of entry `k` of group `g` of header `h` of part `q`.
pub uninterp spec fn mime_header_group_addr(raw: Seq<u8>, q: int, h: int, g: int, k: int) -> (
    Option<Seq<char>>,
    Option<Seq<char>>,
);

/// `Addr::name` and `Addr::address` of entry `k` of group `g` of an `Address::Group` value.
#[verifier::external_body]
pub(crate) fn header_group_addr(p: &ParsedMime, q: usize, h: usize, g: usize, k: usize) -> (r:
    crate::dto::AddressDto)
    requires
        q < mime_part_count(p@),
        h < mime_header_count(p@, q as int),
        mime_header_kind(p@, q as int, h as int) == ValueKind::Address,
        mime_header_addr_shape(p@, q as int, h as int).0,
        g < mime_header_addr_shape(p@, q as int, h as int).1,
        k < mime_header_group_len(p@, q as int, h as int, g as int),
    ensures
        (crate::dto::opt_string(r.name), crate::dto::opt_string(r.email))
            == mime_header_group_addr(p@, q as int, h as int, g as int, k as int),
{
    match &p.msg.parts[q].headers[h].value {
        HeaderValue::Address(mail_parser::Address::Group(gs)) => crate::dto::AddressDto {
            name: gs[g].addresses[k].name.as_ref().map(|s| s.to_string()),
            email: gs[g].addresses[k].address.as_ref().map(|s| s.to_string()),
        },
        _ => crate::dto::AddressDto { name: None, email: None },
    }
}

/// Indexes of the text body parts, in the order `mail_parser` lists them.
pub uninterp spec fn mime_text_body(raw: Seq<u8>) -> Seq<u32>;

/// `Message::text_body`.
#[verifier::external_body]
pub(crate) fn text_body(p: &ParsedMime) -> (r: Vec<u32>)
    ensures
        r@ == mime_text_body(p@),
{
    p.msg.text_body.clone()
}

/// Indexes of the HTML body parts, in the order `mail_parser` lists them.
pub uninterp spec fn mime_html_body(raw: Seq<u8>) -> Seq<u32>;

/// `Message::html_body`.
#[verifier::external_body]
pub(crate) fn html_body(p: &ParsedMime) -> (r: Vec<u32>)
    ensures
        r@ == mime_html_body(p@),
{
    p.msg.html_body.clone()
}

/// Indexes of the attachment parts.
pub uninterp spec fn mime_attachments(raw: Seq<u8>) -> Seq<u32>;

/// `Message::attachments`.
#[verifier::external_body]
pub(crate) fn attachments(p: &ParsedMime) -> (r: Vec<u32>)
    ensures
        r@ == mime_attachments(p@),
{
    p.msg.attachments.clone()
}

/// Text rendition of text body `pos`.
pub uninterp spec fn mime_body_text(raw: Seq<u8>, pos: int) -> Option<Seq<char>>;

/// `Message::body_text`: the text of text body `pos`; an HTML part is
/// converted to plain text.
#[verifier::external_body]
pub(crate) fn body_text(p: &ParsedMime, pos: usize) -> (r: Option<String>)
    ensures
        crate::dto::opt_string(r) == mime_body_text(p@, pos as int),
{
    p.msg.body_text(pos).map(|t| t.into_owned())
}

/// HTML rendition of HTML body `pos`.
pub uninterp spec fn mime_body_html(raw: Seq<u8>, pos: int) -> Option<Seq<char>>;

/// `Message::body_html`: the HTML of HTML body `pos`; a text part is
/// converted to HTML.
#[verifier::external_body]
pub(crate) fn body_html(p: &ParsedMime, pos: usize) -> (r: Option<String>)
    ensures
        crate::dto::opt_string(r) == mime_body_html(p@, pos as int),
{
    p.msg.body_html(pos).map(|t| t.into_owned())
}

/// RFC 5256 base subject of `subject`.
pub uninterp spec fn base_subject_of(subject: Seq<char>) -> Seq<char>;

/// `mail_parser::parsers::fields::thread::thread_name`: the subject without
/// reply and forward prefixes and trailers.
#[verifier::external_body]
pub(crate) fn thread_name(subject: &str) -> (r: String)
    ensures
        r@ == base_subject_of(subject@),
{
    mail_parser::parsers::fields::thread::thread_name(subject).to_string()
}

/// RFC 3339 text in UTC of a Unix timestamp.
pub uninterp spec fn utc_rfc3339(ts: i64) -> Seq<char>;

/// `DateTime::from_timestamp` then `DateTime::to_rfc3339`: the UTC date and
/// time of `ts`, ending in `Z`.
#[verifier::external_body]
pub(crate) fn timestamp_rfc3339(ts: i64) -> (r: String)
    ensures
        r@ == utc_rfc3339(ts),
{
    mail_parser::DateTime::from_timestamp(ts).to_rfc3339()
}

} // verus!

verus! {

/// The bytes the message was parsed from.
pub fn raw_bytes(p: &ParsedMime) -> (r: Vec<u8>)
    ensures
        r@ == p@,
{
    vstd::slice::slice_to_vec(p.raw)
}

} // verus!
