//! The data records that describe a parsed message, a batch of messages and
//! reconstructed threads, together with the options that shape them.
use vstd::prelude::*;

verus! {

/// Version of the output schema carried by every envelope.
pub const SCHEMA_VERSION: &'static str = "1.1";

/// Body bytes kept when no limit is given.
pub const DEFAULT_MAX_BODY_BYTES: usize = 65_536;

/// How quoted runs are shown in prompt-ready text.
#[derive(Clone, Copy, Debug, PartialEq, Eq, Structural)]
pub enum QuoteMode {
    Keep,
    Collapse,
    Drop,
}

/// Which header fields a message record keeps.
#[derive(Clone, Copy, Debug, PartialEq, Eq, Structural)]
pub enum HeaderScope {
    Standard,
    All,
}

impl Default for HeaderScope {
    fn default() -> (r: Self)
        ensures
            r == HeaderScope::Standard,
    {
        HeaderScope::Standard
    }
}

/// Options that shape a message record.
#[derive(Clone, Copy, Debug)]
pub struct RenderOptions {
    pub include_html: bool,
    pub max_body_bytes: usize,
    pub quotes: QuoteMode,
    pub headers: HeaderScope,
}

impl Default for RenderOptions {
    fn default() -> (r: Self)
        ensures
            r.include_html == false,
            r.max_body_bytes == DEFAULT_MAX_BODY_BYTES,
            r.quotes == QuoteMode::Keep,
            r.headers == HeaderScope::Standard,
    {
        RenderOptions {
            include_html: false,
            max_body_bytes: DEFAULT_MAX_BODY_BYTES,
            quotes: QuoteMode::Keep,
            headers: HeaderScope::Standard,
        }
    }
}

/// Where a message came from: its path, size and SHA-256.
#[derive(Clone, Debug)]
pub struct SourceDto {
    pub path: String,
    pub size_bytes: usize,
    pub sha256: String,
}

/// One mailbox: display name and address, either of which may be absent.
#[derive(Clone, Debug)]
pub struct AddressDto {
    pub name: Option<String>,
    pub email: Option<String>,
}

/// The normalized identity, date and addressing fields of a message.
#[derive(Clone, Debug)]
pub struct MessageFieldsDto {
    pub node_id: String,
    pub message_id: Option<String>,
    pub date: Option<String>,
    pub date_timestamp: Option<i64>,
    pub date_original: Option<String>,
    pub subject: Option<String>,
    pub from: Vec<AddressDto>,
    pub to: Vec<AddressDto>,
    pub cc: Vec<AddressDto>,
    pub bcc: Vec<AddressDto>,
    pub reply_to: Vec<AddressDto>,
    pub in_reply_to: Option<String>,
    pub references: Vec<String>,
}

/// Threading hints derived from one message's own headers.
#[derive(Clone, Debug)]
pub struct ThreadHintDto {
    pub parent_message_id: Option<String>,
    pub root_message_id: Option<String>,
    pub references: Vec<String>,
    pub base_subject: Option<String>,
    pub is_reply: bool,
}

/// The decoded body with its alternatives, fragments and truncation record.
#[derive(Clone, Debug)]
pub struct BodyDto {
    pub text: String,
    pub html: Option<String>,
    pub html_included: bool,
    pub html_available: bool,
    pub text_source: String,
    pub text_part_id: Option<String>,
    pub alternatives: Vec<BodyAlternativeDto>,
    pub fragments: Vec<BodyFragmentDto>,
    pub truncation: TruncationDto,
}

/// One text or HTML rendition of the body.
#[derive(Clone, Debug)]
pub struct BodyAlternativeDto {
    pub part_id: String,
    pub kind: String,
    pub text: Option<String>,
    pub html: Option<String>,
    pub same_as: Option<String>,
    pub decoded_size_bytes: usize,
    pub decoded_sha256: String,
    pub truncated: bool,
}

/// A maximal run of body lines that share a quote kind and depth.
#[derive(Clone, Debug)]
pub struct BodyFragmentDto {
    pub id: String,
    pub kind: String,
    pub quote_depth: usize,
    pub part_id: String,
    pub byte_range: [usize; 2],
    pub sha256: String,
    pub truncated: bool,
}

/// What the body byte limit cut away.
#[derive(Clone, Debug)]
pub struct TruncationDto {
    pub max_body_bytes: usize,
    pub truncated: bool,
    pub omitted_fragment_ids: Vec<String>,
}

/// One header field: its name, decoded value and raw text.
#[derive(Clone, Debug)]
pub struct HeaderDto {
    pub name: String,
    pub value: String,
    pub raw: String,
}

/// Metadata of one MIME leaf part.
#[derive(Clone, Debug)]
pub struct PartDto {
    pub part_id: String,
    pub kind: String,
    pub content_type: String,
    pub filename: Option<String>,
    pub safe_filename: Option<String>,
    pub disposition: Option<String>,
    pub content_id: Option<String>,
    pub decoded_size_bytes: usize,
    pub decoded_sha256: String,
    pub extractable: bool,
}

/// Summary of an attached `message/rfc822` part.
#[derive(Clone, Debug)]
pub struct NestedMessageDto {
    pub part_id: String,
    pub message_id: Option<String>,
    pub subject: Option<String>,
}

/// A structured diagnostic with a stable code.
#[derive(Clone, Debug)]
pub struct DiagnosticDto {
    pub code: String,
    pub severity: String,
    pub message: String,
    pub json_path: Option<String>,
    pub location: Option<String>,
}

/// The full record of one parsed message.
#[derive(Clone, Debug)]
pub struct MessageDto {
    pub schema_version: String,
    pub source: SourceDto,
    pub message: MessageFieldsDto,
    pub thread: ThreadHintDto,
    pub body: BodyDto,
    pub headers: Vec<HeaderDto>,
    pub headers_omitted: usize,
    pub parts: Vec<PartDto>,
    pub nested_messages: Vec<NestedMessageDto>,
    pub diagnostics: Vec<DiagnosticDto>,
}

/// A batch of message records with the batch's diagnostics.
#[derive(Clone, Debug)]
pub struct MessagesEnvelopeDto {
    pub schema_version: String,
    pub messages: Vec<MessageDto>,
    pub diagnostics: Vec<DiagnosticDto>,
}

/// Threads reconstructed from the supplied messages.
#[derive(Clone, Debug)]
pub struct ThreadEnvelopeDto {
    pub schema_version: String,
    pub sources: Vec<SourceDto>,
    pub threads: Vec<ThreadDto>,
    pub diagnostics: Vec<DiagnosticDto>,
}

/// One conversation.
#[derive(Clone, Debug)]
pub struct ThreadDto {
    pub thread_id: String,
    pub root_message_id: Option<String>,
    pub base_subject: Option<String>,
    pub participants: Vec<AddressDto>,
    pub time_range: TimeRangeDto,
    pub nodes: Vec<ThreadNodeDto>,
    pub timeline: Vec<String>,
    pub missing_parent_message_ids: Vec<String>,
    pub duplicate_message_ids: Vec<String>,
    pub diagnostics: Vec<DiagnosticDto>,
}

/// Earliest and latest normalized dates of a thread.
#[derive(Clone, Debug)]
pub struct TimeRangeDto {
    pub start: Option<String>,
    pub end: Option<String>,
}

/// One message placed in a thread.
#[derive(Clone, Debug)]
pub struct ThreadNodeDto {
    pub node_id: String,
    pub message_id: Option<String>,
    pub parent_node_id: Option<String>,
    pub child_node_ids: Vec<String>,
    pub depth: usize,
    pub link_confidence: String,
    pub message: MessageDto,
}

} // verus!

verus! {

/// View of an optional borrowed string.
pub open spec fn opt_str(o: Option<&str>) -> Option<Seq<char>> {
    match o {
        Some(s) => Some(s@),
        None => None,
    }
}

/// View of an optional owned string.
pub open spec fn opt_string(o: Option<String>) -> Option<Seq<char>> {
    match o {
        Some(s) => Some(s@),
        None => None,
    }
}

/// Owned copy of an optional borrowed string.
pub fn opt_to_string(o: Option<&str>) -> (r: Option<String>)
    ensures
        opt_string(r) == opt_str(o),
{
    match o {
        Some(s) => Some(crate::text::lit(s)),
        None => None,
    }
}

/// `d` has the given code, severity, message, JSON path and location.
pub open spec fn diag_is(
    d: DiagnosticDto,
    code: Seq<char>,
    severity: Seq<char>,
    message: Seq<char>,
    json_path: Option<Seq<char>>,
    location: Option<Seq<char>>,
) -> bool {
    &&& d.code@ == code
    &&& d.severity@ == severity
    &&& d.message@ == message
    &&& opt_string(d.json_path) == json_path
    &&& opt_string(d.location) == location
}

impl DiagnosticDto {
    /// An `info` diagnostic, which carries no location.
    pub fn info(code: &str, message: &str, json_path: Option<&str>) -> (d: Self)
        ensures
            diag_is(d, code@, "info"@, message@, opt_str(json_path), None),
    {
        DiagnosticDto {
            code: crate::text::lit(code),
            severity: crate::text::lit("info"),
            message: crate::text::lit(message),
            json_path: opt_to_string(json_path),
            location: None,
        }
    }

    /// A `warning` diagnostic.
    pub fn warning(code: &str, message: &str, json_path: Option<&str>, location: Option<&str>) -> (d:
        Self)
        ensures
            diag_is(d, code@, "warning"@, message@, opt_str(json_path), opt_str(location)),
    {
        DiagnosticDto {
            code: crate::text::lit(code),
            severity: crate::text::lit("warning"),
            message: crate::text::lit(message),
            json_path: opt_to_string(json_path),
            location: opt_to_string(location),
        }
    }

    /// An `error` diagnostic.
    pub fn error(code: &str, message: &str, json_path: Option<&str>, location: Option<&str>) -> (d:
        Self)
        ensures
            diag_is(d, code@, "error"@, message@, opt_str(json_path), opt_str(location)),
    {
        DiagnosticDto {
            code: crate::text::lit(code),
            severity: crate::text::lit("error"),
            message: crate::text::lit(message),
            json_path: opt_to_string(json_path),
            location: opt_to_string(location),
        }
    }
}

} // verus!
