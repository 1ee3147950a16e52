//! The library's own record of a parsed message: every part with its body
//! variant, decoded contents, children and header fields, and the message's
//! body lists, held as plain values and gathered through the accessors of
//! [`crate::mime`].
use vstd::prelude::*;
use crate::dto::{opt_string, AddressDto};
use crate::mime::{
    mime_attachments, mime_body_html, mime_body_text, mime_header_addr_shape, mime_header_attrs,
    mime_header_count, mime_header_ctype, mime_header_group_addr, mime_header_group_len,
    mime_header_id, mime_header_kind, mime_header_list_addr, mime_header_name,
    mime_header_received, mime_header_rfc3339, mime_header_span, mime_header_text,
    mime_header_text_list, mime_header_timestamp, mime_html_body, mime_nested_message_id,
    mime_nested_subject, mime_part_body, mime_part_children, mime_part_contents, mime_part_count,
    mime_part_encoding_problem, mime_text_body, PartBody, ValueKind, ParsedMime, attachments,
    body_html, body_text, header_addr_shape, header_attrs, header_count, header_ctype,
    header_group_addr, header_group_len, header_id, header_kind, header_list_addr, header_name,
    header_received, header_rfc3339, header_span, header_text, header_text_list,
    header_timestamp, html_body, nested_message_id, nested_subject, part_body, part_children,
    part_contents, part_count, part_encoding_problem, raw_bytes, text_body,
};

verus! {

/// Display name and address of one mailbox.
pub type AddrV = (Option<Seq<char>>, Option<Seq<char>>);

/// View of a header value.
pub enum ValueV {
    AddressList(Seq<AddrV>),
    AddressGroups(Seq<Seq<AddrV>>),
    Text(Seq<char>),
    TextList(Seq<Seq<char>>),
    DateTime(i64, Seq<char>),
    ContentType(Seq<char>, Option<Seq<char>>, Option<Seq<(Seq<char>, Seq<char>)>>),
    Received(Seq<char>),
    Empty,
}

/// View of a header field: name id, name text, value, and value byte span.
pub struct HeaderV {
    pub id: u8,
    pub name: Seq<char>,
    pub value: ValueV,
    pub span: (u32, u32),
}

/// View of a MIME part.
pub struct PartV {
    pub body: PartBody,
    pub contents: Seq<u8>,
    pub children: Option<Seq<u32>>,
    pub encoding_problem: bool,
    pub nested_message_id: Option<Seq<char>>,
    pub nested_subject: Option<Seq<char>>,
    pub headers: Seq<HeaderV>,
}

/// View of a parsed message.
pub struct MimeV {
    pub raw: Seq<u8>,
    pub parts: Seq<PartV>,
    pub text_body: Seq<u32>,
    pub html_body: Seq<u32>,
    pub attachments: Seq<u32>,
    pub body_texts: Seq<Option<Seq<char>>>,
    pub body_htmls: Seq<Option<Seq<char>>>,
}

/// View of one mailbox record.
pub open spec fn addr_v(a: AddressDto) -> AddrV {
    (opt_string(a.name), opt_string(a.email))
}

/// The value of header `h` of part `q` of the parse of `raw`.
pub open spec fn value_spec(raw: Seq<u8>, q: int, h: int) -> ValueV {
    match mime_header_kind(raw, q, h) {
        ValueKind::Address => {
            let shape = mime_header_addr_shape(raw, q, h);
            if shape.0 {
                ValueV::AddressGroups(
                    Seq::new(
                        shape.1,
                        |g: int|
                            Seq::new(
                                mime_header_group_len(raw, q, h, g),
                                |k: int| mime_header_group_addr(raw, q, h, g, k),
                            ),
                    ),
                )
            } else {
                ValueV::AddressList(Seq::new(shape.1, |k: int| mime_header_list_addr(raw, q, h, k)))
            }
        },
        ValueKind::Text => ValueV::Text(mime_header_text(raw, q, h)),
        ValueKind::TextList => ValueV::TextList(mime_header_text_list(raw, q, h)),
        ValueKind::DateTime => ValueV::DateTime(
            mime_header_timestamp(raw, q, h),
            mime_header_rfc3339(raw, q, h),
        ),
        ValueKind::ContentType => ValueV::ContentType(
            mime_header_ctype(raw, q, h).0,
            mime_header_ctype(raw, q, h).1,
            mime_header_attrs(raw, q, h),
        ),
        ValueKind::Received => ValueV::Received(mime_header_received(raw, q, h)),
        ValueKind::Empty => ValueV::Empty,
    }
}

/// Header `h` of part `q` of the parse of `raw`.
pub open spec fn header_spec(raw: Seq<u8>, q: int, h: int) -> HeaderV {
    HeaderV {
        id: mime_header_id(raw, q, h),
        name: mime_header_name(raw, q, h),
        value: value_spec(raw, q, h),
        span: mime_header_span(raw, q, h),
    }
}

/// Part `q` of the parse of `raw`.
pub open spec fn part_spec(raw: Seq<u8>, q: int) -> PartV {
    PartV {
        body: mime_part_body(raw, q),
        contents: mime_part_contents(raw, q),
        children: mime_part_children(raw, q),
        encoding_problem: mime_part_encoding_problem(raw, q),
        nested_message_id: mime_nested_message_id(raw, q),
        nested_subject: mime_nested_subject(raw, q),
        headers: Seq::new(mime_header_count(raw, q), |h: int| header_spec(raw, q, h)),
    }
}

/// The parse of `raw`, as `mail_parser` reports it through its accessors.
pub open spec fn mime_spec(raw: Seq<u8>) -> MimeV {
    MimeV {
        raw: raw,
        parts: Seq::new(mime_part_count(raw), |q: int| part_spec(raw, q)),
        text_body: mime_text_body(raw),
        html_body: mime_html_body(raw),
        attachments: mime_attachments(raw),
        body_texts: Seq::new(mime_text_body(raw).len(), |pos: int| mime_body_text(raw, pos)),
        body_htmls: Seq::new(mime_html_body(raw).len(), |pos: int| mime_body_html(raw, pos)),
    }
}

/// A header value.
pub enum ValueModel {
    AddressList(Vec<AddressDto>),
    AddressGroups(Vec<Vec<AddressDto>>),
    Text(String),
    TextList(Vec<String>),
    DateTime(i64, String),
    ContentType(String, Option<String>, Option<Vec<(String, String)>>),
    Received(String),
    Empty,
}

/// View of a list of strings.
pub open spec fn strings_v(v: Seq<String>) -> Seq<Seq<char>> {
    v.map_values(|s: String| s@)
}

/// View of a list of mailboxes.
pub open spec fn addrs_v(v: Seq<AddressDto>) -> Seq<AddrV> {
    v.map_values(|a: AddressDto| addr_v(a))
}

/// View of content-type attributes.
pub open spec fn attrs_v(v: Option<Vec<(String, String)>>) -> Option<Seq<(Seq<char>, Seq<char>)>> {
    match v {
        Some(a) => Some(a@.map_values(|x: (String, String)| (x.0@, x.1@))),
        None => None,
    }
}

impl View for ValueModel {
    type V = ValueV;

    open spec fn view(&self) -> ValueV {
        match self {
            ValueModel::AddressList(v) => ValueV::AddressList(addrs_v(v@)),
            ValueModel::AddressGroups(v) => ValueV::AddressGroups(
                v@.map_values(|g: Vec<AddressDto>| addrs_v(g@)),
            ),
            ValueModel::Text(s) => ValueV::Text(s@),
            ValueModel::TextList(v) => ValueV::TextList(strings_v(v@)),
            ValueModel::DateTime(ts, s) => ValueV::DateTime(*ts, s@),
            ValueModel::ContentType(t, st, a) => ValueV::ContentType(t@, opt_string(*st), attrs_v(*a)),
            ValueModel::Received(s) => ValueV::Received(s@),
            ValueModel::Empty => ValueV::Empty,
        }
    }
}

/// A header field.
pub struct HeaderModel {
    pub id: u8,
    pub name: String,
    pub value: ValueModel,
    pub span: (u32, u32),
}

impl View for HeaderModel {
    type V = HeaderV;

    open spec fn view(&self) -> HeaderV {
        HeaderV { id: self.id, name: self.name@, value: self.value@, span: self.span }
    }
}

/// A MIME part.
pub struct PartModel {
    pub body: PartBody,
    pub contents: Vec<u8>,
    pub children: Option<Vec<u32>>,
    pub encoding_problem: bool,
    pub nested_message_id: Option<String>,
    pub nested_subject: Option<String>,
    pub headers: Vec<HeaderModel>,
}

impl View for PartModel {
    type V = PartV;

    open spec fn view(&self) -> PartV {
        PartV {
            body: self.body,
            contents: self.contents@,
            children: match self.children {
                Some(c) => Some(c@),
                None => None,
            },
            encoding_problem: self.encoding_problem,
            nested_message_id: opt_string(self.nested_message_id),
            nested_subject: opt_string(self.nested_subject),
            headers: self.headers@.map_values(|h: HeaderModel| h@),
        }
    }
}

/// Views of a list of parts.
pub open spec fn parts_v(p: Seq<PartModel>) -> Seq<PartV> {
    p.map_values(|x: PartModel| x@)
}

/// A parsed message held as plain values.
pub struct MimeMessage {
    pub raw: Vec<u8>,
    pub parts: Vec<PartModel>,
    pub text_body: Vec<u32>,
    pub html_body: Vec<u32>,
    pub attachments: Vec<u32>,
    pub body_texts: Vec<Option<String>>,
    pub body_htmls: Vec<Option<String>>,
}

impl View for MimeMessage {
    type V = MimeV;

    open spec fn view(&self) -> MimeV {
        MimeV {
            raw: self.raw@,
            parts: parts_v(self.parts@),
            text_body: self.text_body@,
            html_body: self.html_body@,
            attachments: self.attachments@,
            body_texts: self.body_texts@.map_values(|t: Option<String>| opt_string(t)),
            body_htmls: self.body_htmls@.map_values(|t: Option<String>| opt_string(t)),
        }
    }
}

} // verus!

verus! {

fn gather_addr_list(p: &ParsedMime, q: usize, h: usize, n: usize) -> (r: Vec<AddressDto>)
    requires
        q < mime_part_count(p@),
        h < mime_header_count(p@, q as int),
        mime_header_kind(p@, q as int, h as int) == ValueKind::Address,
        !mime_header_addr_shape(p@, q as int, h as int).0,
        n == mime_header_addr_shape(p@, q as int, h as int).1,
    ensures
        addrs_v(r@) == Seq::new(n as nat, |k: int| mime_header_list_addr(p@, q as int, h as int, k)),
{
    let mut r: Vec<AddressDto> = Vec::new();
    let mut k: usize = 0;
    while k < n
        invariant
            q < mime_part_count(p@),
            h < mime_header_count(p@, q as int),
            mime_header_kind(p@, q as int, h as int) == ValueKind::Address,
            !mime_header_addr_shape(p@, q as int, h as int).0,
            n == mime_header_addr_shape(p@, q as int, h as int).1,
            k <= n,
            r@.len() == k,
            forall|j: int| 0 <= j < k ==> addr_v(#[trigger] r@[j]) == mime_header_list_addr(p@, q as int, h as int, j),
        decreases n - k,
    {
        let a = header_list_addr(p, q, h, k);
        r.push(a);
        k += 1;
    }
    assert(addrs_v(r@) =~= Seq::new(n as nat, |j: int| mime_header_list_addr(p@, q as int, h as int, j)));
    r
}

fn gather_group(p: &ParsedMime, q: usize, h: usize, g: usize) -> (r: Vec<AddressDto>)
    requires
        q < mime_part_count(p@),
        h < mime_header_count(p@, q as int),
        mime_header_kind(p@, q as int, h as int) == ValueKind::Address,
        mime_header_addr_shape(p@, q as int, h as int).0,
        g < mime_header_addr_shape(p@, q as int, h as int).1,
    ensures
        addrs_v(r@) == Seq::new(
            mime_header_group_len(p@, q as int, h as int, g as int),
            |k: int| mime_header_group_addr(p@, q as int, h as int, g as int, k),
        ),
{
    let n = header_group_len(p, q, h, g);
    let mut r: Vec<AddressDto> = Vec::new();
    let mut k: usize = 0;
    while k < n
        invariant
            q < mime_part_count(p@),
            h < mime_header_count(p@, q as int),
            mime_header_kind(p@, q as int, h as int) == ValueKind::Address,
            mime_header_addr_shape(p@, q as int, h as int).0,
            g < mime_header_addr_shape(p@, q as int, h as int).1,
            n == mime_header_group_len(p@, q as int, h as int, g as int),
            k <= n,
            r@.len() == k,
            forall|j: int| 0 <= j < k ==> addr_v(#[trigger] r@[j]) == mime_header_group_addr(p@, q as int, h as int, g as int, j),
        decreases n - k,
    {
        let a = header_group_addr(p, q, h, g, k);
        r.push(a);
        k += 1;
    }
    assert(addrs_v(r@) =~= Seq::new(
        n as nat,
        |j: int| mime_header_group_addr(p@, q as int, h as int, g as int, j),
    ));
    r
}

fn gather_value(p: &ParsedMime, q: usize, h: usize) -> (r: ValueModel)
    requires
        q < mime_part_count(p@),
        h < mime_header_count(p@, q as int),
    ensures
        r@ == value_spec(p@, q as int, h as int),
{
    match header_kind(p, q, h) {
        ValueKind::Address => {
            let (grouped, n) = header_addr_shape(p, q, h);
            if grouped {
                let mut gs: Vec<Vec<AddressDto>> = Vec::new();
                let mut g: usize = 0;
                while g < n
                    invariant
                        q < mime_part_count(p@),
                        h < mime_header_count(p@, q as int),
                        mime_header_kind(p@, q as int, h as int) == ValueKind::Address,
                        mime_header_addr_shape(p@, q as int, h as int) == (grouped, n as nat),
                        grouped,
                        g <= n,
                        gs@.len() == g,
                        forall|i: int| 0 <= i < g ==> addrs_v((#[trigger] gs@[i])@) == Seq::new(
                                    mime_header_group_len(p@, q as int, h as int, i),
                                    |k: int| mime_header_group_addr(p@, q as int, h as int, i, k),
                                ),
                    decreases n - g,
                {
                    let v = gather_group(p, q, h, g);
                    gs.push(v);
                    g += 1;
                }
                assert(gs@.map_values(|v: Vec<AddressDto>| addrs_v(v@)) =~= Seq::new(
                    n as nat,
                    |i: int|
                        Seq::new(
                            mime_header_group_len(p@, q as int, h as int, i),
                            |k: int| mime_header_group_addr(p@, q as int, h as int, i, k),
                        ),
                ));
                ValueModel::AddressGroups(gs)
            } else {
                ValueModel::AddressList(gather_addr_list(p, q, h, n))
            }
        },
        ValueKind::Text => ValueModel::Text(header_text(p, q, h)),
        ValueKind::TextList => {
            let v = header_text_list(p, q, h);
            assert(strings_v(v@) =~= mime_header_text_list(p@, q as int, h as int));
            ValueModel::TextList(v)
        },
        ValueKind::DateTime => ValueModel::DateTime(header_timestamp(p, q, h), header_rfc3339(p, q, h)),
        ValueKind::ContentType => {
            let (t, st) = header_ctype(p, q, h);
            let a = header_attrs(p, q, h);
            proof {
                if a is Some {
                    assert(attrs_v(a).unwrap() =~= mime_header_attrs(p@, q as int, h as int).unwrap());
                }
            }
            ValueModel::ContentType(t, st, a)
        },
        ValueKind::Received => ValueModel::Received(header_received(p, q, h)),
        ValueKind::Empty => ValueModel::Empty,
    }
}

fn gather_headers(p: &ParsedMime, q: usize) -> (r: Vec<HeaderModel>)
    requires
        q < mime_part_count(p@),
    ensures
        r@.map_values(|x: HeaderModel| x@) == Seq::new(
            mime_header_count(p@, q as int),
            |h: int| header_spec(p@, q as int, h),
        ),
{
    let n = header_count(p, q);
    let mut r: Vec<HeaderModel> = Vec::new();
    let mut h: usize = 0;
    while h < n
        invariant
            q < mime_part_count(p@),
            n == mime_header_count(p@, q as int),
            h <= n,
            r@.len() == h,
            forall|j: int| 0 <= j < h ==> (#[trigger] r@[j])@ == header_spec(p@, q as int, j),
        decreases n - h,
    {
        let hm = HeaderModel {
            id: header_id(p, q, h),
            name: header_name(p, q, h),
            value: gather_value(p, q, h),
            span: header_span(p, q, h),
        };
        r.push(hm);
        h += 1;
    }
    assert(r@.map_values(|x: HeaderModel| x@) =~= Seq::new(n as nat, |j: int| header_spec(p@, q as int, j)));
    r
}

fn gather_part(p: &ParsedMime, q: usize) -> (r: PartModel)
    requires
        q < mime_part_count(p@),
    ensures
        r@ == part_spec(p@, q as int),
{
    PartModel {
        body: part_body(p, q),
        contents: part_contents(p, q),
        children: part_children(p, q),
        encoding_problem: part_encoding_problem(p, q),
        nested_message_id: nested_message_id(p, q),
        nested_subject: nested_subject(p, q),
        headers: gather_headers(p, q),
    }
}

/// Reads the whole parse into the library's own record.
pub fn mime_message_of(p: &ParsedMime) -> (r: MimeMessage)
    ensures
        r@ == mime_spec(p@),
{
    let n = part_count(p);
    let mut parts: Vec<PartModel> = Vec::new();
    let mut q: usize = 0;
    while q < n
        invariant
            n == mime_part_count(p@),
            q <= n,
            parts@.len() == q,
            forall|j: int| 0 <= j < q ==> (#[trigger] parts@[j])@ == part_spec(p@, j),
        decreases n - q,
    {
        parts.push(gather_part(p, q));
        q += 1;
    }
    assert(parts@.map_values(|x: PartModel| x@) =~= Seq::new(n as nat, |j: int| part_spec(p@, j)));
    let tb = text_body(p);
    let hb = html_body(p);
    let mut texts: Vec<Option<String>> = Vec::new();
    let mut i: usize = 0;
    while i < tb.len()
        invariant
            tb@ == mime_text_body(p@),
            i <= tb@.len(),
            texts@.len() == i,
            forall|j: int| 0 <= j < i ==> opt_string(#[trigger] texts@[j]) == mime_body_text(p@, j),
        decreases tb.len() - i,
    {
        texts.push(body_text(p, i));
        i += 1;
    }
    assert(texts@.map_values(|t: Option<String>| opt_string(t)) =~= Seq::new(tb@.len(), |j: int| mime_body_text(p@, j)));
    let mut htmls: Vec<Option<String>> = Vec::new();
    let mut i: usize = 0;
    while i < hb.len()
        invariant
            hb@ == mime_html_body(p@),
            i <= hb@.len(),
            htmls@.len() == i,
            forall|j: int| 0 <= j < i ==> opt_string(#[trigger] htmls@[j]) == mime_body_html(p@, j),
        decreases hb.len() - i,
    {
        htmls.push(body_html(p, i));
        i += 1;
    }
    assert(htmls@.map_values(|t: Option<String>| opt_string(t)) =~= Seq::new(hb@.len(), |j: int| mime_body_html(p@, j)));
    let m = MimeMessage {
        raw: raw_bytes(p),
        parts,
        text_body: tb,
        html_body: hb,
        attachments: attachments(p),
        body_texts: texts,
        body_htmls: htmls,
    };
    assert(m@ =~= mime_spec(p@));
    m
}

} // verus!
