//! The content of a message record as plain values, and the law that a
//! record is determined by the bytes it was parsed from and the options.
use vstd::prelude::*;
use crate::body::{fragment_of, quote_runs};
use crate::dto::{
    opt_string, BodyAlternativeDto, BodyDto, BodyFragmentDto, DiagnosticDto, HeaderDto, MessageDto,
    MessageFieldsDto, NestedMessageDto, PartDto, RenderOptions, ThreadHintDto, TruncationDto,
};
use crate::encode::sha256_hex_spec;
use crate::message::{
    diag_matches, message_dto_is, strs_v, DiagSpec,
};
use crate::model::{addrs_v, mime_spec, AddrV};

verus! {

/// A diagnostic as plain values.
pub struct DiagRec {
    pub code: Seq<char>,
    pub severity: Seq<char>,
    pub message: Seq<char>,
    pub json_path: Option<Seq<char>>,
    pub location: Option<Seq<char>>,
}

/// The plain values of a diagnostic.
pub open spec fn diag_rec(d: DiagnosticDto) -> DiagRec {
    DiagRec {
        code: d.code@,
        severity: d.severity@,
        message: d.message@,
        json_path: opt_string(d.json_path),
        location: opt_string(d.location),
    }
}

/// A body fragment as plain values.
pub struct FragRec {
    pub id: Seq<char>,
    pub kind: Seq<char>,
    pub quote_depth: usize,
    pub part_id: Seq<char>,
    pub start: usize,
    pub end: usize,
    pub sha256: Seq<char>,
    pub truncated: bool,
}

/// The plain values of a body fragment.
pub open spec fn frag_rec(f: BodyFragmentDto) -> FragRec {
    FragRec {
        id: f.id@,
        kind: f.kind@,
        quote_depth: f.quote_depth,
        part_id: f.part_id@,
        start: f.byte_range@[0],
        end: f.byte_range@[1],
        sha256: f.sha256@,
        truncated: f.truncated,
    }
}

/// A body alternative as plain values.
pub struct AltRec {
    pub part_id: Seq<char>,
    pub kind: Seq<char>,
    pub text: Option<Seq<char>>,
    pub html: Option<Seq<char>>,
    pub same_as: Option<Seq<char>>,
    pub decoded_size_bytes: usize,
    pub decoded_sha256: Seq<char>,
    pub truncated: bool,
}

/// The plain values of a body alternative.
pub open spec fn alt_rec(a: BodyAlternativeDto) -> AltRec {
    AltRec {
        part_id: a.part_id@,
        kind: a.kind@,
        text: opt_string(a.text),
        html: opt_string(a.html),
        same_as: opt_string(a.same_as),
        decoded_size_bytes: a.decoded_size_bytes,
        decoded_sha256: a.decoded_sha256@,
        truncated: a.truncated,
    }
}

/// A truncation record as plain values.
pub struct TruncRec {
    pub max_body_bytes: usize,
    pub truncated: bool,
    pub omitted_fragment_ids: Seq<Seq<char>>,
}

/// The plain values of a truncation record.
pub open spec fn trunc_rec(t: TruncationDto) -> TruncRec {
    TruncRec {
        max_body_bytes: t.max_body_bytes,
        truncated: t.truncated,
        omitted_fragment_ids: strs_v(t.omitted_fragment_ids@),
    }
}

/// A body as plain values.
pub struct BodyRec {
    pub text: Seq<char>,
    pub html: Option<Seq<char>>,
    pub html_included: bool,
    pub html_available: bool,
    pub text_source: Seq<char>,
    pub text_part_id: Option<Seq<char>>,
    pub alternatives: Seq<AltRec>,
    pub fragments: Seq<FragRec>,
    pub truncation: TruncRec,
}

/// The plain values of a body.
pub open spec fn body_rec(b: BodyDto) -> BodyRec {
    BodyRec {
        text: b.text@,
        html: opt_string(b.html),
        html_included: b.html_included,
        html_available: b.html_available,
        text_source: b.text_source@,
        text_part_id: opt_string(b.text_part_id),
        alternatives: b.alternatives@.map_values(|a: BodyAlternativeDto| alt_rec(a)),
        fragments: b.fragments@.map_values(|f: BodyFragmentDto| frag_rec(f)),
        truncation: trunc_rec(b.truncation),
    }
}

/// A header field as plain values: name, value and raw text.
pub open spec fn header_rec(h: HeaderDto) -> (Seq<char>, Seq<char>, Seq<char>) {
    (h.name@, h.value@, h.raw@)
}

/// A listed part as plain values.
pub struct PartRec {
    pub part_id: Seq<char>,
    pub kind: Seq<char>,
    pub content_type: Seq<char>,
    pub filename: Option<Seq<char>>,
    pub safe_filename: Option<Seq<char>>,
    pub disposition: Option<Seq<char>>,
    pub content_id: Option<Seq<char>>,
    pub decoded_size_bytes: usize,
    pub decoded_sha256: Seq<char>,
    pub extractable: bool,
}

/// The plain values of a listed part.
pub open spec fn part_rec(p: PartDto) -> PartRec {
    PartRec {
        part_id: p.part_id@,
        kind: p.kind@,
        content_type: p.content_type@,
        filename: opt_string(p.filename),
        safe_filename: opt_string(p.safe_filename),
        disposition: opt_string(p.disposition),
        content_id: opt_string(p.content_id),
        decoded_size_bytes: p.decoded_size_bytes,
        decoded_sha256: p.decoded_sha256@,
        extractable: p.extractable,
    }
}

/// A nested message as plain values: part id, Message-ID and subject.
pub open spec fn nested_rec(n: NestedMessageDto) -> (Seq<char>, Option<Seq<char>>, Option<Seq<char>>) {
    (n.part_id@, opt_string(n.message_id), opt_string(n.subject))
}

/// The identity, date and addressing fields as plain values.
pub struct FieldsRec {
    pub node_id: Seq<char>,
    pub message_id: Option<Seq<char>>,
    pub date: Option<Seq<char>>,
    pub date_timestamp: Option<i64>,
    pub date_original: Option<Seq<char>>,
    pub subject: Option<Seq<char>>,
    pub from: Seq<AddrV>,
    pub to: Seq<AddrV>,
    pub cc: Seq<AddrV>,
    pub bcc: Seq<AddrV>,
    pub reply_to: Seq<AddrV>,
    pub in_reply_to: Option<Seq<char>>,
    pub references: Seq<Seq<char>>,
}

/// The plain values of the identity, date and addressing fields.
pub open spec fn fields_rec(f: MessageFieldsDto) -> FieldsRec {
    FieldsRec {
        node_id: f.node_id@,
        message_id: opt_string(f.message_id),
        date: opt_string(f.date),
        date_timestamp: f.date_timestamp,
        date_original: opt_string(f.date_original),
        subject: opt_string(f.subject),
        from: addrs_v(f.from@),
        to: addrs_v(f.to@),
        cc: addrs_v(f.cc@),
        bcc: addrs_v(f.bcc@),
        reply_to: addrs_v(f.reply_to@),
        in_reply_to: opt_string(f.in_reply_to),
        references: strs_v(f.references@),
    }
}

/// The threading hints as plain values.
pub struct HintsRec {
    pub parent_message_id: Option<Seq<char>>,
    pub root_message_id: Option<Seq<char>>,
    pub references: Seq<Seq<char>>,
    pub base_subject: Option<Seq<char>>,
    pub is_reply: bool,
}

/// The plain values of the threading hints.
pub open spec fn hints_rec(t: ThreadHintDto) -> HintsRec {
    HintsRec {
        parent_message_id: opt_string(t.parent_message_id),
        root_message_id: opt_string(t.root_message_id),
        references: strs_v(t.references@),
        base_subject: opt_string(t.base_subject),
        is_reply: t.is_reply,
    }
}

/// Everything a message record holds but the path it was read from.
pub struct RecordRec {
    pub schema_version: Seq<char>,
    pub size_bytes: usize,
    pub sha256: Seq<char>,
    pub message: FieldsRec,
    pub thread: HintsRec,
    pub body: BodyRec,
    pub headers: Seq<(Seq<char>, Seq<char>, Seq<char>)>,
    pub headers_omitted: usize,
    pub parts: Seq<PartRec>,
    pub nested_messages: Seq<(Seq<char>, Option<Seq<char>>, Option<Seq<char>>)>,
    pub diagnostics: Seq<DiagRec>,
}

/// The plain values of a record, all but its path.
pub open spec fn record_rec(d: MessageDto) -> RecordRec {
    RecordRec {
        schema_version: d.schema_version@,
        size_bytes: d.source.size_bytes,
        sha256: d.source.sha256@,
        message: fields_rec(d.message),
        thread: hints_rec(d.thread),
        body: body_rec(d.body),
        headers: d.headers@.map_values(|h: HeaderDto| header_rec(h)),
        headers_omitted: d.headers_omitted,
        parts: d.parts@.map_values(|p: PartDto| part_rec(p)),
        nested_messages: d.nested_messages@.map_values(|n: NestedMessageDto| nested_rec(n)),
        diagnostics: d.diagnostics@.map_values(|x: DiagnosticDto| diag_rec(x)),
    }
}

proof fn lemma_diag_unique(a: DiagnosticDto, b: DiagnosticDto, s: DiagSpec)
    requires
        diag_matches(a, s),
        diag_matches(b, s),
    ensures
        diag_rec(a) == diag_rec(b),
{
}

proof fn lemma_frag_unique(
    a: BodyFragmentDto,
    b: BodyFragmentDto,
    t: Seq<char>,
    part: Seq<char>,
    q: bool,
    d: nat,
    cs: int,
    ce: int,
    tr: bool,
)
    requires
        fragment_of(a, t, part, q, d, cs, ce, tr),
        fragment_of(b, t, part, q, d, cs, ce, tr),
    ensures
        frag_rec(a) == frag_rec(b),
{
}

/// A message record is determined by the bytes it was parsed from, the
/// options and its path: two records of the same bytes under the same
/// options hold the same content, node id included, and differ at most in
/// their paths.
pub proof fn lemma_record_determined(
    d1: MessageDto,
    d2: MessageDto,
    raw: Seq<u8>,
    path1: Seq<char>,
    path2: Seq<char>,
    options: RenderOptions,
)
    requires
        message_dto_is(d1, mime_spec(raw), path1, raw.len() as usize, sha256_hex_spec(raw), options),
        message_dto_is(d2, mime_spec(raw), path2, raw.len() as usize, sha256_hex_spec(raw), options),
    ensures
        record_rec(d1) == record_rec(d2),
        d1.message.node_id@ == d2.message.node_id@,
        d1.source.path@ == path1,
        d2.source.path@ == path2,
{
    let mv = mime_spec(raw);
    let r1 = record_rec(d1);
    let r2 = record_rec(d2);
    assert(r1.message == r2.message);
    assert(r1.thread == r2.thread);
    assert(r1.headers =~= r2.headers);
    assert(r1.parts =~= r2.parts);
    assert(r1.nested_messages =~= r2.nested_messages);
    let specs = crate::message::message_diags(mv, options);
    assert forall|i: int| 0 <= i < r1.diagnostics.len() implies r1.diagnostics[i] == r2.diagnostics[i] by {
        assert(diag_matches(d1.diagnostics@[0 + i], specs[i]));
        assert(diag_matches(d2.diagnostics@[0 + i], specs[i]));
        lemma_diag_unique(d1.diagnostics@[i], d2.diagnostics@[i], specs[i]);
    }
    assert(r1.diagnostics =~= r2.diagnostics);
    let b1 = body_rec(d1.body);
    let b2 = body_rec(d2.body);
    assert(b1.alternatives =~= b2.alternatives);
    let t = crate::message::full_text_of(mv);
    let f = crate::body::fit(t, options.max_body_bytes as int);
    let kept = crate::body::kept_runs(quote_runs(t), f);
    assert forall|i: int| 0 <= i < b1.fragments.len() implies b1.fragments[i] == b2.fragments[i] by {
        lemma_frag_unique(
            d1.body.fragments@[i],
            d2.body.fragments@[i],
            t,
            crate::message::fragment_part_of(mv),
            kept[i].0,
            kept[i].1,
            kept[i].2,
            crate::body::min_of(kept[i].3, f),
            kept[i].3 > f,
        );
    }
    assert(b1.fragments =~= b2.fragments);
    assert(b1.truncation.omitted_fragment_ids =~= b2.truncation.omitted_fragment_ids);
    assert(b1 == b2);
}

} // verus!
