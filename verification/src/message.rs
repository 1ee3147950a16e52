//! From a parsed MIME structure to a message record: MIME path ids, part
//! metadata, body alternatives, header lists and the record itself, with the
//! entry points that parse raw bytes and extract one part.
use vstd::prelude::*;
use vstd::utf8::{decode_utf8, encode_utf8, valid_utf8};
use crate::body::{
    build_body_text, fit, fragment_of, is_body_truncated_diag, kept_runs, min_of, omitted_runs,
    quote_runs, run_id, truncate_to_max_body_bytes,
};
use crate::dto::{
    diag_is, opt_string, BodyAlternativeDto, BodyDto, BodyFragmentDto, DiagnosticDto, HeaderDto,
    HeaderScope, MessageDto, MessageFieldsDto, NestedMessageDto, PartDto, RenderOptions, SourceDto,
    ThreadHintDto, TruncationDto, SCHEMA_VERSION,
};
use crate::encode::{
    byte_len, decimal, decimal_chars, sha256_hex, sha256_hex_spec, short_sha256, short_sha256_spec,
};
use crate::fields::{
    address_list, address_list_spec, as_text, as_text_exec, content_type_name,
    content_type_name_spec, find_last_header, header_value_text, header_value_to_string,
    ids_from_header, ids_from_value, last_header_in, normalize_message_id,
    normalize_message_id_spec, raw_header_value, raw_header_value_spec, safe_filename,
    safe_filename_spec, value_of, value_of_exec,
};
use crate::mime::{
    base_subject_of, mime_parse, mime_parses, thread_name, timestamp_rfc3339, utc_rfc3339,
};
use crate::quote::{has_quoted_tail, tail_quote_start_spec, trim_start_chars};
use crate::mime::PartBody;
use crate::model::{addrs_v, AddrV};
use crate::model::{
    mime_message_of, mime_spec, parts_v, HeaderModel, HeaderV, MimeMessage, MimeV, PartModel, PartV,
    ValueModel, ValueV,
};
use crate::text::{
    chars_of, eq_ic, eq_ic_str, lit, push_all, push_str, starts_with_ic, starts_with_ic_exec, str_eq,
    string_of, trim_start, utf8_text,
};

verus! {

/// The child lists of the parts, in part order.
pub open spec fn children_of(parts: Seq<PartV>) -> Seq<Option<Seq<u32>>> {
    parts.map_values(|p: PartV| p.children)
}

/// `{path}.{pos}`.
pub open spec fn child_path(path: Seq<char>, pos: nat) -> Seq<char> {
    path + seq!['.'] + decimal(pos)
}

/// Path assignment from part `idx` down: the part gets `path`, then each
/// child, in order, gets `path.k` for its 1-based position `k`. `fuel` bounds
/// the depth; a part tree never needs more than its number of parts.
pub open spec fn walk(
    ch: Seq<Option<Seq<u32>>>,
    idx: int,
    path: Seq<char>,
    paths: Seq<Seq<char>>,
    fuel: nat,
) -> Seq<Seq<char>>
    decreases fuel, 0nat,
{
    let p1 = if 0 <= idx < paths.len() {
        paths.update(idx, path)
    } else {
        paths
    };
    if fuel == 0 || idx < 0 || idx >= ch.len() {
        p1
    } else {
        match ch[idx] {
            Some(cs) => walk_children(ch, cs, cs.len(), path, p1, (fuel - 1) as nat),
            None => p1,
        }
    }
}

/// Path assignment for the first `n` children `cs` of a part with path `path`.
pub open spec fn walk_children(
    ch: Seq<Option<Seq<u32>>>,
    cs: Seq<u32>,
    n: nat,
    path: Seq<char>,
    paths: Seq<Seq<char>>,
    fuel: nat,
) -> Seq<Seq<char>>
    decreases fuel, n + 1,
{
    if n == 0 || n > cs.len() {
        paths
    } else {
        walk(
            ch,
            cs[n - 1] as int,
            child_path(path, n),
            walk_children(ch, cs, (n - 1) as nat, path, paths, fuel),
            fuel,
        )
    }
}

/// `1`, `2`, ... : the fallback id of each part by position.
pub open spec fn position_ids(n: nat) -> Seq<Seq<char>> {
    Seq::new(n, |i: int| decimal((i + 1) as nat))
}

/// MIME path ids of the parts: the root is `1` and the `k`-th child of a part
/// with id `p` is `p.k`; a part that no walk from the root reaches keeps its
/// 1-based position.
pub open spec fn part_paths_spec(parts: Seq<PartV>) -> Seq<Seq<char>> {
    walk(children_of(parts), 0, seq!['1'], position_ids(parts.len()), parts.len())
}

/// Views of a list of character vectors.
pub open spec fn chars_v(v: Seq<Vec<char>>) -> Seq<Seq<char>> {
    v.map_values(|x: Vec<char>| x@)
}

/// Views of a list of strings.
pub open spec fn strs_v(v: Seq<String>) -> Seq<Seq<char>> {
    v.map_values(|x: String| x@)
}

fn copy_chars(v: &[char]) -> (r: Vec<char>)
    ensures
        r@ == v@,
{
    let mut r: Vec<char> = Vec::new();
    push_all(&mut r, v);
    r
}

fn assign_part_path(
    parts: &Vec<PartModel>,
    idx: usize,
    path: Vec<char>,
    paths: &mut Vec<Vec<char>>,
    fuel: usize,
)
    ensures
        final(paths)@.len() == old(paths)@.len(),
        chars_v(final(paths)@) == walk(
            children_of(parts_v(parts@)),
            idx as int,
            path@,
            chars_v(old(paths)@),
            fuel as nat,
        ),
    decreases fuel,
{
    let ghost ch = children_of(parts_v(parts@));
    let ghost p0 = chars_v(paths@);
    if idx < paths.len() {
        let c = copy_chars(path.as_slice());
        paths.set(idx, c);
        assert(chars_v(paths@) =~= p0.update(idx as int, path@));
    }
    let ghost p1 = chars_v(paths@);
    if fuel == 0 || idx >= parts.len() {
        return;
    }
    assert(ch[idx as int] == match parts@[idx as int].children {
        Some(c) => Some(c@),
        None => None,
    });
    match &parts[idx].children {
        None => {},
        Some(cs) => {
            let mut n: usize = 0;
            while n < cs.len()
                invariant
                    n <= cs@.len(),
                    fuel > 0,
                    paths@.len() == old(paths)@.len(),
                    ch == children_of(parts_v(parts@)),
                    chars_v(paths@) == walk_children(
                        ch,
                        cs@,
                        n as nat,
                        path@,
                        p1,
                        (fuel - 1) as nat,
                    ),
                decreases cs.len() - n,
            {
                let mut cp = copy_chars(path.as_slice());
                cp.push('.');
                let d = decimal_chars(n as u64 + 1);
                push_all(&mut cp, d.as_slice());
                assert(cp@ =~= child_path(path@, (n + 1) as nat));
                assign_part_path(parts, cs[n] as usize, cp, paths, fuel - 1);
                n += 1;
            }
        },
    }
}

/// The MIME path id of every part.
pub fn part_paths(parts: &Vec<PartModel>) -> (r: Vec<String>)
    ensures
        strs_v(r@) == part_paths_spec(parts_v(parts@)),
{
    let n = parts.len();
    let mut paths: Vec<Vec<char>> = Vec::new();
    let mut i: usize = 0;
    while i < n
        invariant
            n == parts@.len(),
            i <= n,
            paths@.len() == i,
            forall|k: int| 0 <= k < i ==> (#[trigger] paths@[k])@ == decimal((k + 1) as nat),
        decreases n - i,
    {
        paths.push(decimal_chars(i as u64 + 1));
        i += 1;
    }
    assert(chars_v(paths@) =~= position_ids(n as nat));
    let mut root: Vec<char> = Vec::new();
    root.push('1');
    assert(root@ =~= seq!['1']);
    assign_part_path(parts, 0, root, &mut paths, n);
    let mut out: Vec<String> = Vec::new();
    let mut k: usize = 0;
    while k < paths.len()
        invariant
            k <= paths@.len(),
            out@.len() == k,
            forall|j: int| 0 <= j < k ==> (#[trigger] out@[j])@ == paths@[j]@,
        decreases paths.len() - k,
    {
        out.push(string_of(paths[k].as_slice()));
        k += 1;
    }
    assert(strs_v(out@) =~= chars_v(paths@));
    out
}

} // verus!

verus! {

/// `ContentType::attribute`: the value of the first attribute named exactly `name`.
pub open spec fn first_attr(a: Seq<(Seq<char>, Seq<char>)>, name: Seq<char>) -> Option<Seq<char>>
    decreases a.len(),
{
    if a.len() == 0 {
        None
    } else if a[0].0 == name {
        Some(a[0].1)
    } else {
        first_attr(a.skip(1), name)
    }
}

/// Attribute `name` of a content-type-like header value.
pub open spec fn attr_of(v: Option<ValueV>, name: Seq<char>) -> Option<Seq<char>> {
    match v {
        Some(ValueV::ContentType(_, _, Some(a))) => first_attr(a, name),
        _ => None,
    }
}

/// `type/subtype` of a content-type-like header value.
pub open spec fn ct_name_of(v: Option<ValueV>) -> Option<Seq<char>> {
    match v {
        Some(ValueV::ContentType(t, st, _)) => Some(content_type_name_spec(t, st)),
        _ => None,
    }
}

/// The bare type of a content-type-like header value.
pub open spec fn ct_type_of(v: Option<ValueV>) -> Option<Seq<char>> {
    match v {
        Some(ValueV::ContentType(t, _, _)) => Some(t),
        _ => None,
    }
}

/// `MimeHeaders::attachment_name`: the disposition's `filename`, else the
/// content type's `name`.
pub open spec fn attachment_name_spec(p: PartV) -> Option<Seq<char>> {
    match attr_of(value_of(p.headers, 22), "filename"@) {
        Some(f) => Some(f),
        None => attr_of(value_of(p.headers, 21), "name"@),
    }
}

/// The content disposition as `type/subtype`, when the part has one.
pub open spec fn disposition_spec(p: PartV) -> Option<Seq<char>> {
    ct_name_of(value_of(p.headers, 22))
}

/// Content type guessed from the body variant when the part declares none.
pub open spec fn inferred_content_type_spec(p: PartV) -> Seq<char> {
    match p.body {
        PartBody::Html => "text/html"@,
        PartBody::Text => "text/plain"@,
        PartBody::Message => "message/rfc822"@,
        _ => "application/octet-stream"@,
    }
}

/// The declared content type as `type/subtype`, else the inferred one.
pub open spec fn content_type_spec(p: PartV) -> Seq<char> {
    match ct_name_of(value_of(p.headers, 21)) {
        Some(c) => c,
        None => inferred_content_type_spec(p),
    }
}

/// `d` is present and equals `w` ignoring ASCII case.
pub open spec fn opt_eq_ic(d: Option<Seq<char>>, w: Seq<char>) -> bool {
    d matches Some(x) && eq_ic(x, w)
}

/// The kind of a listed part: `attachment` (listed as one by the parser or
/// so disposed), `message`, `inline`, `body` (text), or `part`.
pub open spec fn part_kind_spec(p: PartV, listed_attachment: bool) -> Seq<char> {
    let d = disposition_spec(p);
    if listed_attachment || opt_eq_ic(d, "attachment"@) {
        "attachment"@
    } else if p.body == PartBody::Message {
        "message"@
    } else if opt_eq_ic(d, "inline"@) {
        "inline"@
    } else if p.body == PartBody::Text || p.body == PartBody::Html {
        "body"@
    } else {
        "part"@
    }
}

/// Whether a single-part root is listed among the parts: it is a nested
/// message, or it names or declares an attachment.
pub open spec fn root_listed_spec(p: PartV) -> bool {
    p.body != PartBody::Multipart && (p.body == PartBody::Message || attachment_name_spec(p) is Some
        || opt_eq_ic(ct_type_of(value_of(p.headers, 22)), "attachment"@))
}

/// Safe file name of an optional file name.
pub open spec fn opt_safe_filename(f: Option<Seq<char>>) -> Option<Seq<char>> {
    match f {
        Some(x) => Some(safe_filename_spec(x)),
        None => None,
    }
}

/// `d` describes part `p`, whose MIME path id is `part_id`.
pub open spec fn part_dto_is(d: PartDto, p: PartV, part_id: Seq<char>, listed_attachment: bool) -> bool {
    &&& d.part_id@ == part_id
    &&& d.kind@ == part_kind_spec(p, listed_attachment)
    &&& d.content_type@ == content_type_spec(p)
    &&& opt_string(d.filename) == attachment_name_spec(p)
    &&& opt_string(d.safe_filename) == opt_safe_filename(attachment_name_spec(p))
    &&& opt_string(d.disposition) == disposition_spec(p)
    &&& opt_string(d.content_id) == as_text(value_of(p.headers, 17))
    &&& d.decoded_size_bytes == p.contents.len()
    &&& d.decoded_sha256@ == sha256_hex_spec(p.contents)
    &&& d.extractable == (p.body != PartBody::Multipart)
}

fn header_value<'a>(p: &'a PartModel, id: u8) -> (r: Option<&'a ValueModel>)
    ensures
        opt_value_v(r) == value_of(p@.headers, id),
{
    let r = value_of_exec(&p.headers, id);
    assert(p@.headers == p.headers@.map_values(|h: HeaderModel| h@));
    r
}

/// View of an optional borrowed header value.
pub open spec fn opt_value_v(v: Option<&ValueModel>) -> Option<ValueV> {
    match v {
        Some(x) => Some(x@),
        None => None,
    }
}

fn first_attr_exec(a: &Vec<(String, String)>, name: &str) -> (r: Option<String>)
    ensures
        opt_string(r) == first_attr(a@.map_values(|x: (String, String)| (x.0@, x.1@)), name@),
{
    let ghost av = a@.map_values(|x: (String, String)| (x.0@, x.1@));
    assert(av.skip(0) =~= av);
    let mut i: usize = 0;
    while i < a.len()
        invariant
            i <= a@.len(),
            av == a@.map_values(|x: (String, String)| (x.0@, x.1@)),
            first_attr(av.skip(i as int), name@) == first_attr(av, name@),
        decreases a.len() - i,
    {
        assert(av.skip(i as int).skip(1) =~= av.skip(i + 1));
        assert(av.skip(i as int)[0] == av[i as int]);
        if str_eq(a[i].0.as_str(), name) {
            return Some(a[i].1.clone());
        }
        i += 1;
    }
    assert(av.skip(i as int).len() == 0);
    None
}

/// Attribute `name` of a content-type-like header value.
fn attr_exec(v: Option<&ValueModel>, name: &str) -> (r: Option<String>)
    ensures
        opt_string(r) == attr_of(opt_value_v(v), name@),
{
    match v {
        Some(ValueModel::ContentType(_, _, Some(a))) => first_attr_exec(a, name),
        _ => None,
    }
}

/// The attachment file name of a part.
pub fn attachment_name(p: &PartModel) -> (r: Option<String>)
    ensures
        opt_string(r) == attachment_name_spec(p@),
{
    match attr_exec(header_value(p, 22), "filename") {
        Some(f) => Some(f),
        None => attr_exec(header_value(p, 21), "name"),
    }
}

fn ct_name_exec(v: Option<&ValueModel>) -> (r: Option<String>)
    ensures
        opt_string(r) == ct_name_of(opt_value_v(v)),
{
    match v {
        Some(ValueModel::ContentType(t, st, _)) => Some(content_type_name(t, st)),
        _ => None,
    }
}

/// The content type guessed from a part's body variant.
pub fn inferred_content_type(p: &PartModel) -> (r: String)
    ensures
        r@ == inferred_content_type_spec(p@),
{
    match p.body {
        PartBody::Html => lit("text/html"),
        PartBody::Text => lit("text/plain"),
        PartBody::Message => lit("message/rfc822"),
        _ => lit("application/octet-stream"),
    }
}

fn opt_eq_ic_exec(d: &Option<String>, w: &str) -> (r: bool)
    ensures
        r == opt_eq_ic(opt_string(*d), w@),
{
    match d {
        Some(x) => eq_ic_str(x.as_str(), w),
        None => false,
    }
}

/// Whether a single-part root belongs in the part list.
pub fn root_part_should_be_listed(p: &PartModel) -> (r: bool)
    ensures
        r == root_listed_spec(p@),
{
    if p.body == PartBody::Multipart {
        return false;
    }
    let disp_type = match header_value(p, 22) {
        Some(ValueModel::ContentType(t, _, _)) => Some(t.clone()),
        _ => None,
    };
    p.body == PartBody::Message || attachment_name(p).is_some() || opt_eq_ic_exec(
        &disp_type,
        "attachment",
    )
}

/// The metadata record of a listed part.
pub fn part_dto(p: &PartModel, part_id: &str, is_attachment: bool) -> (r: PartDto)
    ensures
        part_dto_is(r, p@, part_id@, is_attachment),
{
    let filename = attachment_name(p);
    let disposition = ct_name_exec(header_value(p, 22));
    let attachment = is_attachment || opt_eq_ic_exec(&disposition, "attachment");
    let kind = if attachment {
        lit("attachment")
    } else if p.body == PartBody::Message {
        lit("message")
    } else if opt_eq_ic_exec(&disposition, "inline") {
        lit("inline")
    } else if p.body == PartBody::Text || p.body == PartBody::Html {
        lit("body")
    } else {
        lit("part")
    };
    let content_type = match ct_name_exec(header_value(p, 21)) {
        Some(c) => c,
        None => inferred_content_type(p),
    };
    let safe = match &filename {
        Some(f) => Some(safe_filename(f.as_str())),
        None => None,
    };
    PartDto {
        part_id: lit(part_id),
        kind,
        content_type,
        filename,
        safe_filename: safe,
        disposition,
        content_id: as_text_exec(header_value(p, 17)),
        decoded_size_bytes: p.contents.len(),
        decoded_sha256: sha256_hex(p.contents.as_slice()),
        extractable: p.body != PartBody::Multipart,
    }
}

} // verus!

verus! {

/// Where one body alternative comes from: its part id, kind, and the text or
/// HTML rendition it carries.
pub struct AltSource {
    pub part_id: Seq<char>,
    pub kind: Seq<char>,
    pub text: Option<Seq<char>>,
    pub html: Option<Seq<char>>,
}

/// Entry `i` of `s`, or nothing past its end.
pub open spec fn opt_at(s: Seq<Option<Seq<char>>>, i: int) -> Option<Seq<char>> {
    if 0 <= i < s.len() {
        s[i]
    } else {
        None
    }
}

/// The path id of part `idx`, or its 1-based position past the end of `paths`.
pub open spec fn path_or_pos(paths: Seq<Seq<char>>, idx: int) -> Seq<char> {
    if 0 <= idx < paths.len() {
        paths[idx]
    } else {
        decimal((idx + 1) as nat)
    }
}

/// Sources of the first `n` text bodies that name an existing part and have text.
pub open spec fn text_sources(mv: MimeV, paths: Seq<Seq<char>>, n: int) -> Seq<AltSource>
    decreases n,
{
    if n <= 0 || n > mv.text_body.len() {
        Seq::empty()
    } else {
        let prev = text_sources(mv, paths, n - 1);
        let idx = mv.text_body[n - 1] as int;
        let t = opt_at(mv.body_texts, n - 1);
        if 0 <= idx < mv.parts.len() && t is Some {
            prev.push(
                AltSource {
                    part_id: path_or_pos(paths, idx),
                    kind: if mv.parts[idx].body == PartBody::Html {
                        "html_text"@
                    } else {
                        "text"@
                    },
                    text: t,
                    html: None,
                },
            )
        } else {
            prev
        }
    }
}

/// Sources of the first `n` HTML bodies that have HTML.
pub open spec fn html_sources(mv: MimeV, paths: Seq<Seq<char>>, n: int) -> Seq<AltSource>
    decreases n,
{
    if n <= 0 || n > mv.html_body.len() {
        Seq::empty()
    } else {
        let prev = html_sources(mv, paths, n - 1);
        let h = opt_at(mv.body_htmls, n - 1);
        if h is Some {
            prev.push(
                AltSource {
                    part_id: path_or_pos(paths, mv.html_body[n - 1] as int),
                    kind: "html"@,
                    text: None,
                    html: h,
                },
            )
        } else {
            prev
        }
    }
}

/// Every alternative's source: the text bodies, then the HTML bodies.
pub open spec fn alt_sources(mv: MimeV, paths: Seq<Seq<char>>) -> Seq<AltSource> {
    text_sources(mv, paths, mv.text_body.len() as int) + html_sources(
        mv,
        paths,
        mv.html_body.len() as int,
    )
}

/// `t` cut to its longest whole-character prefix within `max` bytes.
pub open spec fn cut(t: Seq<char>, max: int) -> Seq<char> {
    t.take(fit(t, max))
}

/// An optional text cut to `max` bytes.
pub open spec fn opt_cut(t: Option<Seq<char>>, max: int) -> Option<Seq<char>> {
    match t {
        Some(x) => Some(cut(x, max)),
        None => None,
    }
}

/// The optional text exceeds `max` bytes.
pub open spec fn opt_over(t: Option<Seq<char>>, max: int) -> bool {
    t matches Some(x) && byte_len(x) > max
}

/// The rendition an alternative is sized and hashed by.
pub open spec fn alt_content(s: AltSource) -> Seq<char> {
    match s.text {
        Some(t) => t,
        None => match s.html {
            Some(h) => h,
            None => Seq::empty(),
        },
    }
}

/// `a` is the alternative made from `s`: the text cut to `max` bytes, the
/// HTML cut likewise and kept only when HTML is included, the size and hash
/// of the full rendition, and no `same_as` yet.
pub open spec fn alternative_is(a: BodyAlternativeDto, s: AltSource, max: int, include_html: bool) -> bool {
    &&& a.part_id@ == s.part_id
    &&& a.kind@ == s.kind
    &&& opt_string(a.text) == opt_cut(s.text, max)
    &&& opt_string(a.html) == (if include_html {
        opt_cut(s.html, max)
    } else {
        None
    })
    &&& a.same_as is None
    &&& a.decoded_size_bytes == byte_len(alt_content(s))
    &&& a.decoded_sha256@ == sha256_hex_spec(encode_utf8(alt_content(s)))
    &&& a.truncated == (opt_over(s.text, max) || (include_html && opt_over(s.html, max)))
}

fn opt_truncate(t: &Option<String>, max: usize) -> (r: (Option<String>, bool))
    ensures
        opt_string(r.0) == opt_cut(opt_string(*t), max as int),
        r.1 == opt_over(opt_string(*t), max as int),
{
    match t {
        Some(x) => {
            let (c, over) = truncate_to_max_body_bytes(x.as_str(), max);
            (Some(c), over)
        },
        None => (None, false),
    }
}

/// One body alternative, before it is compared with the chosen body.
pub fn body_alternative(
    part_id: String,
    kind: &str,
    text: Option<String>,
    html: Option<String>,
    max_body_bytes: usize,
    include_html: bool,
) -> (r: BodyAlternativeDto)
    ensures
        alternative_is(
            r,
            (AltSource {
                part_id: part_id@,
                kind: kind@,
                text: opt_string(text),
                html: opt_string(html),
            }),
            max_body_bytes as int,
            include_html,
        ),
{
    let ghost s = AltSource {
        part_id: part_id@,
        kind: kind@,
        text: opt_string(text),
        html: opt_string(html),
    };
    let content: &str = match &text {
        Some(t) => t.as_str(),
        None => match &html {
            Some(h) => h.as_str(),
            None => "",
        },
    };
    proof {
        if text is None && html is None {
            reveal_strlit("");
        }
    }
    assert(content@ == alt_content(s));
    let bytes = content.as_bytes();
    let size = bytes.len();
    let sha = sha256_hex(bytes);
    let (t, t_over) = opt_truncate(&text, max_body_bytes);
    let (h, h_over) = if include_html {
        opt_truncate(&html, max_body_bytes)
    } else {
        (None, false)
    };
    let r = BodyAlternativeDto {
        part_id,
        kind: lit(kind),
        text: t,
        html: h,
        same_as: None,
        decoded_size_bytes: size,
        decoded_sha256: sha,
        truncated: t_over || h_over,
    };
    r
}

} // verus!

verus! {

fn path_or_pos_exec(paths: &Vec<String>, idx: u32) -> (r: String)
    ensures
        r@ == path_or_pos(strs_v(paths@), idx as int),
{
    if (idx as usize) < paths.len() {
        paths[idx as usize].clone()
    } else {
        string_of(decimal_chars(idx as u64 + 1).as_slice())
    }
}

/// The body alternatives of a message: one per text body part that has text,
/// then one per HTML body part that has HTML.
pub fn build_body_alternatives(m: &MimeMessage, paths: &Vec<String>, max_body_bytes: usize, include_html: bool) -> (r: Vec<BodyAlternativeDto>)
    ensures
        r@.len() == alt_sources(m@, strs_v(paths@)).len(),
        forall|i: int|
            0 <= i < r@.len() ==> alternative_is(
                #[trigger] r@[i],
                alt_sources(m@, strs_v(paths@))[i],
                max_body_bytes as int,
                include_html,
            ),
{
    let ghost mv = m@;
    let ghost pv = strs_v(paths@);
    let mut out: Vec<BodyAlternativeDto> = Vec::new();
    let mut pos: usize = 0;
    while pos < m.text_body.len()
        invariant
            mv == m@,
            pv == strs_v(paths@),
            pos <= m.text_body@.len(),
            out@.len() == text_sources(mv, pv, pos as int).len(),
            forall|i: int|
                0 <= i < out@.len() ==> alternative_is(
                    #[trigger] out@[i],
                    text_sources(mv, pv, pos as int)[i],
                    max_body_bytes as int,
                    include_html,
                ),
        decreases m.text_body.len() - pos,
    {
        let idx = m.text_body[pos];
        assert(mv.text_body[pos as int] == idx);
        if (idx as usize) < m.parts.len() && pos < m.body_texts.len() {
            assert(opt_at(mv.body_texts, pos as int) == opt_string(m.body_texts@[pos as int]));
            match &m.body_texts[pos] {
                Some(t) => {
                    let kind = if m.parts[idx as usize].body == PartBody::Html {
                        "html_text"
                    } else {
                        "text"
                    };
                    assert(mv.parts[idx as int] == m.parts@[idx as int]@);
                    let a = body_alternative(
                        path_or_pos_exec(paths, idx),
                        kind,
                        Some(t.clone()),
                        None,
                        max_body_bytes,
                        include_html,
                    );
                    out.push(a);
                },
                None => {},
            }
        }
        pos += 1;
    }
    let ghost n_text = out@.len();
    let mut pos: usize = 0;
    while pos < m.html_body.len()
        invariant
            mv == m@,
            pv == strs_v(paths@),
            pos <= m.html_body@.len(),
            n_text == text_sources(mv, pv, mv.text_body.len() as int).len(),
            out@.len() == n_text + html_sources(mv, pv, pos as int).len(),
            forall|i: int|
                0 <= i < n_text ==> alternative_is(
                    #[trigger] out@[i],
                    text_sources(mv, pv, mv.text_body.len() as int)[i],
                    max_body_bytes as int,
                    include_html,
                ),
            forall|i: int|
                n_text <= i < out@.len() ==> alternative_is(
                    #[trigger] out@[i],
                    html_sources(mv, pv, pos as int)[i - n_text],
                    max_body_bytes as int,
                    include_html,
                ),
        decreases m.html_body.len() - pos,
    {
        let idx = m.html_body[pos];
        if pos < m.body_htmls.len() {
            assert(opt_at(mv.body_htmls, pos as int) == opt_string(m.body_htmls@[pos as int]));
            match &m.body_htmls[pos] {
                Some(h) => {
                    let a = body_alternative(
                        path_or_pos_exec(paths, idx),
                        "html",
                        None,
                        Some(h.clone()),
                        max_body_bytes,
                        include_html,
                    );
                    out.push(a);
                },
                None => {},
            }
        }
        pos += 1;
    }
    out
}

} // verus!

verus! {

/// Text of bytes `span.0..span.1` of `raw`, when that range exists and is valid UTF-8.
pub open spec fn raw_span_text(raw: Seq<u8>, span: (u32, u32)) -> Option<Seq<char>> {
    let a = span.0 as int;
    let b = span.1 as int;
    if a <= b <= raw.len() && valid_utf8(raw.subrange(a, b)) {
        Some(decode_utf8(raw.subrange(a, b)))
    } else {
        None
    }
}

/// The bytes of `raw` in `span`, decoded, or the empty text.
pub fn span_text(raw: &Vec<u8>, span: (u32, u32)) -> (r: Option<String>)
    ensures
        opt_string(r) == raw_span_text(raw@, span),
{
    let a = span.0 as usize;
    let b = span.1 as usize;
    if a <= b && b <= raw.len() {
        let bytes = vstd::slice::slice_subrange(raw.as_slice(), a, b);
        let r = utf8_text(bytes);
        proof {
            if r is Some {
                vstd::utf8::encode_utf8_decode_utf8(r.unwrap()@);
            }
        }
        r
    } else {
        None
    }
}

/// The header fields of the root part, which are the message's own.
pub open spec fn root_headers(mv: MimeV) -> Seq<HeaderV> {
    if mv.parts.len() > 0 {
        mv.parts[0].headers
    } else {
        Seq::empty()
    }
}

/// Header names kept in the standard scope, in lower case.
pub open spec fn standard_headers() -> Seq<Seq<char>> {
    seq![
        "from"@,
        "sender"@,
        "reply-to"@,
        "to"@,
        "cc"@,
        "bcc"@,
        "subject"@,
        "date"@,
        "message-id"@,
        "in-reply-to"@,
        "references"@,
        "mime-version"@,
        "content-type"@,
        "list-id"@,
        "list-unsubscribe"@,
        "auto-submitted"@,
    ]
}

/// `name` is a standard header name, ignoring ASCII case.
pub open spec fn is_standard_header(name: Seq<char>) -> bool {
    exists|i: int| 0 <= i < standard_headers().len() && eq_ic(name, #[trigger] standard_headers()[i])
}

/// The headers whose names are standard, in order.
pub open spec fn standard_only(hs: Seq<HeaderV>) -> Seq<HeaderV>
    decreases hs.len(),
{
    if hs.len() == 0 {
        hs
    } else if is_standard_header(hs.last().name) {
        standard_only(hs.drop_last()).push(hs.last())
    } else {
        standard_only(hs.drop_last())
    }
}

/// The headers a scope keeps.
pub open spec fn scoped_headers(hs: Seq<HeaderV>, scope: HeaderScope) -> Seq<HeaderV> {
    match scope {
        HeaderScope::All => hs,
        HeaderScope::Standard => standard_only(hs),
    }
}

/// `d` records header `h` of a message whose bytes are `raw`: its name, its
/// value as text, and its raw text (empty when not valid UTF-8).
pub open spec fn header_dto_is(d: HeaderDto, h: HeaderV, raw: Seq<u8>) -> bool {
    &&& d.name@ == h.name
    &&& d.value@ == header_value_text(h.value)
    &&& d.raw@ == match raw_span_text(raw, h.span) {
        Some(t) => t,
        None => Seq::empty(),
    }
}

fn standard_header_names() -> (r: Vec<&'static str>)
    ensures
        r@.map_values(|s: &str| s@) == standard_headers(),
{
    let r = vec![
        "from",
        "sender",
        "reply-to",
        "to",
        "cc",
        "bcc",
        "subject",
        "date",
        "message-id",
        "in-reply-to",
        "references",
        "mime-version",
        "content-type",
        "list-id",
        "list-unsubscribe",
        "auto-submitted",
    ];
    assert(r@.map_values(|s: &str| s@) =~= standard_headers());
    r
}

/// Whether a header name is one the standard scope keeps.
pub fn is_standard_header_exec(name: &str) -> (r: bool)
    ensures
        r == is_standard_header(name@),
{
    let names = standard_header_names();
    let mut i: usize = 0;
    while i < names.len()
        invariant
            i <= names@.len(),
            names@.map_values(|s: &str| s@) == standard_headers(),
            forall|k: int| 0 <= k < i ==> !eq_ic(name@, #[trigger] standard_headers()[k]),
        decreases names.len() - i,
    {
        assert(names@.map_values(|s: &str| s@)[i as int] == names@[i as int]@);
        if eq_ic_str(name, names[i]) {
            return true;
        }
        i += 1;
    }
    false
}

fn header_dto(h: &HeaderModel, raw: &Vec<u8>) -> (r: HeaderDto)
    ensures
        header_dto_is(r, h@, raw@),
{
    let raw_text = match span_text(raw, h.span) {
        Some(t) => t,
        None => String::new(),
    };
    HeaderDto { name: h.name.clone(), value: header_value_to_string(&h.value), raw: raw_text }
}

/// The message's header records in the given scope, and how many the scope left out.
pub fn build_headers(m: &MimeMessage, scope: HeaderScope) -> (r: (Vec<HeaderDto>, usize))
    ensures
        r.0@.len() == scoped_headers(root_headers(m@), scope).len(),
        forall|i: int|
            0 <= i < r.0@.len() ==> header_dto_is(
                #[trigger] r.0@[i],
                scoped_headers(root_headers(m@), scope)[i],
                m@.raw,
            ),
        r.1 == root_headers(m@).len() - scoped_headers(root_headers(m@), scope).len(),
{
    let ghost hs = root_headers(m@);
    let mut out: Vec<HeaderDto> = Vec::new();
    if m.parts.len() == 0 {
        return (out, 0);
    }
    let headers = &m.parts[0].headers;
    assert(hs == headers@.map_values(|h: HeaderModel| h@));
    let keep_all = scope == HeaderScope::All;
    let mut i: usize = 0;
    while i < headers.len()
        invariant
            i <= headers@.len(),
            hs == headers@.map_values(|h: HeaderModel| h@),
            hs == root_headers(m@),
            keep_all == (scope == HeaderScope::All),
            out@.len() == scoped_headers(hs.take(i as int), scope).len(),
            forall|k: int|
                0 <= k < out@.len() ==> header_dto_is(
                    #[trigger] out@[k],
                    scoped_headers(hs.take(i as int), scope)[k],
                    m@.raw,
                ),
            scoped_headers(hs.take(i as int), scope).len() <= i,
        decreases headers.len() - i,
    {
        assert(hs.take(i + 1).drop_last() =~= hs.take(i as int));
        assert(hs.take(i + 1).last() == headers@[i as int]@);
        if keep_all || is_standard_header_exec(headers[i].name.as_str()) {
            out.push(header_dto(&headers[i], &m.raw));
        }
        i += 1;
    }
    assert(hs.take(headers@.len() as int) =~= hs);
    let omitted = headers.len() - out.len();
    (out, omitted)
}

/// A closing tag, `<` then `/` then an ASCII letter, somewhere in `b`.
pub open spec fn has_closing_tag(b: Seq<u8>) -> bool {
    exists|i: int|
        0 <= i && i + 2 < b.len() && #[trigger] b[i] == 0x3c && b[i + 1] == 0x2f && is_ascii_alpha(
            b[i + 2],
        )
}

/// `u8::is_ascii_alphabetic`.
pub open spec fn is_ascii_alpha(c: u8) -> bool {
    (0x41 <= c && c <= 0x5a) || (0x61 <= c && c <= 0x7a)
}

/// Whether text holds a closing tag (`</` and a letter), the cheap signal
/// that a plain-text part embeds raw HTML.
pub fn text_looks_like_html(text: &str) -> (r: bool)
    ensures
        r == has_closing_tag(encode_utf8(text@)),
{
    let b = text.as_bytes();
    let n = b.len();
    if n < 3 {
        return false;
    }
    let mut i: usize = 0;
    while i < n - 2
        invariant
            n == b@.len(),
            n >= 3,
            b@ == encode_utf8(text@),
            forall|k: int|
                0 <= k < i ==> !(#[trigger] b@[k] == 0x3c && b@[k + 1] == 0x2f && is_ascii_alpha(
                    b@[k + 2],
                )),
        decreases n - i,
    {
        let c = b[i + 2];
        if b[i] == 0x3c && b[i + 1] == 0x2f && ((0x41 <= c && c <= 0x5a) || (0x61 <= c && c <= 0x7a)) {
            return true;
        }
        i += 1;
    }
    false
}

} // verus!

verus! {

/// The value of the root header named by `id`.
pub open spec fn root_value(mv: MimeV, id: u8) -> Option<ValueV> {
    value_of(root_headers(mv), id)
}

fn root_value_exec(m: &MimeMessage, id: u8) -> (r: Option<&ValueModel>)
    ensures
        opt_value_v(r) == root_value(m@, id),
{
    if m.parts.len() == 0 {
        return None;
    }
    header_value(&m.parts[0], id)
}

/// The normalized Message-ID.
pub open spec fn message_id_of(mv: MimeV) -> Option<Seq<char>> {
    match as_text(root_value(mv, 12)) {
        Some(t) => normalize_message_id_spec(t),
        None => None,
    }
}

/// The normalized ids of `References`, in order.
pub open spec fn references_of(mv: MimeV) -> Seq<Seq<char>> {
    ids_from_value(root_value(mv, 13))
}

/// First element of a sequence, if any.
pub open spec fn first_of(s: Seq<Seq<char>>) -> Option<Seq<char>> {
    if s.len() > 0 {
        Some(s[0])
    } else {
        None
    }
}

/// Last element of a sequence, if any.
pub open spec fn last_of(s: Seq<Seq<char>>) -> Option<Seq<char>> {
    if s.len() > 0 {
        Some(s.last())
    } else {
        None
    }
}

/// The first normalized id of `In-Reply-To`.
pub open spec fn in_reply_to_of(mv: MimeV) -> Option<Seq<char>> {
    first_of(ids_from_value(root_value(mv, 9)))
}

/// The parent: `In-Reply-To`, else the last reference.
pub open spec fn parent_of(mv: MimeV) -> Option<Seq<char>> {
    match in_reply_to_of(mv) {
        Some(p) => Some(p),
        None => last_of(references_of(mv)),
    }
}

/// The subject text.
pub open spec fn subject_of(mv: MimeV) -> Option<Seq<char>> {
    as_text(root_value(mv, 0))
}

/// The base subject: the subject without reply and forward markers.
pub open spec fn base_subject_of_msg(mv: MimeV) -> Option<Seq<char>> {
    match subject_of(mv) {
        Some(s) => Some(base_subject_of(s)),
        None => None,
    }
}

/// The message is a reply: it names a parent, or its subject starts with `Re:`.
pub open spec fn is_reply_of(mv: MimeV) -> bool {
    parent_of(mv) is Some || (subject_of(mv) matches Some(s) && starts_with_ic(
        trim_start(s),
        "re:"@,
    ))
}

/// The Unix timestamp of the `Date` header.
pub open spec fn date_ts_of(mv: MimeV) -> Option<i64> {
    match root_value(mv, 4) {
        Some(ValueV::DateTime(ts, _)) => Some(ts),
        _ => None,
    }
}

/// The `Date` in UTC, RFC 3339.
pub open spec fn date_text_of(mv: MimeV) -> Option<Seq<char>> {
    match date_ts_of(mv) {
        Some(ts) => Some(utc_rfc3339(ts)),
        None => None,
    }
}

/// The raw `Date` header value, whitespace collapsed, when it is valid UTF-8.
pub open spec fn date_original_of(mv: MimeV) -> Option<Seq<char>> {
    let hs = root_headers(mv);
    match last_header_in(hs, 4, hs.len() as int) {
        Some(i) => match raw_span_text(mv.raw, hs[i].span) {
            Some(t) => Some(raw_header_value_spec(t, "Date"@)),
            None => None,
        },
        None => None,
    }
}

/// The text hashed to name a message node: `{message_id}:{sha256}`, or the
/// SHA-256 alone.
pub open spec fn node_seed(message_id: Option<Seq<char>>, sha: Seq<char>) -> Seq<char> {
    match message_id {
        Some(id) => id + ":"@ + sha,
        None => sha,
    }
}

/// `msg_` and the short hash of the node seed.
pub open spec fn node_id_spec(message_id: Option<Seq<char>>, sha: Seq<char>) -> Seq<char> {
    "msg_"@ + short_sha256_spec(encode_utf8(node_seed(message_id, sha)))
}

/// Views of a list of mailboxes.
pub open spec fn addrs_of(mv: MimeV, id: u8) -> Seq<AddrV> {
    address_list_spec(root_value(mv, id))
}

/// `f` holds the identity, date and addressing fields of `mv`, whose source
/// hashes to `sha`.
pub open spec fn fields_are(f: MessageFieldsDto, mv: MimeV, sha: Seq<char>) -> bool {
    &&& f.node_id@ == node_id_spec(message_id_of(mv), sha)
    &&& f.node_id@.len() == 20
    &&& opt_string(f.message_id) == message_id_of(mv)
    &&& opt_string(f.date) == date_text_of(mv)
    &&& f.date_timestamp == date_ts_of(mv)
    &&& opt_string(f.date_original) == date_original_of(mv)
    &&& opt_string(f.subject) == subject_of(mv)
    &&& addrs_v(f.from@) == addrs_of(mv, 1)
    &&& addrs_v(f.to@) == addrs_of(mv, 2)
    &&& addrs_v(f.cc@) == addrs_of(mv, 3)
    &&& addrs_v(f.bcc@) == addrs_of(mv, 5)
    &&& addrs_v(f.reply_to@) == addrs_of(mv, 6)
    &&& opt_string(f.in_reply_to) == in_reply_to_of(mv)
    &&& strs_v(f.references@) == references_of(mv)
}

/// `t` holds the threading hints of `mv`.
pub open spec fn hints_are(t: ThreadHintDto, mv: MimeV) -> bool {
    &&& opt_string(t.parent_message_id) == parent_of(mv)
    &&& opt_string(t.root_message_id) == first_of(references_of(mv))
    &&& strs_v(t.references@) == references_of(mv)
    &&& opt_string(t.base_subject) == base_subject_of_msg(mv)
    &&& t.is_reply == is_reply_of(mv)
}

pub(crate) fn copy_strings(v: &Vec<String>) -> (r: Vec<String>)
    ensures
        strs_v(r@) == strs_v(v@),
{
    let mut r: Vec<String> = Vec::new();
    let mut i: usize = 0;
    while i < v.len()
        invariant
            i <= v@.len(),
            r@.len() == i,
            forall|k: int| 0 <= k < i ==> (#[trigger] r@[k])@ == v@[k]@,
        decreases v.len() - i,
    {
        r.push(v[i].clone());
        i += 1;
    }
    assert(strs_v(r@) =~= strs_v(v@));
    r
}

fn first_string(v: &Vec<String>) -> (r: Option<String>)
    ensures
        opt_string(r) == first_of(strs_v(v@)),
{
    if v.len() > 0 {
        Some(v[0].clone())
    } else {
        None
    }
}

fn last_string(v: &Vec<String>) -> (r: Option<String>)
    ensures
        opt_string(r) == last_of(strs_v(v@)),
{
    if v.len() > 0 {
        Some(v[v.len() - 1].clone())
    } else {
        None
    }
}

fn clone_opt(o: &Option<String>) -> (r: Option<String>)
    ensures
        opt_string(r) == opt_string(*o),
{
    match o {
        Some(s) => Some(s.clone()),
        None => None,
    }
}

fn date_original_exec(m: &MimeMessage) -> (r: Option<String>)
    ensures
        opt_string(r) == date_original_of(m@),
{
    if m.parts.len() == 0 {
        return None;
    }
    let hs = &m.parts[0].headers;
    assert(root_headers(m@) == hs@.map_values(|h: HeaderModel| h@));
    match find_last_header(hs, 4) {
        Some(i) => match span_text(&m.raw, hs[i].span) {
            Some(t) => Some(raw_header_value(t.as_str(), "Date")),
            None => None,
        },
        None => None,
    }
}

/// The identity, date and addressing fields of a message, and its threading
/// hints; `sha256` is the hash of its source bytes.
pub fn build_fields(m: &MimeMessage, sha256: &String) -> (r: (MessageFieldsDto, ThreadHintDto))
    ensures
        fields_are(r.0, m@, sha256@),
        hints_are(r.1, m@),
{
    let message_id = match as_text_exec(root_value_exec(m, 12)) {
        Some(t) => normalize_message_id(t.as_str()),
        None => None,
    };
    let references = ids_from_header(root_value_exec(m, 13));
    let irt_ids = ids_from_header(root_value_exec(m, 9));
    let in_reply_to = first_string(&irt_ids);
    let parent = match &in_reply_to {
        Some(p) => Some(p.clone()),
        None => last_string(&references),
    };
    let root = first_string(&references);
    let subject = as_text_exec(root_value_exec(m, 0));
    let base_subject = match &subject {
        Some(s) => Some(thread_name(s.as_str())),
        None => None,
    };
    let mut seed: Vec<char> = Vec::new();
    match &message_id {
        Some(id) => {
            push_str(&mut seed, id.as_str());
            push_str(&mut seed, ":");
            push_str(&mut seed, sha256.as_str());
        },
        None => {
            push_str(&mut seed, sha256.as_str());
        },
    }
    assert(seed@ =~= node_seed(opt_string(message_id), sha256@));
    let seed_text = string_of(seed.as_slice());
    let mut node: Vec<char> = Vec::new();
    push_str(&mut node, "msg_");
    let short = short_sha256(seed_text.as_str().as_bytes());
    push_all(&mut node, short.as_slice());
    proof {
        reveal_strlit("msg_");
    }
    let is_reply = parent.is_some() || match &subject {
        Some(s) => {
            let cs = chars_of(s.as_str());
            let t = trim_start_chars(cs.as_slice());
            let p = chars_of("re:");
            starts_with_ic_exec(t.as_slice(), p.as_slice())
        },
        None => false,
    };
    let (date, date_ts) = match root_value_exec(m, 4) {
        Some(ValueModel::DateTime(ts, _)) => (Some(timestamp_rfc3339(*ts)), Some(*ts)),
        _ => (None, None),
    };
    let fields = MessageFieldsDto {
        node_id: string_of(node.as_slice()),
        message_id: clone_opt(&message_id),
        date,
        date_timestamp: date_ts,
        date_original: date_original_exec(m),
        subject: clone_opt(&subject),
        from: address_list(root_value_exec(m, 1)),
        to: address_list(root_value_exec(m, 2)),
        cc: address_list(root_value_exec(m, 3)),
        bcc: address_list(root_value_exec(m, 5)),
        reply_to: address_list(root_value_exec(m, 6)),
        in_reply_to: clone_opt(&in_reply_to),
        references: copy_strings(&references),
    };
    let hints = ThreadHintDto {
        parent_message_id: parent,
        root_message_id: root,
        references,
        base_subject,
        is_reply,
    };
    (fields, hints)
}

} // verus!

verus! {

/// A diagnostic the record may carry.
pub enum DiagSpec {
    HtmlConverted,
    BodyTruncated,
    TextHasHtml,
    QuotedTail,
    EncodingProblem(Seq<char>),
}

/// `d` is the diagnostic `s` describes.
pub open spec fn diag_matches(d: DiagnosticDto, s: DiagSpec) -> bool {
    match s {
        DiagSpec::HtmlConverted => diag_is(
            d,
            "HTML_CONVERTED_TO_TEXT"@,
            "info"@,
            "HTML body content was converted to text; pass --html to include raw HTML."@,
            Some("$.body"@),
            None,
        ),
        DiagSpec::BodyTruncated => is_body_truncated_diag(d),
        DiagSpec::TextHasHtml => diag_is(
            d,
            "TEXT_BODY_CONTAINS_HTML"@,
            "info"@,
            "Plain-text body appears to contain raw HTML markup; consider the HTML alternative when html_available is true."@,
            Some("$.body"@),
            None,
        ),
        DiagSpec::QuotedTail => diag_is(
            d,
            "QUOTED_TAIL_DETECTED"@,
            "info"@,
            "A reply divider or forwarded header block marks the rest of the body as quoted."@,
            Some("$.body"@),
            None,
        ),
        DiagSpec::EncodingProblem(p) => diag_is(
            d,
            "PART_ENCODING_PROBLEM"@,
            "warning"@,
            "mail-parser reported an encoding problem for this MIME part."@,
            Some("$.parts"@),
            Some(p),
        ),
    }
}

/// `new` is `old` followed by one diagnostic for each entry of `s`, in order.
pub open spec fn diags_extend(old: Seq<DiagnosticDto>, new: Seq<DiagnosticDto>, s: Seq<DiagSpec>) -> bool {
    &&& new.len() == old.len() + s.len()
    &&& new.take(old.len() as int) == old
    &&& forall|i: int| 0 <= i < s.len() ==> diag_matches(#[trigger] new[old.len() + i], s[i])
}

/// `s` when `c` holds, else nothing.
pub open spec fn when(c: bool, s: DiagSpec) -> Seq<DiagSpec> {
    if c {
        seq![s]
    } else {
        Seq::empty()
    }
}

/// The body's diagnostics: HTML converted to text, text truncated, markup
/// inside a plain-text body, and a quoted tail in the body text, in that
/// order.
pub open spec fn body_diags(mv: MimeV, options: RenderOptions) -> Seq<DiagSpec> {
    let t = full_text_of(mv);
    let max = options.max_body_bytes as int;
    when(text_source_of(mv) == "html"@ && !options.include_html, DiagSpec::HtmlConverted) + when(
        byte_len(t) > max,
        DiagSpec::BodyTruncated,
    ) + when(
        text_source_of(mv) == "text"@ && has_closing_tag(encode_utf8(cut(t, max))),
        DiagSpec::TextHasHtml,
    ) + when(tail_quote_start_spec(t) is Some, DiagSpec::QuotedTail)
}

/// Two extensions in a row extend by both lists.
pub proof fn lemma_diags_chain(
    a: Seq<DiagnosticDto>,
    b: Seq<DiagnosticDto>,
    c: Seq<DiagnosticDto>,
    s1: Seq<DiagSpec>,
    s2: Seq<DiagSpec>,
)
    requires
        diags_extend(a, b, s1),
        diags_extend(b, c, s2),
    ensures
        diags_extend(a, c, s1 + s2),
{
    assert(c.take(a.len() as int) =~= b.take(a.len() as int)) by {
        assert forall|i: int| 0 <= i < a.len() implies c.take(a.len() as int)[i] == b.take(
            a.len() as int,
        )[i] by {
            assert(c.take(b.len() as int)[i] == c[i]);
        }
    }
    assert forall|i: int| 0 <= i < (s1 + s2).len() implies diag_matches(
        #[trigger] c[a.len() + i],
        (s1 + s2)[i],
    ) by {
        if i < s1.len() {
            assert(c.take(b.len() as int)[a.len() + i] == c[a.len() + i]);
            assert(diag_matches(b[a.len() + i], s1[i]));
        } else {
            let j = i - s1.len();
            assert(diag_matches(c[b.len() + j], s2[j]));
            assert(b.len() + j == a.len() + i);
        }
    }
}

/// Appending one diagnostic extends by it; appending none extends by nothing.
pub proof fn lemma_diags_step(a: Seq<DiagnosticDto>, b: Seq<DiagnosticDto>, c: bool, s: DiagSpec)
    requires
        c ==> b.len() == a.len() + 1 && b.drop_last() == a && diag_matches(b.last(), s),
        !c ==> b == a,
    ensures
        diags_extend(a, b, when(c, s)),
{
    if c {
        assert(b.take(a.len() as int) =~= b.drop_last());
        assert(b[a.len() as int] == b.last());
    } else {
        assert(b.take(a.len() as int) =~= a);
    }
}

/// Index of the first text body part.
pub open spec fn text_idx(mv: MimeV) -> Option<u32> {
    if mv.text_body.len() > 0 {
        Some(mv.text_body[0])
    } else {
        None
    }
}

/// Path id of the part at `idx`, when it has one.
pub open spec fn path_at(paths: Seq<Seq<char>>, idx: Option<u32>) -> Option<Seq<char>> {
    match idx {
        Some(i) => if (i as int) < paths.len() {
            Some(paths[i as int])
        } else {
            None
        },
        None => None,
    }
}

/// Path id of the text body part, when there is one.
pub open spec fn body_text_part_of(mv: MimeV) -> Option<Seq<char>> {
    path_at(part_paths_spec(mv.parts), text_idx(mv))
}

/// Path id of the first HTML body part, when there is one.
pub open spec fn body_html_part_of(mv: MimeV) -> Option<Seq<char>> {
    path_at(
        part_paths_spec(mv.parts),
        if mv.html_body.len() > 0 {
            Some(mv.html_body[0])
        } else {
            None
        },
    )
}

/// The part id that fragments are attributed to: the text body part, else `1`.
pub open spec fn fragment_part_of(mv: MimeV) -> Seq<char> {
    match body_text_part_of(mv) {
        Some(p) => p,
        None => "1"@,
    }
}

/// The full body text: the first text body's text, else nothing.
pub open spec fn full_text_of(mv: MimeV) -> Seq<char> {
    match opt_at(mv.body_texts, 0) {
        Some(t) => t,
        None => Seq::empty(),
    }
}

/// What the body text was taken from: `html`, `text`, or `none`.
pub open spec fn text_source_of(mv: MimeV) -> Seq<char> {
    match text_idx(mv) {
        Some(i) => if (i as int) < mv.parts.len() {
            match mv.parts[i as int].body {
                PartBody::Html => "html"@,
                PartBody::Text => "text"@,
                _ => "none"@,
            }
        } else {
            "none"@
        },
        None => "none"@,
    }
}

/// An HTML rendition exists: an HTML body, or any HTML part.
pub open spec fn html_available_of(mv: MimeV) -> bool {
    mv.html_body.len() > 0 || exists|q: int|
        0 <= q < mv.parts.len() && (#[trigger] mv.parts[q]).body == PartBody::Html
}

/// The body HTML, when HTML is included.
pub open spec fn body_html_of(mv: MimeV, include_html: bool) -> Option<Seq<char>> {
    if include_html {
        opt_at(mv.body_htmls, 0)
    } else {
        None
    }
}

/// An alternative whose source part is the body text part carries no text
/// and points at `body.text`.
pub open spec fn dedup_text(s: AltSource, text_part: Option<Seq<char>>) -> bool {
    s.text is Some && text_part == Some(s.part_id)
}

/// Otherwise, an HTML alternative whose source is the body HTML part, when
/// the body carries HTML, points at `body.html` and counts as complete.
pub open spec fn dedup_html(
    s: AltSource,
    include_html: bool,
    html_part: Option<Seq<char>>,
    html_present: bool,
) -> bool {
    include_html && s.html is Some && html_present && html_part == Some(s.part_id)
}

/// `a` is the alternative from `s` after comparison with the chosen body.
pub open spec fn alternative_final(
    a: BodyAlternativeDto,
    s: AltSource,
    max: int,
    include_html: bool,
    text_part: Option<Seq<char>>,
    html_part: Option<Seq<char>>,
    html_present: bool,
) -> bool {
    let dt = dedup_text(s, text_part);
    let dh = !dt && dedup_html(s, include_html, html_part, html_present);
    &&& a.part_id@ == s.part_id
    &&& a.kind@ == s.kind
    &&& opt_string(a.text) == (if dt {
        None
    } else {
        opt_cut(s.text, max)
    })
    &&& opt_string(a.html) == (if dh || !include_html {
        None
    } else {
        opt_cut(s.html, max)
    })
    &&& opt_string(a.same_as) == (if dt {
        Some("body.text"@)
    } else if dh {
        Some("body.html"@)
    } else {
        None
    })
    &&& a.decoded_size_bytes == byte_len(alt_content(s))
    &&& a.decoded_sha256@ == sha256_hex_spec(encode_utf8(alt_content(s)))
    &&& a.truncated == (!dh && (opt_over(s.text, max) || (include_html && opt_over(s.html, max))))
}

/// The body text cut, its fragments and its truncation record, for text `t`
/// attributed to part `part` with a limit of `max` bytes.
pub open spec fn body_cut_is(
    text: Seq<char>,
    frags: Seq<BodyFragmentDto>,
    tr: TruncationDto,
    t: Seq<char>,
    part: Seq<char>,
    max: usize,
) -> bool {
    let f = fit(t, max as int);
    let rs = quote_runs(t);
    let kept = kept_runs(rs, f);
    let omitted = omitted_runs(rs, f);
    &&& text == t.take(f)
    &&& frags.len() == kept.len()
    &&& forall|i: int|
        0 <= i < kept.len() ==> fragment_of(
            #[trigger] frags[i],
            t,
            part,
            kept[i].0,
            kept[i].1,
            kept[i].2,
            min_of(kept[i].3, f),
            kept[i].3 > f,
        )
    &&& tr.max_body_bytes == max
    &&& tr.truncated == (byte_len(t) > max)
    &&& tr.omitted_fragment_ids@.len() == omitted.len()
    &&& forall|i: int|
        0 <= i < omitted.len() ==> (#[trigger] tr.omitted_fragment_ids@[i])@ == run_id(
            t,
            part,
            omitted[i],
        )
}

/// `b` is the body record of `mv` under `options`.
pub open spec fn body_is(b: BodyDto, mv: MimeV, options: RenderOptions) -> bool {
    let paths = part_paths_spec(mv.parts);
    let srcs = alt_sources(mv, paths);
    let max = options.max_body_bytes as int;
    &&& body_cut_is(
        b.text@,
        b.fragments@,
        b.truncation,
        full_text_of(mv),
        fragment_part_of(mv),
        options.max_body_bytes,
    )
    &&& opt_string(b.html) == body_html_of(mv, options.include_html)
    &&& b.html_included == options.include_html
    &&& b.html_available == html_available_of(mv)
    &&& b.text_source@ == text_source_of(mv)
    &&& opt_string(b.text_part_id) == body_text_part_of(mv)
    &&& b.alternatives@.len() == srcs.len()
    &&& forall|i: int|
        0 <= i < srcs.len() ==> alternative_final(
            #[trigger] b.alternatives@[i],
            srcs[i],
            max,
            options.include_html,
            body_text_part_of(mv),
            body_html_part_of(mv),
            body_html_of(mv, options.include_html) is Some,
        )
}

fn dedup_alternative(
    a: BodyAlternativeDto,
    text_part: &Option<String>,
    html_part: &Option<String>,
    html_present: bool,
    include_html: bool,
    Ghost(s): Ghost<AltSource>,
    Ghost(max): Ghost<int>,
) -> (r: BodyAlternativeDto)
    requires
        alternative_is(a, s, max, include_html),
    ensures
        alternative_final(
            r,
            s,
            max,
            include_html,
            opt_string(*text_part),
            opt_string(*html_part),
            html_present,
        ),
{
    let same_text = match text_part {
        Some(p) => a.text.is_some() && str_eq(a.part_id.as_str(), p.as_str()),
        None => false,
    };
    if same_text {
        return BodyAlternativeDto {
            part_id: a.part_id,
            kind: a.kind,
            text: None,
            html: a.html,
            same_as: Some(lit("body.text")),
            decoded_size_bytes: a.decoded_size_bytes,
            decoded_sha256: a.decoded_sha256,
            truncated: a.truncated,
        };
    }
    let same_html = match html_part {
        Some(p) => a.html.is_some() && html_present && str_eq(a.part_id.as_str(), p.as_str()),
        None => false,
    };
    if same_html {
        return BodyAlternativeDto {
            part_id: a.part_id,
            kind: a.kind,
            text: a.text,
            html: None,
            same_as: Some(lit("body.html")),
            decoded_size_bytes: a.decoded_size_bytes,
            decoded_sha256: a.decoded_sha256,
            truncated: false,
        };
    }
    a
}

fn path_at_exec(paths: &Vec<String>, idx: Option<u32>) -> (r: Option<String>)
    ensures
        opt_string(r) == path_at(strs_v(paths@), idx),
{
    match idx {
        Some(i) => if (i as usize) < paths.len() {
            Some(paths[i as usize].clone())
        } else {
            None
        },
        None => None,
    }
}

/// The body record: the text cut to the byte limit with its fragments, the
/// HTML when included, and the deduplicated alternatives. Diagnostics about
/// the body are appended to `diagnostics`.
pub fn build_body(
    m: &MimeMessage,
    paths: &Vec<String>,
    options: RenderOptions,
    diagnostics: &mut Vec<DiagnosticDto>,
) -> (r: BodyDto)
    requires
        strs_v(paths@) == part_paths_spec(m@.parts),
    ensures
        body_is(r, m@, options),
        diags_extend(old(diagnostics)@, final(diagnostics)@, body_diags(m@, options)),
{
    let ghost mv = m@;
    let text_index: Option<u32> = if m.text_body.len() > 0 {
        Some(m.text_body[0])
    } else {
        None
    };
    let body_text_part = path_at_exec(paths, text_index);
    let text_part_id = match &body_text_part {
        Some(p) => p.clone(),
        None => lit("1"),
    };
    let full_text = if m.body_texts.len() > 0 {
        match &m.body_texts[0] {
            Some(t) => t.clone(),
            None => String::new(),
        }
    } else {
        String::new()
    };
    assert(full_text@ == full_text_of(mv));
    let text_source = match text_index {
        Some(i) => if (i as usize) < m.parts.len() {
            assert(mv.parts[i as int] == m.parts@[i as int]@);
            match m.parts[i as usize].body {
                PartBody::Html => lit("html"),
                PartBody::Text => lit("text"),
                _ => lit("none"),
            }
        } else {
            lit("none")
        },
        None => lit("none"),
    };
    let is_html_source = str_eq(text_source.as_str(), "html");
    let is_text_source = str_eq(text_source.as_str(), "text");
    let mut html_part_exists = false;
    let mut q: usize = 0;
    while q < m.parts.len()
        invariant
            mv == m@,
            q <= m.parts@.len(),
            html_part_exists == exists|k: int|
                0 <= k < q && (#[trigger] mv.parts[k]).body == PartBody::Html,
        decreases m.parts.len() - q,
    {
        assert(mv.parts[q as int] == m.parts@[q as int]@);
        if m.parts[q].body == PartBody::Html {
            html_part_exists = true;
        }
        q += 1;
    }
    let html_available = m.html_body.len() > 0 || html_part_exists;
    let ghost d0 = diagnostics@;
    if is_html_source && !options.include_html {
        diagnostics.push(
            DiagnosticDto::info(
                "HTML_CONVERTED_TO_TEXT",
                "HTML body content was converted to text; pass --html to include raw HTML.",
                Some("$.body"),
            ),
        );
        assert(diagnostics@.drop_last() =~= d0);
    }
    let ghost d1 = diagnostics@;
    let (text, fragments, truncation) = build_body_text(
        full_text.as_str(),
        text_part_id.as_str(),
        options.max_body_bytes,
        diagnostics,
    );
    let ghost d2 = diagnostics@;
    if is_text_source && text_looks_like_html(text.as_str()) {
        diagnostics.push(
            DiagnosticDto::info(
                "TEXT_BODY_CONTAINS_HTML",
                "Plain-text body appears to contain raw HTML markup; consider the HTML alternative when html_available is true.",
                Some("$.body"),
            ),
        );
        assert(diagnostics@.drop_last() =~= d2);
    }
    let ghost d3 = diagnostics@;
    if has_quoted_tail(full_text.as_str()) {
        diagnostics.push(
            DiagnosticDto::info(
                "QUOTED_TAIL_DETECTED",
                "A reply divider or forwarded header block marks the rest of the body as quoted.",
                Some("$.body"),
            ),
        );
        assert(diagnostics@.drop_last() =~= d3);
    }
    let html: Option<String> = if options.include_html && m.body_htmls.len() > 0 {
        clone_opt(&m.body_htmls[0])
    } else {
        None
    };
    assert(opt_string(html) == body_html_of(mv, options.include_html));
    let html_index: Option<u32> = if m.html_body.len() > 0 {
        Some(m.html_body[0])
    } else {
        None
    };
    let body_html_part = path_at_exec(paths, html_index);
    let mut raw_alts = build_body_alternatives(
        m,
        paths,
        options.max_body_bytes,
        options.include_html,
    );
    let ghost srcs = alt_sources(mv, strs_v(paths@));
    let html_present = html.is_some();
    let mut alternatives: Vec<BodyAlternativeDto> = Vec::new();
    let ghost n = raw_alts@.len();
    while raw_alts.len() > 0
        invariant
            n == srcs.len(),
            alternatives@.len() + raw_alts@.len() == n,
            forall|i: int|
                0 <= i < raw_alts@.len() ==> alternative_is(
                    #[trigger] raw_alts@[i],
                    srcs[alternatives@.len() + i],
                    options.max_body_bytes as int,
                    options.include_html,
                ),
            forall|i: int|
                0 <= i < alternatives@.len() ==> alternative_final(
                    #[trigger] alternatives@[i],
                    srcs[i],
                    options.max_body_bytes as int,
                    options.include_html,
                    opt_string(body_text_part),
                    opt_string(body_html_part),
                    html_present,
                ),
        decreases raw_alts.len(),
    {
        let ghost k = alternatives@.len();
        let ghost before = raw_alts@;
        let a = raw_alts.remove(0);
        assert(alternative_is(a, srcs[k as int], options.max_body_bytes as int, options.include_html));
        let d = dedup_alternative(
            a,
            &body_text_part,
            &body_html_part,
            html_present,
            options.include_html,
            Ghost(srcs[k as int]),
            Ghost(options.max_body_bytes as int),
        );
        alternatives.push(d);
        assert forall|i: int| 0 <= i < raw_alts@.len() implies alternative_is(
            #[trigger] raw_alts@[i],
            srcs[alternatives@.len() + i],
            options.max_body_bytes as int,
            options.include_html,
        ) by {
            assert(raw_alts@[i] == before[i + 1]);
        }
    }
    proof {
        let t = full_text_of(mv);
        let max = options.max_body_bytes as int;
        lemma_diags_step(
            d0,
            d1,
            text_source_of(mv) == "html"@ && !options.include_html,
            DiagSpec::HtmlConverted,
        );
        lemma_diags_step(d1, d2, byte_len(t) > max, DiagSpec::BodyTruncated);
        lemma_diags_step(
            d2,
            d3,
            text_source_of(mv) == "text"@ && has_closing_tag(encode_utf8(cut(t, max))),
            DiagSpec::TextHasHtml,
        );
        lemma_diags_step(d3, diagnostics@, tail_quote_start_spec(t) is Some, DiagSpec::QuotedTail);
        lemma_diags_chain(
            d0,
            d1,
            d2,
            when(text_source_of(mv) == "html"@ && !options.include_html, DiagSpec::HtmlConverted),
            when(byte_len(t) > max, DiagSpec::BodyTruncated),
        );
        lemma_diags_chain(
            d0,
            d2,
            d3,
            when(text_source_of(mv) == "html"@ && !options.include_html, DiagSpec::HtmlConverted)
                + when(byte_len(t) > max, DiagSpec::BodyTruncated),
            when(
                text_source_of(mv) == "text"@ && has_closing_tag(encode_utf8(cut(t, max))),
                DiagSpec::TextHasHtml,
            ),
        );
        lemma_diags_chain(
            d0,
            d3,
            diagnostics@,
            when(text_source_of(mv) == "html"@ && !options.include_html, DiagSpec::HtmlConverted)
                + when(byte_len(t) > max, DiagSpec::BodyTruncated) + when(
                text_source_of(mv) == "text"@ && has_closing_tag(encode_utf8(cut(t, max))),
                DiagSpec::TextHasHtml,
            ),
            when(tail_quote_start_spec(t) is Some, DiagSpec::QuotedTail),
        );
    }
    BodyDto {
        text,
        html,
        html_included: options.include_html,
        html_available,
        text_source,
        text_part_id: body_text_part,
        alternatives,
        fragments,
        truncation,
    }
}

} // verus!

verus! {

/// Part `idx` appears in the part list: it is not multipart, and the root
/// only when it is listed as a single-part attachment or nested message.
pub open spec fn is_listed(mv: MimeV, idx: int) -> bool {
    mv.parts[idx].body != PartBody::Multipart && !(idx == 0 && !root_listed_spec(mv.parts[0]))
}

/// Indexes of the listed parts among the first `n`, in order.
pub open spec fn listed_upto(mv: MimeV, n: int) -> Seq<int>
    decreases n,
{
    if n <= 0 || n > mv.parts.len() {
        Seq::empty()
    } else if is_listed(mv, n - 1) {
        listed_upto(mv, n - 1).push(n - 1)
    } else {
        listed_upto(mv, n - 1)
    }
}

/// Indexes of the listed nested messages among the first `n` parts, in order.
pub open spec fn nested_upto(mv: MimeV, n: int) -> Seq<int>
    decreases n,
{
    if n <= 0 || n > mv.parts.len() {
        Seq::empty()
    } else if is_listed(mv, n - 1) && mv.parts[n - 1].body == PartBody::Message {
        nested_upto(mv, n - 1).push(n - 1)
    } else {
        nested_upto(mv, n - 1)
    }
}

/// Encoding-problem diagnostics of the listed parts among the first `n`, in order.
pub open spec fn encoding_diags(mv: MimeV, n: int) -> Seq<DiagSpec>
    decreases n,
{
    if n <= 0 || n > mv.parts.len() {
        Seq::empty()
    } else {
        encoding_diags(mv, n - 1) + when(
            is_listed(mv, n - 1) && mv.parts[n - 1].encoding_problem,
            DiagSpec::EncodingProblem(part_id_at(part_paths_spec(mv.parts), n - 1)),
        )
    }
}

/// Path id of part `idx`, or its index past the end of `paths`.
pub open spec fn part_id_at(paths: Seq<Seq<char>>, idx: int) -> Seq<char> {
    if 0 <= idx < paths.len() {
        paths[idx]
    } else {
        decimal(idx as nat)
    }
}

/// The parser lists part `idx` as an attachment.
pub open spec fn is_attachment_at(mv: MimeV, idx: int) -> bool {
    exists|j: int| 0 <= j < mv.attachments.len() && #[trigger] mv.attachments[j] as int == idx
}

/// The normalized Message-ID of an optional raw id.
pub open spec fn opt_normalized(id: Option<Seq<char>>) -> Option<Seq<char>> {
    match id {
        Some(t) => normalize_message_id_spec(t),
        None => None,
    }
}

/// `d` summarizes the message nested in part `idx`.
pub open spec fn nested_is(d: NestedMessageDto, mv: MimeV, idx: int) -> bool {
    &&& d.part_id@ == part_id_at(part_paths_spec(mv.parts), idx)
    &&& opt_string(d.message_id) == opt_normalized(mv.parts[idx].nested_message_id)
    &&& opt_string(d.subject) == mv.parts[idx].nested_subject
}

/// `parts` describes the listed parts and `nested` the listed nested messages.
pub open spec fn parts_are(parts: Seq<PartDto>, nested: Seq<NestedMessageDto>, mv: MimeV) -> bool {
    let l = listed_upto(mv, mv.parts.len() as int);
    let nl = nested_upto(mv, mv.parts.len() as int);
    let paths = part_paths_spec(mv.parts);
    &&& parts.len() == l.len()
    &&& forall|i: int|
        0 <= i < l.len() ==> part_dto_is(
            #[trigger] parts[i],
            mv.parts[l[i]],
            part_id_at(paths, l[i]),
            is_attachment_at(mv, l[i]),
        )
    &&& nested.len() == nl.len()
    &&& forall|i: int| 0 <= i < nl.len() ==> nested_is(#[trigger] nested[i], mv, nl[i])
}

fn listed_as_attachment(m: &MimeMessage, idx: usize) -> (r: bool)
    ensures
        r == is_attachment_at(m@, idx as int),
{
    let mut j: usize = 0;
    while j < m.attachments.len()
        invariant
            j <= m.attachments@.len(),
            forall|k: int| 0 <= k < j ==> #[trigger] m.attachments@[k] as int != idx,
        decreases m.attachments.len() - j,
    {
        if m.attachments[j] as usize == idx {
            assert(m@.attachments[j as int] as int == idx);
            return true;
        }
        j += 1;
    }
    false
}

/// The listed parts and nested messages; encoding problems of listed parts
/// are appended to `diagnostics`.
pub fn build_parts(m: &MimeMessage, paths: &Vec<String>, diagnostics: &mut Vec<DiagnosticDto>) -> (r: (
    Vec<PartDto>,
    Vec<NestedMessageDto>,
))
    requires
        strs_v(paths@) == part_paths_spec(m@.parts),
    ensures
        parts_are(r.0@, r.1@, m@),
        diags_extend(
            old(diagnostics)@,
            final(diagnostics)@,
            encoding_diags(m@, m@.parts.len() as int),
        ),
{
    let ghost mv = m@;
    let ghost pv = strs_v(paths@);
    let ghost d0 = diagnostics@;
    let n = m.parts.len();
    let root_listed = if n > 0 {
        root_part_should_be_listed(&m.parts[0])
    } else {
        false
    };
    let mut parts: Vec<PartDto> = Vec::new();
    let mut nested: Vec<NestedMessageDto> = Vec::new();
    let mut idx: usize = 0;
    assert(diags_extend(d0, diagnostics@, encoding_diags(mv, 0))) by {
        assert(diagnostics@.take(d0.len() as int) =~= d0);
    }
    while idx < n
        invariant
            mv == m@,
            pv == strs_v(paths@),
            pv == part_paths_spec(mv.parts),
            n == mv.parts.len(),
            n > 0 ==> root_listed == root_listed_spec(mv.parts[0]),
            idx <= n,
            parts@.len() == listed_upto(mv, idx as int).len(),
            forall|i: int|
                0 <= i < parts@.len() ==> part_dto_is(
                    #[trigger] parts@[i],
                    mv.parts[listed_upto(mv, idx as int)[i]],
                    part_id_at(pv, listed_upto(mv, idx as int)[i]),
                    is_attachment_at(mv, listed_upto(mv, idx as int)[i]),
                ),
            nested@.len() == nested_upto(mv, idx as int).len(),
            forall|i: int|
                0 <= i < nested@.len() ==> nested_is(
                    #[trigger] nested@[i],
                    mv,
                    nested_upto(mv, idx as int)[i],
                ),
            diags_extend(d0, diagnostics@, encoding_diags(mv, idx as int)),
        decreases n - idx,
    {
        let part = &m.parts[idx];
        assert(mv.parts[idx as int] == part@);
        let skip = (idx == 0 && !root_listed) || part.body == PartBody::Multipart;
        let ghost before = diagnostics@;
        if !skip {
            let part_id = if idx < paths.len() {
                paths[idx].clone()
            } else {
                string_of(decimal_chars(idx as u64).as_slice())
            };
            assert(part_id@ == part_id_at(pv, idx as int));
            if part.encoding_problem {
                diagnostics.push(
                    DiagnosticDto::warning(
                        "PART_ENCODING_PROBLEM",
                        "mail-parser reported an encoding problem for this MIME part.",
                        Some("$.parts"),
                        Some(part_id.as_str()),
                    ),
                );
                assert(diagnostics@.drop_last() =~= before);
            }
            if part.body == PartBody::Message {
                let message_id = match &part.nested_message_id {
                    Some(t) => normalize_message_id(t.as_str()),
                    None => None,
                };
                nested.push(
                    NestedMessageDto {
                        part_id: part_id.clone(),
                        message_id,
                        subject: clone_opt(&part.nested_subject),
                    },
                );
            }
            let att = listed_as_attachment(m, idx);
            parts.push(part_dto(part, part_id.as_str(), att));
        }
        proof {
            lemma_diags_step(
                before,
                diagnostics@,
                is_listed(mv, idx as int) && mv.parts[idx as int].encoding_problem,
                DiagSpec::EncodingProblem(part_id_at(pv, idx as int)),
            );
            lemma_diags_chain(
                d0,
                before,
                diagnostics@,
                encoding_diags(mv, idx as int),
                when(
                    is_listed(mv, idx as int) && mv.parts[idx as int].encoding_problem,
                    DiagSpec::EncodingProblem(part_id_at(pv, idx as int)),
                ),
            );
        }
        idx += 1;
    }
    (parts, nested)
}

} // verus!

verus! {

/// Why a message or one of its parts could not be had.
#[derive(Debug)]
pub enum MessageError {
    /// The bytes hold no parseable RFC 822/RFC 5322 message.
    Unparseable,
    /// No part has the requested MIME path id.
    PartNotFound(String),
    /// The part with the requested id is multipart and has no bytes of its own.
    PartIsMultipart(String),
}

/// `headers` are the message's header records in `scope`, and `omitted`
/// counts those the scope left out.
pub open spec fn headers_are(headers: Seq<HeaderDto>, omitted: usize, mv: MimeV, scope: HeaderScope) -> bool {
    let kept = scoped_headers(root_headers(mv), scope);
    &&& headers.len() == kept.len()
    &&& forall|i: int| 0 <= i < kept.len() ==> header_dto_is(#[trigger] headers[i], kept[i], mv.raw)
    &&& omitted == root_headers(mv).len() - kept.len()
}

/// The diagnostics a record of `mv` carries: those of the body, then one per
/// listed part with an encoding problem.
pub open spec fn message_diags(mv: MimeV, options: RenderOptions) -> Seq<DiagSpec> {
    body_diags(mv, options) + encoding_diags(mv, mv.parts.len() as int)
}

/// `d` is the record of the message `mv`, read from `path`, `size` bytes
/// long and hashing to `sha`, under `options`.
pub open spec fn message_dto_is(
    d: MessageDto,
    mv: MimeV,
    path: Seq<char>,
    size: usize,
    sha: Seq<char>,
    options: RenderOptions,
) -> bool {
    &&& d.schema_version@ == SCHEMA_VERSION@
    &&& d.source.path@ == path
    &&& d.source.size_bytes == size
    &&& d.source.sha256@ == sha
    &&& fields_are(d.message, mv, sha)
    &&& hints_are(d.thread, mv)
    &&& body_is(d.body, mv, options)
    &&& headers_are(d.headers@, d.headers_omitted, mv, options.headers)
    &&& parts_are(d.parts@, d.nested_messages@, mv)
    &&& diags_extend(Seq::empty(), d.diagnostics@, message_diags(mv, options))
}

/// The record of a parsed message read from `source`.
pub fn build_message_dto(m: &MimeMessage, source: SourceDto, options: RenderOptions) -> (r: MessageDto)
    ensures
        message_dto_is(r, m@, source.path@, source.size_bytes, source.sha256@, options),
{
    let paths = part_paths(&m.parts);
    let mut diagnostics: Vec<DiagnosticDto> = Vec::new();
    let ghost d0 = diagnostics@;
    let body = build_body(m, &paths, options, &mut diagnostics);
    let ghost d1 = diagnostics@;
    let (headers, headers_omitted) = build_headers(m, options.headers);
    let (parts, nested_messages) = build_parts(m, &paths, &mut diagnostics);
    proof {
        lemma_diags_chain(
            d0,
            d1,
            diagnostics@,
            body_diags(m@, options),
            encoding_diags(m@, m@.parts.len() as int),
        );
    }
    let (message, thread) = build_fields(m, &source.sha256);
    MessageDto {
        schema_version: lit(SCHEMA_VERSION),
        source,
        message,
        thread,
        body,
        headers,
        headers_omitted,
        parts,
        nested_messages,
        diagnostics,
    }
}

/// Parses raw message bytes into a record. Fails exactly when the parser
/// finds no message in the bytes.
pub fn parse_message_bytes(path: &str, raw: &[u8], options: RenderOptions) -> (r: Result<
    MessageDto,
    MessageError,
>)
    ensures
        r is Ok <==> mime_parses(raw@),
        r matches Ok(d) ==> message_dto_is(
            d,
            mime_spec(raw@),
            path@,
            raw@.len() as usize,
            sha256_hex_spec(raw@),
            options,
        ),
        r matches Err(e) ==> e is Unparseable,
{
    let source = SourceDto { path: lit(path), size_bytes: raw.len(), sha256: sha256_hex(raw) };
    match mime_parse(raw) {
        Some(p) => {
            let m = mime_message_of(&p);
            Ok(build_message_dto(&m, source, options))
        },
        None => Err(MessageError::Unparseable),
    }
}

/// What extracting a part by id gives.
pub enum ExtractV {
    Bytes(Seq<u8>),
    NotFound,
    Multipart,
}

/// Index of the first path equal to `id`.
pub open spec fn first_index(paths: Seq<Seq<char>>, id: Seq<char>, n: int) -> Option<int>
    decreases n,
{
    if n <= 0 || n > paths.len() {
        None
    } else {
        match first_index(paths, id, n - 1) {
            Some(i) => Some(i),
            None => if paths[n - 1] == id {
                Some(n - 1)
            } else {
                None
            },
        }
    }
}

proof fn lemma_first_index_stable(paths: Seq<Seq<char>>, id: Seq<char>, n: int, k: int)
    requires
        0 <= n <= k <= paths.len(),
        first_index(paths, id, n) is Some,
    ensures
        first_index(paths, id, k) == first_index(paths, id, n),
    decreases k - n,
{
    if k > n {
        lemma_first_index_stable(paths, id, n, k - 1);
    }
}

/// The decoded bytes of the part whose path id is `id`, unless no part has
/// that id or it is multipart.
pub open spec fn extract_spec(parts: Seq<PartV>, id: Seq<char>) -> ExtractV {
    let paths = part_paths_spec(parts);
    match first_index(paths, id, paths.len() as int) {
        Some(i) => if i < parts.len() {
            if parts[i].body == PartBody::Multipart {
                ExtractV::Multipart
            } else {
                ExtractV::Bytes(parts[i].contents)
            }
        } else {
            ExtractV::NotFound
        },
        None => ExtractV::NotFound,
    }
}

/// `r` is the outcome `e` of extracting part `id`.
pub open spec fn extract_matches(r: Result<Vec<u8>, MessageError>, e: ExtractV, id: Seq<char>) -> bool {
    match e {
        ExtractV::Bytes(b) => r matches Ok(v) && v@ == b,
        ExtractV::NotFound => r matches Err(MessageError::PartNotFound(p)) && p@ == id,
        ExtractV::Multipart => r matches Err(MessageError::PartIsMultipart(p)) && p@ == id,
    }
}

/// The decoded bytes of the part of `m` whose MIME path id is `part_id`.
pub fn extract_part_from(m: &MimeMessage, part_id: &str) -> (r: Result<Vec<u8>, MessageError>)
    ensures
        extract_matches(r, extract_spec(m@.parts, part_id@), part_id@),
{
    let paths = part_paths(&m.parts);
    let ghost pv = strs_v(paths@);
    let mut i: usize = 0;
    while i < paths.len()
        invariant
            i <= paths@.len(),
            pv == strs_v(paths@),
            pv == part_paths_spec(m@.parts),
            first_index(pv, part_id@, i as int) is None,
        decreases paths.len() - i,
    {
        if str_eq(paths[i].as_str(), part_id) {
            assert(first_index(pv, part_id@, i + 1) == Some(i as int));
            proof {
                lemma_first_index_stable(pv, part_id@, i + 1, pv.len() as int);
            }

            if i < m.parts.len() {
                assert(m@.parts[i as int] == m.parts@[i as int]@);
                if m.parts[i].body == PartBody::Multipart {
                    return Err(MessageError::PartIsMultipart(lit(part_id)));
                }
                return Ok(copy_bytes(&m.parts[i].contents));
            }
            return Err(MessageError::PartNotFound(lit(part_id)));
        }
        i += 1;
    }
    Err(MessageError::PartNotFound(lit(part_id)))
}

fn copy_bytes(v: &Vec<u8>) -> (r: Vec<u8>)
    ensures
        r@ == v@,
{
    vstd::slice::slice_to_vec(v.as_slice())
}

/// Parses raw message bytes and returns the decoded bytes of the part whose
/// MIME path id is `part_id`.
pub fn extract_part_bytes(raw: &[u8], part_id: &str) -> (r: Result<Vec<u8>, MessageError>)
    ensures
        r matches Err(MessageError::Unparseable) <==> !mime_parses(raw@),
        mime_parses(raw@) ==> extract_matches(
            r,
            extract_spec(mime_spec(raw@).parts, part_id@),
            part_id@,
        ),
{
    match mime_parse(raw) {
        Some(p) => {
            let m = mime_message_of(&p);
            extract_part_from(&m, part_id)
        },
        None => Err(MessageError::Unparseable),
    }
}

} // verus!

verus! {

proof fn lemma_listed_upto(mv: MimeV, n: int, i: int)
    requires
        0 <= i < listed_upto(mv, n).len(),
    ensures
        0 <= listed_upto(mv, n)[i] < n,
        listed_upto(mv, n)[i] < mv.parts.len(),
        is_listed(mv, listed_upto(mv, n)[i]),
    decreases n,
{
    if 0 < n <= mv.parts.len() {
        if i < listed_upto(mv, n - 1).len() {
            lemma_listed_upto(mv, n - 1, i);
        }
    }
}

proof fn lemma_first_index_of(paths: Seq<Seq<char>>, id: Seq<char>, n: int)
    requires
        0 <= n <= paths.len(),
    ensures
        match first_index(paths, id, n) {
            Some(k) => 0 <= k < n && paths[k] == id && forall|j: int| 0 <= j < k ==> paths[j] != id,
            None => forall|j: int| 0 <= j < n ==> paths[j] != id,
        },
    decreases n,
{
    if n > 0 {
        lemma_first_index_of(paths, id, n - 1);
    }
}

proof fn lemma_walk_len(ch: Seq<Option<Seq<u32>>>, idx: int, path: Seq<char>, paths: Seq<Seq<char>>, fuel: nat)
    ensures
        walk(ch, idx, path, paths, fuel).len() == paths.len(),
    decreases fuel, 0nat,
{
    let p1 = if 0 <= idx < paths.len() {
        paths.update(idx, path)
    } else {
        paths
    };
    if !(fuel == 0 || idx < 0 || idx >= ch.len()) {
        if let Some(cs) = ch[idx] {
            lemma_walk_children_len(ch, cs, cs.len(), path, p1, (fuel - 1) as nat);
        }
    }
}

proof fn lemma_walk_children_len(
    ch: Seq<Option<Seq<u32>>>,
    cs: Seq<u32>,
    n: nat,
    path: Seq<char>,
    paths: Seq<Seq<char>>,
    fuel: nat,
)
    ensures
        walk_children(ch, cs, n, path, paths, fuel).len() == paths.len(),
    decreases fuel, n + 1,
{
    if !(n == 0 || n > cs.len()) {
        lemma_walk_children_len(ch, cs, (n - 1) as nat, path, paths, fuel);
        lemma_walk_len(
            ch,
            cs[n - 1] as int,
            child_path(path, n),
            walk_children(ch, cs, (n - 1) as nat, path, paths, fuel),
            fuel,
        );
    }
}

/// Extraction gives back what a record lists: for each listed part of the
/// record of `raw`, extracting by the part's id yields bytes of the recorded
/// size and SHA-256; the id of a multipart part yields `Multipart`, and an id
/// that no part has yields `NotFound`.
pub proof fn lemma_listed_parts_extract(
    d: MessageDto,
    raw: Seq<u8>,
    path: Seq<char>,
    size: usize,
    sha: Seq<char>,
    options: RenderOptions,
    i: int,
    unknown: Seq<char>,
)
    requires
        message_dto_is(d, mime_spec(raw), path, size, sha, options),
        0 <= i < d.parts@.len(),
        !part_paths_spec(mime_spec(raw).parts).contains(unknown),
    ensures
        extract_spec(mime_spec(raw).parts, d.parts@[i].part_id@) matches ExtractV::Bytes(b) && b.len()
            == d.parts@[i].decoded_size_bytes && sha256_hex_spec(b) == d.parts@[i].decoded_sha256@,
        extract_spec(mime_spec(raw).parts, unknown) == ExtractV::NotFound,
        forall|q: int|
            0 <= q < mime_spec(raw).parts.len() && (#[trigger] mime_spec(raw).parts[q]).body == PartBody::Multipart
                ==> extract_spec(mime_spec(raw).parts, part_paths_spec(mime_spec(raw).parts)[q])
                == ExtractV::Multipart,
{
    let mv = mime_spec(raw);
    let paths = part_paths_spec(mv.parts);
    let l = listed_upto(mv, mv.parts.len() as int);
    lemma_part_ids_distinct(mv.parts);
    lemma_walk_len(children_of(mv.parts), 0, seq!['1'], position_ids(mv.parts.len()), mv.parts.len());
    assert(paths.len() == mv.parts.len());
    lemma_listed_upto(mv, mv.parts.len() as int, i);
    let q = l[i];
    assert(part_dto_is(d.parts@[i], mv.parts[q], part_id_at(paths, q), is_attachment_at(mv, q)));
    assert(part_id_at(paths, q) == paths[q]);
    lemma_first_index_of(paths, paths[q], paths.len() as int);
    match first_index(paths, paths[q], paths.len() as int) {
        Some(k) => {
            if k != q {
                assert(paths[k] == paths[q]);
            }
        },
        None => {},
    }
    assert forall|q: int|
        0 <= q < mv.parts.len() && (#[trigger] mv.parts[q]).body == PartBody::Multipart implies extract_spec(
        mv.parts,
        paths[q],
    ) == ExtractV::Multipart by {
        lemma_first_index_of(paths, paths[q], paths.len() as int);
        if let Some(k) = first_index(paths, paths[q], paths.len() as int) {
            if k != q {
                assert(paths[k] == paths[q]);
            }
        }
    }
    lemma_first_index_of(paths, unknown, paths.len() as int);
    if first_index(paths, unknown, paths.len() as int) is Some {
        let k = first_index(paths, unknown, paths.len() as int)->0;
        assert(paths[k] == unknown);
        assert(paths.contains(unknown));
    }
}

} // verus!

verus! {

proof fn lemma_decimal_no_dot(n: nat)
    ensures
        decimal(n).len() >= 1,
        forall|k: int| 0 <= k < decimal(n).len() ==> #[trigger] decimal(n)[k] != '.',
    decreases n,
{
    if n >= 10 {
        lemma_decimal_no_dot(n / 10);
        assert forall|k: int| 0 <= k < decimal(n).len() implies #[trigger] decimal(n)[k] != '.' by {
            if k < decimal(n / 10).len() {
                assert(decimal(n)[k] == decimal(n / 10)[k]);
            }
        }
    }
}

/// The path id of the part reached from the root by the 1-based child
/// positions `pos`.
pub open spec fn position_path(pos: Seq<nat>) -> Seq<char>
    decreases pos.len(),
{
    if pos.len() == 0 {
        seq!['1']
    } else {
        child_path(position_path(pos.drop_last()), pos.last())
    }
}

/// The part reached from the root by the 1-based child positions `pos`.
pub open spec fn part_at(ch: Seq<Option<Seq<u32>>>, pos: Seq<nat>) -> Option<int>
    decreases pos.len(),
{
    if pos.len() == 0 {
        Some(0)
    } else {
        match part_at(ch, pos.drop_last()) {
            Some(i) => if 0 <= i < ch.len() && ch[i] is Some && 1 <= pos.last() <= ch[i]->0.len() {
                Some(ch[i]->0[pos.last() - 1] as int)
            } else {
                None
            },
            None => None,
        }
    }
}

/// Every part's id is its position number, or the path of a position at
/// which the part is reached.
spec fn paths_ok(ch: Seq<Option<Seq<u32>>>, paths: Seq<Seq<char>>) -> bool {
    forall|j: int|
        0 <= j < paths.len() ==> #[trigger] paths[j] == decimal((j + 1) as nat) || exists|pos: Seq<nat>|
            part_at(ch, pos) == Some(j) && paths[j] == position_path(pos)
}

proof fn lemma_walk_ok(ch: Seq<Option<Seq<u32>>>, idx: int, pos: Seq<nat>, paths: Seq<Seq<char>>, fuel: nat)
    requires
        paths_ok(ch, paths),
        part_at(ch, pos) == Some(idx),
    ensures
        paths_ok(ch, walk(ch, idx, position_path(pos), paths, fuel)),
    decreases fuel, 0nat,
{
    let path = position_path(pos);
    let p1 = if 0 <= idx < paths.len() {
        paths.update(idx, path)
    } else {
        paths
    };
    assert(paths_ok(ch, p1)) by {
        assert forall|j: int| 0 <= j < p1.len() implies #[trigger] p1[j] == decimal((j + 1) as nat) || exists|
            q: Seq<nat>,
        | part_at(ch, q) == Some(j) && p1[j] == position_path(q) by {
            if j == idx && 0 <= idx < paths.len() {
                assert(part_at(ch, pos) == Some(j) && p1[j] == position_path(pos));
            } else {
                assert(p1[j] == paths[j]);
            }
        }
    }
    if !(fuel == 0 || idx < 0 || idx >= ch.len()) {
        if let Some(cs) = ch[idx] {
            lemma_walk_children_ok(ch, cs, cs.len(), pos, idx, p1, (fuel - 1) as nat);
        }
    }
}

proof fn lemma_walk_children_ok(
    ch: Seq<Option<Seq<u32>>>,
    cs: Seq<u32>,
    m: nat,
    pos: Seq<nat>,
    idx: int,
    paths: Seq<Seq<char>>,
    fuel: nat,
)
    requires
        paths_ok(ch, paths),
        part_at(ch, pos) == Some(idx),
        0 <= idx < ch.len(),
        ch[idx] == Some(cs),
        m <= cs.len(),
    ensures
        paths_ok(ch, walk_children(ch, cs, m, position_path(pos), paths, fuel)),
    decreases fuel, m + 1,
{
    if m > 0 {
        lemma_walk_children_ok(ch, cs, (m - 1) as nat, pos, idx, paths, fuel);
        let child = pos.push(m);
        assert(child.drop_last() =~= pos);
        assert(position_path(child) == child_path(position_path(pos), m));
        assert(part_at(ch, child) == Some(cs[m - 1] as int));
        lemma_walk_ok(
            ch,
            cs[m - 1] as int,
            child,
            walk_children(ch, cs, (m - 1) as nat, position_path(pos), paths, fuel),
            fuel,
        );
    }
}

proof fn lemma_dot_split(x: Seq<char>, y: Seq<char>, dx: Seq<char>, dy: Seq<char>)
    requires
        x + seq!['.'] + dx == y + seq!['.'] + dy,
        forall|k: int| 0 <= k < dx.len() ==> #[trigger] dx[k] != '.',
        forall|k: int| 0 <= k < dy.len() ==> #[trigger] dy[k] != '.',
    ensures
        x == y,
        dx == dy,
{
    let xd = x + seq!['.'];
    let yd = y + seq!['.'];
    let l = xd + dx;
    let r = yd + dy;
    assert(l == r);
    assert(xd.len() == x.len() + 1 && yd.len() == y.len() + 1);
    assert(l.len() == r.len());
    assert(xd[x.len() as int] == '.');
    assert(yd[y.len() as int] == '.');
    if x.len() < y.len() {
        let i = y.len() as int;
        assert(r[i] == yd[i]);
        assert(l[i] == dx[i - xd.len()]);
        assert(false);
    } else if y.len() < x.len() {
        let i = x.len() as int;
        assert(l[i] == xd[i]);
        assert(r[i] == dy[i - yd.len()]);
        assert(false);
    } else {
        assert forall|k: int| 0 <= k < x.len() implies x[k] == y[k] by {
            assert(l[k] == xd[k] && xd[k] == x[k]);
            assert(r[k] == yd[k] && yd[k] == y[k]);
        }
        assert(x =~= y);
        assert forall|k: int| 0 <= k < dx.len() implies dx[k] == dy[k] by {
            assert(l[xd.len() + k] == dx[k]);
            assert(r[yd.len() + k] == dy[k]);
        }
        assert(dx =~= dy);
    }
}

proof fn lemma_position_path_shape(pos: Seq<nat>)
    ensures
        position_path(pos).len() >= 1,
        pos.len() > 0 ==> position_path(pos).len() >= 3 && position_path(pos)[position_path(
            pos.drop_last(),
        ).len() as int] == '.',
    decreases pos.len(),
{
    if pos.len() > 0 {
        lemma_position_path_shape(pos.drop_last());
        lemma_decimal_no_dot(pos.last());
    }
}

proof fn lemma_position_path_injective(p: Seq<nat>, q: Seq<nat>)
    requires
        position_path(p) == position_path(q),
    ensures
        p == q,
    decreases p.len(),
{
    lemma_position_path_shape(p);
    lemma_position_path_shape(q);
    if p.len() > 0 && q.len() > 0 {
        lemma_decimal_no_dot(p.last());
        lemma_decimal_no_dot(q.last());
        lemma_dot_split(
            position_path(p.drop_last()),
            position_path(q.drop_last()),
            decimal(p.last()),
            decimal(q.last()),
        );
        crate::thread::lemma_decimal_injective(p.last(), q.last());
        lemma_position_path_injective(p.drop_last(), q.drop_last());
        assert(p =~= p.drop_last().push(p.last()));
        assert(q =~= q.drop_last().push(q.last()));
    }
}

proof fn lemma_default_vs_position(j: int, pos: Seq<nat>)
    requires
        j >= 0,
        decimal((j + 1) as nat) == position_path(pos),
    ensures
        j == 0,
        pos.len() == 0,
{
    lemma_position_path_shape(pos);
    lemma_decimal_no_dot((j + 1) as nat);
    if pos.len() > 0 {
        let k = position_path(pos.drop_last()).len() as int;
        assert(decimal((j + 1) as nat)[k] == '.');
    }
    assert(decimal(1) == seq!['1']);
    crate::thread::lemma_decimal_injective((j + 1) as nat, 1);
}

/// The MIME path ids of a message's parts are pairwise different.
pub proof fn lemma_part_ids_distinct(parts: Seq<PartV>)
    ensures
        part_paths_spec(parts).no_duplicates(),
{
    let ch = children_of(parts);
    let init = position_ids(parts.len());
    let e: Seq<nat> = Seq::empty();
    assert(position_path(e) == seq!['1']);
    assert(paths_ok(ch, init));
    assert(part_at(ch, e) == Some(0int));
    lemma_walk_ok(ch, 0, e, init, parts.len());
    let paths = part_paths_spec(parts);
    assert forall|a: int, b: int| 0 <= a < paths.len() && 0 <= b < paths.len() && a != b implies paths[a]
        != paths[b] by {
        if paths[a] == paths[b] {
            assert(paths_ok(ch, paths));
            let da = paths[a] == decimal((a + 1) as nat);
            let db = paths[b] == decimal((b + 1) as nat);
            if da && db {
                crate::thread::lemma_decimal_injective((a + 1) as nat, (b + 1) as nat);
            } else if da {
                let q = choose|q: Seq<nat>| part_at(ch, q) == Some(b) && paths[b] == position_path(q);
                lemma_default_vs_position(a, q);
            } else if db {
                let p = choose|p: Seq<nat>| part_at(ch, p) == Some(a) && paths[a] == position_path(p);
                lemma_default_vs_position(b, p);
            } else {
                let p = choose|p: Seq<nat>| part_at(ch, p) == Some(a) && paths[a] == position_path(p);
                let q = choose|q: Seq<nat>| part_at(ch, q) == Some(b) && paths[b] == position_path(q);
                lemma_position_path_injective(p, q);
            }
        }
    }
}

} // verus!

verus! {

/// A record's threading hints follow its own identity fields: the root
/// reference is the first entry of its References list (none when the list
/// is empty), the parent is its In-Reply-To, else the last References entry,
/// the hints repeat the References list, the message counts as a reply when
/// it has a parent or its subject starts with `Re:`, and it has a base
/// subject exactly when it has a subject.
pub proof fn lemma_record_thread_hints(
    d: MessageDto,
    mv: MimeV,
    path: Seq<char>,
    size: usize,
    sha: Seq<char>,
    options: RenderOptions,
)
    requires
        message_dto_is(d, mv, path, size, sha, options),
    ensures
        strs_v(d.thread.references@) == strs_v(d.message.references@),
        d.message.references@.len() > 0 ==> opt_string(d.thread.root_message_id) == Some(
            d.message.references@[0]@,
        ),
        d.message.references@.len() == 0 ==> d.thread.root_message_id is None,
        opt_string(d.message.in_reply_to) is Some ==> opt_string(d.thread.parent_message_id) == opt_string(
            d.message.in_reply_to,
        ),
        opt_string(d.message.in_reply_to) is None && d.message.references@.len() > 0 ==> opt_string(
            d.thread.parent_message_id,
        ) == Some(d.message.references@.last()@),
        opt_string(d.message.in_reply_to) is None && d.message.references@.len() == 0
            ==> d.thread.parent_message_id is None,
        d.thread.is_reply == (d.thread.parent_message_id is Some || (opt_string(d.message.subject) matches Some(
            s,
        ) && starts_with_ic(crate::text::trim_start(s), seq!['r', 'e', ':']))),
        d.thread.base_subject is Some <==> d.message.subject is Some,
{
    reveal_strlit("re:");
    let refs = strs_v(d.message.references@);
    assert(refs.len() == d.message.references@.len());
    if refs.len() > 0 {
        assert(refs[0] == d.message.references@[0]@);
        assert(refs.last() == d.message.references@.last()@);
    }
}

} // verus!
