//! Prompt-ready text: message and thread renderings with quoted runs kept,
//! collapsed into counted markers, or dropped.
use vstd::prelude::*;
use vstd::utf8::{decode_utf8, encode_utf8, is_char_boundary};
use crate::dto::{
    AddressDto, BodyDto, BodyFragmentDto, MessageDto, PartDto, QuoteMode, ThreadEnvelopeDto,
};
use crate::encode::{decimal, decimal_chars};
use crate::quote::{lines_of, lines_with_offsets};
use crate::text::{chars_of, push_all, push_str, str_eq, str_get, string_of, trim_end};

verus! {

/// `text[a..b]` by byte offsets, when both are ordered character boundaries.
pub open spec fn byte_slice(text: Seq<char>, a: int, b: int) -> Option<Seq<char>> {
    let tb = encode_utf8(text);
    if a <= b && is_char_boundary(tb, a) && is_char_boundary(tb, b) {
        Some(decode_utf8(tb.subrange(a, b)))
    } else {
        None
    }
}

/// The body text that fragment `f` points at, if its range is valid.
pub open spec fn frag_text(text: Seq<char>, f: BodyFragmentDto) -> Option<Seq<char>> {
    byte_slice(text, f.byte_range@[0] as int, f.byte_range@[1] as int)
}

/// Text of the non-quoted fragments, in order.
pub open spec fn drop_render(text: Seq<char>, fs: Seq<BodyFragmentDto>) -> Seq<char>
    decreases fs.len(),
{
    if fs.len() == 0 {
        Seq::empty()
    } else {
        drop_render(text, fs.drop_last()) + if fs.last().kind@ != "quoted"@ {
            match frag_text(text, fs.last()) {
                Some(x) => x,
                None => Seq::empty(),
            }
        } else {
            Seq::empty()
        }
    }
}

/// `[quoted content collapsed: N line(s)]` on a line of its own.
pub open spec fn collapse_marker(n: nat) -> Seq<char> {
    "\n[quoted content collapsed: "@ + decimal(n) + " line"@ + (if n == 1 {
        ""@
    } else {
        "s"@
    }) + "]\n"@
}

/// Fresh fragments kept, each quoted fragment replaced by a marker counting its lines.
pub open spec fn collapse_render(text: Seq<char>, fs: Seq<BodyFragmentDto>) -> Seq<char>
    decreases fs.len(),
{
    if fs.len() == 0 {
        Seq::empty()
    } else {
        collapse_render(text, fs.drop_last()) + if fs.last().kind@ == "quoted"@ {
            collapse_marker(
                match frag_text(text, fs.last()) {
                    Some(x) => lines_of(x).len(),
                    None => 0,
                },
            )
        } else {
            match frag_text(text, fs.last()) {
                Some(x) => x,
                None => Seq::empty(),
            }
        }
    }
}

/// The body as rendered under `mode`.
pub open spec fn render_body_spec(body: BodyDto, mode: QuoteMode) -> Seq<char> {
    match mode {
        QuoteMode::Keep => body.text@,
        QuoteMode::Drop => drop_render(body.text@, body.fragments@),
        QuoteMode::Collapse => collapse_render(body.text@, body.fragments@),
    }
}

/// The text of fragment `f` of `text`, when its byte range is valid.
fn fragment_slice(text: &str, f: &BodyFragmentDto) -> (r: Option<Vec<char>>)
    ensures
        match r {
            Some(v) => frag_text(text@, *f) == Some(v@),
            None => frag_text(text@, *f) is None,
        },
{
    match str_get(text, f.byte_range[0], f.byte_range[1]) {
        Some(x) => {
            proof {
                vstd::utf8::encode_utf8_decode_utf8(x@);
            }
            Some(chars_of(x))
        },
        None => None,
    }
}

/// The collapse marker for `n` lines.
fn collapse_marker_exec(n: usize) -> (r: Vec<char>)
    ensures
        r@ == collapse_marker(n as nat),
{
    let mut out: Vec<char> = Vec::new();
    push_str(&mut out, "\n[quoted content collapsed: ");
    let ghost a = out@;
    push_all(&mut out, decimal_chars(n as u64).as_slice());
    let ghost b = out@;
    push_str(&mut out, " line");
    let ghost c = out@;
    if n != 1 {
        push_str(&mut out, "s");
    } else {
        proof {
            reveal_strlit("");
        }
        assert(out@ =~= c + ""@);
    }
    push_str(&mut out, "]\n");
    out
}

/// Renders the body text under a quote mode.
pub fn render_body_text(body: &BodyDto, quote_mode: QuoteMode) -> (r: String)
    ensures
        r@ == render_body_spec(*body, quote_mode),
{
    match quote_mode {
        QuoteMode::Keep => body.text.clone(),
        QuoteMode::Drop => {
            let mut out: Vec<char> = Vec::new();
            let fs = &body.fragments;
            let mut i: usize = 0;
            while i < fs.len()
                invariant
                    i <= fs@.len(),
                    out@ == drop_render(body.text@, fs@.take(i as int)),
                decreases fs.len() - i,
            {
                assert(fs@.take(i + 1).drop_last() =~= fs@.take(i as int));
                if !str_eq(fs[i].kind.as_str(), "quoted") {
                    if let Some(x) = fragment_slice(body.text.as_str(), &fs[i]) {
                        push_all(&mut out, x.as_slice());
                    }
                }
                i += 1;
            }
            assert(fs@.take(fs@.len() as int) =~= fs@);
            string_of(out.as_slice())
        },
        QuoteMode::Collapse => {
            let mut out: Vec<char> = Vec::new();
            let fs = &body.fragments;
            let mut i: usize = 0;
            while i < fs.len()
                invariant
                    i <= fs@.len(),
                    out@ == collapse_render(body.text@, fs@.take(i as int)),
                decreases fs.len() - i,
            {
                assert(fs@.take(i + 1).drop_last() =~= fs@.take(i as int));
                let piece = fragment_slice(body.text.as_str(), &fs[i]);
                if str_eq(fs[i].kind.as_str(), "quoted") {
                    let n = match &piece {
                        Some(x) => lines_with_offsets(x.as_slice()).len(),
                        None => 0,
                    };
                    let marker = collapse_marker_exec(n);
                    push_all(&mut out, marker.as_slice());
                } else if let Some(x) = piece {
                    push_all(&mut out, x.as_slice());
                }
                i += 1;
            }
            assert(fs@.take(fs@.len() as int) =~= fs@);
            string_of(out.as_slice())
        },
    }
}

} // verus!

verus! {

/// `Name <email>`, the bare email, the bare name, or nothing.
pub open spec fn addr_text(a: crate::model::AddrV) -> Seq<char> {
    match a {
        (Some(n), Some(e)) => n + " <"@ + e + ">"@,
        (None, Some(e)) => e,
        (Some(n), None) => n,
        (None, None) => Seq::empty(),
    }
}

/// Non-empty mailbox texts joined with `, `.
pub open spec fn render_addrs(addrs: Seq<crate::model::AddrV>) -> Seq<char>
    decreases addrs.len(),
{
    if addrs.len() == 0 {
        Seq::empty()
    } else {
        let prev = render_addrs(addrs.drop_last());
        let x = addr_text(addrs.last());
        if x.len() == 0 {
            prev
        } else if prev.len() == 0 {
            x
        } else {
            prev + ", "@ + x
        }
    }
}

/// Non-empty address texts joined with `, `.
pub open spec fn render_addresses_spec(addrs: Seq<AddressDto>) -> Seq<char> {
    render_addrs(crate::model::addrs_v(addrs))
}

fn addr_text_exec(a: &AddressDto) -> (r: Vec<char>)
    ensures
        r@ == addr_text(crate::model::addr_v(*a)),
{
    let mut out: Vec<char> = Vec::new();
    match (&a.name, &a.email) {
        (Some(n), Some(e)) => {
            push_str(&mut out, n.as_str());
            push_str(&mut out, " <");
            push_str(&mut out, e.as_str());
            push_str(&mut out, ">");
        },
        (None, Some(e)) => {
            push_str(&mut out, e.as_str());
        },
        (Some(n), None) => {
            push_str(&mut out, n.as_str());
        },
        (None, None) => {},
    }
    out
}

/// The addresses as `Name <email>` items joined by `, `, skipping empty ones.
pub fn render_addresses(addresses: &Vec<AddressDto>) -> (r: String)
    ensures
        r@ == render_addresses_spec(addresses@),
{
    let mut out: Vec<char> = Vec::new();
    let mut i: usize = 0;
    while i < addresses.len()
        invariant
            i <= addresses@.len(),
            out@ == render_addrs(crate::model::addrs_v(addresses@.take(i as int))),
        decreases addresses.len() - i,
    {
        assert(addresses@.take(i + 1).drop_last() =~= addresses@.take(i as int));
        assert(crate::model::addrs_v(addresses@.take(i + 1)).drop_last() =~= crate::model::addrs_v(
            addresses@.take(i as int),
        ));
        let x = addr_text_exec(&addresses[i]);
        if x.len() > 0 {
            if out.len() > 0 {
                push_str(&mut out, ", ");
            }
            push_all(&mut out, x.as_slice());
        }
        i += 1;
    }
    assert(addresses@.take(addresses@.len() as int) =~= addresses@);
    string_of(out.as_slice())
}

/// `- {id} {filename} {type} {kind} {size} bytes sha256:{hash}` and a newline.
pub open spec fn part_line(p: PartDto) -> Seq<char> {
    "- "@ + p.part_id@ + " "@ + (match p.filename {
        Some(f) => f@,
        None => "(unnamed)"@,
    }) + " "@ + p.content_type@ + " "@ + p.kind@ + " "@ + decimal(p.decoded_size_bytes as nat)
        + " bytes sha256:"@ + p.decoded_sha256@ + "\n"@
}

/// Lines of the parts that are not body parts, in order.
pub open spec fn part_lines(parts: Seq<PartDto>) -> Seq<char>
    decreases parts.len(),
{
    if parts.len() == 0 {
        Seq::empty()
    } else {
        part_lines(parts.drop_last()) + if parts.last().kind@ != "body"@ {
            part_line(parts.last())
        } else {
            Seq::empty()
        }
    }
}

/// Some part is not a body part.
pub open spec fn has_visible_part(parts: Seq<PartDto>) -> bool {
    exists|i: int| 0 <= i < parts.len() && (#[trigger] parts[i]).kind@ != "body"@
}

/// The attachments section: a heading and one line per non-body part, or nothing.
pub open spec fn parts_section(parts: Seq<PartDto>) -> Seq<char> {
    if has_visible_part(parts) {
        "\n\nAttachments and parts:\n"@ + part_lines(parts)
    } else {
        Seq::empty()
    }
}

fn part_line_exec(p: &PartDto) -> (r: Vec<char>)
    ensures
        r@ == part_line(*p),
{
    let mut out: Vec<char> = Vec::new();
    push_str(&mut out, "- ");
    push_str(&mut out, p.part_id.as_str());
    push_str(&mut out, " ");
    match &p.filename {
        Some(f) => push_str(&mut out, f.as_str()),
        None => push_str(&mut out, "(unnamed)"),
    }
    push_str(&mut out, " ");
    push_str(&mut out, p.content_type.as_str());
    push_str(&mut out, " ");
    push_str(&mut out, p.kind.as_str());
    push_str(&mut out, " ");
    push_all(&mut out, decimal_chars(p.decoded_size_bytes as u64).as_slice());
    push_str(&mut out, " bytes sha256:");
    push_str(&mut out, p.decoded_sha256.as_str());
    push_str(&mut out, "\n");
    out
}

/// Appends the attachments section for `parts`.
fn push_parts_section(out: &mut Vec<char>, parts: &Vec<PartDto>)
    ensures
        final(out)@ == old(out)@ + parts_section(parts@),
{
    let mut lines: Vec<char> = Vec::new();
    let mut any = false;
    let mut i: usize = 0;
    while i < parts.len()
        invariant
            i <= parts@.len(),
            lines@ == part_lines(parts@.take(i as int)),
            any <==> exists|k: int| 0 <= k < i && (#[trigger] parts@[k]).kind@ != "body"@,
        decreases parts.len() - i,
    {
        assert(parts@.take(i + 1).drop_last() =~= parts@.take(i as int));
        if !str_eq(parts[i].kind.as_str(), "body") {
            any = true;
            let l = part_line_exec(&parts[i]);
            push_all(&mut lines, l.as_slice());
        }
        i += 1;
    }
    assert(parts@.take(parts@.len() as int) =~= parts@);
    if any {
        push_str(out, "\n\nAttachments and parts:\n");
        push_all(out, lines.as_slice());
        assert(final(out)@ =~= old(out)@ + parts_section(parts@));
    } else {
        assert(parts_section(parts@) =~= Seq::<char>::empty());
        assert(final(out)@ =~= old(out)@ + parts_section(parts@));
    }
}

/// Optional `Label: value` line.
pub open spec fn opt_line(label: Seq<char>, v: Option<String>) -> Seq<char> {
    match v {
        Some(d) => label + d@ + "\n"@,
        None => Seq::empty(),
    }
}

/// `Label: addresses` line when the list is not empty.
pub open spec fn addr_line(label: Seq<char>, addrs: Seq<AddressDto>) -> Seq<char> {
    if addrs.len() > 0 {
        label + render_addresses_spec(addrs) + "\n"@
    } else {
        Seq::empty()
    }
}

/// Subject, date, sender and recipient lines of a message rendering.
pub open spec fn message_head_spec(m: MessageDto) -> Seq<char> {
    "Subject: "@ + (match m.message.subject {
        Some(s) => s@,
        None => "(no subject)"@,
    }) + "\n"@ + opt_line("Date: "@, m.message.date) + addr_line("From: "@, m.message.from@)
        + addr_line("To: "@, m.message.to@)
}

/// The prompt-ready rendering of one message.
pub open spec fn render_message_spec(m: MessageDto, mode: QuoteMode) -> Seq<char> {
    message_head_spec(m) + "\n"@ + render_body_spec(m.body, mode) + parts_section(m.parts@)
}

fn push_opt_line(out: &mut Vec<char>, label: &str, v: &Option<String>)
    ensures
        final(out)@ == old(out)@ + opt_line(label@, *v),
{
    if let Some(d) = v {
        push_str(out, label);
        push_str(out, d.as_str());
        push_str(out, "\n");
    }
    assert(final(out)@ =~= old(out)@ + opt_line(label@, *v));
}

fn push_addr_line(out: &mut Vec<char>, label: &str, addrs: &Vec<AddressDto>)
    ensures
        final(out)@ == old(out)@ + addr_line(label@, addrs@),
{
    if addrs.len() > 0 {
        push_str(out, label);
        push_str(out, render_addresses(addrs).as_str());
        push_str(out, "\n");
    }
    assert(final(out)@ =~= old(out)@ + addr_line(label@, addrs@));
}

fn push_message_head(out: &mut Vec<char>, m: &MessageDto)
    ensures
        final(out)@ == old(out)@ + message_head_spec(*m),
{
    let ghost o = out@;
    push_str(out, "Subject: ");
    match &m.message.subject {
        Some(s) => push_str(out, s.as_str()),
        None => push_str(out, "(no subject)"),
    }
    push_str(out, "\n");
    push_opt_line(out, "Date: ", &m.message.date);
    push_addr_line(out, "From: ", &m.message.from);
    push_addr_line(out, "To: ", &m.message.to);
    assert(out@ =~= o + message_head_spec(*m));
}

/// Renders one message as prompt-ready text: subject, date, sender and
/// recipients, the body under the quote mode, and the non-body parts.
pub fn render_message_text(message: &MessageDto, quote_mode: QuoteMode) -> (r: String)
    ensures
        r@ == render_message_spec(*message, quote_mode),
{
    let mut out: Vec<char> = Vec::new();
    push_message_head(&mut out, message);
    push_str(&mut out, "\n");
    push_str(&mut out, render_body_text(&message.body, quote_mode).as_str());
    push_parts_section(&mut out, &message.parts);
    assert(out@ =~= render_message_spec(*message, quote_mode));
    string_of(out.as_slice())
}

} // verus!

verus! {

/// First node from index `i` on whose id is `id`.
pub open spec fn find_node_from(nodes: Seq<crate::dto::ThreadNodeDto>, id: Seq<char>, i: int) -> Option<
    int,
>
    decreases nodes.len() - i,
{
    if i < 0 || i >= nodes.len() {
        None
    } else if nodes[i].node_id@ == id {
        Some(i)
    } else {
        find_node_from(nodes, id, i + 1)
    }
}

/// One timeline entry: `[node] date sender`, the body, its parts, and a blank line.
pub open spec fn node_text(n: crate::dto::ThreadNodeDto, mode: QuoteMode) -> Seq<char> {
    "["@ + n.node_id@ + "] "@ + (match n.message.message.date {
        Some(d) => d@,
        None => "(no date)"@,
    }) + " "@ + (if n.message.message.from@.len() == 0 {
        "(unknown sender)"@
    } else {
        render_addresses_spec(n.message.message.from@)
    }) + "\n"@ + render_body_spec(n.message.body, mode) + parts_section(n.message.parts@) + "\n\n"@
}

/// The timeline entries of a thread for the given node ids; ids with no node are skipped.
pub open spec fn timeline_text(
    nodes: Seq<crate::dto::ThreadNodeDto>,
    ids: Seq<String>,
    mode: QuoteMode,
) -> Seq<char>
    decreases ids.len(),
{
    if ids.len() == 0 {
        Seq::empty()
    } else {
        timeline_text(nodes, ids.drop_last(), mode) + match find_node_from(
            nodes,
            ids.last()@,
            0,
        ) {
            Some(k) => node_text(nodes[k], mode),
            None => Seq::empty(),
        }
    }
}

/// `Thread: subject`, a blank line, then the timeline.
pub open spec fn thread_text(t: crate::dto::ThreadDto, mode: QuoteMode) -> Seq<char> {
    "Thread: "@ + (match t.base_subject {
        Some(s) => s@,
        None => "(no subject)"@,
    }) + "\n\n"@ + timeline_text(t.nodes@, t.timeline@, mode)
}

/// All threads, one after another.
pub open spec fn threads_text(ts: Seq<crate::dto::ThreadDto>, mode: QuoteMode) -> Seq<char>
    decreases ts.len(),
{
    if ts.len() == 0 {
        Seq::empty()
    } else {
        threads_text(ts.drop_last(), mode) + thread_text(ts.last(), mode)
    }
}

/// The prompt-ready rendering of a thread envelope, without trailing whitespace.
pub open spec fn render_thread_spec(env: ThreadEnvelopeDto, mode: QuoteMode) -> Seq<char> {
    trim_end(threads_text(env.threads@, mode))
}

fn find_node(nodes: &Vec<crate::dto::ThreadNodeDto>, id: &String) -> (r: Option<usize>)
    ensures
        r matches Some(k) ==> find_node_from(nodes@, id@, 0) == Some(k as int) && k < nodes@.len(),
        r is None ==> find_node_from(nodes@, id@, 0) is None,
{
    let mut i: usize = 0;
    while i < nodes.len()
        invariant
            i <= nodes@.len(),
            find_node_from(nodes@, id@, i as int) == find_node_from(nodes@, id@, 0),
        decreases nodes.len() - i,
    {
        if str_eq(nodes[i].node_id.as_str(), id.as_str()) {
            return Some(i);
        }
        i += 1;
    }
    None
}

fn push_node_text(out: &mut Vec<char>, n: &crate::dto::ThreadNodeDto, mode: QuoteMode)
    ensures
        final(out)@ == old(out)@ + node_text(*n, mode),
{
    let ghost o = out@;
    push_str(out, "[");
    push_str(out, n.node_id.as_str());
    push_str(out, "] ");
    match &n.message.message.date {
        Some(d) => push_str(out, d.as_str()),
        None => push_str(out, "(no date)"),
    }
    push_str(out, " ");
    if n.message.message.from.len() == 0 {
        push_str(out, "(unknown sender)");
    } else {
        push_str(out, render_addresses(&n.message.message.from).as_str());
    }
    push_str(out, "\n");
    let ghost h = out@;
    push_str(out, render_body_text(&n.message.body, mode).as_str());
    push_parts_section(out, &n.message.parts);
    push_str(out, "\n\n");
    assert(out@ =~= o + node_text(*n, mode));
}

fn push_thread_text(out: &mut Vec<char>, t: &crate::dto::ThreadDto, mode: QuoteMode)
    ensures
        final(out)@ == old(out)@ + thread_text(*t, mode),
{
    let ghost o = out@;
    push_str(out, "Thread: ");
    match &t.base_subject {
        Some(s) => push_str(out, s.as_str()),
        None => push_str(out, "(no subject)"),
    }
    push_str(out, "\n\n");
    let ghost h = out@;
    let mut i: usize = 0;
    while i < t.timeline.len()
        invariant
            i <= t.timeline@.len(),
            out@ == h + timeline_text(t.nodes@, t.timeline@.take(i as int), mode),
        decreases t.timeline.len() - i,
    {
        assert(t.timeline@.take(i + 1).drop_last() =~= t.timeline@.take(i as int));
        match find_node(&t.nodes, &t.timeline[i]) {
            Some(k) => {
                push_node_text(out, &t.nodes[k], mode);
            },
            None => {},
        }
        i += 1;
        assert(out@ =~= h + timeline_text(t.nodes@, t.timeline@.take(i as int), mode));
    }
    assert(t.timeline@.take(t.timeline@.len() as int) =~= t.timeline@);
    assert(out@ =~= o + thread_text(*t, mode));
}

/// Renders every thread as prompt-ready text: a subject heading, then each
/// timeline node's header line, body and parts; trailing whitespace removed.
pub fn render_thread_text(envelope: &ThreadEnvelopeDto, quote_mode: QuoteMode) -> (r: String)
    ensures
        r@ == render_thread_spec(*envelope, quote_mode),
{
    let mut out: Vec<char> = Vec::new();
    let ts = &envelope.threads;
    let mut i: usize = 0;
    while i < ts.len()
        invariant
            i <= ts@.len(),
            out@ == threads_text(ts@.take(i as int), quote_mode),
        decreases ts.len() - i,
    {
        assert(ts@.take(i + 1).drop_last() =~= ts@.take(i as int));
        push_thread_text(&mut out, &ts[i], quote_mode);
        i += 1;
    }
    assert(ts@.take(ts@.len() as int) =~= ts@);
    let mut b: usize = out.len();
    while b > 0 && crate::text::char_is_ws(out[b - 1])
        invariant
            b <= out@.len(),
            crate::text::ws_back(out@, b as int) == crate::text::ws_back(out@, out@.len() as int),
        decreases b,
    {
        b -= 1;
    }
    string_of(crate::text::sub_chars(out.as_slice(), 0, b).as_slice())
}

} // verus!

verus! {

proof fn lemma_middle_cancel(a: Seq<char>, x: Seq<char>, y: Seq<char>, c: Seq<char>)
    ensures
        a + x + c == a + y + c <==> x == y,
{
    if a + x + c == a + y + c {
        let l = a + x + c;
        let r = a + y + c;
        assert(l.len() == r.len());
        assert forall|k: int| 0 <= k < x.len() implies x[k] == y[k] by {
            assert(l[a.len() + k] == x[k]);
            assert(r[a.len() + k] == y[k]);
        }
        assert(x =~= y);
    }
}

/// Under `Keep` the body is rendered as the body text itself, whatever its
/// fragments say.
pub proof fn lemma_keep_renders_body_text(body: BodyDto)
    ensures
        render_body_spec(body, QuoteMode::Keep) == body.text@,
{
}

/// Under `Keep` a message rendering holds the whole body text between the
/// message head and the parts section.
pub proof fn lemma_message_keep_shows_whole_body(m: MessageDto)
    ensures
        render_message_spec(m, QuoteMode::Keep) == message_head_spec(m) + "\n"@ + m.body.text@ + parts_section(
            m.parts@,
        ),
{
}

/// The quote mode acts on the body section and nowhere else: a message
/// rendering, or a thread node's entry, is the same under two modes exactly
/// when the body renders the same under both.
pub proof fn lemma_quote_mode_reaches_body(m: MessageDto, n: crate::dto::ThreadNodeDto, a: QuoteMode, b: QuoteMode)
    ensures
        render_message_spec(m, a) == render_message_spec(m, b) <==> render_body_spec(m.body, a)
            == render_body_spec(m.body, b),
        node_text(n, a) == node_text(n, b) <==> render_body_spec(n.message.body, a) == render_body_spec(
            n.message.body,
            b,
        ),
{
    lemma_middle_cancel(
        message_head_spec(m) + "\n"@,
        render_body_spec(m.body, a),
        render_body_spec(m.body, b),
        parts_section(m.parts@),
    );
    let head = "["@ + n.node_id@ + "] "@ + (match n.message.message.date {
        Some(d) => d@,
        None => "(no date)"@,
    }) + " "@ + (if n.message.message.from@.len() == 0 {
        "(unknown sender)"@
    } else {
        render_addresses_spec(n.message.message.from@)
    }) + "\n"@;
    let tail = parts_section(n.message.parts@) + "\n\n"@;
    assert(node_text(n, a) =~= head + render_body_spec(n.message.body, a) + tail);
    assert(node_text(n, b) =~= head + render_body_spec(n.message.body, b) + tail);
    lemma_middle_cancel(head, render_body_spec(n.message.body, a), render_body_spec(n.message.body, b), tail);
}

/// A thread whose timeline names just its one node is rendered, under any
/// quote mode, as its heading followed by that node's entry under the same
/// mode.
pub proof fn lemma_single_node_thread_text(t: crate::dto::ThreadDto, mode: QuoteMode)
    requires
        t.nodes@.len() == 1,
        t.timeline@.len() == 1,
        t.timeline@[0]@ == t.nodes@[0].node_id@,
    ensures
        thread_text(t, mode) == "Thread: "@ + (match t.base_subject {
            Some(s) => s@,
            None => "(no subject)"@,
        }) + "\n\n"@ + node_text(t.nodes@[0], mode),
{
    assert(find_node_from(t.nodes@, t.timeline@[0]@, 0) == Some(0int));
    assert(t.timeline@.drop_last().len() == 0);
    assert(timeline_text(t.nodes@, t.timeline@.drop_last(), mode) == Seq::<char>::empty());
    assert(t.timeline@.last() == t.timeline@[0]);
    assert(timeline_text(t.nodes@, t.timeline@, mode) =~= node_text(t.nodes@[0], mode));
}

} // verus!

verus! {

proof fn lemma_drop_all_quoted(text: Seq<char>, fs: Seq<BodyFragmentDto>)
    requires
        forall|i: int| 0 <= i < fs.len() ==> (#[trigger] fs[i]).kind@ == "quoted"@,
    ensures
        drop_render(text, fs) == Seq::<char>::empty(),
    decreases fs.len(),
{
    if fs.len() > 0 {
        lemma_drop_all_quoted(text, fs.drop_last());
        assert(fs.last() == fs[fs.len() - 1]);
    }
}

proof fn lemma_drop_collapse_fresh(text: Seq<char>, fs: Seq<BodyFragmentDto>)
    requires
        forall|i: int| 0 <= i < fs.len() ==> (#[trigger] fs[i]).kind@ != "quoted"@,
    ensures
        drop_render(text, fs) == collapse_render(text, fs),
    decreases fs.len(),
{
    if fs.len() > 0 {
        lemma_drop_collapse_fresh(text, fs.drop_last());
        assert(fs.last() == fs[fs.len() - 1]);
    }
}

/// Dropping quotes leaves nothing of quoted fragments: a body whose fragments
/// are all quoted renders empty under `Drop`.
pub proof fn lemma_drop_leaves_no_quoted_text(body: BodyDto)
    requires
        forall|i: int| 0 <= i < body.fragments@.len() ==> (#[trigger] body.fragments@[i]).kind@ == "quoted"@,
    ensures
        render_body_spec(body, QuoteMode::Drop) == Seq::<char>::empty(),
{
    lemma_drop_all_quoted(body.text@, body.fragments@);
}

/// `Drop` and `Collapse` differ only on quoted fragments: on a body with no
/// quoted fragment they render the same.
pub proof fn lemma_drop_collapse_agree_on_fresh(body: BodyDto)
    requires
        forall|i: int| 0 <= i < body.fragments@.len() ==> (#[trigger] body.fragments@[i]).kind@ != "quoted"@,
    ensures
        render_body_spec(body, QuoteMode::Drop) == render_body_spec(body, QuoteMode::Collapse),
{
    lemma_drop_collapse_fresh(body.text@, body.fragments@);
}

} // verus!

verus! {

proof fn lemma_collapse_marks_quotes(text: Seq<char>, fs: Seq<BodyFragmentDto>, q: int)
    requires
        0 <= q < fs.len(),
        fs[q].kind@ == "quoted"@,
    ensures
        collapse_render(text, fs).len() > 0,
    decreases fs.len(),
{
    if q < fs.len() - 1 {
        lemma_collapse_marks_quotes(text, fs.drop_last(), q);
    } else {
        assert(fs.last() == fs[q]);
        reveal_strlit("\n[quoted content collapsed: ");
    }
}

/// `Collapse` never lets a quoted fragment vanish: a body with a quoted
/// fragment renders a marker for it, so its rendering is not empty, where
/// `Drop` leaves nothing of a body whose fragments are all quoted.
pub proof fn lemma_collapse_marks_quoted_fragment(body: BodyDto, q: int)
    requires
        0 <= q < body.fragments@.len(),
        body.fragments@[q].kind@ == "quoted"@,
    ensures
        render_body_spec(body, QuoteMode::Collapse).len() > 0,
{
    lemma_collapse_marks_quotes(body.text@, body.fragments@, q);
}

} // verus!

verus! {

/// An envelope with one thread renders, under any quote mode, as that
/// thread's text under the same mode, trailing whitespace removed.
pub proof fn lemma_single_thread_envelope_text(env: ThreadEnvelopeDto, mode: QuoteMode)
    requires
        env.threads@.len() == 1,
    ensures
        render_thread_spec(env, mode) == trim_end(thread_text(env.threads@[0], mode)),
{
    let ts = env.threads@;
    assert(ts.drop_last().len() == 0);
    assert(threads_text(ts.drop_last(), mode) == Seq::<char>::empty());
    assert(ts.last() == ts[0]);
    assert(threads_text(ts, mode) =~= thread_text(ts[0], mode));
}

} // verus!
