//! Body fragments: maximal runs of lines that share a quote kind and depth,
//! identified by byte range and content hash, and the byte-limit truncation
//! that clips them.
use vstd::prelude::*;
use vstd::utf8::encode_utf8;
use crate::dto::BodyFragmentDto;
use crate::encode::{
    byte_len, byte_off, byte_offsets, decimal, decimal_chars, lemma_byte_off_mono,
    lemma_byte_off_strict, lemma_encode_subrange, sha256_hex, sha256_hex_spec, short_sha256,
    short_sha256_spec,
};
use crate::quote::{
    is_reply_attribution, is_reply_attribution_spec, lemma_lines_tile, line_text, lines_of,
    lines_with_offsets, quote_depth, quote_depth_spec, tail_quote_start, tail_quote_start_spec,
    trimmed_lines, lt, tail_from,
};
use crate::text::{chars_of, lit, push_all, starts_with_ic, string_of, sub_chars};

verus! {

/// Line `k` of `t` is quoted: it lies in the quoted tail, carries `>` markers,
/// or is a reply attribution.
#[verifier::opaque]
pub open spec fn line_quoted(t: Seq<char>, k: int) -> bool {
    (tail_quote_start_spec(t) matches Some(ts) && k >= ts) || quote_depth_spec(line_text(t, k)) > 0
        || is_reply_attribution_spec(line_text(t, k))
}

/// Quote depth recorded for line `k`: at least 1 when quoted, 0 when fresh.
#[verifier::opaque]
pub open spec fn line_depth(t: Seq<char>, k: int) -> nat {
    if line_quoted(t, k) {
        if quote_depth_spec(line_text(t, k)) > 0 {
            quote_depth_spec(line_text(t, k))
        } else {
            1
        }
    } else {
        0
    }
}

/// Runs from line `k` on, given the run `(q, d, s, e)` that is still open.
pub open spec fn runs_acc(t: Seq<char>, k: int, q: bool, d: nat, s: int, e: int) -> Seq<
    (bool, nat, int, int),
>
    decreases lines_of(t).len() - k,
{
    if k < 0 || k >= lines_of(t).len() {
        seq![(q, d, s, e)]
    } else if line_quoted(t, k) == q && line_depth(t, k) == d {
        runs_acc(t, k + 1, q, d, s, lines_of(t)[k].1)
    } else {
        seq![(q, d, s, e)] + runs_acc(
            t,
            k + 1,
            line_quoted(t, k),
            line_depth(t, k),
            lines_of(t)[k].0,
            lines_of(t)[k].1,
        )
    }
}

/// Maximal runs of consecutive lines with equal quotedness and depth, as
/// `(quoted, depth, first character, end character)`.
pub open spec fn quote_runs(t: Seq<char>) -> Seq<(bool, nat, int, int)> {
    if lines_of(t).len() == 0 {
        Seq::empty()
    } else {
        runs_acc(t, 1, line_quoted(t, 0), line_depth(t, 0), lines_of(t)[0].0, lines_of(t)[0].1)
    }
}

/// The text hashed to name a fragment: `{part}:{start}:{end}:{sha256}`.
pub open spec fn frag_seed(part: Seq<char>, bs: nat, be: nat, sha: Seq<char>) -> Seq<char> {
    part + seq![':'] + decimal(bs) + seq![':'] + decimal(be) + seq![':'] + sha
}

/// `frag_` and the short hash of the fragment's seed.
pub open spec fn frag_id_spec(part: Seq<char>, bs: nat, be: nat, sha: Seq<char>) -> Seq<char> {
    seq!['f', 'r', 'a', 'g', '_'] + short_sha256_spec(encode_utf8(frag_seed(part, bs, be, sha)))
}

/// `f` is the fragment of characters `cs..ce` of `t`, in MIME part `part`.
pub open spec fn fragment_of(
    f: BodyFragmentDto,
    t: Seq<char>,
    part: Seq<char>,
    quoted: bool,
    depth: nat,
    cs: int,
    ce: int,
    truncated: bool,
) -> bool {
    let bs = byte_off(t, cs);
    let be = byte_off(t, ce);
    let sha = sha256_hex_spec(encode_utf8(t.subrange(cs, ce)));
    &&& f.kind@ == (if quoted {
        "quoted"@
    } else {
        "fresh"@
    })
    &&& f.quote_depth == depth
    &&& f.part_id@ == part
    &&& f.byte_range@[0] == bs
    &&& f.byte_range@[1] == be
    &&& f.sha256@ == sha
    &&& f.id@ == frag_id_spec(part, bs, be, sha)
    &&& f.truncated == truncated
}

/// Quotedness and depth of every line.
fn line_classes(t: &[char], lines: &Vec<(usize, usize)>) -> (r: Vec<(bool, usize)>)
    requires
        lines@.len() == lines_of(t@).len(),
        forall|k: int|
            0 <= k < lines@.len() ==> (#[trigger] lines@[k]).0 == lines_of(t@)[k].0 && lines@[k].1
                == lines_of(t@)[k].1,
    ensures
        r@.len() == lines@.len(),
        forall|k: int|
            0 <= k < r@.len() ==> (#[trigger] r@[k]).0 == line_quoted(t@, k) && r@[k].1
                == line_depth(t@, k),
{
    proof {
        lemma_lines_tile(t@);
        reveal(line_quoted);
        reveal(line_depth);
    }
    let tr = trimmed_lines(t, lines);
    let tail = tail_quote_start(t, &tr);
    let mut r: Vec<(bool, usize)> = Vec::new();
    let mut k: usize = 0;
    while k < lines.len()
        invariant
            k <= lines@.len() == lines_of(t@).len(),
            r@.len() == k,
            forall|j: int|
                0 <= j < lines@.len() ==> (#[trigger] lines@[j]).0 == lines_of(t@)[j].0
                    && lines@[j].1 == lines_of(t@)[j].1,
            forall|j: int|
                0 <= j < lines_of(t@).len() ==> 0 <= (#[trigger] lines_of(t@)[j]).0
                    < lines_of(t@)[j].1 <= t@.len(),
            tail matches Some(i) ==> tail_quote_start_spec(t@) == Some(i as int),
            tail is None ==> tail_quote_start_spec(t@) is None,
            forall|j: int|
                0 <= j < r@.len() ==> (#[trigger] r@[j]).0 == line_quoted(t@, j) && r@[j].1
                    == line_depth(t@, j),
        decreases lines.len() - k,
    {
        let (s, e) = lines[k];
        let line = sub_chars(t, s, e);
        let in_tail = match tail {
            Some(ts) => k >= ts,
            None => false,
        };
        let depth = quote_depth(line.as_slice());
        let quoted = in_tail || depth > 0 || is_reply_attribution(line.as_slice());
        proof {
            reveal(line_quoted);
            reveal(line_depth);
        }
        let d = if quoted {
            if depth > 0 {
                depth
            } else {
                1
            }
        } else {
            0
        };
        r.push((quoted, d));
        k += 1;
    }
    r
}

/// The quote runs of `t` as `(quoted, depth, first character, end character)`.
pub fn quote_runs_exec(t: &[char]) -> (r: Vec<(bool, usize, usize, usize)>)
    ensures
        r@.len() == quote_runs(t@).len(),
        forall|i: int|
            0 <= i < r@.len() ==> {
                let x = #[trigger] r@[i];
                let y = quote_runs(t@)[i];
                x.0 == y.0 && x.1 == y.1 && x.2 == y.2 && x.3 == y.3
            },
{
    let lines = lines_with_offsets(t);
    let classes = line_classes(t, &lines);
    let mut r: Vec<(bool, usize, usize, usize)> = Vec::new();
    if lines.len() == 0 {
        return r;
    }
    let (mut s, mut e) = lines[0];
    let (mut q, mut d) = classes[0];
    let ghost mut out: Seq<(bool, nat, int, int)> = Seq::empty();
    let mut k: usize = 1;
    while k < lines.len()
        invariant
            1 <= k <= lines@.len() == lines_of(t@).len() == classes@.len(),
            forall|j: int|
                0 <= j < lines@.len() ==> (#[trigger] lines@[j]).0 == lines_of(t@)[j].0
                    && lines@[j].1 == lines_of(t@)[j].1,
            forall|j: int|
                0 <= j < classes@.len() ==> (#[trigger] classes@[j]).0 == line_quoted(t@, j)
                    && classes@[j].1 == line_depth(t@, j),
            out + runs_acc(t@, k as int, q, d as nat, s as int, e as int) == quote_runs(t@),
            r@.len() == out.len(),
            forall|j: int|
                0 <= j < r@.len() ==> {
                    let x = #[trigger] r@[j];
                    let y = out[j];
                    x.0 == y.0 && x.1 == y.1 && x.2 == y.2 && x.3 == y.3
                },
        decreases lines.len() - k,
    {
        let (ls, le) = lines[k];
        let (lq, ld) = classes[k];
        if lq == q && ld == d {
            e = le;
        } else {
            proof {
                assert(out + runs_acc(t@, k as int, q, d as nat, s as int, e as int) =~= out.push(
                    (q, d as nat, s as int, e as int),
                ) + runs_acc(t@, k + 1, lq, ld as nat, ls as int, le as int));
                out = out.push((q, d as nat, s as int, e as int));
            }
            r.push((q, d, s, e));
            q = lq;
            d = ld;
            s = ls;
            e = le;
        }
        k += 1;
    }
    proof {
        assert(out + runs_acc(t@, k as int, q, d as nat, s as int, e as int) =~= out.push(
            (q, d as nat, s as int, e as int),
        ));
    }
    r.push((q, d, s, e));
    r
}

/// The fragment of characters `cs..ce` of `t`, whose UTF-8 bytes are `tb` and
/// whose character offsets are `offs`.
pub fn make_fragment(
    t: &[char],
    tb: &[u8],
    offs: &Vec<usize>,
    part: &[char],
    quoted: bool,
    depth: usize,
    cs: usize,
    ce: usize,
    truncated: bool,
) -> (f: BodyFragmentDto)
    requires
        tb@ == encode_utf8(t@),
        offs@.len() == t@.len() + 1,
        forall|k: int| 0 <= k <= t@.len() ==> #[trigger] offs@[k] == byte_off(t@, k),
        cs <= ce <= t@.len(),
    ensures
        fragment_of(f, t@, part@, quoted, depth as nat, cs as int, ce as int, truncated),
{
    proof {
        lemma_encode_subrange(t@, cs as int, ce as int);
        lemma_byte_off_mono(t@, cs as int, ce as int);
        lemma_byte_off_mono(t@, ce as int, t@.len() as int);
    }
    let bs = offs[cs];
    let be = offs[ce];
    let bytes = vstd::slice::slice_subrange(tb, bs, be);
    let sha = sha256_hex(bytes);
    let sha_chars = chars_of(sha.as_str());
    let mut seed: Vec<char> = Vec::new();
    push_all(&mut seed, part);
    seed.push(':');
    push_all(&mut seed, decimal_chars(bs as u64).as_slice());
    seed.push(':');
    push_all(&mut seed, decimal_chars(be as u64).as_slice());
    seed.push(':');
    push_all(&mut seed, sha_chars.as_slice());
    assert(seed@ =~= crate::body::frag_seed(part@, bs as nat, be as nat, sha@));
    let seed_str = string_of(seed.as_slice());
    let short = short_sha256(seed_str.as_str().as_bytes());
    let mut id: Vec<char> = vec!['f', 'r', 'a', 'g', '_'];
    push_all(&mut id, short.as_slice());
    assert(id@ =~= frag_id_spec(part@, bs as nat, be as nat, sha@));
    let kind = if quoted {
        lit("quoted")
    } else {
        lit("fresh")
    };
    BodyFragmentDto {
        id: string_of(id.as_slice()),
        kind,
        quote_depth: depth,
        part_id: string_of(part),
        byte_range: [bs, be],
        sha256: sha,
        truncated,
    }
}

} // verus!

verus! {

proof fn lemma_runs_acc_tile(t: Seq<char>, k: int, q: bool, d: nat, s: int, e: int)
    requires
        1 <= k <= lines_of(t).len(),
        0 <= s < e,
        e == lines_of(t)[k - 1].1,
        line_quoted(t, k - 1) == q,
        line_depth(t, k - 1) == d,
    ensures
        ({
            let rs = runs_acc(t, k, q, d, s, e);
            &&& rs.len() > 0
            &&& rs[0].2 == s
            &&& rs[0].0 == q
            &&& rs[0].1 == d
            &&& rs.last().3 == t.len()
            &&& forall|i: int| 0 <= i < rs.len() ==> (#[trigger] rs[i]).2 < rs[i].3
            &&& forall|i: int| 0 <= i < rs.len() - 1 ==> (#[trigger] rs[i]).3 == rs[i + 1].2
            &&& forall|i: int|
                0 <= i < rs.len() - 1 ==> (#[trigger] rs[i]).0 != rs[i + 1].0 || rs[i].1 != rs[i
                    + 1].1
        }),
    decreases lines_of(t).len() - k,
{
    lemma_lines_tile(t);
    let n = lines_of(t).len() as int;
    if k >= n {
    } else if line_quoted(t, k) == q && line_depth(t, k) == d {
        lemma_runs_acc_tile(t, k + 1, q, d, s, lines_of(t)[k].1);
    } else {
        let (ls, le) = (lines_of(t)[k].0, lines_of(t)[k].1);
        lemma_runs_acc_tile(t, k + 1, line_quoted(t, k), line_depth(t, k), ls, le);
        let rest = runs_acc(t, k + 1, line_quoted(t, k), line_depth(t, k), ls, le);
        let rs = runs_acc(t, k, q, d, s, e);
        assert(rs == seq![(q, d, s, e)] + rest);
        assert forall|i: int| 0 <= i < rs.len() implies (#[trigger] rs[i]).2 < rs[i].3 by {
            if i > 0 {
                assert(rs[i] == rest[i - 1]);
            }
        }
        assert forall|i: int| 0 <= i < rs.len() - 1 implies (#[trigger] rs[i]).3 == rs[i + 1].2 by {
            if i > 0 {
                assert(rs[i] == rest[i - 1]);
                assert(rs[i + 1] == rest[i]);
            }
        }
        assert forall|i: int| 0 <= i < rs.len() - 1 implies (#[trigger] rs[i]).0 != rs[i + 1].0
            || rs[i].1 != rs[i + 1].1 by {
            if i > 0 {
                assert(rs[i] == rest[i - 1]);
                assert(rs[i + 1] == rest[i]);
            }
        }
    }
}

/// Quote runs tile the text: they are non-empty, in order, adjacent, cover
/// every character, and no two neighbours share both quotedness and depth.
pub proof fn lemma_quote_runs_tile(t: Seq<char>)
    ensures
        ({
            let rs = quote_runs(t);
            &&& rs.len() == 0 <==> t.len() == 0
            &&& rs.len() > 0 ==> rs[0].2 == 0 && rs.last().3 == t.len()
            &&& forall|i: int| 0 <= i < rs.len() ==> 0 <= (#[trigger] rs[i]).2 < rs[i].3 <= t.len()
            &&& forall|i: int| 0 <= i < rs.len() - 1 ==> (#[trigger] rs[i]).3 == rs[i + 1].2
            &&& forall|i: int|
                0 <= i < rs.len() - 1 ==> (#[trigger] rs[i]).0 != rs[i + 1].0 || rs[i].1 != rs[i
                    + 1].1
        }),
{
    lemma_lines_tile(t);
    if lines_of(t).len() > 0 {
        let rs = quote_runs(t);
        lemma_runs_acc_tile(
            t,
            1,
            line_quoted(t, 0),
            line_depth(t, 0),
            lines_of(t)[0].0,
            lines_of(t)[0].1,
        );
        assert forall|i: int| 0 <= i < rs.len() implies 0 <= (#[trigger] rs[i]).2 < rs[i].3
            <= t.len() by {
            if i > 0 {
                assert(rs[i - 1].3 == rs[i].2);
            }
            lemma_runs_ordered(rs, i);
        }
    }
}

proof fn lemma_runs_ordered(rs: Seq<(bool, nat, int, int)>, i: int)
    requires
        0 <= i < rs.len(),
        rs[0].2 >= 0,
        forall|j: int| 0 <= j < rs.len() ==> (#[trigger] rs[j]).2 < rs[j].3,
        forall|j: int| 0 <= j < rs.len() - 1 ==> (#[trigger] rs[j]).3 == rs[j + 1].2,
    ensures
        rs[0].2 <= rs[i].2,
        rs[i].3 <= rs.last().3,
    decreases rs.len() - i,
{
    lemma_runs_ordered_lo(rs, i);
    if i < rs.len() - 1 {
        lemma_runs_ordered(rs, i + 1);
    }
}

proof fn lemma_runs_ordered_lo(rs: Seq<(bool, nat, int, int)>, i: int)
    requires
        0 <= i < rs.len(),
        forall|j: int| 0 <= j < rs.len() ==> (#[trigger] rs[j]).2 < rs[j].3,
        forall|j: int| 0 <= j < rs.len() - 1 ==> (#[trigger] rs[j]).3 == rs[j + 1].2,
    ensures
        rs[0].2 <= rs[i].2,
    decreases i,
{
    if i > 0 {
        lemma_runs_ordered_lo(rs, i - 1);
    }
}

/// The full-length fragments of `text`, one per quote run.
pub fn quote_fragments(text: &str, part_id: &str) -> (r: Vec<BodyFragmentDto>)
    ensures
        r@.len() == quote_runs(text@).len(),
        forall|i: int|
            0 <= i < r@.len() ==> {
                let q = quote_runs(text@)[i];
                fragment_of(#[trigger] r@[i], text@, part_id@, q.0, q.1, q.2, q.3, false)
            },
{
    let t = chars_of(text);
    let tb = text.as_bytes();
    let part = chars_of(part_id);
    proof {
        lemma_quote_runs_tile(t@);
    }
    assert(tb@.len() == tb.len());
    let offs = byte_offsets(t.as_slice());
    let runs = quote_runs_exec(t.as_slice());
    let mut r: Vec<BodyFragmentDto> = Vec::new();
    let mut i: usize = 0;
    while i < runs.len()
        invariant
            i <= runs@.len() == quote_runs(t@).len(),
            t@ == text@,
            part@ == part_id@,
            tb@ == encode_utf8(t@),
            offs@.len() == t@.len() + 1,
            forall|k: int| 0 <= k <= t@.len() ==> #[trigger] offs@[k] == byte_off(t@, k),
            forall|j: int|
                0 <= j < runs@.len() ==> {
                    let x = #[trigger] runs@[j];
                    let y = quote_runs(t@)[j];
                    x.0 == y.0 && x.1 == y.1 && x.2 == y.2 && x.3 == y.3
                },
            forall|j: int|
                0 <= j < quote_runs(t@).len() ==> 0 <= (#[trigger] quote_runs(t@)[j]).2
                    < quote_runs(t@)[j].3 <= t@.len(),
            r@.len() == i,
            forall|j: int|
                0 <= j < i ==> {
                    let q = quote_runs(text@)[j];
                    fragment_of(#[trigger] r@[j], text@, part_id@, q.0, q.1, q.2, q.3, false)
                },
        decreases runs.len() - i,
    {
        let (q, d, cs, ce) = runs[i];
        proof {
            let _ = quote_runs(t@)[i as int];
        }
        r.push(
            make_fragment(
                t.as_slice(),
                tb,
                &offs,
                part.as_slice(),
                q,
                d,
                cs,
                ce,
                false,
            ),
        );
        i += 1;
    }
    r
}

/// Largest `j` reachable from `k` such that the first `j` characters fit in `max` bytes.
pub open spec fn fit_from(t: Seq<char>, k: int, max: int) -> int
    decreases t.len() - k,
{
    if 0 <= k < t.len() && byte_off(t, k + 1) <= max {
        fit_from(t, k + 1, max)
    } else {
        k
    }
}

/// Number of leading characters whose UTF-8 encoding fits in `max` bytes.
pub open spec fn fit(t: Seq<char>, max: int) -> int {
    fit_from(t, 0, max)
}

proof fn lemma_fit_from(t: Seq<char>, k: int, max: int)
    requires
        0 <= k <= t.len(),
        byte_off(t, k) <= max,
    ensures
        k <= fit_from(t, k, max) <= t.len(),
        byte_off(t, fit_from(t, k, max)) <= max,
        fit_from(t, k, max) == t.len() || byte_off(t, fit_from(t, k, max) + 1) > max,
    decreases t.len() - k,
{
    if 0 <= k < t.len() && byte_off(t, k + 1) <= max {
        lemma_fit_from(t, k + 1, max);
    }
}

/// The kept prefix is the longest whole-character prefix within the limit:
/// its bytes fit, the next character would not, and nothing is cut when the
/// whole text fits.
pub proof fn lemma_fit(t: Seq<char>, max: int)
    requires
        max >= 0,
    ensures
        0 <= fit(t, max) <= t.len(),
        byte_off(t, fit(t, max)) <= max,
        fit(t, max) == t.len() || byte_off(t, fit(t, max) + 1) > max,
        byte_len(t) <= max ==> fit(t, max) == t.len(),
{
    assert(t.take(0) =~= Seq::<char>::empty());
    assert(encode_utf8(Seq::<char>::empty()) =~= Seq::<u8>::empty());
    lemma_fit_from(t, 0, max);
    lemma_encode_subrange(t, 0, 0);
    if byte_len(t) <= max && fit(t, max) < t.len() {
        lemma_byte_off_mono(t, fit(t, max) + 1, t.len() as int);
    }
}

/// The largest character boundary of `text` at or before byte `max`, or the
/// text's length when it fits.
pub fn utf8_boundary_at_or_before(text: &[char], offs: &Vec<usize>, max: usize) -> (r: (
    usize,
    usize,
))
    requires
        offs@.len() == text@.len() + 1,
        forall|k: int| 0 <= k <= text@.len() ==> #[trigger] offs@[k] == byte_off(text@, k),
    ensures
        r.0 == fit(text@, max as int),
        r.1 == byte_off(text@, fit(text@, max as int)),
{
    let mut k: usize = 0;
    assert(text@.take(0) =~= Seq::<char>::empty());
    assert(encode_utf8(Seq::<char>::empty()) =~= Seq::<u8>::empty());
    while k < text.len() && offs[k + 1] <= max
        invariant
            k <= text@.len(),
            offs@.len() == text@.len() + 1,
            forall|j: int| 0 <= j <= text@.len() ==> #[trigger] offs@[j] == byte_off(text@, j),
            fit_from(text@, k as int, max as int) == fit(text@, max as int),
        decreases text.len() - k,
    {
        k += 1;
    }
    (k, offs[k])
}

/// `value` cut to its longest whole-character prefix within `max` bytes, and
/// whether anything was cut.
pub fn truncate_to_max_body_bytes(value: &str, max: usize) -> (r: (String, bool))
    ensures
        r.0@ == value@.take(fit(value@, max as int)),
        r.1 == (byte_len(value@) > max),
{
    let t = chars_of(value);
    let tb = value.as_bytes();
    proof {
        lemma_fit(t@, max as int);
        lemma_encode_subrange(t@, 0, 0);
    }
    if tb.len() <= max {
        assert(t@.take(t@.len() as int) =~= t@);
        return (lit(value), false);
    }
    let offs = byte_offsets(t.as_slice());
    let (k, _) = utf8_boundary_at_or_before(t.as_slice(), &offs, max);
    (string_of(sub_chars(t.as_slice(), 0, k).as_slice()), true)
}

} // verus!

verus! {

/// Runs that start before character `f`, in order.
pub open spec fn kept_runs(rs: Seq<(bool, nat, int, int)>, f: int) -> Seq<(bool, nat, int, int)>
    decreases rs.len(),
{
    if rs.len() == 0 {
        rs
    } else if rs.last().2 < f {
        kept_runs(rs.drop_last(), f).push(rs.last())
    } else {
        kept_runs(rs.drop_last(), f)
    }
}

/// Runs that start at or after character `f`, in order.
pub open spec fn omitted_runs(rs: Seq<(bool, nat, int, int)>, f: int) -> Seq<
    (bool, nat, int, int),
>
    decreases rs.len(),
{
    if rs.len() == 0 {
        rs
    } else if rs.last().2 >= f {
        omitted_runs(rs.drop_last(), f).push(rs.last())
    } else {
        omitted_runs(rs.drop_last(), f)
    }
}

/// The identifier of the full fragment of run `r` of `t`.
pub open spec fn run_id(t: Seq<char>, part: Seq<char>, r: (bool, nat, int, int)) -> Seq<char> {
    frag_id_spec(
        part,
        byte_off(t, r.2),
        byte_off(t, r.3),
        sha256_hex_spec(encode_utf8(t.subrange(r.2, r.3))),
    )
}

/// The smaller of two integers.
pub open spec fn min_of(a: int, b: int) -> int {
    if a <= b {
        a
    } else {
        b
    }
}

/// The `BODY_TRUNCATED` diagnostic.
pub open spec fn is_body_truncated_diag(d: crate::dto::DiagnosticDto) -> bool {
    crate::dto::diag_is(
        d,
        "BODY_TRUNCATED"@,
        "info"@,
        "Body text was truncated by --max-body-bytes."@,
        Some("$.body"@),
        None,
    )
}

/// Cuts the body text to `max_body_bytes` and clips its fragments: a
/// fragment that starts beyond the cut is omitted (its id recorded), one that
/// crosses the cut ends there and is marked truncated with a fresh hash and id.
pub fn build_body_text(
    full_text: &str,
    part_id: &str,
    max_body_bytes: usize,
    diagnostics: &mut Vec<crate::dto::DiagnosticDto>,
) -> (r: (String, Vec<BodyFragmentDto>, crate::dto::TruncationDto))
    ensures
        ({
            let t = full_text@;
            let f = fit(t, max_body_bytes as int);
            let rs = quote_runs(t);
            let kept = kept_runs(rs, f);
            let omitted = omitted_runs(rs, f);
            let truncated = byte_len(t) > max_body_bytes;
            &&& r.0@ == t.take(f)
            &&& r.1@.len() == kept.len()
            &&& forall|i: int|
                0 <= i < kept.len() ==> fragment_of(
                    #[trigger] r.1@[i],
                    t,
                    part_id@,
                    kept[i].0,
                    kept[i].1,
                    kept[i].2,
                    min_of(kept[i].3, f),
                    kept[i].3 > f,
                )
            &&& r.2.max_body_bytes == max_body_bytes
            &&& r.2.truncated == truncated
            &&& r.2.omitted_fragment_ids@.len() == omitted.len()
            &&& forall|i: int|
                0 <= i < omitted.len() ==> (#[trigger] r.2.omitted_fragment_ids@[i])@ == run_id(
                    t,
                    part_id@,
                    omitted[i],
                )
            &&& truncated ==> final(diagnostics)@.len() == old(diagnostics)@.len() + 1
                && final(diagnostics)@.drop_last() == old(diagnostics)@ && is_body_truncated_diag(
                final(diagnostics)@.last(),
            )
            &&& !truncated ==> final(diagnostics)@ == old(diagnostics)@
        }),
{
    let t = chars_of(full_text);
    let tb = full_text.as_bytes();
    let part = chars_of(part_id);
    assert(tb@.len() == tb.len());
    proof {
        lemma_quote_runs_tile(t@);
        lemma_fit(t@, max_body_bytes as int);
        lemma_encode_subrange(t@, 0, 0);
    }
    let offs = byte_offsets(t.as_slice());
    let truncated = tb.len() > max_body_bytes;
    let (f, _) = utf8_boundary_at_or_before(t.as_slice(), &offs, max_body_bytes);
    if truncated {
        diagnostics.push(
            crate::dto::DiagnosticDto::info(
                "BODY_TRUNCATED",
                "Body text was truncated by --max-body-bytes.",
                Some("$.body"),
            ),
        );
    }
    let text = string_of(sub_chars(t.as_slice(), 0, f).as_slice());
    let full_frags = quote_fragments(full_text, part_id);
    let ghost fv = full_frags@;
    let mut rest = full_frags;
    let runs = quote_runs_exec(t.as_slice());
    let ghost rs = quote_runs(t@);
    let mut frags: Vec<BodyFragmentDto> = Vec::new();
    let mut omitted: Vec<String> = Vec::new();
    let mut i: usize = 0;
    while i < runs.len()
        invariant
            i <= runs@.len() == rs.len(),
            rs == quote_runs(t@),
            t@ == full_text@,
            part@ == part_id@,
            tb@ == encode_utf8(t@),
            f == fit(t@, max_body_bytes as int),
            0 <= f <= t@.len(),
            offs@.len() == t@.len() + 1,
            forall|k: int| 0 <= k <= t@.len() ==> #[trigger] offs@[k] == byte_off(t@, k),
            forall|j: int|
                0 <= j < runs@.len() ==> {
                    let x = #[trigger] runs@[j];
                    let y = rs[j];
                    x.0 == y.0 && x.1 == y.1 && x.2 == y.2 && x.3 == y.3
                },
            forall|j: int| 0 <= j < rs.len() ==> 0 <= (#[trigger] rs[j]).2 < rs[j].3 <= t@.len(),
            fv.len() == rs.len(),
            forall|j: int|
                0 <= j < fv.len() ==> fragment_of(#[trigger] fv[j], t@, part@, rs[j].0, rs[j].1, rs[j].2, rs[j].3, false),
            rest@ == fv.skip(i as int),
            frags@.len() == kept_runs(rs.take(i as int), f as int).len(),
            forall|j: int|
                0 <= j < frags@.len() ==> {
                    let k = kept_runs(rs.take(i as int), f as int)[j];
                    fragment_of(
                        #[trigger] frags@[j],
                        t@,
                        part@,
                        k.0,
                        k.1,
                        k.2,
                        min_of(k.3, f as int),
                        k.3 > f,
                    )
                },
            omitted@.len() == omitted_runs(rs.take(i as int), f as int).len(),
            forall|j: int|
                0 <= j < omitted@.len() ==> (#[trigger] omitted@[j])@ == run_id(
                    t@,
                    part@,
                    omitted_runs(rs.take(i as int), f as int)[j],
                ),
        decreases runs.len() - i,
    {
        let (q, d, cs, ce) = runs[i];
        let ghost x = rs[i as int];
        assert(rs.take(i + 1).drop_last() =~= rs.take(i as int));
        assert(rs.take(i + 1).last() == x);
        let full = rest.remove(0);
        assert(full == fv[i as int]);
        if cs >= f {
            omitted.push(full.id);
        } else if ce > f {
            let frag = make_fragment(t.as_slice(), tb, &offs, part.as_slice(), q, d, cs, f, true);
            frags.push(frag);
        } else {
            frags.push(full);
        }
        assert(rest@ =~= fv.skip(i + 1));
        i += 1;
    }
    assert(rs.take(runs@.len() as int) =~= rs);
    (
        text,
        frags,
        crate::dto::TruncationDto { max_body_bytes, truncated, omitted_fragment_ids: omitted },
    )
}

} // verus!

verus! {

proof fn lemma_all_kept(rs: Seq<(bool, nat, int, int)>, f: int)
    requires
        forall|i: int| 0 <= i < rs.len() ==> (#[trigger] rs[i]).2 < f,
    ensures
        kept_runs(rs, f) == rs,
        omitted_runs(rs, f) == Seq::<(bool, nat, int, int)>::empty(),
    decreases rs.len(),
{
    if rs.len() > 0 {
        let d = rs.drop_last();
        assert forall|i: int| 0 <= i < d.len() implies (#[trigger] d[i]).2 < f by {
            assert(d[i] == rs[i]);
        }
        lemma_all_kept(d, f);
        assert(d.push(rs.last()) =~= rs);
    }
}

proof fn lemma_split_runs(rs: Seq<(bool, nat, int, int)>, f: int)
    requires
        forall|i: int, j: int| 0 <= i < j < rs.len() ==> (#[trigger] rs[i]).2 < (#[trigger] rs[j]).2,
    ensures
        kept_runs(rs, f) + omitted_runs(rs, f) == rs,
    decreases rs.len(),
{
    if rs.len() > 0 {
        let d = rs.drop_last();
        assert forall|i: int, j: int| 0 <= i < j < d.len() implies (#[trigger] d[i]).2 < (#[trigger] d[j]).2 by {
            assert(d[i] == rs[i] && d[j] == rs[j]);
        }
        lemma_split_runs(d, f);
        if rs.last().2 < f {
            assert forall|i: int| 0 <= i < d.len() implies (#[trigger] d[i]).2 < f by {
                assert(d[i] == rs[i]);
                assert(rs[i].2 < rs[rs.len() - 1].2);
            }
            lemma_all_kept(d, f);
            assert(kept_runs(rs, f) + omitted_runs(rs, f) =~= d.push(rs.last()));
        } else {
            assert(kept_runs(rs, f) + omitted_runs(rs, f) =~= (kept_runs(d, f) + omitted_runs(d, f)).push(
                rs.last(),
            ));
        }
        assert(d.push(rs.last()) =~= rs);
    }
}

proof fn lemma_runs_increasing(t: Seq<char>, i: int, j: int)
    requires
        0 <= i < j < quote_runs(t).len(),
    ensures
        quote_runs(t)[i].2 < quote_runs(t)[j].2,
    decreases j - i,
{
    lemma_quote_runs_tile(t);
    let rs = quote_runs(t);
    if j == i + 1 {
        assert(rs[i].3 == rs[i + 1].2);
    } else {
        lemma_runs_increasing(t, i, j - 1);
        assert(rs[j - 1].3 == rs[j].2);
    }
}

/// Truncation splits the quote runs in two: the runs kept as fragments, in
/// order, followed by the runs whose ids are recorded as omitted.
pub proof fn lemma_truncation_splits_runs(t: Seq<char>, f: int)
    ensures
        kept_runs(quote_runs(t), f) + omitted_runs(quote_runs(t), f) == quote_runs(t),
{
    let rs = quote_runs(t);
    assert forall|i: int, j: int| 0 <= i < j < rs.len() implies (#[trigger] rs[i]).2 < (#[trigger] rs[j]).2 by {
        lemma_runs_increasing(t, i, j);
    }
    lemma_split_runs(rs, f);
}

} // verus!

verus! {

proof fn lemma_tail_at_or_before(t: Seq<char>, i: int, idx: int)
    requires
        0 <= i <= idx < lines_of(t).len(),
        crate::quote::is_tail_marker(t, idx),
    ensures
        tail_from(t, i) matches Some(s) && i <= s <= idx,
    decreases idx - i,
{
    if !crate::quote::is_tail_marker(t, i) {
        lemma_tail_at_or_before(t, i + 1, idx);
    }
}

#[verifier::spinoff_prover]
proof fn lemma_marker_quotes_lines(t: Seq<char>, idx: int)
    requires
        0 <= idx < lines_of(t).len(),
        crate::quote::is_tail_marker(t, idx),
    ensures
        tail_quote_start_spec(t) matches Some(s) && s <= idx,
        forall|k: int| idx <= k < lines_of(t).len() ==> #[trigger] line_quoted(t, k) && line_depth(t, k) >= 1,
{
    lemma_tail_at_or_before(t, 0, idx);
    reveal(line_quoted);
    reveal(line_depth);
}

/// A line starting with `From:` that has, among the five lines after it, one
/// starting with `Date:` and one starting with `Subject:` (ASCII case aside,
/// after trimming) opens a quoted tail: it and every later line are quoted,
/// at depth one or more.
#[verifier::spinoff_prover]
pub proof fn lemma_header_block_quotes_rest(t: Seq<char>, idx: int, jd: int, js: int)
    requires
        0 <= idx < lines_of(t).len(),
        starts_with_ic(lt(t, idx), seq!['f', 'r', 'o', 'm', ':']),
        idx < jd < idx + 6,
        jd < lines_of(t).len(),
        starts_with_ic(lt(t, jd), seq!['d', 'a', 't', 'e', ':']),
        idx < js < idx + 6,
        js < lines_of(t).len(),
        starts_with_ic(lt(t, js), seq!['s', 'u', 'b', 'j', 'e', 'c', 't', ':']),
    ensures
        tail_quote_start_spec(t) matches Some(s) && s <= idx,
        forall|k: int| idx <= k < lines_of(t).len() ==> #[trigger] line_quoted(t, k) && line_depth(t, k) >= 1,
{
    assert(crate::quote::is_tail_marker(t, idx)) by {
        assert(crate::quote::pat_date() == seq!['d', 'a', 't', 'e', ':']);
        assert(crate::quote::pat_from() == seq!['f', 'r', 'o', 'm', ':']);
        assert(crate::quote::pat_subject() == seq!['s', 'u', 'b', 'j', 'e', 'c', 't', ':']);
        assert(crate::quote::is_embedded_header_block_spec(t, idx));
    }
    lemma_marker_quotes_lines(t, idx);
}

/// A line starting with `From:` that has, among the five lines after it, one
/// starting with `Sent:` and one starting with `Subject:` (ASCII case aside,
/// after trimming) opens a quoted tail: it and every later line are quoted.
#[verifier::spinoff_prover]
pub proof fn lemma_sent_block_quotes_rest(t: Seq<char>, idx: int, jd: int, js: int)
    requires
        0 <= idx < lines_of(t).len(),
        starts_with_ic(lt(t, idx), seq!['f', 'r', 'o', 'm', ':']),
        idx < jd < idx + 6,
        jd < lines_of(t).len(),
        starts_with_ic(lt(t, jd), seq!['s', 'e', 'n', 't', ':']),
        idx < js < idx + 6,
        js < lines_of(t).len(),
        starts_with_ic(lt(t, js), seq!['s', 'u', 'b', 'j', 'e', 'c', 't', ':']),
    ensures
        tail_quote_start_spec(t) matches Some(s) && s <= idx,
        forall|k: int| idx <= k < lines_of(t).len() ==> #[trigger] line_quoted(t, k) && line_depth(t, k) >= 1,
{
    assert(crate::quote::is_tail_marker(t, idx)) by {
        assert(crate::quote::pat_sent() == seq!['s', 'e', 'n', 't', ':']);
        assert(crate::quote::pat_from() == seq!['f', 'r', 'o', 'm', ':']);
        assert(crate::quote::pat_subject() == seq!['s', 'u', 'b', 'j', 'e', 'c', 't', ':']);
        assert(crate::quote::is_embedded_header_block_spec(t, idx));
    }
    lemma_marker_quotes_lines(t, idx);
}

/// A line reading `-----Original Message-----` (ASCII case aside, after
/// trimming) opens a quoted tail: it and every later line are quoted.
#[verifier::spinoff_prover]
pub proof fn lemma_divider_quotes_rest(t: Seq<char>, idx: int)
    requires
        0 <= idx < lines_of(t).len(),
        crate::text::eq_ic(
            lt(t, idx),
            seq![
                '-', '-', '-', '-', '-', 'O', 'r', 'i', 'g', 'i', 'n', 'a', 'l', ' ', 'M', 'e', 's',
                's', 'a', 'g', 'e', '-', '-', '-', '-', '-',
            ],
        ),
    ensures
        tail_quote_start_spec(t) matches Some(s) && s <= idx,
        forall|k: int| idx <= k < lines_of(t).len() ==> #[trigger] line_quoted(t, k) && line_depth(t, k) >= 1,
{
    let lit = seq![
        '-', '-', '-', '-', '-', 'O', 'r', 'i', 'g', 'i', 'n', 'a', 'l', ' ', 'M', 'e', 's', 's',
        'a', 'g', 'e', '-', '-', '-', '-', '-',
    ];
    let pat = crate::quote::pat_original();
    let l = lt(t, idx);
    assert forall|i: int| 0 <= i < pat.len() implies crate::text::lc(#[trigger] l[i]) == crate::text::lc(pat[i]) by {
        assert(crate::text::lc(l[i]) == crate::text::lc(lit[i]));
    }
    assert(crate::text::eq_ic(l, pat));
    lemma_marker_quotes_lines(t, idx);
}

/// A line of eight or more underscores (after trimming) whose next non-blank
/// line, among the three after it, starts with `From:` opens a quoted tail:
/// it and every later line are quoted.
#[verifier::spinoff_prover]
pub proof fn lemma_separator_quotes_rest(t: Seq<char>, idx: int, j: int)
    requires
        0 <= idx < lines_of(t).len(),
        lt(t, idx).len() >= 8,
        forall|i: int| 0 <= i < lt(t, idx).len() ==> #[trigger] lt(t, idx)[i] == '_',
        idx < j < idx + 4,
        j < lines_of(t).len(),
        forall|m: int| idx < m < j ==> #[trigger] lt(t, m).len() == 0,
        lt(t, j).len() > 0,
        starts_with_ic(lt(t, j), seq!['f', 'r', 'o', 'm', ':']),
    ensures
        tail_quote_start_spec(t) matches Some(s) && s <= idx,
        forall|k: int| idx <= k < lines_of(t).len() ==> #[trigger] line_quoted(t, k) && line_depth(t, k) >= 1,
{
    assert(crate::quote::pat_from() == seq!['f', 'r', 'o', 'm', ':']);
    let stop = crate::quote::min_int(idx + 4, lines_of(t).len() as int);
    lemma_first_nonblank_from(t, idx + 1, stop, j);
    lemma_marker_quotes_lines(t, idx);
}

proof fn lemma_first_nonblank_from(t: Seq<char>, i: int, stop: int, j: int)
    requires
        i <= j < stop,
        forall|m: int| i <= m < j ==> #[trigger] lt(t, m).len() == 0,
        lt(t, j).len() > 0,
        starts_with_ic(lt(t, j), crate::quote::pat_from()),
    ensures
        crate::quote::first_nonblank_is_from(t, i, stop),
    decreases j - i,
{
    if i < j {
        lemma_first_nonblank_from(t, i + 1, stop, j);
    }
}

/// A line whose first non-blank character is `>` is quoted, at depth one or
/// more.
pub proof fn lemma_marker_line_quoted(t: Seq<char>, k: int)
    requires
        0 <= k < lines_of(t).len(),
        crate::text::trim_start(line_text(t, k)).len() > 0,
        crate::text::trim_start(line_text(t, k))[0] == '>',
    ensures
        line_quoted(t, k),
        line_depth(t, k) >= 1,
{
    reveal(line_quoted);
    reveal(line_depth);
    assert(quote_depth_spec(line_text(t, k)) >= 1);
}

} // verus!

verus! {

proof fn lemma_lines_ordered(t: Seq<char>, a: int, b: int)
    requires
        0 <= a < b < lines_of(t).len(),
    ensures
        lines_of(t)[a].1 <= lines_of(t)[b].0,
    decreases b - a,
{
    lemma_lines_tile(t);
    if b > a + 1 {
        lemma_lines_ordered(t, a, b - 1);
    }
}

proof fn lemma_runs_acc_quoted_from(t: Seq<char>, k: int, q: bool, d: nat, s: int, e: int, idx: int)
    requires
        1 <= k <= lines_of(t).len(),
        0 <= idx < lines_of(t).len(),
        e == lines_of(t)[k - 1].1,
        line_quoted(t, k - 1) == q,
        line_depth(t, k - 1) == d,
        forall|m: int| idx <= m < lines_of(t).len() ==> #[trigger] line_quoted(t, m) && line_depth(t, m) >= 1,
    ensures
        forall|i: int|
            0 <= i < runs_acc(t, k, q, d, s, e).len() && (#[trigger] runs_acc(t, k, q, d, s, e)[i]).3
                > lines_of(t)[idx].0 ==> runs_acc(t, k, q, d, s, e)[i].0 && runs_acc(t, k, q, d, s, e)[i].1 >= 1,
    decreases lines_of(t).len() - k,
{
    lemma_lines_tile(t);
    let n = lines_of(t).len() as int;
    if k - 1 < idx {
        lemma_lines_ordered(t, k - 1, idx);
    } else {
        assert(line_quoted(t, k - 1) && line_depth(t, k - 1) >= 1);
    }
    if k >= n {
        let rs = runs_acc(t, k, q, d, s, e);
        assert(rs == seq![(q, d, s, e)]);
        assert(rs.len() == 1 && rs[0] == (q, d, s, e));
        assert(e > lines_of(t)[idx].0 ==> q && d >= 1);
    } else if line_quoted(t, k) == q && line_depth(t, k) == d {
        lemma_runs_acc_quoted_from(t, k + 1, q, d, s, lines_of(t)[k].1, idx);
        assert(runs_acc(t, k, q, d, s, e) == runs_acc(t, k + 1, q, d, s, lines_of(t)[k].1));
    } else {
        let (ls, le) = (lines_of(t)[k].0, lines_of(t)[k].1);
        lemma_runs_acc_quoted_from(t, k + 1, line_quoted(t, k), line_depth(t, k), ls, le, idx);
        let rest = runs_acc(t, k + 1, line_quoted(t, k), line_depth(t, k), ls, le);
        let rs = runs_acc(t, k, q, d, s, e);
        assert(rs == seq![(q, d, s, e)] + rest);
        assert forall|i: int| 0 <= i < rs.len() && (#[trigger] rs[i]).3 > lines_of(t)[idx].0 implies rs[i].0
            && rs[i].1 >= 1 by {
            if i > 0 {
                assert(rs[i] == rest[i - 1]);
            }
        }
    }
}

/// Under the conditions of `lemma_header_block_quotes_rest`, every body
/// fragment run that reaches into the `From:` line or past it is quoted.
#[verifier::spinoff_prover]
pub proof fn lemma_header_block_runs_quoted(t: Seq<char>, idx: int, jd: int, js: int)
    requires
        0 <= idx < lines_of(t).len(),
        starts_with_ic(lt(t, idx), seq!['f', 'r', 'o', 'm', ':']),
        idx < jd < idx + 6,
        jd < lines_of(t).len(),
        starts_with_ic(lt(t, jd), seq!['d', 'a', 't', 'e', ':']),
        idx < js < idx + 6,
        js < lines_of(t).len(),
        starts_with_ic(lt(t, js), seq!['s', 'u', 'b', 'j', 'e', 'c', 't', ':']),
    ensures
        forall|i: int|
            0 <= i < quote_runs(t).len() && (#[trigger] quote_runs(t)[i]).3 > lines_of(t)[idx].0
                ==> quote_runs(t)[i].0 && quote_runs(t)[i].1 >= 1,
{
    lemma_header_block_quotes_rest(t, idx, jd, js);
    assert forall|m: int| idx <= m < lines_of(t).len() implies #[trigger] line_quoted(t, m) && line_depth(t, m)
        >= 1 by {
    }
    lemma_runs_acc_quoted_from(t, 1, line_quoted(t, 0), line_depth(t, 0), lines_of(t)[0].0, lines_of(t)[0].1, idx);
}

} // verus!

verus! {

/// When every line from line `idx` on is quoted, every quote run that reaches
/// into line `idx` or past it is quoted, at depth one or more: the fragments
/// of those lines are quoted fragments.
#[verifier::spinoff_prover]
pub proof fn lemma_quoted_lines_make_quoted_runs(t: Seq<char>, idx: int)
    requires
        0 <= idx < lines_of(t).len(),
        forall|k: int| idx <= k < lines_of(t).len() ==> #[trigger] line_quoted(t, k) && line_depth(t, k) >= 1,
    ensures
        forall|i: int|
            0 <= i < quote_runs(t).len() && (#[trigger] quote_runs(t)[i]).3 > lines_of(t)[idx].0
                ==> quote_runs(t)[i].0 && quote_runs(t)[i].1 >= 1,
{
    lemma_runs_acc_quoted_from(t, 1, line_quoted(t, 0), line_depth(t, 0), lines_of(t)[0].0, lines_of(t)[0].1, idx);
}

} // verus!
