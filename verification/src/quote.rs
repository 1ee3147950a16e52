//! Splitting a body into lines and classifying each line as fresh text or
//! quoted reply material: `>` markers, reply attributions, and the quoted
//! tail that top-posting clients append without markers.
use vstd::prelude::*;
use crate::text::{
    chars_of, contains_ic, contains_ic_exec, ends_with_ic, ends_with_ic_exec, eq_ic, eq_ic_exec,
    starts_with_ic, starts_with_ic_exec, sub_chars, trim, trim_chars, trim_start,
};

verus! {

/// Lines of `t` as `split_inclusive('\n')` gives them, as character ranges;
/// `start` is where the current line began and `i` the next character to read.
pub open spec fn lines_acc(t: Seq<char>, start: int, i: int) -> Seq<(int, int)>
    decreases t.len() - i,
{
    if i >= t.len() || i < 0 {
        if 0 <= start < t.len() {
            seq![(start, t.len() as int)]
        } else {
            Seq::empty()
        }
    } else if t[i] == '\n' {
        seq![(start, i + 1)] + lines_acc(t, i + 1, i + 1)
    } else {
        lines_acc(t, start, i + 1)
    }
}

/// The lines of `t`, each ending just after its `'\n'` or at the end of `t`.
pub open spec fn lines_of(t: Seq<char>) -> Seq<(int, int)> {
    lines_acc(t, 0, 0)
}

/// Text of line `k`.
pub open spec fn line_text(t: Seq<char>, k: int) -> Seq<char> {
    t.subrange(lines_of(t)[k].0, lines_of(t)[k].1)
}

proof fn lemma_lines_acc_bounds(t: Seq<char>, start: int, i: int)
    requires
        0 <= start <= i <= t.len(),
    ensures
        forall|k: int|
            0 <= k < lines_acc(t, start, i).len() ==> start <= (#[trigger] lines_acc(
                t,
                start,
                i,
            )[k]).0 < lines_acc(t, start, i)[k].1 <= t.len(),
        forall|k: int|
            0 <= k < lines_acc(t, start, i).len() - 1 ==> (#[trigger] lines_acc(t, start, i)[k]).1
                == lines_acc(t, start, i)[k + 1].0,
        lines_acc(t, start, i).len() > 0 ==> lines_acc(t, start, i)[0].0 == start
            && lines_acc(t, start, i).last().1 == t.len(),
        lines_acc(t, start, i).len() == 0 <==> start == t.len(),
    decreases t.len() - i,
{
    if i >= t.len() {
    } else if t[i] == '\n' {
        lemma_lines_acc_bounds(t, i + 1, i + 1);
        let rest = lines_acc(t, i + 1, i + 1);
        let all = lines_acc(t, start, i);
        assert(all == seq![(start, i + 1)] + rest);
        assert forall|k: int| 0 <= k < all.len() - 1 implies (#[trigger] all[k]).1 == all[k
            + 1].0 by {
            if k > 0 {
                assert(all[k] == rest[k - 1]);
                assert(all[k + 1] == rest[k]);
            }
        }
        assert forall|k: int| 0 <= k < all.len() implies start <= (#[trigger] all[k]).0 < all[k].1
            <= t.len() by {
            if k > 0 {
                assert(all[k] == rest[k - 1]);
            }
        }
    } else {
        lemma_lines_acc_bounds(t, start, i + 1);
    }
}

/// Lines are non-empty, in order, adjacent, and cover `t` exactly.
pub proof fn lemma_lines_tile(t: Seq<char>)
    ensures
        forall|k: int|
            0 <= k < lines_of(t).len() ==> 0 <= (#[trigger] lines_of(t)[k]).0 < lines_of(t)[k].1
                <= t.len(),
        forall|k: int|
            0 <= k < lines_of(t).len() - 1 ==> (#[trigger] lines_of(t)[k]).1 == lines_of(t)[k
                + 1].0,
        lines_of(t).len() > 0 ==> lines_of(t)[0].0 == 0 && lines_of(t).last().1 == t.len(),
        lines_of(t).len() == 0 <==> t.len() == 0,
{
    lemma_lines_acc_bounds(t, 0, 0);
}

/// The lines of `t` as character ranges.
pub fn lines_with_offsets(t: &[char]) -> (r: Vec<(usize, usize)>)
    ensures
        r@.len() == lines_of(t@).len(),
        forall|k: int|
            0 <= k < r@.len() ==> (#[trigger] r@[k]).0 == lines_of(t@)[k].0 && r@[k].1
                == lines_of(t@)[k].1,
{
    let mut r: Vec<(usize, usize)> = Vec::new();
    let ghost mut out: Seq<(int, int)> = Seq::empty();
    let mut start: usize = 0;
    let mut i: usize = 0;
    while i < t.len()
        invariant
            start <= i <= t@.len(),
            out + lines_acc(t@, start as int, i as int) == lines_of(t@),
            r@.len() == out.len(),
            forall|k: int| 0 <= k < r@.len() ==> (#[trigger] r@[k]).0 == out[k].0 && r@[k].1 == out[k].1,
        decreases t.len() - i,
    {
        if t[i] == '\n' {
            proof {
                assert(lines_acc(t@, start as int, i as int) == seq![(start as int, i + 1)]
                    + lines_acc(t@, i + 1, i + 1));
                assert(out + lines_acc(t@, start as int, i as int) =~= out.push(
                    (start as int, i + 1),
                ) + lines_acc(t@, i + 1, i + 1));
                out = out.push((start as int, i + 1));
            }
            r.push((start, i + 1));
            start = i + 1;
        }
        i += 1;
    }
    if start < t.len() {
        proof {
            assert(out + lines_acc(t@, start as int, i as int) =~= out.push(
                (start as int, t@.len() as int),
            ));
            out = out.push((start as int, t@.len() as int));
        }
        r.push((start, t.len()));
    } else {
        assert(out + lines_acc(t@, start as int, i as int) =~= out);
    }
    r
}

/// Index of the first character at or after `i` that is not a space.
pub open spec fn sp_from(s: Seq<char>, i: int) -> int
    decreases s.len() - i,
{
    if 0 <= i < s.len() && s[i] == ' ' {
        sp_from(s, i + 1)
    } else {
        i
    }
}

/// Skipping spaces never moves back, nor past the end.
pub proof fn lemma_sp_from_ge(s: Seq<char>, i: int)
    ensures
        sp_from(s, i) >= i,
        0 <= i <= s.len() ==> sp_from(s, i) <= s.len(),
    decreases s.len() - i,
{
    if 0 <= i < s.len() && s[i] == ' ' {
        lemma_sp_from_ge(s, i + 1);
    }
}

/// Number of `>` markers from `i` on, each optionally followed by spaces.
pub open spec fn gt_depth_from(s: Seq<char>, i: int) -> nat
    decreases s.len() - i,
{
    if 0 <= i < s.len() && s[i] == '>' {
        proof {
            lemma_sp_from_ge(s, i + 1);
        }
        1 + gt_depth_from(s, sp_from(s, i + 1))
    } else {
        0
    }
}

/// Quote depth of a line: the `>` markers that open it after leading whitespace.
pub open spec fn quote_depth_spec(line: Seq<char>) -> nat {
    gt_depth_from(trim_start(line), 0)
}

/// The quote depth of `line`.
pub fn quote_depth(line: &[char]) -> (r: usize)
    ensures
        r == quote_depth_spec(line@),
{
    let t = trim_start_chars(line);
    let n = t.len();
    let mut depth: usize = 0;
    let mut i: usize = 0;
    while i < n && t[i] == '>'
        invariant
            i <= n == t@.len(),
            depth <= i,
            depth + gt_depth_from(t@, i as int) == gt_depth_from(t@, 0),
        decreases n - i,
    {
        proof {
            lemma_sp_from_ge(t@, i + 1);
        }
        depth += 1;
        i += 1;
        let ghost i0 = i;
        while i < n && t[i] == ' '
            invariant
                i0 <= i <= n == t@.len(),
                depth <= i,
                depth + gt_depth_from(t@, sp_from(t@, i as int)) == gt_depth_from(t@, 0),
            decreases n - i,
        {
            i += 1;
        }
    }
    depth
}

/// The characters of `s` without leading whitespace.
pub fn trim_start_chars(s: &[char]) -> (r: Vec<char>)
    ensures
        r@ == trim_start(s@),
{
    let n = s.len();
    let mut a: usize = 0;
    while a < n && crate::text::char_is_ws(s[a])
        invariant
            a <= n == s@.len(),
            crate::text::ws_from(s@, a as int) == crate::text::ws_from(s@, 0),
        decreases n - a,
    {
        a += 1;
    }
    sub_chars(s, a, n)
}

} // verus!

verus! {

/// `-----original message-----`.
pub open spec fn pat_original() -> Seq<char> {
    seq![
        '-', '-', '-', '-', '-', 'o', 'r', 'i', 'g', 'i', 'n', 'a', 'l', ' ', 'm', 'e', 's', 's',
        'a', 'g', 'e', '-', '-', '-', '-', '-',
    ]
}

/// `on `.
pub open spec fn pat_on() -> Seq<char> {
    seq!['o', 'n', ' ']
}

/// `wrote:`.
pub open spec fn pat_wrote() -> Seq<char> {
    seq!['w', 'r', 'o', 't', 'e', ':']
}

/// `from:`.
pub open spec fn pat_from() -> Seq<char> {
    seq!['f', 'r', 'o', 'm', ':']
}

/// `sent:`.
pub open spec fn pat_sent() -> Seq<char> {
    seq!['s', 'e', 'n', 't', ':']
}

/// `date:`.
pub open spec fn pat_date() -> Seq<char> {
    seq!['d', 'a', 't', 'e', ':']
}

/// `subject:`.
pub open spec fn pat_subject() -> Seq<char> {
    seq!['s', 'u', 'b', 'j', 'e', 'c', 't', ':']
}

fn vec_original() -> (r: Vec<char>)
    ensures
        r@ == pat_original(),
{
    let r = vec![
        '-', '-', '-', '-', '-', 'o', 'r', 'i', 'g', 'i', 'n', 'a', 'l', ' ', 'm', 'e', 's', 's',
        'a', 'g', 'e', '-', '-', '-', '-', '-',
    ];
    assert(r@ =~= pat_original());
    r
}

fn vec_on() -> (r: Vec<char>)
    ensures
        r@ == pat_on(),
{
    let r = vec!['o', 'n', ' '];
    assert(r@ =~= pat_on());
    r
}

fn vec_wrote() -> (r: Vec<char>)
    ensures
        r@ == pat_wrote(),
{
    let r = vec!['w', 'r', 'o', 't', 'e', ':'];
    assert(r@ =~= pat_wrote());
    r
}

fn vec_from() -> (r: Vec<char>)
    ensures
        r@ == pat_from(),
{
    let r = vec!['f', 'r', 'o', 'm', ':'];
    assert(r@ =~= pat_from());
    r
}

fn vec_sent() -> (r: Vec<char>)
    ensures
        r@ == pat_sent(),
{
    let r = vec!['s', 'e', 'n', 't', ':'];
    assert(r@ =~= pat_sent());
    r
}

fn vec_date() -> (r: Vec<char>)
    ensures
        r@ == pat_date(),
{
    let r = vec!['d', 'a', 't', 'e', ':'];
    assert(r@ =~= pat_date());
    r
}

fn vec_subject() -> (r: Vec<char>)
    ensures
        r@ == pat_subject(),
{
    let r = vec!['s', 'u', 'b', 'j', 'e', 'c', 't', ':'];
    assert(r@ =~= pat_subject());
    r
}

/// A reply attribution line: an `-----Original Message-----` divider, an
/// `On ... wrote:` line, or a one-line `From: ... Sent: ... Subject:` header.
pub open spec fn is_reply_attribution_spec(line: Seq<char>) -> bool {
    let tr = trim(line);
    eq_ic(tr, pat_original()) || (starts_with_ic(tr, pat_on()) && ends_with_ic(tr, pat_wrote()))
        || (starts_with_ic(tr, pat_from()) && contains_ic(tr, pat_sent()) && contains_ic(
        tr,
        pat_subject(),
    ))
}

/// Whether `line` is a reply attribution.
pub fn is_reply_attribution(line: &[char]) -> (r: bool)
    ensures
        r == is_reply_attribution_spec(line@),
{
    let tr = trim_chars(line);
    let t = tr.as_slice();
    if eq_ic_exec(t, vec_original().as_slice()) {
        return true;
    }
    if starts_with_ic_exec(t, vec_on().as_slice()) && ends_with_ic_exec(t, vec_wrote().as_slice()) {
        return true;
    }
    starts_with_ic_exec(t, vec_from().as_slice()) && contains_ic_exec(t, vec_sent().as_slice())
        && contains_ic_exec(t, vec_subject().as_slice())
}

/// A trimmed line of at least eight underscores and nothing else.
pub open spec fn is_underscore_separator_spec(tr: Seq<char>) -> bool {
    tr.len() >= 8 && forall|i: int| 0 <= i < tr.len() ==> #[trigger] tr[i] == '_'
}

/// Whether the trimmed line `tr` is an underscore separator.
pub fn is_underscore_separator(tr: &[char]) -> (r: bool)
    ensures
        r == is_underscore_separator_spec(tr@),
{
    if tr.len() < 8 {
        return false;
    }
    let mut i: usize = 0;
    while i < tr.len()
        invariant
            i <= tr@.len(),
            forall|k: int| 0 <= k < i ==> #[trigger] tr@[k] == '_',
        decreases tr.len() - i,
    {
        if tr[i] != '_' {
            return false;
        }
        i += 1;
    }
    true
}

/// Trimmed text of line `k` of `t`.
pub open spec fn lt(t: Seq<char>, k: int) -> Seq<char> {
    trim(line_text(t, k))
}

/// Among lines `j..stop`, the first one that is not blank after trimming starts with `from:`.
pub open spec fn first_nonblank_is_from(t: Seq<char>, j: int, stop: int) -> bool
    decreases stop - j,
{
    if j >= stop {
        false
    } else if lt(t, j).len() > 0 {
        starts_with_ic(lt(t, j), pat_from())
    } else {
        first_nonblank_is_from(t, j + 1, stop)
    }
}

/// The smaller of two integers.
pub open spec fn min_int(a: int, b: int) -> int {
    if a <= b {
        a
    } else {
        b
    }
}

/// Among the three lines after `idx`, the first non-blank one starts with `from:`.
pub open spec fn next_line_is_from_spec(t: Seq<char>, idx: int) -> bool {
    first_nonblank_is_from(t, idx + 1, min_int(idx + 4, lines_of(t).len() as int))
}

/// Line `idx` starts with `from:` and, among the five lines after it, one starts
/// with `sent:` or `date:` and one starts with `subject:`.
pub open spec fn is_embedded_header_block_spec(t: Seq<char>, idx: int) -> bool {
    let stop = min_int(idx + 6, lines_of(t).len() as int);
    &&& starts_with_ic(lt(t, idx), pat_from())
    &&& exists|j: int|
        idx + 1 <= j < stop && (starts_with_ic(#[trigger] lt(t, j), pat_sent()) || starts_with_ic(
            lt(t, j),
            pat_date(),
        ))
    &&& exists|j: int| idx + 1 <= j < stop && starts_with_ic(#[trigger] lt(t, j), pat_subject())
}

/// Line `idx` opens a quoted tail: an `-----Original Message-----` divider, an
/// underscore separator followed by a `From:` line, or an embedded header block.
pub open spec fn is_tail_marker(t: Seq<char>, idx: int) -> bool {
    eq_ic(lt(t, idx), pat_original()) || (is_underscore_separator_spec(lt(t, idx))
        && next_line_is_from_spec(t, idx)) || is_embedded_header_block_spec(t, idx)
}

/// The first line at or after `i` that opens a quoted tail.
pub open spec fn tail_from(t: Seq<char>, i: int) -> Option<int>
    decreases lines_of(t).len() - i,
{
    if i < 0 || i >= lines_of(t).len() {
        None
    } else if is_tail_marker(t, i) {
        Some(i)
    } else {
        tail_from(t, i + 1)
    }
}

/// Index of the line where an embedded earlier message starts, if any.
pub open spec fn tail_quote_start_spec(t: Seq<char>) -> Option<int> {
    tail_from(t, 0)
}

/// Trimmed text of every line, computed once.
pub fn trimmed_lines(t: &[char], lines: &Vec<(usize, usize)>) -> (r: Vec<Vec<char>>)
    requires
        lines@.len() == lines_of(t@).len(),
        forall|k: int|
            0 <= k < lines@.len() ==> (#[trigger] lines@[k]).0 == lines_of(t@)[k].0 && lines@[k].1
                == lines_of(t@)[k].1,
    ensures
        r@.len() == lines@.len(),
        forall|k: int| 0 <= k < r@.len() ==> (#[trigger] r@[k])@ == lt(t@, k),
{
    proof {
        lemma_lines_tile(t@);
    }
    let mut r: Vec<Vec<char>> = Vec::new();
    let mut k: usize = 0;
    while k < lines.len()
        invariant
            k <= lines@.len() == lines_of(t@).len(),
            r@.len() == k,
            forall|j: int|
                0 <= j < lines@.len() ==> (#[trigger] lines@[j]).0 == lines_of(t@)[j].0
                    && lines@[j].1 == lines_of(t@)[j].1,
            forall|j: int|
                0 <= j < lines_of(t@).len() ==> 0 <= (#[trigger] lines_of(t@)[j]).0
                    < lines_of(t@)[j].1 <= t@.len(),
            forall|j: int| 0 <= j < r@.len() ==> (#[trigger] r@[j])@ == lt(t@, j),
        decreases lines.len() - k,
    {
        let (s, e) = lines[k];
        let line = sub_chars(t, s, e);
        r.push(trim_chars(line.as_slice()));
        k += 1;
    }
    r
}

/// Whether line `idx` opens a quoted tail.
pub fn is_tail_marker_exec(t: &[char], tr: &Vec<Vec<char>>, idx: usize) -> (r: bool)
    requires
        tr@.len() == lines_of(t@).len(),
        forall|k: int| 0 <= k < tr@.len() ==> (#[trigger] tr@[k])@ == lt(t@, k),
        idx < tr@.len(),
    ensures
        r == is_tail_marker(t@, idx as int),
{
    let n = tr.len();
    let here = tr[idx].as_slice();
    if eq_ic_exec(here, vec_original().as_slice()) {
        return true;
    }
    if is_underscore_separator(here) {
        let stop = if n - idx > 4 {
            idx + 4
        } else {
            n
        };
        let mut j = idx + 1;
        let mut found = false;
        let mut result = false;
        while j < stop && !found
            invariant
                idx + 1 <= j <= stop <= n == tr@.len(),
                stop == min_int(idx + 4, n as int),
                forall|k: int| 0 <= k < tr@.len() ==> (#[trigger] tr@[k])@ == lt(t@, k),
                !found ==> first_nonblank_is_from(t@, j as int, stop as int)
                    == first_nonblank_is_from(t@, idx + 1, stop as int),
                found ==> result == first_nonblank_is_from(t@, idx + 1, stop as int),
                !found ==> !result,
            decreases stop - j + (if found { 0int } else { 1int }),
        {
            if tr[j].len() > 0 {
                found = true;
                result = starts_with_ic_exec(tr[j].as_slice(), vec_from().as_slice());
            } else {
                j += 1;
            }
        }
        if result {
            assert(next_line_is_from_spec(t@, idx as int));
            return true;
        }
    }
    if !starts_with_ic_exec(here, vec_from().as_slice()) {
        return false;
    }
    let stop = if n - idx > 6 {
        idx + 6
    } else {
        n
    };
    let mut has_sent = false;
    let mut has_subject = false;
    let mut j = idx + 1;
    while j < stop
        invariant
            idx + 1 <= j <= stop || (j == idx + 1 && stop <= j),
            stop <= n == tr@.len(),
            stop == min_int(idx + 6, n as int),
            forall|k: int| 0 <= k < tr@.len() ==> (#[trigger] tr@[k])@ == lt(t@, k),
            has_sent <==> exists|k: int|
                idx + 1 <= k < j && (starts_with_ic(#[trigger] lt(t@, k), pat_sent())
                    || starts_with_ic(lt(t@, k), pat_date())),
            has_subject <==> exists|k: int|
                idx + 1 <= k < j && starts_with_ic(#[trigger] lt(t@, k), pat_subject()),
        decreases stop - j,
    {
        let line = tr[j].as_slice();
        if starts_with_ic_exec(line, vec_sent().as_slice()) || starts_with_ic_exec(
            line,
            vec_date().as_slice(),
        ) {
            has_sent = true;
        }
        if starts_with_ic_exec(line, vec_subject().as_slice()) {
            has_subject = true;
        }
        j += 1;
    }
    proof {
        if has_sent {
            let k = choose|k: int|
                idx + 1 <= k < j && (starts_with_ic(#[trigger] lt(t@, k), pat_sent())
                    || starts_with_ic(lt(t@, k), pat_date()));
            assert(idx + 1 <= k < min_int(idx + 6, n as int));
        }
        if has_subject {
            let k = choose|k: int| idx + 1 <= k < j && starts_with_ic(#[trigger] lt(t@, k), pat_subject());
            assert(idx + 1 <= k < min_int(idx + 6, n as int));
        }
    }
    has_sent && has_subject
}

/// The line where a quoted tail starts, if any line opens one.
pub fn tail_quote_start(t: &[char], tr: &Vec<Vec<char>>) -> (r: Option<usize>)
    requires
        tr@.len() == lines_of(t@).len(),
        forall|k: int| 0 <= k < tr@.len() ==> (#[trigger] tr@[k])@ == lt(t@, k),
    ensures
        r matches Some(i) ==> tail_quote_start_spec(t@) == Some(i as int),
        r is None ==> tail_quote_start_spec(t@) is None,
{
    let mut i: usize = 0;
    while i < tr.len()
        invariant
            i <= tr@.len() == lines_of(t@).len(),
            forall|k: int| 0 <= k < tr@.len() ==> (#[trigger] tr@[k])@ == lt(t@, k),
            tail_from(t@, i as int) == tail_from(t@, 0),
        decreases tr.len() - i,
    {
        if is_tail_marker_exec(t, tr, i) {
            return Some(i);
        }
        i += 1;
    }
    None
}

/// Some line of `text` opens a quoted tail: a reply divider, an underscore
/// separator or a forwarded header block.
pub fn has_quoted_tail(text: &str) -> (r: bool)
    ensures
        r == tail_quote_start_spec(text@) is Some,
{
    let t = crate::text::chars_of(text);
    let lines = lines_with_offsets(t.as_slice());
    let tr = trimmed_lines(t.as_slice(), &lines);
    tail_quote_start(t.as_slice(), &tr).is_some()
}

} // verus!
