//! Character-level text primitives: whitespace trimming, ASCII case-folded
//! matching, and conversion between strings and character vectors.
use vstd::prelude::*;

verus! {

/// Unicode `White_Space`, the property that `char::is_whitespace` tests.
pub open spec fn is_ws(c: char) -> bool {
    let u = c as u32;
    (9 <= u && u <= 13) || u == 32 || u == 0x85 || u == 0xa0 || u == 0x1680 || (0x2000 <= u
        && u <= 0x200a) || u == 0x2028 || u == 0x2029 || u == 0x202f || u == 0x205f || u == 0x3000
}

/// The code of `c` after ASCII lower-casing.
pub open spec fn lc(c: char) -> u32 {
    let u = c as u32;
    if 65 <= u && u <= 90 {
        (u + 32) as u32
    } else {
        u
    }
}

/// First index at or after `i` that does not hold whitespace.
pub open spec fn ws_from(s: Seq<char>, i: int) -> int
    decreases s.len() - i,
{
    if 0 <= i < s.len() && is_ws(s[i]) {
        ws_from(s, i + 1)
    } else {
        i
    }
}

/// Smallest `k <= j` such that `s[k..j]` is all whitespace.
pub open spec fn ws_back(s: Seq<char>, j: int) -> int
    decreases j,
{
    if 0 < j <= s.len() && is_ws(s[j - 1]) {
        ws_back(s, j - 1)
    } else {
        j
    }
}

/// `str::trim_start`.
pub open spec fn trim_start(s: Seq<char>) -> Seq<char> {
    s.skip(ws_from(s, 0))
}

/// `str::trim_end`.
pub open spec fn trim_end(s: Seq<char>) -> Seq<char> {
    s.take(ws_back(s, s.len() as int))
}

/// `str::trim`.
pub open spec fn trim(s: Seq<char>) -> Seq<char> {
    trim_end(trim_start(s))
}

/// `s` begins with `p`, comparing ASCII letters without case.
pub open spec fn starts_with_ic(s: Seq<char>, p: Seq<char>) -> bool {
    p.len() <= s.len() && forall|i: int| 0 <= i < p.len() ==> lc(#[trigger] s[i]) == lc(p[i])
}

/// `s` holds `p` at position `at`, comparing ASCII letters without case.
pub open spec fn matches_at_ic(s: Seq<char>, p: Seq<char>, at: int) -> bool {
    0 <= at && at + p.len() <= s.len() && forall|i: int|
        0 <= i < p.len() ==> lc(#[trigger] s[at + i]) == lc(p[i])
}

/// `s` ends with `p`, comparing ASCII letters without case.
pub open spec fn ends_with_ic(s: Seq<char>, p: Seq<char>) -> bool {
    p.len() <= s.len() && matches_at_ic(s, p, s.len() - p.len())
}

/// `s` equals `p`, comparing ASCII letters without case.
pub open spec fn eq_ic(s: Seq<char>, p: Seq<char>) -> bool {
    s.len() == p.len() && starts_with_ic(s, p)
}

/// `s` contains `p` somewhere, comparing ASCII letters without case.
pub open spec fn contains_ic(s: Seq<char>, p: Seq<char>) -> bool {
    exists|at: int| matches_at_ic(s, p, at)
}

/// The characters of a string, in order.
#[verifier::external_body]
pub(crate) fn chars_of(s: &str) -> (r: Vec<char>)
    ensures
        r@ == s@,
{
    s.chars().collect()
}

/// The string made of the given characters.
#[verifier::external_body]
pub(crate) fn string_of(v: &[char]) -> (r: String)
    ensures
        r@ == v@,
{
    v.iter().collect()
}

/// `char::is_whitespace`, decided from the fixed list of `White_Space` code points.
pub fn char_is_ws(c: char) -> (r: bool)
    ensures
        r == is_ws(c),
{
    let u = c as u32;
    (9 <= u && u <= 13) || u == 32 || u == 0x85 || u == 0xa0 || u == 0x1680 || (0x2000 <= u && u
        <= 0x200a) || u == 0x2028 || u == 0x2029 || u == 0x202f || u == 0x205f || u == 0x3000
}

/// ASCII lower-cased code of `c`.
pub fn char_lc(c: char) -> (r: u32)
    ensures
        r == lc(c),
{
    let u = c as u32;
    if 65 <= u && u <= 90 {
        u + 32
    } else {
        u
    }
}

/// Copy of `s[lo..hi]`.
pub fn sub_chars(s: &[char], lo: usize, hi: usize) -> (r: Vec<char>)
    requires
        lo <= hi <= s@.len(),
    ensures
        r@ == s@.subrange(lo as int, hi as int),
{
    let mut r: Vec<char> = Vec::new();
    let mut i = lo;
    while i < hi
        invariant
            lo <= i <= hi <= s@.len(),
            r@ == s@.subrange(lo as int, i as int),
        decreases hi - i,
    {
        r.push(s[i]);
        i += 1;
    }
    r
}

/// The characters of `s` with surrounding whitespace removed.
pub fn trim_chars(s: &[char]) -> (r: Vec<char>)
    ensures
        r@ == trim(s@),
{
    let n = s.len();
    let mut a: usize = 0;
    while a < n && char_is_ws(s[a])
        invariant
            a <= n == s@.len(),
            ws_from(s@, a as int) == ws_from(s@, 0),
        decreases n - a,
    {
        a += 1;
    }
    let t = sub_chars(s, a, n);
    let m = t.len();
    let mut b: usize = m;
    while b > 0 && char_is_ws(t[b - 1])
        invariant
            b <= m == t@.len(),
            ws_back(t@, b as int) == ws_back(t@, m as int),
        decreases b,
    {
        b -= 1;
    }
    sub_chars(&t, 0, b)
}

/// `s` begins with `p`, ignoring ASCII case.
pub fn starts_with_ic_exec(s: &[char], p: &[char]) -> (r: bool)
    ensures
        r == starts_with_ic(s@, p@),
{
    if p.len() > s.len() {
        return false;
    }
    let mut i: usize = 0;
    while i < p.len()
        invariant
            p@.len() <= s@.len(),
            i <= p@.len(),
            forall|k: int| 0 <= k < i ==> lc(#[trigger] s@[k]) == lc(p@[k]),
        decreases p.len() - i,
    {
        if char_lc(s[i]) != char_lc(p[i]) {
            return false;
        }
        i += 1;
    }
    true
}

/// `s` holds `p` at `at`, ignoring ASCII case.
pub fn matches_at_ic_exec(s: &[char], p: &[char], at: usize) -> (r: bool)
    ensures
        r == matches_at_ic(s@, p@, at as int),
{
    if at > s.len() || p.len() > s.len() - at {
        return false;
    }
    assert(at + p.len() <= s.len());
    let mut i: usize = 0;
    while i < p.len()
        invariant
            at + p@.len() <= s@.len(),
            s@.len() == s.len(),
            i <= p@.len(),
            forall|k: int| 0 <= k < i ==> lc(#[trigger] s@[at + k]) == lc(p@[k]),
        decreases p.len() - i,
    {
        assert(at + i < s@.len());
        if char_lc(s[at + i]) != char_lc(p[i]) {
            return false;
        }
        i += 1;
    }
    true
}

/// `s` ends with `p`, ignoring ASCII case.
pub fn ends_with_ic_exec(s: &[char], p: &[char]) -> (r: bool)
    ensures
        r == ends_with_ic(s@, p@),
{
    if p.len() > s.len() {
        return false;
    }
    matches_at_ic_exec(s, p, s.len() - p.len())
}

/// `s` equals `p`, ignoring ASCII case.
pub fn eq_ic_exec(s: &[char], p: &[char]) -> (r: bool)
    ensures
        r == eq_ic(s@, p@),
{
    s.len() == p.len() && starts_with_ic_exec(s, p)
}

/// `s` contains `p`, ignoring ASCII case.
pub fn contains_ic_exec(s: &[char], p: &[char]) -> (r: bool)
    ensures
        r == contains_ic(s@, p@),
{
    if p.len() > s.len() {
        assert forall|at: int| !matches_at_ic(s@, p@, at) by {}
        return false;
    }
    let last = s.len() - p.len();
    let mut at: usize = 0;
    while at < last
        invariant
            last + p@.len() == s@.len(),
            at <= last,
            forall|k: int| 0 <= k < at ==> !matches_at_ic(s@, p@, k),
        decreases last - at,
    {
        if matches_at_ic_exec(s, p, at) {
            return true;
        }
        at += 1;
    }
    if matches_at_ic_exec(s, p, last) {
        return true;
    }
    assert forall|k: int| !matches_at_ic(s@, p@, k) by {
        if 0 <= k < at {
        }
    }
    false
}

/// A string with the characters of `s`.
pub fn lit(s: &str) -> (r: String)
    ensures
        r@ == s@,
{
    let cs = chars_of(s);
    string_of(cs.as_slice())
}

/// Appends `b` to `a`.
pub fn push_all(a: &mut Vec<char>, b: &[char])
    ensures
        final(a)@ == old(a)@ + b@,
{
    let ghost a0 = a@;
    let mut i: usize = 0;
    while i < b.len()
        invariant
            i <= b@.len(),
            a@ == a0 + b@.take(i as int),
        decreases b.len() - i,
    {
        a.push(b[i]);
        i += 1;
        assert(a@ =~= a0 + b@.take(i as int));
    }
    assert(b@.take(b@.len() as int) =~= b@);
}

} // verus!

verus! {

/// Whether two strings hold the same characters.
pub fn str_eq(a: &str, b: &str) -> (r: bool)
    ensures
        r == (a@ == b@),
{
    let x = chars_of(a);
    let y = chars_of(b);
    if x.len() != y.len() {
        return false;
    }
    let mut i: usize = 0;
    while i < x.len()
        invariant
            i <= x@.len() == y@.len(),
            x@ == a@,
            y@ == b@,
            forall|k: int| 0 <= k < i ==> x@[k] == y@[k],
        decreases x.len() - i,
    {
        if x[i] != y[i] {
            return false;
        }
        i += 1;
    }
    assert(x@ =~= y@);
    true
}

/// Appends the characters of `s` to `out`.
pub fn push_str(out: &mut Vec<char>, s: &str)
    ensures
        final(out)@ == old(out)@ + s@,
{
    let cs = chars_of(s);
    push_all(out, cs.as_slice());
}

/// `str::get` on a byte range: the sub-slice when both ends are character
/// boundaries in order, `None` where indexing would panic.
#[verifier::external_body]
pub(crate) fn str_get(s: &str, a: usize, b: usize) -> (r: Option<&str>)
    ensures
        r is Some <==> (a <= b && vstd::utf8::is_char_boundary(vstd::utf8::encode_utf8(s@), a as int)
            && vstd::utf8::is_char_boundary(vstd::utf8::encode_utf8(s@), b as int)),
        r matches Some(x) ==> vstd::utf8::encode_utf8(x@) == vstd::utf8::encode_utf8(s@).subrange(a as int, b as int),
{
    s.get(a..b)
}

} // verus!

verus! {

/// `str::eq_ignore_ascii_case`.
pub fn eq_ic_str(s: &str, p: &str) -> (r: bool)
    ensures
        r == eq_ic(s@, p@),
{
    let a = chars_of(s);
    let b = chars_of(p);
    eq_ic_exec(a.as_slice(), b.as_slice())
}

} // verus!

verus! {

/// `std::str::from_utf8`: the text whose UTF-8 encoding is `b`, or nothing
/// when `b` is not valid UTF-8.
#[verifier::external_body]
pub(crate) fn utf8_text(b: &[u8]) -> (r: Option<String>)
    ensures
        r is Some <==> vstd::utf8::valid_utf8(b@),
        r matches Some(s) ==> vstd::utf8::encode_utf8(s@) == b@,
{
    match std::str::from_utf8(b) {
        Ok(s) => Some(s.to_string()),
        Err(_) => None,
    }
}

} // verus!
