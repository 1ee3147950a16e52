//! Byte-level encodings: UTF-8 widths and offsets, decimal numerals,
//! lowercase hexadecimal, and the SHA-256 digests that identify content.
use sha2::Digest;
use vstd::prelude::*;
use vstd::utf8::{encode_scalar, encode_utf8};

verus! {

/// Number of bytes that `c` takes in UTF-8.
pub open spec fn width(c: char) -> nat {
    encode_scalar(c as u32).len()
}

/// Number of bytes that `s` takes in UTF-8.
pub open spec fn byte_len(s: Seq<char>) -> nat {
    encode_utf8(s).len()
}

/// Byte offset of character index `k` in `s`.
pub open spec fn byte_off(s: Seq<char>, k: int) -> nat {
    byte_len(s.take(k))
}

/// Encoding a concatenation concatenates the encodings.
pub proof fn lemma_encode_concat(a: Seq<char>, b: Seq<char>)
    ensures
        encode_utf8(a + b) == encode_utf8(a) + encode_utf8(b),
    decreases a.len(),
{
    if a.len() == 0 {
        assert(a + b =~= b);
        assert(encode_utf8(a) =~= Seq::<u8>::empty());
        assert(encode_utf8(a) + encode_utf8(b) =~= encode_utf8(b));
    } else {
        lemma_encode_concat(a.drop_first(), b);
        assert((a + b).drop_first() =~= a.drop_first() + b);
        assert((a + b)[0] == a[0]);
        assert(encode_utf8(a + b) =~= encode_scalar(a[0] as u32) + encode_utf8(a.drop_first() + b));
        assert(encode_utf8(a) =~= encode_scalar(a[0] as u32) + encode_utf8(a.drop_first()));
    }
}

/// The encoding of a single character.
pub proof fn lemma_encode_single(c: char)
    ensures
        encode_utf8(seq![c]) == encode_scalar(c as u32),
{
    assert(seq![c].drop_first() =~= Seq::<char>::empty());
    assert(encode_utf8(Seq::<char>::empty()) =~= Seq::<u8>::empty());
    assert(encode_scalar(c as u32) + Seq::<u8>::empty() =~= encode_scalar(c as u32));
}

/// Extending a prefix by one character adds that character's width.
pub proof fn lemma_byte_off_step(s: Seq<char>, k: int)
    requires
        0 <= k < s.len(),
    ensures
        byte_off(s, k + 1) == byte_off(s, k) + width(s[k]),
        encode_utf8(s.take(k + 1)) == encode_utf8(s.take(k)) + encode_scalar(s[k] as u32),
{
    assert(s.take(k + 1) =~= s.take(k) + seq![s[k]]);
    lemma_encode_concat(s.take(k), seq![s[k]]);
    lemma_encode_single(s[k]);
}

/// Offsets grow with the index.
pub proof fn lemma_byte_off_mono(s: Seq<char>, i: int, j: int)
    requires
        0 <= i <= j <= s.len(),
    ensures
        byte_off(s, i) <= byte_off(s, j),
    decreases j - i,
{
    if i < j {
        lemma_byte_off_mono(s, i, j - 1);
        lemma_byte_off_step(s, j - 1);
    }
}

/// The bytes of a character range are the matching slice of the whole encoding.
pub proof fn lemma_encode_subrange(s: Seq<char>, i: int, j: int)
    requires
        0 <= i <= j <= s.len(),
    ensures
        encode_utf8(s).subrange(byte_off(s, i) as int, byte_off(s, j) as int) == encode_utf8(
            s.subrange(i, j),
        ),
        byte_off(s, s.len() as int) == byte_len(s),
{
    assert(s.take(j) =~= s.take(i) + s.subrange(i, j));
    assert(s =~= s.take(j) + s.skip(j));
    assert(s.take(s.len() as int) =~= s);
    lemma_encode_concat(s.take(i), s.subrange(i, j));
    lemma_encode_concat(s.take(j), s.skip(j));
    let e = encode_utf8(s);
    let a = encode_utf8(s.take(i));
    let m = encode_utf8(s.subrange(i, j));
    assert(e =~= a + m + encode_utf8(s.skip(j)));
    assert(e.subrange(a.len() as int, (a.len() + m.len()) as int) =~= m);
}

/// Number of UTF-8 bytes of `c`.
pub fn char_width(c: char) -> (w: usize)
    ensures
        w == width(c),
        1 <= w <= 4,
{
    let u = c as u32;
    proof {
        vstd::utf8::char_is_scalar(c);
    }
    if u <= 0x7f {
        1
    } else if u <= 0x7ff {
        2
    } else if u <= 0xffff {
        3
    } else {
        4
    }
}

/// Widths are never zero, so offsets grow strictly.
pub proof fn lemma_byte_off_strict(s: Seq<char>, i: int, j: int)
    requires
        0 <= i < j <= s.len(),
    ensures
        byte_off(s, i) < byte_off(s, j),
    decreases j - i,
{
    lemma_byte_off_step(s, j - 1);
    vstd::utf8::char_is_scalar(s[j - 1]);
    if i < j - 1 {
        lemma_byte_off_strict(s, i, j - 1);
    }
}

/// Byte offsets of every character index of `s`, from 0 to the full length.
pub fn byte_offsets(s: &[char]) -> (r: Vec<usize>)
    requires
        byte_len(s@) <= usize::MAX,
    ensures
        r@.len() == s@.len() + 1,
        forall|k: int| 0 <= k <= s@.len() ==> #[trigger] r@[k] == byte_off(s@, k),
{
    let mut r: Vec<usize> = Vec::new();
    r.push(0);
    assert(s@.take(0) =~= Seq::<char>::empty());
    assert(encode_utf8(Seq::<char>::empty()) =~= Seq::<u8>::empty());
    proof {
        lemma_encode_subrange(s@, 0, 0);
    }
    let mut i: usize = 0;
    while i < s.len()
        invariant
            i <= s@.len(),
            byte_len(s@) <= usize::MAX,
            byte_off(s@, s@.len() as int) == byte_len(s@),
            r@.len() == i + 1,
            forall|k: int| 0 <= k <= i ==> #[trigger] r@[k] == byte_off(s@, k),
        decreases s.len() - i,
    {
        let w = char_width(s[i]);
        proof {
            lemma_byte_off_step(s@, i as int);
            lemma_byte_off_mono(s@, i + 1, s@.len() as int);
        }
        let next = r[i] + w;
        r.push(next);
        i += 1;
    }
    r
}

/// One decimal digit.
pub open spec fn digit_char(d: nat) -> char {
    if d == 0 {
        '0'
    } else if d == 1 {
        '1'
    } else if d == 2 {
        '2'
    } else if d == 3 {
        '3'
    } else if d == 4 {
        '4'
    } else if d == 5 {
        '5'
    } else if d == 6 {
        '6'
    } else if d == 7 {
        '7'
    } else if d == 8 {
        '8'
    } else {
        '9'
    }
}

/// The decimal numeral of `n`, as `usize::to_string` writes it.
pub open spec fn decimal(n: nat) -> Seq<char>
    decreases n,
{
    if n < 10 {
        seq![digit_char(n)]
    } else {
        decimal(n / 10).push(digit_char(n % 10))
    }
}

fn digit_exec(d: u64) -> (c: char)
    requires
        d < 10,
    ensures
        c == digit_char(d as nat),
{
    if d == 0 {
        '0'
    } else if d == 1 {
        '1'
    } else if d == 2 {
        '2'
    } else if d == 3 {
        '3'
    } else if d == 4 {
        '4'
    } else if d == 5 {
        '5'
    } else if d == 6 {
        '6'
    } else if d == 7 {
        '7'
    } else if d == 8 {
        '8'
    } else {
        '9'
    }
}

/// The decimal numeral of `n`.
pub fn decimal_chars(n: u64) -> (r: Vec<char>)
    ensures
        r@ == decimal(n as nat),
    decreases n,
{
    if n < 10 {
        let mut v: Vec<char> = Vec::new();
        v.push(digit_exec(n));
        assert(v@ =~= seq![digit_char(n as nat)]);
        v
    } else {
        let mut v = decimal_chars(n / 10);
        v.push(digit_exec(n % 10));
        v
    }
}

/// One lowercase hexadecimal digit.
pub open spec fn hex_digit(d: nat) -> char {
    if d < 10 {
        digit_char(d)
    } else if d == 10 {
        'a'
    } else if d == 11 {
        'b'
    } else if d == 12 {
        'c'
    } else if d == 13 {
        'd'
    } else if d == 14 {
        'e'
    } else {
        'f'
    }
}

/// Lowercase hexadecimal text of `b`, two digits per byte, high nibble first.
pub open spec fn hex_lower(b: Seq<u8>) -> Seq<char>
    decreases b.len(),
{
    if b.len() == 0 {
        Seq::empty()
    } else {
        hex_lower(b.drop_last()).push(hex_digit((b.last() / 16) as nat)).push(
            hex_digit((b.last() % 16) as nat),
        )
    }
}

/// What the SHA-256 function of the `sha2` crate returns for `data`.
pub uninterp spec fn sha256_spec(data: Seq<u8>) -> Seq<u8>;

/// `sha2::Sha256::digest`: the 32-byte SHA-256 digest of `data`. The digest
/// itself is named, not restated; the crate's output type fixes its length.
#[verifier::external_body]
pub(crate) fn sha256_digest(data: &[u8]) -> (r: Vec<u8>)
    ensures
        r@ == sha256_spec(data@),
        r@.len() == 32,
{
    sha2::Sha256::digest(data).to_vec()
}

/// `hex::encode`: two lowercase hexadecimal digits per byte, high nibble first.
#[verifier::external_body]
pub(crate) fn hex_encode(data: &[u8]) -> (r: String)
    ensures
        r@ == hex_lower(data@),
{
    hex::encode(data)
}

/// Lowercase hexadecimal SHA-256 of `data`.
pub open spec fn sha256_hex_spec(data: Seq<u8>) -> Seq<char> {
    hex_lower(sha256_spec(data))
}

proof fn lemma_hex_len(b: Seq<u8>)
    ensures
        hex_lower(b).len() == 2 * b.len(),
    decreases b.len(),
{
    if b.len() > 0 {
        lemma_hex_len(b.drop_last());
    }
}

/// The lowercase hexadecimal SHA-256 of `data`.
pub fn sha256_hex(data: &[u8]) -> (r: String)
    ensures
        r@ == sha256_hex_spec(data@),
        r@.len() == 64,
{
    let d = sha256_digest(data);
    let r = hex_encode(d.as_slice());
    proof {
        lemma_hex_len(d@);
    }
    r
}

/// First sixteen hexadecimal digits of the SHA-256 of `data`.
pub open spec fn short_sha256_spec(data: Seq<u8>) -> Seq<char> {
    sha256_hex_spec(data).take(16)
}

/// The first sixteen hexadecimal digits of the SHA-256 of `data`.
pub fn short_sha256(data: &[u8]) -> (r: Vec<char>)
    ensures
        r@ == short_sha256_spec(data@),
        r@.len() == 16,
{
    let h = sha256_hex(data);
    let cs = crate::text::chars_of(h.as_str());
    crate::text::sub_chars(cs.as_slice(), 0, 16)
}

} // verus!
