//! Orderings: lexicographic order of texts, the sort keys of messages and
//! thread nodes, and a stable sort that returns the sorting permutation.
use vstd::prelude::*;

verus! {

/// Lexicographic order of texts by code point, which is the byte order of
/// their UTF-8 encodings.
pub open spec fn seq_lt(a: Seq<char>, b: Seq<char>) -> bool
    decreases a.len(),
{
    if a.len() == 0 {
        b.len() > 0
    } else if b.len() == 0 {
        false
    } else if a[0] != b[0] {
        a[0] < b[0]
    } else {
        seq_lt(a.skip(1), b.skip(1))
    }
}

/// `seq_lt` is irreflexive.
pub proof fn lemma_seq_lt_irrefl(a: Seq<char>)
    ensures
        !seq_lt(a, a),
    decreases a.len(),
{
    if a.len() > 0 {
        lemma_seq_lt_irrefl(a.skip(1));
    }
}

/// `seq_lt` is transitive.
pub proof fn lemma_seq_lt_trans(a: Seq<char>, b: Seq<char>, c: Seq<char>)
    requires
        seq_lt(a, b),
        seq_lt(b, c),
    ensures
        seq_lt(a, c),
    decreases a.len(),
{
    if a.len() > 0 && b.len() > 0 && c.len() > 0 && a[0] == b[0] && b[0] == c[0] {
        lemma_seq_lt_trans(a.skip(1), b.skip(1), c.skip(1));
    }
}

/// Two different texts are ordered one way or the other.
pub proof fn lemma_seq_lt_total(a: Seq<char>, b: Seq<char>)
    ensures
        a == b || seq_lt(a, b) || seq_lt(b, a),
    decreases a.len(),
{
    if a.len() > 0 && b.len() > 0 && a[0] == b[0] {
        lemma_seq_lt_total(a.skip(1), b.skip(1));
        if a.skip(1) == b.skip(1) {
            assert(a =~= seq![a[0]] + a.skip(1));
            assert(b =~= seq![b[0]] + b.skip(1));
        }
    } else if a.len() == 0 && b.len() == 0 {
        assert(a =~= b);
    }
}

/// `seq_lt` is asymmetric.
pub proof fn lemma_seq_lt_asym(a: Seq<char>, b: Seq<char>)
    requires
        seq_lt(a, b),
    ensures
        !seq_lt(b, a),
{
    if seq_lt(b, a) {
        lemma_seq_lt_trans(a, b, a);
        lemma_seq_lt_irrefl(a);
    }
}

/// A sort key: depth, missing date, timestamp, then two texts.
pub struct KeyV {
    pub depth: nat,
    pub missing: bool,
    pub ts: int,
    pub a: Seq<char>,
    pub b: Seq<char>,
}

/// Tuple order on keys, with `false < true` for the missing-date flag.
pub open spec fn key_lt(x: KeyV, y: KeyV) -> bool {
    if x.depth != y.depth {
        x.depth < y.depth
    } else if x.missing != y.missing {
        !x.missing
    } else if x.ts != y.ts {
        x.ts < y.ts
    } else if x.a != y.a {
        seq_lt(x.a, y.a)
    } else {
        seq_lt(x.b, y.b)
    }
}

/// `key_lt` is a strict total order.
pub proof fn lemma_key_order(x: KeyV, y: KeyV, z: KeyV)
    ensures
        !key_lt(x, x),
        key_lt(x, y) && key_lt(y, z) ==> key_lt(x, z),
        x == y || key_lt(x, y) || key_lt(y, x),
        key_lt(x, y) ==> !key_lt(y, x),
{
    lemma_seq_lt_irrefl(x.a);
    lemma_seq_lt_irrefl(x.b);
    lemma_seq_lt_total(x.a, y.a);
    lemma_seq_lt_total(x.b, y.b);
    if key_lt(x, y) && key_lt(y, z) {
        if x.a != y.a && seq_lt(x.a, y.a) && y.a != z.a && seq_lt(y.a, z.a) {
            lemma_seq_lt_trans(x.a, y.a, z.a);
        }
        if seq_lt(x.b, y.b) && seq_lt(y.b, z.b) {
            lemma_seq_lt_trans(x.b, y.b, z.b);
        }
        if x.a != y.a && seq_lt(x.a, y.a) && y.a != z.a && seq_lt(y.a, z.a) && x.a == z.a {
            lemma_seq_lt_asym(x.a, y.a);
        }
    }
    if key_lt(x, y) && x.a != y.a && seq_lt(x.a, y.a) {
        lemma_seq_lt_asym(x.a, y.a);
    }
    if key_lt(x, y) && seq_lt(x.b, y.b) {
        lemma_seq_lt_asym(x.b, y.b);
    }
}

/// An executable sort key.
pub struct SortKey {
    pub depth: usize,
    pub missing: bool,
    pub ts: i64,
    pub a: Vec<char>,
    pub b: Vec<char>,
}

impl View for SortKey {
    type V = KeyV;

    open spec fn view(&self) -> KeyV {
        KeyV { depth: self.depth as nat, missing: self.missing, ts: self.ts as int, a: self.a@, b: self.b@ }
    }
}

/// Lexicographic comparison of two character sequences.
pub fn seq_lt_exec(a: &[char], b: &[char]) -> (r: bool)
    ensures
        r == seq_lt(a@, b@),
{
    let mut i: usize = 0;
    assert(a@.skip(0) =~= a@);
    assert(b@.skip(0) =~= b@);
    while i < a.len() && i < b.len() && a[i] == b[i]
        invariant
            i <= a@.len(),
            i <= b@.len(),
            seq_lt(a@.skip(i as int), b@.skip(i as int)) == seq_lt(a@, b@),
        decreases a.len() - i,
    {
        assert(a@.skip(i as int).skip(1) =~= a@.skip(i + 1));
        assert(b@.skip(i as int).skip(1) =~= b@.skip(i + 1));
        i += 1;
    }
    if i == a.len() {
        i < b.len()
    } else if i == b.len() {
        false
    } else {
        a[i] < b[i]
    }
}

/// Whether key `x` sorts before key `y`.
pub fn key_lt_exec(x: &SortKey, y: &SortKey) -> (r: bool)
    ensures
        r == key_lt(x@, y@),
{
    if x.depth != y.depth {
        x.depth < y.depth
    } else if x.missing != y.missing {
        !x.missing
    } else if x.ts != y.ts {
        x.ts < y.ts
    } else if !vec_eq(&x.a, &y.a) {
        seq_lt_exec(x.a.as_slice(), y.a.as_slice())
    } else {
        seq_lt_exec(x.b.as_slice(), y.b.as_slice())
    }
}

/// Whether two character vectors are equal.
pub fn vec_eq(a: &Vec<char>, b: &Vec<char>) -> (r: bool)
    ensures
        r == (a@ == b@),
{
    if a.len() != b.len() {
        return false;
    }
    let mut i: usize = 0;
    while i < a.len()
        invariant
            i <= a@.len() == b@.len(),
            forall|k: int| 0 <= k < i ==> a@[k] == b@[k],
        decreases a.len() - i,
    {
        if a[i] != b[i] {
            return false;
        }
        i += 1;
    }
    assert(a@ =~= b@);
    true
}

/// Index `i` sorts before index `j`: by key, then by index.
pub open spec fn pair_lt(ks: Seq<KeyV>, i: int, j: int) -> bool {
    key_lt(ks[i], ks[j]) || (ks[i] == ks[j] && i < j)
}

/// `j` occurs in `perm`.
pub open spec fn occurs(perm: Seq<usize>, j: int) -> bool {
    exists|a: int| 0 <= a < perm.len() && #[trigger] perm[a] == j
}

/// `perm` lists each of `0..n` exactly once.
pub open spec fn is_perm(perm: Seq<usize>, n: nat) -> bool {
    &&& perm.len() == n
    &&& forall|a: int| 0 <= a < perm.len() ==> #[trigger] perm[a] < n
    &&& forall|a: int, b: int| 0 <= a < b < perm.len() ==> perm[a] != perm[b]
    &&& forall|j: int| 0 <= j < n ==> #[trigger] occurs(perm, j)
}

/// `perm` orders the indexes of `ks` by key, keeping equal keys in index order.
pub open spec fn stably_sorted(ks: Seq<KeyV>, perm: Seq<usize>) -> bool {
    forall|a: int, b: int|
        0 <= a < b < perm.len() ==> pair_lt(ks, #[trigger] perm[a] as int, #[trigger] perm[b] as int)
}

proof fn lemma_pair_order(ks: Seq<KeyV>, i: int, j: int, k: int)
    requires
        0 <= i < ks.len(),
        0 <= j < ks.len(),
        0 <= k < ks.len(),
    ensures
        pair_lt(ks, i, j) && pair_lt(ks, j, k) ==> pair_lt(ks, i, k),
        i != j ==> pair_lt(ks, i, j) || pair_lt(ks, j, i),
        pair_lt(ks, i, j) ==> !pair_lt(ks, j, i),
{
    lemma_key_order(ks[i], ks[j], ks[k]);
    lemma_key_order(ks[j], ks[k], ks[i]);
    lemma_key_order(ks[j], ks[i], ks[k]);
    lemma_key_order(ks[i], ks[k], ks[j]);
}

/// The stable order is unique: two permutations that both sort the indexes
/// of `ks` by key, equal keys in index order, are the same.
pub proof fn lemma_stable_order_unique(ks: Seq<KeyV>, p: Seq<usize>, q: Seq<usize>)
    requires
        is_perm(p, ks.len()),
        is_perm(q, ks.len()),
        stably_sorted(ks, p),
        stably_sorted(ks, q),
    ensures
        p == q,
{
    assert forall|a: int| 0 <= a < p.len() implies p[a] == q[a] by {
        lemma_stable_order_agree(ks, p, q, a);
    }
    assert(p =~= q);
}

proof fn lemma_stable_order_agree(ks: Seq<KeyV>, p: Seq<usize>, q: Seq<usize>, a: int)
    requires
        is_perm(p, ks.len()),
        is_perm(q, ks.len()),
        stably_sorted(ks, p),
        stably_sorted(ks, q),
        0 <= a < p.len(),
    ensures
        p[a] == q[a],
    decreases a,
{
    if a > 0 {
        assert forall|c: int| 0 <= c < a implies p[c] == q[c] by {
            lemma_stable_order_agree(ks, p, q, c);
        }
    }
    if p[a] != q[a] {
        let x = p[a] as int;
        let y = q[a] as int;
        assert(occurs(p, y));
        let b = choose|b: int| 0 <= b < p.len() && #[trigger] p[b] == y;
        assert(occurs(q, x));
        let c = choose|c: int| 0 <= c < q.len() && #[trigger] q[c] == x;
        if b < a {
            assert(p[b] == q[b]);
        }
        if c < a {
            assert(p[c] == q[c]);
        }
        assert(b > a);
        assert(c > a);
        assert(pair_lt(ks, p[a] as int, p[b] as int));
        assert(pair_lt(ks, q[a] as int, q[c] as int));
        lemma_pair_order(ks, x, y, x);
    }
}

/// The stable sorting permutation of `keys`: position `a` of the result holds
/// the index of the key that sorts `a`-th, equal keys in their original order.
pub fn stable_order(keys: &Vec<SortKey>) -> (perm: Vec<usize>)
    ensures
        is_perm(perm@, keys@.len()),
        stably_sorted(keys@.map_values(|k: SortKey| k@), perm@),
{
    let ghost ks = keys@.map_values(|k: SortKey| k@);
    let n = keys.len();
    let mut out: Vec<usize> = Vec::new();
    let mut i: usize = 0;
    while i < n
        invariant
            n == keys@.len(),
            ks == keys@.map_values(|k: SortKey| k@),
            i <= n,
            out@.len() == i,
            forall|a: int| 0 <= a < out@.len() ==> #[trigger] out@[a] < i,
            forall|a: int, b: int| 0 <= a < b < out@.len() ==> out@[a] != out@[b],
            forall|j: int| 0 <= j < i ==> #[trigger] occurs(out@, j),
            stably_sorted(ks, out@),
        decreases n - i,
    {
        let mut p: usize = 0;
        while p < out.len() && !key_lt_exec(&keys[i], &keys[out[p]])
            invariant
                n == keys@.len(),
                ks == keys@.map_values(|k: SortKey| k@),
                i < n,
                p <= out@.len(),
                forall|a: int| 0 <= a < out@.len() ==> #[trigger] out@[a] < i,
                forall|a: int| 0 <= a < p ==> pair_lt(ks, #[trigger] out@[a] as int, i as int),
            decreases out.len() - p,
        {
            proof {
                let o = out@[p as int] as int;
                lemma_pair_order(ks, o, i as int, i as int);
                assert(ks[i as int] == keys@[i as int]@);
                assert(ks[o] == keys@[o]@);
            }
            p += 1;
        }
        proof {
            if p < out@.len() {
                assert(ks[i as int] == keys@[i as int]@);
                assert(ks[out@[p as int] as int] == keys@[out@[p as int] as int]@);
                assert(pair_lt(ks, i as int, out@[p as int] as int));
                assert forall|a: int| p <= a < out@.len() implies pair_lt(
                    ks,
                    i as int,
                    #[trigger] out@[a] as int,
                ) by {
                    if a > p {
                        lemma_pair_order(ks, i as int, out@[p as int] as int, out@[a] as int);
                    }
                }
            }
        }
        let ghost old_out = out@;
        out.insert(p, i);
        proof {
            old_out.insert_ensures(p as int, i);
            assert forall|j: int| 0 <= j < i + 1 implies #[trigger] occurs(out@, j) by {
                if j == i {
                    assert(out@[p as int] == j);
                } else {
                    assert(occurs(old_out, j));
                    let a0 = choose|a: int| 0 <= a < old_out.len() && #[trigger] old_out[a] == j;
                    if a0 < p {
                        assert(out@[a0] == j);
                    } else {
                        assert(out@[a0 + 1] == j);
                    }
                }
            }
            assert forall|a: int, b: int| 0 <= a < b < out@.len() implies pair_lt(
                ks,
                #[trigger] out@[a] as int,
                #[trigger] out@[b] as int,
            ) by {
                if b < p {
                    assert(out@[a] == old_out[a] && out@[b] == old_out[b]);
                } else if b == p {
                    assert(out@[a] == old_out[a]);
                } else if a < p {
                    assert(out@[a] == old_out[a] && out@[b] == old_out[b - 1]);
                    assert(pair_lt(ks, old_out[a] as int, i as int));
                    assert(pair_lt(ks, i as int, old_out[b - 1] as int));
                    lemma_pair_order(ks, old_out[a] as int, i as int, old_out[b - 1] as int);
                } else if a == p {
                    assert(out@[b] == old_out[b - 1]);
                } else {
                    assert(out@[a] == old_out[a - 1] && out@[b] == old_out[b - 1]);
                }
            }
            assert forall|a: int, b: int| 0 <= a < b < out@.len() implies out@[a] != out@[b] by {
                if a < p && b < p {
                    assert(out@[a] == old_out[a] && out@[b] == old_out[b]);
                } else if a < p && b == p {
                    assert(out@[a] == old_out[a]);
                } else if a < p {
                    assert(out@[a] == old_out[a] && out@[b] == old_out[b - 1]);
                } else if a == p {
                    assert(out@[b] == old_out[b - 1]);
                } else {
                    assert(out@[a] == old_out[a - 1] && out@[b] == old_out[b - 1]);
                }
            }
            assert forall|a: int| 0 <= a < out@.len() implies #[trigger] out@[a] < i + 1 by {
                if a < p {
                    assert(out@[a] == old_out[a]);
                } else if a > p {
                    assert(out@[a] == old_out[a - 1]);
                }
            }
        }
        i += 1;
    }
    out
}

} // verus!

verus! {

/// Texts of a list of strings.
pub open spec fn texts(v: Seq<String>) -> Seq<Seq<char>> {
    v.map_values(|s: String| s@)
}

/// Key that orders a text by itself.
pub open spec fn text_key(s: Seq<char>) -> KeyV {
    KeyV { depth: 0, missing: false, ts: 0, a: s, b: Seq::empty() }
}

/// `r` is `v` reordered.
pub open spec fn reordered<T>(r: Seq<T>, v: Seq<T>) -> bool {
    exists|perm: Seq<usize>|
        is_perm(perm, v.len()) && r.len() == perm.len() && forall|a: int|
            0 <= a < r.len() ==> #[trigger] r[a] == v[perm[a] as int]
}

/// Texts in non-decreasing order.
pub open spec fn texts_sorted(s: Seq<Seq<char>>) -> bool {
    forall|a: int, b: int| 0 <= a < b < s.len() ==> !seq_lt(#[trigger] s[b], #[trigger] s[a])
}

/// Texts in strictly increasing order.
pub open spec fn texts_strict(s: Seq<Seq<char>>) -> bool {
    forall|a: int, b: int| 0 <= a < b < s.len() ==> seq_lt(#[trigger] s[a], #[trigger] s[b])
}

/// Strings sorted by text, as `Vec::sort` orders them.
pub fn sort_strings(v: Vec<String>) -> (r: Vec<String>)
    ensures
        reordered(texts(r@), texts(v@)),
        texts_sorted(texts(r@)),
{
    let mut keys: Vec<SortKey> = Vec::new();
    let mut i: usize = 0;
    while i < v.len()
        invariant
            i <= v@.len(),
            keys@.len() == i,
            forall|k: int| 0 <= k < i ==> (#[trigger] keys@[k])@ == text_key(v@[k]@),
        decreases v.len() - i,
    {
        keys.push(SortKey { depth: 0, missing: false, ts: 0, a: crate::text::chars_of(v[i].as_str()), b: Vec::new() });
        i += 1;
    }
    let ghost kv = keys@.map_values(|k: SortKey| k@);
    let ghost v0 = v@;
    let perm = stable_order(&keys);
    let r = crate::thread::apply_perm(v, &perm);
    proof {
        assert forall|a: int| 0 <= a < texts(r@).len() implies #[trigger] texts(r@)[a] == texts(v0)[perm@[a] as int] by {
            assert(r@[a] == v0[perm@[a] as int]);
        }
        assert forall|a: int, b: int| 0 <= a < b < texts(r@).len() implies !seq_lt(#[trigger] texts(r@)[b], #[trigger] texts(r@)[a]) by {
            let pa = perm@[a] as int;
            let pb = perm@[b] as int;
            assert(pair_lt(kv, pa, pb));
            assert(kv[pa] == text_key(v0[pa]@));
            assert(kv[pb] == text_key(v0[pb]@));
            assert(r@[a] == v0[pa] && r@[b] == v0[pb]);
            lemma_key_order(kv[pa], kv[pb], kv[pa]);
            lemma_seq_lt_irrefl(v0[pa]@);
        }
        assert(reordered(texts(r@), texts(v0)));
    }
    r
}

/// Distinct strings in increasing order, as a `BTreeSet` lists them.
pub fn sorted_unique(v: Vec<String>) -> (r: Vec<String>)
    ensures
        texts_strict(texts(r@)),
        forall|x: Seq<char>| #[trigger] texts(r@).contains(x) <==> texts(v@).contains(x),
{
    let ghost v0 = texts(v@);
    let s = sort_strings(v);
    let ghost sv = texts(s@);
    proof {
        let perm = choose|perm: Seq<usize>|
            is_perm(perm, v0.len()) && sv.len() == perm.len() && forall|a: int|
                0 <= a < sv.len() ==> #[trigger] sv[a] == v0[perm[a] as int];
        assert forall|x: Seq<char>| sv.contains(x) <==> v0.contains(x) by {
            if sv.contains(x) {
                let a = choose|a: int| 0 <= a < sv.len() && #[trigger] sv[a] == x;
                assert(v0[perm[a] as int] == x);
            }
            if v0.contains(x) {
                let b = choose|b: int| 0 <= b < v0.len() && #[trigger] v0[b] == x;
                assert(occurs(perm, b));
                let a = choose|a: int| 0 <= a < perm.len() && #[trigger] perm[a] == b;
                assert(sv[a] == x);
            }
        }
    }
    let mut out: Vec<String> = Vec::new();
    let mut i: usize = 0;
    while i < s.len()
        invariant
            sv == texts(s@),
            texts_sorted(sv),
            i <= sv.len(),
            texts_strict(texts(out@)),
            forall|x: Seq<char>| #[trigger] texts(out@).contains(x) <==> sv.take(i as int).contains(x),
            out@.len() > 0 ==> i > 0 && texts(out@).last() == sv[i - 1],
            out@.len() == 0 ==> i == 0,
        decreases s.len() - i,
    {
        let ghost ov = texts(out@);
        let dup = out.len() > 0 && str_eq_pub(out[out.len() - 1].as_str(), s[i].as_str());
        if !dup {
            out.push(s[i].clone());
            proof {
                assert(texts(out@) =~= ov.push(sv[i as int]));
                if ov.len() > 0 {
                    assert(ov.last() == sv[i - 1]);
                    assert(!seq_lt(sv[i as int], sv[i - 1]));
                    lemma_seq_lt_total(sv[i - 1], sv[i as int]);
                }
                assert forall|a: int, b: int| 0 <= a < b < texts(out@).len() implies seq_lt(
                    #[trigger] texts(out@)[a],
                    #[trigger] texts(out@)[b],
                ) by {
                    if b == ov.len() && a < ov.len() - 1 {
                        assert(seq_lt(ov[a], ov[ov.len() - 1]));
                        lemma_seq_lt_trans(ov[a], ov[ov.len() - 1], sv[i as int]);
                    }
                }
            }
        }
        proof {
            assert(sv.take(i + 1) =~= sv.take(i as int).push(sv[i as int]));
            assert forall|x: Seq<char>| #[trigger] texts(out@).contains(x) <==> sv.take(i + 1).contains(x) by {
                if sv.take(i + 1).contains(x) {
                    let a = choose|a: int| 0 <= a < sv.take(i + 1).len() && #[trigger] sv.take(i + 1)[a] == x;
                    if a < i {
                        assert(sv.take(i as int)[a] == x);
                        assert(sv.take(i as int).contains(x));
                        assert(ov.contains(x));
                        let c = choose|c: int| 0 <= c < ov.len() && #[trigger] ov[c] == x;
                        assert(texts(out@)[c] == x);
                    } else if dup {
                        assert(ov.last() == x);
                        assert(texts(out@)[texts(out@).len() - 1] == x);
                    } else {
                        assert(texts(out@)[texts(out@).len() - 1] == x);
                    }
                }
                if texts(out@).contains(x) {
                    let a = choose|a: int| 0 <= a < texts(out@).len() && #[trigger] texts(out@)[a] == x;
                    if a < ov.len() {
                        assert(ov[a] == x);
                        assert(ov.contains(x));
                        let b = choose|b: int| 0 <= b < sv.take(i as int).len() && #[trigger] sv.take(i as int)[b] == x;
                        assert(sv.take(i + 1)[b] == x);
                    } else {
                        assert(sv.take(i + 1)[i as int] == x);
                    }
                }
            }
        }
        i += 1;
    }
    assert(sv.take(sv.len() as int) =~= sv);
    out
}

fn str_eq_pub(a: &str, b: &str) -> (r: bool)
    ensures
        r == (a@ == b@),
{
    crate::text::str_eq(a, b)
}

} // verus!
