//! Thread reconstruction over supplied message records: their order, unique
//! node ids, the links between them, and the connected groups that become
//! threads.
use vstd::prelude::*;
use crate::dto::{opt_string, MessageDto, MessageFieldsDto};
use crate::encode::{decimal, decimal_chars};
use crate::message::strs_v;
use crate::graph::{
    adj_v, below, components_of, covered, dfs_components, distinct, lemma_components_reorder_inner,
    lemma_components_reorder_outer, member, raw_components, symmetric,
};
use crate::order::{
    is_perm, key_lt, lemma_key_order, occurs, pair_lt, stable_order, stably_sorted, KeyV, SortKey,
};
use crate::text::{
    chars_of, eq_ic, eq_ic_exec, push_all, push_str, str_eq, string_of, trim, trim_chars,
};

verus! {

/// Sort key of a message: dated messages first, by timestamp, then by path
/// and source hash.
pub open spec fn msg_key(m: MessageDto) -> KeyV {
    KeyV {
        depth: 0,
        missing: m.message.date_timestamp is None,
        ts: match m.message.date_timestamp {
            Some(t) => t as int,
            None => 0,
        },
        a: m.source.path@,
        b: m.source.sha256@,
    }
}

/// Sort keys of a list of messages.
pub open spec fn keys_of(ms: Seq<MessageDto>) -> Seq<KeyV> {
    ms.map_values(|m: MessageDto| msg_key(m))
}

/// The sort key of a message.
pub fn message_sort_key(m: &MessageDto) -> (r: SortKey)
    ensures
        r@ == msg_key(*m),
{
    let (missing, ts) = match m.message.date_timestamp {
        Some(t) => (false, t),
        None => (true, 0i64),
    };
    SortKey {
        depth: 0,
        missing,
        ts,
        a: chars_of(m.source.path.as_str()),
        b: chars_of(m.source.sha256.as_str()),
    }
}

/// `r` is `v` reordered by `perm`.
pub open spec fn permuted<T>(r: Seq<T>, v: Seq<T>, perm: Seq<usize>) -> bool {
    &&& r.len() == perm.len()
    &&& forall|a: int| 0 <= a < r.len() ==> #[trigger] r[a] == v[perm[a] as int]
}

/// `v` reordered by the permutation `perm` of its indexes.
pub fn apply_perm<T>(v: Vec<T>, perm: &Vec<usize>) -> (r: Vec<T>)
    requires
        is_perm(perm@, v@.len()),
    ensures
        permuted(r@, v@, perm@),
{
    let ghost v0 = v@;
    let mut slots: Vec<Option<T>> = Vec::new();
    let mut v = v;
    let mut rev: Vec<T> = Vec::new();
    while v.len() > 0
        invariant
            v@.len() + rev@.len() == v0.len(),
            forall|k: int| 0 <= k < v@.len() ==> #[trigger] v@[k] == v0[k],
            forall|k: int| 0 <= k < rev@.len() ==> #[trigger] rev@[k] == v0[v0.len() - 1 - k],
        decreases v.len(),
    {
        let x = v.pop().unwrap();
        rev.push(x);
    }
    while rev.len() > 0
        invariant
            rev@.len() + slots@.len() == v0.len(),
            forall|k: int| 0 <= k < rev@.len() ==> #[trigger] rev@[k] == v0[v0.len() - 1 - k],
            forall|k: int| 0 <= k < slots@.len() ==> #[trigger] slots@[k] == Some(v0[k]),
        decreases rev.len(),
    {
        let x = rev.pop().unwrap();
        slots.push(Some(x));
    }
    let mut out: Vec<T> = Vec::new();
    let mut a: usize = 0;
    while a < perm.len()
        invariant
            is_perm(perm@, v0.len()),
            slots@.len() == v0.len(),
            a <= perm@.len(),
            out@.len() == a,
            forall|k: int| 0 <= k < a ==> #[trigger] out@[k] == v0[perm@[k] as int],
            forall|j: int|
                0 <= j < v0.len() ==> (#[trigger] slots@[j] == Some(v0[j])) || exists|k: int|
                    0 <= k < a && perm@[k] == j,
            forall|k: int| 0 <= k < a ==> slots@[#[trigger] perm@[k] as int] is None,
        decreases perm.len() - a,
    {
        let j = perm[a];
        let mut x: Option<T> = None;
        proof {
            assert forall|k: int| 0 <= k < a implies perm@[k] != j by {
                assert(perm@[k] != perm@[a as int]);
            }
        }
        assert(slots@[j as int] == Some(v0[j as int]));
        slots.set_and_swap(j, &mut x);
        out.push(x.unwrap());
        proof {
            assert forall|jj: int|
                0 <= jj < v0.len() implies (#[trigger] slots@[jj] == Some(v0[jj])) || exists|k: int|
                    0 <= k < a + 1 && perm@[k] == jj by {
                if jj == j {
                    assert(perm@[a as int] == jj);
                }
            }
        }
        a += 1;
    }
    out
}

/// Messages in key order, equal keys keeping their supplied order.
pub fn sort_messages(v: Vec<MessageDto>) -> (r: Vec<MessageDto>)
    ensures
        exists|perm: Seq<usize>|
            is_perm(perm, v@.len()) && stably_sorted(keys_of(v@), perm) && permuted(r@, v@, perm),
{
    let mut keys: Vec<SortKey> = Vec::new();
    let mut i: usize = 0;
    while i < v.len()
        invariant
            i <= v@.len(),
            keys@.len() == i,
            forall|k: int| 0 <= k < i ==> (#[trigger] keys@[k])@ == msg_key(v@[k]),
        decreases v.len() - i,
    {
        keys.push(message_sort_key(&v[i]));
        i += 1;
    }
    assert(keys@.map_values(|k: SortKey| k@) =~= keys_of(v@));
    let perm = stable_order(&keys);
    let ghost v0 = v@;
    let r = apply_perm(v, &perm);
    assert(is_perm(perm@, v0.len()) && stably_sorted(keys_of(v0), perm@) && permuted(r@, v0, perm@));
    r
}

} // verus!

verus! {

/// How many of the first `n` ids equal `x`.
pub open spec fn count_eq(ids: Seq<Seq<char>>, x: Seq<char>, n: int) -> nat
    decreases n,
{
    if n <= 0 {
        0
    } else {
        count_eq(ids, x, n - 1) + if ids[n - 1] == x {
            1nat
        } else {
            0nat
        }
    }
}

/// The node id of position `i` made unique: the `k`-th repeat (`k >= 2`) of an
/// id gets `_k` appended.
pub open spec fn unique_id(ids: Seq<Seq<char>>, i: int) -> Seq<char> {
    let c = count_eq(ids, ids[i], i);
    if c == 0 {
        ids[i]
    } else {
        ids[i] + "_"@ + decimal(c + 1)
    }
}

/// Node ids of a list of messages.
pub open spec fn node_ids(ms: Seq<MessageDto>) -> Seq<Seq<char>> {
    ms.map_values(|m: MessageDto| m.message.node_id@)
}

/// `new` is `old` with its node id replaced by a string with the text `id`.
pub open spec fn renamed(new: MessageDto, old: MessageDto, id: Seq<char>) -> bool {
    &&& new.message.node_id@ == id
    &&& new == MessageDto {
        message: MessageFieldsDto { node_id: new.message.node_id, ..old.message },
        ..old
    }
}

fn count_same(ids: &Vec<String>, i: usize) -> (c: usize)
    requires
        i < ids@.len(),
    ensures
        c == count_eq(strs_v(ids@), ids@[i as int]@, i as int),
        c <= i,
{
    let ghost v = strs_v(ids@);
    let mut c: usize = 0;
    let mut j: usize = 0;
    while j < i
        invariant
            i < ids@.len(),
            v == strs_v(ids@),
            j <= i,
            c == count_eq(v, v[i as int], j as int),
            c <= j,
        decreases i - j,
    {
        if str_eq(ids[j].as_str(), ids[i].as_str()) {
            c += 1;
        }
        j += 1;
    }
    c
}

/// Makes node ids unique in order: the second and later records with the
/// same node id get `_2`, `_3`, ... appended; nothing else changes.
pub fn ensure_unique_node_ids(messages: &mut Vec<MessageDto>)
    ensures
        final(messages)@.len() == old(messages)@.len(),
        forall|i: int|
            0 <= i < old(messages)@.len() ==> renamed(
                #[trigger] final(messages)@[i],
                old(messages)@[i],
                unique_id(node_ids(old(messages)@), i),
            ),
{
    let ghost m0 = messages@;
    let ghost ids = node_ids(m0);
    let n = messages.len();
    let mut originals: Vec<String> = Vec::new();
    let mut k: usize = 0;
    while k < n
        invariant
            n == messages@.len(),
            messages@ == m0,
            ids == node_ids(m0),
            k <= n,
            originals@.len() == k,
            forall|j: int| 0 <= j < k ==> (#[trigger] originals@[j])@ == ids[j],
        decreases n - k,
    {
        originals.push(messages[k].message.node_id.clone());
        k += 1;
    }
    assert(strs_v(originals@) =~= ids);
    let mut i: usize = 0;
    while i < n
        invariant
            n == messages@.len(),
            n == m0.len(),
            ids == node_ids(m0),
            strs_v(originals@) == ids,
            originals@.len() == n,
            i <= n,
            forall|j: int|
                0 <= j < i ==> renamed(#[trigger] messages@[j], m0[j], unique_id(ids, j)),
            forall|j: int| i <= j < n ==> #[trigger] messages@[j] == m0[j],
        decreases n - i,
    {
        let c = count_same(&originals, i);
        if c > 0 {
            let ghost before = messages@;
            let mut m = messages.remove(i);
            let mut id: Vec<char> = chars_of(originals[i].as_str());
            push_str(&mut id, "_");
            let d = decimal_chars(c as u64 + 1);
            push_all(&mut id, d.as_slice());
            assert(id@ == unique_id(ids, i as int));
            m.message.node_id = string_of(id.as_slice());
            messages.insert(i, m);
            proof {
                before.remove(i as int).insert_ensures(i as int, m);
                assert forall|j: int| 0 <= j < n && j != i implies #[trigger] messages@[j]
                    == before[j] by {
                    if j < i {
                        assert(messages@[j] == before.remove(i as int)[j]);
                    } else {
                        assert(messages@[j] == before.remove(i as int)[j - 1]);
                    }
                }
            }
        } else {
            assert(ids[i as int] == unique_id(ids, i as int));
        }
        i += 1;
    }
}

} // verus!

verus! {

/// Parent candidates of a message: `In-Reply-To`, then the last reference
/// when it differs.
pub open spec fn cands(m: MessageDto) -> Seq<Seq<char>> {
    let c1: Seq<Seq<char>> = match m.message.in_reply_to {
        Some(x) => seq![x@],
        None => Seq::empty(),
    };
    if m.message.references@.len() > 0 {
        let r = m.message.references@.last()@;
        if c1.contains(r) {
            c1
        } else {
            c1.push(r)
        }
    } else {
        c1
    }
}

/// The ids a message links to: its references, then its parent candidates.
pub open spec fn link_ids(m: MessageDto) -> Seq<Seq<char>> {
    strs_v(m.thread.references@) + cands(m)
}

/// The message's Message-ID is `x`.
pub open spec fn has_id(m: MessageDto, x: Seq<char>) -> bool {
    opt_string(m.message.message_id) == Some(x)
}

/// Message `i` links to message `j` by one of its ids.
pub open spec fn links_to(ms: Seq<MessageDto>, i: int, j: int) -> bool {
    exists|k: int| 0 <= k < link_ids(ms[i]).len() && has_id(ms[j], #[trigger] link_ids(ms[i])[k])
}

/// Message `i` links to no supplied message.
pub open spec fn unlinked(ms: Seq<MessageDto>, i: int) -> bool {
    forall|j: int| 0 <= j < ms.len() ==> !#[trigger] links_to(ms, i, j)
}

/// The thread hint: the root reference, else the parent.
pub open spec fn hint(m: MessageDto) -> Option<Seq<char>> {
    match opt_string(m.thread.root_message_id) {
        Some(r) => Some(r),
        None => opt_string(m.thread.parent_message_id),
    }
}

/// Two messages share a thread hint.
pub open spec fn same_hint(a: MessageDto, b: MessageDto) -> bool {
    hint(a) is Some && hint(a) == hint(b)
}

/// The trimmed base subject, when it is not empty.
pub open spec fn subject_text(m: MessageDto) -> Option<Seq<char>> {
    match opt_string(m.thread.base_subject) {
        Some(s) => if trim(s).len() > 0 {
            Some(trim(s))
        } else {
            None
        },
        None => None,
    }
}

/// Two messages have equal trimmed base subjects, ignoring ASCII case.
pub open spec fn same_subject(a: MessageDto, b: MessageDto) -> bool {
    subject_text(a) matches Some(x) && subject_text(b) matches Some(y) && eq_ic(x, y)
}

/// Message `i` takes part in subject grouping: it links nowhere and has a subject.
pub open spec fn subject_eligible(ms: Seq<MessageDto>, i: int) -> bool {
    unlinked(ms, i) && subject_text(ms[i]) is Some
}

/// Messages `a` and `b` fall in one group: by thread hint, or, for subject
/// grouping, by subject among messages that link nowhere.
pub open spec fn related(ms: Seq<MessageDto>, a: int, b: int, subject: bool) -> bool {
    if subject {
        subject_eligible(ms, a) && subject_eligible(ms, b) && same_subject(ms[a], ms[b])
    } else {
        same_hint(ms[a], ms[b])
    }
}

/// The smaller of two indexes.
pub open spec fn lo_of(i: int, j: int) -> int {
    if i < j {
        i
    } else {
        j
    }
}

/// The larger of two indexes.
pub open spec fn hi_of(i: int, j: int) -> int {
    if i < j {
        j
    } else {
        i
    }
}

/// `i` and `j` are neighbours in a group: related, and no message strictly
/// between them is related to the earlier one.
pub open spec fn chain_edge(ms: Seq<MessageDto>, i: int, j: int, subject: bool) -> bool {
    &&& i != j
    &&& related(ms, lo_of(i, j), hi_of(i, j), subject)
    &&& forall|k: int|
        lo_of(i, j) < k < hi_of(i, j) ==> !#[trigger] related(ms, lo_of(i, j), k, subject)
}

/// The thread graph: id links either way, consecutive messages sharing a
/// thread hint, and, with subject fallback, consecutive unlinked messages
/// with the same subject.
pub open spec fn edge(ms: Seq<MessageDto>, fallback: bool, i: int, j: int) -> bool {
    i != j && (links_to(ms, i, j) || links_to(ms, j, i) || chain_edge(ms, i, j, false) || (
    fallback && chain_edge(ms, i, j, true)))
}

/// Neighbours of `i` among the first `m` messages, ascending.
pub open spec fn edges_upto(ms: Seq<MessageDto>, fallback: bool, i: int, m: int) -> Seq<usize>
    decreases m,
{
    if m <= 0 {
        Seq::empty()
    } else if edge(ms, fallback, i, m - 1) {
        edges_upto(ms, fallback, i, m - 1).push((m - 1) as usize)
    } else {
        edges_upto(ms, fallback, i, m - 1)
    }
}

/// Adjacency lists of the thread graph.
pub open spec fn graph_spec(ms: Seq<MessageDto>, fallback: bool) -> Seq<Seq<usize>> {
    Seq::new(ms.len(), |i: int| edges_upto(ms, fallback, i, ms.len() as int))
}

/// The parent candidates of a message.
pub fn parent_candidate_ids(m: &MessageDto) -> (r: Vec<String>)
    ensures
        strs_v(r@) == cands(*m),
{
    let mut c: Vec<String> = Vec::new();
    match &m.message.in_reply_to {
        Some(x) => c.push(x.clone()),
        None => {},
    }
    let ghost c1 = strs_v(c@);
    assert(c1 =~= match m.message.in_reply_to {
        Some(x) => seq![x@],
        None => Seq::<Seq<char>>::empty(),
    });
    let refs = &m.message.references;
    if refs.len() > 0 {
        let last = &refs[refs.len() - 1];
        let dup = match &m.message.in_reply_to {
            Some(x) => str_eq(x.as_str(), last.as_str()),
            None => false,
        };
        assert(dup == c1.contains(last@)) by {
            if c1.contains(last@) {
                assert(c1[0] == last@);
            }
        }
        if !dup {
            c.push(last.clone());
            assert(strs_v(c@) =~= c1.push(last@));
        }
    }
    c
}

fn link_ids_exec(m: &MessageDto) -> (r: Vec<String>)
    ensures
        strs_v(r@) == link_ids(*m),
{
    let mut r = crate::message::copy_strings(&m.thread.references);
    let c = parent_candidate_ids(m);
    let ghost r0 = strs_v(r@);
    let mut k: usize = 0;
    while k < c.len()
        invariant
            k <= c@.len(),
            strs_v(r@) == r0 + strs_v(c@).take(k as int),
        decreases c.len() - k,
    {
        let ghost before = r@;
        r.push(c[k].clone());
        assert(strs_v(r@) =~= strs_v(before).push(c@[k as int]@));
        assert(strs_v(c@).take(k + 1) =~= strs_v(c@).take(k as int).push(c@[k as int]@));
        k += 1;
    }
    assert(strs_v(c@).take(c@.len() as int) =~= strs_v(c@));
    r
}

fn has_id_exec(m: &MessageDto, x: &String) -> (r: bool)
    ensures
        r == has_id(*m, x@),
{
    match &m.message.message_id {
        Some(s) => str_eq(s.as_str(), x.as_str()),
        None => false,
    }
}

/// Which messages each message links to.
pub fn link_matrix(ms: &Vec<MessageDto>) -> (r: Vec<Vec<bool>>)
    ensures
        r@.len() == ms@.len(),
        forall|i: int|
            0 <= i < ms@.len() ==> (#[trigger] r@[i])@.len() == ms@.len() && forall|j: int|
                0 <= j < ms@.len() ==> r@[i]@[j] == links_to(ms@, i, j),
{
    let n = ms.len();
    let mut out: Vec<Vec<bool>> = Vec::new();
    let mut i: usize = 0;
    while i < n
        invariant
            n == ms@.len(),
            i <= n,
            out@.len() == i,
            forall|a: int|
                0 <= a < i ==> (#[trigger] out@[a])@.len() == n && forall|j: int|
                    0 <= j < n ==> out@[a]@[j] == links_to(ms@, a, j),
        decreases n - i,
    {
        let ids = link_ids_exec(&ms[i]);
        let mut row: Vec<bool> = Vec::new();
        let mut j: usize = 0;
        while j < n
            invariant
                n == ms@.len(),
                i < n,
                strs_v(ids@) == link_ids(ms@[i as int]),
                j <= n,
                row@.len() == j,
                forall|b: int| 0 <= b < j ==> #[trigger] row@[b] == links_to(ms@, i as int, b),
            decreases n - j,
        {
            let mut found = false;
            let mut k: usize = 0;
            while k < ids.len()
                invariant
                    k <= ids@.len(),
                    j < n == ms@.len(),
                    strs_v(ids@) == link_ids(ms@[i as int]),
                    found == exists|q: int|
                        0 <= q < k && has_id(ms@[j as int], #[trigger] link_ids(ms@[i as int])[q]),
                decreases ids.len() - k,
            {
                if has_id_exec(&ms[j], &ids[k]) {
                    found = true;
                }
                assert(link_ids(ms@[i as int])[k as int] == ids@[k as int]@);
                k += 1;
            }
            row.push(found);
            j += 1;
        }
        out.push(row);
        i += 1;
    }
    out
}

} // verus!

verus! {

/// Per-message facts the graph is built from.
struct GraphFacts {
    links: Vec<Vec<bool>>,
    hints: Vec<Option<String>>,
    subjects: Vec<Option<Vec<char>>>,
    unlinked: Vec<bool>,
}

spec fn facts_ok(f: GraphFacts, ms: Seq<MessageDto>) -> bool {
    &&& f.links@.len() == ms.len()
    &&& forall|i: int|
        0 <= i < ms.len() ==> (#[trigger] f.links@[i])@.len() == ms.len() && forall|j: int|
            0 <= j < ms.len() ==> f.links@[i]@[j] == links_to(ms, i, j)
    &&& f.hints@.len() == ms.len()
    &&& forall|i: int| 0 <= i < ms.len() ==> opt_string(#[trigger] f.hints@[i]) == hint(ms[i])
    &&& f.subjects@.len() == ms.len()
    &&& forall|i: int|
        0 <= i < ms.len() ==> (match #[trigger] f.subjects@[i] {
            Some(v) => Some(v@),
            None => None,
        }) == subject_text(ms[i])
    &&& f.unlinked@.len() == ms.len()
    &&& forall|i: int| 0 <= i < ms.len() ==> #[trigger] f.unlinked@[i] == unlinked(ms, i)
}

fn graph_facts(ms: &Vec<MessageDto>) -> (f: GraphFacts)
    ensures
        facts_ok(f, ms@),
{
    let n = ms.len();
    let links = link_matrix(ms);
    let mut hints: Vec<Option<String>> = Vec::new();
    let mut subjects: Vec<Option<Vec<char>>> = Vec::new();
    let mut unl: Vec<bool> = Vec::new();
    let mut i: usize = 0;
    while i < n
        invariant
            n == ms@.len(),
            i <= n,
            links@.len() == n,
            forall|a: int|
                0 <= a < n ==> (#[trigger] links@[a])@.len() == n && forall|j: int|
                    0 <= j < n ==> links@[a]@[j] == links_to(ms@, a, j),
            hints@.len() == i,
            forall|a: int| 0 <= a < i ==> opt_string(#[trigger] hints@[a]) == hint(ms@[a]),
            subjects@.len() == i,
            forall|a: int|
                0 <= a < i ==> (match #[trigger] subjects@[a] {
                    Some(v) => Some(v@),
                    None => None,
                }) == subject_text(ms@[a]),
            unl@.len() == i,
            forall|a: int| 0 <= a < i ==> #[trigger] unl@[a] == unlinked(ms@, a),
        decreases n - i,
    {
        let m = &ms[i];
        let h = match &m.thread.root_message_id {
            Some(r) => Some(r.clone()),
            None => match &m.thread.parent_message_id {
                Some(p) => Some(p.clone()),
                None => None,
            },
        };
        hints.push(h);
        let s = match &m.thread.base_subject {
            Some(b) => {
                let cs = chars_of(b.as_str());
                let t = trim_chars(cs.as_slice());
                if t.len() > 0 {
                    Some(t)
                } else {
                    None
                }
            },
            None => None,
        };
        subjects.push(s);
        let mut none = true;
        let mut j: usize = 0;
        while j < n
            invariant
                n == ms@.len(),
                i < n,
                links@.len() == n,
                links@[i as int]@.len() == n,
                forall|b: int| 0 <= b < n ==> links@[i as int]@[b] == links_to(ms@, i as int, b),
                j <= n,
                none == forall|b: int| 0 <= b < j ==> !#[trigger] links_to(ms@, i as int, b),
            decreases n - j,
        {
            assert(links@[i as int]@[j as int] == links_to(ms@, i as int, j as int));
            if links[i][j] {
                none = false;
            }
            j += 1;
        }
        unl.push(none);
        i += 1;
    }
    GraphFacts { links, hints, subjects, unlinked: unl }
}

fn related_exec(f: &GraphFacts, a: usize, b: usize, subject: bool, Ghost(ms): Ghost<Seq<MessageDto>>) -> (r: bool)
    requires
        facts_ok(*f, ms),
        a < ms.len(),
        b < ms.len(),
    ensures
        r == related(ms, a as int, b as int, subject),
{
    if subject {
        if !f.unlinked[a] || !f.unlinked[b] {
            return false;
        }
        match (&f.subjects[a], &f.subjects[b]) {
            (Some(x), Some(y)) => eq_ic_exec(x.as_slice(), y.as_slice()),
            _ => false,
        }
    } else {
        match (&f.hints[a], &f.hints[b]) {
            (Some(x), Some(y)) => str_eq(x.as_str(), y.as_str()),
            _ => false,
        }
    }
}

fn chain_edge_exec(f: &GraphFacts, i: usize, j: usize, subject: bool, Ghost(ms): Ghost<Seq<MessageDto>>) -> (r: bool)
    requires
        facts_ok(*f, ms),
        i < ms.len(),
        j < ms.len(),
    ensures
        r == chain_edge(ms, i as int, j as int, subject),
{
    if i == j {
        return false;
    }
    let lo = if i < j {
        i
    } else {
        j
    };
    let hi = if i < j {
        j
    } else {
        i
    };
    if !related_exec(f, lo, hi, subject, Ghost(ms)) {
        return false;
    }
    let mut k = lo + 1;
    while k < hi
        invariant
            facts_ok(*f, ms),
            lo < hi < ms.len(),
            lo == (if i < j { i } else { j }),
            hi == (if i < j { j } else { i }),
            lo + 1 <= k <= hi,
            forall|q: int| lo < q < k ==> !#[trigger] related(ms, lo as int, q, subject),
        decreases hi - k,
    {
        if related_exec(f, lo, k, subject, Ghost(ms)) {
            assert(related(ms, lo as int, k as int, subject));
            return false;
        }
        k += 1;
    }
    true
}

/// The adjacency lists of the thread graph of `ms`, each ascending.
pub fn thread_graph(ms: &Vec<MessageDto>, fallback: bool) -> (g: Vec<Vec<usize>>)
    ensures
        g@.map_values(|v: Vec<usize>| v@) == graph_spec(ms@, fallback),
{
    let f = graph_facts(ms);
    let n = ms.len();
    let mut g: Vec<Vec<usize>> = Vec::new();
    let mut i: usize = 0;
    while i < n
        invariant
            n == ms@.len(),
            facts_ok(f, ms@),
            i <= n,
            g@.len() == i,
            forall|a: int|
                0 <= a < i ==> (#[trigger] g@[a])@ == edges_upto(ms@, fallback, a, n as int),
        decreases n - i,
    {
        let mut row: Vec<usize> = Vec::new();
        let mut j: usize = 0;
        while j < n
            invariant
                n == ms@.len(),
                facts_ok(f, ms@),
                i < n,
                j <= n,
                row@ == edges_upto(ms@, fallback, i as int, j as int),
            decreases n - j,
        {
            let e = i != j && (f.links[i][j] || f.links[j][i] || chain_edge_exec(
                &f,
                i,
                j,
                false,
                Ghost(ms@),
            ) || (fallback && chain_edge_exec(&f, i, j, true, Ghost(ms@))));
            if e {
                row.push(j);
            }
            j += 1;
        }
        g.push(row);
        i += 1;
    }
    assert(g@.map_values(|v: Vec<usize>| v@) =~= graph_spec(ms@, fallback));
    g
}

} // verus!

verus! {

proof fn lemma_edges_upto(ms: Seq<MessageDto>, fallback: bool, i: int, m: int)
    requires
        0 <= m <= ms.len(),
        ms.len() <= usize::MAX,
    ensures
        forall|a: int|
            0 <= a < edges_upto(ms, fallback, i, m).len() ==> #[trigger] edges_upto(ms, fallback, i, m)[a] < m,
        forall|j: int|
            0 <= j < ms.len() ==> (#[trigger] edges_upto(ms, fallback, i, m).contains(j as usize) <==> (
            j < m && edge(ms, fallback, i, j))),
    decreases m,
{
    if m > 0 {
        lemma_edges_upto(ms, fallback, i, m - 1);
        let prev = edges_upto(ms, fallback, i, m - 1);
        let cur = edges_upto(ms, fallback, i, m);
        assert forall|j: int| 0 <= j < ms.len() implies (#[trigger] cur.contains(j as usize) <==> (j < m
            && edge(ms, fallback, i, j))) by {
            if edge(ms, fallback, i, m - 1) {
                assert(cur == prev.push((m - 1) as usize));
                if cur.contains(j as usize) {
                    let a = choose|a: int| 0 <= a < cur.len() && cur[a] == j as usize;
                    if a < prev.len() {
                        assert(prev[a] == cur[a]);
                        assert(prev.contains(j as usize));
                    }
                }
                if j < m - 1 && edge(ms, fallback, i, j) {
                    assert(prev.contains(j as usize));
                    let a = choose|a: int| 0 <= a < prev.len() && prev[a] == j as usize;
                    assert(cur[a] == prev[a]);
                }
                if j == m - 1 {
                    assert(cur[prev.len() as int] == j as usize);
                }
                if !(j < m - 1 && edge(ms, fallback, i, j)) && j != m - 1 {
                    assert(!prev.contains(j as usize));
                }
            } else {
                assert(cur == prev);
                assert(prev.contains(j as usize) <==> (j < m - 1 && edge(ms, fallback, i, j)));
            }
        }
    }
}

/// The thread graph's adjacency goes both ways and names only messages.
pub proof fn lemma_graph_symmetric(ms: Seq<MessageDto>, fallback: bool)
    requires
        ms.len() <= usize::MAX,
    ensures
        symmetric(graph_spec(ms, fallback)),
{
    let g = graph_spec(ms, fallback);
    assert forall|i: int, k: int| 0 <= i < g.len() && 0 <= k < g[i].len() implies (#[trigger] g[i][k])
        < g.len() by {
        lemma_edges_upto(ms, fallback, i, ms.len() as int);
    }
    assert forall|i: int, j: int| 0 <= i < g.len() && 0 <= j < g.len() implies (#[trigger] g[i].contains(
        j as usize,
    ) <==> #[trigger] g[j].contains(i as usize)) by {
        lemma_edges_upto(ms, fallback, i, ms.len() as int);
        lemma_edges_upto(ms, fallback, j, ms.len() as int);
        assert(lo_of(i, j) == lo_of(j, i) && hi_of(i, j) == hi_of(j, i));
        assert(chain_edge(ms, i, j, false) == chain_edge(ms, j, i, false));
        assert(chain_edge(ms, i, j, true) == chain_edge(ms, j, i, true));
    }
}

proof fn lemma_perm_member(r: Seq<usize>, v: Seq<usize>, perm: Seq<usize>, x: int)
    requires
        is_perm(perm, v.len()),
        permuted(r, v, perm),
    ensures
        member(r, x) <==> member(v, x),
{
    if member(r, x) {
        let a = choose|a: int| 0 <= a < r.len() && #[trigger] r[a] as int == x;
        assert(r[a] == v[perm[a] as int]);
        assert(perm[a] < v.len());
    }
    if member(v, x) {
        let b = choose|b: int| 0 <= b < v.len() && #[trigger] v[b] as int == x;
        assert(occurs(perm, b));
        let a = choose|a: int| 0 <= a < perm.len() && #[trigger] perm[a] == b;
        assert(r[a] == v[b]);
    }
}

proof fn lemma_perm_distinct(r: Seq<usize>, v: Seq<usize>, perm: Seq<usize>)
    requires
        is_perm(perm, v.len()),
        permuted(r, v, perm),
        distinct(v),
    ensures
        distinct(r),
{
    assert forall|a: int, b: int| 0 <= a < b < r.len() implies r[a] != r[b] by {
        assert(r[a] == v[perm[a] as int] && r[b] == v[perm[b] as int]);
        assert(perm[a] != perm[b]);
        assert(perm[a] < v.len() && perm[b] < v.len());
        if perm[a] < perm[b] {
            assert(v[perm[a] as int] != v[perm[b] as int]);
        } else {
            assert(v[perm[b] as int] != v[perm[a] as int]);
        }
    }
}

/// `r` is a reordering of `v`.
pub open spec fn reorders(r: Seq<usize>, v: Seq<usize>) -> bool {
    exists|perm: Seq<usize>| is_perm(perm, v.len()) && permuted(r, v, perm)
}

/// Key of the message at index `i`.
pub open spec fn key_at(ms: Seq<MessageDto>, i: int) -> KeyV {
    msg_key(ms[i])
}

/// `c` is `r` reordered by message key, messages with equal keys keeping
/// their order in `r`.
pub open spec fn stably_sorted_from(ms: Seq<MessageDto>, c: Seq<usize>, r: Seq<usize>) -> bool {
    exists|q: Seq<usize>|
        is_perm(q, r.len()) && stably_sorted(r.map_values(|v: usize| key_at(ms, v as int)), q) && permuted(
            c,
            r,
            q,
        )
}

/// The components of the thread graph as the depth-first search from each
/// message not yet reached lists them, in message order.
pub open spec fn dfs_groups(ms: Seq<MessageDto>, fallback: bool) -> Seq<Seq<usize>> {
    dfs_components(graph_spec(ms, fallback), 0, Seq::new(ms.len(), |v: int| false))
}

/// `c` lists message indexes in non-decreasing key order.
pub open spec fn sorted_by_key(ms: Seq<MessageDto>, c: Seq<usize>) -> bool {
    forall|a: int, b: int|
        0 <= a < b < c.len() ==> !key_lt(key_at(ms, #[trigger] c[b] as int), key_at(ms, #[trigger] c[a] as int))
}

/// The threads' message groups: the connected components of the thread
/// graph, each the depth-first listing of its component reordered stably by
/// key, ordered by the key of their first message and then by their
/// smallest message.
pub open spec fn thread_groups(ms: Seq<MessageDto>, fallback: bool, cs: Seq<Seq<usize>>) -> bool {
    &&& components_of(graph_spec(ms, fallback), cs)
    &&& forall|k: int| 0 <= k < cs.len() ==> #[trigger] sorted_by_key(ms, cs[k])
    &&& forall|k: int, l: int|
        0 <= k < l < cs.len() ==> !key_lt(
            key_at(ms, (#[trigger] cs[l])[0] as int),
            key_at(ms, (#[trigger] cs[k])[0] as int),
        )
    &&& forall|k: int, l: int|
        0 <= k < l < cs.len() && key_at(ms, cs[l][0] as int) == key_at(ms, cs[k][0] as int) ==> below(
            #[trigger] cs[k],
            #[trigger] cs[l],
        )
    &&& exists|p: Seq<usize>|
        is_perm(p, cs.len()) && dfs_groups(ms, fallback).len() == cs.len() && forall|k: int|
            0 <= k < cs.len() ==> #[trigger] stably_sorted_from(ms, cs[k], dfs_groups(ms, fallback)[p[k] as int])
}

fn sort_component(ms: &Vec<MessageDto>, comp: Vec<usize>) -> (r: Vec<usize>)
    requires
        forall|a: int| 0 <= a < comp@.len() ==> #[trigger] comp@[a] < ms@.len(),
    ensures
        exists|perm: Seq<usize>| is_perm(perm, comp@.len()) && permuted(r@, comp@, perm),
        sorted_by_key(ms@, r@),
        stably_sorted_from(ms@, r@, comp@),
{
    let mut keys: Vec<SortKey> = Vec::new();
    let mut i: usize = 0;
    while i < comp.len()
        invariant
            i <= comp@.len(),
            forall|a: int| 0 <= a < comp@.len() ==> #[trigger] comp@[a] < ms@.len(),
            keys@.len() == i,
            forall|k: int| 0 <= k < i ==> (#[trigger] keys@[k])@ == key_at(ms@, comp@[k] as int),
        decreases comp.len() - i,
    {
        keys.push(message_sort_key(&ms[comp[i]]));
        i += 1;
    }
    let ghost kv = keys@.map_values(|k: SortKey| k@);
    let perm = stable_order(&keys);
    let ghost c0 = comp@;
    let r = apply_perm(comp, &perm);
    proof {
        assert forall|a: int, b: int| 0 <= a < b < r@.len() implies !key_lt(
            key_at(ms@, #[trigger] r@[b] as int),
            key_at(ms@, #[trigger] r@[a] as int),
        ) by {
            let pa = perm@[a] as int;
            let pb = perm@[b] as int;
            assert(pair_lt(kv, pa, pb));
            assert(kv[pa] == key_at(ms@, c0[pa] as int));
            assert(kv[pb] == key_at(ms@, c0[pb] as int));
            lemma_key_order(kv[pa], kv[pb], kv[pa]);
        }
        assert(kv =~= c0.map_values(|v: usize| key_at(ms@, v as int)));
    }
    r
}

/// The message groups that become threads.
pub fn thread_components(ms: &Vec<MessageDto>, fallback: bool) -> (cs: Vec<Vec<usize>>)
    ensures
        thread_groups(ms@, fallback, adj_v(cs@)),
{
    let g = thread_graph(ms, fallback);
    let ghost gv = graph_spec(ms@, fallback);
    assert(ms@.len() == ms.len());
    assert(adj_v(g@) =~= gv);
    proof {
        lemma_graph_symmetric(ms@, fallback);
    }
    let raw = raw_components(&g);
    let ghost raw_v = raw@;
    let ghost rv = adj_v(raw@);
    let mut sorted: Vec<Vec<usize>> = Vec::new();
    let mut raw = raw;
    let mut rev: Vec<Vec<usize>> = Vec::new();
    while raw.len() > 0
        invariant
            raw@.len() + rev@.len() == rv.len(),
            forall|k: int| 0 <= k < raw@.len() ==> (#[trigger] raw@[k])@ == rv[k],
            forall|k: int| 0 <= k < rev@.len() ==> (#[trigger] rev@[k])@ == rv[rv.len() - 1 - k],
        decreases raw.len(),
    {
        let x = raw.pop().unwrap();
        rev.push(x);
    }
    while rev.len() > 0
        invariant
            components_of(gv, rv),
            gv.len() == ms@.len(),
            rev@.len() + sorted@.len() == rv.len(),
            forall|k: int| 0 <= k < rev@.len() ==> (#[trigger] rev@[k])@ == rv[rv.len() - 1 - k],
            forall|k: int| 0 <= k < sorted@.len() ==> #[trigger] reorders(sorted@[k]@, rv[k]),
            forall|k: int| 0 <= k < sorted@.len() ==> #[trigger] sorted_by_key(ms@, sorted@[k]@),
            forall|k: int| 0 <= k < sorted@.len() ==> #[trigger] stably_sorted_from(ms@, sorted@[k]@, rv[k]),
        decreases rev.len(),
    {
        let ghost k = sorted@.len() as int;
        let ghost before = sorted@;
        let x = rev.pop().unwrap();
        assert(x@ == rv[k]);
        assert forall|a: int| 0 <= a < x@.len() implies #[trigger] x@[a] < ms@.len() by {
            assert(rv[k][a] < gv.len());
        }
        let ghost xv = x@;
        let y = sort_component(ms, x);
        let ghost p = choose|p: Seq<usize>| is_perm(p, xv.len()) && permuted(y@, xv, p);
        sorted.push(y);
        assert forall|j: int| 0 <= j < sorted@.len() implies #[trigger] reorders(sorted@[j]@, rv[j]) by {
            if j < k {
                assert(sorted@[j] == before[j]);
            } else {
                assert(sorted@[j]@ == y@);
                assert(is_perm(p, rv[j].len()) && permuted(sorted@[j]@, rv[j], p));
            }
        }
        assert forall|j: int| 0 <= j < sorted@.len() implies #[trigger] sorted_by_key(ms@, sorted@[j]@) by {
            if j < k {
                assert(sorted@[j] == before[j]);
            }
        }
        assert forall|j: int| 0 <= j < sorted@.len() implies #[trigger] stably_sorted_from(
            ms@,
            sorted@[j]@,
            rv[j],
        ) by {
            if j < k {
                assert(sorted@[j] == before[j]);
            } else {
                assert(sorted@[j]@ == y@);
            }
        }
    }
    let ghost sv = adj_v(sorted@);
    proof {
        assert forall|k: int| 0 <= k < sv.len() implies sv[k].len() > 0 by {
            assert(reorders(sorted@[k]@, rv[k]));
            let perm = choose|perm: Seq<usize>| is_perm(perm, rv[k].len()) && permuted(sorted@[k]@, rv[k], perm);
        }
        assert forall|k: int, a: int| 0 <= k < sv.len() && 0 <= a < sv[k].len() implies #[trigger] sv[k][a]
            < ms@.len() by {
            assert(reorders(sorted@[k]@, rv[k]));
            let perm = choose|perm: Seq<usize>| is_perm(perm, rv[k].len()) && permuted(sorted@[k]@, rv[k], perm);
            assert(sv[k][a] == rv[k][perm[a] as int]);
            assert(perm[a] < rv[k].len());
            assert(rv[k][perm[a] as int] < gv.len());
        }
    }
    let mut keys: Vec<SortKey> = Vec::new();
    let mut i: usize = 0;
    while i < sorted.len()
        invariant
            i <= sorted@.len(),
            sv == adj_v(sorted@),
            forall|k: int| 0 <= k < sv.len() ==> sv[k].len() > 0,
            forall|k: int, a: int| 0 <= k < sv.len() && 0 <= a < sv[k].len() ==> #[trigger] sv[k][a] < ms@.len(),
            keys@.len() == i,
            forall|k: int| 0 <= k < i ==> (#[trigger] keys@[k])@ == key_at(ms@, sv[k][0] as int),
        decreases sorted.len() - i,
    {
        assert(sorted@[i as int]@ == sv[i as int]);
        keys.push(message_sort_key(&ms[sorted[i][0]]));
        i += 1;
    }
    let ghost kv = keys@.map_values(|k: SortKey| k@);
    let perm = stable_order(&keys);
    let out = apply_perm(sorted, &perm);
    let ghost ov = adj_v(out@);
    proof {
        assert(sv.len() == rv.len());
        assert forall|k: int, x: int| 0 <= k < sv.len() implies (#[trigger] member(sv[k], x) <==> member(
            rv[k],
            x,
        )) by {
            assert(reorders(sorted@[k]@, rv[k]));
            let p = choose|p: Seq<usize>| is_perm(p, rv[k].len()) && permuted(sorted@[k]@, rv[k], p);
            lemma_perm_member(sv[k], rv[k], p, x);
        }
        assert forall|k: int| 0 <= k < sv.len() implies distinct(#[trigger] sv[k]) && sv[k].len() > 0 by {
            assert(reorders(sorted@[k]@, rv[k]));
            let p = choose|p: Seq<usize>| is_perm(p, rv[k].len()) && permuted(sorted@[k]@, rv[k], p);
            lemma_perm_distinct(sv[k], rv[k], p);
        }
        lemma_components_reorder_inner(gv, rv, sv);
        assert forall|a: int| 0 <= a < ov.len() implies #[trigger] ov[a] == sv[perm@[a] as int] by {
            assert(out@[a] == sorted@[perm@[a] as int]);
        }
        lemma_components_reorder_outer(gv, sv, ov, perm@);
        assert(rv == dfs_groups(ms@, fallback));
        assert forall|k: int| 0 <= k < ov.len() implies #[trigger] stably_sorted_from(
            ms@,
            ov[k],
            dfs_groups(ms@, fallback)[perm@[k] as int],
        ) by {
            assert(ov[k] == sv[perm@[k] as int]);
            assert(sv[perm@[k] as int] == sorted@[perm@[k] as int]@);
        }
        assert forall|k: int| 0 <= k < ov.len() implies #[trigger] sorted_by_key(ms@, ov[k]) by {
            assert(ov[k] == sv[perm@[k] as int]);
            assert(sorted_by_key(ms@, sorted@[perm@[k] as int]@));
        }
        assert forall|k: int, l: int| 0 <= k < l < ov.len() implies !key_lt(
            key_at(ms@, (#[trigger] ov[l])[0] as int),
            key_at(ms@, (#[trigger] ov[k])[0] as int),
        ) by {
            let pk = perm@[k] as int;
            let pl = perm@[l] as int;
            assert(pair_lt(kv, pk, pl));
            assert(ov[k] == sv[pk] && ov[l] == sv[pl]);
            assert(kv[pk] == key_at(ms@, sv[pk][0] as int));
            assert(kv[pl] == key_at(ms@, sv[pl][0] as int));
            lemma_key_order(kv[pk], kv[pl], kv[pk]);
        }
        assert forall|k: int, l: int|
            0 <= k < l < ov.len() && key_at(ms@, ov[l][0] as int) == key_at(ms@, ov[k][0] as int) implies below(
            #[trigger] ov[k],
            #[trigger] ov[l],
        ) by {
            let pk = perm@[k] as int;
            let pl = perm@[l] as int;
            assert(pair_lt(kv, pk, pl));
            assert(ov[k] == sv[pk] && ov[l] == sv[pl]);
            assert(kv[pk] == key_at(ms@, sv[pk][0] as int));
            assert(kv[pl] == key_at(ms@, sv[pl][0] as int));
            lemma_key_order(kv[pk], kv[pk], kv[pk]);
            assert(pk < pl);
            assert(rv[pk] == raw_v[pk]@ && rv[pl] == raw_v[pl]@);
            assert(rv[pk][0] < rv[pl][0]);
            let x = rv[pk][0] as int;
            assert(member(rv[pk], x)) by {
                assert(rv[pk][0] as int == x);
            }
            assert(member(sv[pk], x));
            let a = choose|a: int| 0 <= a < sv[pk].len() && #[trigger] sv[pk][a] as int == x;
            assert forall|b: int| 0 <= b < sv[pl].len() implies sv[pk][a] < #[trigger] sv[pl][b] by {
                let y = sv[pl][b] as int;
                assert(member(sv[pl], y));
                assert(member(rv[pl], y));
                let c = choose|c: int| 0 <= c < rv[pl].len() && #[trigger] rv[pl][c] as int == y;
                assert(rv[pl][0] <= rv[pl][c]);
            }
        }
    }
    out
}

} // verus!

verus! {

proof fn lemma_decimal_shape(n: nat)
    ensures
        decimal(n).len() >= 1,
        forall|k: int| 0 <= k < decimal(n).len() ==> #[trigger] decimal(n)[k] != '_',
    decreases n,
{
    if n >= 10 {
        lemma_decimal_shape(n / 10);
        assert forall|k: int| 0 <= k < decimal(n).len() implies #[trigger] decimal(n)[k] != '_' by {
            if k < decimal(n / 10).len() {
                assert(decimal(n)[k] == decimal(n / 10)[k]);
            }
        }
    }
}

proof fn lemma_digit_injective(a: nat, b: nat)
    requires
        a < 10,
        b < 10,
        crate::encode::digit_char(a) == crate::encode::digit_char(b),
    ensures
        a == b,
{
}

pub(crate) proof fn lemma_decimal_injective(a: nat, b: nat)
    requires
        decimal(a) == decimal(b),
    ensures
        a == b,
    decreases a,
{
    lemma_decimal_shape(a / 10);
    lemma_decimal_shape(b / 10);
    if a < 10 && b < 10 {
        assert(decimal(a) == seq![crate::encode::digit_char(a)]);
        assert(decimal(b) == seq![crate::encode::digit_char(b)]);
        let da = crate::encode::digit_char(a);
        let db = crate::encode::digit_char(b);
        assert(seq![da][0] == da);
        assert(seq![db][0] == db);
        assert(decimal(a)[0] == decimal(b)[0]);
        lemma_digit_injective(a, b);
    } else if a >= 10 && b >= 10 {
        assert(decimal(a).drop_last() =~= decimal(a / 10));
        assert(decimal(b).drop_last() =~= decimal(b / 10));
        lemma_decimal_injective(a / 10, b / 10);
        assert(decimal(a) == decimal(a / 10).push(crate::encode::digit_char(a % 10)));
        assert(decimal(b) == decimal(b / 10).push(crate::encode::digit_char(b % 10)));
        let da = crate::encode::digit_char(a % 10);
        let db = crate::encode::digit_char(b % 10);
        assert(decimal(a / 10).push(da).last() == da);
        assert(decimal(b / 10).push(db).last() == db);
        assert(decimal(a).last() == decimal(b).last());
        lemma_digit_injective(a % 10, b % 10);
    } else if a < 10 {
        assert(decimal(a).len() == 1);
    } else {
        assert(decimal(b).len() == 1);
    }
}

proof fn lemma_count_grows(ids: Seq<Seq<char>>, x: Seq<char>, n: int, m: int)
    requires
        0 <= n <= m,
    ensures
        count_eq(ids, x, m) >= count_eq(ids, x, n),
    decreases m - n,
{
    if m > n {
        lemma_count_grows(ids, x, n, m - 1);
    }
}

/// No id is another id followed by `_` and a decimal numeral of 2 or more.
pub open spec fn no_suffixed_ids(ids: Seq<Seq<char>>) -> bool {
    forall|a: int, b: int, k: nat|
        0 <= a < ids.len() && 0 <= b < ids.len() && k >= 2 ==> #[trigger] ids[a] != #[trigger] ids[b]
            + "_"@ + #[trigger] decimal(k)
}

proof fn lemma_suffix_split(x: Seq<char>, y: Seq<char>, dx: Seq<char>, dy: Seq<char>)
    requires
        x + "_"@ + dx == y + "_"@ + dy,
        forall|k: int| 0 <= k < dx.len() ==> #[trigger] dx[k] != '_',
        forall|k: int| 0 <= k < dy.len() ==> #[trigger] dy[k] != '_',
    ensures
        x == y,
{
    reveal_strlit("_");
    let l = x + "_"@ + dx;
    let r = y + "_"@ + dy;
    assert(l.len() == r.len());
    if x.len() < y.len() {
        assert(r[y.len() as int] == '_');
        assert(l[y.len() as int] == dx[y.len() - x.len() - 1]);
    } else if y.len() < x.len() {
        assert(l[x.len() as int] == '_');
        assert(r[x.len() as int] == dy[x.len() - y.len() - 1]);
    } else {
        assert forall|k: int| 0 <= k < x.len() implies x[k] == y[k] by {
            assert(l[k] == x[k] && r[k] == y[k]);
        }
        assert(x =~= y);
    }
}

/// Ids that all have one length never are another id followed by `_` and a
/// numeral.
pub proof fn lemma_same_length_ids_unsuffixed(ids: Seq<Seq<char>>, len: nat)
    requires
        forall|a: int| 0 <= a < ids.len() ==> (#[trigger] ids[a]).len() == len,
    ensures
        no_suffixed_ids(ids),
{
    reveal_strlit("_");
    assert forall|a: int, b: int, k: nat|
        0 <= a < ids.len() && 0 <= b < ids.len() && k >= 2 implies #[trigger] ids[a] != #[trigger] ids[b]
            + "_"@ + #[trigger] decimal(k) by {
        assert((ids[b] + "_"@ + decimal(k)).len() > len);
    }
}

/// Node ids made unique are pairwise distinct, provided no supplied node id
/// is another supplied node id followed by `_` and a numeral of 2 or more.
pub proof fn lemma_unique_ids_distinct(ids: Seq<Seq<char>>, i: int, j: int)
    requires
        0 <= i < j < ids.len(),
        no_suffixed_ids(ids),
    ensures
        unique_id(ids, i) != unique_id(ids, j),
{
    reveal_strlit("_");
    let ci = count_eq(ids, ids[i], i);
    let cj = count_eq(ids, ids[j], j);
    lemma_decimal_shape(ci + 1);
    lemma_decimal_shape(cj + 1);
    if ids[i] == ids[j] {
        lemma_count_grows(ids, ids[i], i + 1, j);
        assert(count_eq(ids, ids[i], i + 1) == ci + 1);
        assert(cj >= ci + 1);
        if ci == 0 {
            assert(unique_id(ids, j).len() > ids[j].len());
        } else if unique_id(ids, i) == unique_id(ids, j) {
            let p = ids[i] + "_"@;
            assert(unique_id(ids, i) == p + decimal(ci + 1));
            assert(unique_id(ids, j) == p + decimal(cj + 1));
            assert(decimal(ci + 1) =~= unique_id(ids, i).skip(p.len() as int));
            assert(decimal(cj + 1) =~= unique_id(ids, j).skip(p.len() as int));
            lemma_decimal_injective(ci + 1, cj + 1);
        }
    } else {
        if ci == 0 && cj == 0 {
        } else if ci == 0 {
            assert(ids[i] != ids[j] + "_"@ + decimal(cj + 1));
        } else if cj == 0 {
            assert(ids[j] != ids[i] + "_"@ + decimal(ci + 1));
        } else if unique_id(ids, i) == unique_id(ids, j) {
            lemma_suffix_split(ids[i], ids[j], decimal(ci + 1), decimal(cj + 1));
        }
    }
}

} // verus!

verus! {

/// Every supplied message falls in exactly one thread group.
pub proof fn lemma_each_message_in_one_group(ms: Seq<MessageDto>, fallback: bool, cs: Seq<Seq<usize>>, i: int)
    requires
        thread_groups(ms, fallback, cs),
        0 <= i < ms.len(),
    ensures
        exists|k: int| 0 <= k < cs.len() && #[trigger] member(cs[k], i),
        forall|k: int, l: int|
            0 <= k < cs.len() && 0 <= l < cs.len() && #[trigger] member(cs[k], i) && #[trigger] member(
                cs[l],
                i,
            ) ==> k == l,
{
    assert(graph_spec(ms, fallback).len() == ms.len());
    assert(covered(cs, i));
}

proof fn lemma_edge_keeps_group(ms: Seq<MessageDto>, fallback: bool, cs: Seq<Seq<usize>>, i: int, j: int, k: int)
    requires
        thread_groups(ms, fallback, cs),
        ms.len() <= usize::MAX,
        0 <= i < ms.len(),
        0 <= j < ms.len(),
        0 <= k < cs.len(),
        edge(ms, fallback, i, j),
        member(cs[k], i),
    ensures
        member(cs[k], j),
{
    let g = graph_spec(ms, fallback);
    lemma_edges_upto(ms, fallback, i, ms.len() as int);
    assert(g[i].contains(j as usize));
    let a = choose|a: int| 0 <= a < cs[k].len() && #[trigger] cs[k][a] as int == i;
    assert(g[cs[k][a] as int].contains(j as usize));
}

/// Messages of which one links to the other by Message-ID (through
/// `In-Reply-To`, `References` or the parent fallback) share a thread group.
pub proof fn lemma_linked_messages_share_group(
    ms: Seq<MessageDto>,
    fallback: bool,
    cs: Seq<Seq<usize>>,
    i: int,
    j: int,
    k: int,
)
    requires
        thread_groups(ms, fallback, cs),
        ms.len() <= usize::MAX,
        0 <= i < ms.len(),
        0 <= j < ms.len(),
        0 <= k < cs.len(),
        links_to(ms, i, j),
    ensures
        member(cs[k], i) <==> member(cs[k], j),
{
    if i != j {
        assert(edge(ms, fallback, i, j));
        assert(edge(ms, fallback, j, i));
        if member(cs[k], i) {
            lemma_edge_keeps_group(ms, fallback, cs, i, j, k);
        }
        if member(cs[k], j) {
            lemma_edge_keeps_group(ms, fallback, cs, j, i, k);
        }
    }
}

proof fn lemma_related_step(ms: Seq<MessageDto>, a: int, b: int, c: int, subject: bool)
    requires
        related(ms, a, b, subject),
        related(ms, a, c, subject),
    ensures
        related(ms, c, b, subject),
{
    if subject {
        let xa = subject_text(ms[a])->0;
        let xb = subject_text(ms[b])->0;
        let xc = subject_text(ms[c])->0;
        assert forall|q: int| 0 <= q < xb.len() implies crate::text::lc(#[trigger] xc[q])
            == crate::text::lc(xb[q]) by {
            assert(crate::text::lc(xa[q]) == crate::text::lc(xb[q]));
            assert(crate::text::lc(xa[q]) == crate::text::lc(xc[q]));
        }
    }
}

proof fn lemma_related_same_group(
    ms: Seq<MessageDto>,
    fallback: bool,
    cs: Seq<Seq<usize>>,
    a: int,
    b: int,
    subject: bool,
    k: int,
)
    requires
        thread_groups(ms, fallback, cs),
        ms.len() <= usize::MAX,
        0 <= a < b < ms.len(),
        0 <= k < cs.len(),
        subject ==> fallback,
        related(ms, a, b, subject),
    ensures
        member(cs[k], a) <==> member(cs[k], b),
    decreases b - a,
{
    if exists|c: int| a < c < b && #[trigger] related(ms, a, c, subject) {
        let c = choose|c: int| a < c < b && #[trigger] related(ms, a, c, subject);
        lemma_related_step(ms, a, b, c, subject);
        lemma_related_same_group(ms, fallback, cs, a, c, subject, k);
        lemma_related_same_group(ms, fallback, cs, c, b, subject, k);
    } else {
        assert(chain_edge(ms, a, b, subject));
        assert(chain_edge(ms, b, a, subject));
        assert(edge(ms, fallback, a, b));
        assert(edge(ms, fallback, b, a));
        if member(cs[k], a) {
            lemma_edge_keeps_group(ms, fallback, cs, a, b, k);
        }
        if member(cs[k], b) {
            lemma_edge_keeps_group(ms, fallback, cs, b, a, k);
        }
    }
}

/// Messages that share a thread hint (the root reference, else the parent)
/// share a thread group.
pub proof fn lemma_hint_messages_share_group(
    ms: Seq<MessageDto>,
    fallback: bool,
    cs: Seq<Seq<usize>>,
    i: int,
    j: int,
    k: int,
)
    requires
        thread_groups(ms, fallback, cs),
        ms.len() <= usize::MAX,
        0 <= i < ms.len(),
        0 <= j < ms.len(),
        0 <= k < cs.len(),
        same_hint(ms[i], ms[j]),
    ensures
        member(cs[k], i) <==> member(cs[k], j),
{
    if i < j {
        lemma_related_same_group(ms, fallback, cs, i, j, false, k);
    } else if j < i {
        assert(related(ms, j, i, false));
        lemma_related_same_group(ms, fallback, cs, j, i, false, k);
    }
}

/// With subject fallback, messages that link to no supplied message and
/// have the same non-empty base subject (ignoring ASCII case) share a thread
/// group.
pub proof fn lemma_subject_messages_share_group(
    ms: Seq<MessageDto>,
    cs: Seq<Seq<usize>>,
    i: int,
    j: int,
    k: int,
)
    requires
        thread_groups(ms, true, cs),
        ms.len() <= usize::MAX,
        0 <= i < ms.len(),
        0 <= j < ms.len(),
        0 <= k < cs.len(),
        subject_eligible(ms, i),
        subject_eligible(ms, j),
        same_subject(ms[i], ms[j]),
    ensures
        member(cs[k], i) <==> member(cs[k], j),
{
    if i < j {
        lemma_related_same_group(ms, true, cs, i, j, true, k);
    } else if j < i {
        let xi = subject_text(ms[i])->0;
        let xj = subject_text(ms[j])->0;
        assert forall|q: int| 0 <= q < xi.len() implies crate::text::lc(#[trigger] xj[q])
            == crate::text::lc(xi[q]) by {
            assert(crate::text::lc(xi[q]) == crate::text::lc(xj[q]));
        }
        assert(related(ms, j, i, true));
        lemma_related_same_group(ms, true, cs, j, i, true, k);
    }
}

} // verus!
