//! Building one thread from the messages of a thread group: parent links,
//! link confidence, children, depths, node order, and the thread's summary.
use vstd::prelude::*;
use vstd::utf8::encode_utf8;
use crate::dto::{
    diag_is, opt_string, AddressDto, DiagnosticDto, MessageDto, ThreadDto, ThreadNodeDto, TimeRangeDto,
};
use crate::encode::{short_sha256, short_sha256_spec};
use crate::fields::copy_address;
use crate::model::{addr_v, addrs_v, AddrV};
use crate::message::strs_v;
use crate::text::{lit, push_all, push_str, str_eq, string_of};
use crate::order::{
    is_perm, reordered, sort_strings, sorted_unique, stable_order, stably_sorted, texts, texts_sorted,
    texts_strict, KeyV, SortKey,
};
use crate::thread::{
    cands, has_id, message_sort_key, msg_key, parent_candidate_ids, same_subject, subject_text,
};

verus! {

/// Last message among the first `n` whose id is `x` and is not duplicated.
pub open spec fn last_holder(cm: Seq<MessageDto>, dp: Seq<bool>, x: Seq<char>, n: int) -> Option<int>
    decreases n,
{
    if n <= 0 {
        None
    } else if has_id(cm[n - 1], x) && !dp[n - 1] {
        Some(n - 1)
    } else {
        last_holder(cm, dp, x, n - 1)
    }
}

/// Some message of the thread has id `x`.
pub open spec fn supplied(cm: Seq<MessageDto>, x: Seq<char>) -> bool {
    exists|t: int| 0 <= t < cm.len() && #[trigger] has_id(cm[t], x)
}

/// First of the first `n` candidates that names a message of the thread by a
/// unique id.
pub open spec fn first_resolved(cm: Seq<MessageDto>, dp: Seq<bool>, cs: Seq<Seq<char>>, n: int) -> Option<
    int,
>
    decreases n,
{
    if n <= 0 {
        None
    } else {
        match first_resolved(cm, dp, cs, n - 1) {
            Some(k) => Some(k),
            None => if last_holder(cm, dp, cs[n - 1], cm.len() as int) is Some {
                Some(n - 1)
            } else {
                None
            },
        }
    }
}

/// First of the first `n` candidates that names no message of the thread.
pub open spec fn first_unsupplied(cm: Seq<MessageDto>, cs: Seq<Seq<char>>, n: int) -> Option<int>
    decreases n,
{
    if n <= 0 {
        None
    } else {
        match first_unsupplied(cm, cs, n - 1) {
            Some(k) => Some(k),
            None => if !supplied(cm, cs[n - 1]) {
                Some(n - 1)
            } else {
                None
            },
        }
    }
}

/// Node id of the parent of message `t`: the first parent candidate that
/// names a message of the thread by a unique Message-ID.
pub open spec fn parent_spec(cm: Seq<MessageDto>, dp: Seq<bool>, t: int) -> Option<Seq<char>> {
    let cs = cands(cm[t]);
    match first_resolved(cm, dp, cs, cs.len() as int) {
        Some(k) => Some(
            cm[last_holder(cm, dp, cs[k], cm.len() as int)->0].message.node_id@,
        ),
        None => None,
    }
}

/// The missing parent of message `t`: with no parent found, its first
/// candidate that names no message of the thread.
pub open spec fn missing_spec(cm: Seq<MessageDto>, dp: Seq<bool>, t: int) -> Option<Seq<char>> {
    let cs = cands(cm[t]);
    if parent_spec(cm, dp, t) is Some {
        None
    } else {
        match first_unsupplied(cm, cs, cs.len() as int) {
            Some(k) => Some(cs[k]),
            None => None,
        }
    }
}

/// Message `t` links nowhere, has a subject, and shares it with another such
/// message of the thread.
pub open spec fn subject_linked(cm: Seq<MessageDto>, ul: Seq<bool>, t: int) -> bool {
    ul[t] && subject_text(cm[t]) is Some && exists|u: int|
        0 <= u < cm.len() && u != t && ul[u] && #[trigger] same_subject(cm[t], cm[u])
}

/// How message `t` is attached: `id` by a parent link, `orphan` when its
/// candidates name none of the thread, `subject` when grouped by subject
/// alone, `root` otherwise.
pub open spec fn confidence_spec(cm: Seq<MessageDto>, dp: Seq<bool>, ul: Seq<bool>, t: int) -> Seq<char> {
    if parent_spec(cm, dp, t) is Some {
        "id"@
    } else if cands(cm[t]).len() > 0 {
        "orphan"@
    } else if subject_linked(cm, ul, t) {
        "subject"@
    } else {
        "root"@
    }
}

fn last_holder_exec(cm: &Vec<MessageDto>, dp: &Vec<bool>, x: &String) -> (r: Option<usize>)
    requires
        dp@.len() == cm@.len(),
    ensures
        r matches Some(i) ==> i < cm@.len() && last_holder(cm@, dp@, x@, cm@.len() as int) == Some(
            i as int,
        ),
        r is None ==> last_holder(cm@, dp@, x@, cm@.len() as int) is None,
{
    let mut n = cm.len();
    while n > 0
        invariant
            n <= cm@.len(),
            dp@.len() == cm@.len(),
            last_holder(cm@, dp@, x@, n as int) == last_holder(cm@, dp@, x@, cm@.len() as int),
        decreases n,
    {
        let holds = match &cm[n - 1].message.message_id {
            Some(s) => str_eq(s.as_str(), x.as_str()),
            None => false,
        };
        if holds && !dp[n - 1] {
            return Some(n - 1);
        }
        n -= 1;
    }
    None
}

fn supplied_exec(cm: &Vec<MessageDto>, x: &String) -> (r: bool)
    ensures
        r == supplied(cm@, x@),
{
    let mut t: usize = 0;
    while t < cm.len()
        invariant
            t <= cm@.len(),
            forall|u: int| 0 <= u < t ==> !#[trigger] has_id(cm@[u], x@),
        decreases cm.len() - t,
    {
        let holds = match &cm[t].message.message_id {
            Some(s) => str_eq(s.as_str(), x.as_str()),
            None => false,
        };
        if holds {
            assert(has_id(cm@[t as int], x@));
            return true;
        }
        t += 1;
    }
    false
}

/// Parent node id and missing parent of message `t`.
pub fn resolve_parent(cm: &Vec<MessageDto>, dp: &Vec<bool>, t: usize) -> (r: (
    Option<String>,
    Option<String>,
))
    requires
        t < cm@.len(),
        dp@.len() == cm@.len(),
    ensures
        opt_string(r.0) == parent_spec(cm@, dp@, t as int),
        opt_string(r.1) == missing_spec(cm@, dp@, t as int),
{
    let cs = parent_candidate_ids(&cm[t]);
    let ghost csv = strs_v(cs@);
    let mut first_missing: Option<String> = None;
    let mut k: usize = 0;
    while k < cs.len()
        invariant
            t < cm@.len(),
            dp@.len() == cm@.len(),
            csv == strs_v(cs@),
            csv == cands(cm@[t as int]),
            k <= cs@.len(),
            first_resolved(cm@, dp@, csv, k as int) is None,
            opt_string(first_missing) == match first_unsupplied(cm@, csv, k as int) {
                Some(q) => Some(csv[q]),
                None => None,
            },
        decreases cs.len() - k,
    {
        assert(csv[k as int] == cs@[k as int]@);
        match last_holder_exec(cm, dp, &cs[k]) {
            Some(i) => {
                proof {
                    lemma_first_stable(cm@, dp@, csv, k as int + 1, csv.len() as int);
                }
                return (Some(cm[i].message.node_id.clone()), None);
            },
            None => {},
        }
        if first_missing.is_none() && !supplied_exec(cm, &cs[k]) {
            first_missing = Some(cs[k].clone());
        }
        k += 1;
    }
    (None, first_missing)
}

proof fn lemma_first_stable(cm: Seq<MessageDto>, dp: Seq<bool>, cs: Seq<Seq<char>>, n: int, m: int)
    requires
        0 <= n <= m,
        first_resolved(cm, dp, cs, n) is Some,
    ensures
        first_resolved(cm, dp, cs, m) == first_resolved(cm, dp, cs, n),
    decreases m - n,
{
    if m > n {
        lemma_first_stable(cm, dp, cs, n, m - 1);
    }
}

/// The link confidence of message `t`, given whether it has a parent.
pub fn link_confidence(cm: &Vec<MessageDto>, dp: &Vec<bool>, ul: &Vec<bool>, t: usize, has_parent: bool) -> (r: String)
    requires
        t < cm@.len(),
        dp@.len() == cm@.len(),
        ul@.len() == cm@.len(),
        has_parent == (parent_spec(cm@, dp@, t as int) is Some),
    ensures
        r@ == confidence_spec(cm@, dp@, ul@, t as int),
{
    if has_parent {
        return lit("id");
    }
    let cs = parent_candidate_ids(&cm[t]);
    if cs.len() > 0 {
        return lit("orphan");
    }
    let mut linked = false;
    if ul[t] {
        match subject_of_exec(&cm[t]) {
            Some(s) => {
                let mut u: usize = 0;
                while u < cm.len()
                    invariant
                        t < cm@.len(),
                        ul@.len() == cm@.len(),
                        ul@[t as int],
                        subject_text(cm@[t as int]) == Some(s@),
                        u <= cm@.len(),
                        linked == exists|w: int|
                            0 <= w < u && w != t && ul@[w] && #[trigger] same_subject(cm@[t as int], cm@[w]),
                    decreases cm.len() - u,
                {
                    if u != t && ul[u] {
                        match subject_of_exec(&cm[u]) {
                            Some(s2) => {
                                if crate::text::eq_ic_exec(s.as_slice(), s2.as_slice()) {
                                    linked = true;
                                }
                            },
                            None => {},
                        }
                    }
                    assert(same_subject(cm@[t as int], cm@[u as int]) == (subject_text(cm@[u as int]) matches Some(y)
                        && crate::text::eq_ic(s@, y)));
                    u += 1;
                }
            },
            None => {},
        }
    }
    if linked {
        lit("subject")
    } else {
        lit("root")
    }
}

fn subject_of_exec(m: &MessageDto) -> (r: Option<Vec<char>>)
    ensures
        (match r {
            Some(v) => Some(v@),
            None => None,
        }) == subject_text(*m),
{
    match &m.thread.base_subject {
        Some(b) => {
            let cs = crate::text::chars_of(b.as_str());
            let t = crate::text::trim_chars(cs.as_slice());
            if t.len() > 0 {
                Some(t)
            } else {
                None
            }
        },
        None => None,
    }
}

} // verus!

verus! {

/// Node ids of the thread's messages, in order.
pub open spec fn nids(cm: Seq<MessageDto>) -> Seq<Seq<char>> {
    cm.map_values(|m: MessageDto| m.message.node_id@)
}

/// Last message among the first `n` whose node id is `x`.
pub open spec fn last_node(cm: Seq<MessageDto>, x: Seq<char>, n: int) -> Option<int>
    decreases n,
{
    if n <= 0 {
        None
    } else if cm[n - 1].message.node_id@ == x {
        Some(n - 1)
    } else {
        last_node(cm, x, n - 1)
    }
}

/// Steps up the parent chain from parent `p`, stopping at a node id seen
/// before, an id that is no node of the thread, or after `fuel` steps.
pub open spec fn depth_walk(
    cm: Seq<MessageDto>,
    dp: Seq<bool>,
    p: Option<Seq<char>>,
    seen: Seq<Seq<char>>,
    fuel: nat,
) -> nat
    decreases fuel,
{
    match p {
        None => 0,
        Some(pid) => if fuel == 0 || seen.contains(pid) {
            0
        } else {
            match last_node(cm, pid, cm.len() as int) {
                None => 0,
                Some(i) => 1 + depth_walk(cm, dp, parent_spec(cm, dp, i), seen.push(pid), (fuel - 1) as nat),
            }
        },
    }
}

/// Depth of message `t`: the number of distinct ancestors reached by
/// following parent links within the thread.
pub open spec fn depth_spec(cm: Seq<MessageDto>, dp: Seq<bool>, t: int) -> nat {
    depth_walk(cm, dp, parent_spec(cm, dp, t), Seq::empty(), cm.len())
}

/// Node ids of the messages whose parent is node id `x`, in order, among the first `n`.
pub open spec fn children_upto(cm: Seq<MessageDto>, dp: Seq<bool>, x: Seq<char>, n: int) -> Seq<Seq<char>>
    decreases n,
{
    if n <= 0 {
        Seq::empty()
    } else if parent_spec(cm, dp, n - 1) == Some(x) {
        children_upto(cm, dp, x, n - 1).push(cm[n - 1].message.node_id@)
    } else {
        children_upto(cm, dp, x, n - 1)
    }
}

/// Children of message `t`, before sorting: the messages whose parent is its
/// node id; a later message with the same node id gets none.
pub open spec fn children_spec(cm: Seq<MessageDto>, dp: Seq<bool>, t: int) -> Seq<Seq<char>> {
    if exists|u: int| 0 <= u < t && #[trigger] cm[u].message.node_id@ == cm[t].message.node_id@ {
        Seq::empty()
    } else {
        children_upto(cm, dp, cm[t].message.node_id@, cm.len() as int)
    }
}

fn last_node_exec(cm: &Vec<MessageDto>, x: &String) -> (r: Option<usize>)
    ensures
        r matches Some(i) ==> i < cm@.len() && last_node(cm@, x@, cm@.len() as int) == Some(i as int),
        r is None ==> last_node(cm@, x@, cm@.len() as int) is None,
{
    let mut n = cm.len();
    while n > 0
        invariant
            n <= cm@.len(),
            last_node(cm@, x@, n as int) == last_node(cm@, x@, cm@.len() as int),
        decreases n,
    {
        if str_eq(cm[n - 1].message.node_id.as_str(), x.as_str()) {
            return Some(n - 1);
        }
        n -= 1;
    }
    None
}

fn contains_str(v: &Vec<String>, x: &String) -> (r: bool)
    ensures
        r == strs_v(v@).contains(x@),
{
    let mut i: usize = 0;
    while i < v.len()
        invariant
            i <= v@.len(),
            forall|k: int| 0 <= k < i ==> v@[k]@ != x@,
        decreases v.len() - i,
    {
        if str_eq(v[i].as_str(), x.as_str()) {
            assert(strs_v(v@)[i as int] == x@);
            return true;
        }
        i += 1;
    }
    assert forall|k: int| 0 <= k < strs_v(v@).len() implies strs_v(v@)[k] != x@ by {
        assert(strs_v(v@)[k] == v@[k]@);
    }
    false
}

/// Depth of every message of the thread, given their parents.
pub fn depths(cm: &Vec<MessageDto>, dp: &Vec<bool>, parents: &Vec<Option<String>>) -> (r: Vec<usize>)
    requires
        dp@.len() == cm@.len(),
        parents@.len() == cm@.len(),
        forall|t: int| 0 <= t < cm@.len() ==> opt_string(#[trigger] parents@[t]) == parent_spec(cm@, dp@, t),
    ensures
        r@.len() == cm@.len(),
        forall|t: int| 0 <= t < cm@.len() ==> #[trigger] r@[t] as nat == depth_spec(cm@, dp@, t),
{
    let n = cm.len();
    let mut out: Vec<usize> = Vec::new();
    let mut t: usize = 0;
    while t < n
        invariant
            n == cm@.len(),
            dp@.len() == n,
            parents@.len() == n,
            forall|u: int| 0 <= u < n ==> opt_string(#[trigger] parents@[u]) == parent_spec(cm@, dp@, u),
            t <= n,
            out@.len() == t,
            forall|u: int| 0 <= u < t ==> #[trigger] out@[u] as nat == depth_spec(cm@, dp@, u),
        decreases n - t,
    {
        let mut depth: usize = 0;
        let mut seen: Vec<String> = Vec::new();
        let mut parent: Option<String> = clone_opt_str(&parents[t]);
        let mut fuel: usize = n;
        assert(strs_v(seen@) =~= Seq::<Seq<char>>::empty());
        while fuel > 0
            invariant
                n == cm@.len(),
                dp@.len() == n,
                parents@.len() == n,
                forall|u: int| 0 <= u < n ==> opt_string(#[trigger] parents@[u]) == parent_spec(cm@, dp@, u),
                t < n,
                fuel <= n,
                depth + fuel <= n,
                depth + depth_walk(cm@, dp@, opt_string(parent), strs_v(seen@), fuel as nat)
                    == depth_spec(cm@, dp@, t as int),
            ensures
                depth as nat == depth_spec(cm@, dp@, t as int),
            decreases fuel,
        {
            match &parent {
                None => {
                    break;
                },
                Some(pid) => {
                    if contains_str(&seen, pid) {
                        break;
                    }
                    match last_node_exec(cm, pid) {
                        None => {
                            break;
                        },
                        Some(i) => {
                            let ghost sv = strs_v(seen@);
                            seen.push(pid.clone());
                            assert(strs_v(seen@) =~= sv.push(pid@));
                            depth += 1;
                            parent = clone_opt_str(&parents[i]);
                            fuel -= 1;
                        },
                    }
                },
            }
        }
        out.push(depth);
        t += 1;
    }
    out
}

fn clone_opt_str(o: &Option<String>) -> (r: Option<String>)
    ensures
        opt_string(r) == opt_string(*o),
{
    match o {
        Some(s) => Some(s.clone()),
        None => None,
    }
}

/// The children of every message, before sorting.
pub fn children_lists(cm: &Vec<MessageDto>, dp: &Vec<bool>, parents: &Vec<Option<String>>) -> (r: Vec<
    Vec<String>,
>)
    requires
        dp@.len() == cm@.len(),
        parents@.len() == cm@.len(),
        forall|t: int| 0 <= t < cm@.len() ==> opt_string(#[trigger] parents@[t]) == parent_spec(cm@, dp@, t),
    ensures
        r@.len() == cm@.len(),
        forall|t: int| 0 <= t < cm@.len() ==> strs_v(#[trigger] r@[t]@) == children_spec(cm@, dp@, t),
{
    let n = cm.len();
    let mut out: Vec<Vec<String>> = Vec::new();
    let mut t: usize = 0;
    while t < n
        invariant
            n == cm@.len(),
            dp@.len() == n,
            parents@.len() == n,
            forall|u: int| 0 <= u < n ==> opt_string(#[trigger] parents@[u]) == parent_spec(cm@, dp@, u),
            t <= n,
            out@.len() == t,
            forall|u: int| 0 <= u < t ==> strs_v(#[trigger] out@[u]@) == children_spec(cm@, dp@, u),
        decreases n - t,
    {
        let me = &cm[t].message.node_id;
        let mut taken = false;
        let mut u: usize = 0;
        while u < t
            invariant
                n == cm@.len(),
                t < n,
                me@ == cm@[t as int].message.node_id@,
                u <= t,
                taken == exists|w: int| 0 <= w < u && #[trigger] cm@[w].message.node_id@ == me@,
            decreases t - u,
        {
            if str_eq(cm[u].message.node_id.as_str(), me.as_str()) {
                taken = true;
            }
            u += 1;
        }
        let mut kids: Vec<String> = Vec::new();
        if !taken {
            let mut w: usize = 0;
            while w < n
                invariant
                    n == cm@.len(),
                    dp@.len() == n,
                    parents@.len() == n,
                    forall|v: int|
                        0 <= v < n ==> opt_string(#[trigger] parents@[v]) == parent_spec(cm@, dp@, v),
                    t < n,
                    me@ == cm@[t as int].message.node_id@,
                    w <= n,
                    strs_v(kids@) == children_upto(cm@, dp@, me@, w as int),
                decreases n - w,
            {
                let is_child = match &parents[w] {
                    Some(p) => str_eq(p.as_str(), me.as_str()),
                    None => false,
                };
                if is_child {
                    let ghost kv = strs_v(kids@);
                    kids.push(cm[w].message.node_id.clone());
                    assert(strs_v(kids@) =~= kv.push(cm@[w as int].message.node_id@));
                }
                w += 1;
            }
        } else {
            assert(strs_v(kids@) =~= Seq::<Seq<char>>::empty());
        }
        out.push(kids);
        t += 1;
    }
    out
}

} // verus!

verus! {

/// Sort key of node `t`: its depth, then its message's key.
pub open spec fn node_key(cm: Seq<MessageDto>, dp: Seq<bool>, t: int) -> KeyV {
    KeyV { depth: depth_spec(cm, dp, t), ..msg_key(cm[t]) }
}

/// Sort keys of all nodes, in message order.
pub open spec fn node_keys(cm: Seq<MessageDto>, dp: Seq<bool>) -> Seq<KeyV> {
    Seq::new(cm.len(), |t: int| node_key(cm, dp, t))
}

/// `n` is the node of message `t` of the thread.
pub open spec fn node_is(n: ThreadNodeDto, cm: Seq<MessageDto>, dp: Seq<bool>, ul: Seq<bool>, t: int) -> bool {
    &&& n.node_id@ == cm[t].message.node_id@
    &&& opt_string(n.message_id) == opt_string(cm[t].message.message_id)
    &&& opt_string(n.parent_node_id) == parent_spec(cm, dp, t)
    &&& reordered(texts(n.child_node_ids@), children_spec(cm, dp, t))
    &&& texts_sorted(texts(n.child_node_ids@))
    &&& n.depth as nat == depth_spec(cm, dp, t)
    &&& n.link_confidence@ == confidence_spec(cm, dp, ul, t)
    &&& n.message == cm[t]
}

/// Parent node id and missing parent of every message.
pub fn resolve_all(cm: &Vec<MessageDto>, dp: &Vec<bool>) -> (r: (Vec<Option<String>>, Vec<Option<String>>))
    requires
        dp@.len() == cm@.len(),
    ensures
        r.0@.len() == cm@.len(),
        r.1@.len() == cm@.len(),
        forall|t: int| 0 <= t < cm@.len() ==> opt_string(#[trigger] r.0@[t]) == parent_spec(cm@, dp@, t),
        forall|t: int| 0 <= t < cm@.len() ==> opt_string(#[trigger] r.1@[t]) == missing_spec(cm@, dp@, t),
{
    let mut ps: Vec<Option<String>> = Vec::new();
    let mut ms: Vec<Option<String>> = Vec::new();
    let mut t: usize = 0;
    while t < cm.len()
        invariant
            dp@.len() == cm@.len(),
            t <= cm@.len(),
            ps@.len() == t,
            ms@.len() == t,
            forall|u: int| 0 <= u < t ==> opt_string(#[trigger] ps@[u]) == parent_spec(cm@, dp@, u),
            forall|u: int| 0 <= u < t ==> opt_string(#[trigger] ms@[u]) == missing_spec(cm@, dp@, u),
        decreases cm.len() - t,
    {
        let (p, m) = resolve_parent(cm, dp, t);
        ps.push(p);
        ms.push(m);
        t += 1;
    }
    (ps, ms)
}

/// The thread's nodes, ordered by depth and then by message key, equal keys
/// in message order.
pub fn build_nodes(cm: Vec<MessageDto>, dp: &Vec<bool>, ul: &Vec<bool>, parents: &Vec<Option<String>>) -> (r: Vec<
    ThreadNodeDto,
>)
    requires
        dp@.len() == cm@.len(),
        ul@.len() == cm@.len(),
        parents@.len() == cm@.len(),
        forall|t: int| 0 <= t < cm@.len() ==> opt_string(#[trigger] parents@[t]) == parent_spec(cm@, dp@, t),
    ensures
        exists|perm: Seq<usize>|
            is_perm(perm, cm@.len()) && stably_sorted(node_keys(cm@, dp@), perm) && r@.len() == perm.len()
                && forall|a: int| 0 <= a < r@.len() ==> node_is(#[trigger] r@[a], cm@, dp@, ul@, perm[a] as int),
{
    let ghost c0 = cm@;
    let n = cm.len();
    let ds = depths(&cm, dp, parents);
    let kids = children_lists(&cm, dp, parents);
    let mut confs: Vec<String> = Vec::new();
    let mut keys: Vec<SortKey> = Vec::new();
    let mut t: usize = 0;
    while t < n
        invariant
            n == cm@.len(),
            cm@ == c0,
            dp@.len() == n,
            ul@.len() == n,
            parents@.len() == n,
            forall|u: int| 0 <= u < n ==> opt_string(#[trigger] parents@[u]) == parent_spec(c0, dp@, u),
            ds@.len() == n,
            forall|u: int| 0 <= u < n ==> #[trigger] ds@[u] as nat == depth_spec(c0, dp@, u),
            t <= n,
            confs@.len() == t,
            forall|u: int| 0 <= u < t ==> (#[trigger] confs@[u])@ == confidence_spec(c0, dp@, ul@, u),
            keys@.len() == t,
            forall|u: int| 0 <= u < t ==> (#[trigger] keys@[u])@ == node_key(c0, dp@, u),
        decreases n - t,
    {
        confs.push(link_confidence(&cm, dp, ul, t, parents[t].is_some()));
        let mut k = message_sort_key(&cm[t]);
        k.depth = ds[t];
        keys.push(k);
        t += 1;
    }
    let mut rev: Vec<MessageDto> = Vec::new();
    let mut cm = cm;
    while cm.len() > 0
        invariant
            cm@.len() + rev@.len() == c0.len(),
            forall|k: int| 0 <= k < cm@.len() ==> #[trigger] cm@[k] == c0[k],
            forall|k: int| 0 <= k < rev@.len() ==> #[trigger] rev@[k] == c0[c0.len() - 1 - k],
        decreases cm.len(),
    {
        let x = cm.pop().unwrap();
        rev.push(x);
    }
    let mut nodes: Vec<ThreadNodeDto> = Vec::new();
    let mut kids = kids;
    let mut kids_rev: Vec<Vec<String>> = Vec::new();
    let ghost k0 = kids@;
    while kids.len() > 0
        invariant
            kids@.len() + kids_rev@.len() == k0.len(),
            forall|k: int| 0 <= k < kids@.len() ==> #[trigger] kids@[k] == k0[k],
            forall|k: int| 0 <= k < kids_rev@.len() ==> #[trigger] kids_rev@[k] == k0[k0.len() - 1 - k],
        decreases kids.len(),
    {
        let x = kids.pop().unwrap();
        kids_rev.push(x);
    }
    while rev.len() > 0
        invariant
            n == c0.len(),
            k0.len() == n,
            dp@.len() == n,
            ul@.len() == n,
            forall|u: int| 0 <= u < n ==> strs_v(#[trigger] k0[u]@) == children_spec(c0, dp@, u),
            parents@.len() == n,
            forall|u: int| 0 <= u < n ==> opt_string(#[trigger] parents@[u]) == parent_spec(c0, dp@, u),
            ds@.len() == n,
            forall|u: int| 0 <= u < n ==> #[trigger] ds@[u] as nat == depth_spec(c0, dp@, u),
            confs@.len() == n,
            forall|u: int| 0 <= u < n ==> (#[trigger] confs@[u])@ == confidence_spec(c0, dp@, ul@, u),
            rev@.len() + nodes@.len() == n,
            kids_rev@.len() == rev@.len(),
            forall|k: int| 0 <= k < rev@.len() ==> #[trigger] rev@[k] == c0[n - 1 - k],
            forall|k: int| 0 <= k < kids_rev@.len() ==> #[trigger] kids_rev@[k] == k0[n - 1 - k],
            forall|u: int| 0 <= u < nodes@.len() ==> node_is(#[trigger] nodes@[u], c0, dp@, ul@, u),
        decreases rev.len(),
    {
        let ghost t = nodes@.len() as int;
        let m = rev.pop().unwrap();
        let ch = kids_rev.pop().unwrap();
        assert(m == c0[t]);
        assert(ch == k0[t]);
        let ghost chv = texts(ch@);
        let sorted_ch = sort_strings(ch);
        let ti = nodes.len();
        let node = ThreadNodeDto {
            node_id: m.message.node_id.clone(),
            message_id: clone_opt_str(&m.message.message_id),
            parent_node_id: clone_opt_str(&parents[ti]),
            child_node_ids: sorted_ch,
            depth: ds[ti],
            link_confidence: confs[ti].clone(),
            message: m,
        };
        assert(strs_v(k0[t]@) == texts(k0[t]@));
        nodes.push(node);
    }
    let perm = stable_order(&keys);
    let ghost kv = keys@.map_values(|k: SortKey| k@);
    assert(kv =~= node_keys(c0, dp@));
    let ghost nv = nodes@;
    let r = crate::thread::apply_perm(nodes, &perm);
    assert(is_perm(perm@, c0.len()) && stably_sorted(node_keys(c0, dp@), perm@) && r@.len() == perm@.len()
        && forall|a: int| 0 <= a < r@.len() ==> node_is(#[trigger] r@[a], c0, dp@, ul@, perm@[a] as int));
    r
}

} // verus!

verus! {

/// Node ids of the nodes, in order.
pub open spec fn node_ids_of(ns: Seq<ThreadNodeDto>) -> Seq<Seq<char>> {
    ns.map_values(|n: ThreadNodeDto| n.node_id@)
}

/// The thread's timeline: its node ids in node order.
pub fn timeline_of(ns: &Vec<ThreadNodeDto>) -> (r: Vec<String>)
    ensures
        texts(r@) == node_ids_of(ns@),
{
    let mut r: Vec<String> = Vec::new();
    let mut i: usize = 0;
    while i < ns.len()
        invariant
            i <= ns@.len(),
            r@.len() == i,
            forall|k: int| 0 <= k < i ==> (#[trigger] r@[k])@ == ns@[k].node_id@,
        decreases ns.len() - i,
    {
        r.push(ns[i].node_id.clone());
        i += 1;
    }
    assert(texts(r@) =~= node_ids_of(ns@));
    r
}

/// First of the first `n` nodes without a parent.
pub open spec fn first_root(ns: Seq<ThreadNodeDto>, n: int) -> Option<int>
    decreases n,
{
    if n <= 0 {
        None
    } else {
        match first_root(ns, n - 1) {
            Some(i) => Some(i),
            None => if ns[n - 1].parent_node_id is None {
                Some(n - 1)
            } else {
                None
            },
        }
    }
}

/// The thread's root Message-ID: that of the first node without a parent,
/// else that of the first node.
pub open spec fn root_id_spec(ns: Seq<ThreadNodeDto>) -> Option<Seq<char>> {
    let first = if ns.len() > 0 {
        opt_string(ns[0].message_id)
    } else {
        None
    };
    match first_root(ns, ns.len() as int) {
        Some(i) => match opt_string(ns[i].message_id) {
            Some(x) => Some(x),
            None => first,
        },
        None => first,
    }
}

/// First base subject among the first `n` nodes.
pub open spec fn first_subject(ns: Seq<ThreadNodeDto>, n: int) -> Option<Seq<char>>
    decreases n,
{
    if n <= 0 {
        None
    } else {
        match first_subject(ns, n - 1) {
            Some(s) => Some(s),
            None => opt_string(ns[n - 1].message.thread.base_subject),
        }
    }
}

/// The root Message-ID of a thread.
pub fn root_id_of(ns: &Vec<ThreadNodeDto>) -> (r: Option<String>)
    ensures
        opt_string(r) == root_id_spec(ns@),
{
    let first = if ns.len() > 0 {
        clone_opt_str(&ns[0].message_id)
    } else {
        None
    };
    let mut i: usize = 0;
    while i < ns.len()
        invariant
            i <= ns@.len(),
            first_root(ns@, i as int) is None,
            opt_string(first) == (if ns@.len() > 0 {
                opt_string(ns@[0].message_id)
            } else {
                None
            }),
        decreases ns.len() - i,
    {
        if ns[i].parent_node_id.is_none() {
            assert(first_root(ns@, i + 1) == Some(i as int));
            proof {
                lemma_first_root_stable(ns@, i + 1, ns@.len() as int);
            }
            return match &ns[i].message_id {
                Some(x) => Some(x.clone()),
                None => first,
            };
        }
        i += 1;
    }
    first
}

proof fn lemma_first_root_stable(ns: Seq<ThreadNodeDto>, n: int, m: int)
    requires
        0 <= n <= m,
        first_root(ns, n) is Some,
    ensures
        first_root(ns, m) == first_root(ns, n),
    decreases m - n,
{
    if m > n {
        lemma_first_root_stable(ns, n, m - 1);
    }
}

/// The first base subject among the nodes.
pub fn base_subject_of_nodes(ns: &Vec<ThreadNodeDto>) -> (r: Option<String>)
    ensures
        opt_string(r) == first_subject(ns@, ns@.len() as int),
{
    let mut i: usize = 0;
    while i < ns.len()
        invariant
            i <= ns@.len(),
            first_subject(ns@, i as int) is None,
        decreases ns.len() - i,
    {
        match &ns[i].message.thread.base_subject {
            Some(s) => {
                proof {
                    lemma_first_subject_stable(ns@, i + 1, ns@.len() as int);
                }
                return Some(s.clone());
            },
            None => {},
        }
        i += 1;
    }
    None
}

proof fn lemma_first_subject_stable(ns: Seq<ThreadNodeDto>, n: int, m: int)
    requires
        0 <= n <= m,
        first_subject(ns, n) is Some,
    ensures
        first_subject(ns, m) == first_subject(ns, n),
    decreases m - n,
{
    if m > n {
        lemma_first_subject_stable(ns, n, m - 1);
    }
}

/// The date sort of a message: dated before undated, then by timestamp.
pub open spec fn date_before(a: MessageDto, b: MessageDto) -> bool {
    let ma = a.message.date_timestamp is None;
    let mb = b.message.date_timestamp is None;
    let ta = match a.message.date_timestamp {
        Some(t) => t as int,
        None => 0,
    };
    let tb = match b.message.date_timestamp {
        Some(t) => t as int,
        None => 0,
    };
    (!ma && mb) || (ma == mb && ta < tb)
}

/// Among the first `n` nodes with a date, the first earliest (`start`) or
/// the first latest (`!start`).
pub open spec fn date_pick(ns: Seq<ThreadNodeDto>, n: int, start: bool) -> Option<int>
    decreases n,
{
    if n <= 0 {
        None
    } else {
        let b = date_pick(ns, n - 1, start);
        if ns[n - 1].message.message.date is None {
            b
        } else {
            match b {
                None => Some(n - 1),
                Some(i) => if (start && date_before(ns[n - 1].message, ns[i].message)) || (!start
                    && date_before(ns[i].message, ns[n - 1].message)) {
                    Some(n - 1)
                } else {
                    Some(i)
                },
            }
        }
    }
}

/// The date of the picked node.
pub open spec fn picked_date(ns: Seq<ThreadNodeDto>, start: bool) -> Option<Seq<char>> {
    match date_pick(ns, ns.len() as int, start) {
        Some(i) => opt_string(ns[i].message.message.date),
        None => None,
    }
}

fn date_before_exec(a: &MessageDto, b: &MessageDto) -> (r: bool)
    ensures
        r == date_before(*a, *b),
{
    match (a.message.date_timestamp, b.message.date_timestamp) {
        (Some(x), Some(y)) => x < y,
        (Some(_), None) => true,
        (None, Some(_)) => false,
        (None, None) => false,
    }
}

/// The earliest (`start`) or latest date of the thread.
pub fn thread_date_bound(ns: &Vec<ThreadNodeDto>, start: bool) -> (r: Option<String>)
    ensures
        opt_string(r) == picked_date(ns@, start),
{
    let mut best: Option<usize> = None;
    let mut i: usize = 0;
    while i < ns.len()
        invariant
            i <= ns@.len(),
            best == match date_pick(ns@, i as int, start) {
                Some(k) => Some(k as usize),
                None => None::<usize>,
            },
            best matches Some(k) ==> k < i,
            date_pick(ns@, i as int, start) matches Some(k) ==> 0 <= k < i,
        decreases ns.len() - i,
    {
        if ns[i].message.message.date.is_some() {
            best = match best {
                None => Some(i),
                Some(k) => {
                    let better = if start {
                        date_before_exec(&ns[i].message, &ns[k].message)
                    } else {
                        date_before_exec(&ns[k].message, &ns[i].message)
                    };
                    if better {
                        Some(i)
                    } else {
                        Some(k)
                    }
                },
            };
        }
        i += 1;
    }
    match best {
        Some(k) => clone_opt_str(&ns[k].message.message.date),
        None => None,
    }
}

} // verus!

verus! {

/// Mailboxes a node contributes to participants: From, To, then Cc.
pub open spec fn node_addrs(n: ThreadNodeDto) -> Seq<AddrV> {
    addrs_v(n.message.message.from@) + addrs_v(n.message.message.to@) + addrs_v(n.message.message.cc@)
}

/// Mailboxes of the first `k` nodes, in order.
pub open spec fn all_addrs(ns: Seq<ThreadNodeDto>, k: int) -> Seq<AddrV>
    decreases k,
{
    if k <= 0 {
        Seq::empty()
    } else {
        all_addrs(ns, k - 1) + node_addrs(ns[k - 1])
    }
}

/// Text of an optional text, or nothing.
pub open spec fn or_empty(o: Option<Seq<char>>) -> Seq<char> {
    match o {
        Some(s) => s,
        None => Seq::empty(),
    }
}

/// Identity of a mailbox for deduplication: name, a NUL, then address.
pub open spec fn addr_key(a: AddrV) -> Seq<char> {
    or_empty(a.0) + seq!['\0'] + or_empty(a.1)
}

/// The first `n` mailboxes of `s`, keeping each identity's first occurrence.
pub open spec fn first_keyed(s: Seq<AddrV>, n: int) -> Seq<AddrV>
    decreases n,
{
    if n <= 0 {
        Seq::empty()
    } else if exists|j: int| 0 <= j < n - 1 && #[trigger] addr_key(s[j]) == addr_key(s[n - 1]) {
        first_keyed(s, n - 1)
    } else {
        first_keyed(s, n - 1).push(s[n - 1])
    }
}

/// The thread's participants: the From, To and Cc mailboxes of its nodes in
/// node order, each name-and-address pair once.
pub open spec fn participants_spec(ns: Seq<ThreadNodeDto>) -> Seq<AddrV> {
    let all = all_addrs(ns, ns.len() as int);
    first_keyed(all, all.len() as int)
}

fn key_chars(a: &AddressDto) -> (r: Vec<char>)
    ensures
        r@ == addr_key(addr_v(*a)),
{
    let mut k: Vec<char> = Vec::new();
    match &a.name {
        Some(n) => push_str(&mut k, n.as_str()),
        None => {},
    }
    k.push('\0');
    match &a.email {
        Some(e) => push_str(&mut k, e.as_str()),
        None => {},
    }
    k
}

fn flatten_addrs(ns: &Vec<ThreadNodeDto>) -> (r: Vec<AddressDto>)
    ensures
        addrs_v(r@) == all_addrs(ns@, ns@.len() as int),
{
    let mut out: Vec<AddressDto> = Vec::new();
    let mut i: usize = 0;
    while i < ns.len()
        invariant
            i <= ns@.len(),
            addrs_v(out@) == all_addrs(ns@, i as int),
        decreases ns.len() - i,
    {
        let f = &ns[i].message.message;
        let ghost before = addrs_v(out@);
        let mut part: usize = 0;
        while part < 3
            invariant
                part <= 3,
                f == ns@[i as int].message.message,
                addrs_v(out@) == before + (if part == 0 {
                    Seq::<AddrV>::empty()
                } else if part == 1 {
                    addrs_v(f.from@)
                } else if part == 2 {
                    addrs_v(f.from@) + addrs_v(f.to@)
                } else {
                    addrs_v(f.from@) + addrs_v(f.to@) + addrs_v(f.cc@)
                }),
            decreases 3 - part,
        {
            let list = if part == 0 {
                &f.from
            } else if part == 1 {
                &f.to
            } else {
                &f.cc
            };
            let ghost mid = addrs_v(out@);
            let mut j: usize = 0;
            while j < list.len()
                invariant
                    j <= list@.len(),
                    addrs_v(out@) == mid + addrs_v(list@).take(j as int),
                decreases list.len() - j,
            {
                let ghost o1 = addrs_v(out@);
                out.push(copy_address(&list[j]));
                assert(addrs_v(out@) =~= o1.push(addr_v(list@[j as int])));
                assert(addrs_v(list@).take(j + 1) =~= addrs_v(list@).take(j as int).push(
                    addr_v(list@[j as int]),
                ));
                j += 1;
            }
            assert(addrs_v(list@).take(list@.len() as int) =~= addrs_v(list@));
            proof {
                if part == 0 {
                    assert(Seq::<AddrV>::empty() + addrs_v(f.from@) =~= addrs_v(f.from@));
                }
                assert(mid + addrs_v(list@) =~= before + (if part == 0 {
                    addrs_v(f.from@)
                } else if part == 1 {
                    addrs_v(f.from@) + addrs_v(f.to@)
                } else {
                    addrs_v(f.from@) + addrs_v(f.to@) + addrs_v(f.cc@)
                }));
            }
            part += 1;
        }
        assert(all_addrs(ns@, i + 1) == all_addrs(ns@, i as int) + node_addrs(ns@[i as int]));
        i += 1;
    }
    out
}

/// The thread's participants.
pub fn collect_participants(ns: &Vec<ThreadNodeDto>) -> (r: Vec<AddressDto>)
    ensures
        addrs_v(r@) == participants_spec(ns@),
{
    let all = flatten_addrs(ns);
    let ghost av = addrs_v(all@);
    let mut keys: Vec<Vec<char>> = Vec::new();
    let mut out: Vec<AddressDto> = Vec::new();
    let mut i: usize = 0;
    while i < all.len()
        invariant
            av == addrs_v(all@),
            i <= all@.len(),
            keys@.len() == i,
            forall|k: int| 0 <= k < i ==> (#[trigger] keys@[k])@ == addr_key(av[k]),
            addrs_v(out@) == first_keyed(av, i as int),
        decreases all.len() - i,
    {
        let k = key_chars(&all[i]);
        let mut seen = false;
        let mut j: usize = 0;
        while j < i
            invariant
                j <= i < all@.len(),
                keys@.len() == i,
                av == addrs_v(all@),
                forall|q: int| 0 <= q < i ==> (#[trigger] keys@[q])@ == addr_key(av[q]),
                k@ == addr_key(av[i as int]),
                seen == exists|q: int| 0 <= q < j && #[trigger] addr_key(av[q]) == addr_key(av[i as int]),
            decreases i - j,
        {
            if crate::order::vec_eq(&keys[j], &k) {
                seen = true;
            }
            j += 1;
        }
        if !seen {
            let ghost o1 = addrs_v(out@);
            out.push(copy_address(&all[i]));
            assert(addrs_v(out@) =~= o1.push(av[i as int]));
        }
        keys.push(k);
        i += 1;
    }
    out
}

/// Message-IDs of the thread's messages whose id occurs more than once
/// among all supplied messages.
pub open spec fn dup_ids_in(cm: Seq<MessageDto>, dp: Seq<bool>, x: Seq<char>) -> bool {
    exists|t: int| 0 <= t < cm.len() && dp[t] && #[trigger] has_id(cm[t], x)
}

/// The missing parents of the thread's messages.
pub open spec fn missing_in(cm: Seq<MessageDto>, dp: Seq<bool>, x: Seq<char>) -> bool {
    exists|t: int| 0 <= t < cm.len() && #[trigger] missing_spec(cm, dp, t) == Some(x)
}

/// Duplicated Message-IDs of the thread, sorted, each once.
pub fn duplicate_ids_of(cm: &Vec<MessageDto>, dp: &Vec<bool>) -> (r: Vec<String>)
    requires
        dp@.len() == cm@.len(),
    ensures
        texts_strict(texts(r@)),
        forall|x: Seq<char>| #[trigger] texts(r@).contains(x) <==> dup_ids_in(cm@, dp@, x),
{
    let mut ids: Vec<String> = Vec::new();
    let mut t: usize = 0;
    while t < cm.len()
        invariant
            dp@.len() == cm@.len(),
            t <= cm@.len(),
            forall|x: Seq<char>|
                #[trigger] texts(ids@).contains(x) <==> exists|u: int|
                    0 <= u < t && dp@[u] && #[trigger] has_id(cm@[u], x),
        decreases cm.len() - t,
    {
        if dp[t] {
            match &cm[t].message.message_id {
                Some(x) => {
                    let ghost before = texts(ids@);
                    ids.push(x.clone());
                    proof {
                        assert(texts(ids@) =~= before.push(x@));
                        assert forall|y: Seq<char>| #[trigger] texts(ids@).contains(y) <==> exists|u: int|
                            0 <= u < t + 1 && dp@[u] && #[trigger] has_id(cm@[u], y) by {
                            if texts(ids@).contains(y) {
                                let a = choose|a: int| 0 <= a < texts(ids@).len() && #[trigger] texts(ids@)[a] == y;
                                if a < before.len() {
                                    assert(before[a] == y);
                                    assert(before.contains(y));
                                } else {
                                    assert(has_id(cm@[t as int], y));
                                }
                            }
                            if exists|u: int| 0 <= u < t + 1 && dp@[u] && #[trigger] has_id(cm@[u], y) {
                                let u = choose|u: int| 0 <= u < t + 1 && dp@[u] && #[trigger] has_id(cm@[u], y);
                                if u < t {
                                    assert(before.contains(y));
                                    let a = choose|a: int| 0 <= a < before.len() && #[trigger] before[a] == y;
                                    assert(texts(ids@)[a] == y);
                                } else {
                                    assert(texts(ids@)[before.len() as int] == y);
                                }
                            }
                        }
                    }
                },
                None => {
                    assert forall|y: Seq<char>| #[trigger] texts(ids@).contains(y) <==> exists|u: int|
                        0 <= u < t + 1 && dp@[u] && #[trigger] has_id(cm@[u], y) by {
                        if exists|u: int| 0 <= u < t + 1 && dp@[u] && #[trigger] has_id(cm@[u], y) {
                            let u = choose|u: int| 0 <= u < t + 1 && dp@[u] && #[trigger] has_id(cm@[u], y);
                            assert(u < t);
                        }
                    }
                },
            }
        }
        t += 1;
    }
    sorted_unique(ids)
}

/// Missing parents of the thread, sorted, each once.
pub fn missing_ids_of(cm: &Vec<MessageDto>, dp: &Vec<bool>, missing: &Vec<Option<String>>) -> (r: Vec<String>)
    requires
        dp@.len() == cm@.len(),
        missing@.len() == cm@.len(),
        forall|t: int| 0 <= t < cm@.len() ==> opt_string(#[trigger] missing@[t]) == missing_spec(cm@, dp@, t),
    ensures
        texts_strict(texts(r@)),
        forall|x: Seq<char>| #[trigger] texts(r@).contains(x) <==> missing_in(cm@, dp@, x),
{
    let mut ids: Vec<String> = Vec::new();
    let mut t: usize = 0;
    while t < missing.len()
        invariant
            dp@.len() == cm@.len(),
            missing@.len() == cm@.len(),
            forall|u: int| 0 <= u < cm@.len() ==> opt_string(#[trigger] missing@[u]) == missing_spec(cm@, dp@, u),
            t <= cm@.len(),
            forall|x: Seq<char>|
                #[trigger] texts(ids@).contains(x) <==> exists|u: int|
                    0 <= u < t && #[trigger] missing_spec(cm@, dp@, u) == Some(x),
        decreases missing.len() - t,
    {
        match &missing[t] {
            Some(x) => {
                let ghost before = texts(ids@);
                ids.push(x.clone());
                proof {
                    assert(texts(ids@) =~= before.push(x@));
                    assert forall|y: Seq<char>| #[trigger] texts(ids@).contains(y) <==> exists|u: int|
                        0 <= u < t + 1 && #[trigger] missing_spec(cm@, dp@, u) == Some(y) by {
                        if texts(ids@).contains(y) {
                            let a = choose|a: int| 0 <= a < texts(ids@).len() && #[trigger] texts(ids@)[a] == y;
                            if a < before.len() {
                                assert(before[a] == y);
                                assert(before.contains(y));
                            } else {
                                assert(missing_spec(cm@, dp@, t as int) == Some(y));
                            }
                        }
                        if exists|u: int| 0 <= u < t + 1 && #[trigger] missing_spec(cm@, dp@, u) == Some(y) {
                            let u = choose|u: int| 0 <= u < t + 1 && #[trigger] missing_spec(cm@, dp@, u) == Some(y);
                            if u < t {
                                assert(before.contains(y));
                                let a = choose|a: int| 0 <= a < before.len() && #[trigger] before[a] == y;
                                assert(texts(ids@)[a] == y);
                            } else {
                                assert(texts(ids@)[before.len() as int] == y);
                            }
                        }
                    }
                }
            },
            None => {
                assert forall|y: Seq<char>| #[trigger] texts(ids@).contains(y) <==> exists|u: int|
                    0 <= u < t + 1 && #[trigger] missing_spec(cm@, dp@, u) == Some(y) by {
                    if exists|u: int| 0 <= u < t + 1 && #[trigger] missing_spec(cm@, dp@, u) == Some(y) {
                        let u = choose|u: int| 0 <= u < t + 1 && #[trigger] missing_spec(cm@, dp@, u) == Some(y);
                        assert(u < t);
                    }
                }
            },
        }
        t += 1;
    }
    sorted_unique(ids)
}

} // verus!

verus! {

/// One line of the thread-id seed: `{node_id}:{message_id or source sha256}`.
pub open spec fn seed_line(n: ThreadNodeDto) -> Seq<char> {
    n.node_id@ + ":"@ + match opt_string(n.message_id) {
        Some(x) => x,
        None => n.message.source.sha256@,
    }
}

/// Lines joined by newlines.
pub open spec fn join_lines(l: Seq<Seq<char>>) -> Seq<char>
    decreases l.len(),
{
    if l.len() == 0 {
        Seq::empty()
    } else if l.len() == 1 {
        l[0]
    } else {
        join_lines(l.drop_last()) + seq!['\n'] + l.last()
    }
}

/// `thr_` and the short hash of the seed lines of the nodes.
pub open spec fn thread_id_spec(ns: Seq<ThreadNodeDto>) -> Seq<char> {
    "thr_"@ + short_sha256_spec(encode_utf8(join_lines(ns.map_values(|n: ThreadNodeDto| seed_line(n)))))
}

/// The thread id, a hash of the nodes' ids in order.
pub fn thread_id_for_nodes(ns: &Vec<ThreadNodeDto>) -> (r: String)
    ensures
        r@ == thread_id_spec(ns@),
{
    let ghost lines = ns@.map_values(|n: ThreadNodeDto| seed_line(n));
    let mut seed: Vec<char> = Vec::new();
    let mut i: usize = 0;
    while i < ns.len()
        invariant
            i <= ns@.len(),
            lines == ns@.map_values(|n: ThreadNodeDto| seed_line(n)),
            seed@ == join_lines(lines.take(i as int)),
        decreases ns.len() - i,
    {
        assert(lines.take(i + 1).drop_last() =~= lines.take(i as int));
        if i > 0 {
            seed.push('\n');
        } else {
            assert(lines.take(1) =~= seq![lines[0]]);
        }
        let n = &ns[i];
        push_str(&mut seed, n.node_id.as_str());
        push_str(&mut seed, ":");
        match &n.message_id {
            Some(x) => push_str(&mut seed, x.as_str()),
            None => push_str(&mut seed, n.message.source.sha256.as_str()),
        }
        proof {
            assert(lines[i as int] == seed_line(ns@[i as int]));
            assert(lines.take(i + 1).last() == lines[i as int]);
        }
        assert(seed@ =~= join_lines(lines.take(i + 1)));
        i += 1;
    }
    assert(lines.take(ns@.len() as int) =~= lines);
    let text = string_of(seed.as_slice());
    let short = short_sha256(text.as_str().as_bytes());
    let mut out: Vec<char> = Vec::new();
    push_str(&mut out, "thr_");
    push_all(&mut out, short.as_slice());
    string_of(out.as_slice())
}

/// The warning for parents referenced but not supplied.
pub open spec fn is_missing_parent_diag(d: DiagnosticDto) -> bool {
    diag_is(
        d,
        "MISSING_THREAD_PARENT"@,
        "warning"@,
        "One or more parent Message-ID values were referenced but not supplied."@,
        Some("$.threads[].missing_parent_message_ids"@),
        None,
    )
}

/// The warning for duplicate Message-IDs within a thread.
pub open spec fn is_thread_dup_diag(d: DiagnosticDto) -> bool {
    diag_is(
        d,
        "DUPLICATE_MESSAGE_ID"@,
        "warning"@,
        "This thread contains duplicate Message-ID values."@,
        Some("$.threads[].duplicate_message_ids"@),
        None,
    )
}

/// A thread's diagnostics: the missing-parent warning when `missing`, then
/// the duplicate-id warning when `dup`.
pub open spec fn thread_diags_are(ds: Seq<DiagnosticDto>, missing: bool, dup: bool) -> bool {
    &&& ds.len() == (if missing {
        1int
    } else {
        0int
    }) + (if dup {
        1int
    } else {
        0int
    })
    &&& missing ==> is_missing_parent_diag(ds[0])
    &&& dup ==> is_thread_dup_diag(ds[ds.len() - 1])
}

/// `th` is the thread built from the messages `cm` of one thread group, with
/// `dp` marking those whose Message-ID is duplicated among all supplied
/// messages and `ul` those that link to no supplied message.
pub open spec fn thread_is(th: ThreadDto, cm: Seq<MessageDto>, dp: Seq<bool>, ul: Seq<bool>) -> bool {
    let ns = th.nodes@;
    &&& exists|perm: Seq<usize>|
        is_perm(perm, cm.len()) && stably_sorted(node_keys(cm, dp), perm) && ns.len() == perm.len()
            && forall|a: int| 0 <= a < ns.len() ==> node_is(#[trigger] ns[a], cm, dp, ul, perm[a] as int)
    &&& texts(th.timeline@) == node_ids_of(ns)
    &&& opt_string(th.root_message_id) == root_id_spec(ns)
    &&& opt_string(th.base_subject) == first_subject(ns, ns.len() as int)
    &&& addrs_v(th.participants@) == participants_spec(ns)
    &&& opt_string(th.time_range.start) == picked_date(ns, true)
    &&& opt_string(th.time_range.end) == picked_date(ns, false)
    &&& texts_strict(texts(th.missing_parent_message_ids@))
    &&& forall|x: Seq<char>|
        #[trigger] texts(th.missing_parent_message_ids@).contains(x) <==> missing_in(cm, dp, x)
    &&& texts_strict(texts(th.duplicate_message_ids@))
    &&& forall|x: Seq<char>| #[trigger] texts(th.duplicate_message_ids@).contains(x) <==> dup_ids_in(cm, dp, x)
    &&& thread_diags_are(
        th.diagnostics@,
        th.missing_parent_message_ids@.len() > 0,
        th.duplicate_message_ids@.len() > 0,
    )
    &&& th.thread_id@ == thread_id_spec(ns)
}

/// Builds the thread of one group of messages.
pub fn build_thread(cm: Vec<MessageDto>, dp: &Vec<bool>, ul: &Vec<bool>) -> (r: ThreadDto)
    requires
        dp@.len() == cm@.len(),
        ul@.len() == cm@.len(),
    ensures
        thread_is(r, cm@, dp@, ul@),
{
    let ghost c0 = cm@;
    let (parents, missing) = resolve_all(&cm, dp);
    let missing_ids = missing_ids_of(&cm, dp, &missing);
    let dup_ids = duplicate_ids_of(&cm, dp);
    let nodes = build_nodes(cm, dp, ul, &parents);
    let timeline = timeline_of(&nodes);
    let root_message_id = root_id_of(&nodes);
    let base_subject = base_subject_of_nodes(&nodes);
    let participants = collect_participants(&nodes);
    let start = thread_date_bound(&nodes, true);
    let end = thread_date_bound(&nodes, false);
    let mut diagnostics: Vec<DiagnosticDto> = Vec::new();
    if missing_ids.len() > 0 {
        diagnostics.push(
            DiagnosticDto::warning(
                "MISSING_THREAD_PARENT",
                "One or more parent Message-ID values were referenced but not supplied.",
                Some("$.threads[].missing_parent_message_ids"),
                None,
            ),
        );
    }
    if dup_ids.len() > 0 {
        diagnostics.push(
            DiagnosticDto::warning(
                "DUPLICATE_MESSAGE_ID",
                "This thread contains duplicate Message-ID values.",
                Some("$.threads[].duplicate_message_ids"),
                None,
            ),
        );
    }
    let thread_id = thread_id_for_nodes(&nodes);
    ThreadDto {
        thread_id,
        root_message_id,
        base_subject,
        participants,
        time_range: TimeRangeDto { start, end },
        nodes,
        timeline,
        missing_parent_message_ids: missing_ids,
        duplicate_message_ids: dup_ids,
        diagnostics,
    }
}

} // verus!

verus! {

proof fn lemma_last_node_is(cm: Seq<MessageDto>, x: Seq<char>, n: int)
    requires
        0 <= n <= cm.len(),
        last_node(cm, x, n) is Some,
    ensures
        0 <= last_node(cm, x, n)->0 < n,
        cm[last_node(cm, x, n)->0].message.node_id@ == x,
    decreases n,
{
    if cm[n - 1].message.node_id@ != x {
        lemma_last_node_is(cm, x, n - 1);
    }
}

/// The walk up from `p` (stopping as `depth_walk` does) meets the node id `x`.
pub open spec fn walk_reaches(
    cm: Seq<MessageDto>,
    dp: Seq<bool>,
    p: Option<Seq<char>>,
    seen: Seq<Seq<char>>,
    fuel: nat,
    x: Seq<char>,
) -> bool
    decreases fuel,
{
    match p {
        None => false,
        Some(pid) => if fuel == 0 || seen.contains(pid) {
            false
        } else if pid == x {
            true
        } else {
            match last_node(cm, pid, cm.len() as int) {
                None => false,
                Some(i) => walk_reaches(cm, dp, parent_spec(cm, dp, i), seen.push(pid), (fuel - 1) as nat, x),
            }
        },
    }
}

proof fn lemma_push_contains(s: Seq<Seq<char>>, v: Seq<char>, y: Seq<char>)
    ensures
        s.push(v).contains(y) <==> (s.contains(y) || y == v),
{
    let t = s.push(v);
    if s.contains(y) {
        let k = choose|k: int| 0 <= k < s.len() && s[k] == y;
        assert(t[k] == y);
    }
    if y == v {
        assert(t[s.len() as int] == v);
    }
    if t.contains(y) {
        let k = choose|k: int| 0 <= k < t.len() && t[k] == y;
        if k < s.len() {
            assert(s[k] == y);
        }
    }
}

proof fn lemma_walk_seen_extra(
    cm: Seq<MessageDto>,
    dp: Seq<bool>,
    p: Option<Seq<char>>,
    s: Seq<Seq<char>>,
    s2: Seq<Seq<char>>,
    fuel: nat,
    x: Seq<char>,
)
    requires
        !walk_reaches(cm, dp, p, s, fuel, x),
        forall|y: Seq<char>| #[trigger] s2.contains(y) <==> (s.contains(y) || y == x),
    ensures
        depth_walk(cm, dp, p, s2, fuel) == depth_walk(cm, dp, p, s, fuel),
    decreases fuel,
{
    if let Some(pid) = p {
        if fuel > 0 && !s.contains(pid) {
            assert(pid != x);
            assert(!s2.contains(pid));
            if let Some(i) = last_node(cm, pid, cm.len() as int) {
                let t = s.push(pid);
                let t2 = s2.push(pid);
                assert forall|y: Seq<char>| #[trigger] t2.contains(y) <==> (t.contains(y) || y == x) by {
                    lemma_push_contains(s2, pid, y);
                    lemma_push_contains(s, pid, y);
                }
                lemma_walk_seen_extra(cm, dp, parent_spec(cm, dp, i), t, t2, (fuel - 1) as nat, x);
            }
        }
    }
}

proof fn lemma_walk_fuel_step(cm: Seq<MessageDto>, dp: Seq<bool>, p: Option<Seq<char>>, seen: Seq<Seq<char>>, fuel: nat)
    requires
        seen.no_duplicates(),
        seen.to_set().subset_of(nids(cm).to_set()),
        fuel + seen.len() >= nids(cm).to_set().len(),
    ensures
        depth_walk(cm, dp, p, seen, fuel) == depth_walk(cm, dp, p, seen, fuel + 1),
    decreases fuel,
{
    if let Some(pid) = p {
        if !seen.contains(pid) {
            if let Some(i) = last_node(cm, pid, cm.len() as int) {
                lemma_last_node_is(cm, pid, cm.len() as int);
                let u = nids(cm).to_set();
                assert(nids(cm)[i] == pid);
                assert(u.contains(pid));
                if fuel == 0 {
                    seen.unique_seq_to_set();
                    vstd::set_lib::lemma_len_subset(seen.to_set(), u);
                    vstd::set_lib::lemma_subset_equality(seen.to_set(), u);
                    assert(seen.to_set().contains(pid));
                    assert(false);
                } else {
                    let t = seen.push(pid);
                    assert(t.no_duplicates()) by {
                        assert forall|a: int, b: int| 0 <= a < t.len() && 0 <= b < t.len() && a != b implies t[a]
                            != t[b] by {
                            if b == seen.len() {
                                assert(t[a] == seen[a]);
                                assert(seen[a] != pid);
                            } else if a == seen.len() {
                                assert(t[b] == seen[b]);
                                assert(seen[b] != pid);
                            } else {
                                assert(t[a] == seen[a] && t[b] == seen[b]);
                            }
                        }
                    }
                    assert forall|y: Seq<char>| t.to_set().contains(y) implies u.contains(y) by {
                        if y != pid {
                            let k = choose|k: int| 0 <= k < t.len() && t[k] == y;
                            assert(seen[k] == y);
                            assert(seen.to_set().contains(y));
                        }
                    }
                    lemma_walk_fuel_step(cm, dp, parent_spec(cm, dp, i), t, (fuel - 1) as nat);
                }
            }
        }
    }
}

/// The walk that gives a node's depth never runs out of steps: with as many
/// steps as the thread has messages it stops where an unbounded walk stops,
/// so any further allowance changes nothing.
pub proof fn lemma_depth_walk_fuel_suffices(
    cm: Seq<MessageDto>,
    dp: Seq<bool>,
    p: Option<Seq<char>>,
    extra: nat,
)
    ensures
        depth_walk(cm, dp, p, Seq::empty(), cm.len()) == depth_walk(cm, dp, p, Seq::empty(), cm.len() + extra),
    decreases extra,
{
    if extra > 0 {
        lemma_depth_walk_fuel_suffices(cm, dp, p, (extra - 1) as nat);
        let e: Seq<Seq<char>> = Seq::empty();
        assert(e.to_set() =~= Set::empty());
        nids(cm).lemma_cardinality_of_set();
        lemma_walk_fuel_step(cm, dp, p, e, (cm.len() + extra - 1) as nat);
    }
}

/// A message whose parent is node `u`, where `u` is not its own ancestor,
/// sits one level deeper than `u`.
pub proof fn lemma_child_one_deeper(cm: Seq<MessageDto>, dp: Seq<bool>, t: int, u: int)
    requires
        0 <= t < cm.len(),
        0 <= u < cm.len(),
        parent_spec(cm, dp, t) == Some(cm[u].message.node_id@),
        last_node(cm, cm[u].message.node_id@, cm.len() as int) == Some(u),
        !walk_reaches(cm, dp, parent_spec(cm, dp, u), Seq::empty(), cm.len(), cm[u].message.node_id@),
    ensures
        depth_spec(cm, dp, t) == depth_spec(cm, dp, u) + 1,
{
    let pid = cm[u].message.node_id@;
    let e: Seq<Seq<char>> = Seq::empty();
    let one = e.push(pid);
    assert(!e.contains(pid));
    assert(depth_spec(cm, dp, t) == 1 + depth_walk(cm, dp, parent_spec(cm, dp, u), one, (cm.len() - 1) as nat));
    assert(one.no_duplicates());
    assert(nids(cm)[u] == pid);
    assert forall|y: Seq<char>| one.to_set().contains(y) implies nids(cm).to_set().contains(y) by {
        assert(one[0] == pid);
    }
    nids(cm).lemma_cardinality_of_set();
    lemma_walk_fuel_step(cm, dp, parent_spec(cm, dp, u), one, (cm.len() - 1) as nat);
    assert forall|y: Seq<char>| #[trigger] one.contains(y) <==> (e.contains(y) || y == pid) by {
        if one.contains(y) {
            let k = choose|k: int| 0 <= k < one.len() && one[k] == y;
        }
        if y == pid {
            assert(one[0] == y);
        }
    }
    lemma_walk_seen_extra(cm, dp, parent_spec(cm, dp, u), e, one, cm.len(), pid);
}

/// The nodes of a thread are listed by depth: a node never comes after a
/// deeper one.
pub proof fn lemma_nodes_by_depth(th: ThreadDto, cm: Seq<MessageDto>, dp: Seq<bool>, ul: Seq<bool>, a: int, b: int)
    requires
        thread_is(th, cm, dp, ul),
        0 <= a < b < th.nodes@.len(),
    ensures
        th.nodes@[a].depth <= th.nodes@[b].depth,
{
    let ns = th.nodes@;
    let perm = choose|perm: Seq<usize>|
        is_perm(perm, cm.len()) && stably_sorted(node_keys(cm, dp), perm) && ns.len() == perm.len()
            && forall|k: int| 0 <= k < ns.len() ==> node_is(#[trigger] ns[k], cm, dp, ul, perm[k] as int);
    assert(node_is(ns[a], cm, dp, ul, perm[a] as int));
    assert(node_is(ns[b], cm, dp, ul, perm[b] as int));
    assert(crate::order::pair_lt(node_keys(cm, dp), perm[a] as int, perm[b] as int));
}

/// In a thread, the node of a message's parent comes before the message's
/// own node, unless the parent is its own ancestor.
pub proof fn lemma_parent_node_first(
    th: ThreadDto,
    cm: Seq<MessageDto>,
    dp: Seq<bool>,
    ul: Seq<bool>,
    t: int,
    u: int,
    a: int,
    b: int,
)
    requires
        thread_is(th, cm, dp, ul),
        0 <= t < cm.len(),
        0 <= u < cm.len(),
        parent_spec(cm, dp, t) == Some(cm[u].message.node_id@),
        last_node(cm, cm[u].message.node_id@, cm.len() as int) == Some(u),
        !walk_reaches(cm, dp, parent_spec(cm, dp, u), Seq::empty(), cm.len(), cm[u].message.node_id@),
        0 <= a < th.nodes@.len(),
        0 <= b < th.nodes@.len(),
        node_is(th.nodes@[a], cm, dp, ul, u),
        node_is(th.nodes@[b], cm, dp, ul, t),
    ensures
        a < b,
{
    lemma_child_one_deeper(cm, dp, t, u);
    if b < a {
        lemma_nodes_by_depth(th, cm, dp, ul, b, a);
    }
}

} // verus!

verus! {

/// A message's parent is the message its `In-Reply-To` names by a unique
/// Message-ID; when that names none, the message its last `References` entry
/// names; otherwise it has none.
pub proof fn lemma_parent_falls_back_to_references(cm: Seq<MessageDto>, dp: Seq<bool>, t: int)
    requires
        0 <= t < cm.len(),
    ensures
        ({
            let m = cm[t];
            let irt = opt_string(m.message.in_reply_to);
            let refs = m.message.references@;
            let by_irt = match irt {
                Some(x) => last_holder(cm, dp, x, cm.len() as int),
                None => None,
            };
            let by_ref = if refs.len() > 0 {
                last_holder(cm, dp, refs.last()@, cm.len() as int)
            } else {
                None
            };
            &&& by_irt matches Some(i) ==> parent_spec(cm, dp, t) == Some(cm[i].message.node_id@)
            &&& by_irt is None ==> (by_ref matches Some(i) ==> parent_spec(cm, dp, t) == Some(
                cm[i].message.node_id@,
            ))
            &&& by_irt is None && by_ref is None ==> parent_spec(cm, dp, t) is None
        }),
{
    reveal_with_fuel(first_resolved, 3);
}

} // verus!

verus! {

proof fn lemma_first_keyed_covers(s: Seq<AddrV>, n: int, j: int)
    requires
        0 <= j < n <= s.len(),
    ensures
        exists|i: int|
            0 <= i < first_keyed(s, n).len() && addr_key(#[trigger] first_keyed(s, n)[i]) == addr_key(s[j]),
    decreases n,
{
    let f = first_keyed(s, n);
    if j < n - 1 {
        lemma_first_keyed_covers(s, n - 1, j);
        let i = choose|i: int|
            0 <= i < first_keyed(s, n - 1).len() && addr_key(#[trigger] first_keyed(s, n - 1)[i]) == addr_key(
                s[j],
            );
        if exists|jj: int| 0 <= jj < n - 1 && #[trigger] addr_key(s[jj]) == addr_key(s[n - 1]) {
            assert(f[i] == first_keyed(s, n - 1)[i]);
        } else {
            assert(f[i] == first_keyed(s, n - 1)[i]);
        }
    } else {
        if exists|jj: int| 0 <= jj < n - 1 && #[trigger] addr_key(s[jj]) == addr_key(s[n - 1]) {
            let jj = choose|jj: int| 0 <= jj < n - 1 && #[trigger] addr_key(s[jj]) == addr_key(s[n - 1]);
            lemma_first_keyed_covers(s, n - 1, jj);
            let i = choose|i: int|
                0 <= i < first_keyed(s, n - 1).len() && addr_key(#[trigger] first_keyed(s, n - 1)[i])
                    == addr_key(s[jj]);
            assert(f[i] == first_keyed(s, n - 1)[i]);
        } else {
            assert(f[f.len() - 1] == s[n - 1]);
        }
    }
}

proof fn lemma_all_addrs_holds(ns: Seq<ThreadNodeDto>, a: int, k: int)
    requires
        0 <= a < k <= ns.len(),
    ensures
        all_addrs(ns, k).len() >= all_addrs(ns, a).len() + node_addrs(ns[a]).len(),
        forall|j: int|
            0 <= j < node_addrs(ns[a]).len() ==> #[trigger] all_addrs(ns, k)[all_addrs(ns, a).len() + j]
                == node_addrs(ns[a])[j],
    decreases k,
{
    if k > a + 1 {
        lemma_all_addrs_holds(ns, a, k - 1);
        assert forall|j: int| 0 <= j < node_addrs(ns[a]).len() implies #[trigger] all_addrs(ns, k)[all_addrs(
            ns,
            a,
        ).len() + j] == node_addrs(ns[a])[j] by {
            assert(all_addrs(ns, k) == all_addrs(ns, k - 1) + node_addrs(ns[k - 1]));
        }
    } else {
        assert(all_addrs(ns, k) == all_addrs(ns, a) + node_addrs(ns[a]));
    }
}

proof fn lemma_node_mailbox_participates(th: ThreadDto, a: int, j: int)
    requires
        addrs_v(th.participants@) == participants_spec(th.nodes@),
        0 <= a < th.nodes@.len(),
        0 <= j < node_addrs(th.nodes@[a]).len(),
    ensures
        exists|p: int|
            0 <= p < th.participants@.len() && addr_key(addr_v(#[trigger] th.participants@[p])) == addr_key(
                node_addrs(th.nodes@[a])[j],
            ),
{
    let ns = th.nodes@;
    let all = all_addrs(ns, ns.len() as int);
    lemma_all_addrs_holds(ns, a, ns.len() as int);
    let at = all_addrs(ns, a).len() + j;
    assert(all[at] == node_addrs(ns[a])[j]);
    lemma_first_keyed_covers(all, all.len() as int, at);
    let i = choose|i: int|
        0 <= i < first_keyed(all, all.len() as int).len() && addr_key(
            #[trigger] first_keyed(all, all.len() as int)[i],
        ) == addr_key(all[at]);
    assert(addrs_v(th.participants@)[i] == addr_v(th.participants@[i]));
}

/// Some participant of `th` has the name and address of mailbox `x`.
pub open spec fn participates(th: ThreadDto, x: AddrV) -> bool {
    exists|p: int| 0 <= p < th.participants@.len() && addr_key(addr_v(#[trigger] th.participants@[p])) == addr_key(x)
}

/// Every mailbox in the From, To or Cc list of any node of a thread is among
/// the thread's participants: some participant has its name and address.
pub proof fn lemma_participants_cover_nodes(th: ThreadDto, cm: Seq<MessageDto>, dp: Seq<bool>, ul: Seq<bool>, a: int)
    requires
        thread_is(th, cm, dp, ul),
        0 <= a < th.nodes@.len(),
    ensures
        forall|k: int|
            0 <= k < th.nodes@[a].message.message.from@.len() ==> participates(
                th,
                addr_v(#[trigger] th.nodes@[a].message.message.from@[k]),
            ),
        forall|k: int|
            0 <= k < th.nodes@[a].message.message.to@.len() ==> participates(
                th,
                addr_v(#[trigger] th.nodes@[a].message.message.to@[k]),
            ),
        forall|k: int|
            0 <= k < th.nodes@[a].message.message.cc@.len() ==> participates(
                th,
                addr_v(#[trigger] th.nodes@[a].message.message.cc@[k]),
            ),
{
    let ns = th.nodes@;
    let f = addrs_v(ns[a].message.message.from@);
    let t = addrs_v(ns[a].message.message.to@);
    let c = addrs_v(ns[a].message.message.cc@);
    assert(node_addrs(ns[a]) == f + t + c);
    assert forall|k: int| 0 <= k < ns[a].message.message.from@.len() implies participates(
        th,
        addr_v(#[trigger] ns[a].message.message.from@[k]),
    ) by {
        assert(f[k] == addr_v(ns[a].message.message.from@[k]));
        assert((f + t)[k] == f[k]);
        assert((f + t + c)[k] == (f + t)[k]);
        lemma_node_mailbox_participates(th, a, k);
    }
    assert forall|k: int| 0 <= k < ns[a].message.message.to@.len() implies participates(
        th,
        addr_v(#[trigger] ns[a].message.message.to@[k]),
    ) by {
        assert(t[k] == addr_v(ns[a].message.message.to@[k]));
        assert((f + t)[f.len() + k] == t[k]);
        assert((f + t + c)[f.len() + k] == (f + t)[f.len() + k]);
        lemma_node_mailbox_participates(th, a, f.len() + k);
    }
    assert forall|k: int| 0 <= k < ns[a].message.message.cc@.len() implies participates(
        th,
        addr_v(#[trigger] ns[a].message.message.cc@[k]),
    ) by {
        assert((f + t + c)[f.len() + t.len() + k] == addr_v(ns[a].message.message.cc@[k]));
        lemma_node_mailbox_participates(th, a, f.len() + t.len() + k);
    }
}

} // verus!

verus! {

proof fn lemma_first_keyed_sound(s: Seq<AddrV>, n: int)
    requires
        0 <= n <= s.len(),
    ensures
        forall|i: int|
            #![trigger first_keyed(s, n)[i]]
            0 <= i < first_keyed(s, n).len() ==> exists|j: int| 0 <= j < n && #[trigger] s[j] == first_keyed(s, n)[i],
        forall|i: int, k: int|
            0 <= i < k < first_keyed(s, n).len() ==> addr_key(#[trigger] first_keyed(s, n)[i]) != addr_key(
                #[trigger] first_keyed(s, n)[k],
            ),
    decreases n,
{
    if n > 0 {
        lemma_first_keyed_sound(s, n - 1);
        let p = first_keyed(s, n - 1);
        let f = first_keyed(s, n);
        if !(exists|j: int| 0 <= j < n - 1 && #[trigger] addr_key(s[j]) == addr_key(s[n - 1])) {
            assert(f == p.push(s[n - 1]));
            assert forall|i: int| #![trigger f[i]] 0 <= i < f.len() implies exists|j: int| 0 <= j < n && #[trigger] s[j] == f[i] by {
                if i < p.len() {
                    assert(f[i] == p[i]);
                } else {
                    assert(s[n - 1] == f[i]);
                }
            }
            assert forall|i: int, k: int| 0 <= i < k < f.len() implies addr_key(#[trigger] f[i]) != addr_key(
                #[trigger] f[k],
            ) by {
                if k < p.len() {
                    assert(f[i] == p[i] && f[k] == p[k]);
                } else {
                    assert(f[i] == p[i]);
                    let j = choose|j: int| 0 <= j < n - 1 && #[trigger] s[j] == p[i];
                    assert(addr_key(s[j]) != addr_key(s[n - 1]));
                }
            }
        } else {
            assert forall|i: int| #![trigger f[i]] 0 <= i < f.len() implies exists|j: int| 0 <= j < n && #[trigger] s[j] == f[i] by {
                let j = choose|j: int| 0 <= j < n - 1 && #[trigger] s[j] == p[i];
            }
        }
    }
}

proof fn lemma_all_addrs_from_nodes(ns: Seq<ThreadNodeDto>, k: int, i: int)
    requires
        0 <= k <= ns.len(),
        0 <= i < all_addrs(ns, k).len(),
    ensures
        exists|a: int, j: int|
            0 <= a < k && 0 <= j < node_addrs(ns[a]).len() && #[trigger] node_addrs(ns[a])[j] == all_addrs(ns, k)[i],
    decreases k,
{
    let prev = all_addrs(ns, k - 1);
    assert(all_addrs(ns, k) == prev + node_addrs(ns[k - 1]));
    if i < prev.len() {
        lemma_all_addrs_from_nodes(ns, k - 1, i);
        let (a, j) = choose|a: int, j: int|
            0 <= a < k - 1 && 0 <= j < node_addrs(ns[a]).len() && #[trigger] node_addrs(ns[a])[j] == prev[i];
        assert(node_addrs(ns[a])[j] == all_addrs(ns, k)[i]);
    } else {
        assert(node_addrs(ns[k - 1])[i - prev.len()] == all_addrs(ns, k)[i]);
    }
}

/// Mailbox `x` is in the From, To or Cc list of node `n`.
pub open spec fn node_has_mailbox(n: ThreadNodeDto, x: AddrV) -> bool {
    ||| exists|k: int| 0 <= k < n.message.message.from@.len() && addr_v(#[trigger] n.message.message.from@[k]) == x
    ||| exists|k: int| 0 <= k < n.message.message.to@.len() && addr_v(#[trigger] n.message.message.to@[k]) == x
    ||| exists|k: int| 0 <= k < n.message.message.cc@.len() && addr_v(#[trigger] n.message.message.cc@[k]) == x
}

/// The participants of a thread are mailboxes of its nodes' From, To or Cc
/// lists, no two with the same name and address.
pub proof fn lemma_participants_from_nodes(th: ThreadDto, cm: Seq<MessageDto>, dp: Seq<bool>, ul: Seq<bool>)
    requires
        thread_is(th, cm, dp, ul),
    ensures
        forall|p: int|
            0 <= p < th.participants@.len() ==> exists|a: int|
                0 <= a < th.nodes@.len() && node_has_mailbox(th.nodes@[a], addr_v(#[trigger] th.participants@[p])),
        forall|p: int, q: int|
            0 <= p < q < th.participants@.len() ==> addr_key(addr_v(#[trigger] th.participants@[p])) != addr_key(
                addr_v(#[trigger] th.participants@[q]),
            ),
{
    let ns = th.nodes@;
    let all = all_addrs(ns, ns.len() as int);
    let f = first_keyed(all, all.len() as int);
    lemma_first_keyed_sound(all, all.len() as int);
    assert(addrs_v(th.participants@) == f);
    assert forall|p: int| 0 <= p < th.participants@.len() implies exists|a: int|
        0 <= a < th.nodes@.len() && node_has_mailbox(th.nodes@[a], addr_v(#[trigger] th.participants@[p])) by {
        assert(f[p] == addr_v(th.participants@[p]));
        let j = choose|j: int| 0 <= j < all.len() && #[trigger] all[j] == f[p];
        lemma_all_addrs_from_nodes(ns, ns.len() as int, j);
        let (a, i) = choose|a: int, i: int|
            0 <= a < ns.len() && 0 <= i < node_addrs(ns[a]).len() && #[trigger] node_addrs(ns[a])[i] == all[j];
        let m = ns[a].message.message;
        let fv = addrs_v(m.from@);
        let tv = addrs_v(m.to@);
        let cv = addrs_v(m.cc@);
        assert(node_addrs(ns[a]) == fv + tv + cv);
        if i < fv.len() {
            assert((fv + tv + cv)[i] == fv[i]);
            assert(addr_v(m.from@[i]) == fv[i]);
        } else if i < fv.len() + tv.len() {
            assert((fv + tv + cv)[i] == tv[i - fv.len()]);
            assert(addr_v(m.to@[i - fv.len()]) == tv[i - fv.len()]);
        } else {
            assert((fv + tv + cv)[i] == cv[i - fv.len() - tv.len()]);
            assert(addr_v(m.cc@[i - fv.len() - tv.len()]) == cv[i - fv.len() - tv.len()]);
        }
    }
    assert forall|p: int, q: int| 0 <= p < q < th.participants@.len() implies addr_key(
        addr_v(#[trigger] th.participants@[p]),
    ) != addr_key(addr_v(#[trigger] th.participants@[q])) by {
        assert(f[p] == addr_v(th.participants@[p]));
        assert(f[q] == addr_v(th.participants@[q]));
    }
}

} // verus!
