//! Envelopes: a batch of message records, and the threads reconstructed
//! from a batch.
use vstd::prelude::*;
use crate::dto::{
    diag_is, opt_string, DiagnosticDto, MessageDto, MessagesEnvelopeDto, SourceDto, ThreadDto,
    ThreadEnvelopeDto, SCHEMA_VERSION,
};
use crate::graph::{adj_v, components_of, member};
use crate::order::{is_perm, stable_order, stably_sorted, KeyV, SortKey};
use crate::text::{chars_of, lit, str_eq};
use crate::thread::{
    apply_perm, ensure_unique_node_ids, has_id, lemma_same_length_ids_unsuffixed, lemma_unique_ids_distinct, keys_of, link_matrix, links_to, node_ids, permuted, renamed,
    sort_messages, thread_components, thread_groups, unique_id, unlinked,
};
use crate::threads::{build_thread, thread_is};

verus! {

/// `ms` is `input` with node ids made unique in order.
pub open spec fn uniquely_named(ms: Seq<MessageDto>, input: Seq<MessageDto>) -> bool {
    &&& ms.len() == input.len()
    &&& forall|i: int| 0 <= i < input.len() ==> renamed(#[trigger] ms[i], input[i], unique_id(node_ids(input), i))
}

/// `ms` is `input` sorted by key (stably) and then uniquely named.
pub open spec fn prepared(ms: Seq<MessageDto>, input: Seq<MessageDto>) -> bool {
    exists|s: Seq<MessageDto>, perm: Seq<usize>|
        #![trigger uniquely_named(ms, s), permuted(s, input, perm)]
        is_perm(perm, input.len()) && stably_sorted(keys_of(input), perm) && permuted(s, input, perm)
            && uniquely_named(ms, s)
}

/// The Message-ID of message `i` is also the Message-ID of another message.
pub open spec fn dup_at(ms: Seq<MessageDto>, i: int) -> bool {
    ms[i].message.message_id matches Some(x) && exists|j: int|
        0 <= j < ms.len() && j != i && #[trigger] has_id(ms[j], x@)
}

/// The messages of group `c`, with their duplicate and unlinked flags.
pub open spec fn group_msgs(ms: Seq<MessageDto>, c: Seq<usize>) -> Seq<MessageDto> {
    c.map_values(|i: usize| ms[i as int])
}

/// Duplicate flags of the messages of group `c`.
pub open spec fn group_dups(ms: Seq<MessageDto>, c: Seq<usize>) -> Seq<bool> {
    c.map_values(|i: usize| dup_at(ms, i as int))
}

/// Unlinked flags of the messages of group `c`.
pub open spec fn group_unlinked(ms: Seq<MessageDto>, c: Seq<usize>) -> Seq<bool> {
    c.map_values(|i: usize| unlinked(ms, i as int))
}

/// The envelope-level warning for Message-IDs that occur more than once.
pub open spec fn is_envelope_dup_diag(d: DiagnosticDto) -> bool {
    diag_is(
        d,
        "DUPLICATE_MESSAGE_ID"@,
        "warning"@,
        "One or more Message-ID values occur more than once."@,
        Some("$.threads"@),
        None,
    )
}

/// `env` holds the threads of the messages `ms` (already prepared): their
/// sources in order, one thread per thread group, and a duplicate-id warning
/// exactly when some Message-ID repeats.
pub open spec fn threads_are(env: ThreadEnvelopeDto, ms: Seq<MessageDto>, fallback: bool) -> bool {
    &&& env.schema_version@ == SCHEMA_VERSION@
    &&& env.sources@.len() == ms.len()
    &&& forall|i: int| 0 <= i < ms.len() ==> #[trigger] env.sources@[i] == ms[i].source
    &&& (exists|i: int| 0 <= i < ms.len() && #[trigger] dup_at(ms, i)) ==> env.diagnostics@.len() == 1
        && is_envelope_dup_diag(env.diagnostics@[0])
    &&& !(exists|i: int| 0 <= i < ms.len() && #[trigger] dup_at(ms, i)) ==> env.diagnostics@.len() == 0
    &&& exists|cs: Seq<Seq<usize>>|
        #[trigger] thread_groups(ms, fallback, cs) && env.threads@.len() == cs.len() && forall|k: int|
            0 <= k < cs.len() ==> thread_is(
                #[trigger] env.threads@[k],
                group_msgs(ms, cs[k]),
                group_dups(ms, cs[k]),
                group_unlinked(ms, cs[k]),
            )
}

fn clone_source(s: &SourceDto) -> (r: SourceDto)
    ensures
        r == *s,
{
    SourceDto { path: s.path.clone(), size_bytes: s.size_bytes, sha256: s.sha256.clone() }
}

fn dup_flags(ms: &Vec<MessageDto>) -> (r: Vec<bool>)
    ensures
        r@.len() == ms@.len(),
        forall|i: int| 0 <= i < ms@.len() ==> #[trigger] r@[i] == dup_at(ms@, i),
{
    let n = ms.len();
    let mut out: Vec<bool> = Vec::new();
    let mut i: usize = 0;
    while i < n
        invariant
            n == ms@.len(),
            i <= n,
            out@.len() == i,
            forall|k: int| 0 <= k < i ==> #[trigger] out@[k] == dup_at(ms@, k),
        decreases n - i,
    {
        let mut d = false;
        match &ms[i].message.message_id {
            Some(x) => {
                let mut j: usize = 0;
                while j < n
                    invariant
                        n == ms@.len(),
                        i < n,
                        ms@[i as int].message.message_id == Some(*x),
                        j <= n,
                        d == exists|q: int| 0 <= q < j && q != i && #[trigger] has_id(ms@[q], x@),
                    decreases n - j,
                {
                    if j != i {
                        let same = match &ms[j].message.message_id {
                            Some(y) => str_eq(y.as_str(), x.as_str()),
                            None => false,
                        };
                        if same {
                            assert(has_id(ms@[j as int], x@));
                            d = true;
                        }
                    }
                    j += 1;
                }
            },
            None => {},
        }
        out.push(d);
        i += 1;
    }
    out
}

fn unlinked_flags(ms: &Vec<MessageDto>) -> (r: Vec<bool>)
    ensures
        r@.len() == ms@.len(),
        forall|i: int| 0 <= i < ms@.len() ==> #[trigger] r@[i] == unlinked(ms@, i),
{
    let links = link_matrix(ms);
    let n = ms.len();
    let mut out: Vec<bool> = Vec::new();
    let mut i: usize = 0;
    while i < n
        invariant
            n == ms@.len(),
            links@.len() == n,
            forall|a: int|
                0 <= a < n ==> (#[trigger] links@[a])@.len() == n && forall|j: int|
                    0 <= j < n ==> links@[a]@[j] == links_to(ms@, a, j),
            i <= n,
            out@.len() == i,
            forall|k: int| 0 <= k < i ==> #[trigger] out@[k] == unlinked(ms@, k),
        decreases n - i,
    {
        let mut none = true;
        let mut j: usize = 0;
        while j < n
            invariant
                n == ms@.len(),
                links@.len() == n,
                i < n,
                links@[i as int]@.len() == n,
                forall|b: int| 0 <= b < n ==> links@[i as int]@[b] == links_to(ms@, i as int, b),
                j <= n,
                none == forall|b: int| 0 <= b < j ==> !#[trigger] links_to(ms@, i as int, b),
            decreases n - j,
        {
            assert(links@[i as int]@[j as int] == links_to(ms@, i as int, j as int));
            if links[i][j] {
                none = false;
            }
            j += 1;
        }
        out.push(none);
        i += 1;
    }
    out
}

/// Threads of already prepared messages.
fn threads_of(ms: Vec<MessageDto>, subject_fallback: bool) -> (r: ThreadEnvelopeDto)
    ensures
        threads_are(r, ms@, subject_fallback),
{
    let ghost m0 = ms@;
    let n = ms.len();
    let mut sources: Vec<SourceDto> = Vec::new();
    let mut i: usize = 0;
    while i < n
        invariant
            n == ms@.len(),
            i <= n,
            sources@.len() == i,
            forall|k: int| 0 <= k < i ==> #[trigger] sources@[k] == ms@[k].source,
        decreases n - i,
    {
        sources.push(clone_source(&ms[i].source));
        i += 1;
    }
    let dp = dup_flags(&ms);
    let ul = unlinked_flags(&ms);
    let mut any_dup = false;
    let mut i: usize = 0;
    while i < n
        invariant
            n == ms@.len(),
            dp@.len() == n,
            forall|k: int| 0 <= k < n ==> #[trigger] dp@[k] == dup_at(ms@, k),
            i <= n,
            any_dup == exists|k: int| 0 <= k < i && #[trigger] dup_at(ms@, k),
        decreases n - i,
    {
        if dp[i] {
            assert(dup_at(ms@, i as int));
            any_dup = true;
        }
        i += 1;
    }
    let mut diagnostics: Vec<DiagnosticDto> = Vec::new();
    if any_dup {
        diagnostics.push(
            DiagnosticDto::warning(
                "DUPLICATE_MESSAGE_ID",
                "One or more Message-ID values occur more than once.",
                Some("$.threads"),
                None,
            ),
        );
    }
    let comps = thread_components(&ms, subject_fallback);
    let ghost cs = adj_v(comps@);
    let mut slots: Vec<Option<MessageDto>> = Vec::new();
    let mut ms = ms;
    let mut rev: Vec<MessageDto> = Vec::new();
    while ms.len() > 0
        invariant
            ms@.len() + rev@.len() == m0.len(),
            forall|k: int| 0 <= k < ms@.len() ==> #[trigger] ms@[k] == m0[k],
            forall|k: int| 0 <= k < rev@.len() ==> #[trigger] rev@[k] == m0[m0.len() - 1 - k],
        decreases ms.len(),
    {
        let x = ms.pop().unwrap();
        rev.push(x);
    }
    while rev.len() > 0
        invariant
            rev@.len() + slots@.len() == m0.len(),
            forall|k: int| 0 <= k < rev@.len() ==> #[trigger] rev@[k] == m0[m0.len() - 1 - k],
            forall|k: int| 0 <= k < slots@.len() ==> #[trigger] slots@[k] == Some(m0[k]),
        decreases rev.len(),
    {
        let x = rev.pop().unwrap();
        slots.push(Some(x));
    }
    let mut threads: Vec<ThreadDto> = Vec::new();
    let mut k: usize = 0;
    while k < comps.len()
        invariant
            n == m0.len(),
            cs == adj_v(comps@),
            thread_groups(m0, subject_fallback, cs),
            dp@.len() == n,
            forall|q: int| 0 <= q < n ==> #[trigger] dp@[q] == dup_at(m0, q),
            ul@.len() == n,
            forall|q: int| 0 <= q < n ==> #[trigger] ul@[q] == unlinked(m0, q),
            slots@.len() == n,
            k <= cs.len(),
            forall|j: int|
                0 <= j < n ==> (#[trigger] slots@[j] == Some(m0[j])) || exists|l: int|
                    0 <= l < k && member(cs[l], j),
            forall|j: int, l: int|
                0 <= j < n && k <= l < cs.len() && #[trigger] member(cs[l], j) ==> slots@[j] == Some(m0[j]),
            threads@.len() == k,
            forall|l: int|
                0 <= l < k ==> thread_is(
                    #[trigger] threads@[l],
                    group_msgs(m0, cs[l]),
                    group_dups(m0, cs[l]),
                    group_unlinked(m0, cs[l]),
                ),
        decreases comps.len() - k,
    {
        let comp = &comps[k];
        assert(comp@ == cs[k as int]);
        assert forall|b: int| 0 <= b < comp@.len() implies #[trigger] slots@[comp@[b] as int] == Some(
            m0[comp@[b] as int],
        ) by {
            assert(cs[k as int][b] == comp@[b]);
            assert(member(cs[k as int], comp@[b] as int));
            assert(comp@[b] < m0.len());
        }
        let mut cm: Vec<MessageDto> = Vec::new();
        let mut cdp: Vec<bool> = Vec::new();
        let mut cul: Vec<bool> = Vec::new();
        let mut a: usize = 0;
        while a < comp.len()
            invariant
                n == m0.len(),
                cs == adj_v(comps@),
                thread_groups(m0, subject_fallback, cs),
                comp@ == cs[k as int],
                k < cs.len(),
                slots@.len() == n,
                dp@.len() == n,
                forall|q: int| 0 <= q < n ==> #[trigger] dp@[q] == dup_at(m0, q),
                ul@.len() == n,
                forall|q: int| 0 <= q < n ==> #[trigger] ul@[q] == unlinked(m0, q),
                a <= comp@.len(),
                cm@.len() == a,
                cdp@.len() == a,
                cul@.len() == a,
                forall|b: int| 0 <= b < a ==> #[trigger] cm@[b] == m0[comp@[b] as int],
                forall|b: int| 0 <= b < a ==> #[trigger] cdp@[b] == dup_at(m0, comp@[b] as int),
                forall|b: int| 0 <= b < a ==> #[trigger] cul@[b] == unlinked(m0, comp@[b] as int),
                forall|b: int| a <= b < comp@.len() ==> #[trigger] slots@[comp@[b] as int] == Some(m0[comp@[b] as int]),
                forall|j: int|
                    0 <= j < n ==> (#[trigger] slots@[j] == Some(m0[j])) || exists|l: int|
                        0 <= l <= k && member(cs[l], j),
                forall|j: int, l: int|
                    0 <= j < n && k < l < cs.len() && #[trigger] member(cs[l], j) ==> slots@[j] == Some(m0[j]),
            decreases comp.len() - a,
        {
            let j = comp[a];
            assert(j < n) by {
                assert(cs[k as int][a as int] < m0.len());
            }
            let mut x: Option<MessageDto> = None;
            assert(slots@[j as int] == Some(m0[j as int]));
            let ghost before = slots@;
            slots.set_and_swap(j, &mut x);
            cm.push(x.unwrap());
            cdp.push(dp[j]);
            cul.push(ul[j]);
            proof {
                assert(member(cs[k as int], j as int)) by {
                    assert(cs[k as int][a as int] == j);
                }
                assert forall|b: int| a + 1 <= b < comp@.len() implies #[trigger] slots@[comp@[b] as int]
                    == Some(m0[comp@[b] as int]) by {
                    assert(comp@[b] != comp@[a as int]);
                }
                assert forall|jj: int, l: int|
                    0 <= jj < n && k < l < cs.len() && #[trigger] member(cs[l], jj) implies slots@[jj] == Some(m0[jj]) by {
                    if jj == j {
                        assert(member(cs[k as int], jj));
                        assert(l == k);
                    }
                }
            }
            a += 1;
        }
        proof {
            assert(cm@ =~= group_msgs(m0, cs[k as int]));
            assert(cdp@ =~= group_dups(m0, cs[k as int]));
            assert(cul@ =~= group_unlinked(m0, cs[k as int]));
        }
        let th = build_thread(cm, &cdp, &cul);
        threads.push(th);
        k += 1;
    }
    ThreadEnvelopeDto {
        schema_version: lit(SCHEMA_VERSION),
        sources,
        threads,
        diagnostics,
    }
}

} // verus!

verus! {

/// Threads reconstructed from the supplied messages: the messages are sorted
/// by date, path and hash, their node ids made unique, grouped into threads
/// by the thread graph, and each group built into a thread.
pub fn build_thread_envelope(messages: Vec<MessageDto>, subject_fallback: bool) -> (r: ThreadEnvelopeDto)
    ensures
        exists|ms: Seq<MessageDto>| #[trigger] prepared(ms, messages@) && threads_are(r, ms, subject_fallback),
{
    let ghost input = messages@;
    let mut sorted = sort_messages(messages);
    let ghost s0 = sorted@;
    ensure_unique_node_ids(&mut sorted);
    proof {
        let perm = choose|perm: Seq<usize>|
            is_perm(perm, input.len()) && stably_sorted(keys_of(input), perm) && permuted(s0, input, perm);
        assert(uniquely_named(sorted@, s0));
        assert(prepared(sorted@, input));
    }
    let ghost ms = sorted@;
    let r = threads_of(sorted, subject_fallback);
    assert(prepared(ms, input) && threads_are(r, ms, subject_fallback));
    r
}

/// A batch of message records with the batch's diagnostics; node ids are
/// made unique in the supplied order.
pub fn build_messages_envelope(messages: Vec<MessageDto>, diagnostics: Vec<DiagnosticDto>) -> (r:
    MessagesEnvelopeDto)
    ensures
        r.schema_version@ == SCHEMA_VERSION@,
        uniquely_named(r.messages@, messages@),
        r.diagnostics == diagnostics,
{
    let mut messages = messages;
    ensure_unique_node_ids(&mut messages);
    MessagesEnvelopeDto { schema_version: lit(SCHEMA_VERSION), messages, diagnostics }
}

} // verus!

verus! {

/// Sort key of a batch diagnostic: those without a location come first, then
/// by location, then by code.
pub open spec fn diag_key(d: DiagnosticDto) -> KeyV {
    KeyV {
        depth: 0,
        missing: d.location is Some,
        ts: 0,
        a: match opt_string(d.location) {
            Some(l) => l,
            None => Seq::empty(),
        },
        b: d.code@,
    }
}

/// Sort keys of a list of diagnostics.
pub open spec fn diag_keys(ds: Seq<DiagnosticDto>) -> Seq<KeyV> {
    ds.map_values(|d: DiagnosticDto| diag_key(d))
}

fn diagnostic_sort_key(d: &DiagnosticDto) -> (r: SortKey)
    ensures
        r@ == diag_key(*d),
{
    match &d.location {
        Some(l) => SortKey { depth: 0, missing: true, ts: 0, a: chars_of(l.as_str()), b: chars_of(d.code.as_str()) },
        None => {
            let a: Vec<char> = Vec::new();
            SortKey { depth: 0, missing: false, ts: 0, a, b: chars_of(d.code.as_str()) }
        },
    }
}

/// The diagnostics of a batch in a stable order: by location (those without
/// one first), then by code; equal ones keep their order.
pub fn sort_diagnostics(ds: Vec<DiagnosticDto>) -> (r: Vec<DiagnosticDto>)
    ensures
        exists|perm: Seq<usize>|
            is_perm(perm, ds@.len()) && stably_sorted(diag_keys(ds@), perm) && permuted(r@, ds@, perm),
{
    let mut keys: Vec<SortKey> = Vec::new();
    let mut i: usize = 0;
    while i < ds.len()
        invariant
            i <= ds@.len(),
            keys@.len() == i,
            forall|k: int| 0 <= k < i ==> (#[trigger] keys@[k])@ == diag_key(ds@[k]),
        decreases ds.len() - i,
    {
        keys.push(diagnostic_sort_key(&ds[i]));
        i += 1;
    }
    let perm = stable_order(&keys);
    assert(keys@.map_values(|k: SortKey| k@) =~= diag_keys(ds@));
    let r = apply_perm(ds, &perm);
    r
}

} // verus!

verus! {

/// In a batch whose supplied node ids all have one length, as those of
/// parsed records do, the node ids made unique are pairwise distinct.
pub proof fn lemma_batch_node_ids_distinct(out: Seq<MessageDto>, input: Seq<MessageDto>, len: nat, i: int, j: int)
    requires
        uniquely_named(out, input),
        forall|k: int| 0 <= k < input.len() ==> (#[trigger] input[k]).message.node_id@.len() == len,
        0 <= i < j < input.len(),
    ensures
        out[i].message.node_id@ != out[j].message.node_id@,
{
    let ids = node_ids(input);
    assert forall|a: int| 0 <= a < ids.len() implies (#[trigger] ids[a]).len() == len by {
        assert(ids[a] == input[a].message.node_id@);
    }
    lemma_same_length_ids_unsuffixed(ids, len);
    lemma_unique_ids_distinct(ids, i, j);
    assert(renamed(out[i], input[i], unique_id(ids, i)));
    assert(renamed(out[j], input[j], unique_id(ids, j)));
}

} // verus!

verus! {

/// The nodes of an envelope's threads are the supplied messages: every
/// node's message is one of them, and every one of them is some node's
/// message.
pub proof fn lemma_thread_nodes_are_supplied(env: ThreadEnvelopeDto, ms: Seq<MessageDto>, fallback: bool)
    requires
        threads_are(env, ms, fallback),
    ensures
        forall|k: int, a: int|
            0 <= k < env.threads@.len() && 0 <= a < env.threads@[k].nodes@.len() ==> exists|i: int|
                0 <= i < ms.len() && #[trigger] env.threads@[k].nodes@[a].message == ms[i],
        forall|i: int|
            0 <= i < ms.len() ==> exists|k: int, a: int|
                0 <= k < env.threads@.len() && 0 <= a < env.threads@[k].nodes@.len()
                    && #[trigger] env.threads@[k].nodes@[a].message == #[trigger] ms[i],
{
    let cs = choose|cs: Seq<Seq<usize>>|
        #[trigger] thread_groups(ms, fallback, cs) && env.threads@.len() == cs.len() && forall|k: int|
            0 <= k < cs.len() ==> thread_is(
                #[trigger] env.threads@[k],
                group_msgs(ms, cs[k]),
                group_dups(ms, cs[k]),
                group_unlinked(ms, cs[k]),
            );
    let g = crate::thread::graph_spec(ms, fallback);
    assert(g.len() == ms.len());
    assert forall|k: int, a: int|
        0 <= k < env.threads@.len() && 0 <= a < env.threads@[k].nodes@.len() implies exists|i: int|
            0 <= i < ms.len() && #[trigger] env.threads@[k].nodes@[a].message == ms[i] by {
        let th = env.threads@[k];
        let cm = group_msgs(ms, cs[k]);
        assert(thread_is(th, cm, group_dups(ms, cs[k]), group_unlinked(ms, cs[k])));
        let perm = choose|perm: Seq<usize>|
            is_perm(perm, cm.len()) && stably_sorted(crate::threads::node_keys(cm, group_dups(ms, cs[k])), perm)
                && th.nodes@.len() == perm.len() && forall|b: int|
                0 <= b < th.nodes@.len() ==> crate::threads::node_is(
                    #[trigger] th.nodes@[b],
                    cm,
                    group_dups(ms, cs[k]),
                    group_unlinked(ms, cs[k]),
                    perm[b] as int,
                );
        assert(crate::threads::node_is(th.nodes@[a], cm, group_dups(ms, cs[k]), group_unlinked(ms, cs[k]), perm[a] as int));
        let i = cs[k][perm[a] as int] as int;
        assert(i < g.len());
        assert(th.nodes@[a].message == ms[i]);
    }
    assert forall|i: int| 0 <= i < ms.len() implies exists|k: int, a: int|
        0 <= k < env.threads@.len() && 0 <= a < env.threads@[k].nodes@.len()
            && #[trigger] env.threads@[k].nodes@[a].message == #[trigger] ms[i] by {
        assert(crate::graph::covered(cs, i));
        let k = choose|k: int| 0 <= k < cs.len() && #[trigger] member(cs[k], i);
        let b = choose|b: int| 0 <= b < cs[k].len() && #[trigger] cs[k][b] as int == i;
        let th = env.threads@[k];
        let cm = group_msgs(ms, cs[k]);
        assert(thread_is(th, cm, group_dups(ms, cs[k]), group_unlinked(ms, cs[k])));
        let perm = choose|perm: Seq<usize>|
            is_perm(perm, cm.len()) && stably_sorted(crate::threads::node_keys(cm, group_dups(ms, cs[k])), perm)
                && th.nodes@.len() == perm.len() && forall|c: int|
                0 <= c < th.nodes@.len() ==> crate::threads::node_is(
                    #[trigger] th.nodes@[c],
                    cm,
                    group_dups(ms, cs[k]),
                    group_unlinked(ms, cs[k]),
                    perm[c] as int,
                );
        assert(crate::order::occurs(perm, b));
        let a = choose|a: int| 0 <= a < perm.len() && #[trigger] perm[a] == b;
        assert(crate::threads::node_is(th.nodes@[a], cm, group_dups(ms, cs[k]), group_unlinked(ms, cs[k]), b));
        assert(env.threads@[k].nodes@[a].message == ms[i]);
    }
}

} // verus!

verus! {

/// Number of nodes in the first `k` threads.
pub open spec fn nodes_total(ts: Seq<ThreadDto>, k: int) -> int
    decreases k,
{
    if k <= 0 {
        0
    } else {
        nodes_total(ts, k - 1) + ts[k - 1].nodes@.len()
    }
}

proof fn lemma_nodes_total(env: ThreadEnvelopeDto, ms: Seq<MessageDto>, cs: Seq<Seq<usize>>, k: int)
    requires
        env.threads@.len() == cs.len(),
        forall|l: int| 0 <= l < cs.len() ==> #[trigger] env.threads@[l].nodes@.len() == cs[l].len(),
        0 <= k <= cs.len(),
    ensures
        nodes_total(env.threads@, k) == crate::graph::sizes_total(cs, k),
    decreases k,
{
    if k > 0 {
        lemma_nodes_total(env, ms, cs, k - 1);
        assert(env.threads@[k - 1].nodes@.len() == cs[k - 1].len());
    }
}

/// The threads of an envelope hold as many nodes as there are supplied
/// messages: with the nodes being the supplied messages, each message is the
/// node of exactly one thread, once.
pub proof fn lemma_thread_nodes_count(env: ThreadEnvelopeDto, ms: Seq<MessageDto>, fallback: bool)
    requires
        threads_are(env, ms, fallback),
    ensures
        nodes_total(env.threads@, env.threads@.len() as int) == ms.len(),
{
    let cs = choose|cs: Seq<Seq<usize>>|
        #[trigger] thread_groups(ms, fallback, cs) && env.threads@.len() == cs.len() && forall|k: int|
            0 <= k < cs.len() ==> thread_is(
                #[trigger] env.threads@[k],
                group_msgs(ms, cs[k]),
                group_dups(ms, cs[k]),
                group_unlinked(ms, cs[k]),
            );
    assert forall|l: int| 0 <= l < cs.len() implies #[trigger] env.threads@[l].nodes@.len() == cs[l].len() by {
        let th = env.threads@[l];
        let cm = group_msgs(ms, cs[l]);
        assert(thread_is(th, cm, group_dups(ms, cs[l]), group_unlinked(ms, cs[l])));
    }
    lemma_nodes_total(env, ms, cs, cs.len() as int);
    crate::graph::lemma_components_sizes(crate::thread::graph_spec(ms, fallback), cs);
}

} // verus!
