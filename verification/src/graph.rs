//! Connected components of an undirected graph given by adjacency lists,
//! found by depth-first search.
use vstd::prelude::*;

verus! {

/// Entry `k + 1` of `p` is adjacent to entry `k`.
pub open spec fn step(g: Seq<Seq<usize>>, p: Seq<usize>, k: int) -> bool {
    g[p[k] as int].contains(p[k + 1])
}

/// `p` is a walk: consecutive entries are adjacent.
pub open spec fn is_walk(g: Seq<Seq<usize>>, p: Seq<usize>) -> bool {
    &&& p.len() >= 1
    &&& forall|k: int| 0 <= k < p.len() - 1 ==> #[trigger] step(g, p, k)
}

/// A walk leads from `i` to `j`.
pub open spec fn connected(g: Seq<Seq<usize>>, i: int, j: int) -> bool {
    exists|p: Seq<usize>| #[trigger] is_walk(g, p) && p[0] as int == i && p.last() as int == j
}

/// Every neighbour is a vertex, and adjacency goes both ways.
pub open spec fn symmetric(g: Seq<Seq<usize>>) -> bool {
    &&& forall|i: int, k: int|
        0 <= i < g.len() && 0 <= k < g[i].len() ==> (#[trigger] g[i][k]) < g.len()
    &&& forall|i: int, j: int|
        0 <= i < g.len() && 0 <= j < g.len() ==> (#[trigger] g[i].contains(j as usize) <==> #[trigger] g[j].contains(
            i as usize,
        ))
}

/// `v` is an entry of `c`.
pub open spec fn member(c: Seq<usize>, v: int) -> bool {
    exists|a: int| 0 <= a < c.len() && #[trigger] c[a] as int == v
}

/// Some entry of `c` is smaller than every entry of `d`.
pub open spec fn below(c: Seq<usize>, d: Seq<usize>) -> bool {
    exists|a: int|
        #![trigger c[a]]
        0 <= a < c.len() && forall|b: int| 0 <= b < d.len() ==> c[a] < #[trigger] d[b]
}

/// `c` has no repeated entry.
pub open spec fn distinct(c: Seq<usize>) -> bool {
    forall|a: int, b: int| 0 <= a < b < c.len() ==> c[a] != c[b]
}

/// `v` is in one of the lists `cs`.
pub open spec fn covered(cs: Seq<Seq<usize>>, v: int) -> bool {
    exists|k: int| 0 <= k < cs.len() && #[trigger] member(cs[k], v)
}

/// `cs` are the connected components of `g`: every vertex is in exactly one,
/// each holds no repeats, is closed under adjacency, and is connected.
pub open spec fn components_of(g: Seq<Seq<usize>>, cs: Seq<Seq<usize>>) -> bool {
    &&& forall|v: int| 0 <= v < g.len() ==> #[trigger] covered(cs, v)
    &&& forall|k: int, l: int, v: int|
        0 <= k < cs.len() && 0 <= l < cs.len() && #[trigger] member(cs[k], v) && #[trigger] member(
            cs[l],
            v,
        ) ==> k == l
    &&& forall|k: int| 0 <= k < cs.len() ==> distinct(#[trigger] cs[k]) && cs[k].len() > 0
    &&& forall|k: int, a: int| 0 <= k < cs.len() && 0 <= a < cs[k].len() ==> #[trigger] cs[k][a] < g.len()
    &&& forall|k: int, a: int, w: usize|
        0 <= k < cs.len() && 0 <= a < cs[k].len() && #[trigger] g[cs[k][a] as int].contains(w)
            ==> member(cs[k], w as int)
    &&& forall|k: int, a: int, b: int|
        0 <= k < cs.len() && 0 <= a < cs[k].len() && 0 <= b < cs[k].len() ==> connected(
            g,
            #[trigger] cs[k][a] as int,
            #[trigger] cs[k][b] as int,
        )
}

/// Connectivity is reflexive.
pub proof fn lemma_connected_refl(g: Seq<Seq<usize>>, i: usize)
    ensures
        connected(g, i as int, i as int),
{
    let p = seq![i];
    assert(is_walk(g, p));
    assert(p[0] as int == i as int && p.last() as int == i as int);
}

/// A walk extends by one edge.
pub proof fn lemma_connected_step(g: Seq<Seq<usize>>, i: int, j: usize, k: usize)
    requires
        connected(g, i, j as int),
        g[j as int].contains(k),
    ensures
        connected(g, i, k as int),
{
    let p = choose|p: Seq<usize>| is_walk(g, p) && p[0] as int == i && p.last() as int == j;
    let q = p.push(k);
    assert forall|t: int| 0 <= t < q.len() - 1 implies #[trigger] step(g, q, t) by {
        if t < p.len() - 1 {
            assert(step(g, p, t));
            assert(q[t] == p[t] && q[t + 1] == p[t + 1]);
        }
    }
    assert(is_walk(g, q));
    assert(q[0] as int == i && q.last() as int == k as int);
}

/// With symmetric adjacency, connectivity is symmetric.
pub proof fn lemma_connected_sym(g: Seq<Seq<usize>>, i: int, j: int)
    requires
        symmetric(g),
        0 <= i < g.len(),
        connected(g, i, j),
    ensures
        connected(g, j, i),
{
    let p = choose|p: Seq<usize>| is_walk(g, p) && p[0] as int == i && p.last() as int == j;
    let q = p.reverse();
    assert forall|t: int| 0 <= t < q.len() - 1 implies #[trigger] step(g, q, t) by {
        let s = p.len() - 2 - t;
        assert(q[t] == p[s + 1] && q[t + 1] == p[s]);
        assert(step(g, p, s));
        lemma_walk_in_range(g, p, s);
        lemma_walk_in_range(g, p, s + 1);
        assert(g[p[s] as int].contains(p[s + 1] as int as usize));
        assert(g[p[s + 1] as int].contains(p[s] as int as usize));
    }
    assert(is_walk(g, q));
    assert(q[0] as int == j && q.last() as int == i);
}

/// Every entry of a walk from a vertex is a vertex.
pub proof fn lemma_walk_in_range(g: Seq<Seq<usize>>, p: Seq<usize>, t: int)
    requires
        symmetric(g),
        is_walk(g, p),
        p[0] < g.len(),
        0 <= t < p.len(),
    ensures
        p[t] < g.len(),
    decreases t,
{
    if t > 0 {
        lemma_walk_in_range(g, p, t - 1);
        assert(step(g, p, t - 1));
        let a = choose|a: int|
            0 <= a < g[p[t - 1] as int].len() && #[trigger] g[p[t - 1] as int][a] == p[t];
        assert(g[p[t - 1] as int][a] < g.len());
    }
}

/// Walks compose.
pub proof fn lemma_connected_trans(g: Seq<Seq<usize>>, i: int, j: int, k: int)
    requires
        connected(g, i, j),
        connected(g, j, k),
    ensures
        connected(g, i, k),
{
    let p = choose|p: Seq<usize>| is_walk(g, p) && p[0] as int == i && p.last() as int == j;
    let q = choose|q: Seq<usize>| is_walk(g, q) && q[0] as int == j && q.last() as int == k;
    let r = p + q.skip(1);
    assert forall|t: int| 0 <= t < r.len() - 1 implies #[trigger] step(g, r, t) by {
        if t < p.len() - 1 {
            assert(step(g, p, t));
            assert(r[t] == p[t] && r[t + 1] == p[t + 1]);
        } else if t == p.len() - 1 {
            assert(step(g, q, 0));
            assert(r[t] == p.last() && r[t + 1] == q[1]);
        } else {
            let s = t - p.len() + 1;
            assert(step(g, q, s));
            assert(r[t] == q[s] && r[t + 1] == q[s + 1]);
        }
    }
    if q.len() == 1 {
        assert(r =~= p);
    }
    assert(is_walk(g, r));
    assert(r[0] as int == i && r.last() as int == k);
}

} // verus!

verus! {

/// Views of adjacency lists.
pub open spec fn adj_v(g: Seq<Vec<usize>>) -> Seq<Seq<usize>> {
    g.map_values(|v: Vec<usize>| v@)
}

/// Number of vertices below `m` without an owner.
spec fn unseen_count(owner: Seq<int>, m: int) -> nat
    decreases m,
{
    if m <= 0 {
        0
    } else {
        unseen_count(owner, m - 1) + if owner[m - 1] == -1 {
            1nat
        } else {
            0nat
        }
    }
}

proof fn lemma_unseen_update(owner: Seq<int>, x: int, c: int, m: int)
    requires
        0 <= x < owner.len(),
        owner[x] == -1,
        c >= 0,
        0 <= m <= owner.len(),
    ensures
        unseen_count(owner.update(x, c), m) == unseen_count(owner, m) - (if x < m {
            1int
        } else {
            0int
        }),
    decreases m,
{
    if m > 0 {
        lemma_unseen_update(owner, x, c, m - 1);
    }
}

proof fn lemma_member_push(s: Seq<usize>, x: usize, v: int)
    ensures
        member(s.push(x), v) <==> (member(s, v) || v == x as int),
{
    if member(s, v) {
        let a = choose|a: int| 0 <= a < s.len() && #[trigger] s[a] as int == v;
        assert(s.push(x)[a] == s[a]);
    }
    if v == x as int {
        assert(s.push(x)[s.len() as int] == x);
    }
    if member(s.push(x), v) {
        let a = choose|a: int| 0 <= a < s.push(x).len() && #[trigger] s.push(x)[a] as int == v;
        if a < s.len() {
            assert(s[a] == s.push(x)[a]);
        }
    }
}

proof fn lemma_member_drop_last(s: Seq<usize>, v: int)
    requires
        s.len() > 0,
        distinct(s),
    ensures
        member(s.drop_last(), v) <==> (member(s, v) && v != s.last() as int),
{
    let d = s.drop_last();
    if member(d, v) {
        let a = choose|a: int| 0 <= a < d.len() && #[trigger] d[a] as int == v;
        assert(s[a] == d[a]);
        assert(s[a] != s[s.len() - 1]);
    }
    if member(s, v) && v != s.last() as int {
        let a = choose|a: int| 0 <= a < s.len() && #[trigger] s[a] as int == v;
        assert(a < s.len() - 1);
        assert(d[a] == s[a]);
    }
}

proof fn lemma_distinct_push(s: Seq<usize>, x: usize)
    requires
        distinct(s),
        !member(s, x as int),
    ensures
        distinct(s.push(x)),
{
    assert forall|a: int, b: int| 0 <= a < b < s.push(x).len() implies s.push(x)[a] != s.push(x)[b] by {
        if b == s.len() {
            assert(s.push(x)[a] == s[a]);
            if s[a] == x {
                assert(member(s, x as int));
            }
        } else {
            assert(s.push(x)[a] == s[a] && s.push(x)[b] == s[b]);
        }
    }
}

proof fn lemma_distinct_drop_last(s: Seq<usize>)
    requires
        s.len() > 0,
        distinct(s),
    ensures
        distinct(s.drop_last()),
{
    assert forall|a: int, b: int| 0 <= a < b < s.drop_last().len() implies s.drop_last()[a]
        != s.drop_last()[b] by {
        assert(s.drop_last()[a] == s[a] && s.drop_last()[b] == s[b]);
    }
}

/// Every vertex `v` with an owner is in the list of its owner, and every
/// listed vertex is owned by its list.
spec fn owned(cv: Seq<Seq<usize>>, owner: Seq<int>, n: nat) -> bool {
    &&& owner.len() == n
    &&& forall|v: int| 0 <= v < n ==> -1 <= #[trigger] owner[v] < cv.len()
    &&& forall|k: int, a: int|
        0 <= k < cv.len() && 0 <= a < cv[k].len() ==> #[trigger] cv[k][a] < n && owner[cv[k][a] as int]
            == k
    &&& forall|v: int| 0 <= v < n && owner[v] >= 0 ==> #[trigger] member(cv[owner[v]], v)
}

/// The finished lists are components: without repeats, closed, connected.
spec fn finished(g: Seq<Seq<usize>>, cv: Seq<Seq<usize>>) -> bool {
    &&& forall|k: int| 0 <= k < cv.len() ==> distinct(#[trigger] cv[k]) && cv[k].len() > 0
    &&& forall|k: int, a: int, w: usize|
        0 <= k < cv.len() && 0 <= a < cv[k].len() && #[trigger] g[cv[k][a] as int].contains(w)
            ==> member(cv[k], w as int)
    &&& forall|k: int, a: int, b: int|
        0 <= k < cv.len() && 0 <= a < cv[k].len() && 0 <= b < cv[k].len() ==> connected(
            g,
            #[trigger] cv[k][a] as int,
            #[trigger] cv[k][b] as int,
        )
}

/// Every neighbour of the first `m` entries of `comp` has an owner.
spec fn nbrs_seen(g: Seq<Seq<usize>>, owner: Seq<int>, comp: Seq<usize>, m: int) -> bool {
    forall|a: int, w: usize|
        0 <= a < m && #[trigger] g[comp[a] as int].contains(w) ==> owner[w as int] >= 0
}

/// State of one depth-first round rooted at `root`, numbered `c`.
spec fn round_ok(
    g: Seq<Seq<usize>>,
    cv: Seq<Seq<usize>>,
    owner: Seq<int>,
    seen: Seq<bool>,
    comp: Seq<usize>,
    stack: Seq<usize>,
    root: usize,
    c: int,
    idx: int,
) -> bool {
    let n = g.len();
    &&& symmetric(g)
    &&& root < n
    &&& c == cv.len()
    &&& seen.len() == n
    &&& owner.len() == n
    &&& forall|v: int| 0 <= v < n ==> -1 <= #[trigger] owner[v] <= c
    &&& forall|k: int, a: int|
        0 <= k < cv.len() && 0 <= a < cv[k].len() ==> #[trigger] cv[k][a] < n && owner[cv[k][a] as int]
            == k
    &&& forall|v: int| 0 <= v < n && 0 <= owner[v] < c ==> #[trigger] member(cv[owner[v]], v)
    &&& forall|v: int| 0 <= v < n ==> (#[trigger] owner[v] == c <==> (member(comp, v) || member(stack, v)))
    &&& forall|v: int| 0 <= v < n ==> (#[trigger] seen[v] <==> owner[v] >= 0)
    &&& forall|v: int| 0 <= v < idx ==> 0 <= #[trigger] owner[v] < c
    &&& finished(g, cv)
    &&& distinct(comp)
    &&& distinct(stack)
    &&& forall|v: int| !(#[trigger] member(comp, v) && member(stack, v))
    &&& forall|a: int| 0 <= a < comp.len() ==> #[trigger] comp[a] < n
    &&& forall|a: int| 0 <= a < stack.len() ==> #[trigger] stack[a] < n
    &&& forall|a: int| 0 <= a < comp.len() ==> connected(g, root as int, #[trigger] comp[a] as int)
    &&& forall|a: int| 0 <= a < stack.len() ==> connected(g, root as int, #[trigger] stack[a] as int)
    &&& comp.len() > 0 ==> comp[0] == root
    &&& comp.len() == 0 ==> stack == seq![root]
}

/// The neighbours `nb[k..]` not yet reached, marked reached and pushed in
/// order onto `stack`.
pub open spec fn push_unreached(nb: Seq<usize>, k: int, seen: Seq<bool>, stack: Seq<usize>) -> (
    Seq<bool>,
    Seq<usize>,
)
    decreases nb.len() - k,
{
    if k < 0 || k >= nb.len() {
        (seen, stack)
    } else if seen[nb[k] as int] {
        push_unreached(nb, k + 1, seen, stack)
    } else {
        push_unreached(nb, k + 1, seen.update(nb[k] as int, true), stack.push(nb[k]))
    }
}

/// Depth-first search by an explicit stack, for at most `fuel` steps: each
/// step lists the vertex on top of the stack and pushes its neighbours not
/// yet reached, in list order. Gives the reached marks and the listing.
pub open spec fn dfs_run(g: Seq<Seq<usize>>, seen: Seq<bool>, stack: Seq<usize>, comp: Seq<usize>, fuel: nat) -> (
    Seq<bool>,
    Seq<usize>,
)
    decreases fuel,
{
    if fuel == 0 || stack.len() == 0 {
        (seen, comp)
    } else {
        let cur = stack.last();
        let (s2, st2) = push_unreached(g[cur as int], 0, seen, stack.drop_last());
        dfs_run(g, s2, st2, comp.push(cur), (fuel - 1) as nat)
    }
}

/// The components found by a depth-first search started from each vertex
/// from `idx` on that is not yet reached, in vertex order.
pub open spec fn dfs_components(g: Seq<Seq<usize>>, idx: int, seen: Seq<bool>) -> Seq<Seq<usize>>
    decreases g.len() - idx,
{
    if idx < 0 || idx >= g.len() {
        Seq::empty()
    } else if seen[idx] {
        dfs_components(g, idx + 1, seen)
    } else {
        let r = dfs_run(g, seen.update(idx, true), seq![idx as usize], Seq::empty(), g.len());
        seq![r.1] + dfs_components(g, idx + 1, r.0)
    }
}

/// A list of pairwise different vertices below `n` has at most `n` entries.
proof fn lemma_distinct_bound(c: Seq<usize>, n: int)
    requires
        distinct(c),
        forall|a: int| 0 <= a < c.len() ==> #[trigger] c[a] < n,
        n >= 0,
    ensures
        c.len() <= n,
{
    let ci = c.map_values(|v: usize| v as int);
    assert(ci.no_duplicates()) by {
        assert forall|a: int, b: int| 0 <= a < ci.len() && 0 <= b < ci.len() && a != b implies ci[a] != ci[b] by {
            if a < b {
                assert(c[a] != c[b]);
            } else {
                assert(c[b] != c[a]);
            }
        }
    }
    ci.unique_seq_to_set();
    assert forall|x: int| ci.to_set().contains(x) implies vstd::set_lib::set_int_range(0, n).contains(x) by {
        let a = choose|a: int| 0 <= a < ci.len() && ci[a] == x;
        assert(c[a] < n);
    }
    vstd::set_lib::lemma_int_range(0, n);
    vstd::set_lib::lemma_len_subset(ci.to_set(), vstd::set_lib::set_int_range(0, n));
}

/// Each list starts with its smallest entry, and the lists come in order of
/// their first entries, all of them below `bound`.
spec fn ordered_roots(cv: Seq<Seq<usize>>, bound: int) -> bool {
    &&& forall|k: int, a: int| 0 <= k < cv.len() && 0 <= a < cv[k].len() ==> cv[k][0] <= #[trigger] cv[k][a]
    &&& forall|k: int| 0 <= k < cv.len() ==> (#[trigger] cv[k])[0] < bound
    &&& forall|k: int, l: int| 0 <= k < l < cv.len() ==> (#[trigger] cv[k])[0] < (#[trigger] cv[l])[0]
}

/// The connected components of the graph with adjacency lists `g`, found by
/// depth-first search from each vertex not yet reached, in vertex order: each
/// component starts with its smallest vertex, and they come in order of it.
pub fn raw_components(g: &Vec<Vec<usize>>) -> (cs: Vec<Vec<usize>>)
    requires
        symmetric(adj_v(g@)),
    ensures
        components_of(adj_v(g@), adj_v(cs@)),
        forall|k: int, a: int|
            0 <= k < cs@.len() && 0 <= a < cs@[k]@.len() ==> cs@[k]@[0] <= #[trigger] cs@[k]@[a],
        forall|k: int, l: int| 0 <= k < l < cs@.len() ==> (#[trigger] cs@[k])@[0] < (#[trigger] cs@[l])@[0],
        adj_v(cs@) == dfs_components(adj_v(g@), 0, Seq::new(g@.len(), |v: int| false)),
{
    let ghost gv = adj_v(g@);
    let n = g.len();
    let mut seen: Vec<bool> = Vec::new();
    let mut i: usize = 0;
    while i < n
        invariant
            i <= n,
            seen@.len() == i,
            forall|v: int| 0 <= v < i ==> !#[trigger] seen@[v],
        decreases n - i,
    {
        seen.push(false);
        i += 1;
    }
    let ghost mut owner: Seq<int> = Seq::new(n as nat, |v: int| -1);
    let ghost seen0 = seen@;
    assert(seen0 =~= Seq::new(g@.len(), |v: int| false));
    let mut comps: Vec<Vec<usize>> = Vec::new();
    let mut idx: usize = 0;
    while idx < n
        invariant
            gv == adj_v(g@),
            symmetric(gv),
            n == gv.len(),
            idx <= n,
            seen@.len() == n,
            owned(adj_v(comps@), owner, n as nat),
            forall|v: int| 0 <= v < n ==> (#[trigger] seen@[v] <==> owner[v] >= 0),
            forall|v: int| 0 <= v < idx ==> #[trigger] owner[v] >= 0,
            finished(gv, adj_v(comps@)),
            ordered_roots(adj_v(comps@), idx as int),
            adj_v(comps@) + dfs_components(gv, idx as int, seen@) == dfs_components(gv, 0, seen0),
        decreases n - idx,
    {
        if !seen[idx] {
            let ghost c = comps@.len() as int;
            let ghost cv = adj_v(comps@);
            let ghost seen_b = seen@;
            seen.set(idx, true);
            let ghost seen_r = seen@;
            proof {
                owner = owner.update(idx as int, c);
                lemma_connected_refl(gv, idx);
            }
            let mut stack: Vec<usize> = Vec::new();
            stack.push(idx);
            let mut comp: Vec<usize> = Vec::new();
            proof {
                assert forall|v: int| 0 <= v < n implies (#[trigger] owner[v] == c <==> (member(
                    comp@,
                    v,
                ) || member(stack@, v))) by {
                    lemma_member_push(Seq::<usize>::empty(), idx, v);
                    assert(stack@ =~= Seq::<usize>::empty().push(idx));
                }
                assert(stack@ =~= seq![idx]);
            }
            while stack.len() > 0
                invariant
                    gv == adj_v(g@),
                    n == gv.len(),
                    idx < n,
                    cv == adj_v(comps@),
                    round_ok(gv, cv, owner, seen@, comp@, stack@, idx, c, idx as int),
                    nbrs_seen(gv, owner, comp@, comp@.len() as int),
                    dfs_run(gv, seen@, stack@, comp@, (n - comp@.len()) as nat) == dfs_run(
                        gv,
                        seen_r,
                        seq![idx],
                        Seq::<usize>::empty(),
                        n as nat,
                    ),
                decreases unseen_count(owner, n as int), stack@.len(),
            {
                let ghost s0 = stack@;
                let ghost c0 = comp@;
                let ghost seen_p = seen@;
                let ghost u0 = unseen_count(owner, n as int);
                let cur = stack.pop().unwrap();
                comp.push(cur);
                proof {
                    assert(stack@ =~= s0.drop_last());
                    assert(member(s0, cur as int)) by {
                        assert(s0[s0.len() - 1] == cur);
                    }
                    assert(!member(c0, cur as int));
                    lemma_distinct_drop_last(s0);
                    assert(member(s0, cur as int)) by {
                        assert(s0[s0.len() - 1] == cur);
                    }
                    lemma_distinct_push(c0, cur);
                    assert forall|v: int| #![auto] member(comp@, v) <==> (member(c0, v) || v == cur as int) by {
                        lemma_member_push(c0, cur, v);
                    }
                    assert forall|v: int| #![auto] member(stack@, v) <==> (member(s0, v) && v != cur as int) by {
                        lemma_member_drop_last(s0, v);
                    }
                    assert forall|a: int| 0 <= a < comp@.len() implies #[trigger] comp@[a] < n by {
                        if a < c0.len() {
                            assert(comp@[a] == c0[a]);
                        }
                    }
                    assert forall|a: int| 0 <= a < comp@.len() implies connected(
                        gv,
                        idx as int,
                        #[trigger] comp@[a] as int,
                    ) by {
                        if a < c0.len() {
                            assert(comp@[a] == c0[a]);
                        } else {
                            assert(s0[s0.len() - 1] == cur);
                        }
                    }
                    assert forall|a: int| 0 <= a < stack@.len() implies connected(
                        gv,
                        idx as int,
                        #[trigger] stack@[a] as int,
                    ) by {
                        assert(stack@[a] == s0[a]);
                    }
                    assert forall|a: int| 0 <= a < stack@.len() implies #[trigger] stack@[a] < n by {
                        assert(stack@[a] == s0[a]);
                    }
                    if c0.len() == 0 {
                        assert(comp@[0] == idx);
                    } else {
                        assert(comp@[0] == c0[0]);
                    }
                    assert forall|a: int, w: usize|
                        0 <= a < comp@.len() - 1 && #[trigger] gv[comp@[a] as int].contains(w) implies owner[w as int]
                            >= 0 by {
                        assert(comp@[a] == c0[a]);
                    }
                }
                proof {
                    assert forall|v: int| !(#[trigger] member(comp@, v) && member(stack@, v)) by {
                        if member(comp@, v) && member(stack@, v) {
                            assert(member(c0, v) || v == cur as int);
                            assert(member(s0, v) && v != cur as int);
                            assert(!(member(c0, v) && member(s0, v)));
                        }
                    }
                }
                let ghost sp = stack@;
                proof {
                    assert(s0.last() == cur);
                    assert(sp == s0.drop_last());
                    lemma_distinct_bound(comp@, n as int);
                }
                let nbrs = &g[cur];
                assert(nbrs@ == gv[cur as int]);
                let mut t: usize = 0;
                while t < nbrs.len()
                    invariant
                        gv == adj_v(g@),
                        n == gv.len(),
                        idx < n,
                        cur < n,
                        nbrs@ == gv[cur as int],
                        cv == adj_v(comps@),
                        t <= nbrs@.len(),
                        comp@.len() > 0,
                        comp@.last() == cur,
                        round_ok(gv, cv, owner, seen@, comp@, stack@, idx, c, idx as int),
                        nbrs_seen(gv, owner, comp@, comp@.len() - 1),
                        forall|q: int| 0 <= q < t ==> owner[#[trigger] nbrs@[q] as int] >= 0,
                        unseen_count(owner, n as int) <= u0,
                        unseen_count(owner, n as int) + stack@.len() == u0 + s0.len() - 1,
                        push_unreached(gv[cur as int], t as int, seen@, stack@) == push_unreached(
                            gv[cur as int],
                            0,
                            seen_p,
                            sp,
                        ),
                    decreases nbrs.len() - t,
                {
                    let nx = nbrs[t];
                    assert(gv[cur as int][t as int] == nx);
                    assert(nx < n);
                    if !seen[nx] {
                        let ghost s1 = stack@;
                        seen.set(nx, true);
                        stack.push(nx);
                        proof {
                            assert(owner[nx as int] == -1);
                            lemma_unseen_update(owner, nx as int, c, n as int);
                            owner = owner.update(nx as int, c);
                            assert(!member(s1, nx as int));
                            assert(!member(comp@, nx as int));
                            lemma_distinct_push(s1, nx);
                            assert forall|v: int| #![auto] member(stack@, v) <==> (member(s1, v) || v == nx as int) by {
                                lemma_member_push(s1, nx, v);
                            }
                            assert(connected(gv, idx as int, cur as int)) by {
                                assert(comp@[comp@.len() - 1] == cur);
                            }
                            assert(gv[cur as int].contains(nx));
                            lemma_connected_step(gv, idx as int, cur, nx);
                            assert forall|a: int| 0 <= a < stack@.len() implies connected(
                                gv,
                                idx as int,
                                #[trigger] stack@[a] as int,
                            ) by {
                                if a < s1.len() {
                                    assert(stack@[a] == s1[a]);
                                }
                            }
                            assert forall|a: int| 0 <= a < stack@.len() implies #[trigger] stack@[a] < n by {
                                if a < s1.len() {
                                    assert(stack@[a] == s1[a]);
                                }
                            }
                        }
                    }
                    t += 1;
                }
                proof {
                    assert(push_unreached(gv[cur as int], t as int, seen@, stack@) == (seen@, stack@));
                    assert(comp@ == c0.push(cur));
                }
                proof {
                    assert forall|a: int, w: usize|
                        0 <= a < comp@.len() && #[trigger] gv[comp@[a] as int].contains(w) implies owner[w as int]
                            >= 0 by {
                        if a == comp@.len() - 1 {
                            let q = choose|q: int| 0 <= q < nbrs@.len() && #[trigger] nbrs@[q] == w;
                            assert(owner[nbrs@[q] as int] >= 0);
                        }
                    }
                }
            }
            proof {
                let cc = comp@;
                assert(stack@.len() == 0);
                assert forall|v: int| !member(stack@, v) by {}
                assert forall|a: int, w: usize|
                    0 <= a < cc.len() && #[trigger] gv[cc[a] as int].contains(w) implies member(
                    cc,
                    w as int,
                ) by {
                    assert(cc[a] < n);
                    let q = choose|q: int|
                        0 <= q < gv[cc[a] as int].len() && #[trigger] gv[cc[a] as int][q] == w;
                    assert(w < n);
                    assert(owner[w as int] >= 0);
                    if owner[w as int] < c {
                        let k = owner[w as int];
                        assert(member(cv[k], w as int));
                        let b = choose|b: int| 0 <= b < cv[k].len() && #[trigger] cv[k][b] as int == w as int;
                        assert(gv[cc[a] as int].contains((w as int) as usize));
                        assert(gv[w as int].contains((cc[a] as int) as usize));
                        assert(gv[cv[k][b] as int].contains(cc[a]));
                        assert(member(cv[k], cc[a] as int));
                        let b2 = choose|b2: int|
                            0 <= b2 < cv[k].len() && #[trigger] cv[k][b2] as int == cc[a] as int;
                        assert(owner[cv[k][b2] as int] == k);
                        assert(member(cc, cc[a] as int));
                    }
                }
                assert forall|a: int, b: int|
                    0 <= a < cc.len() && 0 <= b < cc.len() implies connected(
                    gv,
                    #[trigger] cc[a] as int,
                    #[trigger] cc[b] as int,
                ) by {
                    lemma_connected_sym(gv, idx as int, cc[a] as int);
                    lemma_connected_trans(gv, cc[a] as int, idx as int, cc[b] as int);
                }
            }
            comps.push(comp);
            proof {
                let nv = adj_v(comps@);
                assert(nv =~= cv.push(comp@));
                assert forall|v: int| 0 <= v < n && owner[v] >= 0 implies #[trigger] member(nv[owner[v]], v) by {
                }
                assert forall|k: int, a: int|
                    0 <= k < nv.len() && 0 <= a < nv[k].len() implies #[trigger] nv[k][a] < n
                    && owner[nv[k][a] as int] == k by {
                    if k == c {
                        assert(member(comp@, comp@[a] as int));
                    }
                }
                assert(comp@[0] == idx);
                assert forall|k: int, a: int| 0 <= k < nv.len() && 0 <= a < nv[k].len() implies nv[k][0]
                    <= #[trigger] nv[k][a] by {
                    if k == c {
                        assert(owner[comp@[a] as int] == c);
                    } else {
                        assert(nv[k] == cv[k]);
                    }
                }
                assert forall|k: int| 0 <= k < nv.len() implies (#[trigger] nv[k])[0] < idx + 1 by {
                    if k < c {
                        assert(nv[k] == cv[k]);
                    }
                }
                assert forall|k: int, l: int| 0 <= k < l < nv.len() implies (#[trigger] nv[k])[0] < (
                #[trigger] nv[l])[0] by {
                    assert(nv[k] == cv[k]);
                    if l < c {
                        assert(nv[l] == cv[l]);
                    }
                }
            }
        }
        idx += 1;
    }
    proof {
        let cv = adj_v(comps@);
        assert forall|v: int| 0 <= v < gv.len() implies #[trigger] covered(cv, v) by {
            assert(member(cv[owner[v]], v));
        }
        assert forall|k: int, l: int, v: int|
            0 <= k < cv.len() && 0 <= l < cv.len() && #[trigger] member(cv[k], v) && #[trigger] member(
                cv[l],
                v,
            ) implies k == l by {
            let a = choose|a: int| 0 <= a < cv[k].len() && #[trigger] cv[k][a] as int == v;
            let b = choose|b: int| 0 <= b < cv[l].len() && #[trigger] cv[l][b] as int == v;
            assert(owner[cv[k][a] as int] == k);
            assert(owner[cv[l][b] as int] == l);
        }
        assert forall|k: int, a: int| 0 <= k < comps@.len() && 0 <= a < comps@[k]@.len() implies comps@[k]@[0]
            <= #[trigger] comps@[k]@[a] by {
            assert(cv[k] == comps@[k]@);
        }
        assert forall|k: int, l: int| 0 <= k < l < comps@.len() implies (#[trigger] comps@[k])@[0] < (
        #[trigger] comps@[l])@[0] by {
            assert(cv[k] == comps@[k]@ && cv[l] == comps@[l]@);
        }
    }
    assert(dfs_components(gv, idx as int, seen@) =~= Seq::<Seq<usize>>::empty());
    assert(adj_v(comps@) =~= adj_v(comps@) + Seq::<Seq<usize>>::empty());
    comps
}

} // verus!

verus! {

/// Reordering the vertices inside each component keeps them components.
pub proof fn lemma_components_reorder_inner(g: Seq<Seq<usize>>, rv: Seq<Seq<usize>>, sv: Seq<Seq<usize>>)
    requires
        components_of(g, rv),
        sv.len() == rv.len(),
        forall|k: int, x: int| 0 <= k < sv.len() ==> (#[trigger] member(sv[k], x) <==> member(rv[k], x)),
        forall|k: int| 0 <= k < sv.len() ==> distinct(#[trigger] sv[k]) && sv[k].len() > 0,
    ensures
        components_of(g, sv),
{
    assert forall|v: int| 0 <= v < g.len() implies #[trigger] covered(sv, v) by {
        assert(covered(rv, v));
        let k = choose|k: int| 0 <= k < rv.len() && #[trigger] member(rv[k], v);
        assert(member(sv[k], v));
    }
    assert forall|k: int, l: int, v: int|
        0 <= k < sv.len() && 0 <= l < sv.len() && #[trigger] member(sv[k], v) && #[trigger] member(sv[l], v)
            implies k == l by {
        assert(member(rv[k], v) && member(rv[l], v));
    }
    assert forall|k: int, a: int| 0 <= k < sv.len() && 0 <= a < sv[k].len() implies #[trigger] sv[k][a]
        < g.len() by {
        assert(member(sv[k], sv[k][a] as int));
        let b = choose|b: int| 0 <= b < rv[k].len() && #[trigger] rv[k][b] as int == sv[k][a] as int;
    }
    assert forall|k: int, a: int, w: usize|
        0 <= k < sv.len() && 0 <= a < sv[k].len() && #[trigger] g[sv[k][a] as int].contains(w) implies member(
        sv[k],
        w as int,
    ) by {
        assert(member(sv[k], sv[k][a] as int));
        let b = choose|b: int| 0 <= b < rv[k].len() && #[trigger] rv[k][b] as int == sv[k][a] as int;
        assert(g[rv[k][b] as int].contains(w));
        assert(member(rv[k], w as int));
    }
    assert forall|k: int, a: int, b: int|
        0 <= k < sv.len() && 0 <= a < sv[k].len() && 0 <= b < sv[k].len() implies connected(
        g,
        #[trigger] sv[k][a] as int,
        #[trigger] sv[k][b] as int,
    ) by {
        assert(member(sv[k], sv[k][a] as int));
        assert(member(sv[k], sv[k][b] as int));
        let a2 = choose|a2: int| 0 <= a2 < rv[k].len() && #[trigger] rv[k][a2] as int == sv[k][a] as int;
        let b2 = choose|b2: int| 0 <= b2 < rv[k].len() && #[trigger] rv[k][b2] as int == sv[k][b] as int;
        assert(connected(g, rv[k][a2] as int, rv[k][b2] as int));
    }
}

/// Reordering the list of components keeps it a list of components.
pub proof fn lemma_components_reorder_outer(
    g: Seq<Seq<usize>>,
    sv: Seq<Seq<usize>>,
    ov: Seq<Seq<usize>>,
    perm: Seq<usize>,
)
    requires
        components_of(g, sv),
        crate::order::is_perm(perm, sv.len()),
        ov.len() == perm.len(),
        forall|a: int| 0 <= a < ov.len() ==> #[trigger] ov[a] == sv[perm[a] as int],
    ensures
        components_of(g, ov),
{
    assert forall|v: int| 0 <= v < g.len() implies #[trigger] covered(ov, v) by {
        assert(covered(sv, v));
        let k = choose|k: int| 0 <= k < sv.len() && #[trigger] member(sv[k], v);
        assert(crate::order::occurs(perm, k));
        let a = choose|a: int| 0 <= a < perm.len() && #[trigger] perm[a] == k;
        assert(ov[a] == sv[k]);
        assert(member(ov[a], v));
    }
    assert forall|k: int, l: int, v: int|
        0 <= k < ov.len() && 0 <= l < ov.len() && #[trigger] member(ov[k], v) && #[trigger] member(ov[l], v)
            implies k == l by {
        assert(ov[k] == sv[perm[k] as int] && ov[l] == sv[perm[l] as int]);
        assert(perm[k] < sv.len() && perm[l] < sv.len());
        assert(member(sv[perm[k] as int], v) && member(sv[perm[l] as int], v));
        assert(perm[k] == perm[l]);
        if k != l {
            if k < l {
                assert(perm[k] != perm[l]);
            } else {
                assert(perm[l] != perm[k]);
            }
        }
    }
    assert forall|k: int| 0 <= k < ov.len() implies distinct(#[trigger] ov[k]) && ov[k].len() > 0 by {
        assert(ov[k] == sv[perm[k] as int]);
        assert(perm[k] < sv.len());
    }
    assert forall|k: int, a: int| 0 <= k < ov.len() && 0 <= a < ov[k].len() implies #[trigger] ov[k][a]
        < g.len() by {
        assert(ov[k] == sv[perm[k] as int]);
        assert(perm[k] < sv.len());
    }
    assert forall|k: int, a: int, w: usize|
        0 <= k < ov.len() && 0 <= a < ov[k].len() && #[trigger] g[ov[k][a] as int].contains(w) implies member(
        ov[k],
        w as int,
    ) by {
        assert(ov[k] == sv[perm[k] as int]);
        assert(perm[k] < sv.len());
    }
    assert forall|k: int, a: int, b: int|
        0 <= k < ov.len() && 0 <= a < ov[k].len() && 0 <= b < ov[k].len() implies connected(
        g,
        #[trigger] ov[k][a] as int,
        #[trigger] ov[k][b] as int,
    ) by {
        assert(ov[k] == sv[perm[k] as int]);
        assert(perm[k] < sv.len());
    }
}

} // verus!

verus! {

/// Total length of the first `k` lists.
pub open spec fn sizes_total(cs: Seq<Seq<usize>>, k: int) -> int
    decreases k,
{
    if k <= 0 {
        0
    } else {
        sizes_total(cs, k - 1) + cs[k - 1].len()
    }
}

/// The first `k` lists, one after another, as integers.
spec fn flat(cs: Seq<Seq<usize>>, k: int) -> Seq<int>
    decreases k,
{
    if k <= 0 {
        Seq::empty()
    } else {
        flat(cs, k - 1) + cs[k - 1].map_values(|v: usize| v as int)
    }
}

proof fn lemma_flat(g: Seq<Seq<usize>>, cs: Seq<Seq<usize>>, k: int)
    requires
        components_of(g, cs),
        0 <= k <= cs.len(),
    ensures
        flat(cs, k).len() == sizes_total(cs, k),
        flat(cs, k).no_duplicates(),
        forall|x: int| #[trigger] flat(cs, k).contains(x) <==> exists|l: int| 0 <= l < k && #[trigger] member(cs[l], x),
    decreases k,
{
    if k > 0 {
        lemma_flat(g, cs, k - 1);
        let a = flat(cs, k - 1);
        let c = cs[k - 1];
        let b = c.map_values(|v: usize| v as int);
        let f = flat(cs, k);
        assert(f == a + b);
        assert(distinct(c));
        assert forall|x: int| #[trigger] b.contains(x) <==> member(c, x) by {
            if b.contains(x) {
                let i = choose|i: int| 0 <= i < b.len() && b[i] == x;
                assert(c[i] as int == x);
            }
            if member(c, x) {
                let i = choose|i: int| 0 <= i < c.len() && #[trigger] c[i] as int == x;
                assert(b[i] == x);
            }
        }
        assert forall|x: int| #[trigger] f.contains(x) <==> exists|l: int| 0 <= l < k && #[trigger] member(cs[l], x) by {
            if f.contains(x) {
                let i = choose|i: int| 0 <= i < f.len() && f[i] == x;
                if i < a.len() {
                    assert(a[i] == x);
                    assert(a.contains(x));
                } else {
                    assert(b[i - a.len()] == x);
                    assert(b.contains(x));
                    assert(member(cs[k - 1], x));
                }
            }
            if exists|l: int| 0 <= l < k && #[trigger] member(cs[l], x) {
                let l = choose|l: int| 0 <= l < k && #[trigger] member(cs[l], x);
                if l < k - 1 {
                    assert(a.contains(x));
                    let i = choose|i: int| 0 <= i < a.len() && a[i] == x;
                    assert(f[i] == x);
                } else {
                    assert(b.contains(x));
                    let i = choose|i: int| 0 <= i < b.len() && b[i] == x;
                    assert(f[a.len() + i] == x);
                }
            }
        }
        assert forall|i: int, j: int| 0 <= i < f.len() && 0 <= j < f.len() && i != j implies f[i] != f[j] by {
            if i < a.len() && j < a.len() {
                assert(a[i] == f[i] && a[j] == f[j]);
            } else if i >= a.len() && j >= a.len() {
                assert(c[i - a.len()] != c[j - a.len()] || i - a.len() == j - a.len()) by {
                    let p = i - a.len();
                    let q = j - a.len();
                    if p < q {
                        assert(c[p] != c[q]);
                    } else if q < p {
                        assert(c[q] != c[p]);
                    }
                }
            } else {
                let (ia, ib) = if i < a.len() {
                    (i, j - a.len())
                } else {
                    (j, i - a.len())
                };
                if a[ia] == b[ib] {
                    assert(a.contains(a[ia]));
                    let l = choose|l: int| 0 <= l < k - 1 && #[trigger] member(cs[l], a[ia]);
                    assert(b.contains(b[ib]));
                    assert(member(cs[k - 1], a[ia]));
                    assert(l == k - 1);
                }
            }
        }
    }
}

/// Components of a graph together hold each vertex once: their lengths add
/// up to the number of vertices.
pub proof fn lemma_components_sizes(g: Seq<Seq<usize>>, cs: Seq<Seq<usize>>)
    requires
        components_of(g, cs),
    ensures
        sizes_total(cs, cs.len() as int) == g.len(),
{
    let n = g.len() as int;
    lemma_flat(g, cs, cs.len() as int);
    let f = flat(cs, cs.len() as int);
    assert forall|x: int| #[trigger] f.to_set().contains(x) <==> vstd::set_lib::set_int_range(0, n).contains(x) by {
        if f.contains(x) {
            let l = choose|l: int| 0 <= l < cs.len() && #[trigger] member(cs[l], x);
            let a = choose|a: int| 0 <= a < cs[l].len() && #[trigger] cs[l][a] as int == x;
            assert(cs[l][a] < g.len());
        }
        if 0 <= x < n {
            assert(covered(cs, x));
        }
    }
    assert(f.to_set() =~= vstd::set_lib::set_int_range(0, n));
    f.unique_seq_to_set();
    vstd::set_lib::lemma_int_range(0, n);
}

} // verus!
