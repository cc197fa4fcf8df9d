use vstd::prelude::*;

use crate::ids::ActorId;

verus! {

/// An edge of the dependence graph: while it was being made, actor `from` asked
/// for direct access to actor `to` of its own context.
#[derive(Clone, Copy, Debug, PartialEq, Eq, Structural)]
pub struct DependenceRelation {
    pub from: ActorId,
    pub to: ActorId,
}

/// Pairs of indices as pairs of integers.
pub open spec fn index_edges(v: Seq<(usize, usize)>) -> Seq<(int, int)> {
    v.map_values(|e: (usize, usize)| (e.0 as int, e.1 as int))
}

/// The dependence relations as edges between actor ids.
pub open spec fn relation_edges(rels: Seq<DependenceRelation>) -> Seq<(int, int)> {
    rels.map_values(|r: DependenceRelation| (r.from.0 as int, r.to.0 as int))
}

/// True when `rels` holds the edge from node `a` to node `b`.
pub open spec fn has_edge(rels: Seq<(int, int)>, a: int, b: int) -> bool {
    exists|k: int| 0 <= k < rels.len() && rels[k].0 == a && rels[k].1 == b
}

/// True when node `p[k]` has an edge to node `p[k + 1]`.
pub open spec fn walk_step(rels: Seq<(int, int)>, p: Seq<int>, k: int) -> bool {
    has_edge(rels, p[k], p[k + 1])
}

/// True when each node of `p` has an edge to the next one.
pub open spec fn is_walk(rels: Seq<(int, int)>, p: Seq<int>) -> bool {
    forall|k: int| 0 <= k < p.len() - 1 ==> #[trigger] walk_step(rels, p, k)
}

/// True when the directed graph of `rels` has a cycle: a walk of at least one
/// edge that ends where it starts.
pub open spec fn has_cycle(rels: Seq<(int, int)>) -> bool {
    exists|p: Seq<int>| p.len() >= 2 && is_walk(rels, p) && p[0] == p[p.len() - 1]
}

#[derive(Clone, Copy, Debug, PartialEq, Eq, Structural)]
enum Color {
    Unvisited,
    Visiting,
    Visited,
}

/// The state of a depth-first search. `finish` gives each finished node the
/// value of `clock` when it finished.
struct Search {
    color: Vec<Color>,
    finish: Ghost<Seq<int>>,
    clock: Ghost<int>,
}

spec fn unvisited(s: Seq<Color>) -> nat
    decreases s.len(),
{
    if s.len() == 0 {
        0
    } else {
        unvisited(s.drop_last()) + if s.last() == Color::Unvisited {
            1nat
        } else {
            0nat
        }
    }
}

proof fn lemma_unvisited_fewer(a: Seq<Color>, b: Seq<Color>, at: int)
    requires
        a.len() == b.len(),
        forall|v: int| 0 <= v < a.len() && a[v] == Color::Unvisited ==> b[v] == Color::Unvisited,
    ensures
        unvisited(a) <= unvisited(b),
        0 <= at < a.len() && a[at] != Color::Unvisited && b[at] == Color::Unvisited ==> unvisited(
            a,
        ) < unvisited(b),
    decreases a.len(),
{
    if a.len() > 0 {
        lemma_unvisited_fewer(a.drop_last(), b.drop_last(), at);
    }
}

/// Every edge of `rels` joins nodes below `n`.
spec fn nodes_below(rels: Seq<(int, int)>, n: int) -> bool {
    forall|k: int| 0 <= k < rels.len() ==> 0 <= #[trigger] rels[k].0 < n && 0 <= rels[k].1 < n
}

/// What the search keeps true: the nodes being visited are those on `stack`,
/// which is a walk; a finished node's successors finished before it.
spec fn search_ok(s: &Search, rels: Seq<(int, int)>, n: int, stack: Seq<int>) -> bool {
    &&& s.color@.len() == n
    &&& s.finish@.len() == n
    &&& nodes_below(rels, n)
    &&& forall|v: int|
        0 <= v < n ==> (s.color@[v] == Color::Visiting <==> #[trigger] stack.contains(v))
    &&& forall|k: int| 0 <= k < stack.len() ==> 0 <= #[trigger] stack[k] < n
    &&& is_walk(rels, stack)
    &&& forall|v: int| 0 <= v < n && #[trigger] s.color@[v] == Color::Visited ==> s.finish@[v] < s.clock@
    &&& forall|k: int|
        0 <= k < rels.len() && #[trigger] s.color@[rels[k].0] == Color::Visited ==> {
            &&& s.color@[rels[k].1] == Color::Visited
            &&& s.finish@[rels[k].1] < s.finish@[rels[k].0]
        }
}

/// Visits `node` and what it reaches; true as soon as a node under visit is met
/// again.
fn dfs(
    node: usize,
    rels: &[(usize, usize)],
    s: &mut Search,
    Ghost(stack): Ghost<Seq<int>>,
) -> (r: bool)
    requires
        search_ok(old(s), index_edges(rels@), old(s).color@.len() as int, stack),
        node < old(s).color@.len(),
        stack.len() > 0 ==> has_edge(index_edges(rels@), stack[stack.len() - 1], node as int),
    ensures
        r ==> has_cycle(index_edges(rels@)),
        !r ==> search_ok(final(s), index_edges(rels@), old(s).color@.len() as int, stack),
        !r ==> final(s).color@[node as int] == Color::Visited,
        !r ==> forall|v: int|
            0 <= v < old(s).color@.len() && old(s).color@[v] == Color::Visited
                ==> #[trigger] final(s).color@[v] == Color::Visited,
        !r ==> forall|v: int|
            0 <= v < old(s).color@.len() && #[trigger] final(s).color@[v] == Color::Unvisited
                ==> old(s).color@[v] == Color::Unvisited,
    decreases unvisited(old(s).color@),
{
    let ghost n = s.color@.len() as int;
    let ghost rs = index_edges(rels@);
    match s.color[node] {
        Color::Visiting => {
            proof {
                assert(stack.contains(node as int));
                let j = choose|j: int| 0 <= j < stack.len() && stack[j] == node as int;
                let p = stack.subrange(j, stack.len() as int).push(node as int);
                assert forall|k: int| 0 <= k < p.len() - 1 implies #[trigger] walk_step(
                    rs,
                    p,
                    k,
                ) by {
                    if k < p.len() - 2 {
                        assert(walk_step(rs, stack, j + k));
                    }
                }
                assert(p.len() >= 2 && is_walk(rs, p) && p[0] == p[p.len() - 1]);
            }
            true
        },
        Color::Visited => false,
        Color::Unvisited => {
            let ghost entry = s.color@;
            s.color.set(node, Color::Visiting);
            let ghost inner = stack.push(node as int);
            proof {
                assert forall|v: int| 0 <= v < n implies (s.color@[v] == Color::Visiting
                    <==> #[trigger] inner.contains(v)) by {
                    if v != node {
                        if stack.contains(v) {
                            let j = choose|j: int| 0 <= j < stack.len() && stack[j] == v;
                            assert(inner[j] == v);
                        }
                        if inner.contains(v) {
                            let j = choose|j: int| 0 <= j < inner.len() && inner[j] == v;
                            assert(stack[j] == v);
                        }
                    } else {
                        assert(inner[inner.len() - 1] == v);
                    }
                }
                assert forall|k: int| 0 <= k < inner.len() - 1 implies #[trigger] walk_step(
                    rs,
                    inner,
                    k,
                ) by {
                    if k < stack.len() - 1 {
                        assert(walk_step(rs, stack, k));
                    }
                }
                assert forall|k: int|
                    0 <= k < rs.len() && #[trigger] s.color@[rs[k].0]
                        == Color::Visited implies {
                    &&& s.color@[rs[k].1] == Color::Visited
                    &&& s.finish@[rs[k].1] < s.finish@[rs[k].0]
                } by {
                    assert(entry[rs[k].0] == Color::Visited);
                }
            }
            let mut k: usize = 0;
            while k < rels.len()
                invariant
                    rs == index_edges(rels@),
                    inner == stack.push(node as int),
                    n == s.color@.len(),
                    0 <= k <= rs.len(),
                    node < n,
                    search_ok(s, rs, n, inner),
                    s.color@[node as int] == Color::Visiting,
                    entry[node as int] == Color::Unvisited,
                    entry.len() == n,
                    unvisited(entry) == unvisited(old(s).color@),
                    forall|v: int|
                        0 <= v < n && entry[v] == Color::Visited ==> #[trigger] s.color@[v]
                            == Color::Visited,
                    forall|v: int|
                        0 <= v < n && #[trigger] s.color@[v] == Color::Unvisited ==> entry[v]
                            == Color::Unvisited,
                    forall|j: int|
                        0 <= j < k && #[trigger] rs[j].0 == node ==> s.color@[rs[j].1]
                            == Color::Visited,
                decreases rs.len() - k,
            {
                if rels[k].0 == node {
                    let next = rels[k].1;
                    proof {
                        lemma_unvisited_fewer(s.color@, entry, node as int);
                        assert(rs[k as int] == (node as int, next as int));
                        assert(has_edge(rs, inner[inner.len() - 1], next as int));
                    }
                    let ghost before = s.color@;
                    if dfs(next, rels, s, Ghost(inner)) {
                        return true;
                    }
                    proof {
                        assert forall|j: int|
                            0 <= j <= k && #[trigger] rs[j].0 == node implies s.color@[rs[j].1]
                            == Color::Visited by {
                            if j < k {
                                assert(before[rs[j].1] == Color::Visited);
                            }
                        }
                        assert(s.color@[node as int] == Color::Visiting) by {
                            assert(inner.contains(node as int)) by {
                                assert(inner[inner.len() - 1] == node);
                            }
                        }
                    }
                }
                k += 1;
            }
            let ghost mid = s.color@;
            let ghost t = s.clock@;
            s.color.set(node, Color::Visited);
            s.finish = Ghost(s.finish@.update(node as int, t));
            s.clock = Ghost(t + 1);
            proof {
                assert forall|v: int| 0 <= v < n implies (s.color@[v] == Color::Visiting
                    <==> #[trigger] stack.contains(v)) by {
                    if v != node {
                        assert(mid[v] == Color::Visiting <==> inner.contains(v));
                        if stack.contains(v) {
                            let j = choose|j: int| 0 <= j < stack.len() && stack[j] == v;
                            assert(inner[j] == v);
                        }
                        if inner.contains(v) {
                            let j = choose|j: int| 0 <= j < inner.len() && inner[j] == v;
                            assert(stack[j] == v);
                        }
                    } else {
                        assert(!stack.contains(v)) by {
                            assert(entry[v] != Color::Visiting);
                        }
                    }
                }
                assert forall|k: int| 0 <= k < stack.len() - 1 implies #[trigger] walk_step(
                    rs,
                    stack,
                    k,
                ) by {
                    assert(walk_step(rs, inner, k));
                }
                assert forall|j: int|
                    0 <= j < rs.len() && #[trigger] s.color@[rs[j].0]
                        == Color::Visited implies {
                    &&& s.color@[rs[j].1] == Color::Visited
                    &&& s.finish@[rs[j].1] < s.finish@[rs[j].0]
                } by {
                    if rs[j].0 == node {
                        assert(mid[rs[j].1] == Color::Visited);
                    } else {
                        assert(mid[rs[j].0] == Color::Visited);
                    }
                }
            }
            false
        },
    }
}

/// Finish times fall strictly along a walk of finished nodes.
proof fn lemma_walk_finish(s: &Search, rels: Seq<(int, int)>, n: int, p: Seq<int>)
    requires
        search_ok(s, rels, n, Seq::empty()),
        forall|v: int| 0 <= v < n ==> #[trigger] s.color@[v] == Color::Visited,
        forall|k: int| 0 <= k < p.len() ==> 0 <= #[trigger] p[k] < n,
        p.len() >= 2,
        is_walk(rels, p),
    ensures
        s.finish@[p[p.len() - 1]] < s.finish@[p[0]],
    decreases p.len(),
{
    assert(walk_step(rels, p, 0));
    let k = choose|k: int| 0 <= k < rels.len() && rels[k].0 == p[0] && rels[k].1 == p[1];
    assert(s.color@[rels[k].0] == Color::Visited);
    if p.len() > 2 {
        let q = p.drop_first();
        assert forall|j: int| 0 <= j < q.len() - 1 implies #[trigger] walk_step(rels, q, j) by {
            assert(walk_step(rels, p, j + 1));
        }
        lemma_walk_finish(s, rels, n, q);
    }
}

/// The position of `x` in `ids`, which it is added to if it is not there yet.
fn intern(ids: &mut Vec<u32>, x: u32) -> (r: usize)
    requires
        old(ids)@.no_duplicates(),
    ensures
        final(ids)@.no_duplicates(),
        r < final(ids)@.len(),
        final(ids)@[r as int] == x,
        old(ids)@.len() <= final(ids)@.len(),
        forall|i: int| 0 <= i < old(ids)@.len() ==> #[trigger] final(ids)@[i] == old(ids)@[i],
{
    let mut i: usize = 0;
    while i < ids.len()
        invariant
            ids@ == old(ids)@,
            ids@.no_duplicates(),
            0 <= i <= ids@.len(),
            forall|j: int| 0 <= j < i ==> #[trigger] ids@[j] != x,
        decreases ids@.len() - i,
    {
        if ids[i] == x {
            return i;
        }
        i += 1;
    }
    ids.push(x);
    i
}

spec fn listed(ids: Seq<u32>, v: int) -> bool {
    exists|i: int| 0 <= i < ids.len() && ids[i] == v
}

/// Edges given by positions in `ids` are the relations `rels` renamed, so the two
/// graphs have the same cycles.
proof fn lemma_renamed_cycles(
    rels: Seq<DependenceRelation>,
    ids: Seq<u32>,
    edges: Seq<(usize, usize)>,
)
    requires
        ids.no_duplicates(),
        edges.len() == rels.len(),
        forall|j: int|
            0 <= j < edges.len() ==> {
                &&& #[trigger] edges[j].0 < ids.len()
                &&& edges[j].1 < ids.len()
                &&& ids[edges[j].0 as int] == rels[j].from.0
                &&& ids[edges[j].1 as int] == rels[j].to.0
            },
    ensures
        has_cycle(relation_edges(rels)) == has_cycle(index_edges(edges)),
{
    let re = relation_edges(rels);
    let ie = index_edges(edges);
    if has_cycle(ie) {
        let q = choose|q: Seq<int>| q.len() >= 2 && is_walk(ie, q) && q[0] == q[q.len() - 1];
        assert forall|k: int| 0 <= k < q.len() implies 0 <= #[trigger] q[k] < ids.len() by {
            let k2 = if k == q.len() - 1 { 0 } else { k };
            assert(walk_step(ie, q, k2));
            let e = choose|e: int| 0 <= e < ie.len() && ie[e].0 == q[k2] && ie[e].1 == q[k2 + 1];
            assert(edges[e].0 < ids.len());
        }
        let p = q.map_values(|i: int| ids[i] as int);
        assert forall|k: int| 0 <= k < p.len() - 1 implies #[trigger] walk_step(re, p, k) by {
            assert(walk_step(ie, q, k));
            let e = choose|e: int| 0 <= e < ie.len() && ie[e].0 == q[k] && ie[e].1 == q[k + 1];
            assert(edges[e].0 < ids.len());
            assert(re[e].0 == p[k] && re[e].1 == p[k + 1]);
        }
        assert(p.len() >= 2 && is_walk(re, p) && p[0] == p[p.len() - 1]);
    }
    if has_cycle(re) {
        let p = choose|p: Seq<int>| p.len() >= 2 && is_walk(re, p) && p[0] == p[p.len() - 1];
        assert forall|k: int| 0 <= k < p.len() implies #[trigger] listed(ids, p[k]) by {
            let k2 = if k == p.len() - 1 { 0 } else { k };
            assert(walk_step(re, p, k2));
            let e = choose|e: int| 0 <= e < re.len() && re[e].0 == p[k2] && re[e].1 == p[k2 + 1];
            assert(edges[e].0 < ids.len());
            assert(ids[edges[e].0 as int] == p[k]);
        }
        let q = p.map_values(|v: int| choose|i: int| 0 <= i < ids.len() && ids[i] == v);
        assert forall|k: int| 0 <= k < q.len() - 1 implies #[trigger] walk_step(ie, q, k) by {
            assert(walk_step(re, p, k));
            let e = choose|e: int| 0 <= e < re.len() && re[e].0 == p[k] && re[e].1 == p[k + 1];
            assert(edges[e].0 < ids.len());
            assert(listed(ids, p[k]));
            assert(listed(ids, p[k + 1]));
            assert(ie[e].0 == q[k]);
            assert(ie[e].1 == q[k + 1]);
        }
        assert(q.len() >= 2 && is_walk(ie, q) && q[0] == q[q.len() - 1]);
    }
}

/// True when the directed graph whose edges are `relations` has a cycle.
pub fn has_cycles(relations: &[DependenceRelation]) -> (r: bool)
    ensures
        r == has_cycle(relation_edges(relations@)),
{
    let ghost rs = relations@;
    let mut ids: Vec<u32> = Vec::new();
    let mut edges: Vec<(usize, usize)> = Vec::with_capacity(relations.len());
    let mut k: usize = 0;
    while k < relations.len()
        invariant
            rs == relations@,
            0 <= k <= rs.len(),
            ids@.no_duplicates(),
            edges@.len() == k,
            forall|j: int|
                0 <= j < k ==> {
                    &&& #[trigger] edges@[j].0 < ids@.len()
                    &&& edges@[j].1 < ids@.len()
                    &&& ids@[edges@[j].0 as int] == rs[j].from.0
                    &&& ids@[edges@[j].1 as int] == rs[j].to.0
                },
        decreases rs.len() - k,
    {
        let ghost ids0 = ids@;
        let ghost edges0 = edges@;
        let a = intern(&mut ids, relations[k].from.0);
        let ghost ids1 = ids@;
        let b = intern(&mut ids, relations[k].to.0);
        edges.push((a, b));
        proof {
            assert(ids@[a as int] == ids1[a as int]);
            assert forall|j: int| 0 <= j < k + 1 implies {
                &&& #[trigger] edges@[j].0 < ids@.len()
                &&& edges@[j].1 < ids@.len()
                &&& ids@[edges@[j].0 as int] == rs[j].from.0
                &&& ids@[edges@[j].1 as int] == rs[j].to.0
            } by {
                if j < k {
                    assert(edges@[j] == edges0[j]);
                    assert(ids1[edges0[j].0 as int] == ids0[edges0[j].0 as int]);
                    assert(ids1[edges0[j].1 as int] == ids0[edges0[j].1 as int]);
                    assert(ids@[edges0[j].0 as int] == ids1[edges0[j].0 as int]);
                    assert(ids@[edges0[j].1 as int] == ids1[edges0[j].1 as int]);
                }
            }
        }
        k += 1;
    }
    proof {
        lemma_renamed_cycles(rs, ids@, edges@);
    }
    let n = ids.len();
    let ghost ie = index_edges(edges@);
    let mut color: Vec<Color> = Vec::with_capacity(n);
    let mut i: usize = 0;
    while i < n
        invariant
            0 <= i <= n,
            color@.len() == i,
            forall|v: int| 0 <= v < i ==> #[trigger] color@[v] == Color::Unvisited,
        decreases n - i,
    {
        color.push(Color::Unvisited);
        i += 1;
    }
    let mut s = Search { color, finish: Ghost(Seq::new(n as nat, |v: int| 0int)), clock: Ghost(0) };
    proof {
        assert forall|j: int| 0 <= j < ie.len() implies 0 <= #[trigger] ie[j].0 < n && 0 <= ie[j].1
            < n by {
            assert(edges@[j].0 < ids@.len());
        }
    }
    let mut v: usize = 0;
    while v < n
        invariant
            ie == index_edges(edges@),
            rs == relations@,
            has_cycle(relation_edges(rs)) == has_cycle(ie),
            0 <= v <= n,
            s.color@.len() == n,
            search_ok(&s, ie, n as int, Seq::empty()),
            forall|u: int| 0 <= u < v ==> #[trigger] s.color@[u] == Color::Visited,
        decreases n - v,
    {
        let ghost before = s.color@;
        if dfs(v, edges.as_slice(), &mut s, Ghost(Seq::empty())) {
            return true;
        }
        proof {
            assert forall|u: int| 0 <= u <= v implies #[trigger] s.color@[u] == Color::Visited by {
                if u < v {
                    assert(before[u] == Color::Visited);
                }
            }
        }
        v += 1;
    }
    proof {
        if has_cycle(ie) {
            let p = choose|p: Seq<int>| p.len() >= 2 && is_walk(ie, p) && p[0] == p[p.len() - 1];
            assert forall|k: int| 0 <= k < p.len() implies 0 <= #[trigger] p[k] < n by {
                let k2 = if k == p.len() - 1 { 0 } else { k };
                assert(walk_step(ie, p, k2));
            }
            lemma_walk_finish(&s, ie, n as int, p);
        }
    }
    false
}

} // verus!
