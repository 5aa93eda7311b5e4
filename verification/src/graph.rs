//! Directed graphs over the nodes `0..n`, each node with the list of the
//! nodes it points to: what a walk is, which nodes a root reaches, whether a
//! cycle can be reached, and the two traversals that decide and order.

use vstd::prelude::*;
use crate::error::ErrorKind;

verus! {

/// For each node the nodes it points to, in order.
pub type Graph = Seq<Seq<int>>;

/// The graph that adjacency lists stand for.
pub open spec fn graph_of(lists: Seq<Vec<usize>>) -> Graph {
    Seq::new(lists.len(), |u: int| Seq::new(lists[u]@.len(), |k: int| lists[u]@[k] as int))
}

/// Whether every edge leads to a node of the graph.
pub open spec fn closed(g: Graph) -> bool {
    forall|u: int, k: int|
        0 <= u < g.len() && 0 <= k < g[u].len() ==> 0 <= #[trigger] g[u][k] < g.len()
}

/// Whether the graph has an edge from `u` to `v`.
pub open spec fn edge(g: Graph, u: int, v: int) -> bool {
    0 <= u < g.len() && g[u].contains(v)
}

/// Whether the graph has an edge from the `i`-th node of `p` to the next.
pub open spec fn step(g: Graph, p: Seq<int>, i: int) -> bool {
    edge(g, p[i], p[i + 1])
}

/// Whether `p` is a walk: it starts at a node of the graph and follows an
/// edge from each of its nodes to the next.
pub open spec fn walk(g: Graph, p: Seq<int>) -> bool {
    &&& p.len() >= 1
    &&& 0 <= p[0] < g.len()
    &&& forall|i: int| 0 <= i < p.len() - 1 ==> #[trigger] step(g, p, i)
}

/// Whether a walk leads from `u` to `v`. Every node reaches itself.
pub open spec fn reaches(g: Graph, u: int, v: int) -> bool {
    exists|p: Seq<int>| #[trigger] walk(g, p) && p[0] == u && p.last() == v
}

/// Whether a walk of at least one edge leads from `v` back to `v`.
pub open spec fn on_cycle(g: Graph, v: int) -> bool {
    exists|p: Seq<int>| #[trigger] walk(g, p) && p.len() >= 2 && p[0] == v && p.last() == v
}

/// Whether `root` reaches a node that lies on a cycle.
pub open spec fn cyclic_from(g: Graph, root: int) -> bool {
    exists|v: int| #[trigger] reaches(g, root, v) && on_cycle(g, v)
}

/// Whether `root` reaches every node of the graph.
pub open spec fn covered_from(g: Graph, root: int) -> bool {
    forall|v: int| 0 <= v < g.len() ==> #[trigger] reaches(g, root, v)
}

/// What is to be said of a graph and its root: a cycle within reach comes
/// first, then a node out of reach.
pub open spec fn verdict(g: Graph, root: int) -> Result<(), ErrorKind> {
    if cyclic_from(g, root) {
        Err(ErrorKind::CyclicReference)
    } else if !covered_from(g, root) {
        Err(ErrorKind::DisconnectedComponent)
    } else {
        Ok(())
    }
}

/// What is wrong with a graph as seen from its root.
#[derive(Clone, Copy, Debug, PartialEq, Eq, Structural)]
pub enum Flaw {
    /// The root reaches this node and it lies on a cycle; no node before it
    /// is such a node.
    Cycle(usize),
    /// The root does not reach this node, and reaches every node before it.
    Gap(usize),
}

/// Whether the root reaches `v` and `v` lies on a cycle.
pub open spec fn on_reached_cycle(g: Graph, root: int, v: int) -> bool {
    reaches(g, root, v) && on_cycle(g, v)
}

/// Whether the flaw is the one to be told of the graph: a cycle comes
/// before a gap, and of the nodes at fault the first is told.
pub open spec fn is_flaw(g: Graph, root: int, flaw: Flaw) -> bool {
    match flaw {
        Flaw::Cycle(v) => v < g.len() && on_reached_cycle(g, root, v as int) && forall|w: int|
            0 <= w < v ==> !#[trigger] on_reached_cycle(g, root, w),
        Flaw::Gap(v) => !cyclic_from(g, root) && v < g.len() && !reaches(g, root, v as int)
            && forall|w: int| 0 <= w < v ==> #[trigger] reaches(g, root, w),
    }
}

/// Not yet met.
pub const UNVISITED: u8 = 0;

/// Entered and not yet left: the node lies on the path from the root to the
/// node at hand.
pub const ON_PATH: u8 = 1;

/// Left again, with everything it reaches.
pub const VISITED: u8 = 2;

/// The number of nodes not yet met.
pub open spec fn unvisited(state: Seq<u8>) -> nat
    decreases state.len(),
{
    if state.len() == 0 {
        0
    } else {
        unvisited(state.drop_last()) + if state.last() == UNVISITED {
            1nat
        } else {
            0nat
        }
    }
}

/// What a new mark does to the number of nodes not yet met.
proof fn lemma_unvisited_update(state: Seq<u8>, i: int, to: u8)
    requires
        0 <= i < state.len(),
    ensures
        unvisited(state.update(i, to)) + (if state[i] == UNVISITED {
            1nat
        } else {
            0nat
        }) == unvisited(state) + (if to == UNVISITED {
            1nat
        } else {
            0nat
        }),
    decreases state.len(),
{
    let after = state.update(i, to);
    if i == state.len() - 1 {
        assert(after.drop_last() =~= state.drop_last());
    } else {
        assert(after.drop_last() =~= state.drop_last().update(i, to));
        lemma_unvisited_update(state.drop_last(), i, to);
    }
}

/// A node that has been left: the root reaches it, it lies on no cycle, and
/// every node it points to has been left too.
spec fn settled(g: Graph, root: int, state: Seq<u8>, v: int) -> bool {
    &&& reaches(g, root, v)
    &&& !on_cycle(g, v)
    &&& forall|k: int| 0 <= k < g[v].len() ==> state[#[trigger] g[v][k]] == VISITED
}

/// What holds between two steps of the depth-first traversal: the nodes on
/// the path are those entered and not left, in the order of a walk from the
/// root, and every node left is settled.
spec fn traversal(g: Graph, root: int, state: Seq<u8>, path: Seq<int>) -> bool {
    &&& state.len() == g.len()
    &&& forall|v: int| 0 <= v < g.len() ==> #[trigger] state[v] <= VISITED
    &&& closed(g)
    &&& path.len() > 0 ==> walk(g, path) && path[0] == root
    &&& forall|i: int|
        0 <= i < path.len() ==> 0 <= #[trigger] path[i] < g.len() && state[path[i]] == ON_PATH
    &&& forall|v: int| 0 <= v < g.len() && #[trigger] state[v] == ON_PATH ==> path.contains(v)
    &&& forall|v: int| 0 <= v < g.len() && #[trigger] state[v] == VISITED ==> settled(g, root, state, v)
}

/// The place of `v` among the nodes that `u` points to.
pub open spec fn edge_index(g: Graph, u: int, v: int) -> int {
    choose|k: int| 0 <= k < g[u].len() && g[u][k] == v
}

/// An edge has a place in its list, and leads to a node of the graph.
pub proof fn lemma_edge(g: Graph, u: int, v: int)
    requires
        closed(g),
        edge(g, u, v),
    ensures
        0 <= edge_index(g, u, v) < g[u].len(),
        g[u][edge_index(g, u, v)] == v,
        0 <= v < g.len(),
{
    let k = edge_index(g, u, v);
    assert(0 <= g[u][k] < g.len());
}

/// A walk with one more edge at its end is a walk.
pub proof fn lemma_walk_push(g: Graph, p: Seq<int>, v: int)
    requires
        walk(g, p),
        edge(g, p.last(), v),
    ensures
        walk(g, p.push(v)),
{
    let q = p.push(v);
    assert forall|i: int| 0 <= i < q.len() - 1 implies #[trigger] step(g, q, i) by {
        if i < p.len() - 1 {
            assert(step(g, p, i));
        }
    }
}

/// The part of a walk from its `i`-th node on is a walk.
pub proof fn lemma_walk_skip(g: Graph, p: Seq<int>, i: int)
    requires
        walk(g, p),
        closed(g),
        0 <= i < p.len(),
    ensures
        walk(g, p.skip(i)),
        0 <= p[i] < g.len(),
    decreases i,
{
    let q = p.skip(i);
    if i > 0 {
        lemma_walk_skip(g, p, i - 1);
        assert(step(g, p, i - 1));
        lemma_edge(g, p[i - 1], p[i]);
    }
    assert forall|j: int| 0 <= j < q.len() - 1 implies #[trigger] step(g, q, j) by {
        assert(step(g, p, i + j));
    }
}

/// The part of a walk up to its `i`-th node is a walk.
pub proof fn lemma_walk_take(g: Graph, p: Seq<int>, i: int)
    requires
        walk(g, p),
        0 <= i < p.len(),
    ensures
        walk(g, p.take(i + 1)),
{
    let q = p.take(i + 1);
    assert forall|j: int| 0 <= j < q.len() - 1 implies #[trigger] step(g, q, j) by {
        assert(step(g, p, j));
    }
}

/// On a cycle through `v`, the node after `v` lies on a cycle too.
proof fn lemma_cycle_next(g: Graph, p: Seq<int>)
    requires
        closed(g),
        walk(g, p),
        p.len() >= 2,
        p[0] == p.last(),
    ensures
        on_cycle(g, p[1]),
        edge(g, p[0], p[1]),
{
    assert(step(g, p, 0));
    lemma_walk_skip(g, p, 1);
    let q = p.skip(1).push(p[1]);
    lemma_walk_push(g, p.skip(1), p[1]);
    assert(walk(g, q));
}

/// Where the path is a walk from the root and its last node points to a node
/// of the path, the root reaches a cycle.
proof fn lemma_back_edge(g: Graph, root: int, path: Seq<int>, v: int)
    requires
        closed(g),
        walk(g, path),
        path[0] == root,
        path.contains(v),
        edge(g, path.last(), v),
    ensures
        reaches(g, root, v),
        on_cycle(g, v),
        cyclic_from(g, root),
{
    let i = choose|i: int| 0 <= i < path.len() && path[i] == v;
    lemma_walk_take(g, path, i);
    assert(path.take(i + 1).last() == v);
    assert(reaches(g, root, v));
    lemma_walk_skip(g, path, i);
    lemma_walk_push(g, path.skip(i), v);
    let cycle = path.skip(i).push(v);
    assert(walk(g, cycle) && cycle.len() >= 2 && cycle[0] == v && cycle.last() == v);
    assert(on_cycle(g, v));
}

/// Enters `u`, follows every edge from it, and leaves it again. As soon as
/// an edge leads to a node on the path, it gives that node.
fn visit(
    lists: &Vec<Vec<usize>>,
    Ghost(root): Ghost<int>,
    u: usize,
    state: &mut Vec<u8>,
    Ghost(path): Ghost<Seq<int>>,
) -> (found: Option<usize>)
    requires
        u < lists.len(),
        traversal(graph_of(lists@), root, old(state)@, path),
        old(state)@[u as int] == UNVISITED,
        path.len() > 0 ==> edge(graph_of(lists@), path.last(), u as int),
        path.len() == 0 ==> u == root,
    ensures
        found matches Some(v) ==> v < lists.len() && on_reached_cycle(
            graph_of(lists@),
            root,
            v as int,
        ),
        found is None ==> traversal(graph_of(lists@), root, final(state)@, path),
        found is None ==> final(state)@[u as int] == VISITED,
        found is None ==> forall|v: int|
            0 <= v < lists.len() && old(state)@[v] != UNVISITED ==> #[trigger] final(state)@[v]
                == old(state)@[v],
        found is None ==> forall|v: int|
            0 <= v < lists.len() ==> #[trigger] final(state)@[v] == old(state)@[v]
                || final(state)@[v] == VISITED,
        found is None ==> unvisited(final(state)@) < unvisited(old(state)@),
    decreases unvisited(old(state)@),
{
    let ghost g = graph_of(lists@);
    let ghost entry = state@;
    let ghost here = path.push(u as int);
    state[u] = ON_PATH;
    proof {
        lemma_unvisited_update(entry, u as int, ON_PATH);
        if path.len() > 0 {
            lemma_walk_push(g, path, u as int);
        }
        assert(walk(g, here));
        assert forall|v: int| 0 <= v < g.len() && #[trigger] state@[v] == ON_PATH implies here.contains(
            v,
        ) by {
            if v == u {
                assert(here[here.len() - 1] == v);
            } else {
                assert(path.contains(v));
                let i = choose|i: int| 0 <= i < path.len() && path[i] == v;
                assert(here[i] == v);
            }
        }
        assert forall|v: int| 0 <= v < g.len() && #[trigger] state@[v] == VISITED implies settled(
            g,
            root,
            state@,
            v,
        ) by {
            assert(settled(g, root, entry, v));
            assert forall|k: int| 0 <= k < g[v].len() implies state@[#[trigger] g[v][k]]
                == VISITED by {
                assert(entry[g[v][k]] == VISITED);
            }
        }
        assert(traversal(g, root, state@, here));
    }
    let mut k: usize = 0;
    while k < lists[u].len()
        invariant
            u < lists.len(),
            k <= lists[u as int]@.len(),
            g == graph_of(lists@),
            here == path.push(u as int),
            entry == old(state)@,
            entry.len() == g.len(),
            entry[u as int] == UNVISITED,
            traversal(g, root, state@, here),
            state@[u as int] == ON_PATH,
            forall|j: int| 0 <= j < k ==> state@[#[trigger] g[u as int][j]] == VISITED,
            forall|v: int|
                0 <= v < lists.len() && entry[v] != UNVISITED ==> #[trigger] state@[v] == entry[v],
            forall|v: int|
                0 <= v < lists.len() && v != u ==> #[trigger] state@[v] == entry[v] || state@[v]
                    == VISITED,
            unvisited(state@) < unvisited(entry),
        decreases lists[u as int]@.len() - k,
    {
        let v = lists[u][k];
        proof {
            assert(g[u as int][k as int] == v);
            assert(g[u as int].contains(v as int));
            assert(edge(g, here.last(), v as int));
        }
        let seen = state[v];
        if seen == ON_PATH {
            proof {
                lemma_back_edge(g, root, here, v as int);
            }
            return Some(v);
        }
        if seen == UNVISITED {
            let ghost before = state@;
            let deeper = visit(lists, Ghost(root), v, state, Ghost(here));
            if deeper.is_some() {
                return deeper;
            }
            proof {
                assert(before[u as int] != UNVISITED);
                assert forall|j: int| 0 <= j < k implies state@[#[trigger] g[u as int][j]]
                    == VISITED by {
                    assert(before[g[u as int][j]] == VISITED);
                }
            }
        }
        k += 1;
    }
    let ghost inside = state@;
    state[u] = VISITED;
    proof {
        lemma_unvisited_update(inside, u as int, VISITED);
        lemma_leave(g, root, inside, path, u as int);
    }
    None
}

/// Leaving `u`, the last node of the path, after every node it points to
/// has been left.
proof fn lemma_leave(g: Graph, root: int, inside: Seq<u8>, path: Seq<int>, u: int)
    requires
        0 <= u < g.len(),
        traversal(g, root, inside, path.push(u)),
        inside[u] == ON_PATH,
        forall|j: int| 0 <= j < g[u].len() ==> inside[#[trigger] g[u][j]] == VISITED,
    ensures
        traversal(g, root, inside.update(u, VISITED), path),
{
    let here = path.push(u);
    let after = inside.update(u, VISITED);
    assert(here.last() == u);
    assert(reaches(g, root, u));
    if on_cycle(g, u) {
        let p = choose|p: Seq<int>| #[trigger] walk(g, p) && p.len() >= 2 && p[0] == u && p.last() == u;
        lemma_cycle_next(g, p);
        lemma_edge(g, u, p[1]);
        assert(inside[g[u][edge_index(g, u, p[1])]] == VISITED);
        assert(settled(g, root, inside, p[1]));
    }
    assert forall|v: int| 0 <= v < g.len() && #[trigger] after[v] == VISITED implies settled(
        g,
        root,
        after,
        v,
    ) by {
        if v != u {
            assert(settled(g, root, inside, v));
        }
        assert forall|k: int| 0 <= k < g[v].len() implies after[#[trigger] g[v][k]] == VISITED by {
            assert(inside[g[v][k]] == VISITED);
        }
    }
    assert forall|i: int| 0 <= i < path.len() implies 0 <= #[trigger] path[i] < g.len() && after[path[i]]
        == ON_PATH by {
        assert(here[i] == path[i]);
        if path[i] == u {
            // then `u` lies on a cycle: the walk from it along the path back to it
            lemma_walk_skip(g, here, i);
            let cycle = here.skip(i);
            assert(cycle.len() >= 2 && cycle[0] == u && cycle.last() == u);
            assert(on_cycle(g, u));
            let p = choose|p: Seq<int>| #[trigger] walk(g, p) && p.len() >= 2 && p[0] == u && p.last() == u;
            lemma_cycle_next(g, p);
            lemma_edge(g, u, p[1]);
            assert(inside[g[u][edge_index(g, u, p[1])]] == VISITED);
            assert(settled(g, root, inside, p[1]));
        }
    }
    assert forall|v: int| 0 <= v < g.len() && #[trigger] after[v] == ON_PATH implies path.contains(
        v,
    ) by {
        assert(here.contains(v));
        let i = choose|i: int| 0 <= i < here.len() && here[i] == v;
        assert(path[i] == v);
    }
    if path.len() > 0 {
        lemma_walk_take(g, here, path.len() - 1);
        assert(here.take(path.len() as int) =~= path);
    }
}

/// Once the root has been left and the path is empty, every node that the
/// root reaches has been left.
proof fn lemma_reached_visited(g: Graph, root: int, state: Seq<u8>, p: Seq<int>, i: int)
    requires
        traversal(g, root, state, Seq::empty()),
        0 <= root < g.len(),
        state[root] == VISITED,
        walk(g, p),
        p[0] == root,
        0 <= i < p.len(),
    ensures
        0 <= p[i] < g.len(),
        state[p[i]] == VISITED,
    decreases i,
{
    if i > 0 {
        lemma_reached_visited(g, root, state, p, i - 1);
        assert(step(g, p, i - 1));
        let a = p[i - 1];
        lemma_edge(g, a, p[i]);
        assert(settled(g, root, state, a));
        assert(state[g[a][edge_index(g, a, p[i])]] == VISITED);
    }
}

/// Whether `v` is among the nodes of the list.
fn holds(list: &Vec<usize>, v: usize) -> (found: bool)
    ensures
        found == nodes(list@).contains(v as int),
{
    let mut i: usize = 0;
    while i < list.len()
        invariant
            i <= list.len(),
            forall|j: int| 0 <= j < i ==> nodes(list@)[j] != v,
        decreases list.len() - i,
    {
        if list[i] == v {
            assert(nodes(list@)[i as int] == v);
            return true;
        }
        i += 1;
    }
    false
}

/// Whether the node `c` lies on a cycle: one of the nodes it points to
/// reaches it.
pub fn lies_on_cycle(lists: &Vec<Vec<usize>>, c: usize) -> (found: bool)
    requires
        closed(graph_of(lists@)),
        c < lists.len(),
    ensures
        found == on_cycle(graph_of(lists@), c as int),
{
    let ghost g = graph_of(lists@);
    let mut k: usize = 0;
    while k < lists[c].len()
        invariant
            c < lists.len(),
            k <= lists[c as int]@.len(),
            g == graph_of(lists@),
            closed(g),
            forall|j: int| 0 <= j < k ==> !reaches(g, #[trigger] g[c as int][j], c as int),
        decreases lists[c as int]@.len() - k,
    {
        let w = lists[c][k];
        proof {
            assert(g[c as int][k as int] == w);
            assert(0 <= g[c as int][k as int] < g.len());
        }
        let within = bfs_order(lists, w);
        if holds(&within, c) {
            proof {
                assert(reaches(g, w as int, c as int));
                let q = choose|q: Seq<int>| #[trigger] walk(g, q) && q[0] == w && q.last() == c;
                assert(g[c as int].contains(w as int));
                // from `c` to `w`, and on from `w` to `c`
                let around = seq![c as int] + q;
                assert forall|i: int| 0 <= i < around.len() - 1 implies #[trigger] step(g, around, i) by {
                    if i == 0 {
                        assert(edge(g, c as int, w as int));
                    } else {
                        assert(step(g, q, i - 1));
                    }
                }
                assert(walk(g, around) && around.len() >= 2 && around[0] == c && around.last() == c);
            }
            return true;
        }
        k += 1;
    }
    proof {
        if on_cycle(g, c as int) {
            let p = choose|p: Seq<int>| #[trigger]
                walk(g, p) && p.len() >= 2 && p[0] == c && p.last() == c;
            lemma_cycle_next(g, p);
            lemma_edge(g, c as int, p[1]);
            lemma_walk_skip(g, p, 1);
            assert(p.skip(1).last() == c);
            assert(reaches(g, p[1], c as int));
            assert(g[c as int][edge_index(g, c as int, p[1])] == p[1]);
        }
    }
    false
}

/// The first of the nodes that the root reaches and that lie on a cycle;
/// `v` is one of them.
fn first_on_cycle(lists: &Vec<Vec<usize>>, root: usize, v: usize) -> (first: usize)
    requires
        closed(graph_of(lists@)),
        root < lists.len(),
        v < lists.len(),
        on_reached_cycle(graph_of(lists@), root as int, v as int),
    ensures
        is_flaw(graph_of(lists@), root as int, Flaw::Cycle(first)),
{
    let ghost g = graph_of(lists@);
    let within = bfs_order(lists, root);
    let mut c: usize = 0;
    while c < v
        invariant
            c <= v,
            v < lists.len(),
            root < lists.len(),
            g == graph_of(lists@),
            closed(g),
            forall|x: int|
                0 <= x < lists.len() ==> (nodes(within@).contains(x) <==> #[trigger] reaches(
                    g,
                    root as int,
                    x,
                )),
            forall|w: int| 0 <= w < c ==> !#[trigger] on_reached_cycle(g, root as int, w),
        decreases v - c,
    {
        if holds(&within, c) && lies_on_cycle(lists, c) {
            return c;
        }
        c += 1;
    }
    v
}

/// The kind of failure that a flaw is.
pub open spec fn kind_of(r: Result<(), Flaw>) -> Result<(), ErrorKind> {
    match r {
        Ok(_) => Ok(()),
        Err(Flaw::Cycle(_)) => Err(ErrorKind::CyclicReference),
        Err(Flaw::Gap(_)) => Err(ErrorKind::DisconnectedComponent),
    }
}

/// Decides whether the graph is sound as seen from `root`: no cycle within
/// reach, and every node within reach. The traversal goes depth first and
/// marks each node as unvisited, on the path, or visited; an edge to a node on
/// the path closes a cycle.
pub fn validate_structure(lists: &Vec<Vec<usize>>, root: usize) -> (r: Result<(), Flaw>)
    requires
        closed(graph_of(lists@)),
        root < lists.len(),
    ensures
        kind_of(r) == verdict(graph_of(lists@), root as int),
        r matches Err(flaw) ==> is_flaw(graph_of(lists@), root as int, flaw),
{
    let ghost g = graph_of(lists@);
    let mut state: Vec<u8> = Vec::new();
    let mut n: usize = 0;
    while n < lists.len()
        invariant
            n <= lists.len(),
            state.len() == n,
            forall|v: int| 0 <= v < n ==> #[trigger] state@[v] == UNVISITED,
        decreases lists.len() - n,
    {
        state.push(UNVISITED);
        n += 1;
    }
    assert(traversal(g, root as int, state@, Seq::empty()));
    match visit(lists, Ghost(root as int), root, &mut state, Ghost(Seq::empty())) {
        Some(v) => {
            return Err(Flaw::Cycle(first_on_cycle(lists, root, v)));
        },
        None => {},
    }
    proof {
        if cyclic_from(g, root as int) {
            let v = choose|v: int| #[trigger] reaches(g, root as int, v) && on_cycle(g, v);
            let p = choose|p: Seq<int>| #[trigger] walk(g, p) && p[0] == root && p.last() == v;
            lemma_reached_visited(g, root as int, state@, p, p.len() - 1);
            assert(settled(g, root as int, state@, v));
        }
    }
    let mut i: usize = 0;
    while i < lists.len()
        invariant
            i <= lists.len(),
            g == graph_of(lists@),
            root < lists.len(),
            state@[root as int] == VISITED,
            traversal(g, root as int, state@, Seq::empty()),
            !cyclic_from(g, root as int),
            forall|v: int| 0 <= v < i ==> #[trigger] reaches(g, root as int, v),
        decreases lists.len() - i,
    {
        if state[i] != VISITED {
            proof {
                if reaches(g, root as int, i as int) {
                    let p = choose|p: Seq<int>| #[trigger]
                        walk(g, p) && p[0] == root && p.last() == i;
                    lemma_reached_visited(g, root as int, state@, p, p.len() - 1);
                }
                assert(!reaches(g, root as int, i as int));
            }
            return Err(Flaw::Gap(i));
        }
        proof {
            assert(settled(g, root as int, state@, i as int));
        }
        i += 1;
    }
    Ok(())
}

/// The nodes of a list of indices.
pub open spec fn nodes(list: Seq<usize>) -> Seq<int> {
    Seq::new(list.len(), |i: int| list[i] as int)
}

/// `order`, and behind it those of `more` that are not in it yet, each once
/// and in the order in which `more` has them.
pub open spec fn with_new(order: Seq<int>, more: Seq<int>) -> Seq<int>
    decreases more.len(),
{
    if more.len() == 0 {
        order
    } else {
        let before = with_new(order, more.drop_last());
        if before.contains(more.last()) {
            before
        } else {
            before.push(more.last())
        }
    }
}

/// The breadth-first order that grows out of `order`: from place `head` on,
/// each node in turn brings in the nodes it points to that are new.
pub open spec fn bfs_from(g: Graph, order: Seq<int>, head: nat) -> Seq<int>
    decreases g.len() - head,
{
    if head < order.len() && head < g.len() && 0 <= order[head as int] < g.len() {
        bfs_from(g, with_new(order, g[order[head as int]]), head + 1)
    } else {
        order
    }
}

/// The nodes that `root` reaches, breadth first: the root, then the nodes it
/// points to, then those that these point to, and so on, each node where it is
/// first met.
pub open spec fn bfs(g: Graph, root: int) -> Seq<int> {
    bfs_from(g, seq![root], 0)
}

/// The order stays as it starts while it grows.
proof fn lemma_with_new_keeps(order: Seq<int>, more: Seq<int>)
    ensures
        with_new(order, more).len() >= order.len(),
        forall|i: int| 0 <= i < order.len() ==> with_new(order, more)[i] == order[i],
    decreases more.len(),
{
    if more.len() > 0 {
        lemma_with_new_keeps(order, more.drop_last());
    }
}

/// The breadth-first order that grows out of an order starts with it.
proof fn lemma_bfs_from_keeps(g: Graph, order: Seq<int>, head: nat)
    ensures
        bfs_from(g, order, head).len() >= order.len(),
        forall|i: int| 0 <= i < order.len() ==> bfs_from(g, order, head)[i] == order[i],
    decreases g.len() - head,
{
    if head < order.len() && head < g.len() && 0 <= order[head as int] < g.len() {
        let next = with_new(order, g[order[head as int]]);
        lemma_with_new_keeps(order, g[order[head as int]]);
        lemma_bfs_from_keeps(g, next, head + 1);
    }
}

/// The breadth-first order starts at the root.
pub proof fn lemma_bfs_first(g: Graph, root: int)
    ensures
        bfs(g, root).len() >= 1,
        bfs(g, root)[0] == root,
{
    lemma_bfs_from_keeps(g, seq![root], 0);
}

/// How many nodes are marked.
spec fn marks(seen: Seq<bool>) -> nat
    decreases seen.len(),
{
    if seen.len() == 0 {
        0
    } else {
        marks(seen.drop_last()) + if seen.last() {
            1nat
        } else {
            0nat
        }
    }
}

/// No more nodes are marked than there are.
proof fn lemma_marks_bound(seen: Seq<bool>)
    ensures
        marks(seen) <= seen.len(),
    decreases seen.len(),
{
    if seen.len() > 0 {
        lemma_marks_bound(seen.drop_last());
    }
}

/// A new mark is one mark more.
proof fn lemma_marks_update(seen: Seq<bool>, i: int)
    requires
        0 <= i < seen.len(),
        !seen[i],
    ensures
        marks(seen.update(i, true)) == marks(seen) + 1,
    decreases seen.len(),
{
    let after = seen.update(i, true);
    if i == seen.len() - 1 {
        assert(after.drop_last() =~= seen.drop_last());
    } else {
        assert(after.drop_last() =~= seen.drop_last().update(i, true));
        lemma_marks_update(seen.drop_last(), i);
    }
}

/// Where no node is marked, the number of marks is zero.
proof fn lemma_no_marks(seen: Seq<bool>)
    requires
        forall|i: int| 0 <= i < seen.len() ==> !seen[i],
    ensures
        marks(seen) == 0,
    decreases seen.len(),
{
    if seen.len() > 0 {
        lemma_no_marks(seen.drop_last());
    }
}

/// Whether a walk of exactly `d` edges leads from `u` to `v`.
pub open spec fn reaches_in(g: Graph, u: int, v: int, d: nat) -> bool {
    exists|p: Seq<int>| #[trigger] walk(g, p) && p[0] == u && p.last() == v && p.len() == d + 1
}

/// Whether `d` is the distance from `u` to `v`: the least number of edges
/// of a walk from `u` to `v`.
pub open spec fn is_distance(g: Graph, u: int, v: int, d: nat) -> bool {
    reaches_in(g, u, v, d) && forall|e: nat| e < d ==> !#[trigger] reaches_in(g, u, v, e)
}

/// Whether the nodes of `order` come by their distance from `root`: no
/// node stands before a node that is nearer to the root.
pub open spec fn by_distance(g: Graph, root: int, order: Seq<int>) -> bool {
    forall|i: int, j: int, a: nat, b: nat|
        0 <= i <= j < order.len() && #[trigger] is_distance(g, root, order[i], a)
            && #[trigger] is_distance(g, root, order[j], b) ==> a <= b
}

/// Whether the node at place `i` of `order` is pointed to by a node that
/// stands before it.
pub open spec fn led_to(g: Graph, order: Seq<int>, i: int) -> bool {
    exists|a: int| 0 <= a < i && edge(g, #[trigger] order[a], order[i])
}

/// What holds of the levels while the order grows: each node has the
/// number of edges of a walk from the root to it, and the numbers never fall.
spec fn leveled(g: Graph, root: int, order: Seq<int>, levels: Seq<nat>) -> bool {
    &&& levels.len() == order.len()
    &&& forall|a: int, b: int| 0 <= a <= b < levels.len() ==> levels[a] <= levels[b]
    &&& forall|a: int| 0 <= a < order.len() ==> reaches_in(g, root, order[a], #[trigger] levels[a])
}

/// Whether `w` stands in `order` with a level of at most `bound`.
spec fn near(order: Seq<int>, levels: Seq<nat>, w: int, bound: nat) -> bool {
    exists|b: int|
        0 <= b < order.len() && b < levels.len() && #[trigger] order[b] == w && levels[b] <= bound
}

/// Where each node of `order` points only to nodes whose level is at most
/// one more than its own, a walk of `i` edges from the root ends at a node
/// of level `i` at most.
proof fn lemma_level_bound(g: Graph, order: Seq<int>, levels: Seq<nat>, p: Seq<int>, i: int)
    requires
        closed(g),
        walk(g, p),
        order.len() >= 1,
        levels.len() == order.len(),
        order[0] == p[0],
        levels[0] == 0,
        forall|a: int, k: int|
            0 <= a < order.len() && 0 <= order[a] < g.len() && 0 <= k < g[order[a]].len() ==> near(
                order,
                levels,
                #[trigger] g[order[a]][k],
                levels[a] + 1,
            ),
        forall|a: int| 0 <= a < order.len() ==> 0 <= #[trigger] order[a] < g.len(),
        0 <= i < p.len(),
    ensures
        near(order, levels, p[i], i as nat),
    decreases i,
{
    if i == 0 {
        assert(order[0] == p[0] && levels[0] <= 0);
    } else {
        lemma_level_bound(g, order, levels, p, i - 1);
        let u = p[i - 1];
        let a = choose|a: int|
            0 <= a < order.len() && a < levels.len() && #[trigger] order[a] == u && levels[a] <= i
                - 1;
        assert(step(g, p, i - 1));
        lemma_edge(g, u, p[i]);
        let k = edge_index(g, u, p[i]);
        assert(near(order, levels, g[order[a]][k], levels[a] + 1));
        let b = choose|b: int|
            0 <= b < order.len() && b < levels.len() && #[trigger] order[b] == p[i] && levels[b]
                <= levels[a] + 1;
        assert(order[b] == p[i] && levels[b] <= i);
    }
}

/// What holds of the order while it grows.
spec fn growing(g: Graph, root: int, order: Seq<int>, seen: Seq<bool>) -> bool {
    &&& closed(g)
    &&& seen.len() == g.len()
    &&& order.len() >= 1
    &&& order[0] == root
    &&& order.no_duplicates()
    &&& marks(seen) == order.len()
    &&& forall|i: int| 0 <= i < order.len() ==> 0 <= #[trigger] order[i] < g.len()
    &&& forall|i: int| 0 <= i < order.len() ==> reaches(g, root, #[trigger] order[i])
    &&& forall|v: int| 0 <= v < g.len() ==> (#[trigger] seen[v] <==> order.contains(v))
}

/// Where every node of `order` points to nodes of `order` only, a walk that
/// starts in `order` stays in it.
proof fn lemma_stays_inside(g: Graph, order: Seq<int>, p: Seq<int>, i: int)
    requires
        closed(g),
        walk(g, p),
        order.contains(p[0]),
        forall|a: int, k: int|
            0 <= a < order.len() && 0 <= order[a] < g.len() && 0 <= k < g[order[a]].len()
                ==> order.contains(#[trigger] g[order[a]][k]),
        forall|a: int| 0 <= a < order.len() ==> 0 <= #[trigger] order[a] < g.len(),
        0 <= i < p.len(),
    ensures
        order.contains(p[i]),
    decreases i,
{
    if i > 0 {
        lemma_stays_inside(g, order, p, i - 1);
        assert(step(g, p, i - 1));
        let u = p[i - 1];
        lemma_edge(g, u, p[i]);
        let a = choose|a: int| 0 <= a < order.len() && order[a] == u;
        assert(order.contains(g[order[a]][edge_index(g, u, p[i])]));
    }
}

/// The nodes that `root` reaches, in breadth-first order.
pub fn bfs_order(lists: &Vec<Vec<usize>>, root: usize) -> (order: Vec<usize>)
    requires
        closed(graph_of(lists@)),
        root < lists.len(),
    ensures
        nodes(order@) == bfs(graph_of(lists@), root as int),
        1 <= order.len() <= lists.len(),
        order@[0] == root,
        nodes(order@).no_duplicates(),
        forall|i: int| 0 <= i < order.len() ==> #[trigger] order@[i] < lists.len(),
        forall|v: int|
            0 <= v < lists.len() ==> (nodes(order@).contains(v) <==> #[trigger] reaches(
                graph_of(lists@),
                root as int,
                v,
            )),
        by_distance(graph_of(lists@), root as int, nodes(order@)),
        forall|i: int| 0 < i < order.len() ==> #[trigger] led_to(graph_of(lists@), nodes(order@), i),
{
    let ghost g = graph_of(lists@);
    let mut seen: Vec<bool> = Vec::new();
    let mut n: usize = 0;
    while n < lists.len()
        invariant
            n <= lists.len(),
            seen.len() == n,
            forall|v: int| 0 <= v < n ==> !#[trigger] seen@[v],
        decreases lists.len() - n,
    {
        seen.push(false);
        n += 1;
    }
    let mut order: Vec<usize> = Vec::new();
    order.push(root);
    proof {
        lemma_no_marks(seen@);
        lemma_marks_update(seen@, root as int);
    }
    seen[root] = true;
    proof {
        let o = nodes(order@);
        assert(o =~= seq![root as int]);
        assert(walk(g, o));
        assert(reaches(g, root as int, o[0]));
        assert forall|v: int| 0 <= v < g.len() implies (#[trigger] seen@[v] <==> o.contains(v)) by {
            if v == root {
                assert(o[0] == v);
            }
        }
        assert(growing(g, root as int, o, seen@));
    }
    let ghost mut levels: Seq<nat> = seq![0nat];
    proof {
        let o = nodes(order@);
        assert(walk(g, o) && o[0] == root && o.last() == root && o.len() == 1);
        assert(reaches_in(g, root as int, o[0], 0));
    }
    let mut head: usize = 0;
    while head < order.len()
        invariant
            head <= order.len(),
            g == graph_of(lists@),
            root < lists.len(),
            growing(g, root as int, nodes(order@), seen@),
            bfs_from(g, nodes(order@), head as nat) == bfs(g, root as int),
            forall|a: int, k: int|
                0 <= a < head && 0 <= k < g[nodes(order@)[a]].len() ==> nodes(order@).contains(
                    #[trigger] g[nodes(order@)[a]][k],
                ),
            leveled(g, root as int, nodes(order@), levels),
            levels[0] == 0,
            head < order.len() ==> forall|a: int|
                0 <= a < levels.len() ==> #[trigger] levels[a] <= levels[head as int] + 1,
            forall|a: int, k: int|
                0 <= a < head && 0 <= k < g[nodes(order@)[a]].len() ==> near(
                    nodes(order@),
                    levels,
                    #[trigger] g[nodes(order@)[a]][k],
                    levels[a] + 1,
                ),
        decreases lists.len() - head,
    {
        proof {
            lemma_marks_bound(seen@);
        }
        let u = order[head];
        let ghost start = nodes(order@);
        let ghost start_levels = levels;
        assert(start[head as int] == u);
        let mut k: usize = 0;
        while k < lists[u].len()
            invariant
                u < lists.len(),
                k <= lists[u as int]@.len(),
                head < start.len(),
                start[head as int] == u,
                g == graph_of(lists@),
                growing(g, root as int, nodes(order@), seen@),
                nodes(order@) == with_new(start, g[u as int].take(k as int)),
                start.len() <= order.len(),
                forall|i: int| 0 <= i < start.len() ==> nodes(order@)[i] == start[i],
                forall|j: int| 0 <= j < k ==> nodes(order@).contains(#[trigger] g[u as int][j]),
                leveled(g, root as int, nodes(order@), levels),
                levels[0] == 0,
                start_levels.len() == start.len(),
                forall|i: int| 0 <= i < start.len() ==> levels[i] == start_levels[i],
                forall|a: int|
                    0 <= a < levels.len() ==> #[trigger] levels[a] <= levels[head as int] + 1,
                forall|a: int, j: int|
                    0 <= a < head && 0 <= j < g[start[a]].len() ==> near(
                        nodes(order@),
                        levels,
                        #[trigger] g[start[a]][j],
                        start_levels[a] + 1,
                    ),
                forall|j: int|
                    0 <= j < k ==> near(
                        nodes(order@),
                        levels,
                        #[trigger] g[u as int][j],
                        levels[head as int] + 1,
                    ),
            decreases lists[u as int]@.len() - k,
        {
            let v = lists[u][k];
            let ghost before = nodes(order@);
            let ghost before_levels = levels;
            proof {
                assert(g[u as int][k as int] == v);
                assert(g[u as int].take(k + 1).drop_last() =~= g[u as int].take(k as int));
                assert(g[u as int].take(k + 1).last() == v);
            }
            if !seen[v] {
                proof {
                    lemma_marks_update(seen@, v as int);
                    // the root reaches `v` through `u`
                    let p = choose|p: Seq<int>| #[trigger]
                        walk(g, p) && p[0] == root && p.last() == u;
                    assert(g[u as int].contains(v as int));
                    lemma_walk_push(g, p, v as int);
                    assert(p.push(v as int).last() == v);
                    assert(reaches(g, root as int, v as int));
                }
                seen[v] = true;
                order.push(v);
                proof {
                    let o = nodes(order@);
                    assert(o =~= before.push(v as int));
                    let level = levels[head as int] + 1;
                    levels = levels.push(level);
                    // a walk to `u`, and one edge more
                    let q = choose|q: Seq<int>| #[trigger]
                        walk(g, q) && q[0] == root && q.last() == u && q.len()
                            == before_levels[head as int] + 1;
                    lemma_walk_push(g, q, v as int);
                    assert(q.push(v as int).last() == v);
                    assert(reaches_in(g, root as int, v as int, level));
                    assert forall|a: int| 0 <= a < o.len() implies reaches_in(
                        g,
                        root as int,
                        o[a],
                        #[trigger] levels[a],
                    ) by {
                        if a < before.len() {
                            assert(reaches_in(g, root as int, before[a], before_levels[a]));
                        }
                    }
                    assert(leveled(g, root as int, o, levels));
                    assert forall|a: int, j: int|
                        0 <= a < head && 0 <= j < g[start[a]].len() implies near(
                        o,
                        levels,
                        #[trigger] g[start[a]][j],
                        start_levels[a] + 1,
                    ) by {
                        lemma_near_stays(before, before_levels, v as int, level, g[start[a]][j], start_levels[a] + 1);
                    }
                    assert forall|j: int| 0 <= j < k + 1 implies near(
                        o,
                        levels,
                        #[trigger] g[u as int][j],
                        levels[head as int] + 1,
                    ) by {
                        if j < k {
                            lemma_near_stays(before, before_levels, v as int, level, g[u as int][j], before_levels[head as int] + 1);
                        } else {
                            assert(o[o.len() - 1] == v && levels[o.len() - 1] <= level);
                        }
                    }
                    assert forall|x: int| 0 <= x < g.len() implies (#[trigger] seen@[x]
                        <==> o.contains(x)) by {
                        if x == v {
                            assert(o[o.len() - 1] == x);
                        } else if before.contains(x) {
                            let i = choose|i: int| 0 <= i < before.len() && before[i] == x;
                            assert(o[i] == x);
                        } else if o.contains(x) {
                            let i = choose|i: int| 0 <= i < o.len() && o[i] == x;
                            assert(before[i] == x);
                        }
                    }
                    assert forall|i: int, j: int|
                        0 <= i < o.len() && 0 <= j < o.len() && i != j implies o[i] != o[j] by {
                        if i < before.len() && j < before.len() {
                            assert(before[i] != before[j]);
                        } else if i < before.len() {
                            assert(before.contains(before[i]));
                        } else if j < before.len() {
                            assert(before.contains(before[j]));
                        }
                    }
                    assert forall|i: int| 0 <= i < o.len() implies reaches(
                        g,
                        root as int,
                        #[trigger] o[i],
                    ) by {
                        if i < before.len() {
                            assert(reaches(g, root as int, before[i]));
                        }
                    }
                    assert(growing(g, root as int, o, seen@));
                    assert(o[o.len() - 1] == v);
                    assert forall|j: int| 0 <= j < k + 1 implies o.contains(
                        #[trigger] g[u as int][j],
                    ) by {
                        if j < k {
                            assert(before.contains(g[u as int][j]));
                            let i = choose|i: int| 0 <= i < before.len() && before[i] == g[u as int][j];
                            assert(o[i] == g[u as int][j]);
                        }
                    }
                }
            } else {
                proof {
                    assert(before.contains(v as int));
                    let b = choose|b: int| 0 <= b < before.len() && before[b] == v;
                    assert(levels[b] <= levels[head as int] + 1);
                    assert(before[b] == v);
                    assert(near(before, levels, v as int, levels[head as int] + 1));
                }
            }
            k += 1;
        }
        proof {
            assert(g[u as int].take(k as int) =~= g[u as int]);
            let o = nodes(order@);
            assert forall|a: int, j: int| 0 <= a < head + 1 && 0 <= j < g[o[a]].len() implies near(
                o,
                levels,
                #[trigger] g[o[a]][j],
                levels[a] + 1,
            ) by {
                assert(o[a] == start[a]);
                assert(levels[a] == start_levels[a]);
            }
            if head + 1 < o.len() {
                assert forall|a: int| 0 <= a < levels.len() implies #[trigger] levels[a] <= levels[head
                    + 1] + 1 by {
                    assert(levels[a] <= levels[head as int] + 1);
                    assert(levels[head as int] <= levels[head + 1]);
                }
            }
            assert forall|a: int, j: int|
                0 <= a < head + 1 && 0 <= j < g[o[a]].len() implies o.contains(
                #[trigger] g[o[a]][j],
            ) by {
                if a < head {
                    assert(o[a] == start[a]);
                    assert(start.contains(g[start[a]][j]));
                    let i = choose|i: int| 0 <= i < start.len() && start[i] == g[start[a]][j];
                    assert(o[i] == start[i]);
                }
            }
        }
        head += 1;
    }
    proof {
        let o = nodes(order@);
        lemma_marks_bound(seen@);
        assert forall|i: int| 0 <= i < order.len() implies #[trigger] order@[i] < lists.len() by {
            assert(0 <= o[i] < g.len());
        }
        assert forall|v: int| 0 <= v < lists.len() implies (o.contains(v) <==> #[trigger] reaches(
            g,
            root as int,
            v,
        )) by {
            if o.contains(v) {
                let i = choose|i: int| 0 <= i < o.len() && o[i] == v;
                assert(reaches(g, root as int, o[i]));
            }
            if reaches(g, root as int, v) {
                let p = choose|p: Seq<int>| #[trigger] walk(g, p) && p[0] == root && p.last() == v;
                assert(o[0] == root);
                lemma_stays_inside(g, o, p, p.len() - 1);
            }
        }
        assert forall|i: int, d: nat| 0 <= i < o.len() && #[trigger] is_distance(
            g,
            root as int,
            o[i],
            d,
        ) implies d == levels[i] by {
            assert(reaches_in(g, root as int, o[i], levels[i]));
            let p = choose|p: Seq<int>| #[trigger]
                walk(g, p) && p[0] == root && p.last() == o[i] && p.len() == d + 1;
            lemma_level_bound(g, o, levels, p, d as int);
            let b = choose|b: int|
                0 <= b < o.len() && b < levels.len() && #[trigger] o[b] == o[i] && levels[b] <= d;
            assert(b == i);
            if levels[i] < d {
                assert(!reaches_in(g, root as int, o[i], levels[i]));
            }
        }
        assert forall|i: int, j: int, a: nat, b: nat|
            0 <= i <= j < o.len() && #[trigger] is_distance(g, root as int, o[i], a)
                && #[trigger] is_distance(g, root as int, o[j], b) implies a <= b by {
            assert(a == levels[i] && b == levels[j]);
        }
        assert forall|i: int| 0 < i < o.len() implies #[trigger] led_to(g, o, i) by {
            assert(reaches_in(g, root as int, o[i], levels[i]));
            let q = choose|q: Seq<int>| #[trigger]
                walk(g, q) && q[0] == root && q.last() == o[i] && q.len() == levels[i] + 1;
            if q.len() == 1 {
                assert(o[0] == o[i]);
            }
            let last = q.len() - 2;
            lemma_level_bound(g, o, levels, q, last);
            let a = choose|a: int|
                0 <= a < o.len() && a < levels.len() && #[trigger] o[a] == q[last] && levels[a]
                    <= last as nat;
            if a >= i {
                assert(levels[i] <= levels[a]);
            }
            assert(step(g, q, last));
            assert(edge(g, o[a], o[i]));
        }
    }
    order
}

/// A node that stands in the order with its level stands there when the
/// order has grown by a node.
proof fn lemma_near_stays(
    order: Seq<int>,
    levels: Seq<nat>,
    v: int,
    level: nat,
    w: int,
    bound: nat,
)
    requires
        near(order, levels, w, bound),
    ensures
        near(order.push(v), levels.push(level), w, bound),
{
    let b = choose|b: int|
        0 <= b < order.len() && b < levels.len() && #[trigger] order[b] == w && levels[b] <= bound;
    assert(order.push(v)[b] == w && levels.push(level)[b] <= bound);
}

} // verus!
