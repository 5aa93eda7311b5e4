//! What each component adds to the final dough. A component may be an
//! ingredient of several components, so it is reached from `mix` along
//! several trails. Along a trail the shares multiply; the trails add up.

use vstd::prelude::*;
use crate::csv_cell::{BinOp, CellExpr, CellPosition, CellRef};
use crate::dough::{
    component_names, lemma_links_closed, mix, targets, DoughFormula, FormulaView, COL_OFFSET,
    ROW_OFFSET,
};
use crate::graph::{
    closed, cyclic_from, edge_index, graph_of, lemma_edge, lemma_walk_push, lemma_walk_skip,
    lemma_walk_take, nodes, on_cycle, reaches, step, walk, Graph,
};
use crate::layout::percent_col;
use crate::names::{find_name, lemma_position, names_of, position};

verus! {

/// The node at which a trail ends. A trail from `root` is the list of its
/// choices: at each node, the number of the edge to follow.
pub open spec fn trail_end(g: Graph, root: int, trail: Seq<int>) -> int
    decreases trail.len(),
{
    if trail.len() == 0 {
        root
    } else {
        g[trail_end(g, root, trail.drop_last())][trail.last()]
    }
}

/// The references along a trail: for each edge that it follows, the
/// reference that belongs to the edge.
pub open spec fn trail_refs(
    g: Graph,
    refs: Seq<Seq<CellRef>>,
    root: int,
    trail: Seq<int>,
) -> Seq<CellRef>
    decreases trail.len(),
{
    if trail.len() == 0 {
        Seq::empty()
    } else {
        trail_refs(g, refs, root, trail.drop_last()).push(
            refs[trail_end(g, root, trail.drop_last())][trail.last()],
        )
    }
}

/// Each trail with the choice `k` in front of it.
pub open spec fn prepend(k: int, trails: Seq<Seq<int>>) -> Seq<Seq<int>> {
    Seq::new(trails.len(), |i: int| seq![k] + trails[i])
}

/// The trails of at least one and at most `depth` edges that start at `u`,
/// depth first: for each edge of `u` in turn the trail of that edge alone,
/// and then the trails that go on from there.
pub open spec fn trails(g: Graph, u: int, depth: nat) -> Seq<Seq<int>>
    decreases depth, 1nat, 0nat,
{
    if 0 <= u < g.len() {
        trails_upto(g, u, g[u].len(), depth)
    } else {
        Seq::empty()
    }
}

/// The trails from `u` that start with one of its first `k` edges.
pub open spec fn trails_upto(g: Graph, u: int, k: nat, depth: nat) -> Seq<Seq<int>>
    decreases depth, 0nat, k,
{
    if depth == 0 || k == 0 || !(0 <= u < g.len()) || k > g[u].len() {
        Seq::empty()
    } else {
        trails_upto(g, u, (k - 1) as nat, depth) + seq![seq![k - 1]] + prepend(
            k - 1,
            trails(g, g[u][k - 1], (depth - 1) as nat),
        )
    }
}

/// The product of references: the first times the product of the others.
pub open spec fn product_of(refs: Seq<CellRef>) -> CellExpr
    decreases refs.len(),
{
    if refs.len() <= 1 {
        CellExpr::Ref(refs[0])
    } else {
        CellExpr::BinaryOp(
            BinOp::Mult,
            Box::new(CellExpr::Ref(refs[0])),
            Box::new(product_of(refs.drop_first())),
        )
    }
}

/// What a node has gathered once `term` has come in: the term alone, or what
/// it had plus the term.
pub open spec fn add_term(
    gathered: Seq<Option<CellExpr>>,
    v: int,
    term: CellExpr,
) -> Seq<Option<CellExpr>> {
    gathered.update(
        v,
        Some(
            match gathered[v] {
                Some(before) => CellExpr::BinaryOp(BinOp::Add, Box::new(before), Box::new(term)),
                None => term,
            },
        ),
    )
}

/// What the nodes have gathered once each of the trails, with `prefix` in
/// front of it, has brought the product of its references to the node at
/// which it ends.
pub open spec fn gathered_onto(
    g: Graph,
    refs: Seq<Seq<CellRef>>,
    root: int,
    start: Seq<Option<CellExpr>>,
    prefix: Seq<int>,
    trails: Seq<Seq<int>>,
) -> Seq<Option<CellExpr>>
    decreases trails.len(),
{
    if trails.len() == 0 {
        start
    } else {
        let before = gathered_onto(g, refs, root, start, prefix, trails.drop_last());
        let trail = prefix + trails.last();
        add_term(before, trail_end(g, root, trail), product_of(trail_refs(g, refs, root, trail)))
    }
}

/// For each node what it adds to the root: the sum, over the trails from
/// the root to the node, of the product of the references along the trail.
/// A node that no trail reaches has nothing.
pub open spec fn masses(g: Graph, refs: Seq<Seq<CellRef>>, root: int) -> Seq<Option<CellExpr>> {
    gathered_onto(
        g,
        refs,
        root,
        Seq::new(g.len(), |v: int| None),
        Seq::empty(),
        trails(g, root, g.len()),
    )
}

/// Gathering over two lists of trails, one after the other.
proof fn lemma_gathered_add(
    g: Graph,
    refs: Seq<Seq<CellRef>>,
    root: int,
    start: Seq<Option<CellExpr>>,
    prefix: Seq<int>,
    a: Seq<Seq<int>>,
    b: Seq<Seq<int>>,
)
    ensures
        gathered_onto(g, refs, root, start, prefix, a + b) == gathered_onto(
            g,
            refs,
            root,
            gathered_onto(g, refs, root, start, prefix, a),
            prefix,
            b,
        ),
    decreases b.len(),
{
    if b.len() == 0 {
        assert(a + b =~= a);
    } else {
        assert((a + b).drop_last() =~= a + b.drop_last());
        lemma_gathered_add(g, refs, root, start, prefix, a, b.drop_last());
    }
}

/// Gathering over trails that all start with `k`.
proof fn lemma_gathered_prepend(
    g: Graph,
    refs: Seq<Seq<CellRef>>,
    root: int,
    start: Seq<Option<CellExpr>>,
    prefix: Seq<int>,
    k: int,
    trails: Seq<Seq<int>>,
)
    ensures
        gathered_onto(g, refs, root, start, prefix, prepend(k, trails)) == gathered_onto(
            g,
            refs,
            root,
            start,
            prefix.push(k),
            trails,
        ),
    decreases trails.len(),
{
    if trails.len() > 0 {
        assert(prepend(k, trails).drop_last() =~= prepend(k, trails.drop_last()));
        lemma_gathered_prepend(g, refs, root, start, prefix, k, trails.drop_last());
        assert(prefix + prepend(k, trails).last() =~= prefix.push(k) + trails.last());
    }
}

/// Whether `trail` can be followed from `u`: each choice is the number of
/// an edge of the node at which it is made.
pub open spec fn is_trail(g: Graph, u: int, trail: Seq<int>) -> bool
    decreases trail.len(),
{
    if trail.len() == 0 {
        0 <= u < g.len()
    } else {
        is_trail(g, u, trail.drop_last()) && 0 <= trail.last() < g[trail_end(
            g,
            u,
            trail.drop_last(),
        )].len()
    }
}

/// The nodes along a trail, from `u` to the node at which it ends.
pub open spec fn trail_nodes(g: Graph, u: int, trail: Seq<int>) -> Seq<int>
    decreases trail.len(),
{
    if trail.len() == 0 {
        seq![u]
    } else {
        trail_nodes(g, u, trail.drop_last()).push(trail_end(g, u, trail))
    }
}

/// A trail ends at a node of the graph, and its nodes are a walk.
pub proof fn lemma_trail_walk(g: Graph, u: int, trail: Seq<int>)
    requires
        closed(g),
        is_trail(g, u, trail),
    ensures
        0 <= trail_end(g, u, trail) < g.len(),
        walk(g, trail_nodes(g, u, trail)),
        trail_nodes(g, u, trail).len() == trail.len() + 1,
        trail_nodes(g, u, trail)[0] == u,
        trail_nodes(g, u, trail).last() == trail_end(g, u, trail),
        reaches(g, u, trail_end(g, u, trail)),
    decreases trail.len(),
{
    if trail.len() > 0 {
        let shorter = trail.drop_last();
        lemma_trail_walk(g, u, shorter);
        let from = trail_end(g, u, shorter);
        let to = trail_end(g, u, trail);
        assert(g[from][trail.last()] == to);
        assert(g[from].contains(to));
        lemma_walk_push(g, trail_nodes(g, u, shorter), to);
    }
    assert(walk(g, trail_nodes(g, u, trail)));
}

/// A trail behind a trail: it is followed from where the first one ends.
proof fn lemma_trail_join(g: Graph, root: int, prefix: Seq<int>, trail: Seq<int>)
    requires
        closed(g),
    ensures
        trail_end(g, root, prefix + trail) == trail_end(g, trail_end(g, root, prefix), trail),
        is_trail(g, root, prefix + trail) == (is_trail(g, root, prefix) && is_trail(
            g,
            trail_end(g, root, prefix),
            trail,
        )),
    decreases trail.len(),
{
    if trail.len() == 0 {
        assert(prefix + trail =~= prefix);
        if is_trail(g, root, prefix) {
            lemma_trail_walk(g, root, prefix);
        }
    } else {
        assert((prefix + trail).drop_last() =~= prefix + trail.drop_last());
        lemma_trail_join(g, root, prefix, trail.drop_last());
    }
}

/// Whether the trail with the number `i` leads from the root, along
/// `prefix`, to `v`.
pub open spec fn ends_at(
    g: Graph,
    root: int,
    prefix: Seq<int>,
    trails: Seq<Seq<int>>,
    i: int,
    v: int,
) -> bool {
    0 <= i < trails.len() && trail_end(g, root, prefix + trails[i]) == v
}

/// After gathering, a node has something if it had something before or one
/// of the trails ends at it.
proof fn lemma_gathered_some(
    g: Graph,
    refs: Seq<Seq<CellRef>>,
    root: int,
    start: Seq<Option<CellExpr>>,
    prefix: Seq<int>,
    trails: Seq<Seq<int>>,
    v: int,
)
    requires
        0 <= v < start.len(),
        forall|i: int|
            0 <= i < trails.len() ==> 0 <= #[trigger] trail_end(g, root, prefix + trails[i])
                < start.len(),
    ensures
        gathered_onto(g, refs, root, start, prefix, trails).len() == start.len(),
        gathered_onto(g, refs, root, start, prefix, trails)[v] is Some <==> start[v] is Some
            || exists|i: int| ends_at(g, root, prefix, trails, i, v),
    decreases trails.len(),
{
    if trails.len() > 0 {
        let shorter = trails.drop_last();
        assert forall|i: int| 0 <= i < shorter.len() implies 0 <= #[trigger] trail_end(
            g,
            root,
            prefix + shorter[i],
        ) < start.len() by {
            assert(shorter[i] == trails[i]);
        }
        lemma_gathered_some(g, refs, root, start, prefix, shorter, v);
        let last = trails.len() - 1;
        let end = trail_end(g, root, prefix + trails[last]);
        assert(0 <= end < start.len());
        if exists|i: int| ends_at(g, root, prefix, trails, i, v) {
            let i = choose|i: int| ends_at(g, root, prefix, trails, i, v);
            if i < last {
                assert(ends_at(g, root, prefix, shorter, i, v));
            }
        }
        if exists|i: int| ends_at(g, root, prefix, shorter, i, v) {
            let i = choose|i: int| ends_at(g, root, prefix, shorter, i, v);
            assert(ends_at(g, root, prefix, trails, i, v));
        }
        if end == v {
            assert(ends_at(g, root, prefix, trails, last, v));
        }
    }
}

/// A choice in front of a trail: the trail is followed from the node to
/// which the choice leads.
proof fn lemma_trail_front(g: Graph, u: int, k: int, trail: Seq<int>)
    requires
        closed(g),
        0 <= u < g.len(),
        0 <= k < g[u].len(),
    ensures
        trail_end(g, u, seq![k] + trail) == trail_end(g, g[u][k], trail),
        is_trail(g, u, seq![k] + trail) == is_trail(g, g[u][k], trail),
{
    let one = seq![k];
    let none = one.drop_last();
    assert(none.len() == 0);
    assert(trail_end(g, u, none) == u);
    assert(is_trail(g, u, none));
    assert(one.last() == k);
    assert(trail_end(g, u, one) == g[u][k]);
    assert(is_trail(g, u, one));
    assert(0 <= g[u][k] < g.len());
    lemma_trail_join(g, u, one, trail);
}

/// Every trail of the list can be followed, and has between one and `depth`
/// edges.
proof fn lemma_trails_sound(g: Graph, u: int, depth: nat, i: int)
    requires
        closed(g),
        0 <= i < trails(g, u, depth).len(),
    ensures
        is_trail(g, u, trails(g, u, depth)[i]),
        1 <= trails(g, u, depth)[i].len() <= depth,
    decreases depth, 1nat, 0nat,
{
    lemma_trails_upto_sound(g, u, g[u].len(), depth, i);
}

/// The same of the trails that start with one of the first `k` edges.
proof fn lemma_trails_upto_sound(g: Graph, u: int, k: nat, depth: nat, i: int)
    requires
        closed(g),
        0 <= i < trails_upto(g, u, k, depth).len(),
    ensures
        is_trail(g, u, trails_upto(g, u, k, depth)[i]),
        1 <= trails_upto(g, u, k, depth)[i].len() <= depth,
    decreases depth, 0nat, k,
{
    let before = trails_upto(g, u, (k - 1) as nat, depth);
    let v = g[u][k - 1];
    let rest = trails(g, v, (depth - 1) as nat);
    if i < before.len() {
        lemma_trails_upto_sound(g, u, (k - 1) as nat, depth, i);
    } else if i == before.len() {
        lemma_trail_front(g, u, k - 1, Seq::empty());
        assert(seq![k - 1] + Seq::<int>::empty() =~= seq![k - 1]);
        assert(0 <= g[u][k - 1] < g.len());
    } else {
        let j = i - before.len() - 1;
        assert(trails_upto(g, u, k, depth)[i] == seq![k - 1] + rest[j]);
        lemma_trails_sound(g, v, (depth - 1) as nat, j);
        lemma_trail_front(g, u, k - 1, rest[j]);
    }
}

/// The trails that start with one of the first `k` edges are among those
/// that start with one of the first `more`.
proof fn lemma_trails_upto_grow(g: Graph, u: int, k: nat, more: nat, depth: nat, i: int)
    requires
        k <= more <= g[u].len(),
        0 <= u < g.len(),
        0 <= i < trails_upto(g, u, k, depth).len(),
    ensures
        i < trails_upto(g, u, more, depth).len(),
        trails_upto(g, u, more, depth)[i] == trails_upto(g, u, k, depth)[i],
    decreases more - k,
{
    if k < more {
        lemma_trails_upto_grow(g, u, k, (more - 1) as nat, depth, i);
    }
}

/// Every trail of between one and `depth` edges is in the list.
proof fn lemma_trails_complete(g: Graph, u: int, depth: nat, trail: Seq<int>)
    requires
        closed(g),
        0 <= u < g.len(),
        is_trail(g, u, trail),
        1 <= trail.len() <= depth,
    ensures
        trails(g, u, depth).contains(trail),
    decreases depth,
{
    let k = trail[0];
    let rest = trail.drop_first();
    assert(trail =~= seq![k] + rest);
    lemma_trail_first(g, u, trail);
    lemma_trail_front(g, u, k, rest);
    let v = g[u][k];
    let block = trails_upto(g, u, (k + 1) as nat, depth);
    let before = trails_upto(g, u, k as nat, depth);
    let deeper = trails(g, v, (depth - 1) as nat);
    assert(block == before + seq![seq![k]] + prepend(k, deeper));
    let at = if rest.len() == 0 {
        assert(trail =~= seq![k]);
        before.len() as int
    } else {
        lemma_trails_complete(g, v, (depth - 1) as nat, rest);
        let j = choose|j: int| 0 <= j < deeper.len() && deeper[j] == rest;
        assert(prepend(k, deeper)[j] == trail);
        before.len() + 1 + j
    };
    assert(block[at] == trail);
    lemma_trails_upto_grow(g, u, (k + 1) as nat, g[u].len(), depth, at);
    assert(trails(g, u, depth)[at] == trail);
}

/// The first choice of a trail is the number of an edge of the node at which
/// the trail starts.
proof fn lemma_trail_first(g: Graph, u: int, trail: Seq<int>)
    requires
        is_trail(g, u, trail),
        trail.len() >= 1,
    ensures
        0 <= u < g.len(),
        0 <= trail[0] < g[u].len(),
    decreases trail.len(),
{
    let shorter = trail.drop_last();
    assert(is_trail(g, u, shorter));
    if trail.len() > 1 {
        lemma_trail_first(g, u, shorter);
        assert(trail[0] == shorter[0]);
    } else {
        assert(shorter.len() == 0);
        assert(trail_end(g, u, shorter) == u);
        assert(trail.last() == trail[0]);
    }
}

/// The trail that follows a walk.
pub open spec fn trail_of(g: Graph, p: Seq<int>) -> Seq<int>
    decreases p.len(),
{
    if p.len() <= 1 {
        Seq::empty()
    } else {
        trail_of(g, p.drop_last()).push(edge_index(g, p[p.len() - 2], p.last()))
    }
}

/// The trail of a walk can be followed, has an edge less than the walk has
/// nodes, and ends where the walk ends.
proof fn lemma_trail_of(g: Graph, p: Seq<int>)
    requires
        closed(g),
        walk(g, p),
    ensures
        is_trail(g, p[0], trail_of(g, p)),
        trail_of(g, p).len() == p.len() - 1,
        trail_end(g, p[0], trail_of(g, p)) == p.last(),
    decreases p.len(),
{
    if p.len() > 1 {
        let shorter = p.drop_last();
        lemma_walk_take(g, p, p.len() - 2);
        assert(p.take(p.len() - 1) =~= shorter);
        lemma_trail_of(g, shorter);
        assert(step(g, p, p.len() - 2));
        lemma_edge(g, p[p.len() - 2], p.last());
        let t = trail_of(g, p);
        assert(t.drop_last() =~= trail_of(g, shorter));
    }
}

/// Where the root reaches no cycle, a walk from the root meets no node
/// twice, and so has no more nodes than the graph.
proof fn lemma_walk_simple(g: Graph, root: int, p: Seq<int>)
    requires
        closed(g),
        walk(g, p),
        p[0] == root,
        !cyclic_from(g, root),
    ensures
        p.no_duplicates(),
        p.len() <= g.len(),
{
    assert forall|i: int, j: int| 0 <= i < p.len() && 0 <= j < p.len() && i != j implies p[i]
        != p[j] by {
        if p[i] == p[j] {
            let (a, b) = if i < j {
                (i, j)
            } else {
                (j, i)
            };
            lemma_walk_take(g, p, a);
            assert(p.take(a + 1).last() == p[a]);
            assert(reaches(g, root, p[a]));
            lemma_walk_take(g, p, b);
            lemma_walk_skip(g, p.take(b + 1), a);
            let cycle = p.take(b + 1).skip(a);
            assert(cycle.len() >= 2 && cycle[0] == p[a] && cycle.last() == p[b]);
            assert(on_cycle(g, p[a]));
        }
    }
    assert forall|i: int| 0 <= i < p.len() implies 0 <= #[trigger] p[i] < g.len() by {
        lemma_walk_skip(g, p, i);
    }
    p.unique_seq_to_set();
    vstd::set_lib::lemma_int_range(0, g.len() as int);
    let all = vstd::set_lib::set_int_range(0, g.len() as int);
    assert(p.to_set().subset_of(all)) by {
        assert forall|x: int| p.to_set().contains(x) implies all.contains(x) by {
            let i = choose|i: int| 0 <= i < p.len() && p[i] == x;
            assert(0 <= p[i] < g.len());
        }
    }
    vstd::set_lib::lemma_len_subset(p.to_set(), all);
}

/// In a graph whose root reaches no cycle, the nodes that add something to
/// the root are those that the root reaches, but for the root itself.
pub proof fn lemma_masses(g: Graph, refs: Seq<Seq<CellRef>>, root: int)
    requires
        closed(g),
        0 <= root < g.len(),
        !cyclic_from(g, root),
    ensures
        masses(g, refs, root).len() == g.len(),
        forall|v: int|
            0 <= v < g.len() ==> (#[trigger] masses(g, refs, root)[v] is Some <==> v != root
                && reaches(g, root, v)),
{
    let all = trails(g, root, g.len());
    let none = Seq::new(g.len(), |v: int| None::<CellExpr>);
    let prefix = Seq::<int>::empty();
    assert forall|i: int| 0 <= i < all.len() implies 0 <= #[trigger] trail_end(
        g,
        root,
        prefix + all[i],
    ) < none.len() by {
        assert(prefix + all[i] =~= all[i]);
        lemma_trails_sound(g, root, g.len(), i);
        lemma_trail_walk(g, root, all[i]);
    }
    assert forall|v: int| 0 <= v < g.len() implies (#[trigger] masses(g, refs, root)[v] is Some
        <==> v != root && reaches(g, root, v)) by {
        lemma_gathered_some(g, refs, root, none, prefix, all, v);
        if exists|i: int| ends_at(g, root, prefix, all, i, v) {
            let i = choose|i: int| ends_at(g, root, prefix, all, i, v);
            assert(prefix + all[i] =~= all[i]);
            lemma_trails_sound(g, root, g.len(), i);
            lemma_trail_walk(g, root, all[i]);
            if v == root {
                let p = trail_nodes(g, root, all[i]);
                assert(walk(g, p) && p.len() >= 2 && p[0] == root && p.last() == root);
                assert(on_cycle(g, root));
                assert(walk(g, seq![root]));
                assert(reaches(g, root, root));
            }
        }
        if v != root && reaches(g, root, v) {
            let p = choose|p: Seq<int>| #[trigger] walk(g, p) && p[0] == root && p.last() == v;
            lemma_walk_simple(g, root, p);
            lemma_trail_of(g, p);
            let t = trail_of(g, p);
            lemma_trails_complete(g, root, g.len(), t);
            let i = choose|i: int| 0 <= i < all.len() && all[i] == t;
            assert(prefix + all[i] =~= t);
            assert(ends_at(g, root, prefix, all, i, v));
        }
    }
    lemma_gathered_some(g, refs, root, none, prefix, all, 0);
}

/// Every component of a formula but `mix` adds something to `mix`.
pub proof fn lemma_formula_masses(f: FormulaView)
    requires
        f.valid(),
    ensures
        formula_masses(f).len() == f.components.len(),
        forall|c: int|
            0 <= c < f.components.len() ==> (#[trigger] formula_masses(f)[c] is Some <==> c
                != f.root()),
{
    lemma_links_closed(f);
    lemma_position(component_names(f.components), mix());
    lemma_masses(f.links(), formula_refs(f), f.root());
    assert forall|c: int| 0 <= c < f.components.len() implies (#[trigger] formula_masses(f)[c] is Some
        <==> c != f.root()) by {
        assert(reaches(f.links(), f.root(), c));
    }
}

/// The tables of a graph and of its references, as they are held.
pub open spec fn refs_of(table: Seq<Vec<CellRef>>) -> Seq<Seq<CellRef>> {
    Seq::new(table.len(), |u: int| table[u]@)
}

/// Whether each edge has its reference.
pub open spec fn matching(g: Graph, refs: Seq<Seq<CellRef>>) -> bool {
    &&& refs.len() == g.len()
    &&& forall|u: int| 0 <= u < g.len() ==> (#[trigger] refs[u]).len() == g[u].len()
}

/// The product of the references of the stack.
fn product(stack: &Vec<CellRef>) -> (term: CellExpr)
    requires
        stack.len() >= 1,
    ensures
        term == product_of(stack@),
{
    let mut i: usize = stack.len() - 1;
    let mut term = CellExpr::Ref(stack[i]);
    proof {
        assert(stack@.skip(i as int).len() == 1);
    }
    while i > 0
        invariant
            i < stack.len(),
            term == product_of(stack@.skip(i as int)),
        decreases i,
    {
        i -= 1;
        proof {
            assert(stack@.skip(i as int).drop_first() =~= stack@.skip(i + 1));
        }
        term = CellExpr::BinaryOp(BinOp::Mult, Box::new(CellExpr::Ref(stack[i])), Box::new(term));
    }
    assert(stack@.skip(0) =~= stack@);
    term
}

/// Follows every trail of at most `depth` edges from `u`, and brings to each
/// node on the way the product of the references along the trail to it.
fn gather(
    lists: &Vec<Vec<usize>>,
    table: &Vec<Vec<CellRef>>,
    u: usize,
    depth: usize,
    stack: &mut Vec<CellRef>,
    gathered: &mut Vec<Option<CellExpr>>,
    Ghost(root): Ghost<int>,
    Ghost(prefix): Ghost<Seq<int>>,
)
    requires
        closed(graph_of(lists@)),
        matching(graph_of(lists@), refs_of(table@)),
        u < lists.len(),
        old(gathered).len() == lists.len(),
        old(stack)@ == trail_refs(graph_of(lists@), refs_of(table@), root, prefix),
        trail_end(graph_of(lists@), root, prefix) == u,
    ensures
        final(stack)@ == old(stack)@,
        final(gathered).len() == lists.len(),
        final(gathered)@ == gathered_onto(
            graph_of(lists@),
            refs_of(table@),
            root,
            old(gathered)@,
            prefix,
            trails(graph_of(lists@), u as int, depth as nat),
        ),
    decreases depth,
{
    let ghost g = graph_of(lists@);
    let ghost refs = refs_of(table@);
    let ghost start = gathered@;
    let ghost path = stack@;
    if depth == 0 {
        assert(trails(g, u as int, 0) =~= Seq::empty());
        return ;
    }
    let mut k: usize = 0;
    proof {
        assert(trails_upto(g, u as int, 0, depth as nat) =~= Seq::empty());
        assert(refs[u as int].len() == g[u as int].len());
    }
    while k < lists[u].len()
        invariant
            depth > 0,
            u < lists.len(),
            k <= lists[u as int]@.len(),
            g == graph_of(lists@),
            refs == refs_of(table@),
            closed(g),
            matching(g, refs),
            table@[u as int]@.len() == lists@[u as int]@.len(),
            gathered.len() == lists.len(),
            stack@ == path,
            path == trail_refs(g, refs, root, prefix),
            trail_end(g, root, prefix) == u,
            gathered@ == gathered_onto(
                g,
                refs,
                root,
                start,
                prefix,
                trails_upto(g, u as int, k as nat, depth as nat),
            ),
        decreases lists[u as int]@.len() - k,
    {
        let v = lists[u][k];
        let ghost before = gathered@;
        let ghost first = trails_upto(g, u as int, k as nat, depth as nat);
        let ghost longer = prefix.push(k as int);
        proof {
            assert(g[u as int][k as int] == v);
            assert(0 <= g[u as int][k as int] < g.len());
            assert(longer.drop_last() =~= prefix);
            assert(trail_end(g, root, longer) == v);
            assert(refs[u as int][k as int] == table@[u as int]@[k as int]);
        }
        stack.push(table[u][k]);
        assert(stack@ == trail_refs(g, refs, root, longer));
        let term = product(stack);
        let sum = match &gathered[v] {
            Some(had) => CellExpr::BinaryOp(BinOp::Add, Box::new(had.clone()), Box::new(term)),
            None => term,
        };
        gathered[v] = Some(sum);
        proof {
            let one = seq![seq![k as int]];
            assert(one.drop_last() =~= Seq::<Seq<int>>::empty());
            assert(gathered_onto(g, refs, root, before, prefix, one.drop_last()) == before);
            assert(prefix + one.last() =~= longer);
            assert(gathered@ =~= add_term(before, v as int, term));
            assert(gathered@ == gathered_onto(g, refs, root, before, prefix, one));
            lemma_gathered_add(g, refs, root, start, prefix, first, one);
        }
        let ghost entered = gathered@;
        gather(lists, table, v, depth - 1, stack, gathered, Ghost(root), Ghost(longer));
        stack.pop();
        proof {
            let rest = trails(g, v as int, (depth - 1) as nat);
            let one = seq![seq![k as int]];
            lemma_gathered_prepend(g, refs, root, entered, prefix, k as int, rest);
            lemma_gathered_add(g, refs, root, start, prefix, first + one, prepend(k as int, rest));
            assert(trails_upto(g, u as int, (k + 1) as nat, depth as nat) == first + one + prepend(
                k as int,
                rest,
            ));
            assert(stack@ =~= path);
        }
        k += 1;
    }
}

/// For each node what it adds to the root, as the sum over the trails from
/// the root of the products of the references along them. Trails of more
/// edges than the graph has nodes are left out: there are none unless the
/// graph has a cycle.
pub fn gather_masses(lists: &Vec<Vec<usize>>, table: &Vec<Vec<CellRef>>, root: usize) -> (gathered:
    Vec<Option<CellExpr>>)
    requires
        closed(graph_of(lists@)),
        matching(graph_of(lists@), refs_of(table@)),
        root < lists.len(),
    ensures
        gathered@ == masses(graph_of(lists@), refs_of(table@), root as int),
{
    let mut gathered: Vec<Option<CellExpr>> = Vec::new();
    let mut n: usize = 0;
    while n < lists.len()
        invariant
            n <= lists.len(),
            gathered.len() == n,
            forall|v: int| 0 <= v < n ==> #[trigger] gathered@[v] is None,
        decreases lists.len() - n,
    {
        gathered.push(None);
        n += 1;
    }
    assert(gathered@ =~= Seq::new(graph_of(lists@).len(), |v: int| None::<CellExpr>));
    let mut stack: Vec<CellRef> = Vec::new();
    gather(
        lists,
        table,
        root,
        lists.len(),
        &mut stack,
        &mut gathered,
        Ghost(root as int),
        Ghost(Seq::empty()),
    );
    gathered
}

/// The reference to row `row` and column `col` with both axes fixed.
pub open spec fn fixed(row: int, col: int) -> CellRef {
    CellRef { pos: CellPosition { row: row as u32, col: col as u32 }, fix_row: true, fix_col: true }
}

/// The number of the pair of columns in which component `c` stands.
pub open spec fn column_of(f: FormulaView, c: int) -> int {
    choose|j: int| 0 <= j < f.column_order().len() && f.column_order()[j] == c
}

/// The row of the ingredient `name`.
pub open spec fn row_of(order: Seq<Seq<char>>, name: Seq<char>) -> int {
    ROW_OFFSET + match position(order, name) {
        Some(i) => i,
        None => 0,
    }
}

/// The references of the links of a component: for each of its ingredients
/// that is a component, the cell in which the share of that ingredient
/// stands, in the row of the ingredient and the column `col` of the
/// component.
pub open spec fn link_refs(
    all: Seq<Seq<char>>,
    order: Seq<Seq<char>>,
    col: int,
    names: Seq<Seq<char>>,
) -> Seq<CellRef>
    decreases names.len(),
{
    if names.len() == 0 {
        Seq::empty()
    } else {
        let before = link_refs(all, order, col, names.drop_last());
        match position(all, names.last()) {
            Some(_) => before.push(fixed(row_of(order, names.last()), col)),
            None => before,
        }
    }
}

/// For each link of a formula's graph the cell that holds the share.
pub open spec fn formula_refs(f: FormulaView) -> Seq<Seq<CellRef>> {
    Seq::new(
        f.components.len(),
        |u: int|
            link_refs(
                component_names(f.components),
                f.ingredient_order(),
                percent_col(column_of(f, u)),
                f.components[u].names,
            ),
    )
}

/// For each component of a formula what it adds to `mix`, in cells: the
/// sum, over the trails from `mix` to the component, of the product of the
/// shares along the trail.
pub open spec fn formula_masses(f: FormulaView) -> Seq<Option<CellExpr>> {
    masses(f.links(), formula_refs(f), f.root())
}

/// A component has as many references as links.
proof fn lemma_link_refs_len(
    all: Seq<Seq<char>>,
    order: Seq<Seq<char>>,
    col: int,
    names: Seq<Seq<char>>,
)
    ensures
        link_refs(all, order, col, names).len() == targets(all, names).len(),
    decreases names.len(),
{
    if names.len() > 0 {
        lemma_link_refs_len(all, order, col, names.drop_last());
    }
}

/// For each component what it adds to the final dough, as a formula over
/// the cells of the shares. The list goes by the places of the components;
/// `mix` itself has nothing.
pub fn component_mass(formula: &DoughFormula) -> (gathered: Vec<Option<CellExpr>>)
    ensures
        gathered@ == formula_masses(formula@),
        gathered.len() == formula@.components.len(),
        forall|c: int|
            0 <= c < gathered.len() ==> (#[trigger] gathered@[c] is Some <==> c != formula@.root()),
{
    let links = formula.links();
    let columns = formula.column_order();
    let order = formula.ingredient_order();
    let all = formula.component_names();
    let root = formula.root();
    let ghost f = formula@;
    let count = all.len();
    let mut place: Vec<usize> = Vec::new();
    let mut n: usize = 0;
    while n < count
        invariant
            n <= count,
            place.len() == n,
        decreases count - n,
    {
        place.push(0);
        n += 1;
    }
    proof {
        assert(nodes(columns@).len() == columns.len());
        assert(f.column_order().len() == f.bfs_order().len());
    }
    let mut j: usize = 0;
    while j < columns.len()
        invariant
            j <= columns.len(),
            f == formula@,
            f.complete(),
            columns.len() == f.bfs_order().len(),
            count == f.components.len(),
            place.len() == count,
            nodes(columns@) == f.column_order(),
            forall|a: int| 0 <= a < j ==> place@[#[trigger] f.column_order()[a]] == a,
        decreases columns.len() - j,
    {
        let c = columns[j];
        proof {
            let bfs = f.bfs_order();
            assert(nodes(columns@)[j as int] == c);
            assert(f.column_order()[j as int] == bfs[bfs.len() - 1 - j]);
            let i = bfs.len() - 1 - j;
            assert(0 <= f.bfs_order()[i] < f.components.len());
            assert forall|a: int| 0 <= a < j implies f.column_order()[a] != c by {
                assert(f.column_order()[a] == bfs[bfs.len() - 1 - a]);
                assert(bfs[bfs.len() - 1 - a] != bfs[i]);
            }
        }
        place[c] = j;
        j += 1;
    }
    proof {
        assert forall|c: int| 0 <= c < count implies place@[c] == column_of(f, c) && 0 <= column_of(
            f,
            c,
        ) < columns.len() by {
            let bfs = f.bfs_order();
            assert(bfs.contains(c));
            let i = choose|i: int| 0 <= i < bfs.len() && bfs[i] == c;
            let a = bfs.len() - 1 - i;
            assert(f.column_order()[a] == c);
            let b = column_of(f, c);
            assert(f.column_order()[b] == bfs[bfs.len() - 1 - b]);
            if b != a {
                assert(bfs[bfs.len() - 1 - b] != bfs[i]);
            }
        }
    }
    let mut table: Vec<Vec<CellRef>> = Vec::new();
    let mut u: usize = 0;
    while u < count
        invariant
            u <= count,
            f == formula@,
            count == f.components.len(),
            place.len() == count,
            names_of(all@) == component_names(f.components),
            names_of(order@) == f.ingredient_order(),
            ROW_OFFSET + order.len() <= u32::MAX,
            2 * columns.len() + COL_OFFSET <= u32::MAX,
            forall|c: int|
                0 <= c < count ==> #[trigger] place@[c] == column_of(f, c) && 0 <= column_of(f, c)
                    < columns.len(),
            table.len() == u,
            forall|a: int| 0 <= a < u ==> (#[trigger] table@[a])@ == formula_refs(f)[a],
        decreases count - u,
    {
        let names = formula.ingredient_names(u);
        let col: usize = 2 * place[u] + COL_OFFSET as usize;
        let ghost these = names_of(names@);
        let ghost whole = component_names(f.components);
        let ghost rows = f.ingredient_order();
        let mut list: Vec<CellRef> = Vec::new();
        let mut i: usize = 0;
        proof {
            assert(these.take(0) =~= Seq::empty());
        }
        while i < names.len()
            invariant
                i <= names.len(),
                these == names_of(names@),
                whole == names_of(all@),
                rows == names_of(order@),
                ROW_OFFSET + order.len() <= u32::MAX,
                col <= u32::MAX,
                list@ == link_refs(whole, rows, col as int, these.take(i as int)),
            decreases names.len() - i,
        {
            proof {
                assert(these.take(i + 1).drop_last() =~= these.take(i as int));
                assert(these.take(i + 1).last() == names@[i as int]@);
                lemma_position(whole, these[i as int]);
                lemma_position(rows, these[i as int]);
            }
            if find_name(all, &names[i]).is_some() {
                let row: usize = match find_name(order, &names[i]) {
                    Some(r) => r,
                    None => 0,
                };
                let position = CellPosition {
                    row: (ROW_OFFSET as usize + row) as u32,
                    col: col as u32,
                };
                list.push(position.fixed_ref());
            }
            i += 1;
        }
        proof {
            assert(these.take(i as int) =~= these);
        }
        table.push(list);
        u += 1;
    }
    proof {
        lemma_formula_masses(f);
        let g = graph_of(links@);
        let refs = refs_of(table@);
        assert(refs =~= formula_refs(f));
        assert forall|a: int| 0 <= a < g.len() implies (#[trigger] refs[a]).len() == g[a].len() by {
            lemma_link_refs_len(
                component_names(f.components),
                f.ingredient_order(),
                percent_col(column_of(f, a)),
                f.components[a].names,
            );
        }
    }
    gather_masses(links, &table, root)
}

} // verus!
