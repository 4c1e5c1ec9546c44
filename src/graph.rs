use vstd::prelude::*;

verus! {

/// Directed graph over node ids `0..n`: `adjacency_list[u]` holds the nodes that `u`
/// depends on, each of which must come before `u` in a deployment order.
pub struct Graph {
    pub adjacency_list: Vec<Vec<usize>>,
}

impl View for Graph {
    type V = Seq<Seq<usize>>;

    open spec fn view(&self) -> Seq<Seq<usize>> {
        self.adjacency_list@.map_values(|l: Vec<usize>| l@)
    }
}

/// Every edge points at an existing node.
pub open spec fn edges_in_range(g: Seq<Seq<usize>>) -> bool {
    forall|u: int, k: int| 0 <= u < g.len() && 0 <= k < g[u].len() ==> g[u][k] < g.len()
}

/// `rank` strictly decreases along every edge.
pub open spec fn is_rank(g: Seq<Seq<usize>>, rank: Seq<nat>) -> bool {
    &&& rank.len() == g.len()
    &&& forall|u: int, k: int|
        0 <= u < g.len() && 0 <= k < g[u].len() ==> #[trigger] rank[g[u][k] as int] < rank[u]
}

/// The graph has no cycle: a finite graph has a rank that decreases along every edge
/// exactly when no node can reach itself.
pub open spec fn acyclic(g: Seq<Seq<usize>>) -> bool {
    exists|rank: Seq<nat>| is_rank(g, rank)
}

/// `x` occurs in `order` before position `i`.
pub open spec fn occurs_before(order: Seq<usize>, i: int, x: usize) -> bool {
    exists|j: int| 0 <= j < i && #[trigger] order[j] == x
}

/// Every dependency of an entry of `order` occurs earlier in `order`.
pub open spec fn respects(g: Seq<Seq<usize>>, order: Seq<usize>) -> bool {
    forall|i: int, k: int|
        0 <= i < order.len() && 0 <= k < g[order[i] as int].len() ==> occurs_before(
            order,
            i,
            #[trigger] g[order[i] as int][k],
        )
}

/// `path` is a chain of at least two nodes, each depending directly on the next: the
/// last node is a transitive dependency of the first.
pub open spec fn dependency_chain(g: Seq<Seq<usize>>, path: Seq<usize>) -> bool {
    &&& path.len() >= 2
    &&& forall|j: int| 1 <= j < path.len() ==> g[path[j - 1] as int].contains(#[trigger] path[j])
}

/// `order` lists node ids below `n`, none twice.
pub open spec fn distinct_nodes(order: Seq<usize>, n: nat) -> bool {
    &&& forall|i: int| 0 <= i < order.len() ==> (#[trigger] order[i]) < n
    &&& forall|i: int, j: int| 0 <= i < j < order.len() ==> order[i] != order[j]
}

/// Number of entries of `seen` that are still unset.
pub open spec fn unseen_count(seen: Seq<bool>) -> nat
    decreases seen.len(),
{
    if seen.len() == 0 {
        0
    } else {
        unseen_count(seen.drop_last()) + if seen.last() {
            0nat
        } else {
            1nat
        }
    }
}

/// Depth-first visit of `v`: its dependencies are visited in list order, then `v` is
/// appended to `out`. Nodes already in `seen` are skipped. `depth` bounds the recursion.
pub open spec fn visit(g: Seq<Seq<usize>>, seen: Seq<bool>, out: Seq<usize>, v: int, depth: nat) -> (
    Seq<bool>,
    Seq<usize>,
)
    decreases depth, 0int,
{
    if depth == 0 || !(0 <= v < seen.len()) || seen[v] {
        (seen, out)
    } else {
        let (s, o) = visit_list(g, seen.update(v, true), out, g[v], 0, (depth - 1) as nat);
        (s, o.push(v as usize))
    }
}

/// Visits `list[i..]` one after the other, threading the state through.
pub open spec fn visit_list(
    g: Seq<Seq<usize>>,
    seen: Seq<bool>,
    out: Seq<usize>,
    list: Seq<usize>,
    i: int,
    depth: nat,
) -> (Seq<bool>, Seq<usize>)
    decreases depth, list.len() - i + 1,
{
    if i < 0 || i >= list.len() {
        (seen, out)
    } else {
        let (s, o) = visit(g, seen, out, list[i] as int, depth);
        visit_list(g, s, o, list, i + 1, depth)
    }
}

/// Visits the nodes `i..` in ascending order.
pub open spec fn walk_from(g: Seq<Seq<usize>>, seen: Seq<bool>, out: Seq<usize>, i: int) -> (
    Seq<bool>,
    Seq<usize>,
)
    decreases g.len() - i,
{
    if i < 0 || i >= g.len() {
        (seen, out)
    } else {
        let (s, o) = visit(g, seen, out, i, g.len() + 1);
        walk_from(g, s, o, i + 1)
    }
}

/// The depth-first post-order of the whole graph, started from node 0, 1, ... in turn.
pub open spec fn sorted_order(g: Seq<Seq<usize>>) -> Seq<usize> {
    walk_from(g, Seq::new(g.len(), |i: int| false), Seq::empty(), 0).1
}

/// Nodes visited but not yet emitted: the current depth-first path.
pub open spec fn on_path(seen: Seq<bool>, out: Seq<usize>, x: int) -> bool {
    seen[x] && !out.contains(x as usize)
}

proof fn lemma_unseen_update(s: Seq<bool>, i: int)
    requires
        0 <= i < s.len(),
        !s[i],
    ensures
        unseen_count(s.update(i, true)) + 1 == unseen_count(s),
    decreases s.len(),
{
    if i == s.len() - 1 {
        assert(s.update(i, true).drop_last() =~= s.drop_last());
    } else {
        assert(s.update(i, true).drop_last() =~= s.drop_last().update(i, true));
        lemma_unseen_update(s.drop_last(), i);
    }
}

proof fn lemma_unseen_bound(s: Seq<bool>)
    ensures
        unseen_count(s) <= s.len(),
    decreases s.len(),
{
    if s.len() > 0 {
        lemma_unseen_bound(s.drop_last());
    }
}

proof fn lemma_all_true_unseen(s: Seq<bool>)
    requires
        forall|i: int| 0 <= i < s.len() ==> s[i],
    ensures
        unseen_count(s) == 0,
    decreases s.len(),
{
    if s.len() > 0 {
        lemma_all_true_unseen(s.drop_last());
    }
}

proof fn lemma_all_false_unseen(n: nat)
    ensures
        unseen_count(Seq::new(n, |i: int| false)) == n,
    decreases n,
{
    if n > 0 {
        assert(Seq::new(n, |i: int| false).drop_last() =~= Seq::new((n - 1) as nat, |i: int| false));
        lemma_all_false_unseen((n - 1) as nat);
    }
}

/// One step of the taint pass at node `u`: the dependencies of `u` without dependencies
/// of their own become tainted, and `u` becomes tainted when each of its dependencies
/// has no dependencies or is tainted already.
pub open spec fn taint_step(g: Seq<Seq<usize>>, t: Seq<bool>, u: int) -> Seq<bool> {
    let marked = Seq::new(
        t.len(),
        |x: int| t[x] || (g[x].len() == 0 && occurs_before(g[u], g[u].len() as int, x as usize)),
    );
    if 0 <= u < t.len() && forall|k: int| 0 <= k < g[u].len() ==> settled(g, t, #[trigger] g[u][k]) {
        marked.update(u, true)
    } else {
        marked
    }
}

/// Node `d` has no dependencies or is tainted.
pub open spec fn settled(g: Seq<Seq<usize>>, t: Seq<bool>, d: usize) -> bool {
    g[d as int].len() == 0 || t[d as int]
}

/// The taint marks after processing the first `m` entries of `order`.
pub open spec fn taint(g: Seq<Seq<usize>>, order: Seq<usize>, m: int) -> Seq<bool>
    decreases m,
{
    if m <= 0 {
        Seq::new(g.len(), |x: int| false)
    } else {
        taint_step(g, taint(g, order, m - 1), order[m - 1] as int)
    }
}

/// The ids below `n` whose mark is unset, in ascending order.
pub open spec fn unmarked_ids(t: Seq<bool>, n: int) -> Seq<usize>
    decreases n,
{
    if n <= 0 {
        Seq::empty()
    } else if t[n - 1] {
        unmarked_ids(t, n - 1)
    } else {
        unmarked_ids(t, n - 1).push((n - 1) as usize)
    }
}

proof fn lemma_taint_len(g: Seq<Seq<usize>>, order: Seq<usize>, m: int)
    ensures
        taint(g, order, m).len() == g.len(),
    decreases m,
{
    if m > 0 {
        lemma_taint_len(g, order, m - 1);
        let t = taint(g, order, m - 1);
        assert(taint(g, order, m) == taint_step(g, t, order[m - 1] as int));
        assert(taint_step(g, t, order[m - 1] as int).len() == t.len());
    }
}

proof fn lemma_taint_grows(g: Seq<Seq<usize>>, order: Seq<usize>, m: int, x: int)
    requires
        0 <= m,
        0 <= x < g.len(),
        taint(g, order, m)[x],
    ensures
        taint(g, order, m + 1)[x],
{
    lemma_taint_len(g, order, m);
    let t = taint(g, order, m);
    let u = order[m] as int;
    assert(taint(g, order, m + 1) == taint_step(g, t, u));
    let marked = Seq::new(
        t.len(),
        |y: int| t[y] || (g[y].len() == 0 && occurs_before(g[u], g[u].len() as int, y as usize)),
    );
    assert(marked[x]);
}

proof fn lemma_taint_prefix(g: Seq<Seq<usize>>, order: Seq<usize>, m: int)
    requires
        0 <= m <= order.len(),
        respects(g, order),
        distinct_nodes(order, g.len()),
    ensures
        forall|j: int| 0 <= j < m ==> taint(g, order, m)[#[trigger] order[j] as int],
    decreases m,
{
    if m > 0 {
        let p = m - 1;
        lemma_taint_prefix(g, order, p);
        let u = order[p];
        let t = taint(g, order, p);
        lemma_taint_len(g, order, p);
        assert forall|k: int| 0 <= k < g[u as int].len() implies settled(g, t, #[trigger] g[u as int][k]) by {
            assert(occurs_before(order, p, g[order[p] as int][k]));
            let j = choose|j: int| 0 <= j < p && #[trigger] order[j] == g[order[p] as int][k];
        }
        assert(taint(g, order, m) == taint_step(g, t, u as int));
        assert forall|j: int| 0 <= j < m implies taint(g, order, m)[#[trigger] order[j] as int] by {
            if j < p {
                lemma_taint_grows(g, order, p, order[j] as int);
            }
        }
    }
}

/// `x` stands at position `j` of `order`, after each of its dependencies that has
/// dependencies of its own, each of which was tainted before position `j`.
pub open spec fn placed_after_deps(g: Seq<Seq<usize>>, order: Seq<usize>, x: int, j: int) -> bool {
    &&& 0 <= j < order.len()
    &&& order[j] == x
    &&& forall|k: int|
        0 <= k < g[x].len() ==> g[g[x][k] as int].len() == 0 || (occurs_before(
            order,
            j,
            #[trigger] g[x][k],
        ) && taint(g, order, j)[g[x][k] as int])
}

/// `x` lies on a cycle or depends, directly or not, on a node that does: some chain of
/// dependencies from `x` visits a node twice.
pub open spec fn reaches_cycle(g: Seq<Seq<usize>>, x: int) -> bool {
    exists|path: Seq<usize>, a: int, b: int|
        #![trigger dependency_chain(g, path), path[a], path[b]]
        dependency_chain(g, path) && path[0] == x && 0 <= a < b < path.len() && path[a] == path[b]
}

proof fn lemma_unmarked_contains(t: Seq<bool>, n: int, x: int)
    requires
        0 <= x < n <= usize::MAX + 1,
        !t[x],
    ensures
        unmarked_ids(t, n).contains(x as usize),
    decreases n,
{
    if x == n - 1 {
        assert(unmarked_ids(t, n) == unmarked_ids(t, n - 1).push(x as usize));
        assert(unmarked_ids(t, n)[unmarked_ids(t, n - 1).len() as int] == x as usize);
    } else {
        lemma_unmarked_contains(t, n - 1, x);
        let prev = unmarked_ids(t, n - 1);
        let w = choose|w: int| 0 <= w < prev.len() && #[trigger] prev[w] == x as usize;
        if !t[n - 1] {
            assert(unmarked_ids(t, n)[w] == x as usize);
        }
    }
}

proof fn lemma_taint_mono(g: Seq<Seq<usize>>, order: Seq<usize>, m1: int, m2: int, x: int)
    requires
        0 <= m1 <= m2,
        0 <= x < g.len(),
        taint(g, order, m1)[x],
    ensures
        taint(g, order, m2)[x],
    decreases m2 - m1,
{
    if m1 < m2 {
        lemma_taint_grows(g, order, m1, x);
        lemma_taint_mono(g, order, m1 + 1, m2, x);
    }
}

/// The position at which a tainted node with dependencies was tainted.
spec fn place(g: Seq<Seq<usize>>, order: Seq<usize>, x: int) -> int {
    choose|j: int| placed_after_deps(g, order, x, j)
}

proof fn lemma_chain_places(g: Seq<Seq<usize>>, order: Seq<usize>, path: Seq<usize>, m: int)
    requires
        edges_in_range(g),
        distinct_nodes(order, g.len()),
        dependency_chain(g, path),
        0 <= path[0] < g.len(),
        g[path[0] as int].len() > 0 ==> taint(g, order, order.len() as int)[path[0] as int],
        0 <= m < path.len(),
    ensures
        0 <= path[m] < g.len(),
        g[path[m] as int].len() > 0 ==> taint(g, order, order.len() as int)[path[m] as int]
            && placed_after_deps(g, order, path[m] as int, place(g, order, path[m] as int)),
        0 < m && g[path[m] as int].len() > 0 ==> place(g, order, path[m] as int) < place(
            g,
            order,
            path[m - 1] as int,
        ),
    decreases m,
{
    lemma_taint_witness(g, order, order.len() as int);
    let t = taint(g, order, order.len() as int);
    if m > 0 {
        lemma_chain_places(g, order, path, m - 1);
        let u = path[m - 1] as int;
        assert(g[u].contains(path[m]));
        let k = choose|k: int| 0 <= k < g[u].len() && g[u][k] == path[m];
        assert(g[u][k] < g.len());
        let d = path[m] as int;
        if g[d].len() > 0 {
            let ju = place(g, order, u);
            assert(placed_after_deps(g, order, u, ju));
            assert(occurs_before(order, ju, g[u][k]) && taint(g, order, ju)[d]);
            lemma_taint_mono(g, order, ju, order.len() as int, d);
            assert(t[d]);
            let w = choose|w: int| 0 <= w < order.len() && placed_after_deps(g, order, d, w);
            let jd = place(g, order, d);
            assert(placed_after_deps(g, order, d, jd));
            let j2 = choose|j2: int| 0 <= j2 < ju && #[trigger] order[j2] == g[u][k];
            assert(order[jd] == order[j2]);
        }
    } else {
        if g[path[0] as int].len() > 0 {
            let w = choose|w: int| 0 <= w < order.len() && placed_after_deps(g, order, path[0] as int, w);
        }
    }
}

proof fn lemma_chain_places_decrease(
    g: Seq<Seq<usize>>,
    order: Seq<usize>,
    path: Seq<usize>,
    a: int,
    b: int,
)
    requires
        edges_in_range(g),
        distinct_nodes(order, g.len()),
        dependency_chain(g, path),
        0 <= path[0] < g.len(),
        g[path[0] as int].len() > 0 ==> taint(g, order, order.len() as int)[path[0] as int],
        0 <= a < b < path.len(),
        g[path[b] as int].len() > 0,
    ensures
        place(g, order, path[b] as int) < place(g, order, path[a] as int),
    decreases b - a,
{
    lemma_chain_places(g, order, path, b);
    if b - 1 > a {
        assert(g[path[b - 1] as int].contains(path[b]));
        lemma_chain_places_decrease(g, order, path, a, b - 1);
    }
}

/// A taint pass over an order of distinct nodes leaves untainted every node that lies
/// on a cycle or depends on one.
pub proof fn lemma_cycle_untainted(g: Seq<Seq<usize>>, order: Seq<usize>, x: int)
    requires
        edges_in_range(g),
        distinct_nodes(order, g.len()),
        0 <= x < g.len(),
        reaches_cycle(g, x),
    ensures
        !taint(g, order, order.len() as int)[x],
{
    let (path, a, b) = choose|path: Seq<usize>, a: int, b: int|
        #![trigger dependency_chain(g, path), path[a], path[b]]
        dependency_chain(g, path) && path[0] == x && 0 <= a < b < path.len() && path[a] == path[b];
    if taint(g, order, order.len() as int)[x] {
        assert(g[path[a] as int].contains(path[a + 1]));
        lemma_chain_places_decrease(g, order, path, a, b);
    }
}

proof fn lemma_taint_witness(g: Seq<Seq<usize>>, order: Seq<usize>, m: int)
    requires
        0 <= m <= order.len(),
        edges_in_range(g),
    ensures
        forall|x: int|
            0 <= x < g.len() && g[x].len() > 0 && #[trigger] taint(g, order, m)[x] ==> exists|j: int|
                0 <= j < m && placed_after_deps(g, order, x, j),
    decreases m,
{
    if m > 0 {
        let p = m - 1;
        lemma_taint_witness(g, order, p);
        lemma_taint_len(g, order, p);
        let t = taint(g, order, p);
        let u = order[p] as int;
        assert(taint(g, order, m) == taint_step(g, t, u));
        let marked = Seq::new(
            t.len(),
            |y: int| t[y] || (g[y].len() == 0 && occurs_before(g[u], g[u].len() as int, y as usize)),
        );
        assert forall|x: int|
            0 <= x < g.len() && g[x].len() > 0 && #[trigger] taint(g, order, m)[x] implies exists|j: int|
                0 <= j < m && placed_after_deps(g, order, x, j) by {
            let all_settled = forall|k: int| 0 <= k < g[u].len() ==> settled(g, t, #[trigger] g[u][k]);
            if x == u && 0 <= u < t.len() && all_settled {
                assert forall|k: int| 0 <= k < g[x].len() implies g[g[x][k] as int].len() == 0
                    || occurs_before(order, p, #[trigger] g[x][k]) by {
                    assert(settled(g, t, g[u][k]));
                    let d = g[x][k] as int;
                    if g[d].len() > 0 {
                        assert(t[d]);
                        let j2 = choose|j2: int| 0 <= j2 < p && placed_after_deps(g, order, d, j2);
                        assert(order[j2] == g[x][k]);
                    }
                }
                assert(placed_after_deps(g, order, x, p));
            } else {
                assert(marked[x]);
                assert(t[x]);
                let j = choose|j: int| 0 <= j < p && placed_after_deps(g, order, x, j);
            }
        }
    }
}

/// When a taint pass over an order of distinct nodes marks every node, the graph has no
/// cycle: a node ranks by its place in the order, a node without dependencies lowest.
pub proof fn lemma_taint_total_acyclic(g: Seq<Seq<usize>>, order: Seq<usize>)
    requires
        edges_in_range(g),
        distinct_nodes(order, g.len()),
        forall|x: int| 0 <= x < g.len() ==> taint(g, order, order.len() as int)[x],
    ensures
        acyclic(g),
{
    lemma_taint_witness(g, order, order.len() as int);
    let place = |x: int| choose|j: int| 0 <= j < order.len() && placed_after_deps(g, order, x, j);
    let rank = Seq::new(
        g.len(),
        |x: int| if g[x].len() == 0 {
            0nat
        } else {
            (place(x) + 1) as nat
        },
    );
    assert forall|u: int, k: int| 0 <= u < g.len() && 0 <= k < g[u].len() implies #[trigger] rank[g[u][k] as int]
        < rank[u] by {
        assert(taint(g, order, order.len() as int)[u]);
        let j = place(u);
        assert(placed_after_deps(g, order, u, j));
        let d = g[u][k] as int;
        if g[d].len() > 0 {
            assert(occurs_before(order, j, g[u][k]));
            let j2 = choose|j2: int| 0 <= j2 < j && #[trigger] order[j2] == g[u][k];
            assert(taint(g, order, order.len() as int)[d]);
            let jd = place(d);
            assert(placed_after_deps(g, order, d, jd));
            assert(jd == j2);
        }
    }
    assert(is_rank(g, rank));
}

/// A taint pass over an order that lists every node, each after its dependencies, taints
/// every node: on such an order the cycle check reports nothing.
pub proof fn lemma_taint_covers_ordered(g: Seq<Seq<usize>>, order: Seq<usize>)
    requires
        g.len() <= usize::MAX,
        respects(g, order),
        distinct_nodes(order, g.len()),
        forall|x: usize| x < g.len() ==> order.contains(x),
    ensures
        forall|x: int| 0 <= x < g.len() ==> taint(g, order, order.len() as int)[x],
{
    lemma_taint_prefix(g, order, order.len() as int);
    assert forall|x: int| 0 <= x < g.len() implies taint(g, order, order.len() as int)[x] by {
        assert(order.contains(x as usize));
        let j = choose|j: int| 0 <= j < order.len() && order[j] == x as usize;
    }
}

proof fn lemma_respects_push(g: Seq<Seq<usize>>, order: Seq<usize>, v: usize)
    requires
        respects(g, order),
        forall|k: int| 0 <= k < g[v as int].len() ==> order.contains(#[trigger] g[v as int][k]),
    ensures
        respects(g, order.push(v)),
{
    let o2 = order.push(v);
    assert forall|i: int, k: int|
        0 <= i < o2.len() && 0 <= k < g[o2[i] as int].len() implies occurs_before(
            o2,
            i,
            #[trigger] g[o2[i] as int][k],
        ) by {
        if i < order.len() {
            assert(o2[i] == order[i]);
            assert(occurs_before(order, i, g[order[i] as int][k]));
            let j = choose|j: int| 0 <= j < i && #[trigger] order[j] == g[order[i] as int][k];
            assert(o2[j] == order[j]);
        } else {
            assert(o2[i] == v);
            assert(order.contains(g[v as int][k]));
            let j = choose|j: int| 0 <= j < order.len() && order[j] == g[v as int][k];
            assert(o2[j] == order[j]);
        }
    }
}

proof fn lemma_chain_ordered(g: Seq<Seq<usize>>, order: Seq<usize>, path: Seq<usize>, i: int)
    requires
        respects(g, order),
        dependency_chain(g, path),
        0 <= i < order.len(),
        order[i] == path[0],
    ensures
        occurs_before(order, i, path.last()),
    decreases path.len(),
{
    assert(g[path[0] as int].contains(path[1]));
    let k = choose|k: int| 0 <= k < g[path[0] as int].len() && g[path[0] as int][k] == path[1];
    assert(occurs_before(order, i, g[order[i] as int][k]));
    let j = choose|j: int| 0 <= j < i && #[trigger] order[j] == g[order[i] as int][k];
    if path.len() > 2 {
        let rest = path.drop_first();
        assert forall|m: int| 1 <= m < rest.len() implies g[rest[m - 1] as int].contains(#[trigger] rest[m]) by {
            assert(rest[m - 1] == path[m] && rest[m] == path[m + 1]);
        }
        lemma_chain_ordered(g, order, rest, j);
        let j2 = choose|j2: int| 0 <= j2 < j && #[trigger] order[j2] == rest.last();
        assert(order[j2] == path.last());
    } else {
        assert(order[j] == path.last());
    }
}

/// Running the depth-first sort on graphs with the same edges gives the same order: the
/// order is a function of the graph alone.
pub proof fn lemma_sorted_order_deterministic(a: &Graph, b: &Graph)
    requires
        a@ == b@,
    ensures
        sorted_order(a@) == sorted_order(b@),
{
}

impl Graph {
    /// Graph with no nodes.
    pub fn new() -> (r: Self)
        ensures
            r@ == Seq::<Seq<usize>>::empty(),
    {
        Self { adjacency_list: Vec::new() }
    }

    /// Appends a node without dependencies; its id is the previous node count.
    pub fn add_node(&mut self, _expr_index: usize)
        ensures
            final(self)@ == old(self)@.push(Seq::<usize>::empty()),
    {
        self.adjacency_list.push(Vec::new());
        assert(self@ =~= old(self)@.push(Seq::<usize>::empty()));
    }

    /// Records that `src_expr_index` depends on `dst_expr_index`.
    pub fn add_directed_edge(&mut self, src_expr_index: usize, dst_expr_index: usize)
        requires
            src_expr_index < old(self)@.len(),
        ensures
            final(self)@ == old(self)@.update(
                src_expr_index as int,
                old(self)@[src_expr_index as int].push(dst_expr_index),
            ),
    {
        self.adjacency_list[src_expr_index].push(dst_expr_index);
        assert(self@ =~= old(self)@.update(
            src_expr_index as int,
            old(self)@[src_expr_index as int].push(dst_expr_index),
        ));
    }

    /// The dependencies of a node, in the order they were added.
    pub fn get_node_descendants(&self, expr_index: usize) -> (r: Vec<usize>)
        requires
            expr_index < self@.len(),
        ensures
            r@ == self@[expr_index as int],
    {
        self.adjacency_list[expr_index].clone()
    }

    /// Whether a node has at least one dependency.
    pub fn has_node_descendants(&self, expr_index: usize) -> (r: bool)
        requires
            expr_index < self@.len(),
        ensures
            r == (self@[expr_index as int].len() > 0),
    {
        self.adjacency_list[expr_index].len() > 0
    }

    pub fn nodes_count(&self) -> (r: usize)
        ensures
            r == self@.len(),
    {
        self.adjacency_list.len()
    }
}

/// Depth-first walker; `seen[u]` records that node `u` has been visited.
pub struct GraphWalker {
    pub seen: Vec<bool>,
}

impl GraphWalker {
    pub fn new() -> (r: Self)
        ensures
            r.seen@ == Seq::<bool>::empty(),
    {
        Self { seen: Vec::new() }
    }

    /// Depth-first post-order of all nodes: every node exactly once, and, when the
    /// graph has no cycle, each node after all of its dependencies.
    pub fn get_sorted_dependencies(&mut self, graph: &Graph) -> (r: Vec<usize>)
        requires
            edges_in_range(graph@),
        ensures
            r@ == sorted_order(graph@),
            r@.len() == graph@.len(),
            forall|x: int| 0 <= x < graph@.len() ==> final(self).seen@[x],
            distinct_nodes(r@, graph@.len()),
            forall|x: usize| x < graph@.len() ==> r@.contains(x),
            acyclic(graph@) ==> respects(graph@, r@),
            acyclic(graph@) ==> forall|path: Seq<usize>, i: int|
                #![trigger dependency_chain(graph@, path), r@[i]]
                dependency_chain(graph@, path) && 0 <= i < r@.len() && r@[i] == path[0]
                    ==> occurs_before(r@, i, path.last()),
            final(self).seen@.len() == graph@.len(),
    {
        let ghost g = graph@;
        let ghost rank = choose|rank: Seq<nat>| is_rank(g, rank);
        let n = graph.nodes_count();
        let mut seen: Vec<bool> = Vec::new();
        let mut j: usize = 0;
        while j < n
            invariant
                j <= n,
                n == g.len(),
                seen@ =~= Seq::new(j as nat, |i: int| false),
            decreases n - j,
        {
            seen.push(false);
            j = j + 1;
        }
        self.seen = seen;
        let mut sorted_indexes = Vec::<usize>::new();
        proof {
            lemma_all_false_unseen(n as nat);
        }
        let ghost start = self.seen@;
        let mut expr_index: usize = 0;
        while expr_index < n
            invariant
                n == g.len(),
                g == graph@,
                edges_in_range(g),
                expr_index <= n,
                start == Seq::new(n as nat, |i: int| false),
                self.seen@.len() == n,
                sorted_indexes@.len() + unseen_count(self.seen@) == n,
                distinct_nodes(sorted_indexes@, n as nat),
                forall|i: int| 0 <= i < sorted_indexes@.len() ==> self.seen@[#[trigger] sorted_indexes@[i] as int],
                walk_from(g, start, Seq::empty(), 0) == walk_from(g, self.seen@, sorted_indexes@, expr_index as int),
                forall|x: int| 0 <= x < n ==> !on_path(self.seen@, sorted_indexes@, x),
                forall|x: int| 0 <= x < expr_index ==> self.seen@[x],
                is_rank(g, rank) ==> respects(g, sorted_indexes@),
            decreases n - expr_index,
        {
            proof {
                lemma_unseen_bound(self.seen@);
            }
            self.sort_dependencies_recursion(
                expr_index,
                graph,
                &mut sorted_indexes,
                Ghost((n + 1) as nat),
                Ghost(rank),
            );
            expr_index = expr_index + 1;
        }
        proof {
            lemma_all_true_unseen(self.seen@);
            assert forall|x: usize| x < g.len() implies sorted_indexes@.contains(x) by {
                assert(!on_path(self.seen@, sorted_indexes@, x as int));
            }
            if acyclic(g) {
                assert(is_rank(g, rank));
                assert forall|path: Seq<usize>, i: int|
                    #![trigger dependency_chain(g, path), sorted_indexes@[i]]
                    dependency_chain(g, path) && 0 <= i < sorted_indexes@.len() && sorted_indexes@[i]
                        == path[0] implies occurs_before(sorted_indexes@, i, path.last()) by {
                    lemma_chain_ordered(g, sorted_indexes@, path, i);
                }
            }
        }
        sorted_indexes
    }

    /// Visits `tle_index`: unless already seen, visits each of its dependencies and then
    /// appends it to `branch`. `depth` and `rank` are proof-only: the recursion bound of
    /// the matching spec-level visit, and a rank of the graph if it has one.
    pub fn sort_dependencies_recursion(
        &mut self,
        tle_index: usize,
        graph: &Graph,
        branch: &mut Vec<usize>,
        Ghost(depth): Ghost<nat>,
        Ghost(rank): Ghost<Seq<nat>>,
    )
        requires
            edges_in_range(graph@),
            tle_index < graph@.len(),
            old(self).seen@.len() == graph@.len(),
            depth > unseen_count(old(self).seen@),
            distinct_nodes(old(branch)@, graph@.len()),
            forall|i: int|
                0 <= i < old(branch)@.len() ==> old(self).seen@[#[trigger] old(branch)@[i] as int],
            is_rank(graph@, rank) ==> respects(graph@, old(branch)@),
            is_rank(graph@, rank) ==> forall|x: int|
                0 <= x < graph@.len() && on_path(old(self).seen@, old(branch)@, x) ==> rank[x]
                    > rank[tle_index as int],
        ensures
            (final(self).seen@, final(branch)@) == visit(
                graph@,
                old(self).seen@,
                old(branch)@,
                tle_index as int,
                depth,
            ),
            final(self).seen@.len() == graph@.len(),
            unseen_count(final(self).seen@) <= unseen_count(old(self).seen@),
            final(branch)@.len() - old(branch)@.len() == unseen_count(old(self).seen@) - unseen_count(
                final(self).seen@,
            ),
            final(self).seen@[tle_index as int],
            forall|x: int| 0 <= x < graph@.len() && old(self).seen@[x] ==> final(self).seen@[x],
            distinct_nodes(final(branch)@, graph@.len()),
            forall|i: int|
                0 <= i < final(branch)@.len() ==> final(self).seen@[#[trigger] final(branch)@[i] as int],
            old(branch)@.len() <= final(branch)@.len(),
            final(branch)@.subrange(0, old(branch)@.len() as int) == old(branch)@,
            forall|i: int|
                old(branch)@.len() <= i < final(branch)@.len() ==> !old(self).seen@[#[trigger] final(branch)@[i] as int],
            forall|x: int|
                0 <= x < graph@.len() ==> on_path(final(self).seen@, final(branch)@, x) == on_path(
                    old(self).seen@,
                    old(branch)@,
                    x,
                ),
            is_rank(graph@, rank) ==> respects(graph@, final(branch)@),
            is_rank(graph@, rank) ==> final(branch)@.contains(tle_index),
        decreases unseen_count(old(self).seen@),
    {
        let ghost g = graph@;
        let n = graph.nodes_count();
        let ghost s0 = self.seen@;
        let ghost b0 = branch@;
        if self.seen[tle_index] {
            proof {
                assert(branch@.subrange(0, b0.len() as int) =~= b0);
                if is_rank(g, rank) {
                    assert(!on_path(s0, b0, tle_index as int));
                }
            }
            return;
        }
        proof {
            lemma_unseen_update(s0, tle_index as int);
        }
        self.seen.set(tle_index, true);
        let ghost s1 = self.seen@;
        let list = &graph.adjacency_list[tle_index];
        assert(list@ == g[tle_index as int]);
        let mut k: usize = 0;
        while k < list.len()
            invariant
                g == graph@,
                edges_in_range(g),
                tle_index < g.len(),
                list@ == g[tle_index as int],
                depth > unseen_count(s0),
                s0.len() == g.len(),
                n == g.len(),
                s1 == s0.update(tle_index as int, true),
                unseen_count(s1) + 1 == unseen_count(s0),
                !s0[tle_index as int],
                k <= list.len(),
                self.seen@.len() == g.len(),
                unseen_count(self.seen@) <= unseen_count(s1),
                branch@.len() - b0.len() == unseen_count(s1) - unseen_count(self.seen@),
                visit_list(g, s1, b0, list@, 0, (depth - 1) as nat) == visit_list(
                    g,
                    self.seen@,
                    branch@,
                    list@,
                    k as int,
                    (depth - 1) as nat,
                ),
                forall|x: int| 0 <= x < g.len() && s1[x] ==> self.seen@[x],
                distinct_nodes(branch@, g.len()),
                forall|i: int| 0 <= i < branch@.len() ==> self.seen@[#[trigger] branch@[i] as int],
                b0.len() <= branch@.len(),
                branch@.subrange(0, b0.len() as int) == b0,
                forall|i: int| b0.len() <= i < branch@.len() ==> !s1[#[trigger] branch@[i] as int],
                forall|x: int|
                    0 <= x < g.len() ==> on_path(self.seen@, branch@, x) == on_path(s1, b0, x),
                is_rank(g, rank) ==> respects(g, branch@),
                is_rank(g, rank) ==> forall|j: int| 0 <= j < k ==> branch@.contains(#[trigger] list@[j]),
                is_rank(g, rank) ==> forall|x: int|
                    0 <= x < g.len() && on_path(old(self).seen@, old(branch)@, x) ==> rank[x]
                        > rank[tle_index as int],
                s0 == old(self).seen@,
                b0 == old(branch)@,
            decreases list.len() - k,
        {
            let neighbor = list[k];
            let ghost sk = self.seen@;
            let ghost bk = branch@;
            proof {
                assert(neighbor == g[tle_index as int][k as int]);
                if is_rank(g, rank) {
                    assert forall|x: int|
                        0 <= x < g.len() && on_path(sk, bk, x) implies rank[x] > rank[neighbor as int] by {
                        assert(on_path(s1, b0, x));
                        assert(rank[neighbor as int] < rank[tle_index as int]);
                        if x != tle_index as int {
                            assert(s1[x] == s0[x]);
                            assert(on_path(s0, b0, x));
                        }
                    }
                }
            }
            self.sort_dependencies_recursion(
                neighbor,
                graph,
                branch,
                Ghost((depth - 1) as nat),
                Ghost(rank),
            );
            proof {
                assert(branch@.subrange(0, b0.len() as int) =~= b0) by {
                    assert(branch@.subrange(0, bk.len() as int) == bk);
                    assert forall|i: int| 0 <= i < b0.len() implies branch@[i] == b0[i] by {
                        assert(branch@[i] == branch@.subrange(0, bk.len() as int)[i]);
                        assert(bk[i] == bk.subrange(0, b0.len() as int)[i]);
                    }
                }
                assert forall|i: int| b0.len() <= i < branch@.len() implies !s1[#[trigger] branch@[i] as int] by {
                    if i < bk.len() {
                        assert(branch@[i] == branch@.subrange(0, bk.len() as int)[i]);
                        assert(branch@[i] == bk[i]);
                    } else {
                        assert(!sk[branch@[i] as int]);
                    }
                }
                if is_rank(g, rank) {
                    assert forall|j: int| 0 <= j < k + 1 implies branch@.contains(#[trigger] list@[j]) by {
                        if j < k {
                            assert(bk.contains(list@[j]));
                            let m = choose|m: int| 0 <= m < bk.len() && bk[m] == list@[j];
                            assert(branch@[m] == branch@.subrange(0, bk.len() as int)[m]);
                        }
                    }
                }
            }
            k = k + 1;
        }
        let ghost sl = self.seen@;
        let ghost bl = branch@;
        branch.push(tle_index);
        proof {
            assert(s1[tle_index as int]);
            assert(branch@.subrange(0, b0.len() as int) =~= b0);
            assert(branch@.drop_last() =~= bl);
            assert(branch@[branch@.len() - 1] == tle_index);
            assert(!b0.contains(tle_index)) by {
                if b0.contains(tle_index) {
                    let m = choose|m: int| 0 <= m < b0.len() && b0[m] == tle_index;
                }
            }
            assert forall|i: int, j: int| 0 <= i < j < branch@.len() implies branch@[i] != branch@[j] by {
                if j == branch@.len() - 1 {
                    assert(self.seen@[branch@[i] as int]);
                    if i >= b0.len() {
                    } else {
                        assert(branch@[i] == b0[i]);
                    }
                }
            }
            assert forall|x: int|
                0 <= x < g.len() implies on_path(self.seen@, branch@, x) == on_path(s0, b0, x) by {
                assert(on_path(sl, bl, x) == on_path(s1, b0, x));
                assert(bl.contains(x as usize) ==> branch@.contains(x as usize)) by {
                    if bl.contains(x as usize) {
                        let m = choose|m: int| 0 <= m < bl.len() && bl[m] == x as usize;
                        assert(branch@[m] == x as usize);
                    }
                }
                if x != tle_index as int {
                    assert(s1[x] == s0[x]);
                    assert(branch@.contains(x as usize) ==> bl.contains(x as usize)) by {
                        if branch@.contains(x as usize) {
                            let m = choose|m: int| 0 <= m < branch@.len() && branch@[m] == x as usize;
                            assert(m != branch@.len() - 1);
                            assert(bl[m] == x as usize);
                        }
                    }
                } else {
                    assert(branch@.contains(tle_index));
                }
            }
            if is_rank(g, rank) {
                assert forall|k2: int| 0 <= k2 < g[tle_index as int].len() implies bl.contains(
                    #[trigger] g[tle_index as int][k2],
                ) by {
                    assert(list@[k2] == g[tle_index as int][k2]);
                }
                lemma_respects_push(g, bl, tle_index);
                assert(respects(g, branch@));
                assert(branch@.contains(tle_index));
            }
            assert forall|x: int| 0 <= x < g.len() && s0[x] implies self.seen@[x] by {
                assert(s1[x]);
            }
        }
    }

    /// Taint pass over a depth-first order: `None` when every node ends up tainted, else
    /// the untainted nodes (those on a cycle or depending on one) in ascending order.
    pub fn get_cycling_dependencies(&mut self, graph: &Graph, sorted_indexes: &Vec<usize>) -> (r:
        Option<Vec<usize>>)
        requires
            edges_in_range(graph@),
            distinct_nodes(sorted_indexes@, graph@.len()),
            forall|x: usize| x < graph@.len() ==> sorted_indexes@.contains(x),
        ensures
            ({
                let t = taint(graph@, sorted_indexes@, sorted_indexes@.len() as int);
                &&& r is None <==> forall|x: int| 0 <= x < graph@.len() ==> t[x]
                &&& r matches Some(v) ==> v@ == unmarked_ids(t, graph@.len() as int)
            }),
            r matches Some(v) ==> forall|m: int| 0 <= m < v@.len() ==> #[trigger] v@[m] < graph@.len(),
            r is None ==> acyclic(graph@),
            respects(graph@, sorted_indexes@) && acyclic(graph@) ==> r is None,
            r matches Some(v) ==> forall|x: int|
                0 <= x < graph@.len() && #[trigger] reaches_cycle(graph@, x) ==> v@.contains(x as usize),
            (exists|x: int| 0 <= x < graph@.len() && #[trigger] reaches_cycle(graph@, x)) ==> r is Some,
    {
        let ghost g = graph@;
        let ghost order = sorted_indexes@;
        let n = graph.nodes_count();
        let mut tainted: Vec<bool> = Vec::new();
        let mut j: usize = 0;
        while j < n
            invariant
                j <= n,
                n == g.len(),
                tainted@ =~= Seq::new(j as nat, |i: int| false),
            decreases n - j,
        {
            tainted.push(false);
            j = j + 1;
        }
        assert(tainted@ =~= taint(g, order, 0));
        let mut m: usize = 0;
        while m < sorted_indexes.len()
            invariant
                g == graph@,
                order == sorted_indexes@,
                n == g.len(),
                edges_in_range(g),
                distinct_nodes(order, n as nat),
                m <= order.len(),
                tainted@ == taint(g, order, m as int),
                tainted@.len() == n,
            decreases sorted_indexes.len() - m,
        {
            let node = sorted_indexes[m];
            let ghost t0 = tainted@;
            let descendants = graph.get_node_descendants(node);
            let ghost list = descendants@;
            let mut tainted_descendants_count: usize = 0;
            let mut k: usize = 0;
            while k < descendants.len()
                invariant
                    g == graph@,
                    n == g.len(),
                    edges_in_range(g),
                    node < n,
                    list == g[node as int],
                    descendants@ == list,
                    t0.len() == n,
                    k <= list.len(),
                    tainted@ == Seq::new(
                        n as nat,
                        |x: int| t0[x] || (g[x].len() == 0 && occurs_before(list, k as int, x as usize)),
                    ),
                    tainted_descendants_count <= k,
                    tainted_descendants_count == k <==> forall|i: int|
                        0 <= i < k ==> settled(g, t0, #[trigger] list[i]),
                decreases descendants.len() - k,
            {
                let descendant = descendants[k];
                assert(descendant == g[node as int][k as int]);
                let ok = !graph.has_node_descendants(descendant) || tainted[descendant];
                assert(ok == settled(g, t0, descendant));
                if ok {
                    tainted.set(descendant, true);
                    tainted_descendants_count = tainted_descendants_count + 1;
                }
                proof {
                    assert forall|x: int| 0 <= x < n implies (#[trigger] occurs_before(list, k + 1, x as usize)
                        == (occurs_before(list, k as int, x as usize) || x == descendant as int)) by {
                        if occurs_before(list, k + 1, x as usize) {
                            let w = choose|w: int| 0 <= w < k + 1 && #[trigger] list[w] == x as usize;
                            if w < k {
                                assert(occurs_before(list, k as int, x as usize));
                            }
                        }
                        if x == descendant as int {
                            assert(list[k as int] == x as usize);
                        }
                    }
                    assert(tainted@ =~= Seq::new(
                        n as nat,
                        |x: int| t0[x] || (g[x].len() == 0 && occurs_before(list, k + 1, x as usize)),
                    ));
                }
                k = k + 1;
            }
            if tainted_descendants_count == descendants.len() {
                tainted.set(node, true);
            }
            proof {
                assert(tainted@ =~= taint_step(g, t0, node as int));
                assert(taint(g, order, m + 1) == taint_step(g, taint(g, order, m as int), order[m as int] as int));
            }
            m = m + 1;
        }
        let ghost t = tainted@;
        let mut all = true;
        let mut deps: Vec<usize> = Vec::new();
        let mut x: usize = 0;
        while x < n
            invariant
                n == g.len(),
                t == tainted@,
                t.len() == n,
                x <= n,
                all <==> forall|y: int| 0 <= y < x ==> t[y],
                deps@ == unmarked_ids(t, x as int),
                forall|m: int| 0 <= m < deps@.len() ==> #[trigger] deps@[m] < x,
            decreases n - x,
        {
            if !tainted[x] {
                all = false;
                deps.push(x);
            }
            x = x + 1;
        }
        proof {
            assert forall|y: int| 0 <= y < g.len() && #[trigger] reaches_cycle(g, y) implies !t[y]
                && deps@.contains(y as usize) by {
                lemma_cycle_untainted(g, order, y);
                lemma_unmarked_contains(t, n as int, y);
            }
            if all {
                lemma_taint_total_acyclic(g, order);
            }
            if respects(g, order) && acyclic(g) {
                lemma_taint_covers_ordered(g, order);
            }
        }
        if all {
            None
        } else {
            Some(deps)
        }
    }
}

} // verus!
