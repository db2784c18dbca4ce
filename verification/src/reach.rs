use crate::graph::{
    bfs_order, edge, in_range, is_path, lemma_visit_decreases, reachable, run, unvisited,
};
use crate::traversal::{lemma_skip_visited, skip_visited, Walk};
use vstd::prelude::*;

verus! {

/// Whether `walk` has met `node`: processed it, has it in hand, or holds it
/// in the frontier.
pub open spec fn known(walk: Walk<usize>, node: usize) -> bool {
    walk.visited.contains(node) || walk.frontier.contains(node) || walk.current == Some(node)
}

/// What holds at every step of a walk over `g` that started at `start`: no
/// node was processed twice, `start` was met, every node that was met can be
/// reached from `start`, and every edge of a processed node leads to a node
/// that was met.
pub open spec fn walk_inv(g: Seq<Seq<usize>>, start: usize, walk: Walk<usize>) -> bool {
    &&& walk.wf()
    &&& known(walk, start)
    &&& forall|v: usize| #[trigger] known(walk, v) ==> reachable(g, start, v)
    &&& forall|v: usize, t: usize|
        walk.visited.contains(v) && #[trigger] edge(g, v, t) ==> known(walk, t)
}

/// Every node is reached from itself.
pub proof fn lemma_reachable_self(g: Seq<Seq<usize>>, node: usize)
    ensures
        reachable(g, node, node),
{
    let path = seq![node];
    assert(is_path(g, path) && path.first() == node && path.last() == node);
}

/// What is reached stays reached along one more edge.
pub proof fn lemma_reachable_step(g: Seq<Seq<usize>>, from: usize, via: usize, to: usize)
    requires
        reachable(g, from, via),
        edge(g, via, to),
    ensures
        reachable(g, from, to),
{
    let path = choose|path: Seq<usize>|
        is_path(g, path) && path.first() == from && path.last() == via;
    let longer = path.push(to);
    assert forall|i: int, j: int| 0 <= i && j == i + 1 && j < longer.len() implies edge(
        g,
        #[trigger] longer[i],
        #[trigger] longer[j],
    ) by {
        if j < path.len() {
            assert(edge(g, path[i], path[j]));
        }
    }
    assert(is_path(g, longer) && longer.first() == from && longer.last() == to);
}

/// Along a path that starts at a node of `g`, every node is a node of `g`.
proof fn lemma_path_in_range(g: Seq<Seq<usize>>, path: Seq<usize>, i: int)
    requires
        in_range(g),
        is_path(g, path),
        path.first() < g.len(),
        0 <= i < path.len(),
    ensures
        path[i] < g.len(),
    decreases i,
{
    if i > 0 {
        lemma_path_in_range(g, path, i - 1);
        assert(edge(g, path[i - 1], path[i]));
        let row = g[path[i - 1] as int];
        let j = choose|j: int| 0 <= j < row.len() && row[j] == path[i];
        assert(g[path[i - 1] as int][j] < g.len());
    }
}

/// In a graph whose edges stay in range, what is reached from a node of the
/// graph is a node of the graph.
pub proof fn lemma_reachable_in_range(g: Seq<Seq<usize>>, from: usize, to: usize)
    requires
        in_range(g),
        from < g.len(),
        reachable(g, from, to),
    ensures
        to < g.len(),
{
    let path = choose|path: Seq<usize>|
        is_path(g, path) && path.first() == from && path.last() == to;
    lemma_path_in_range(g, path, path.len() - 1);
}

/// A walk that starts at `start` meets what holds at every step.
pub proof fn lemma_start_inv(g: Seq<Seq<usize>>, start: usize)
    ensures
        walk_inv(g, start, Walk::new(start)),
{
    let walk = Walk::new(start);
    assert(walk.frontier[0] == start);
    assert forall|v: usize| #[trigger] known(walk, v) implies reachable(g, start, v) by {
        assert(walk.frontier.contains(v));
        lemma_reachable_self(g, start);
    }
}

/// Taking a node in hand changes nothing in what the walk has met.
pub proof fn lemma_settle_known(walk: Walk<usize>, node: usize)
    ensures
        known(walk.settle(), node) <==> known(walk, node),
{
    if walk.current is None {
        lemma_skip_visited(walk.frontier, walk.visited);
        let rest = skip_visited(walk.frontier, walk.visited);
        let cut = walk.frontier.len() - rest.len();
        let ready = walk.settle();
        if walk.frontier.contains(node) {
            let i = choose|i: int| 0 <= i < walk.frontier.len() && walk.frontier[i] == node;
            if i < cut {
                assert(walk.visited.contains(walk.frontier[i]));
            } else if i == cut {
                assert(rest[0] == node);
            } else {
                assert(rest.drop_first()[i - cut - 1] == node);
            }
        }
        if ready.frontier.contains(node) {
            let i = choose|i: int| 0 <= i < ready.frontier.len() && ready.frontier[i] == node;
            if rest.len() > 0 {
                assert(walk.frontier[i + cut + 1] == node);
            }
        }
        if ready.current == Some(node) {
            assert(walk.frontier[cut] == node);
        }
    }
}

/// Taking a node in hand keeps what holds at every step.
pub proof fn lemma_settle_inv(g: Seq<Seq<usize>>, start: usize, walk: Walk<usize>)
    requires
        walk_inv(g, start, walk),
    ensures
        walk_inv(g, start, walk.settle()),
{
    let ready = walk.settle();
    walk.lemma_settle_wf();
    lemma_settle_known(walk, start);
    assert forall|v: usize| #[trigger] known(ready, v) implies reachable(g, start, v) by {
        lemma_settle_known(walk, v);
        assert(known(walk, v));
    }
    assert forall|v: usize, t: usize|
        ready.visited.contains(v) && #[trigger] edge(g, v, t) implies known(ready, t) by {
        lemma_settle_known(walk, t);
        assert(known(walk, t));
    }
}

/// What the walk has met once the node in hand is expanded by its edges: what
/// it had met, and the nodes that the edges lead to.
pub proof fn lemma_expand_known(g: Seq<Seq<usize>>, walk: Walk<usize>, node: usize, other: usize)
    requires
        walk.current == Some(node),
        node < g.len(),
    ensures
        known(walk.expand(g[node as int]), other) <==> (known(walk, other) || edge(g, node, other)),
{
    let row = g[node as int];
    let fresh = |k: usize| !walk.visited.contains(k);
    let added = row.filter(fresh);
    let next = walk.expand(row);
    assert(next.frontier == walk.frontier + added);
    if known(walk, other) {
        if walk.visited.contains(other) {
            let i = choose|i: int| 0 <= i < walk.visited.len() && walk.visited[i] == other;
            assert(next.visited[i] == other);
        } else if walk.frontier.contains(other) {
            let i = choose|i: int| 0 <= i < walk.frontier.len() && walk.frontier[i] == other;
            assert(next.frontier[i] == other);
        } else {
            assert(next.visited[walk.visited.len() as int] == other);
        }
    }
    if edge(g, node, other) {
        if walk.visited.contains(other) {
            let i = choose|i: int| 0 <= i < walk.visited.len() && walk.visited[i] == other;
            assert(next.visited[i] == other);
        } else {
            let j = choose|j: int| 0 <= j < row.len() && row[j] == other;
            assert(fresh(row[j]));
            row.lemma_filter_contains(fresh, j);
            let k = choose|k: int| 0 <= k < added.len() && added[k] == other;
            assert(next.frontier[walk.frontier.len() + k] == other);
        }
    }
    if known(next, other) {
        if next.visited.contains(other) {
            let i = choose|i: int| 0 <= i < next.visited.len() && next.visited[i] == other;
            if i < walk.visited.len() {
                assert(walk.visited[i] == other);
            }
        } else {
            let i = choose|i: int| 0 <= i < next.frontier.len() && next.frontier[i] == other;
            if i < walk.frontier.len() {
                assert(walk.frontier[i] == other);
            } else {
                assert(added[i - walk.frontier.len()] == other);
                assert(added.contains(other));
                row.lemma_filter_contains_rev(fresh, other);
            }
        }
    }
}

/// Expanding the node in hand by its edges keeps what holds at every step.
pub proof fn lemma_expand_inv(g: Seq<Seq<usize>>, start: usize, walk: Walk<usize>, node: usize)
    requires
        walk_inv(g, start, walk),
        walk.current == Some(node),
        node < g.len(),
    ensures
        walk_inv(g, start, walk.expand(g[node as int])),
{
    let next = walk.expand(g[node as int]);
    walk.lemma_expand_wf(g[node as int]);
    lemma_expand_known(g, walk, node, start);
    assert(known(walk, node));
    assert forall|v: usize| #[trigger] known(next, v) implies reachable(g, start, v) by {
        lemma_expand_known(g, walk, node, v);
        if !known(walk, v) {
            lemma_reachable_step(g, start, node, v);
        }
    }
    assert forall|v: usize, t: usize|
        next.visited.contains(v) && #[trigger] edge(g, v, t) implies known(next, t) by {
        lemma_expand_known(g, walk, node, t);
        let i = choose|i: int| 0 <= i < next.visited.len() && next.visited[i] == v;
        if i < walk.visited.len() {
            assert(walk.visited.contains(v));
            assert(known(walk, t));
        }
    }
}

/// Once nothing is in hand and nothing waits, every node of a path from
/// `start` was processed.
proof fn lemma_closed(g: Seq<Seq<usize>>, start: usize, walk: Walk<usize>, path: Seq<usize>, i: int)
    requires
        walk_inv(g, start, walk),
        walk.current is None,
        walk.frontier.len() == 0,
        is_path(g, path),
        path.first() == start,
        0 <= i < path.len(),
    ensures
        walk.visited.contains(path[i]),
    decreases i,
{
    if i > 0 {
        lemma_closed(g, start, walk, path, i - 1);
        assert(edge(g, path[i - 1], path[i]));
        assert(known(walk, path[i]));
    }
}

/// A walk over `g` that started at `start` ends with every node that can be
/// reached from `start` processed once, and no other node.
proof fn lemma_run(g: Seq<Seq<usize>>, start: usize, walk: Walk<usize>)
    requires
        in_range(g),
        start < g.len(),
        walk_inv(g, start, walk),
    ensures
        run(g, walk).no_duplicates(),
        forall|v: usize| run(g, walk).contains(v) <==> reachable(g, start, v),
    decreases unvisited(g.len(), walk.visited),
{
    let ready = walk.settle();
    lemma_settle_inv(g, start, walk);
    match ready.current {
        Some(node) => {
            assert(known(ready, node));
            lemma_reachable_in_range(g, start, node);
            lemma_visit_decreases(g.len(), ready.visited, node);
            lemma_expand_inv(g, start, ready, node);
            lemma_run(g, start, ready.expand(g[node as int]));
        },
        None => {
            lemma_skip_visited(walk.frontier, walk.visited);
            assert forall|v: usize| ready.visited.contains(v) <==> reachable(g, start, v) by {
                if ready.visited.contains(v) {
                    assert(known(ready, v));
                }
                if reachable(g, start, v) {
                    let path = choose|path: Seq<usize>|
                        is_path(g, path) && path.first() == start && path.last() == v;
                    lemma_closed(g, start, ready, path, path.len() - 1);
                }
            }
        },
    }
}

/// A breadth-first traversal visits every node that can be reached from the
/// start node exactly once, and no node that cannot.
pub proof fn lemma_bfs_visits_reachable(g: Seq<Seq<usize>>, start: usize)
    requires
        in_range(g),
        start < g.len(),
    ensures
        bfs_order(g, start).no_duplicates(),
        forall|v: usize| bfs_order(g, start).contains(v) <==> reachable(g, start, v),
{
    lemma_start_inv(g, start);
    lemma_run(g, start, Walk::new(start));
}

/// Of `n` nodes, all are unvisited where none was visited.
proof fn lemma_none_visited(n: nat)
    ensures
        unvisited(n, Seq::<usize>::empty()) == n,
    decreases n,
{
    if n > 0 {
        lemma_none_visited((n - 1) as nat);
    }
}

/// Of `n` nodes, those that were visited, each once, and those that were not
/// are `n` together.
pub proof fn lemma_visited_and_unvisited(n: nat, visited: Seq<usize>)
    requires
        visited.no_duplicates(),
        forall|i: int| 0 <= i < visited.len() ==> visited[i] < n,
    ensures
        visited.len() + unvisited(n, visited) == n,
    decreases visited.len(),
{
    if visited.len() == 0 {
        lemma_none_visited(n);
        assert(visited =~= Seq::<usize>::empty());
    } else {
        let front = visited.drop_last();
        let last = visited.last();
        lemma_visited_and_unvisited(n, front);
        lemma_visit_decreases(n, front, last);
        assert(front.push(last) =~= visited);
    }
}

/// A breadth-first traversal ends, whatever cycles the graph has: each step
/// visits a node that was not visited before, so that a graph of `n` nodes is
/// traversed in at most `n` steps.
pub proof fn lemma_bfs_is_bounded(g: Seq<Seq<usize>>, start: usize)
    requires
        in_range(g),
        start < g.len(),
    ensures
        bfs_order(g, start).len() <= g.len(),
{
    let order = bfs_order(g, start);
    lemma_bfs_visits_reachable(g, start);
    assert forall|i: int| 0 <= i < order.len() implies order[i] < g.len() by {
        assert(order.contains(order[i]));
        lemma_reachable_in_range(g, start, order[i]);
    }
    lemma_visited_and_unvisited(g.len(), order);
}

/// What a walk over `g` has processed at any moment is the beginning of what
/// it has processed when it ends: processing goes on in the same order,
/// wherever it is stopped.
pub proof fn lemma_run_extends(g: Seq<Seq<usize>>, walk: Walk<usize>)
    ensures
        walk.visited.is_prefix_of(run(g, walk)),
    decreases unvisited(g.len(), walk.visited),
{
    let ready = walk.settle();
    if let Some(node) = ready.current {
        if node < g.len() && !ready.visited.contains(node) {
            let next = ready.expand(g[node as int]);
            lemma_visit_decreases(g.len(), ready.visited, node);
            lemma_run_extends(g, next);
            assert(walk.visited =~= next.visited.take(walk.visited.len() as int));
        }
    }
}

} // verus!
