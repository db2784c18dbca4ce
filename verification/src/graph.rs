use crate::levels::{lemma_bfs_nearest_first, nearest_first};
use crate::reach::{
    known, lemma_bfs_is_bounded, lemma_bfs_visits_reachable, lemma_expand_inv,
    lemma_reachable_in_range, lemma_run_extends, lemma_settle_inv, lemma_start_inv, walk_inv,
};
use crate::traversal::{Traversal, Walk};
use crate::views::{lemma_views_of_numbers, views};
use vstd::prelude::*;

verus! {

/// Whether every edge of `g` leads to a node of `g`. Node `v` of `g` is the
/// index `v`, and `g[v]` lists the nodes that its edges lead to.
pub open spec fn in_range(g: Seq<Seq<usize>>) -> bool {
    forall|v: int, j: int| 0 <= v < g.len() && 0 <= j < g[v].len() ==> #[trigger] g[v][j] < g.len()
}

/// Whether `g` has an edge from `from` to `to`.
pub open spec fn edge(g: Seq<Seq<usize>>, from: usize, to: usize) -> bool {
    from < g.len() && g[from as int].contains(to)
}

/// Whether each node of `path` has an edge to the one after it.
pub open spec fn is_path(g: Seq<Seq<usize>>, path: Seq<usize>) -> bool {
    &&& path.len() > 0
    &&& forall|i: int, j: int|
        0 <= i && j == i + 1 && j < path.len() ==> edge(g, #[trigger] path[i], #[trigger] path[j])
}

/// Whether edges of `g` lead from `from` to `to`, in any number of steps.
pub open spec fn reachable(g: Seq<Seq<usize>>, from: usize, to: usize) -> bool {
    exists|path: Seq<usize>| is_path(g, path) && path.first() == from && path.last() == to
}

/// Whether the node of number `node` occurs in `visited`.
pub open spec fn seen(visited: Seq<usize>, node: int) -> bool {
    exists|i: int| 0 <= i < visited.len() && #[trigger] visited[i] as int == node
}

/// How many of the nodes below `n` do not occur in `visited`.
pub open spec fn unvisited(n: nat, visited: Seq<usize>) -> nat
    decreases n,
{
    if n == 0 {
        0
    } else if seen(visited, n - 1) {
        unvisited((n - 1) as nat, visited)
    } else {
        unvisited((n - 1) as nat, visited) + 1
    }
}

/// The nodes that a walk over `g` has processed when it ends, in their order:
/// as long as a node can be taken in hand, it is expanded by its edges. A
/// node in hand that is no node of `g`, or that was processed before, would
/// end the walk; a walk that started at a node of a graph whose edges stay in
/// range has no such node in hand.
pub open spec fn run(g: Seq<Seq<usize>>, walk: Walk<usize>) -> Seq<usize>
    decreases unvisited(g.len(), walk.visited),
    via run_decreases
{
    let ready = walk.settle();
    match ready.current {
        Some(node) => if node < g.len() && !ready.visited.contains(node) {
            run(g, ready.expand(g[node as int]))
        } else {
            ready.visited
        },
        None => ready.visited,
    }
}

#[via_fn]
proof fn run_decreases(g: Seq<Seq<usize>>, walk: Walk<usize>) {
    let ready = walk.settle();
    if let Some(node) = ready.current {
        if node < g.len() && !ready.visited.contains(node) {
            lemma_visit_decreases(g.len(), ready.visited, node);
        }
    }
}

/// The order in which a breadth-first traversal of `g` from `start` visits
/// the nodes.
pub open spec fn bfs_order(g: Seq<Seq<usize>>, start: usize) -> Seq<usize> {
    run(g, Walk::new(start))
}

/// A node at or above `n` does not count among the unvisited below `n`.
proof fn lemma_visit_above(n: nat, visited: Seq<usize>, node: usize)
    requires
        n <= node,
    ensures
        unvisited(n, visited.push(node)) == unvisited(n, visited),
    decreases n,
{
    if n > 0 {
        lemma_visit_above((n - 1) as nat, visited, node);
        lemma_seen_push(visited, node, n - 1);
    }
}

/// What `visited` holds once `node` is added: `node`, and what it held.
proof fn lemma_seen_push(visited: Seq<usize>, node: usize, other: int)
    ensures
        seen(visited.push(node), other) <==> (seen(visited, other) || other == node),
{
    let more = visited.push(node);
    if seen(visited, other) {
        let i = choose|i: int| 0 <= i < visited.len() && #[trigger] visited[i] as int == other;
        assert(more[i] as int == other);
    }
    if other == node {
        assert(more[visited.len() as int] as int == other);
    }
    if seen(more, other) {
        let i = choose|i: int| 0 <= i < more.len() && #[trigger] more[i] as int == other;
        if i < visited.len() {
            assert(visited[i] as int == other);
        }
    }
}

/// Visiting a node below `n` for the first time leaves one node less unvisited.
pub proof fn lemma_visit_decreases(n: nat, visited: Seq<usize>, node: usize)
    requires
        node < n,
        !visited.contains(node),
    ensures
        unvisited(n, visited.push(node)) + 1 == unvisited(n, visited),
    decreases n,
{
    lemma_seen_push(visited, node, n - 1);
    if n - 1 == node {
        lemma_visit_above((n - 1) as nat, visited, node);
        if seen(visited, n - 1) {
            let i = choose|i: int| 0 <= i < visited.len() && #[trigger] visited[i] as int == n - 1;
            assert(visited[i] == node);
        }
    } else {
        lemma_visit_decreases((n - 1) as nat, visited, node);
    }
}

/// The first `limit` entries of `order`, or all of it where it has no more.
pub open spec fn first_of(order: Seq<usize>, limit: nat) -> Seq<usize> {
    if limit < order.len() {
        order.take(limit as int)
    } else {
        order
    }
}

/// A finite directed graph. Its nodes are the numbers below `node_count()`,
/// and every edge leads to one of them.
pub struct Graph {
    adjacency: Vec<Vec<usize>>,
}

impl View for Graph {
    type V = Seq<Seq<usize>>;

    closed spec fn view(&self) -> Seq<Seq<usize>> {
        views(self.adjacency@)
    }
}

impl Graph {
    #[verifier::type_invariant]
    spec fn inv(self) -> bool {
        in_range(self@)
    }

    /// The graph in which node `v` has an edge to each node of `adjacency[v]`,
    /// or `None` where one of these is not a node of the graph.
    pub fn new(adjacency: Vec<Vec<usize>>) -> (graph: Option<Graph>)
        ensures
            match graph {
                Some(graph) => graph@ == views(adjacency@) && in_range(graph@),
                None => !in_range(views(adjacency@)),
            },
    {
        let n: usize = adjacency.len();
        let mut v: usize = 0;
        while v < n
            invariant
                n == adjacency@.len(),
                v <= n,
                forall|a: int, j: int|
                    0 <= a < v && 0 <= j < adjacency@[a]@.len() ==> #[trigger] adjacency@[a]@[j]
                        < n,
            decreases n - v,
        {
            let row = &adjacency[v];
            let mut j: usize = 0;
            while j < row.len()
                invariant
                    n == adjacency@.len(),
                    v < n,
                    row@ == adjacency@[v as int]@,
                    j <= row@.len(),
                    forall|k: int| 0 <= k < j ==> #[trigger] row@[k] < n,
                decreases row.len() - j,
            {
                if row[j] >= n {
                    assert(views(adjacency@)[v as int][j as int] >= n);
                    return None;
                }
                j += 1;
            }
            v += 1;
        }
        let ghost g = views(adjacency@);
        assert forall|a: int, j: int|
            0 <= a < g.len() && 0 <= j < g[a].len() implies #[trigger] g[a][j] < g.len() by {
            assert(adjacency@[a]@[j] < n);
        }
        Some(Graph { adjacency })
    }

    /// The number of nodes.
    pub fn node_count(&self) -> (n: usize)
        ensures
            n == self@.len(),
    {
        self.adjacency.len()
    }

    /// The nodes that the edges of `node` lead to, in their order; none where
    /// `node` is not a node of the graph.
    pub fn neighbors(&self, node: usize) -> (nodes: Vec<usize>)
        ensures
            nodes@ == if node < self@.len() {
                self@[node as int]
            } else {
                Seq::empty()
            },
    {
        if node < self.adjacency.len() {
            self.adjacency[node].clone()
        } else {
            Vec::new()
        }
    }

    /// The nodes that can be reached from `start`, in breadth-first order:
    /// each of them once, no other node, and the nearer ones first. No node
    /// where `start` is not a node of the graph. The traversal ends also
    /// where edges lead back to nodes that were visited: each step visits a
    /// node that was not visited before, and the graph has no more than
    /// `node_count()` of them.
    pub fn traverse(&self, start: usize) -> (order: Vec<usize>)
        ensures
            start < self@.len() ==> order@ == bfs_order(self@, start),
            start >= self@.len() ==> order@.len() == 0,
            order@.no_duplicates(),
            forall|v: usize|
                order@.contains(v) <==> start < self@.len() && reachable(self@, start, v),
            nearest_first(self@, start, order@),
            order@.len() <= self@.len(),
    {
        if start >= self.adjacency.len() {
            return Vec::new();
        }
        proof {
            use_type_invariant(self);
            lemma_start_inv(self@, start);
            lemma_bfs_visits_reachable(self@, start);
            lemma_bfs_nearest_first(self@, start);
            lemma_bfs_is_bounded(self@, start);
        }
        let mut walk = Traversal::new(start);
        loop
            invariant_except_break
                walk_inv(self@, start, walk@),
            invariant
                in_range(self@),
                start < self@.len(),
                run(self@, walk@) == bfs_order(self@, start),
            ensures
                walk@.visited == bfs_order(self@, start),
            decreases unvisited(self@.len(), walk@.visited),
        {
            proof {
                lemma_settle_inv(self@, start, walk@);
                walk@.lemma_settle_twice();
            }
            match walk.next() {
                None => {
                    break ;
                },
                Some(node) => {
                    proof {
                        assert(known(walk@, node));
                        lemma_reachable_in_range(self@, start, node);
                        lemma_visit_decreases(self@.len(), walk@.visited, node);
                        lemma_expand_inv(self@, start, walk@, node);
                    }
                    let nodes = self.neighbors(node);
                    proof {
                        lemma_views_of_numbers(nodes@);
                    }
                    walk.expand(nodes);
                },
            }
        }
        let order = walk.into_visited();
        proof {
            lemma_views_of_numbers(order@);
        }
        order
    }

    /// The first `limit` nodes of the breadth-first order from `start`, or
    /// all of them where they are no more: the traversal is the same, and it
    /// stops when `limit` nodes were visited.
    pub fn traverse_first(&self, start: usize, limit: usize) -> (order: Vec<usize>)
        ensures
            start < self@.len() ==> order@ == first_of(bfs_order(self@, start), limit as nat),
            start >= self@.len() ==> order@.len() == 0,
    {
        if start >= self.adjacency.len() {
            return Vec::new();
        }
        proof {
            use_type_invariant(self);
            lemma_start_inv(self@, start);
        }
        let mut walk = Traversal::new(start);
        loop
            invariant_except_break
                walk@.visited.len() <= limit,
            invariant
                in_range(self@),
                start < self@.len(),
                walk_inv(self@, start, walk@),
                run(self@, walk@) == bfs_order(self@, start),
            ensures
                walk@.visited == first_of(bfs_order(self@, start), limit as nat),
            decreases unvisited(self@.len(), walk@.visited),
        {
            proof {
                lemma_run_extends(self@, walk@);
            }
            if walk.visited().len() >= limit {
                break ;
            }
            proof {
                lemma_settle_inv(self@, start, walk@);
                walk@.lemma_settle_twice();
            }
            match walk.next() {
                None => {
                    break ;
                },
                Some(node) => {
                    proof {
                        assert(known(walk@, node));
                        lemma_reachable_in_range(self@, start, node);
                        lemma_visit_decreases(self@.len(), walk@.visited, node);
                        lemma_expand_inv(self@, start, walk@, node);
                    }
                    let nodes = self.neighbors(node);
                    proof {
                        lemma_views_of_numbers(nodes@);
                    }
                    walk.expand(nodes);
                },
            }
        }
        let order = walk.into_visited();
        proof {
            lemma_views_of_numbers(order@);
        }
        order
    }
}

} // verus!
