use crate::graph::{bfs_order, edge, in_range, is_path, lemma_visit_decreases, run, unvisited};
use crate::reach::{
    known, lemma_expand_inv, lemma_reachable_in_range, lemma_settle_inv, lemma_start_inv,
    walk_inv,
};
use crate::traversal::{lemma_skip_visited, skip_visited, Walk};
use vstd::prelude::*;

verus! {

/// Whether `to` can be reached from `from` over at most `steps` edges of `g`.
pub open spec fn within(g: Seq<Seq<usize>>, from: usize, to: usize, steps: nat) -> bool {
    exists|path: Seq<usize>|
        is_path(g, path) && path.first() == from && path.last() == to && path.len() <= steps + 1
}

/// Whether `one` is at most as far from `from` as `other`: over as many
/// edges as lead to `other`, `one` can be reached too.
pub open spec fn no_farther(g: Seq<Seq<usize>>, from: usize, one: usize, other: usize) -> bool {
    forall|steps: nat| #[trigger] within(g, from, other, steps) ==> within(g, from, one, steps)
}

/// Whether the nodes of `order` come by their distance from `from`, the
/// nearest first.
pub open spec fn nearest_first(g: Seq<Seq<usize>>, from: usize, order: Seq<usize>) -> bool {
    forall|i: int, j: int|
        0 <= i <= j < order.len() ==> no_farther(g, from, #[trigger] order[i], #[trigger] order[j])
}

/// What can be reached over some edges can be reached over more.
pub proof fn lemma_within_more(g: Seq<Seq<usize>>, from: usize, to: usize, steps: nat, more: nat)
    requires
        within(g, from, to, steps),
        steps <= more,
    ensures
        within(g, from, to, more),
{
    let path = choose|path: Seq<usize>|
        is_path(g, path) && path.first() == from && path.last() == to && path.len() <= steps + 1;
    assert(is_path(g, path) && path.first() == from && path.last() == to && path.len() <= more
        + 1);
}

/// Over no edge, a node reaches itself and nothing else.
pub proof fn lemma_within_none(g: Seq<Seq<usize>>, from: usize, to: usize)
    ensures
        within(g, from, to, 0) <==> to == from,
{
    if to == from {
        let path = seq![from];
        assert(is_path(g, path) && path.first() == from && path.last() == to && path.len() <= 1);
    }
}

/// What can be reached over some edges leads over one edge more to the
/// nodes that its own edges lead to.
pub proof fn lemma_within_step(g: Seq<Seq<usize>>, from: usize, via: usize, to: usize, steps: nat)
    requires
        within(g, from, via, steps),
        edge(g, via, to),
    ensures
        within(g, from, to, steps + 1),
{
    let path = choose|path: Seq<usize>|
        is_path(g, path) && path.first() == from && path.last() == via && path.len() <= steps + 1;
    let longer = path.push(to);
    assert forall|i: int, j: int| 0 <= i && j == i + 1 && j < longer.len() implies edge(
        g,
        #[trigger] longer[i],
        #[trigger] longer[j],
    ) by {
        if j < path.len() {
            assert(edge(g, path[i], path[j]));
        }
    }
    assert(is_path(g, longer) && longer.first() == from && longer.last() == to && longer.len()
        <= steps + 2);
}

/// A node that can be reached over some edges, and over no fewer, is led to
/// by a node that can be reached over one edge less.
pub proof fn lemma_within_last_step(g: Seq<Seq<usize>>, from: usize, to: usize, steps: nat) -> (via:
    usize)
    requires
        within(g, from, to, steps + 1),
        !within(g, from, to, steps),
    ensures
        within(g, from, via, steps),
        edge(g, via, to),
{
    let path = choose|path: Seq<usize>|
        is_path(g, path) && path.first() == from && path.last() == to && path.len() <= steps + 2;
    assert(path.len() == steps + 2);
    let shorter = path.drop_last();
    let via = shorter.last();
    assert forall|i: int, j: int| 0 <= i && j == i + 1 && j < shorter.len() implies edge(
        g,
        #[trigger] shorter[i],
        #[trigger] shorter[j],
    ) by {
        assert(edge(g, path[i], path[j]));
    }
    assert(is_path(g, shorter) && shorter.first() == from && shorter.last() == via
        && shorter.len() <= steps + 1);
    assert(edge(g, path[path.len() - 2], path[path.len() - 1]));
    via
}

/// Whether `node` waits among the first `split` entries of `frontier`.
pub open spec fn in_front(frontier: Seq<usize>, split: int, node: usize) -> bool {
    exists|i: int| 0 <= i < split && i < frontier.len() && #[trigger] frontier[i] == node
}

/// Whether `node` was processed, is in hand, or waits among the first `split`
/// entries of the frontier.
pub open spec fn met_early(walk: Walk<usize>, split: int, node: usize) -> bool {
    walk.visited.contains(node) || walk.current == Some(node) || in_front(
        walk.frontier,
        split,
        node,
    )
}

/// What holds at every step of a breadth-first walk over `g` from `start`,
/// for the number `level` of edges over which the node in hand, or the one
/// processed last, is reached: the processed nodes come nearest first and
/// are reached over at most `level` edges; the first `split` frontier
/// entries too, and the others over at most one edge more; every node that
/// is reached over at most `level` edges was processed, is in hand or waits
/// among the first `split` entries; and every node that is reached over
/// fewer edges was processed.
pub open spec fn level_inv(
    g: Seq<Seq<usize>>,
    start: usize,
    walk: Walk<usize>,
    level: nat,
    split: int,
) -> bool {
    &&& walk_inv(g, start, walk)
    &&& 0 <= split <= walk.frontier.len()
    &&& nearest_first(g, start, walk.visited)
    &&& forall|i: int|
        0 <= i < walk.visited.len() ==> within(g, start, #[trigger] walk.visited[i], level)
    &&& walk.current matches Some(node) ==> within(g, start, node, level)
    &&& forall|i: int| 0 <= i < split ==> within(g, start, #[trigger] walk.frontier[i], level)
    &&& forall|i: int|
        split <= i < walk.frontier.len() ==> within(
            g,
            start,
            #[trigger] walk.frontier[i],
            level + 1,
        )
    &&& forall|node: usize| #[trigger]
        within(g, start, node, level) ==> met_early(walk, split, node)
    &&& level >= 1 ==> forall|node: usize| #[trigger]
        within(g, start, node, (level - 1) as nat) ==> walk.visited.contains(node)
}

/// A walk that starts meets what holds at every step, for no edge and with
/// its one frontier entry in front.
proof fn lemma_start_levels(g: Seq<Seq<usize>>, start: usize)
    ensures
        level_inv(g, start, Walk::new(start), 0, 1),
{
    let walk = Walk::new(start);
    lemma_start_inv(g, start);
    lemma_within_none(g, start, start);
    assert(walk.frontier[0] == start);
    assert forall|node: usize| #[trigger] within(g, start, node, 0) implies met_early(
        walk,
        1,
        node,
    ) by {
        lemma_within_none(g, start, node);
        assert(walk.frontier[0] == node);
    }
}

/// Taking a node in hand keeps what holds at every step, for the same
/// number of edges where the node waited in front, and for one more where
/// every entry in front was processed already.
proof fn lemma_settle_levels(
    g: Seq<Seq<usize>>,
    start: usize,
    walk: Walk<usize>,
    level: nat,
    split: int,
) -> (next: (nat, int))
    requires
        level_inv(g, start, walk, level, split),
    ensures
        level_inv(g, start, walk.settle(), next.0, next.1),
{
    let ready = walk.settle();
    lemma_settle_inv(g, start, walk);
    if walk.current is Some {
        return (level, split);
    }
    let frontier = walk.frontier;
    let visited = walk.visited;
    lemma_skip_visited(frontier, visited);
    let rest = skip_visited(frontier, visited);
    let cut = frontier.len() - rest.len();
    if rest.len() == 0 {
        assert forall|node: usize| #[trigger]
            within(g, start, node, level) implies met_early(ready, 0, node) by {
            if in_front(frontier, split, node) {
                let i = choose|i: int|
                    0 <= i < split && i < frontier.len() && #[trigger] frontier[i] == node;
                assert(visited.contains(frontier[i]));
            }
        }
        return (level, 0);
    }
    let taken = rest[0];
    assert(taken == frontier[cut]);
    assert forall|i: int| 0 <= i < ready.frontier.len() implies ready.frontier[i] == frontier[cut
        + 1 + i] by {}
    if cut < split {
        let left = split - cut - 1;
        assert forall|node: usize| #[trigger]
            within(g, start, node, level) implies met_early(ready, left, node) by {
            if in_front(frontier, split, node) {
                let i = choose|i: int|
                    0 <= i < split && i < frontier.len() && #[trigger] frontier[i] == node;
                if i < cut {
                    assert(visited.contains(frontier[i]));
                } else if i > cut {
                    assert(ready.frontier[i - cut - 1] == node);
                }
            }
        }
        assert forall|i: int| 0 <= i < left implies within(
            g,
            start,
            #[trigger] ready.frontier[i],
            level,
        ) by {
            assert(within(g, start, frontier[cut + 1 + i], level));
        }
        assert forall|i: int| left <= i < ready.frontier.len() implies within(
            g,
            start,
            #[trigger] ready.frontier[i],
            level + 1,
        ) by {
            assert(within(g, start, frontier[cut + 1 + i], level + 1));
        }
        (level, left)
    } else {
        let left = ready.frontier.len() as int;
        assert forall|node: usize| #[trigger]
            within(g, start, node, level) implies visited.contains(node) by {
            if in_front(frontier, split, node) {
                let i = choose|i: int|
                    0 <= i < split && i < frontier.len() && #[trigger] frontier[i] == node;
                assert(visited.contains(frontier[i]));
            }
        }
        assert forall|node: usize| #[trigger]
            within(g, start, node, level + 1) implies met_early(ready, left, node) by {
            if within(g, start, node, level) {
                assert(visited.contains(node));
            } else {
                let via = lemma_within_last_step(g, start, node, level);
                assert(visited.contains(via));
                assert(edge(g, via, node));
                assert(known(walk, node));
                if frontier.contains(node) {
                    let i = choose|i: int| 0 <= i < frontier.len() && frontier[i] == node;
                    if i < cut {
                        assert(visited.contains(frontier[i]));
                    } else if i > cut {
                        assert(ready.frontier[i - cut - 1] == node);
                    }
                }
            }
        }
        assert forall|i: int| 0 <= i < visited.len() implies within(
            g,
            start,
            #[trigger] visited[i],
            level + 1,
        ) by {
            lemma_within_more(g, start, visited[i], level, level + 1);
        }
        assert(within(g, start, frontier[cut], level + 1));
        assert forall|i: int| 0 <= i < left implies within(
            g,
            start,
            #[trigger] ready.frontier[i],
            level + 1,
        ) by {
            assert(within(g, start, frontier[cut + 1 + i], level + 1));
        }
        (level + 1, left)
    }
}

/// Expanding the node in hand by its edges keeps what holds at every step.
proof fn lemma_expand_levels(
    g: Seq<Seq<usize>>,
    start: usize,
    walk: Walk<usize>,
    node: usize,
    level: nat,
    split: int,
)
    requires
        level_inv(g, start, walk, level, split),
        walk.current == Some(node),
        node < g.len(),
    ensures
        level_inv(g, start, walk.expand(g[node as int]), level, split),
{
    let row = g[node as int];
    let fresh = |k: usize| !walk.visited.contains(k);
    let added = row.filter(fresh);
    let next = walk.expand(row);
    lemma_expand_inv(g, start, walk, node);
    assert(next.frontier == walk.frontier + added);
    assert(next.visited == walk.visited.push(node));
    // The node in hand is reached over `level` edges and no fewer.
    assert forall|steps: nat| #[trigger] within(g, start, node, steps) implies level <= steps by {
        if steps < level {
            lemma_within_more(g, start, node, steps, (level - 1) as nat);
        }
    }
    assert forall|i: int, j: int| 0 <= i <= j < next.visited.len() implies no_farther(
        g,
        start,
        #[trigger] next.visited[i],
        #[trigger] next.visited[j],
    ) by {
        if j < walk.visited.len() {
            assert(no_farther(g, start, walk.visited[i], walk.visited[j]));
        } else if i < walk.visited.len() {
            assert forall|steps: nat| #[trigger]
                within(g, start, node, steps) implies within(g, start, walk.visited[i], steps) by {
                lemma_within_more(g, start, walk.visited[i], level, steps);
            }
        }
    }
    assert forall|i: int| 0 <= i < next.visited.len() implies within(
        g,
        start,
        #[trigger] next.visited[i],
        level,
    ) by {
        if i < walk.visited.len() {
            assert(within(g, start, walk.visited[i], level));
        }
    }
    assert forall|i: int| 0 <= i < split implies within(
        g,
        start,
        #[trigger] next.frontier[i],
        level,
    ) by {
        assert(within(g, start, walk.frontier[i], level));
    }
    assert forall|i: int| split <= i < next.frontier.len() implies within(
        g,
        start,
        #[trigger] next.frontier[i],
        level + 1,
    ) by {
        if i < walk.frontier.len() {
            assert(within(g, start, walk.frontier[i], level + 1));
        } else {
            let to = added[i - walk.frontier.len()];
            assert(added.contains(to));
            row.lemma_filter_contains_rev(fresh, to);
            lemma_within_step(g, start, node, to, level);
        }
    }
    assert forall|other: usize| #[trigger]
        within(g, start, other, level) implies met_early(next, split, other) by {
        if walk.visited.contains(other) {
            let i = choose|i: int| 0 <= i < walk.visited.len() && walk.visited[i] == other;
            assert(next.visited[i] == other);
        } else if other == node {
            assert(next.visited[walk.visited.len() as int] == other);
        } else {
            let i = choose|i: int|
                0 <= i < split && i < walk.frontier.len() && #[trigger] walk.frontier[i] == other;
            assert(next.frontier[i] == other);
        }
    }
    if level >= 1 {
        assert forall|other: usize| #[trigger]
            within(g, start, other, (level - 1) as nat) implies next.visited.contains(other) by {
            let i = choose|i: int| 0 <= i < walk.visited.len() && walk.visited[i] == other;
            assert(next.visited[i] == other);
        }
    }
}

/// A walk over `g` that started at `start` ends with the processed nodes in
/// the order of their distance from `start`.
proof fn lemma_run_levels(
    g: Seq<Seq<usize>>,
    start: usize,
    walk: Walk<usize>,
    level: nat,
    split: int,
)
    requires
        in_range(g),
        start < g.len(),
        level_inv(g, start, walk, level, split),
    ensures
        nearest_first(g, start, run(g, walk)),
    decreases unvisited(g.len(), walk.visited),
{
    let ready = walk.settle();
    let (next_level, next_split) = lemma_settle_levels(g, start, walk, level, split);
    match ready.current {
        Some(node) => {
            assert(known(ready, node));
            lemma_reachable_in_range(g, start, node);
            lemma_visit_decreases(g.len(), ready.visited, node);
            lemma_expand_levels(g, start, ready, node, next_level, next_split);
            lemma_run_levels(g, start, ready.expand(g[node as int]), next_level, next_split);
        },
        None => {},
    }
}

/// A breadth-first traversal visits the nodes in the order of their distance
/// from the start node: a node that is reached over fewer edges comes before
/// every node that needs more.
pub proof fn lemma_bfs_nearest_first(g: Seq<Seq<usize>>, start: usize)
    requires
        in_range(g),
        start < g.len(),
    ensures
        nearest_first(g, start, bfs_order(g, start)),
{
    lemma_start_levels(g, start);
    lemma_run_levels(g, start, Walk::new(start), 0, 1);
}

} // verus!
