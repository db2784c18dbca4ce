use crate::views::views;
use std::collections::VecDeque;
use vstd::prelude::*;

verus! {

/// A node of the graph that a traversal walks. Two values stand for the same
/// node exactly when their views are equal.
pub trait Vertex: View + Sized {
    /// Whether `self` and `other` are the same node.
    fn same(&self, other: &Self) -> (r: bool)
        ensures
            r == (self@ == other@),
    ;

    /// Another value for the same node.
    fn duplicate(&self) -> (r: Self)
        ensures
            r@ == self@,
    ;
}

impl Vertex for usize {
    fn same(&self, other: &Self) -> (r: bool) {
        *self == *other
    }

    fn duplicate(&self) -> (r: Self) {
        *self
    }
}

impl Vertex for String {
    fn same(&self, other: &Self) -> (r: bool) {
        *self == *other
    }

    fn duplicate(&self) -> (r: Self) {
        self.clone()
    }
}

/// What is left of `frontier` once its leading entries that occur in `visited`
/// are discarded.
pub open spec fn skip_visited<K>(frontier: Seq<K>, visited: Seq<K>) -> Seq<K>
    decreases frontier.len(),
{
    if frontier.len() > 0 && visited.contains(frontier[0]) {
        skip_visited(frontier.drop_first(), visited)
    } else {
        frontier
    }
}

/// What `skip_visited` leaves is the end of the frontier, everything in front
/// of it was visited, and its first entry, if it has one, was not.
pub proof fn lemma_skip_visited<K>(frontier: Seq<K>, visited: Seq<K>)
    ensures
        ({
            let rest = skip_visited(frontier, visited);
            let cut = frontier.len() - rest.len();
            &&& 0 <= cut
            &&& rest == frontier.skip(cut)
            &&& rest.len() > 0 ==> !visited.contains(rest[0])
            &&& forall|i: int| 0 <= i < cut ==> visited.contains(#[trigger] frontier[i])
        }),
    decreases frontier.len(),
{
    if frontier.len() > 0 && visited.contains(frontier[0]) {
        let tail = frontier.drop_first();
        lemma_skip_visited(tail, visited);
        let rest = skip_visited(tail, visited);
        let cut = tail.len() - rest.len();
        assert forall|i: int| 0 <= i < cut + 1 implies visited.contains(
            #[trigger] frontier[i],
        ) by {
            if i > 0 {
                assert(frontier[i] == tail[i - 1]);
            }
        }
    }
}

/// The state of a breadth-first walk over nodes of type `K`.
pub struct Walk<K> {
    /// The nodes that were discovered and wait for their turn, oldest first.
    pub frontier: Seq<K>,
    /// The nodes that were processed, in the order in which they were.
    pub visited: Seq<K>,
    /// The node that is being processed, if one is.
    pub current: Option<K>,
}

impl<K> Walk<K> {
    /// The walk that has discovered `seed` and nothing else.
    pub open spec fn new(seed: K) -> Walk<K> {
        Walk { frontier: seq![seed], visited: Seq::empty(), current: None }
    }

    /// No node was processed twice, and the node in hand was not processed yet.
    pub open spec fn wf(self) -> bool {
        &&& self.visited.no_duplicates()
        &&& self.current matches Some(node) ==> !self.visited.contains(node)
    }

    /// The walk once it has a node in hand, where one can be had: the oldest
    /// frontier entry that was not processed yet is taken from the frontier,
    /// together with the processed entries in front of it.
    pub open spec fn settle(self) -> Walk<K> {
        if self.current is Some {
            self
        } else {
            let rest = skip_visited(self.frontier, self.visited);
            if rest.len() == 0 {
                Walk { frontier: rest, visited: self.visited, current: None }
            } else {
                Walk { frontier: rest.drop_first(), visited: self.visited, current: Some(rest[0]) }
            }
        }
    }

    /// The walk once the node in hand is processed and `neighbors` are the
    /// nodes that it leads to: those that were not processed before join
    /// the frontier in their order, then the node counts as processed.
    pub open spec fn expand(self, neighbors: Seq<K>) -> Walk<K> {
        match self.current {
            Some(node) => Walk {
                frontier: self.frontier + neighbors.filter(|k: K| !self.visited.contains(k)),
                visited: self.visited.push(node),
                current: None,
            },
            None => self,
        }
    }

    /// Whether nothing is in hand and nothing is left to take.
    pub open spec fn finished(self) -> bool {
        self.settle().current is None
    }

    /// A walk that starts has processed nothing.
    pub proof fn lemma_new_wf(seed: K)
        ensures
            Walk::new(seed).wf(),
    {
    }

    /// Taking a node in hand keeps the walk well formed.
    pub proof fn lemma_settle_wf(self)
        requires
            self.wf(),
        ensures
            self.settle().wf(),
    {
        lemma_skip_visited(self.frontier, self.visited);
    }

    /// A walk that has a node in hand, or can have none, stays as it is when
    /// it is asked for one again.
    pub proof fn lemma_settle_twice(self)
        ensures
            self.settle().settle() == self.settle(),
    {
    }

    /// Processing the node in hand keeps the walk well formed.
    pub proof fn lemma_expand_wf(self, neighbors: Seq<K>)
        requires
            self.wf(),
        ensures
            self.expand(neighbors).wf(),
    {
    }
}

/// A breadth-first walk: a first-in-first-out frontier of discovered nodes,
/// the list of the processed ones, and the node in hand. A node may wait in
/// the frontier more than once; it is processed the first time it is taken.
pub struct Traversal<V: Vertex> {
    frontier: VecDeque<V>,
    visited: Vec<V>,
    current: Option<V>,
}

impl<V: Vertex> View for Traversal<V> {
    type V = Walk<V::V>;

    closed spec fn view(&self) -> Walk<V::V> {
        Walk {
            frontier: views(self.frontier@),
            visited: views(self.visited@),
            current: match self.current {
                Some(node) => Some(node@),
                None => None,
            },
        }
    }
}

impl<V: Vertex> Traversal<V> {
    /// A walk that starts at `seed`.
    pub fn new(seed: V) -> (walk: Self)
        ensures
            walk@ == Walk::new(seed@),
    {
        let mut frontier: VecDeque<V> = VecDeque::new();
        frontier.push_back(seed);
        let walk = Traversal { frontier, visited: Vec::new(), current: None };
        assert(walk@.frontier =~= seq![seed@]);
        assert(walk@.visited =~= Seq::empty());
        walk
    }

    /// Whether `node` was processed.
    pub fn has_visited(&self, node: &V) -> (r: bool)
        ensures
            r == self@.visited.contains(node@),
    {
        let mut i: usize = 0;
        while i < self.visited.len()
            invariant
                i <= self.visited.len(),
                forall|k: int| 0 <= k < i ==> self.visited@[k]@ != node@,
            decreases self.visited.len() - i,
        {
            if self.visited[i].same(node) {
                assert(views(self.visited@)[i as int] == node@);
                return true;
            }
            i += 1;
        }
        assert forall|k: int| 0 <= k < views(self.visited@).len() implies views(self.visited@)[k]
            != node@ by {}
        false
    }

    /// The node to process now, if one is left: the node in hand, or else the
    /// oldest frontier entry that was not processed yet, which is taken in
    /// hand. Until `expand` is called the same node is returned again.
    pub fn next(&mut self) -> (node: Option<V>)
        ensures
            final(self)@ == old(self)@.settle(),
            match node {
                Some(n) => final(self)@.current == Some(n@),
                None => final(self)@.current is None,
            },
            old(self)@.wf() ==> final(self)@.wf(),
    {
        if self.current.is_none() {
            loop
                invariant_except_break
                    self.current is None,
                    old(self)@.current is None,
                    views(self.visited@) == old(self)@.visited,
                    skip_visited(views(self.frontier@), views(self.visited@)) == skip_visited(
                        old(self)@.frontier,
                        old(self)@.visited,
                    ),
                ensures
                    self@ == old(self)@.settle(),
                decreases self.frontier@.len(),
            {
                let ghost before = views(self.frontier@);
                match self.frontier.pop_front() {
                    None => {
                        break ;
                    },
                    Some(node) => {
                        assert(views(self.frontier@) =~= before.drop_first());
                        if !self.has_visited(&node) {
                            self.current = Some(node);
                            break ;
                        }
                    },
                }
            }
        }
        proof {
            if old(self)@.wf() {
                old(self)@.lemma_settle_wf();
            }
        }
        match &self.current {
            Some(node) => Some(node.duplicate()),
            None => None,
        }
    }

    /// Ends the processing of the node in hand: of `neighbors`, the nodes that
    /// it leads to, those not processed before join the frontier in their
    /// order, and the node counts as processed. Returns whether a node was in
    /// hand; where none was, nothing changes.
    pub fn expand(&mut self, neighbors: Vec<V>) -> (expanded: bool)
        ensures
            final(self)@ == old(self)@.expand(views(neighbors@)),
            expanded == (old(self)@.current is Some),
            old(self)@.wf() ==> final(self)@.wf(),
    {
        match self.current.take() {
            None => false,
            Some(node) => {
                let ghost fresh = |k: V::V| !old(self)@.visited.contains(k);
                let mut i: usize = 0;
                while i < neighbors.len()
                    invariant
                        i <= neighbors.len(),
                        self.current is None,
                        views(self.visited@) == old(self)@.visited,
                        fresh == (|k: V::V| !old(self)@.visited.contains(k)),
                        views(self.frontier@) == old(self)@.frontier + views(neighbors@).take(
                            i as int,
                        ).filter(fresh),
                    decreases neighbors.len() - i,
                {
                    proof {
                        let seen = views(neighbors@).take(i as int);
                        assert(views(neighbors@).take(i + 1) =~= seen.push(neighbors@[i as int]@));
                        seen.lemma_filter_push(neighbors@[i as int]@, fresh);
                    }
                    if !self.has_visited(&neighbors[i]) {
                        let ghost before = self.frontier@;
                        self.frontier.push_back(neighbors[i].duplicate());
                        assert(views(self.frontier@) =~= views(before).push(neighbors@[i as int]@));
                    }
                    i += 1;
                }
                assert(views(neighbors@).take(neighbors@.len() as int) =~= views(neighbors@));
                let ghost before = self.visited@;
                self.visited.push(node);
                assert(views(self.visited@) =~= views(before).push(node@));
                true
            },
        }
    }

    /// The node in hand, if one is.
    pub fn current(&self) -> (node: Option<&V>)
        ensures
            match node {
                Some(node) => self@.current == Some(node@),
                None => self@.current is None,
            },
    {
        self.current.as_ref()
    }

    /// Whether nothing is in hand and nothing is left to take.
    pub fn is_finished(&self) -> (b: bool)
        ensures
            b == self@.finished(),
    {
        if self.current.is_some() {
            return false;
        }
        let mut i: usize = 0;
        assert(self@.frontier.skip(0) =~= self@.frontier);
        while i < self.frontier.len()
            invariant
                i <= self.frontier@.len(),
                self.current is None,
                skip_visited(self@.frontier, self@.visited) == skip_visited(
                    self@.frontier.skip(i as int),
                    self@.visited,
                ),
            decreases self.frontier@.len() - i,
        {
            let ghost rest = self@.frontier.skip(i as int);
            assert(rest.drop_first() =~= self@.frontier.skip(i + 1));
            if !self.has_visited(&self.frontier[i]) {
                return false;
            }
            i += 1;
        }
        true
    }

    /// The nodes that were processed, in the order in which they were.
    pub fn visited(&self) -> (nodes: &Vec<V>)
        ensures
            views(nodes@) == self@.visited,
    {
        &self.visited
    }

    /// Ends the walk and hands out the nodes that were processed, in order.
    pub fn into_visited(self) -> (nodes: Vec<V>)
        ensures
            views(nodes@) == self@.visited,
    {
        self.visited
    }
}

} // verus!
