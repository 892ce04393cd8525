use vstd::prelude::*;
use crate::arena::{ArenaVex, ROOM, after_push, walk_order};

verus! {

/// Handle of a node of a `Graph`: the node's place in the graph's store.
/// Two handles are equal exactly when they name the same node, whatever the
/// nodes hold.
#[derive(Clone, Copy, PartialEq, Eq, Structural, Debug)]
pub struct NodeRef(pub usize);

/// Values that carry a number naming them among the values of their type.
pub trait Id {
    /// The number that names this value.
    spec fn id_of(&self) -> usize;

    fn id(&self) -> (r: usize)
        ensures
            r == self.id_of(),
    ;
}

impl Id for NodeRef {
    /// A node's number is its place in the graph's store.
    open spec fn id_of(&self) -> usize {
        self.0
    }

    fn id(&self) -> (r: usize) {
        self.0
    }
}

/// Capacity of the newest chunk after one push onto chunks `cs` whose
/// newest chunk has capacity `cap`.
pub open spec fn next_cap<T>(cs: Seq<Seq<T>>, cap: nat) -> nat {
    if cs.last().len() == cap {
        2 * cap
    } else {
        cap
    }
}

/// A node: its payload and its outgoing edges.
pub struct Node<T> {
    children: ArenaVex<NodeRef>,
    data: T,
}

impl<T> Node<T> {
    /// The outgoing edges' targets, chunk by chunk, oldest chunk first.
    pub closed spec fn child_chunks(&self) -> Seq<Seq<NodeRef>> {
        self.children@
    }

    /// Capacity of the newest chunk of edges.
    pub closed spec fn child_cap(&self) -> nat {
        self.children.capacity()
    }

    /// The node's payload.
    pub closed spec fn payload(&self) -> T {
        self.data
    }

    pub closed spec fn wf(&self) -> bool {
        self.children.wf() && self.children.first_capacity() == 8
    }

    /// A node with payload `t` and no edges.
    pub fn new(t: T) -> (r: Node<T>)
        ensures
            r.wf(),
            r.payload() == t,
            r.child_chunks() == seq![Seq::<NodeRef>::empty()],
            r.child_cap() == 8,
            walk_order(r.child_chunks()) == Seq::<NodeRef>::empty(),
    {
        let r = Node { children: ArenaVex::new(), data: t };
        r
    }

    /// The targets of the node's edges, newest chunk of edges first.
    pub fn children(&self) -> (r: Vec<NodeRef>)
        ensures
            r@ == walk_order(self.child_chunks()),
    {
        self.children.values()
    }

    /// Adds an edge to `child`.
    pub fn add_child(&mut self, child: NodeRef)
        requires
            old(self).wf(),
            walk_order(old(self).child_chunks()).len() < ROOM,
        ensures
            final(self).wf(),
            final(self).payload() == old(self).payload(),
            final(self).child_chunks() == after_push(old(self).child_chunks(), old(self).child_cap(), child),
            final(self).child_cap() == next_cap(old(self).child_chunks(), old(self).child_cap()),
            walk_order(final(self).child_chunks()).len() == walk_order(
                old(self).child_chunks(),
            ).len() + 1,
            forall|x: NodeRef|
                walk_order(final(self).child_chunks()).contains(x) <==> (walk_order(
                    old(self).child_chunks(),
                ).contains(x) || x == child),
    {
        proof { self.children.lemma_roomy_can_push() };
        self.children.push(child);
    }
}

/// A directed graph whose nodes never move and are never freed while the
/// graph lives. Nodes are allocated in a store; the graph's index lists the
/// nodes that were published into it.
pub struct Graph<T> {
    /// every node allocated, in allocation order
    store: Vec<Node<T>>,
    /// the nodes of this graph
    nodes: ArenaVex<NodeRef>,
}

impl<T> Graph<T> {
    /// Number of nodes allocated.
    pub closed spec fn node_count(&self) -> nat {
        self.store@.len()
    }

    pub open spec fn has(&self, n: NodeRef) -> bool {
        n.0 < self.node_count()
    }

    /// Payload of node `n`.
    pub closed spec fn data_of(&self, n: NodeRef) -> T {
        self.store@[n.0 as int].data
    }

    /// The edges of node `n`, chunk by chunk, oldest chunk first.
    pub closed spec fn child_chunks_of(&self, n: NodeRef) -> Seq<Seq<NodeRef>> {
        self.store@[n.0 as int].child_chunks()
    }

    /// Capacity of the newest chunk of edges of node `n`.
    pub closed spec fn child_cap_of(&self, n: NodeRef) -> nat {
        self.store@[n.0 as int].child_cap()
    }

    /// Targets of the edges of node `n`, newest chunk first.
    pub open spec fn children_of(&self, n: NodeRef) -> Seq<NodeRef> {
        walk_order(self.child_chunks_of(n))
    }

    /// The index, chunk by chunk, oldest chunk first.
    pub closed spec fn index_chunks(&self) -> Seq<Seq<NodeRef>> {
        self.nodes@
    }

    /// Capacity of the newest chunk of the index.
    pub closed spec fn index_cap(&self) -> nat {
        self.nodes.capacity()
    }

    /// The published nodes, in the index's walking order.
    pub open spec fn index(&self) -> Seq<NodeRef> {
        walk_order(self.index_chunks())
    }

    pub closed spec fn wf(&self) -> bool {
        &&& self.nodes.wf()
        &&& self.nodes.first_capacity() == 8
        &&& forall|i: int| 0 <= i < self.store@.len() ==> #[trigger] self.store@[i].wf()
        &&& forall|i: int, x: NodeRef|
            0 <= i < self.store@.len() && #[trigger] walk_order(
                self.store@[i].child_chunks(),
            ).contains(x) ==> x.0 < self.store@.len()
        &&& forall|x: NodeRef| #[trigger] self.index().contains(x) ==> x.0 < self.store@.len()
    }

    /// All the facts that a well-formed graph offers its users.
    pub proof fn lemma_wf(&self)
        requires
            self.wf(),
        ensures
            forall|n: NodeRef, x: NodeRef|
                self.has(n) && #[trigger] self.children_of(n).contains(x) ==> self.has(x),
            forall|x: NodeRef| #[trigger] self.index().contains(x) ==> self.has(x),
            forall|n: NodeRef| self.has(n) ==> #[trigger] self.child_chunks_of(n).len() >= 1,
    {
        assert forall|n: NodeRef| self.has(n) implies #[trigger] self.child_chunks_of(n).len() >= 1 by {
            assert(self.store@[n.0 as int].wf());
        }
        assert forall|n: NodeRef, x: NodeRef|
            self.has(n) && #[trigger] self.children_of(n).contains(x) implies self.has(x) by {
            assert(walk_order(self.store@[n.0 as int].child_chunks()).contains(x));
        }
    }

    /// An empty graph.
    pub fn new() -> (g: Graph<T>)
        ensures
            g.wf(),
            g.node_count() == 0,
            g.index() == Seq::<NodeRef>::empty(),
            g.index_chunks() == seq![Seq::<NodeRef>::empty()],
            g.index_cap() == 8,
    {
        let g = Graph { store: Vec::new(), nodes: ArenaVex::new() };
        g
    }

    /// The published nodes, newest chunk of the index first.
    pub fn nodes(&self) -> (r: Vec<NodeRef>)
        ensures
            r@ == self.index(),
    {
        self.nodes.values()
    }

    /// Payload of node `n`.
    pub fn data(&self, n: NodeRef) -> (r: &T)
        requires
            self.has(n),
        ensures
            *r == self.data_of(n),
    {
        &self.store[n.0].data
    }

    /// Targets of the edges of node `n`, newest chunk of edges first.
    pub fn children(&self, n: NodeRef) -> (r: Vec<NodeRef>)
        requires
            self.has(n),
        ensures
            r@ == self.children_of(n),
    {
        self.store[n.0].children()
    }

    /// Allocates a node with payload `t` and no edges, without publishing
    /// it in the index: see `include_node`.
    pub fn make_node(&mut self, t: T) -> (r: NodeRef)
        requires
            old(self).wf(),
            old(self).node_count() < ROOM,
        ensures
            final(self).wf(),
            r.0 == old(self).node_count(),
            final(self).node_count() == old(self).node_count() + 1,
            final(self).data_of(r) == t,
            final(self).children_of(r) == Seq::<NodeRef>::empty(),
            final(self).child_chunks_of(r) == seq![Seq::<NodeRef>::empty()],
            final(self).child_cap_of(r) == 8,
            final(self).index_chunks() == old(self).index_chunks(),
            final(self).index_cap() == old(self).index_cap(),
            forall|n: NodeRef|
                old(self).has(n) ==> #[trigger] final(self).data_of(n) == old(self).data_of(n)
                    && final(self).child_chunks_of(n) == old(self).child_chunks_of(n)
                    && final(self).child_cap_of(n) == old(self).child_cap_of(n),
    {
        let r = NodeRef(self.store.len());
        let node = Node::new(t);
        self.store.push(node);
        assert forall|i: int| 0 <= i < self.store@.len() implies #[trigger] self.store@[i].wf() by {
            if i < r.0 {
                assert(self.store@[i] == old(self).store@[i]);
            }
        }
        assert forall|i: int, x: NodeRef|
            0 <= i < self.store@.len() && #[trigger] walk_order(
                self.store@[i].child_chunks(),
            ).contains(x) implies x.0 < self.store@.len() by {
            if i == r.0 {
                assert(walk_order(self.store@[i].child_chunks()) == Seq::<NodeRef>::empty());
            } else {
                assert(walk_order(old(self).store@[i].child_chunks()).contains(x));
            }
        }
        assert forall|x: NodeRef| #[trigger] self.index().contains(x) implies x.0 < self.store@.len() by {
            assert(old(self).index().contains(x));
        }
        r
    }

    /// Publishes node `r` in the index.
    pub fn include_node(&mut self, r: NodeRef)
        requires
            old(self).wf(),
            old(self).has(r),
            old(self).index().len() < ROOM,
        ensures
            final(self).wf(),
            final(self).node_count() == old(self).node_count(),
            final(self).index().len() == old(self).index().len() + 1,
            final(self).index_chunks() == after_push(old(self).index_chunks(), old(self).index_cap(), r),
            final(self).index_cap() == next_cap(old(self).index_chunks(), old(self).index_cap()),
            forall|x: NodeRef|
                final(self).index().contains(x) <==> (old(self).index().contains(x) || x == r),
            forall|n: NodeRef|
                old(self).has(n) ==> #[trigger] final(self).data_of(n) == old(self).data_of(n)
                    && final(self).child_chunks_of(n) == old(self).child_chunks_of(n)
                    && final(self).child_cap_of(n) == old(self).child_cap_of(n),
    {
        proof { self.nodes.lemma_roomy_can_push() };
        self.nodes.push(r);
    }

    /// Allocates a node with payload `t` and no edges and publishes it.
    pub fn add_node(&mut self, t: T) -> (r: NodeRef)
        requires
            old(self).wf(),
            old(self).node_count() < ROOM,
            old(self).index().len() < ROOM,
        ensures
            final(self).wf(),
            r.0 == old(self).node_count(),
            final(self).node_count() == old(self).node_count() + 1,
            final(self).data_of(r) == t,
            final(self).children_of(r) == Seq::<NodeRef>::empty(),
            final(self).index().len() == old(self).index().len() + 1,
            final(self).child_chunks_of(r) == seq![Seq::<NodeRef>::empty()],
            final(self).child_cap_of(r) == 8,
            final(self).index_chunks() == after_push(old(self).index_chunks(), old(self).index_cap(), r),
            final(self).index_cap() == next_cap(old(self).index_chunks(), old(self).index_cap()),
            forall|x: NodeRef|
                final(self).index().contains(x) <==> (old(self).index().contains(x) || x == r),
            forall|n: NodeRef|
                old(self).has(n) ==> #[trigger] final(self).data_of(n) == old(self).data_of(n)
                    && final(self).child_chunks_of(n) == old(self).child_chunks_of(n)
                    && final(self).child_cap_of(n) == old(self).child_cap_of(n),
    {
        let r = self.make_node(t);
        let ghost mid = *self;
        self.include_node(r);
        assert(self.data_of(r) == mid.data_of(r));
        r
    }

    /// Adds an edge from `n` to `child`.
    pub fn add_child(&mut self, n: NodeRef, child: NodeRef)
        requires
            old(self).wf(),
            old(self).has(n),
            old(self).has(child),
            old(self).children_of(n).len() < ROOM,
        ensures
            final(self).wf(),
            final(self).node_count() == old(self).node_count(),
            final(self).index_chunks() == old(self).index_chunks(),
            final(self).index_cap() == old(self).index_cap(),
            final(self).children_of(n).len() == old(self).children_of(n).len() + 1,
            final(self).child_chunks_of(n) == after_push(old(self).child_chunks_of(n), old(self).child_cap_of(n), child),
            final(self).child_cap_of(n) == next_cap(old(self).child_chunks_of(n), old(self).child_cap_of(n)),
            forall|x: NodeRef|
                final(self).children_of(n).contains(x) <==> (old(self).children_of(n).contains(x)
                    || x == child),
            forall|m: NodeRef|
                old(self).has(m) ==> #[trigger] final(self).data_of(m) == old(self).data_of(m),
            forall|m: NodeRef|
                old(self).has(m) && m != n ==> #[trigger] final(self).child_chunks_of(m)
                    == old(self).child_chunks_of(m) && final(self).child_cap_of(m)
                    == old(self).child_cap_of(m),
    {
        self.store[n.0].add_child(child);
        assert forall|i: int| 0 <= i < self.store@.len() implies #[trigger] self.store@[i].wf() by {
            if i != n.0 {
                assert(self.store@[i] == old(self).store@[i]);
            }
        }
        assert forall|i: int, x: NodeRef|
            0 <= i < self.store@.len() && #[trigger] walk_order(
                self.store@[i].child_chunks(),
            ).contains(x) implies x.0 < self.store@.len() by {
            if i != n.0 {
                assert(self.store@[i] == old(self).store@[i]);
            } else if x != child {
                assert(walk_order(old(self).store@[i].child_chunks()).contains(x));
            }
        }
        assert forall|x: NodeRef| #[trigger] self.index().contains(x) implies x.0 < self.store@.len() by {
            assert(old(self).index().contains(x));
        }
        assert forall|m: NodeRef|
            old(self).has(m) && m != n implies #[trigger] self.child_chunks_of(m)
                == old(self).child_chunks_of(m) && self.child_cap_of(m)
                    == old(self).child_cap_of(m) by {
            assert(self.store@[m.0 as int] == old(self).store@[m.0 as int]);
        }
    }
}

} // verus!
