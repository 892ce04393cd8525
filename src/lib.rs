use vstd::prelude::*;
use crate::graph::NodeRef;

pub mod arena;
pub mod graph;
pub mod demo;

verus! {

/// Values that a terminal can be built from.
pub trait FromChar: Sized {
    fn from_char(c: char) -> Self;
}

impl FromChar for char {
    fn from_char(c: char) -> Self {
        c
    }
}

/// Label types with a distinguished first label.
pub trait LabelZero: Sized {
    fn label_zero() -> Self;
}

impl LabelZero for u32 {
    fn label_zero() -> Self {
        0
    }
}

/// What a grammar-specific driver uses of a parse state: the input
/// predicates, the stack operations, and the work list.
pub trait Context: Sized {
    /// The state is consistent.
    spec fn ready(&self) -> bool;

    /// Stack `u` belongs to this parse.
    spec fn holds(&self, u: Stack) -> bool;

    /// There is room for `k` more calls of `create` after the next one.
    spec fn room(&self, k: nat) -> bool;

    /// The position can move on by one.
    spec fn can_advance(&self) -> bool;

    /// Input remains and its next terminal is one of `terms`.
    spec fn in_terms(&self, terms: Seq<char>) -> bool;

    /// The input is exhausted or its next terminal is one of `terms`.
    spec fn in_terms_or_end(&self, terms: Seq<char>) -> bool;

    /// Number of terminals left.
    spec fn remaining(&self) -> nat;

    /// Descriptor `d` was scheduled at some time.
    spec fn scheduled(&self, d: Desc<u32>) -> bool;

    /// The current top of the stack.
    spec fn stack_top(&self) -> Stack;

    /// The current position.
    spec fn position(&self) -> InputPos;

    /// The descriptors waiting to run; the last one runs next.
    spec fn waiting(&self) -> Seq<Desc<u32>>;

    /// A pop of stack `u` at position `j` was recorded.
    spec fn recorded(&self, u: Stack, j: InputPos) -> bool;

    /// The bottom sentinel node.
    spec fn bottom(&self) -> NodeRef;

    /// Payload of node `n`.
    spec fn payload_of(&self, n: NodeRef) -> GData<u32>;

    /// Targets of the edges of node `n`.
    spec fn edges_of(&self, n: NodeRef) -> Seq<NodeRef>;

    fn i_in(&self, terms: &[char]) -> (r: bool)
        ensures
            r == self.in_terms(terms@),
    ;

    fn i_in_end(&self, terms: &[char]) -> (r: bool)
        ensures
            r == self.in_terms_or_end(terms@),
    ;

    fn i_len(&self) -> (r: usize)
        ensures
            r == self.remaining(),
    ;

    /// Moves the position one terminal on.
    fn i_incr(&mut self)
        requires
            old(self).ready(),
            old(self).can_advance(),
        ensures
            final(self).ready(),
            final(self).position().0 == old(self).position().0 + 1,
            final(self).stack_top() == old(self).stack_top(),
            final(self).waiting() == old(self).waiting(),
            forall|k: nat| old(self).room(k) ==> #[trigger] final(self).room(k),
    ;

    /// Completes the production at the top: unless the top is the bottom
    /// sentinel, records the pop here and schedules the top's label on each
    /// child here.
    fn pop(&mut self)
        requires
            old(self).ready(),
        ensures
            final(self).ready(),
            final(self).stack_top() == old(self).stack_top(),
            final(self).position() == old(self).position(),
            old(self).stack_top() != Stack(old(self).bottom()) ==> {
                &&& final(self).recorded(old(self).stack_top(), old(self).position())
                &&& forall|c: NodeRef|
                    old(self).edges_of(old(self).stack_top().0).contains(c) ==> #[trigger]
                    final(self).scheduled(
                        Desc(
                            old(self).payload_of(old(self).stack_top().0).label_of(),
                            Stack(c),
                            old(self).position(),
                        ),
                    )
            },
            forall|d: Desc<u32>| old(self).scheduled(d) ==> #[trigger] final(self).scheduled(d),
            forall|k: nat| old(self).room(k) ==> #[trigger] final(self).room(k),
    ;

    /// Enters label `l` here: the new top holds (`l`, position) and has an
    /// edge to the old top.
    fn create(&mut self, l: u32)
        requires
            old(self).ready(),
            old(self).room(0),
        ensures
            final(self).ready(),
            final(self).position() == old(self).position(),
            final(self).payload_of(final(self).stack_top().0) == GData::<u32>(
                Some((l, old(self).position())),
            ),
            final(self).edges_of(final(self).stack_top().0).contains(old(self).stack_top().0),
            forall|d: Desc<u32>| old(self).scheduled(d) ==> #[trigger] final(self).scheduled(d),
            forall|k: nat| old(self).room(k + 1) ==> #[trigger] final(self).room(k),
    ;

    /// Schedules label `l` at the current top and position.
    fn add_s(&mut self, l: u32)
        requires
            old(self).ready(),
        ensures
            final(self).ready(),
            final(self).stack_top() == old(self).stack_top(),
            final(self).position() == old(self).position(),
            forall|d: Desc<u32>|
                #[trigger] final(self).scheduled(d) <==> (old(self).scheduled(d) || d == Desc(
                    l,
                    old(self).stack_top(),
                    old(self).position(),
                )),
            forall|k: nat| old(self).room(k) ==> #[trigger] final(self).room(k),
    ;

    /// The bottom sentinel.
    fn g_dummy(&self) -> (r: NodeRef)
        ensures
            r == self.bottom(),
    ;

    /// Takes the next waiting descriptor; `None` exactly when none waits.
    fn r_pop(&mut self) -> (r: Option<Desc<u32>>)
        requires
            old(self).ready(),
        ensures
            final(self).ready(),
            (old(self).waiting().len() == 0) == (r is None),
            old(self).waiting().len() > 0 ==> r == Some(old(self).waiting().last())
                && final(self).waiting() == old(self).waiting().drop_last(),
            r is Some ==> final(self).holds(r->Some_0.1),
            final(self).stack_top() == old(self).stack_top(),
            final(self).position() == old(self).position(),
            forall|k: nat| old(self).room(k) ==> #[trigger] final(self).room(k),
    ;

    fn r_seen_contains(&self, d: &Desc<u32>) -> (r: bool)
        ensures
            r == self.scheduled(*d),
    ;

    /// Replaces the top of the stack.
    fn set_s(&mut self, u: Stack)
        requires
            old(self).ready(),
            old(self).holds(u),
        ensures
            final(self).ready(),
            final(self).stack_top() == u,
            final(self).position() == old(self).position(),
            final(self).waiting() == old(self).waiting(),
            forall|k: nat| old(self).room(k) ==> #[trigger] final(self).room(k),
    ;

    /// Replaces the position.
    fn set_i(&mut self, j: InputPos)
        requires
            old(self).ready(),
        ensures
            final(self).ready(),
            final(self).position() == j,
            final(self).stack_top() == old(self).stack_top(),
            final(self).waiting() == old(self).waiting(),
            forall|k: nat| old(self).room(k) ==> #[trigger] final(self).room(k),
    ;
}

/// A cursor into the input: the index of the next terminal.
#[derive(Clone, Copy, PartialEq, Eq, Structural, Debug)]
pub struct InputPos(pub usize);

impl InputPos {
    /// Moves the cursor one terminal on.
    pub fn incr(&mut self)
        requires
            old(self).0 < usize::MAX,
        ensures
            final(self).0 == old(self).0 + 1,
    {
        self.0 = self.0 + 1;
    }
}

/// Payload of a stack node: either the bottom sentinel (`None`) or a
/// grammar label with the input position at which it was reached.
/// Equality is by value.
#[derive(Clone, Copy, PartialEq, Eq, Structural, Debug)]
pub struct GData<L>(pub Option<(L, InputPos)>);

impl<L> GData<L> {
    /// The bottom sentinel.
    pub fn dummy() -> (r: GData<L>)
        ensures
            r.0 is None,
    {
        GData(None)
    }

    /// A labelled payload.
    pub fn new(l: L, i: InputPos) -> (r: GData<L>)
        ensures
            r.0 == Some((l, i)),
    {
        GData(Some((l, i)))
    }

    pub open spec fn is_dummy(&self) -> bool {
        self.0 is None
    }

    /// The label of a payload that is not the sentinel.
    pub open spec fn label_of(&self) -> L
        recommends
            !self.is_dummy(),
    {
        self.0->Some_0.0
    }

    /// The label of a payload that is not the sentinel.
    pub fn label(&self) -> (r: L)
        where
            L: Copy,
        requires
            !self.is_dummy(),
        ensures
            r == self.label_of(),
    {
        self.0.unwrap().0
    }
}

/// Top of a graph-structured stack: a handle on a node. Two stacks are equal
/// exactly when they are the same node, whatever the nodes hold.
#[derive(Clone, Copy, PartialEq, Eq, Structural, Debug)]
pub struct Stack(pub NodeRef);

/// A descriptor: resume with grammar label `.0`, stack `.1`, at input
/// position `.2`.
#[derive(Clone, Copy, PartialEq, Eq, Structural, Debug)]
pub struct Desc<L>(pub L, pub Stack, pub InputPos);

} // verus!
