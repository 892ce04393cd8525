use vstd::prelude::*;
use vstd::multiset::Multiset;
use crate::{Context, Desc, GData, InputPos, Stack};
use crate::arena::{ROOM, after_push};
use crate::graph::{Graph, NodeRef};

verus! {

/// Outcome of a parse that succeeded; it carries nothing.
#[derive(Clone, Copy, PartialEq, Eq, Structural, Debug)]
pub struct Success;

/// Outcome of a parse that failed; it carries nothing.
#[derive(Clone, Copy, PartialEq, Eq, Structural, Debug)]
pub struct ParseError;

impl Default for Success {
    fn default() -> (r: Success)
        ensures
            r == Success,
    {
        Success
    }
}

impl Default for ParseError {
    fn default() -> (r: ParseError)
        ensures
            r == ParseError,
    {
        ParseError
    }
}

/// The work list: descriptors waiting to run (`todo`, taken last in first
/// out) and every descriptor ever scheduled (`seen`). A descriptor is
/// scheduled at most once, so it runs at most once.
pub struct R {
    todo: Vec<Desc<u32>>,
    seen: Vec<Desc<u32>>,
    /// the descriptors taken off `todo` so far
    drained: Ghost<Seq<Desc<u32>>>,
}

impl R {
    pub closed spec fn todo_v(&self) -> Seq<Desc<u32>> {
        self.todo@
    }

    pub closed spec fn seen_v(&self) -> Seq<Desc<u32>> {
        self.seen@
    }

    /// The descriptors taken off the work list so far, in order.
    pub closed spec fn drained_v(&self) -> Seq<Desc<u32>> {
        self.drained@
    }

    /// Same waiting, scheduled and drained descriptors.
    pub open spec fn same_as(&self, o: R) -> bool {
        &&& self.todo_v() == o.todo_v()
        &&& self.seen_v() == o.seen_v()
        &&& self.drained_v() == o.drained_v()
    }

    /// What was scheduled is what ran plus what waits, and nothing was
    /// scheduled twice.
    pub open spec fn wf(&self) -> bool {
        &&& self.seen_v().to_multiset() == self.drained_v().to_multiset().add(
            self.todo_v().to_multiset(),
        )
        &&& forall|d: Desc<u32>| #[trigger] self.seen_v().to_multiset().count(d) <= 1
    }

    pub fn new() -> (r: R)
        ensures
            r.wf(),
            r.todo_v() == Seq::<Desc<u32>>::empty(),
            r.seen_v() == Seq::<Desc<u32>>::empty(),
            r.drained_v() == Seq::<Desc<u32>>::empty(),
    {
        let r = R { todo: Vec::new(), seen: Vec::new(), drained: Ghost(Seq::empty()) };
        proof {
            let e = Seq::<Desc<u32>>::empty();
            e.to_multiset_ensures();
            assert(e.to_multiset() =~= Multiset::empty());
        }
        assert(r.seen_v().to_multiset() =~= r.drained_v().to_multiset().add(
            r.todo_v().to_multiset(),
        ));
        r
    }

    /// A descriptor is taken off the work list at most once, however often
    /// it was added; once nothing waits, each scheduled descriptor was taken
    /// off exactly once.
    pub proof fn lemma_drained_once(&self, d: Desc<u32>)
        requires
            self.wf(),
        ensures
            self.drained_v().to_multiset().count(d) <= 1,
            self.seen_v().contains(d) && self.todo_v().len() == 0 ==> self.drained_v().to_multiset().count(d) == 1,
    {
        self.seen_v().to_multiset_ensures();
        self.todo_v().to_multiset_ensures();
        assert(self.seen_v().to_multiset().count(d) <= 1);
        if self.todo_v().len() == 0 {
            assert(!self.todo_v().contains(d));
        }
    }

    /// Everything taken off the work list was scheduled, and nothing
    /// waits that was not scheduled: the list drains after at most as
    /// many takes as there are scheduled descriptors.
    pub proof fn lemma_drain_bounded(&self)
        requires
            self.wf(),
        ensures
            self.drained_v().len() + self.todo_v().len() == self.seen_v().len(),
    {
        self.seen_v().to_multiset_ensures();
        self.todo_v().to_multiset_ensures();
        self.drained_v().to_multiset_ensures();
    }

    /// Whether `d` was ever scheduled.
    pub fn seen_contains(&self, d: &Desc<u32>) -> (r: bool)
        ensures
            r == self.seen_v().contains(*d),
    {
        let mut k: usize = 0;
        while k < self.seen.len()
            invariant
                k <= self.seen.len(),
                forall|j: int| 0 <= j < k ==> self.seen@[j] != *d,
            decreases self.seen.len() - k,
        {
            if self.seen[k] == *d {
                return true;
            }
            k = k + 1;
        }
        false
    }

    /// Schedules `d` unless it was scheduled before.
    pub fn add(&mut self, d: Desc<u32>)
        requires
            old(self).wf(),
        ensures
            final(self).wf(),
            final(self).drained_v() == old(self).drained_v(),
            old(self).seen_v().contains(d) ==> final(self).seen_v() == old(self).seen_v()
                && final(self).todo_v() == old(self).todo_v(),
            !old(self).seen_v().contains(d) ==> final(self).seen_v() == old(self).seen_v().push(d)
                && final(self).todo_v() == old(self).todo_v().push(d),
    {
        if !self.seen_contains(&d) {
            proof {
                self.seen@.to_multiset_ensures();
                self.todo@.to_multiset_ensures();
            }
            self.seen.push(d);
            self.todo.push(d);
            assert(self.seen_v().to_multiset() =~= self.drained_v().to_multiset().add(
                self.todo_v().to_multiset(),
            ));
        }
    }

    /// Takes the most recently scheduled waiting descriptor, if any.
    pub fn pop(&mut self) -> (r: Option<Desc<u32>>)
        requires
            old(self).wf(),
        ensures
            final(self).wf(),
            final(self).seen_v() == old(self).seen_v(),
            old(self).todo_v().len() == 0 ==> r is None && final(self).todo_v() == old(
                self,
            ).todo_v() && final(self).drained_v() == old(self).drained_v(),
            old(self).todo_v().len() > 0 ==> r == Some(old(self).todo_v().last())
                && final(self).todo_v() == old(self).todo_v().drop_last()
                && final(self).drained_v() == old(self).drained_v().push(
                old(self).todo_v().last(),
            ),
    {
        let r = self.todo.pop();
        match r {
            Some(d) => {
                proof {
                    old(self).todo@.drop_last().to_multiset_ensures();
                    self.drained@.to_multiset_ensures();
                    assert(old(self).todo@ =~= self.todo@.push(d));
                    self.drained@ = self.drained@.push(d);
                }
                assert(self.seen_v().to_multiset() =~= self.drained_v().to_multiset().add(
                    self.todo_v().to_multiset(),
                ));
            },
            None => {},
        }
        r
    }
}

impl Context for DemoContext {
    open spec fn ready(&self) -> bool {
        self.wf()
    }

    open spec fn holds(&self, u: Stack) -> bool {
        self.graph().has(u.0)
    }

    open spec fn room(&self, k: nat) -> bool {
        self.room_for(k)
    }

    open spec fn can_advance(&self) -> bool {
        self.pos().0 < usize::MAX
    }

    open spec fn in_terms(&self, terms: Seq<char>) -> bool {
        self.next_in(terms)
    }

    open spec fn in_terms_or_end(&self, terms: Seq<char>) -> bool {
        self.next_in_or_end(terms)
    }

    open spec fn remaining(&self) -> nat {
        if self.pos().0 <= self.input().len() {
            (self.input().len() - self.pos().0) as nat
        } else {
            0
        }
    }

    open spec fn scheduled(&self, d: Desc<u32>) -> bool {
        self.work().seen_v().contains(d)
    }

    open spec fn stack_top(&self) -> Stack {
        self.top()
    }

    open spec fn position(&self) -> InputPos {
        self.pos()
    }

    open spec fn waiting(&self) -> Seq<Desc<u32>> {
        self.work().todo_v()
    }

    open spec fn recorded(&self, u: Stack, j: InputPos) -> bool {
        self.popped().contains((u, j))
    }

    open spec fn bottom(&self) -> NodeRef {
        self.dummy()
    }

    open spec fn payload_of(&self, n: NodeRef) -> GData<u32> {
        self.graph().data_of(n)
    }

    open spec fn edges_of(&self, n: NodeRef) -> Seq<NodeRef> {
        self.graph().children_of(n)
    }

    fn i_in(&self, terms: &[char]) -> (r: bool) {
        DemoContext::i_in(self, terms)
    }

    fn i_in_end(&self, terms: &[char]) -> (r: bool) {
        DemoContext::i_in_end(self, terms)
    }

    fn i_len(&self) -> (r: usize) {
        DemoContext::i_len(self)
    }

    fn i_incr(&mut self) {
        DemoContext::i_incr(self)
    }

    fn pop(&mut self) {
        DemoContext::pop(self);
        proof {
            let o = old(self);
            if o.top() != Stack(o.dummy()) {
                let ds = resumptions(
                    o.graph().children_of(o.top().0),
                    o.graph().data_of(o.top().0).label_of(),
                    o.pos(),
                );
                lemma_fresh_covers(o.work().seen_v(), ds);
                assert forall|c: NodeRef|
                    o.graph().children_of(o.top().0).contains(c) implies #[trigger] self.scheduled(
                        Desc(o.graph().data_of(o.top().0).label_of(), Stack(c), o.pos()),
                    ) by {
                    let kids = o.graph().children_of(o.top().0);
                    let q = choose|q: int| 0 <= q < kids.len() && kids[q] == c;
                    assert(ds[q] == Desc(o.graph().data_of(o.top().0).label_of(), Stack(c), o.pos()));
                }
                if !o.popped().contains((o.top(), o.pos())) {
                    assert(self.popped()[o.popped().len() as int] == (o.top(), o.pos()));
                }
            }
            assert forall|d: Desc<u32>| o.scheduled(d) implies #[trigger] self.scheduled(d) by {
                if o.top() != Stack(o.dummy()) {
                    let ds = resumptions(
                        o.graph().children_of(o.top().0),
                        o.graph().data_of(o.top().0).label_of(),
                        o.pos(),
                    );
                    lemma_prefix_contains(o.work().seen_v(), fresh(o.work().seen_v(), ds), d);
                }
            }
        }
    }

    fn create(&mut self, l: u32) {
        DemoContext::create(self, l);
        proof {
            let o = old(self);
            assert forall|d: Desc<u32>| o.scheduled(d) implies #[trigger] self.scheduled(d) by {
                if !o.has_edge(self.top().0, o.top().0) {
                    let ds = replays(o.popped(), self.top().0, l, o.top());
                    lemma_prefix_contains(o.work().seen_v(), fresh(o.work().seen_v(), ds), d);
                }
            }
        }
    }

    fn add_s(&mut self, l: u32) {
        DemoContext::add_s(self, l);
        proof {
            let o = old(self);
            let x = Desc(l, o.top(), o.pos());
            assert forall|d: Desc<u32>|
                #[trigger] self.scheduled(d) <==> (o.scheduled(d) || d == x) by {
                if !o.work().seen_v().contains(x) {
                    lemma_push_contains(o.work().seen_v(), x, d);
                }
            }
        }
    }

    fn g_dummy(&self) -> NodeRef {
        DemoContext::g_dummy(self)
    }

    fn r_pop(&mut self) -> (r: Option<Desc<u32>>) {
        DemoContext::r_pop(self)
    }

    fn r_seen_contains(&self, d: &Desc<u32>) -> (r: bool) {
        DemoContext::r_seen_contains(self, d)
    }

    fn set_s(&mut self, u: Stack) {
        DemoContext::set_s(self, u)
    }

    fn set_i(&mut self, j: InputPos) {
        DemoContext::set_i(self, j)
    }
}

/// The descriptors of `ds` that are neither in `seen` nor earlier in `ds`,
/// in the order of `ds`: what scheduling each of `ds` in turn adds.
pub open spec fn fresh(seen: Seq<Desc<u32>>, ds: Seq<Desc<u32>>) -> Seq<Desc<u32>>
    decreases ds.len(),
{
    if ds.len() == 0 {
        Seq::empty()
    } else {
        let f = fresh(seen, ds.drop_last());
        if (seen + f).contains(ds.last()) {
            f
        } else {
            f.push(ds.last())
        }
    }
}

/// The descriptors that resume label `l` on each of `kids`, in order, at
/// position `j`.
pub open spec fn resumptions(kids: Seq<NodeRef>, l: u32, j: InputPos) -> Seq<Desc<u32>> {
    kids.map_values(|c: NodeRef| Desc(l, Stack(c), j))
}

/// The replays owed to a new edge from `v` to `u` for label `l`: one
/// descriptor per recorded pop of `v`, in the order the pops were recorded.
pub open spec fn replays(popped: Seq<(Stack, InputPos)>, v: NodeRef, l: u32, u: Stack) -> Seq<
    Desc<u32>,
>
    decreases popped.len(),
{
    if popped.len() == 0 {
        Seq::empty()
    } else {
        let r = replays(popped.drop_last(), v, l, u);
        if popped.last().0 == Stack(v) {
            r.push(Desc(l, u, popped.last().1))
        } else {
            r
        }
    }
}

proof fn lemma_push_contains<A>(s: Seq<A>, x: A, y: A)
    ensures
        s.push(x).contains(y) <==> (s.contains(y) || y == x),
{
    if s.push(x).contains(y) && y != x {
        let q = choose|q: int| 0 <= q < s.push(x).len() && s.push(x)[q] == y;
        assert(s[q] == y);
    }
    if s.contains(y) {
        let q = choose|q: int| 0 <= q < s.len() && s[q] == y;
        assert(s.push(x)[q] == y);
    }
    if y == x {
        assert(s.push(x)[s.len() as int] == y);
    }
}

proof fn lemma_prefix_contains<A>(s: Seq<A>, t: Seq<A>, y: A)
    requires
        s.contains(y),
    ensures
        (s + t).contains(y),
{
    let q = choose|q: int| 0 <= q < s.len() && s[q] == y;
    assert((s + t)[q] == y);
}

/// Scheduling each of `ds` in turn leaves every one of them scheduled.
proof fn lemma_fresh_covers(seen: Seq<Desc<u32>>, ds: Seq<Desc<u32>>)
    ensures
        forall|i: int| 0 <= i < ds.len() ==> #[trigger] (seen + fresh(seen, ds)).contains(ds[i]),
    decreases ds.len(),
{
    if ds.len() > 0 {
        let p = ds.drop_last();
        lemma_fresh_covers(seen, p);
        let f = fresh(seen, p);
        let x = ds.last();
        assert forall|i: int| 0 <= i < ds.len() implies #[trigger] (seen + fresh(seen, ds)).contains(
            ds[i],
        ) by {
            if (seen + f).contains(x) {
            } else {
                assert(seen + f.push(x) =~= (seen + f).push(x));
                lemma_push_contains(seen + f, x, ds[i]);
                if i < p.len() {
                    assert(p[i] == ds[i]);
                    assert((seen + f).contains(p[i]));
                }
            }
            if i == ds.len() - 1 {
                assert(ds[i] == x);
            } else {
                assert(p[i] == ds[i]);
            }
        }
    }
}

/// The byte that stands for terminal `c` in the input. A terminal beyond
/// one byte cannot occur in this instantiation.
pub fn term_of_char(c: char) -> (r: u8)
    requires
        (c as u32) <= 255,
    ensures
        r == (c as u32) as u8,
{
    (c as u32) as u8
}

/// Value equality of payloads.
fn same_payload(a: &GData<u32>, b: &GData<u32>) -> (r: bool)
    ensures
        r == (*a == *b),
{
    match (a.0, b.0) {
        (None, None) => true,
        (Some((la, ia)), Some((lb, ib))) => la == lb && ia == ib,
        _ => false,
    }
}

/// Whether byte `b` stands for one of the characters `terms`.
pub open spec fn term_in(b: u8, terms: Seq<char>) -> bool {
    exists|k: int| 0 <= k < terms.len() && terms[k] as u32 == b as u32
}

/// The state of one parse attempt: the input and the position in it, the
/// graph-structured stack and its current top, the work list, and the
/// record of completed pops.
pub struct DemoContext {
    i: InputPos,
    input: Vec<u8>,
    r: R,
    g: Graph<GData<u32>>,
    dummy: NodeRef,
    s: Stack,
    popped: Vec<(Stack, InputPos)>,
}

impl DemoContext {
    pub closed spec fn pos(&self) -> InputPos {
        self.i
    }

    pub closed spec fn input(&self) -> Seq<u8> {
        self.input@
    }

    pub closed spec fn work(&self) -> R {
        self.r
    }

    pub closed spec fn graph(&self) -> Graph<GData<u32>> {
        self.g
    }

    /// The bottom sentinel node.
    pub closed spec fn dummy(&self) -> NodeRef {
        self.dummy
    }

    /// The current top of the stack.
    pub closed spec fn top(&self) -> Stack {
        self.s
    }

    /// The (stack, position) pairs at which a pop happened, each once.
    pub closed spec fn popped(&self) -> Seq<(Stack, InputPos)> {
        self.popped@
    }

    pub open spec fn wf(&self) -> bool {
        &&& self.graph().wf()
        &&& self.work().wf()
        &&& self.graph().has(self.dummy())
        &&& self.graph().data_of(self.dummy()).is_dummy()
        &&& self.graph().index().contains(self.dummy())
        &&& forall|n: NodeRef|
            self.graph().has(n) && n != self.dummy() ==> !(
            #[trigger] self.graph().data_of(n)).is_dummy()
        &&& self.graph().has(self.top().0)
        &&& forall|a: NodeRef, b: NodeRef|
            #![trigger self.graph().index().contains(a), self.graph().index().contains(b)]
            self.graph().index().contains(a) && self.graph().index().contains(b)
                && self.graph().data_of(a) == self.graph().data_of(b) ==> a == b
        &&& forall|d: Desc<u32>| #[trigger]
            self.work().seen_v().contains(d) ==> self.graph().has(d.1.0)
        &&& forall|p: (Stack, InputPos)| #[trigger]
            self.popped().contains(p) ==> self.graph().has(p.0.0)
        &&& self.popped().no_duplicates()
        &&& forall|n: NodeRef|
            self.graph().has(n) ==> #[trigger] self.graph().children_of(n).no_duplicates()
    }

    /// Room in the graph for `k` more calls of `create` after the next one.
    pub open spec fn room_for(&self, k: nat) -> bool {
        &&& self.graph().node_count() + k + 2 <= ROOM
        &&& self.graph().index().len() + k + 2 <= ROOM
        &&& forall|n: NodeRef|
            self.graph().has(n) ==> #[trigger] self.graph().children_of(n).len() + k + 2 <= ROOM
    }

    /// Room in the graph for one more node and one more edge.
    pub open spec fn roomy(&self) -> bool {
        self.room_for(0)
    }

    /// A fresh parse attempt over the bytes `t`: the stack is a node labelled
    /// `start` at position 0 whose one edge leads to the bottom sentinel.
    pub fn new(t: &[u8], start: u32) -> (c: DemoContext)
        ensures
            c.wf(),
            c.input() == t@,
            c.pos() == InputPos(0),
            c.graph().data_of(c.top().0) == GData::<u32>(Some((start, InputPos(0)))),
            c.graph().children_of(c.top().0) =~= seq![c.dummy()],
            c.graph().node_count() == 2,
            forall|x: NodeRef|
                c.graph().index().contains(x) <==> (x == c.dummy() || x == c.top().0),
            c.work().seen_v() == Seq::<Desc<u32>>::empty(),
            c.work().todo_v() == Seq::<Desc<u32>>::empty(),
            c.popped() == Seq::<(Stack, InputPos)>::empty(),
    {
        let mut g: Graph<GData<u32>> = Graph::new();
        let d = g.add_node(GData::dummy());
        let ghost g_d = g;
        let s = g.add_node(GData::new(start, InputPos(0)));
        let ghost g_s = g;
        g.add_child(s, d);
        assert(g_s.data_of(d) == g_d.data_of(d));
        assert(g_s.child_chunks_of(d) == g_d.child_chunks_of(d));
        assert(g.children_of(d) == Seq::<NodeRef>::empty());
        assert(g_s.children_of(s) == Seq::<NodeRef>::empty());
        assert(g.children_of(s).no_duplicates()) by {
            assert(g.children_of(s) =~= seq![d]) by {
                assert(g.children_of(s).len() == 1);
                assert(g.children_of(s).contains(d));
            }
        }
        assert(g.children_of(s).contains(d));
        assert(g.children_of(s) =~= seq![d]) by {
            assert(g.children_of(s).len() == 1);
            assert(g.children_of(s)[0] == d);
        }
        let mut input: Vec<u8> = Vec::new();
        let mut k: usize = 0;
        while k < t.len()
            invariant
                k <= t.len(),
                input@ == t@.take(k as int),
            decreases t.len() - k,
        {
            input.push(t[k]);
            assert(t@.take(k + 1) =~= t@.take(k as int).push(t@[k as int]));
            k = k + 1;
        }
        assert(t@.take(k as int) =~= t@);
        let c = DemoContext {
            i: InputPos(0),
            input,
            r: R::new(),
            g,
            dummy: d,
            s: Stack(s),
            popped: Vec::new(),
        };
        proof {
            g.lemma_wf();
        }
        c
    }

    /// Input remains and its next terminal is one of `terms`.
    pub open spec fn next_in(&self, terms: Seq<char>) -> bool {
        self.pos().0 < self.input().len() && term_in(self.input()[self.pos().0 as int], terms)
    }

    /// The input is exhausted or its next terminal is one of `terms`.
    pub open spec fn next_in_or_end(&self, terms: Seq<char>) -> bool {
        self.pos().0 >= self.input().len() || term_in(self.input()[self.pos().0 as int], terms)
    }

    /// At the end of the input no terminal set matches, while every set
    /// matches when the end counts as a match.
    pub proof fn lemma_end_of_input(&self, terms: Seq<char>)
        requires
            self.pos().0 >= self.input().len(),
        ensures
            !self.next_in(terms),
            self.next_in_or_end(terms),
    {
    }

    /// Two published nodes with equal payloads are one node.
    pub proof fn lemma_one_node_per_payload(&self, a: NodeRef, b: NodeRef)
        requires
            self.wf(),
            self.graph().index().contains(a),
            self.graph().index().contains(b),
            self.graph().data_of(a) == self.graph().data_of(b),
        ensures
            a == b,
    {
    }

    /// True iff input remains and its next terminal is one of `terms`.
    pub fn i_in(&self, terms: &[char]) -> (r: bool)
        ensures
            r == self.next_in(terms@),
    {
        if self.i.0 < self.input.len() {
            term_member(self.input[self.i.0], terms)
        } else {
            false
        }
    }

    /// True iff the input is exhausted or its next terminal is one of
    /// `terms`.
    pub fn i_in_end(&self, terms: &[char]) -> (r: bool)
        ensures
            r == self.next_in_or_end(terms@),
    {
        if self.i.0 < self.input.len() {
            term_member(self.input[self.i.0], terms)
        } else {
            true
        }
    }

    /// Moves the position one terminal on.
    pub fn i_incr(&mut self)
        requires
            old(self).wf(),
            old(self).pos().0 < usize::MAX,
        ensures
            final(self).wf(),
            final(self).pos().0 == old(self).pos().0 + 1,
            final(self).input() == old(self).input(),
            final(self).graph() == old(self).graph(),
            final(self).work() == old(self).work(),
            final(self).top() == old(self).top(),
            final(self).dummy() == old(self).dummy(),
            final(self).popped() == old(self).popped(),
    {
        self.i.incr();
    }

    /// Replaces the current top of the stack.
    pub fn set_s(&mut self, u: Stack)
        requires
            old(self).wf(),
            old(self).graph().has(u.0),
        ensures
            final(self).wf(),
            final(self).top() == u,
            final(self).pos() == old(self).pos(),
            final(self).input() == old(self).input(),
            final(self).graph() == old(self).graph(),
            final(self).work() == old(self).work(),
            final(self).dummy() == old(self).dummy(),
            final(self).popped() == old(self).popped(),
    {
        self.s = u;
    }

    /// Replaces the current position.
    pub fn set_i(&mut self, j: InputPos)
        requires
            old(self).wf(),
        ensures
            final(self).wf(),
            final(self).pos() == j,
            final(self).top() == old(self).top(),
            final(self).input() == old(self).input(),
            final(self).graph() == old(self).graph(),
            final(self).work() == old(self).work(),
            final(self).dummy() == old(self).dummy(),
            final(self).popped() == old(self).popped(),
    {
        self.i = j;
    }

    /// The bottom sentinel node.
    pub fn g_dummy(&self) -> (r: NodeRef)
        ensures
            r == self.dummy(),
    {
        self.dummy
    }

    /// The current top of the stack.
    pub fn s(&self) -> (r: Stack)
        ensures
            r == self.top(),
    {
        self.s
    }

    /// The current position.
    pub fn i(&self) -> (r: InputPos)
        ensures
            r == self.pos(),
    {
        self.i
    }

    /// The graph-structured stack.
    pub fn g(&self) -> (r: &Graph<GData<u32>>)
        ensures
            *r == self.graph(),
    {
        &self.g
    }

    /// Takes the most recently scheduled waiting descriptor, if any; `None`
    /// exactly when no descriptor waits.
    pub fn r_pop(&mut self) -> (r: Option<Desc<u32>>)
        requires
            old(self).wf(),
        ensures
            final(self).wf(),
            final(self).work().seen_v() == old(self).work().seen_v(),
            old(self).work().todo_v().len() == 0 ==> r is None && final(self).work().same_as(
                old(self).work(),
            ),
            old(self).work().todo_v().len() > 0 ==> r == Some(old(self).work().todo_v().last())
                && final(self).work().todo_v() == old(self).work().todo_v().drop_last()
                && final(self).work().drained_v() == old(self).work().drained_v().push(
                old(self).work().todo_v().last(),
            ),
            r is Some ==> final(self).graph().has(r->Some_0.1.0),
            final(self).pos() == old(self).pos(),
            final(self).top() == old(self).top(),
            final(self).input() == old(self).input(),
            final(self).graph() == old(self).graph(),
            final(self).dummy() == old(self).dummy(),
            final(self).popped() == old(self).popped(),
    {
        let r = self.r.pop();
        proof {
            if old(self).work().todo_v().len() > 0 {
                old(self).r.todo@.to_multiset_ensures();
                old(self).r.drained@.to_multiset_ensures();
                old(self).r.seen@.to_multiset_ensures();
                let x = old(self).r.todo@.last();
                assert(old(self).r.todo@.contains(x));
                assert(old(self).r.todo@.to_multiset().count(x) > 0);
                assert(old(self).r.seen@.to_multiset().count(x) > 0);
            }
        }
        r
    }

    /// Whether `d` was ever scheduled.
    pub fn r_seen_contains(&self, d: &Desc<u32>) -> (r: bool)
        ensures
            r == self.work().seen_v().contains(*d),
    {
        self.r.seen_contains(d)
    }

    /// Whether a pop of stack `u` at position `j` was recorded.
    pub fn popped_contains(&self, u: Stack, j: InputPos) -> (r: bool)
        ensures
            r == self.popped().contains((u, j)),
    {
        let mut k: usize = 0;
        while k < self.popped.len()
            invariant
                k <= self.popped.len(),
                forall|q: int| 0 <= q < k ==> self.popped@[q] != (u, j),
            decreases self.popped.len() - k,
        {
            let (p, i) = self.popped[k];
            if p == u && i == j {
                return true;
            }
            k = k + 1;
        }
        false
    }

    /// Schedules descriptor (`l`, `u`, `j`) unless it was scheduled before.
    pub fn add(&mut self, l: u32, u: Stack, j: InputPos)
        requires
            old(self).wf(),
            old(self).graph().has(u.0),
        ensures
            final(self).wf(),
            final(self).work().drained_v() == old(self).work().drained_v(),
            old(self).work().seen_v().contains(Desc(l, u, j)) ==> final(self).work().same_as(
                old(self).work(),
            ),
            !old(self).work().seen_v().contains(Desc(l, u, j)) ==> final(self).work().seen_v()
                == old(self).work().seen_v().push(Desc(l, u, j)) && final(self).work().todo_v()
                == old(self).work().todo_v().push(Desc(l, u, j)),
            final(self).pos() == old(self).pos(),
            final(self).top() == old(self).top(),
            final(self).input() == old(self).input(),
            final(self).graph() == old(self).graph(),
            final(self).dummy() == old(self).dummy(),
            final(self).popped() == old(self).popped(),
    {
        self.r.add(Desc(l, u, j));
        assert forall|d: Desc<u32>| #[trigger]
            self.work().seen_v().contains(d) implies self.graph().has(d.1.0) by {
            if d != Desc(l, u, j) {
                assert(old(self).work().seen_v().contains(d));
            }
        }
    }

    /// Schedules label `l` at the current top and position.
    pub fn add_s(&mut self, l: u32)
        requires
            old(self).wf(),
        ensures
            final(self).wf(),
            final(self).work().drained_v() == old(self).work().drained_v(),
            old(self).work().seen_v().contains(Desc(l, old(self).top(), old(self).pos()))
                ==> final(self).work().same_as(old(self).work()),
            !old(self).work().seen_v().contains(Desc(l, old(self).top(), old(self).pos()))
                ==> final(self).work().seen_v() == old(self).work().seen_v().push(
                Desc(l, old(self).top(), old(self).pos()),
            ) && final(self).work().todo_v() == old(self).work().todo_v().push(
                Desc(l, old(self).top(), old(self).pos()),
            ),
            final(self).pos() == old(self).pos(),
            final(self).top() == old(self).top(),
            final(self).input() == old(self).input(),
            final(self).graph() == old(self).graph(),
            final(self).dummy() == old(self).dummy(),
            final(self).popped() == old(self).popped(),
    {
        let u = self.s;
        let j = self.i;
        self.add(l, u, j);
    }

    /// Completes the production at the current top: unless the top is the
    /// bottom sentinel, records the pop at the current position and
    /// schedules the top's label on each of its children there.
    pub fn pop(&mut self)
        requires
            old(self).wf(),
        ensures
            final(self).wf(),
            final(self).pos() == old(self).pos(),
            final(self).top() == old(self).top(),
            final(self).input() == old(self).input(),
            final(self).graph() == old(self).graph(),
            final(self).dummy() == old(self).dummy(),
            final(self).work().drained_v() == old(self).work().drained_v(),
            old(self).top() == Stack(old(self).dummy()) ==> final(self).work().same_as(
                old(self).work(),
            ) && final(self).popped() == old(self).popped(),
            old(self).top() != Stack(old(self).dummy()) ==> final(self).popped() == (if old(
                self,
            ).popped().contains((old(self).top(), old(self).pos())) {
                old(self).popped()
            } else {
                old(self).popped().push((old(self).top(), old(self).pos()))
            }),
            old(self).top() != Stack(old(self).dummy()) ==> {
                let ds = resumptions(
                    old(self).graph().children_of(old(self).top().0),
                    old(self).graph().data_of(old(self).top().0).label_of(),
                    old(self).pos(),
                );
                let f = fresh(old(self).work().seen_v(), ds);
                &&& final(self).work().seen_v() == old(self).work().seen_v() + f
                &&& final(self).work().todo_v() == old(self).work().todo_v() + f
            },
    {
        let u = self.s;
        let j = self.i;
        if u != Stack(self.dummy) {
            if !self.popped_contains(u, j) {
                self.popped.push((u, j));
                assert forall|p: (Stack, InputPos)| #[trigger]
                    self.popped().contains(p) implies self.graph().has(p.0.0) by {
                    if p != (u, j) {
                        assert(old(self).popped().contains(p));
                    }
                }
                assert(self.popped().no_duplicates()) by {
                    assert forall|a: int, b: int|
                        0 <= a < self.popped@.len() && 0 <= b < self.popped@.len() && a != b
                        implies self.popped@[a] != self.popped@[b] by {
                        if a == old(self).popped@.len() {
                            assert(old(self).popped@.contains(self.popped@[b]));
                        } else if b == old(self).popped@.len() {
                            assert(old(self).popped@.contains(self.popped@[a]));
                        }
                    }
                }
            }
            let l_u = self.g.data(u.0).label();
            let kids = self.g.children(u.0);
            proof {
                self.g.lemma_wf();
            }
            let ghost seen0 = self.work().seen_v();
            let ghost todo0 = self.work().todo_v();
            let ghost popped1 = self.popped();
            assert(resumptions(kids@.take(0), l_u, j) =~= Seq::<Desc<u32>>::empty());
            assert(seen0 + Seq::<Desc<u32>>::empty() =~= seen0);
            assert(todo0 + Seq::<Desc<u32>>::empty() =~= todo0);
            let mut k: usize = 0;
            while k < kids.len()
                invariant
                    self.wf(),
                    k <= kids.len(),
                    kids@ == self.graph().children_of(u.0),
                    self.graph() == old(self).graph(),
                    self.pos() == j,
                    self.top() == u,
                    self.input() == old(self).input(),
                    self.dummy() == old(self).dummy(),
                    self.popped() == popped1,
                    self.work().drained_v() == old(self).work().drained_v(),
                    self.graph().has(u.0),
                    self.work().seen_v() == seen0 + fresh(
                        seen0,
                        resumptions(kids@.take(k as int), l_u, j),
                    ),
                    self.work().todo_v() == todo0 + fresh(
                        seen0,
                        resumptions(kids@.take(k as int), l_u, j),
                    ),
                decreases kids.len() - k,
            {
                proof {
                    self.g.lemma_wf();
                }
                assert(self.graph().children_of(u.0).contains(kids@[k as int]));
                let ghost ds = resumptions(kids@.take(k as int), l_u, j);
                let ghost d = Desc(l_u, Stack(kids@[k as int]), j);
                self.add(l_u, Stack(kids[k]), j);
                proof {
                    let ds1 = resumptions(kids@.take(k + 1), l_u, j);
                    assert(kids@.take(k + 1) =~= kids@.take(k as int).push(kids@[k as int]));
                    assert(ds1 =~= ds.push(d));
                    assert(ds1.drop_last() =~= ds);
                    let f = fresh(seen0, ds);
                    if !(seen0 + f).contains(d) {
                        assert(seen0 + f.push(d) =~= (seen0 + f).push(d));
                        assert(todo0 + f.push(d) =~= (todo0 + f).push(d));
                    }
                }
                k = k + 1;
            }
            assert(kids@.take(k as int) =~= kids@);
        }
    }

    /// Some published node holds label `l` at the current position.
    pub open spec fn has_node_for(&self, l: u32) -> bool {
        exists|n: NodeRef|
            self.graph().index().contains(n) && #[trigger] self.graph().data_of(n) == GData::<
                u32,
            >(Some((l, self.pos())))
    }

    /// Node `v` exists and has an edge to `c`.
    pub open spec fn has_edge(&self, v: NodeRef, c: NodeRef) -> bool {
        self.graph().has(v) && self.graph().children_of(v).contains(c)
    }

    /// Enters label `l` at the current position: finds the published node
    /// that holds (`l`, position), or makes one, and links it to the current
    /// top. When that edge is new, every pop of that node recorded before is
    /// replayed as a descriptor on the current top. The node becomes the new
    /// top.
    #[verifier::rlimit(50)]
    pub fn create(&mut self, l: u32)
        requires
            old(self).wf(),
            old(self).roomy(),
        ensures
            final(self).wf(),
            final(self).pos() == old(self).pos(),
            final(self).input() == old(self).input(),
            final(self).dummy() == old(self).dummy(),
            final(self).popped() == old(self).popped(),
            final(self).work().drained_v() == old(self).work().drained_v(),
            final(self).graph().data_of(final(self).top().0) == GData::<u32>(
                Some((l, old(self).pos())),
            ),
            final(self).graph().index().contains(final(self).top().0),
            old(self).has_node_for(l) ==> old(self).graph().index().contains(final(self).top().0)
                && final(self).graph().node_count() == old(self).graph().node_count(),
            !old(self).has_node_for(l) ==> final(self).top().0.0 == old(self).graph().node_count()
                && final(self).graph().node_count() == old(self).graph().node_count() + 1,
            forall|x: NodeRef|
                final(self).graph().index().contains(x) <==> (old(self).graph().index().contains(
                    x,
                ) || x == final(self).top().0),
            final(self).graph().children_of(final(self).top().0).contains(old(self).top().0),
            old(self).has_node_for(l) ==> final(self).graph().index_chunks() == old(
                self,
            ).graph().index_chunks() && final(self).graph().index_cap() == old(
                self,
            ).graph().index_cap(),
            !old(self).has_node_for(l) ==> final(self).graph().index_chunks() == after_push(
                old(self).graph().index_chunks(),
                old(self).graph().index_cap(),
                final(self).top().0,
            ) && final(self).graph().index().len() == old(self).graph().index().len() + 1,
            old(self).has_edge(final(self).top().0, old(self).top().0) ==> {
                &&& final(self).work().same_as(old(self).work())
                &&& final(self).graph().child_chunks_of(final(self).top().0)
                    == old(self).graph().child_chunks_of(final(self).top().0)
            },
            !old(self).has_edge(final(self).top().0, old(self).top().0) ==> {
                let f = fresh(
                    old(self).work().seen_v(),
                    replays(old(self).popped(), final(self).top().0, l, old(self).top()),
                );
                &&& final(self).work().seen_v() == old(self).work().seen_v() + f
                &&& final(self).work().todo_v() == old(self).work().todo_v() + f
            },
            !old(self).has_edge(final(self).top().0, old(self).top().0) && old(
                self,
            ).graph().has(final(self).top().0) ==> final(self).graph().child_chunks_of(
                final(self).top().0,
            ) == after_push(
                old(self).graph().child_chunks_of(final(self).top().0),
                old(self).graph().child_cap_of(final(self).top().0),
                old(self).top().0,
            ),
            !old(self).graph().has(final(self).top().0) ==> final(self).graph().child_chunks_of(
                final(self).top().0,
            ) == after_push(seq![Seq::<NodeRef>::empty()], 8, old(self).top().0),
            forall|x: NodeRef|
                final(self).graph().children_of(final(self).top().0).contains(x) <==> {
                    ||| old(self).has_edge(final(self).top().0, x)
                    ||| x == old(self).top().0
                },
            forall|n: NodeRef|
                old(self).graph().has(n) ==> #[trigger] final(self).graph().data_of(n)
                    == old(self).graph().data_of(n),
            forall|n: NodeRef|
                old(self).graph().has(n) && n != final(self).top().0
                    ==> #[trigger] final(self).graph().child_chunks_of(n)
                    == old(self).graph().child_chunks_of(n),
            old(self).graph().has(final(self).top().0) ==> final(self).graph().children_of(
                final(self).top().0,
            ).len() <= old(self).graph().children_of(final(self).top().0).len() + 1,
            !old(self).graph().has(final(self).top().0) ==> final(self).graph().children_of(
                final(self).top().0,
            ).len() == 1,
            !old(self).has_edge(final(self).top().0, old(self).top().0) && old(
                self,
            ).graph().has(final(self).top().0) ==> final(self).graph().children_of(
                final(self).top().0,
            ).len() == old(self).graph().children_of(final(self).top().0).len() + 1,
            forall|k: nat| old(self).room_for(k + 1) ==> #[trigger] final(self).room_for(k),
            forall|n: NodeRef|
                old(self).graph().index().contains(n) && #[trigger] old(self).graph().data_of(n)
                    == GData::<u32>(Some((l, old(self).pos()))) ==> final(self).top().0 == n,
    {
        let l_j = GData::new(l, self.i);
        let u = self.s;
        let idx = self.g.nodes();
        proof {
            self.g.lemma_wf();
        }
        let mut v = NodeRef(0);
        let mut have = false;
        let mut k: usize = 0;
        while k < idx.len() && !have
            invariant
                k <= idx.len(),
                idx@ == self.graph().index(),
                forall|x: NodeRef| #[trigger] idx@.contains(x) ==> self.graph().has(x),
                have ==> idx@.contains(v) && self.graph().data_of(v) == l_j,
                !have ==> forall|q: int| 0 <= q < k ==> self.graph().data_of(idx@[q]) != l_j,
            decreases idx.len() - k,
        {
            let n = idx[k];
            assert(idx@.contains(n));
            if same_payload(self.g.data(n), &l_j) {
                v = n;
                have = true;
            }
            k = k + 1;
        }
        proof {
            if !have {
                assert forall|n: NodeRef|
                    self.graph().index().contains(n) implies #[trigger] self.graph().data_of(n)
                    != l_j by {
                    let q = choose|q: int| 0 <= q < idx@.len() && idx@[q] == n;
                }
                assert(!old(self).has_node_for(l));
            }
        }
        if !have {
            v = self.g.add_node(l_j);
        }
        let ghost g1 = self.graph();
        proof {
            if !have {
                assert(g1.children_of(v) == Seq::<NodeRef>::empty());
                assert(g1.child_chunks_of(v) == seq![Seq::<NodeRef>::empty()]);
                assert(g1.child_cap_of(v) == 8);
                assert(g1.index_chunks() == after_push(
                    old(self).graph().index_chunks(),
                    old(self).graph().index_cap(),
                    v,
                ));
                assert(!old(self).graph().has(v));
            } else {
                assert(g1 == old(self).graph());
                assert(old(self).graph().has(v));
            }
            assert forall|n: NodeRef| #[trigger] old(self).graph().has(n) implies g1.children_of(n)
                == old(self).graph().children_of(n) && g1.data_of(n) == old(self).graph().data_of(n) by {
                if !have {
                    assert(g1.data_of(n) == old(self).graph().data_of(n));
                }
            }
            self.g.lemma_wf();
            assert forall|n: NodeRef|
                self.graph().has(n) && n != self.dummy() implies !(
                #[trigger] self.graph().data_of(n)).is_dummy() by {
                if n != v {
                    assert(old(self).graph().has(n));
                }
            }
            assert forall|a: NodeRef, b: NodeRef|
                #![trigger self.graph().index().contains(a), self.graph().index().contains(b)]
                self.graph().index().contains(a) && self.graph().index().contains(b)
                    && self.graph().data_of(a) == self.graph().data_of(b) implies a == b by {
                if !have {
                    if a != v && b != v {
                        assert(old(self).graph().index().contains(a));
                        assert(old(self).graph().index().contains(b));
                    } else if a == v && b != v {
                        assert(old(self).graph().index().contains(b));
                        assert(old(self).graph().has(b));
                        assert(old(self).graph().data_of(b) != l_j);
                    } else if a != v && b == v {
                        assert(old(self).graph().index().contains(a));
                        assert(old(self).graph().has(a));
                        assert(old(self).graph().data_of(a) != l_j);
                    }
                }
            }
            assert forall|n: NodeRef| self.graph().has(n) implies #[trigger] self.graph().children_of(
                n,
            ).no_duplicates() by {
                if n != v || have {
                    assert(old(self).graph().has(n));
                    assert(old(self).graph().children_of(n) == self.graph().children_of(n));
                } else {
                    assert(self.graph().children_of(n) == Seq::<NodeRef>::empty());
                }
            }
            assert(self.wf());
        }
        let kids = self.g.children(v);
        let mut present = false;
        let mut m: usize = 0;
        while m < kids.len() && !present
            invariant
                m <= kids.len(),
                present ==> kids@.contains(u.0),
                !present ==> forall|q: int| 0 <= q < m ==> kids@[q] != u.0,
            decreases kids.len() - m,
        {
            if kids[m] == u.0 {
                present = true;
            }
            m = m + 1;
        }
        proof {
            if have {
                assert(old(self).graph().has(v));
            }
            assert(present == old(self).has_edge(v, u.0));
        }
        if !present {
            self.g.add_child(v, u.0);
            let ghost g2 = self.graph();
            let ghost seen0 = self.work().seen_v();
            let ghost todo0 = self.work().todo_v();
            assert(self.popped@.take(0) =~= Seq::<(Stack, InputPos)>::empty());
            assert(seen0 + Seq::<Desc<u32>>::empty() =~= seen0);
            assert(todo0 + Seq::<Desc<u32>>::empty() =~= todo0);
            proof {
                self.g.lemma_wf();
                assert forall|n: NodeRef|
                    self.graph().has(n) && n != self.dummy() implies !(
                    #[trigger] self.graph().data_of(n)).is_dummy() by {
                    assert(g1.has(n));
                }
                assert forall|n: NodeRef| self.graph().has(n) implies #[trigger] self.graph().children_of(
                    n,
                ).no_duplicates() by {
                    assert(g1.has(n));
                    if n != v {
                        assert(g1.child_chunks_of(n) == self.graph().child_chunks_of(n));
                        assert(g1.children_of(n).no_duplicates());
                    } else {
                        assert(g1.children_of(v).no_duplicates());
                        assert(!g1.children_of(v).contains(u.0));
                        crate::arena::lemma_after_push_no_dup(g1.child_chunks_of(v), g1.child_cap_of(v), u.0);
                    }
                }
                assert(self.wf());
            }
            let mut q: usize = 0;
            while q < self.popped.len()
                invariant
                    self.wf(),
                    q <= self.popped@.len(),
                    self.graph().has(u.0),
                    self.graph().has(v),
                    self.pos() == old(self).pos(),
                    self.input() == old(self).input(),
                    self.dummy() == old(self).dummy(),
                    self.popped() == old(self).popped(),
                    self.top() == u,
                    self.work().drained_v() == old(self).work().drained_v(),
                    self.graph().node_count() == g1.node_count(),
                    self.graph().index() == g1.index(),
                    self.graph() == g2,
                    forall|n: NodeRef| g1.has(n) ==> #[trigger] self.graph().data_of(n) == g1.data_of(n),
                    forall|n: NodeRef|
                        g1.has(n) && n != v ==> #[trigger] self.graph().children_of(n)
                            == g1.children_of(n),
                    forall|x: NodeRef|
                        self.graph().children_of(v).contains(x) <==> (g1.children_of(v).contains(x)
                            || x == u.0),
                    self.work().seen_v() == seen0 + fresh(
                        seen0,
                        replays(self.popped@.take(q as int), v, l, u),
                    ),
                    self.work().todo_v() == todo0 + fresh(
                        seen0,
                        replays(self.popped@.take(q as int), v, l, u),
                    ),
                decreases self.popped@.len() - q,
            {
                let (p, pk) = self.popped[q];
                let ghost ds = replays(self.popped@.take(q as int), v, l, u);
                if p == Stack(v) {
                    self.add(l, u, pk);
                }
                proof {
                    let pre = self.popped@.take(q + 1);
                    assert(pre.drop_last() =~= self.popped@.take(q as int));
                    assert(pre.last() == (p, pk));
                    let f = fresh(seen0, ds);
                    if p == Stack(v) {
                        let d = Desc(l, u, pk);
                        assert(replays(pre, v, l, u) == ds.push(d));
                        assert(ds.push(d).drop_last() =~= ds);
                        if !(seen0 + f).contains(d) {
                            assert(seen0 + f.push(d) =~= (seen0 + f).push(d));
                            assert(todo0 + f.push(d) =~= (todo0 + f).push(d));
                        }
                    } else {
                        assert(replays(pre, v, l, u) == ds);
                    }
                }
                q = q + 1;
            }
            assert(self.popped@.take(q as int) =~= self.popped@);
            assert forall|x: NodeRef|
                self.graph().children_of(v).contains(x) <==> (old(self).has_edge(v, x) || x
                    == u.0) by {
                if have {
                    assert(old(self).graph().has(v));
                    assert(g1.children_of(v) == old(self).graph().children_of(v));
                } else {
                    assert(g1.children_of(v) == Seq::<NodeRef>::empty());
                    assert(!old(self).graph().has(v));
                    assert(!g1.children_of(v).contains(x));
                }
            }
            assert forall|n: NodeRef|
                old(self).graph().has(n) && n != v implies #[trigger] self.graph().children_of(n)
                    == old(self).graph().children_of(n) by {
                assert(g1.has(n));
                assert(g1.children_of(n) == old(self).graph().children_of(n));
            }
        } else {
            assert(have);
            assert(kids@.contains(u.0));
        }
        self.s = Stack(v);
        proof {
            if !have {
                assert(self.graph().children_of(v).len() == 1);
            }
            assert forall|n: NodeRef|
                old(self).graph().index().contains(n) && #[trigger] old(self).graph().data_of(n)
                    == l_j implies v == n by {
                assert(old(self).has_node_for(l));
                assert(old(self).graph().index().contains(v));
                assert(old(self).graph().data_of(v) == self.graph().data_of(v));
            }
            assert forall|k: nat| old(self).room_for(k + 1) implies #[trigger] self.room_for(k) by {
                assert forall|n: NodeRef| self.graph().has(n) implies #[trigger] self.graph().children_of(
                    n,
                ).len() + k + 2 <= ROOM by {
                    if n != v {
                        assert(old(self).graph().has(n));
                        assert(old(self).graph().children_of(n).len() + (k + 1) + 2 <= ROOM);
                        assert(self.graph().child_chunks_of(n) == old(self).graph().child_chunks_of(n));
                    } else if have {
                        assert(old(self).graph().children_of(n).len() + (k + 1) + 2 <= ROOM);
                    }
                }
            }
        }
    }

    /// Number of terminals left from the current position on.
    pub fn i_len(&self) -> (n: usize)
        ensures
            self.pos().0 <= self.input().len() ==> n == self.input().len() - self.pos().0,
            self.pos().0 > self.input().len() ==> n == 0,
    {
        if self.i.0 <= self.input.len() {
            self.input.len() - self.i.0
        } else {
            0
        }
    }
}

/// Whether byte `b` stands for one of `terms`.
fn term_member(b: u8, terms: &[char]) -> (r: bool)
    ensures
        r == term_in(b, terms@),
{
    let mut k: usize = 0;
    while k < terms.len()
        invariant
            k <= terms.len(),
            forall|j: int| 0 <= j < k ==> terms@[j] as u32 != b as u32,
        decreases terms.len() - k,
    {
        if terms[k] as u32 == b as u32 {
            return true;
        }
        k = k + 1;
    }
    false
}

} // verus!
