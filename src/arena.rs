use vstd::prelude::*;

verus! {

/// Where an element of an `ArenaVex` lives: its chunk (oldest is 0) and its
/// slot in that chunk. A handle stays valid, and keeps naming the same
/// value, for as long as the arena lives.
#[derive(Clone, Copy, PartialEq, Eq, Structural, Debug)]
pub struct ArenaRef {
    pub chunk: usize,
    pub slot: usize,
}

/// An append-only arena that hands out handles and can be walked.
///
/// Elements live in a chain of chunks. Each new chunk has twice the capacity
/// of the one before it, and a chunk that has been filled is never touched
/// again. Walking visits the newest chunk first, and each chunk in the order
/// its elements were pushed.
pub struct ArenaVex<T> {
    /// the chunks, oldest first
    chunks: Vec<Vec<T>>,
    /// capacity of the newest chunk
    cap: usize,
    /// number of elements in all chunks
    count: usize,
    /// capacity of the first chunk
    first: usize,
}

/// A bound on an arena's size under which pushes never overflow.
pub const ROOM: usize = usize::MAX / 4;

/// The handles of the `len` elements of chunk `c`, in insertion order.
pub open spec fn chunk_refs(c: int, len: nat) -> Seq<ArenaRef> {
    Seq::new(len, |j: int| ArenaRef { chunk: c as usize, slot: j as usize })
}

/// The handles of all elements of the chunks `cs` (oldest first), in walking
/// order: newest chunk first, insertion order within a chunk.
pub open spec fn ref_order<T>(cs: Seq<Seq<T>>) -> Seq<ArenaRef>
    decreases cs.len(),
{
    if cs.len() == 0 {
        Seq::empty()
    } else {
        chunk_refs(cs.len() - 1, cs.last().len()) + ref_order(cs.drop_last())
    }
}

/// The elements of the chunks `cs` (oldest first), in walking order.
pub open spec fn walk_order<T>(cs: Seq<Seq<T>>) -> Seq<T>
    decreases cs.len(),
{
    if cs.len() == 0 {
        Seq::empty()
    } else {
        cs.last() + walk_order(cs.drop_last())
    }
}

/// The chunks after pushing `x` onto chunks `cs` whose newest chunk has
/// capacity `cap`: a full newest chunk gets a new chunk after it, otherwise
/// `x` joins the newest chunk.
pub open spec fn after_push<T>(cs: Seq<Seq<T>>, cap: nat, x: T) -> Seq<Seq<T>> {
    if cs.last().len() == cap {
        cs.push(seq![x])
    } else {
        cs.update(cs.len() - 1, cs.last().push(x))
    }
}

/// Inserting a new value anywhere keeps a sequence free of duplicates.
proof fn lemma_insert_no_dup<T>(p: Seq<T>, q: Seq<T>, x: T)
    requires
        (p + q).no_duplicates(),
        !(p + q).contains(x),
    ensures
        (p.push(x) + q).no_duplicates(),
{
    let o = p + q;
    let n = p.push(x) + q;
    let k = p.len() as int;
    assert forall|i: int, j: int| 0 <= i < n.len() && 0 <= j < n.len() && i != j implies n[i]
        != n[j] by {
        let mi = if i < k { i } else { i - 1 };
        let mj = if j < k { j } else { j - 1 };
        if i != k {
            assert(n[i] == o[mi]);
        }
        if j != k {
            assert(n[j] == o[mj]);
        }
        if i == k {
            assert(n[i] == x);
            assert(o.contains(o[mj]));
        } else if j == k {
            assert(n[j] == x);
            assert(o.contains(o[mi]));
        }
    }
}

/// Pushing a value that is not yet walked keeps the walk free of
/// duplicates.
pub proof fn lemma_after_push_no_dup<T>(cs: Seq<Seq<T>>, cap: nat, x: T)
    requires
        cs.len() >= 1,
        walk_order(cs).no_duplicates(),
        !walk_order(cs).contains(x),
    ensures
        walk_order(after_push(cs, cap, x)).no_duplicates(),
{
    let n = after_push(cs, cap, x);
    if cs.last().len() == cap {
        assert(n.drop_last() =~= cs);
        assert(n.last() == seq![x]);
        let e = Seq::<T>::empty();
        assert(e + walk_order(cs) =~= walk_order(cs));
        lemma_insert_no_dup(e, walk_order(cs), x);
        assert(e.push(x) =~= seq![x]);
    } else {
        assert(n.drop_last() =~= cs.drop_last());
        assert(n.last() == cs.last().push(x));
        lemma_insert_no_dup(cs.last(), walk_order(cs.drop_last()), x);
    }
}

/// Walking gives the chunks' contents concatenated from the newest chunk to
/// the oldest, each chunk in insertion order.
pub proof fn lemma_walk_is_newest_first<T>(cs: Seq<Seq<T>>)
    ensures
        walk_order(cs) == cs.reverse().flatten(),
    decreases cs.len(),
{
    if cs.len() == 0 {
        assert(cs.reverse() =~= Seq::<Seq<T>>::empty());
    } else {
        lemma_walk_is_newest_first(cs.drop_last());
        assert(cs.reverse().drop_first() =~= cs.drop_last().reverse());
        assert(cs.reverse().first() == cs.last());
    }
}

/// The chunks, and the newest chunk's capacity, after pushing `vs` in order
/// onto an arena that began as one empty chunk of capacity `c`.
pub open spec fn grown<T>(c: nat, vs: Seq<T>) -> (Seq<Seq<T>>, nat)
    decreases vs.len(),
{
    if vs.len() == 0 {
        (seq![Seq::<T>::empty()], c)
    } else {
        let prev = grown(c, vs.drop_last());
        (
            after_push(prev.0, prev.1, vs.last()),
            if prev.0.last().len() == prev.1 {
                2 * prev.1
            } else {
                prev.1
            },
        )
    }
}

/// The shape of chunks `cs` with newest capacity `cap` grown from a first
/// chunk of capacity `c`: the first chunk holds `c` once another follows,
/// each later full chunk holds twice the one before, and the newest chunk
/// holds at most its capacity, which is `c` or twice the chunk before.
pub open spec fn chunk_layout<T>(cs: Seq<Seq<T>>, cap: nat, c: nat) -> bool {
    &&& cs.len() >= 1
    &&& cs.len() > 1 ==> cs[0].len() == c
    &&& forall|j: int| 0 < j < cs.len() - 1 ==> #[trigger] cs[j].len() == 2 * cs[j - 1].len()
    &&& cap == if cs.len() == 1 {
        c
    } else {
        2 * cs[cs.len() - 2].len()
    }
    &&& cs.last().len() <= cap
}

proof fn lemma_grown_alt<T>(c: nat, vs: Seq<T>)
    requires
        c >= 1,
    ensures
        chunk_layout(grown(c, vs).0, grown(c, vs).1, c),
        grown(c, vs).0.flatten_alt() == vs,
        vs.len() > 0 ==> grown(c, vs).0.last().len() >= 1,
    decreases vs.len(),
{
    if vs.len() == 0 {
        let cs = seq![Seq::<T>::empty()];
        assert(cs.drop_last() =~= Seq::<Seq<T>>::empty());
        assert(Seq::<Seq<T>>::empty().flatten_alt() == Seq::<T>::empty());
        assert(cs.last() == Seq::<T>::empty());
        assert(cs.flatten_alt() =~= Seq::<T>::empty() + Seq::<T>::empty());
        assert(cs.flatten_alt() =~= vs);
    } else {
        let p = vs.drop_last();
        lemma_grown_alt(c, p);
        let cs = grown(c, p).0;
        let cap = grown(c, p).1;
        let x = vs.last();
        let n = grown(c, vs).0;
        assert(cs.len() >= 1);
        if cs.last().len() == cap {
            assert(n == cs.push(seq![x]));
            assert(n.drop_last() =~= cs);
            assert(seq![x].len() == 1);
            assert(n.flatten_alt() =~= cs.flatten_alt() + seq![x]);
            assert(p.push(x) =~= vs);
            assert forall|j: int| 0 < j < n.len() - 1 implies #[trigger] n[j].len() == 2 * n[j
                - 1].len() by {
                assert(n[j] == cs[j]);
                assert(n[j - 1] == cs[j - 1]);
                if j == cs.len() - 1 {
                    if cs.len() == 1 {
                    } else {
                        assert(cs.last() == cs[j]);
                    }
                }
            }
            if cs.len() == 1 {
                assert(n[0] == cs[0]);
            } else {
                assert(n[0] == cs[0]);
            }
            assert(n[n.len() - 2] == cs.last());
        } else {
            let k = cs.len() - 1;
            assert(n == cs.update(k, cs.last().push(x)));
            assert(n.drop_last() =~= cs.drop_last());
            assert(cs.flatten_alt() == cs.drop_last().flatten_alt() + cs.last());
            assert(n.flatten_alt() =~= cs.flatten_alt() + seq![x]);
            assert(p.push(x) =~= vs);
            assert forall|j: int| 0 < j < n.len() - 1 implies #[trigger] n[j].len() == 2 * n[j
                - 1].len() by {
                assert(n[j] == cs[j]);
                assert(n[j - 1] == cs[j - 1]);
            }
            if cs.len() > 1 {
                assert(n[0] == cs[0]);
                assert(n[n.len() - 2] == cs[cs.len() - 2]);
            }
        }
    }
}

/// Pushing values in order onto an arena whose first chunk holds `c`:
/// the chunks, oldest first, hold the values in push order; the first
/// holds `c` once another follows and each later full chunk twice the one
/// before; walking visits the newest chunk first.
pub proof fn lemma_grown_layout<T>(c: nat, vs: Seq<T>)
    requires
        c >= 1,
    ensures
        chunk_layout(grown(c, vs).0, grown(c, vs).1, c),
        grown(c, vs).0.flatten() == vs,
        walk_order(grown(c, vs).0) == grown(c, vs).0.reverse().flatten(),
{
    lemma_grown_alt(c, vs);
    grown(c, vs).0.lemma_flatten_and_flatten_alt_are_equivalent();
    lemma_walk_is_newest_first(grown(c, vs).0);
}

/// With two chunks, walking gives the newer chunk's elements first, each
/// chunk in insertion order, and not the overall insertion order.
pub proof fn lemma_two_chunk_order<T>(a: Seq<T>, b: Seq<T>)
    ensures
        walk_order(seq![a, b]) == b + a,
        ref_order(seq![a, b]) == chunk_refs(1, b.len()) + chunk_refs(0, a.len()),
{
    let cs = seq![a, b];
    assert(cs.drop_last() =~= seq![a]);
    assert(seq![a].drop_last() =~= Seq::<Seq<T>>::empty());
    assert(seq![a].last() == a);
    assert(cs.last() == b);
    assert(walk_order(Seq::<Seq<T>>::empty()) == Seq::<T>::empty());
    assert(ref_order(Seq::<Seq<T>>::empty()) == Seq::<ArenaRef>::empty());
    assert(walk_order(seq![a]) =~= a + Seq::<T>::empty());
    assert(walk_order(seq![a]) =~= a);
    assert(ref_order(seq![a]) =~= chunk_refs(0, a.len()));
}

impl<T> View for ArenaVex<T> {
    type V = Seq<Seq<T>>;

    /// The chunks' contents, oldest chunk first.
    closed spec fn view(&self) -> Seq<Seq<T>> {
        self.chunks@.map_values(|c: Vec<T>| c@)
    }
}

impl<T> ArenaVex<T> {
    /// Capacity of the newest chunk.
    pub closed spec fn capacity(&self) -> nat {
        self.cap as nat
    }

    /// Capacity of the first chunk.
    pub closed spec fn first_capacity(&self) -> nat {
        self.first as nat
    }

    /// Number of elements pushed so far.
    pub open spec fn total(&self) -> nat {
        walk_order(self@).len()
    }

    /// Room for one more push, stated without the capacities: the arena
    /// holds fewer than `ROOM` elements and began with a chunk of between 1
    /// and `ROOM` elements.
    pub open spec fn roomy(&self) -> bool {
        &&& self.total() < ROOM
        &&& 1 <= self.first_capacity() <= ROOM
    }

    pub open spec fn wf(&self) -> bool {
        &&& self@.len() >= 1
        &&& self.capacity() >= self.first_capacity()
        &&& self@.last().len() <= self.capacity()
        &&& self.count_matches()
        &&& (self.capacity() == self.first_capacity() || self.capacity() <= 2 * self.total())
    }

    /// A well-formed arena with room can take a push.
    pub proof fn lemma_roomy_can_push(&self)
        requires
            self.wf(),
            self.roomy(),
        ensures
            self.can_push(),
    {
    }

    pub closed spec fn count_matches(&self) -> bool {
        self.count == walk_order(self@).len()
    }

    pub open spec fn valid(&self, h: ArenaRef) -> bool {
        &&& h.chunk < self@.len()
        &&& h.slot < self@[h.chunk as int].len()
    }

    pub open spec fn value_at(&self, h: ArenaRef) -> T {
        self@[h.chunk as int][h.slot as int]
    }

    /// The newest chunk is full: the next push starts a new chunk.
    pub open spec fn newest_full(&self) -> bool {
        self@.last().len() == self.capacity()
    }

    /// A push finds room: the arena did not start with a chunk of no
    /// capacity, and doubling the capacity for a new chunk does not overflow.
    pub open spec fn can_push(&self) -> bool {
        &&& self.capacity() >= 1
        &&& self.newest_full() ==> 2 * self.capacity() <= usize::MAX
        &&& walk_order(self@).len() < usize::MAX
    }

    /// An arena whose first chunk holds 8 elements.
    pub fn new() -> (r: ArenaVex<T>)
        ensures
            r.wf(),
            r@ == seq![Seq::<T>::empty()],
            r.capacity() == 8,
            r.first_capacity() == 8,
            walk_order(r@) == Seq::<T>::empty(),
    {
        ArenaVex::with_capacity(8)
    }

    /// An arena whose first chunk holds `n` elements.
    pub fn with_capacity(n: usize) -> (r: ArenaVex<T>)
        ensures
            r.wf(),
            r@ == seq![Seq::<T>::empty()],
            r.capacity() == n,
            r.first_capacity() == n,
            walk_order(r@) == Seq::<T>::empty(),
    {
        let mut chunks: Vec<Vec<T>> = Vec::new();
        chunks.push(Vec::with_capacity(n));
        let r = ArenaVex { chunks, cap: n, count: 0, first: n };
        assert(r@ =~= seq![Seq::<T>::empty()]);
        assert(r@.drop_last() =~= Seq::<Seq<T>>::empty());
        assert(walk_order(r@) =~= Seq::<T>::empty() + walk_order(Seq::<Seq<T>>::empty()));
        r
    }

    /// Appends `value` and returns its handle. Every handle handed out
    /// before stays valid and names the same value.
    pub fn push(&mut self, value: T) -> (h: ArenaRef)
        requires
            old(self).wf(),
            old(self).can_push(),
        ensures
            final(self).wf(),
            final(self).first_capacity() == old(self).first_capacity(),
            final(self).total() == old(self).total() + 1,
            final(self)@ == after_push(old(self)@, old(self).capacity(), value),
            old(self).newest_full() ==> final(self)@ == old(self)@.push(seq![value])
                && final(self).capacity() == 2 * old(self).capacity(),
            !old(self).newest_full() ==> final(self)@ == old(self)@.update(
                old(self)@.len() - 1,
                old(self)@.last().push(value),
            ) && final(self).capacity() == old(self).capacity(),
            h.chunk == final(self)@.len() - 1,
            h.slot == final(self)@.last().len() - 1,
            final(self).valid(h),
            final(self).value_at(h) == value,
            forall|x: T|
                walk_order(final(self)@).contains(x) <==> (walk_order(old(self)@).contains(x)
                    || x == value),
            forall|g: ArenaRef| #[trigger]
                old(self).valid(g) ==> final(self).valid(g) && final(self).value_at(g)
                    == old(self).value_at(g),
    {
        let ghost old_view = self@;
        let last = self.chunks.len() - 1;
        if self.chunks[last].len() == self.cap {
            let new_cap = self.cap * 2;
            let mut fresh: Vec<T> = Vec::with_capacity(new_cap);
            fresh.push(value);
            self.chunks.push(fresh);
            self.cap = new_cap;
            assert(self@ =~= old_view.push(seq![value]));
            assert(self@.drop_last() =~= old_view);
            assert(walk_order(self@) =~= seq![value] + walk_order(old_view));
            assert forall|x: T|
                walk_order(self@).contains(x) <==> (walk_order(old_view).contains(x)
                    || x == value) by {
                if walk_order(self@).contains(x) && x != value {
                    let k = choose|k: int| 0 <= k < walk_order(self@).len() && walk_order(self@)[k] == x;
                    assert(walk_order(old_view)[k - 1] == x);
                }
                if walk_order(old_view).contains(x) {
                    let k = choose|k: int| 0 <= k < walk_order(old_view).len() && walk_order(old_view)[k] == x;
                    assert(walk_order(self@)[k + 1] == x);
                }
                if x == value {
                    assert(walk_order(self@)[0] == x);
                }
            }
        } else {
            let mut newest = self.chunks.pop().unwrap();
            newest.push(value);
            self.chunks.push(newest);
            assert(self@ =~= old_view.update(last as int, old_view.last().push(value)));
            assert(self@.drop_last() =~= old_view.drop_last());
            let ghost a = old_view.last();
            let ghost rest = walk_order(old_view.drop_last());
            assert(walk_order(self@) =~= a.push(value) + rest);
            assert(walk_order(old_view) =~= a + rest);
            assert forall|x: T|
                walk_order(self@).contains(x) <==> (walk_order(old_view).contains(x)
                    || x == value) by {
                let w = walk_order(self@);
                let o = walk_order(old_view);
                if w.contains(x) && x != value {
                    let k = choose|k: int| 0 <= k < w.len() && w[k] == x;
                    if k < a.len() {
                        assert(o[k] == x);
                    } else {
                        assert(o[k - 1] == x);
                    }
                }
                if o.contains(x) {
                    let k = choose|k: int| 0 <= k < o.len() && o[k] == x;
                    if k < a.len() {
                        assert(w[k] == x);
                    } else {
                        assert(w[k + 1] == x);
                    }
                }
                if x == value {
                    assert(w[a.len() as int] == x);
                }
            }
        }
        self.count = self.count + 1;
        ArenaRef { chunk: self.chunks.len() - 1, slot: self.chunks[self.chunks.len() - 1].len() - 1 }
    }

    /// The value that `h` names.
    pub fn get(&self, h: ArenaRef) -> (r: &T)
        requires
            self.valid(h),
        ensures
            *r == self.value_at(h),
    {
        &self.chunks[h.chunk][h.slot]
    }

    /// Number of elements pushed so far.
    pub fn len(&self) -> (n: usize)
        requires
            self.wf(),
        ensures
            n == walk_order(self@).len(),
    {
        self.count
    }

    /// The handles of all elements, newest chunk first and in insertion order
    /// within each chunk.
    pub fn iter(&self) -> (r: Vec<ArenaRef>)
        ensures
            r@ == ref_order(self@),
    {
        let mut r: Vec<ArenaRef> = Vec::new();
        let mut c: usize = self.chunks.len();
        assert(self@.take(c as int) =~= self@);
        while c > 0
            invariant
                c <= self.chunks.len(),
                self@.len() == self.chunks.len(),
                r@ + ref_order(self@.take(c as int)) == ref_order(self@),
            decreases c,
        {
            let ghost before = r@;
            let chunk_len = self.chunks[c - 1].len();
            let mut j: usize = 0;
            while j < chunk_len
                invariant
                    j <= chunk_len,
                    1 <= c <= self.chunks.len(),
                    chunk_len == self@[c - 1].len(),
                    r@ == before + chunk_refs(c - 1, j as nat),
                decreases chunk_len - j,
            {
                r.push(ArenaRef { chunk: c - 1, slot: j });
                assert(chunk_refs(c - 1, (j + 1) as nat) =~= chunk_refs(c - 1, j as nat).push(
                    ArenaRef { chunk: (c - 1) as usize, slot: j },
                ));
                j = j + 1;
            }
            proof {
                let t = self@.take(c as int);
                assert(t.drop_last() =~= self@.take(c - 1));
                assert(t.last() == self@[c - 1]);
                assert(r@ + ref_order(self@.take(c - 1)) =~= before + ref_order(t));
            }
            c = c - 1;
        }
        assert(self@.take(0) =~= Seq::<Seq<T>>::empty());
        assert(r@ =~= r@ + ref_order(Seq::<Seq<T>>::empty()));
        r
    }
}

impl<T: Copy> ArenaVex<T> {
    /// All elements, newest chunk first and in insertion order within each
    /// chunk.
    pub fn values(&self) -> (r: Vec<T>)
        ensures
            r@ == walk_order(self@),
    {
        let mut r: Vec<T> = Vec::new();
        let mut c: usize = self.chunks.len();
        assert(self@.take(c as int) =~= self@);
        while c > 0
            invariant
                c <= self.chunks.len(),
                self@.len() == self.chunks.len(),
                r@ + walk_order(self@.take(c as int)) == walk_order(self@),
            decreases c,
        {
            let ghost before = r@;
            let chunk = &self.chunks[c - 1];
            let mut j: usize = 0;
            while j < chunk.len()
                invariant
                    j <= chunk.len(),
                    1 <= c <= self.chunks.len(),
                    chunk@ == self@[c - 1],
                    r@ == before + chunk@.take(j as int),
                decreases chunk.len() - j,
            {
                r.push(chunk[j]);
                assert(chunk@.take(j + 1) =~= chunk@.take(j as int).push(chunk@[j as int]));
                j = j + 1;
            }
            proof {
                let t = self@.take(c as int);
                assert(t.drop_last() =~= self@.take(c - 1));
                assert(chunk@.take(j as int) =~= chunk@);
                assert(r@ + walk_order(self@.take(c - 1)) =~= before + walk_order(t));
            }
            c = c - 1;
        }
        assert(self@.take(0) =~= Seq::<Seq<T>>::empty());
        assert(r@ =~= r@ + walk_order(Seq::<Seq<T>>::empty()));
        r
    }
}

} // verus!
