//! The arena, its free chain, and the lists drawn from it.
use vstd::prelude::*;

verus! {

/// Sum of the lengths of the sequences in `s`.
pub open spec fn total_len<A>(s: Seq<Seq<A>>) -> nat
    decreases s.len(),
{
    if s.len() == 0 {
        0
    } else {
        total_len(s.drop_last()) + s.last().len()
    }
}

/// Replacing one sequence changes the total length by the difference of lengths.
pub proof fn lemma_total_len_update<A>(s: Seq<Seq<A>>, i: int, x: Seq<A>)
    requires
        0 <= i < s.len(),
    ensures
        total_len(s.update(i, x)) == total_len(s) - s[i].len() + x.len(),
    decreases s.len(),
{
    let u = s.update(i, x);
    if i == s.len() - 1 {
        assert(u.drop_last() =~= s.drop_last());
    } else {
        assert(u.drop_last() =~= s.drop_last().update(i, x));
        lemma_total_len_update(s.drop_last(), i, x);
    }
}

/// Two families of sequences with pairwise equal lengths have the same total length.
pub proof fn lemma_total_len_same_shape<A, B>(s: Seq<Seq<A>>, t: Seq<Seq<B>>)
    requires
        s.len() == t.len(),
        forall|i: int| 0 <= i < s.len() ==> (#[trigger] s[i]).len() == t[i].len(),
    ensures
        total_len(s) == total_len(t),
    decreases s.len(),
{
    if s.len() > 0 {
        lemma_total_len_same_shape(s.drop_last(), t.drop_last());
    }
}

/// Error returned when an element is added while every slot of the arena is occupied.
#[derive(Debug, PartialEq, Eq, Structural)]
pub struct CapacityExceeded;

/// Why a splice was refused.
#[derive(Debug, PartialEq, Eq, Structural)]
pub enum SpliceError {
    /// The source and the destination are the same list.
    SameList,
    /// The range is empty or runs past the end of the source list.
    InvalidRange,
}

/// One arena slot: either a link in the free chain, or a node of some list.
enum NodeOption<T> {
    Free(Option<usize>),
    Occupied { next: Option<usize>, prev: Option<usize>, value: T },
}

impl<T> NodeOption<T> {
    /// The slot that follows this free slot in the free chain.
    fn expect_free(&self) -> (r: Option<usize>)
        requires
            self is Free,
        ensures
            r == self->Free_0,
    {
        match self {
            NodeOption::Free(next) => *next,
            NodeOption::Occupied { .. } => None,
        }
    }
}

/// The first and last slot of a list, when it has any.
#[derive(Clone, Copy)]
enum Sentry {
    Empty,
    Filled { first: usize, last: usize },
}

/// Head, tail and length of one list.
#[derive(Clone, Copy)]
struct Descriptor {
    ends: Sentry,
    len: usize,
}

spec fn value_of<T>(n: NodeOption<T>) -> T {
    match n {
        NodeOption::Occupied { value, .. } => value,
        NodeOption::Free(_) => arbitrary(),
    }
}

spec fn with_next<T>(n: NodeOption<T>, v: Option<usize>) -> NodeOption<T> {
    match n {
        NodeOption::Occupied { prev, value, .. } => NodeOption::Occupied { next: v, prev, value },
        NodeOption::Free(f) => NodeOption::Free(f),
    }
}

spec fn with_prev<T>(n: NodeOption<T>, v: Option<usize>) -> NodeOption<T> {
    match n {
        NodeOption::Occupied { next, value, .. } => NodeOption::Occupied { next, prev: v, value },
        NodeOption::Free(f) => NodeOption::Free(f),
    }
}

/// Points the forward link of an occupied slot at `v`.
fn set_next<T>(heap: &mut Vec<NodeOption<T>>, idx: usize, v: Option<usize>)
    requires
        idx < old(heap)@.len(),
    ensures
        final(heap)@ == old(heap)@.update(idx as int, with_next(old(heap)@[idx as int], v)),
{
    match &mut heap[idx] {
        NodeOption::Occupied { next, .. } => {
            *next = v;
        },
        NodeOption::Free(_) => {},
    }
}

/// Points the backward link of an occupied slot at `v`.
fn set_prev<T>(heap: &mut Vec<NodeOption<T>>, idx: usize, v: Option<usize>)
    requires
        idx < old(heap)@.len(),
    ensures
        final(heap)@ == old(heap)@.update(idx as int, with_prev(old(heap)@[idx as int], v)),
{
    match &mut heap[idx] {
        NodeOption::Occupied { prev, .. } => {
            *prev = v;
        },
        NodeOption::Free(_) => {},
    }
}

/// The elements of `s` outside positions `start .. start + count`, in order.
pub open spec fn without_range<A>(s: Seq<A>, start: int, count: int) -> Seq<A> {
    s.subrange(0, start) + s.subrange(start + count, s.len() as int)
}

/// The elements of `s` at positions `start .. start + count`, in order.
pub open spec fn range_of<A>(s: Seq<A>, start: int, count: int) -> Seq<A> {
    s.subrange(start, start + count)
}

/// A FIFO list backed by a fixed arena of slots.
///
/// The arena is allocated once, by `new`. List 0 always exists and is the
/// one that `enqueue`, `dequeue` and `size` work on; `add_list` opens further
/// lists over the same arena, and `splice` moves nodes between lists.
pub struct FixedCapacityList<T> {
    heap: Vec<NodeOption<T>>,
    lists: Vec<Descriptor>,
    free: Option<usize>,
    free_len: usize,
    /// The slots of each list, from head to tail.
    slots: Ghost<Seq<Seq<usize>>>,
    /// The free chain, from its head.
    free_slots: Ghost<Seq<usize>>,
    /// Where each slot in use stands: `(list, position)`, or `(-1, position)` in the free chain.
    loc: Ghost<spec_fn(usize) -> (int, int)>,
}

impl<T> View for FixedCapacityList<T> {
    type V = Seq<Seq<T>>;

    /// The contents of every list, each from head to tail.
    closed spec fn view(&self) -> Seq<Seq<T>> {
        self.slots@.map_values(|s: Seq<usize>| s.map_values(|i: usize| value_of(self.heap@[i as int])))
    }
}

impl<T> FixedCapacityList<T> {
    /// Number of slots in the arena.
    pub closed spec fn cap(self) -> nat {
        self.heap@.len()
    }

    /// Number of slots in the free chain.
    pub closed spec fn free_count(self) -> nat {
        self.free_slots@.len()
    }

    spec fn slot_linked(self, l: int, i: int) -> bool {
        let s = self.slots@[l];
        let idx = s[i];
        &&& idx < self.heap@.len()
        &&& (self.loc@)(idx) == (l, i)
        &&& self.heap@[idx as int] is Occupied
        &&& self.heap@[idx as int]->next == (if i + 1 < s.len() { Some(s[i + 1]) } else { None::<usize> })
        &&& self.heap@[idx as int]->prev == (if i > 0 { Some(s[i - 1]) } else { None::<usize> })
    }

    spec fn ends_ok(self, l: int) -> bool {
        let s = self.slots@[l];
        let d = self.lists@[l];
        &&& d.len == s.len()
        &&& (s.len() == 0 <==> d.ends is Empty)
        &&& s.len() > 0 ==> d.ends == (Sentry::Filled { first: s[0], last: s[s.len() - 1] })
    }

    spec fn list_ok(self, l: int) -> bool {
        &&& self.ends_ok(l)
        &&& forall|i: int| 0 <= i < self.slots@[l].len() ==> #[trigger] self.slot_linked(l, i)
    }

    spec fn free_linked(self, k: int) -> bool {
        let f = self.free_slots@;
        let idx = f[k];
        &&& idx < self.heap@.len()
        &&& (self.loc@)(idx) == (-1int, k)
        &&& self.heap@[idx as int] == NodeOption::<T>::Free(
            if k + 1 < f.len() { Some(f[k + 1]) } else { None },
        )
    }

    /// The arena, its free chain and every list are consistently linked.
    pub closed spec fn wf(self) -> bool {
        &&& self.lists@.len() == self.slots@.len()
        &&& self.slots@.len() >= 1
        &&& forall|l: int| 0 <= l < self.slots@.len() ==> #[trigger] self.list_ok(l)
        &&& forall|k: int| 0 <= k < self.free_slots@.len() ==> #[trigger] self.free_linked(k)
        &&& self.free == (if self.free_slots@.len() > 0 { Some(self.free_slots@[0]) } else { None::<usize> })
        &&& self.free_len == self.free_slots@.len()
        &&& total_len(self.slots@) + self.free_slots@.len() == self.heap@.len()
        &&& self.heap@.len() <= usize::MAX
    }

    /// Every slot is either in some list or free.
    pub proof fn lemma_conservation(&self)
        requires
            self.wf(),
        ensures
            total_len(self@) + self.free_count() == self.cap(),
    {
        lemma_total_len_same_shape(self@, self.slots@);
    }

    /// Creates a list with room for `capacity` elements; every slot starts free.
    pub fn new(capacity: usize) -> (r: Self)
        ensures
            r.wf(),
            r@ == seq![Seq::<T>::empty()],
            r.cap() == capacity,
            r.free_count() == capacity,
    {
        let mut heap: Vec<NodeOption<T>> = Vec::with_capacity(capacity);
        let mut i: usize = 0;
        while i < capacity
            invariant
                i <= capacity,
                heap@.len() == i,
                forall|k: int|
                    0 <= k < i ==> heap@[k] == NodeOption::<T>::Free(
                        if k + 1 < capacity { Some((k + 1) as usize) } else { None },
                    ),
            decreases capacity - i,
        {
            let next = if i + 1 < capacity { Some(i + 1) } else { None };
            heap.push(NodeOption::Free(next));
            i = i + 1;
        }
        let mut lists: Vec<Descriptor> = Vec::new();
        lists.push(Descriptor { ends: Sentry::Empty, len: 0 });
        let ghost empty_lists = seq![Seq::<usize>::empty()];
        let ghost chain = Seq::new(capacity as nat, |k: int| k as usize);
        let ghost first_loc = |idx: usize| (-1int, idx as int);
        let r = FixedCapacityList {
            heap,
            lists,
            free: if capacity > 0 { Some(0) } else { None },
            free_len: capacity,
            slots: Ghost(empty_lists),
            free_slots: Ghost(chain),
            loc: Ghost(first_loc),
        };
        proof {
            assert(r.list_ok(0));
            assert forall|l: int| 0 <= l < r.slots@.len() implies #[trigger] r.list_ok(l) by {}
            assert forall|k: int| 0 <= k < r.free_slots@.len() implies #[trigger] r.free_linked(k) by {}
            assert(r.slots@.drop_last() =~= Seq::<Seq<usize>>::empty());
            assert(total_len(r.slots@.drop_last()) == 0);
            assert(total_len(r.slots@) == 0);
            assert(r@[0] =~= Seq::<T>::empty());
            assert(r@ =~= seq![Seq::<T>::empty()]);
        }
        r
    }

    /// Number of slots in the arena, fixed at construction.
    pub fn capacity(&self) -> (r: usize)
        ensures
            r == self.cap(),
    {
        self.heap.len()
    }

    /// Number of free slots.
    pub fn free_slot_count(&self) -> (r: usize)
        requires
            self.wf(),
        ensures
            r == self.free_count(),
    {
        self.free_len
    }

    /// Number of lists drawn from this arena.
    pub fn list_count(&self) -> (r: usize)
        requires
            self.wf(),
        ensures
            r == self@.len(),
    {
        self.lists.len()
    }

    /// Number of elements in list `id`.
    pub fn size_of(&self, id: usize) -> (r: usize)
        requires
            self.wf(),
            id < self@.len(),
        ensures
            r == self@[id as int].len(),
    {
        proof {
            assert(self.list_ok(id as int));
        }
        self.lists[id].len
    }

    /// Number of elements in list 0.
    pub fn size(&self) -> (r: usize)
        requires
            self.wf(),
        ensures
            r == self@[0].len(),
    {
        self.size_of(0)
    }

    /// Adds `element` at the tail of list `id`, in a slot taken from the free chain.
    ///
    /// Fails, changing nothing, when no slot is free.
    pub fn enqueue_to(&mut self, id: usize, element: T) -> (r: Result<(), CapacityExceeded>)
        requires
            old(self).wf(),
            id < old(self)@.len(),
        ensures
            final(self).wf(),
            final(self).cap() == old(self).cap(),
            r is Ok <==> old(self).free_count() > 0,
            r is Ok ==> final(self)@ == old(self)@.update(id as int, old(self)@[id as int].push(element)),
            r is Ok ==> final(self).free_count() == old(self).free_count() - 1,
            r is Err ==> final(self)@ == old(self)@,
            r is Err ==> final(self).free_count() == old(self).free_count(),
    {
        let f = match self.free {
            Some(f) => f,
            None => {
                return Err(CapacityExceeded);
            },
        };
        let ghost s = self.slots@[id as int];
        let ghost n = s.len() as int;
        proof {
            assert(self.free_linked(0));
            assert(self.list_ok(id as int));
            lemma_total_len_update(self.slots@, id as int, Seq::empty());
        }
        let next_free = self.heap[f].expect_free();
        let d = self.lists[id];
        match d.ends {
            Sentry::Empty => {
                self.heap.set(f, NodeOption::Occupied { next: None, prev: None, value: element });
                self.lists.set(id, Descriptor { ends: Sentry::Filled { first: f, last: f }, len: 1 });
            },
            Sentry::Filled { first, last } => {
                proof {
                    assert(self.slot_linked(id as int, n - 1));
                }
                match &mut self.heap[last] {
                    NodeOption::Occupied { next, .. } => {
                        *next = Some(f);
                    },
                    NodeOption::Free(_) => {},
                }
                self.heap.set(f, NodeOption::Occupied { next: None, prev: Some(last), value: element });
                self.lists.set(id, Descriptor { ends: Sentry::Filled { first, last: f }, len: d.len + 1 });
            },
        }
        self.free = next_free;
        self.free_len = self.free_len - 1;
        let ghost old_loc = old(self).loc@;
        let ghost new_loc = |x: usize|
            if x == f {
                (id as int, n)
            } else if old_loc(x).0 == -1 {
                (-1int, old_loc(x).1 - 1)
            } else {
                old_loc(x)
            };
        self.slots = Ghost(old(self).slots@.update(id as int, s.push(f)));
        self.free_slots = Ghost(old(self).free_slots@.drop_first());
        self.loc = Ghost(new_loc);
        proof {
            let oh = old(self).heap@;
            let h = self.heap@;
            assert(forall|j: int|
                0 <= j < h.len() && j != f && (n == 0 || j != s[n - 1]) ==> h[j] == oh[j]);
            assert(n > 0 ==> h[s[n - 1] as int] is Occupied && h[s[n - 1] as int]->next == Some(f)
                && h[s[n - 1] as int]->prev == oh[s[n - 1] as int]->prev
                && value_of(h[s[n - 1] as int]) == value_of(oh[s[n - 1] as int]));
            assert(h[f as int] == NodeOption::Occupied {
                next: None,
                prev: if n > 0 { Some(s[n - 1]) } else { None },
                value: element,
            });
            assert forall|l: int| 0 <= l < self.slots@.len() implies #[trigger] self.list_ok(l) by {
                assert(old(self).list_ok(l));
                assert forall|i: int| 0 <= i < self.slots@[l].len() implies #[trigger] self.slot_linked(l, i) by {
                    if l == id && i == n {
                    } else {
                        assert(old(self).slot_linked(l, i));
                        if n > 0 {
                            assert(old(self).slot_linked(id as int, n - 1));
                        }
                    }
                }
            }
            assert forall|k: int| 0 <= k < self.free_slots@.len() implies #[trigger] self.free_linked(k) by {
                assert(old(self).free_linked(k + 1));
                if n > 0 {
                    assert(old(self).slot_linked(id as int, n - 1));
                }
            }
            if self.free_slots@.len() > 0 {
                assert(old(self).free_linked(1));
            }
            lemma_total_len_update(old(self).slots@, id as int, s.push(f));
            assert forall|l: int| 0 <= l < self@.len() implies #[trigger] self@[l] =~= old(self)@.update(
                id as int,
                old(self)@[id as int].push(element),
            )[l] by {
                assert(old(self).list_ok(l));
                assert forall|i: int| 0 <= i < old(self).slots@[l].len() implies value_of(h[#[trigger] old(self).slots@[l][i] as int]) == value_of(oh[old(self).slots@[l][i] as int]) by {
                    assert(old(self).slot_linked(l, i));
                }
            }
            assert(self@ =~= old(self)@.update(id as int, old(self)@[id as int].push(element)));
        }
        Ok(())
    }

    /// Adds `element` at the tail of list 0.
    pub fn enqueue(&mut self, element: T) -> (r: Result<(), CapacityExceeded>)
        requires
            old(self).wf(),
        ensures
            final(self).wf(),
            final(self).cap() == old(self).cap(),
            r is Ok <==> old(self).free_count() > 0,
            r is Ok ==> final(self)@ == old(self)@.update(0, old(self)@[0].push(element)),
            r is Ok ==> final(self).free_count() == old(self).free_count() - 1,
            r is Err ==> final(self)@ == old(self)@,
            r is Err ==> final(self).free_count() == old(self).free_count(),
    {
        self.enqueue_to(0, element)
    }

    /// Removes and returns the head of list `id`; its slot goes back to the free chain.
    ///
    /// Returns `None`, changing nothing, when the list is empty.
    pub fn dequeue_from(&mut self, id: usize) -> (r: Option<T>)
        requires
            old(self).wf(),
            id < old(self)@.len(),
        ensures
            final(self).wf(),
            final(self).cap() == old(self).cap(),
            r is Some <==> old(self)@[id as int].len() > 0,
            r is Some ==> r == Some(old(self)@[id as int][0]),
            r is Some ==> final(self)@ == old(self)@.update(id as int, old(self)@[id as int].drop_first()),
            r is Some ==> final(self).free_count() == old(self).free_count() + 1,
            r is None ==> final(self)@ == old(self)@,
            r is None ==> final(self).free_count() == old(self).free_count(),
    {
        let ghost s = self.slots@[id as int];
        let ghost n = s.len() as int;
        proof {
            assert(self.list_ok(id as int));
            lemma_total_len_update(self.slots@, id as int, Seq::empty());
        }
        let d = self.lists[id];
        let (first, last) = match d.ends {
            Sentry::Empty => {
                return None;
            },
            Sentry::Filled { first, last } => (first, last),
        };
        proof {
            assert(self.slot_linked(id as int, 0));
            if n > 1 {
                assert(self.slot_linked(id as int, 1));
            }
        }
        let mut node = NodeOption::Free(self.free);
        std::mem::swap(&mut self.heap[first], &mut node);
        self.free = Some(first);
        self.free_len = self.free_len + 1;
        let (next, value) = match node {
            NodeOption::Occupied { next, value, .. } => (next, value),
            NodeOption::Free(_) => {
                // unreachable: every slot of a list is occupied
                return None;
            },
        };
        match next {
            Some(nx) => {
                match &mut self.heap[nx] {
                    NodeOption::Occupied { prev, .. } => {
                        *prev = None;
                    },
                    NodeOption::Free(_) => {},
                }
                self.lists.set(id, Descriptor { ends: Sentry::Filled { first: nx, last }, len: d.len - 1 });
            },
            None => {
                self.lists.set(id, Descriptor { ends: Sentry::Empty, len: 0 });
            },
        }
        let ghost old_loc = old(self).loc@;
        let ghost new_loc = |x: usize|
            if x == first {
                (-1int, 0int)
            } else if old_loc(x).0 == -1 {
                (-1int, old_loc(x).1 + 1)
            } else if old_loc(x).0 == id {
                (id as int, old_loc(x).1 - 1)
            } else {
                old_loc(x)
            };
        self.slots = Ghost(old(self).slots@.update(id as int, s.drop_first()));
        self.free_slots = Ghost(seq![first].add(old(self).free_slots@));
        self.loc = Ghost(new_loc);
        proof {
            let oh = old(self).heap@;
            let h = self.heap@;
            assert(forall|j: int|
                0 <= j < h.len() && j != first && (n < 2 || j != s[1]) ==> h[j] == oh[j]);
            assert(n > 1 ==> h[s[1] as int] is Occupied && h[s[1] as int]->next == oh[s[1] as int]->next
                && h[s[1] as int]->prev == None::<usize>
                && value_of(h[s[1] as int]) == value_of(oh[s[1] as int]));
            assert(h[first as int] == NodeOption::<T>::Free(old(self).free));
            assert forall|l: int| 0 <= l < self.slots@.len() implies #[trigger] self.list_ok(l) by {
                assert(old(self).list_ok(l));
                assert forall|i: int| 0 <= i < self.slots@[l].len() implies #[trigger] self.slot_linked(l, i) by {
                    if l == id {
                        assert(old(self).slot_linked(l, i + 1));
                        if i + 2 < n {
                            assert(old(self).slot_linked(l, i + 2));
                        }
                    } else {
                        assert(old(self).slot_linked(l, i));
                    }
                }
            }
            assert forall|k: int| 0 <= k < self.free_slots@.len() implies #[trigger] self.free_linked(k) by {
                if k > 0 {
                    assert(old(self).free_linked(k - 1));
                    if n > 1 {
                        assert(old(self).slot_linked(id as int, 1));
                    }
                } else if old(self).free_slots@.len() > 0 {
                    assert(old(self).free_linked(0));
                }
            }
            lemma_total_len_update(old(self).slots@, id as int, s.drop_first());
            assert forall|l: int| 0 <= l < self@.len() implies #[trigger] self@[l] =~= old(self)@.update(
                id as int,
                old(self)@[id as int].drop_first(),
            )[l] by {
                assert(old(self).list_ok(l));
                assert forall|i: int| 0 <= i < old(self).slots@[l].len() && (l != id || i > 0) implies value_of(h[#[trigger] old(self).slots@[l][i] as int]) == value_of(oh[old(self).slots@[l][i] as int]) by {
                    assert(old(self).slot_linked(l, i));
                }
            }
            assert(self@ =~= old(self)@.update(id as int, old(self)@[id as int].drop_first()));
        }
        Some(value)
    }

    /// Removes and returns the head of list 0.
    pub fn dequeue(&mut self) -> (r: Option<T>)
        requires
            old(self).wf(),
        ensures
            final(self).wf(),
            final(self).cap() == old(self).cap(),
            r is Some <==> old(self)@[0].len() > 0,
            r is Some ==> r == Some(old(self)@[0][0]),
            r is Some ==> final(self)@ == old(self)@.update(0, old(self)@[0].drop_first()),
            r is Some ==> final(self).free_count() == old(self).free_count() + 1,
            r is None ==> final(self)@ == old(self)@,
            r is None ==> final(self).free_count() == old(self).free_count(),
    {
        self.dequeue_from(0)
    }

    /// Opens a new, empty list over the same arena and returns its number.
    pub fn add_list(&mut self) -> (id: usize)
        requires
            old(self).wf(),
            old(self)@.len() < usize::MAX,
        ensures
            final(self).wf(),
            final(self).cap() == old(self).cap(),
            final(self).free_count() == old(self).free_count(),
            id == old(self)@.len(),
            final(self)@ == old(self)@.push(Seq::empty()),
    {
        self.lists.push(Descriptor { ends: Sentry::Empty, len: 0 });
        self.slots = Ghost(old(self).slots@.push(Seq::empty()));
        proof {
            assert forall|l: int| 0 <= l < self.slots@.len() implies #[trigger] self.list_ok(l) by {
                if l < old(self).slots@.len() {
                    assert(old(self).list_ok(l));
                    assert forall|i: int| 0 <= i < self.slots@[l].len() implies #[trigger] self.slot_linked(l, i) by {
                        assert(old(self).slot_linked(l, i));
                    }
                }
            }
            assert forall|k: int| 0 <= k < self.free_slots@.len() implies #[trigger] self.free_linked(k) by {
                assert(old(self).free_linked(k));
            }
            assert(self.slots@.drop_last() =~= old(self).slots@);
            assert(self@[old(self)@.len() as int] =~= Seq::<T>::empty());
            assert forall|l: int| 0 <= l < old(self)@.len() implies #[trigger] self@[l] == old(self)@[l] by {
                assert(self.slots@[l] == old(self).slots@[l]);
            }
            assert(self@ =~= old(self)@.push(Seq::empty()));
        }
        self.lists.len() - 1
    }

    /// The slot that follows position `i` of list `l`.
    fn successor(&self, idx: usize, Ghost(l): Ghost<int>, Ghost(i): Ghost<int>) -> (r: usize)
        requires
            self.wf(),
            0 <= l < self.slots@.len(),
            0 <= i,
            i + 1 < self.slots@[l].len(),
            self.slots@[l][i] == idx,
        ensures
            r == self.slots@[l][i + 1],
    {
        proof {
            assert(self.list_ok(l));
            assert(self.slot_linked(l, i));
        }
        match &self.heap[idx] {
            NodeOption::Occupied { next: Some(nx), .. } => *nx,
            _ => idx,
        }
    }

    /// The forward and backward links of an occupied slot.
    fn links(&self, idx: usize) -> (r: (Option<usize>, Option<usize>))
        requires
            idx < self.heap@.len(),
            self.heap@[idx as int] is Occupied,
        ensures
            r == (self.heap@[idx as int]->next, self.heap@[idx as int]->prev),
    {
        match &self.heap[idx] {
            NodeOption::Occupied { next, prev, .. } => (*next, *prev),
            NodeOption::Free(_) => (None, None),
        }
    }

    /// The slot `steps` places after position `i` of list `l`.
    fn walk(&self, from: usize, Ghost(l): Ghost<int>, Ghost(i): Ghost<int>, steps: usize) -> (r: usize)
        requires
            self.wf(),
            0 <= l < self.slots@.len(),
            0 <= i,
            i + steps < self.slots@[l].len(),
            self.slots@[l][i] == from,
        ensures
            r == self.slots@[l][i + steps],
    {
        let mut cur = from;
        let mut k: usize = 0;
        while k < steps
            invariant
                self.wf(),
                0 <= l < self.slots@.len(),
                0 <= i,
                i + steps < self.slots@[l].len(),
                k <= steps,
                cur == self.slots@[l][i + k],
            decreases steps - k,
        {
            cur = self.successor(cur, Ghost(l), Ghost(i + k));
            k = k + 1;
        }
        cur
    }

    /// Moves the elements at positions `start .. start + count` of list `src`
    /// to the tail of list `dst`, keeping their order.
    ///
    /// Only the links at the two ends of the moved run, and at the tail of
    /// `dst`, are rewritten: no slot is allocated or freed, and the free chain
    /// is untouched. Content already in `dst` stays where it was. Finding the
    /// run walks `start + count` links of `src`.
    ///
    /// Fails, changing nothing, when `src == dst`, when `count` is zero, or
    /// when the run does not lie within `src`.
    #[verifier::rlimit(50)]
    pub fn splice(&mut self, src: usize, start: usize, count: usize, dst: usize) -> (r: Result<(), SpliceError>)
        requires
            old(self).wf(),
            src < old(self)@.len(),
            dst < old(self)@.len(),
        ensures
            final(self).wf(),
            final(self).cap() == old(self).cap(),
            final(self).free_count() == old(self).free_count(),
            src == dst ==> r == Err::<(), SpliceError>(SpliceError::SameList),
            src != dst && (count == 0 || start + count > old(self)@[src as int].len()) ==> r == Err::<(), SpliceError>(
                SpliceError::InvalidRange,
            ),
            src != dst && count > 0 && start + count <= old(self)@[src as int].len() ==> r is Ok,
            r is Err ==> final(self)@ == old(self)@,
            r is Ok ==> final(self)@ == old(self)@.update(
                src as int,
                without_range(old(self)@[src as int], start as int, count as int),
            ).update(dst as int, old(self)@[dst as int] + range_of(old(self)@[src as int], start as int, count as int)),
    {
        if src == dst {
            return Err(SpliceError::SameList);
        }
        let d = self.lists[src];
        let dd = self.lists[dst];
        proof {
            assert(self.list_ok(src as int));
            assert(self.list_ok(dst as int));
        }
        if count == 0 || count > d.len || start > d.len - count {
            return Err(SpliceError::InvalidRange);
        }
        let ghost s = self.slots@[src as int];
        let ghost t = self.slots@[dst as int];
        let ghost n = s.len() as int;
        let ghost tn = t.len() as int;
        let ghost e = start + count - 1;
        let (sf, sl) = match d.ends {
            Sentry::Filled { first, last } => (first, last),
            Sentry::Empty => {
                // unreachable: the source holds at least `count` elements
                return Err(SpliceError::InvalidRange);
            },
        };
        let a = self.walk(sf, Ghost(src as int), Ghost(0), start);
        let b = self.walk(a, Ghost(src as int), Ghost(start as int), count - 1);
        proof {
            assert(self.slot_linked(src as int, start as int));
            assert(self.slot_linked(src as int, e));
            if start > 0 {
                assert(self.slot_linked(src as int, start - 1));
            }
            if e + 1 < n {
                assert(self.slot_linked(src as int, e + 1));
            }
            if tn > 0 {
                assert(self.slot_linked(dst as int, tn - 1));
            }
            lemma_total_len_update(self.slots@, src as int, Seq::empty());
            lemma_total_len_update(self.slots@.update(src as int, Seq::empty()), dst as int, Seq::empty());
        }
        let (_, p) = self.links(a);
        let (nxt, _) = self.links(b);
        match p {
            Some(pi) => set_next(&mut self.heap, pi, nxt),
            None => {},
        }
        match nxt {
            Some(ni) => set_prev(&mut self.heap, ni, p),
            None => {},
        }
        let src_ends = match (p, nxt) {
            (None, None) => Sentry::Empty,
            (None, Some(ni)) => Sentry::Filled { first: ni, last: sl },
            (Some(pi), None) => Sentry::Filled { first: sf, last: pi },
            (Some(_), Some(_)) => Sentry::Filled { first: sf, last: sl },
        };
        self.lists.set(src, Descriptor { ends: src_ends, len: d.len - count });
        let dst_ends = match dd.ends {
            Sentry::Empty => {
                set_prev(&mut self.heap, a, None);
                Sentry::Filled { first: a, last: b }
            },
            Sentry::Filled { first: df, last: dl } => {
                set_next(&mut self.heap, dl, Some(a));
                set_prev(&mut self.heap, a, Some(dl));
                Sentry::Filled { first: df, last: b }
            },
        };
        set_next(&mut self.heap, b, None);
        self.lists.set(dst, Descriptor { ends: dst_ends, len: dd.len + count });
        let ghost old_loc = old(self).loc@;
        let ghost new_loc = |x: usize|
            if old_loc(x).0 == src as int {
                if old_loc(x).1 < start {
                    old_loc(x)
                } else if old_loc(x).1 <= e {
                    (dst as int, tn + old_loc(x).1 - start)
                } else {
                    (src as int, old_loc(x).1 - count)
                }
            } else {
                old_loc(x)
            };
        let ghost ns = without_range(s, start as int, count as int);
        let ghost nt = t + range_of(s, start as int, count as int);
        self.slots = Ghost(old(self).slots@.update(src as int, ns).update(dst as int, nt));
        self.loc = Ghost(new_loc);
        proof {
            let oh = old(self).heap@;
            let h = self.heap@;
            assert(forall|j: int|
                0 <= j < h.len() && j != a && j != b && (start == 0 || j != s[start - 1])
                    && (e + 1 >= n || j != s[e + 1]) && (tn == 0 || j != t[tn - 1]) ==> h[j] == oh[j]);
            assert(forall|j: int|
                0 <= j < h.len() && #[trigger] oh[j] is Occupied ==> h[j] is Occupied && value_of(h[j])
                    == value_of(oh[j]));
            assert(self.ends_ok(src as int));
            assert(self.ends_ok(dst as int));
            Self::lemma_splice_relinked(*old(self), *self, src as int, dst as int, start as int, count as int);
        }
        Ok(())
    }

    /// The state of the arena after a splice of `count` elements at `start` of
    /// list `src` onto list `dst` has rewritten the boundary links, before the
    /// invariant is shown again.
    spec fn splice_relinked(pre: Self, post: Self, src: int, dst: int, start: int, count: int) -> bool {
        &&& pre.wf()
        &&& 0 <= src < pre.slots@.len()
        &&& 0 <= dst < pre.slots@.len()
        &&& src != dst
        &&& 0 < count
        &&& 0 <= start
        &&& start + count <= pre.slots@[src].len()
        &&& post.heap@.len() == pre.heap@.len()
        &&& post.free_slots == pre.free_slots
        &&& post.free == pre.free
        &&& post.free_len == pre.free_len
        &&& post.lists@.len() == pre.lists@.len()
        &&& forall|l: int| 0 <= l < pre.lists@.len() && l != src && l != dst ==> post.lists@[l] == pre.lists@[l]
        &&& post.slots@ == pre.slots@.update(src, without_range(pre.slots@[src], start, count)).update(
                    dst,
                    pre.slots@[dst] + range_of(pre.slots@[src], start, count),
                )
        &&& post.ends_ok(src)
        &&& post.ends_ok(dst)
        &&& forall|x: usize|
                    #[trigger] (post.loc@)(x) == if (pre.loc@)(x).0 == src {
                        if (pre.loc@)(x).1 < start {
                            (pre.loc@)(x)
                        } else if (pre.loc@)(x).1 < start + count {
                            (dst, pre.slots@[dst].len() + (pre.loc@)(x).1 - start)
                        } else {
                            (src, (pre.loc@)(x).1 - count)
                        }
                    } else {
                        (pre.loc@)(x)
                    }
        &&& ({
                    let s = pre.slots@[src];
                    let t = pre.slots@[dst];
                    let n = s.len() as int;
                    let tn = t.len() as int;
                    let e = start + count - 1;
                    let oh = pre.heap@;
                    let h = post.heap@;
                    &&& forall|j: int|
                        0 <= j < h.len() && j != s[start] && j != s[e] && (start == 0 || j != s[start - 1])
                            && (e + 1 >= n || j != s[e + 1]) && (tn == 0 || j != t[tn - 1]) ==> h[j] == oh[j]
                    &&& forall|j: int|
                        0 <= j < h.len() && #[trigger] oh[j] is Occupied ==> h[j] is Occupied && value_of(h[j])
                            == value_of(oh[j])
                    &&& start > 0 ==> h[s[start - 1] as int]->next == (if e + 1 < n { Some(s[e + 1]) } else { None::<usize> })
                        && h[s[start - 1] as int]->prev == oh[s[start - 1] as int]->prev
                    &&& e + 1 < n ==> h[s[e + 1] as int]->prev == (if start > 0 { Some(s[start - 1]) } else { None::<usize> })
                        && h[s[e + 1] as int]->next == oh[s[e + 1] as int]->next
                    &&& tn > 0 ==> h[t[tn - 1] as int]->next == Some(s[start]) && h[t[tn - 1] as int]->prev == oh[t[tn - 1] as int]->prev
                    &&& h[s[start] as int]->prev == (if tn > 0 { Some(t[tn - 1]) } else { None::<usize> })
                    &&& count > 1 ==> h[s[start] as int]->next == oh[s[start] as int]->next
                    &&& h[s[e] as int]->next == None::<usize>
                    &&& count > 1 ==> h[s[e] as int]->prev == oh[s[e] as int]->prev
                })
    }

    /// The list that gave up the run is linked again.
    #[verifier::rlimit(50)]
    proof fn lemma_splice_source(pre: Self, post: Self, src: int, dst: int, start: int, count: int)
        requires
            Self::splice_relinked(pre, post, src, dst, start, count),
        ensures
            forall|i: int| 0 <= i < post.slots@[src].len() ==> #[trigger] post.slot_linked(src, i),
    {
        let s = pre.slots@[src];
        let t = pre.slots@[dst];
        let tn = t.len() as int;
        let e = start + count - 1;
        assert(pre.list_ok(src));
        assert(pre.list_ok(dst));
        assert forall|i: int| 0 <= i < post.slots@[src].len() implies #[trigger] post.slot_linked(src, i) by {
            if i < start {
                assert(pre.slot_linked(src, i));
            } else {
                assert(pre.slot_linked(src, i + count));
            }
            if i + 1 < start {
                assert(pre.slot_linked(src, i + 1));
            }
            if start > 0 {
                assert(pre.slot_linked(src, start - 1));
            }
            assert(pre.slot_linked(src, start));
            assert(pre.slot_linked(src, e));
            if e + 1 < s.len() {
                assert(pre.slot_linked(src, e + 1));
            }
            if tn > 0 {
                assert(pre.slot_linked(dst, tn - 1));
            }
            assert(post.slot_linked(src, i));
        }
    }

    /// The list that took the run is linked again.
    #[verifier::rlimit(50)]
    proof fn lemma_splice_target(pre: Self, post: Self, src: int, dst: int, start: int, count: int)
        requires
            Self::splice_relinked(pre, post, src, dst, start, count),
        ensures
            forall|i: int| 0 <= i < post.slots@[dst].len() ==> #[trigger] post.slot_linked(dst, i),
    {
        let s = pre.slots@[src];
        let t = pre.slots@[dst];
        let tn = t.len() as int;
        let e = start + count - 1;
        let nt = t + range_of(s, start, count);
        assert(pre.list_ok(src));
        assert(pre.list_ok(dst));
        assert forall|i: int| 0 <= i < post.slots@[dst].len() implies #[trigger] post.slot_linked(dst, i) by {
            assert(pre.slot_linked(src, start));
            assert(pre.slot_linked(src, e));
            if start > 0 {
                assert(pre.slot_linked(src, start - 1));
            }
            if e + 1 < s.len() {
                assert(pre.slot_linked(src, e + 1));
            }
            assert(nt.len() == tn + count);
            assert(forall|k: int| 0 <= k < tn ==> nt[k] == t[k]);
            assert(forall|k: int| tn <= k < tn + count ==> nt[k] == s[k - tn + start]);
            assert(post.slots@[dst] == nt);
            if i < tn {
                assert(pre.slot_linked(dst, i));
                assert(pre.slot_linked(dst, tn - 1));
            } else {
                assert(pre.slot_linked(src, i - tn + start));
                if i - tn + start + 1 <= e {
                    assert(pre.slot_linked(src, i - tn + start + 1));
                }
                if i > tn {
                    assert(pre.slot_linked(src, i - tn + start - 1));
                }
                if tn > 0 {
                    assert(pre.slot_linked(dst, tn - 1));
                }
            }
            assert(post.slot_linked(dst, i));
        }
    }

    /// After a splice has rewritten the boundary links, the arena is consistent
    /// again and every list holds what the splice promises.
    #[verifier::rlimit(50)]
    proof fn lemma_splice_relinked(pre: Self, post: Self, src: int, dst: int, start: int, count: int)
        requires
            Self::splice_relinked(pre, post, src, dst, start, count),
        ensures
            post.wf(),
            post@ == pre@.update(src, without_range(pre@[src], start, count)).update(
                dst,
                pre@[dst] + range_of(pre@[src], start, count),
            ),
    {
        let s = pre.slots@[src];
        let t = pre.slots@[dst];
        let tn = t.len() as int;
        let e = start + count - 1;
        let ns = without_range(s, start, count);
        let nt = t + range_of(s, start, count);
        assert(pre.list_ok(src));
        assert(pre.list_ok(dst));
        Self::lemma_splice_source(pre, post, src, dst, start, count);
        Self::lemma_splice_target(pre, post, src, dst, start, count);
        assert forall|l: int| 0 <= l < post.slots@.len() implies #[trigger] post.list_ok(l) by {
            assert(pre.list_ok(l));
            if l != src && l != dst {
                assert forall|i: int| 0 <= i < post.slots@[l].len() implies #[trigger] post.slot_linked(l, i) by {
                    assert(pre.slot_linked(l, i));
                    assert(pre.slot_linked(src, start));
                    assert(pre.slot_linked(src, e));
                    if start > 0 {
                        assert(pre.slot_linked(src, start - 1));
                    }
                    if e + 1 < s.len() {
                        assert(pre.slot_linked(src, e + 1));
                    }
                    if tn > 0 {
                        assert(pre.slot_linked(dst, tn - 1));
                    }
                }
            }
        }
        assert forall|k: int| 0 <= k < post.free_slots@.len() implies #[trigger] post.free_linked(k) by {
            assert(pre.free_linked(k));
            assert(pre.slot_linked(src, start));
            assert(pre.slot_linked(src, e));
            if start > 0 {
                assert(pre.slot_linked(src, start - 1));
            }
            if e + 1 < s.len() {
                assert(pre.slot_linked(src, e + 1));
            }
            if tn > 0 {
                assert(pre.slot_linked(dst, tn - 1));
            }
        }
        lemma_total_len_update(pre.slots@, src, ns);
        lemma_total_len_update(pre.slots@.update(src, ns), dst, nt);
        let want = pre@.update(src, without_range(pre@[src], start, count)).update(
            dst,
            pre@[dst] + range_of(pre@[src], start, count),
        );
        assert forall|l: int| 0 <= l < post@.len() implies #[trigger] post@[l] =~= want[l] by {
            assert(pre.list_ok(l));
            assert forall|i: int| 0 <= i < post@[l].len() implies #[trigger] post@[l][i] == want[l][i] by {
                if l == src {
                    if i < start {
                        assert(pre.slot_linked(l, i));
                    } else {
                        assert(pre.slot_linked(l, i + count));
                    }
                } else if l == dst {
                    if i < tn {
                        assert(pre.slot_linked(l, i));
                    } else {
                        assert(pre.slot_linked(src, i - tn + start));
                    }
                } else {
                    assert(pre.slot_linked(l, i));
                }
            }
        }
        assert(post@ =~= want);
    }
}

} // verus!
