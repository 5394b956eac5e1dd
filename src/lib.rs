//! A colony: an unordered container that hands out a stable handle for each element it
//! stores. Removing an element moves no other element, so every other handle stays
//! valid, and iteration jumps over runs of removed slots with a jump-counting skipfield.
use vstd::prelude::*;

pub mod count;
pub mod free_list;
pub mod guard;
pub mod index_opt;
pub mod iter;
pub mod skipfield;

pub use guard::{CheckedGuard, FlagGuard, Generation, GenerationGuard, Guard, Handle, NoGuard, Sealed};
pub use iter::{Iter, IterMut, RawIter, Values, ValuesMut};

use count::{
    occupied_from, lemma_occupied_from, live_values, lemma_live_values_fill, lemma_live_values_push, count_some, lemma_count_from, lemma_count_skip_nones, lemma_count_some_bound, lemma_count_some_push,
    lemma_count_some_update,
};
use free_list::{
    free_ok, guards_ok, head_at, lemma_contains_after_push, lemma_contains_after_remove, lemma_contains_after_update,
    lemma_fill_heads_complete, lemma_fill_heads_listed, lemma_first_gone, lemma_links_frame, lemma_remove_heads,
    lemma_replace_links, lemma_unlink_links, links_ok, next_in, prev_in, same_but, same_shape,
};
use index_opt::IndexOpt;
use vstd::multiset::Multiset;
use vstd::pervasive::cloned;
use skipfield::{is_block, SkipfieldPtr};

verus! {

/// A colony that uses [`FlagGuard`].
pub type FlaggedColony<T> = Colony<T, FlagGuard>;

/// A colony that uses [`NoGuard`].
pub type UnguardedColony<T> = Colony<T, NoGuard>;

/// The largest capacity a colony can have.
pub const MAX_CAPACITY: usize = isize::MAX as usize;

/// The contents of a slot: an element, or a node of the list of free skipblocks.
pub enum SlotInner<T> {
    Occupied(T),
    Unoccupied(Unoccupied),
}

/// A node of the doubly linked list of free skipblocks, kept in the block's first slot.
#[derive(Copy, Clone)]
pub struct Unoccupied {
    pub prev: IndexOpt,
    pub next: IndexOpt,
}

/// One storage cell of a colony, with its guard.
pub struct Slot<T, G> {
    guard: G,
    inner: SlotInner<T>,
}

impl<T, G> Slot<T, G> {
    /// The element held, if any.
    pub closed spec fn value(&self) -> Option<T> {
        match self.inner {
            SlotInner::Occupied(v) => Some(v),
            SlotInner::Unoccupied(_) => None,
        }
    }

    /// The free-list links held, if the slot is unoccupied.
    pub closed spec fn links(&self) -> Option<(Option<usize>, Option<usize>)> {
        match self.inner {
            SlotInner::Occupied(_) => None,
            SlotInner::Unoccupied(u) => Some((u.prev@, u.next@)),
        }
    }

    /// The slot's guard.
    pub closed spec fn guard_spec(&self) -> G {
        self.guard
    }
}

impl<T, G: Guard> Slot<T, G> {
    /// The element of an occupied slot.
    pub fn occupied(&self) -> (r: &T)
        requires
            self.value() is Some,
        ensures
            *r == self.value()->0,
    {
        match &self.inner {
            SlotInner::Occupied(v) => v,
            SlotInner::Unoccupied(_) => vstd::pervasive::unreached(),
        }
    }

    /// Whether the slot holds an element.
    pub fn is_occupied(&self) -> (r: bool)
        ensures
            r == self.value() is Some,
    {
        match &self.inner {
            SlotInner::Occupied(_) => true,
            SlotInner::Unoccupied(_) => false,
        }
    }

    /// The links of an unoccupied slot.
    pub fn unoccupied(&self) -> (r: Unoccupied)
        requires
            self.value() is None,
        ensures
            self.links() == Some((r.prev@, r.next@)),
    {
        match &self.inner {
            SlotInner::Occupied(_) => vstd::pervasive::unreached(),
            SlotInner::Unoccupied(u) => *u,
        }
    }

    /// A slot holding `value` beside a new guard.
    pub fn new_full(value: T) -> (r: Self)
        ensures
            r.value() == Some(value),
            r.guard_spec() == G::initial(),
            r.guard_spec().wf(),
            r.guard_spec().filled(),
            !r.guard_spec().retired(),
    {
        Slot { guard: G::__new(), inner: SlotInner::Occupied(value) }
    }

    /// Stores `value` in an unoccupied slot, moving its guard on.
    pub fn fill(&mut self, value: T)
        requires
            old(self).value() is None,
            old(self).guard_spec().wf(),
            old(self).guard_spec().emptied(),
            !old(self).guard_spec().retired(),
        ensures
            final(self).value() == Some(value),
            final(self).guard_spec() == old(self).guard_spec().after_fill(),
            final(self).guard_spec().wf(),
            final(self).guard_spec().filled(),
    {
        self.guard.__fill();
        self.inner = SlotInner::Occupied(value);
    }

    /// Takes the element out of an occupied slot, leaving an unlinked node. Also returns
    /// whether the slot may be used again.
    pub fn empty(&mut self) -> (r: (T, bool))
        requires
            old(self).value() is Some,
            old(self).guard_spec().wf(),
            old(self).guard_spec().filled(),
        ensures
            r.0 == old(self).value()->0,
            final(self).value() is None,
            final(self).links() == Some((None::<usize>, None::<usize>)),
            final(self).guard_spec() == old(self).guard_spec().after_empty(),
            final(self).guard_spec().wf(),
            final(self).guard_spec().emptied(),
            r.1 == !final(self).guard_spec().retired(),
    {
        let mut inner = SlotInner::Unoccupied(Unoccupied { prev: IndexOpt::none(), next: IndexOpt::none() });
        std::mem::swap(&mut self.inner, &mut inner);
        let value = match inner {
            SlotInner::Occupied(v) => v,
            SlotInner::Unoccupied(_) => vstd::pervasive::unreached(),
        };
        let reuse = self.guard.__empty();
        (value, reuse)
    }
}


/// The smallest capacity of a colony that allocated, by the size of its elements.
pub open spec fn min_non_zero_cap<T>() -> nat {
    if vstd::layout::size_of::<T>() == 1 {
        8
    } else if vstd::layout::size_of::<T>() <= 1024 {
        4
    } else {
        1
    }
}


/// The capacity after growing a colony of `len` elements and capacity `capacity` to hold
/// `additional` more: the most of what is asked, double the capacity and the smallest
/// non-zero capacity, but no more than the largest capacity.
pub open spec fn grown_capacity<T>(len: nat, capacity: nat, additional: nat) -> nat {
    let wanted = vstd::math::max(
        vstd::math::max((len + additional) as int, 2 * capacity as int),
        min_non_zero_cap::<T>() as int,
    );
    vstd::math::min(wanted, MAX_CAPACITY as int) as nat
}

/// The free list after an insertion into `c`: the first node leaves, and the next slot of
/// its block takes its place if that slot is empty and may be reused.
pub open spec fn free_list_after_insertion<T, G: Guard>(c: Colony<T, G>) -> Seq<usize> {
    let f0 = c.free_list();
    if f0.len() == 0 {
        f0
    } else {
        let f = f0[0] as int;
        if f + 1 < c.slots().len() && c.slots()[f + 1] is None && !c.guards()[f + 1].retired() {
            f0.update(0, (f + 1) as usize)
        } else {
            f0.remove(0)
        }
    }
}

/// The free list after the slot `index` of `c` is emptied: the block on the right, if any,
/// loses its head `index + 1`, which `index` replaces where it heads the merged block and
/// may be reused; otherwise `index` goes to the front where it heads a block of its own.
pub open spec fn free_list_after_removal<T, G: Guard>(c: Colony<T, G>, index: int) -> Seq<usize> {
    let f0 = c.free_list();
    let has_left = index > 0 && c.slots()[index - 1] is None;
    let has_right = index + 1 < c.slots().len() && c.slots()[index + 1] is None;
    let reuse = !c.guards()[index].after_empty().retired();
    if has_right && !c.guards()[index + 1].retired() {
        let k = choose|k: int| 0 <= k < f0.len() && f0[k] == index + 1;
        if reuse && !has_left {
            f0.update(k, index as usize)
        } else {
            f0.remove(k)
        }
    } else if reuse && !has_left {
        seq![index as usize].add(f0)
    } else {
        f0
    }
}

/// A container of `T` values with stable handles; `G` decides what a handle is.
///
/// Slots `[0, touched)` have been used, each holding an element or a free-list node;
/// positions past `touched` up to the capacity are not in use yet.
pub struct Colony<T, G: Guard = GenerationGuard> {
    // The slots `[0, touched)`.
    elements: Vec<Slot<T, G>>,
    // One position per allocated slot; the empty slots in use are skipped.
    skipfield: SkipfieldPtr,
    capacity: usize,
    touched: usize,
    len: usize,
    // The first node of the free list.
    next_free: IndexOpt,
    id: G::__Id,
    // The nodes of the free list, in list order.
    free_list: Ghost<Seq<usize>>,
}

impl<T, G: Guard> Colony<T, G> {
    /// The element of each slot in use, `None` where the slot is empty, by index.
    pub closed spec fn slots(&self) -> Seq<Option<T>> {
        Seq::new(self.elements@.len(), |i: int| self.elements@[i].value())
    }

    /// The guard of each slot in use, by index.
    pub closed spec fn guards(&self) -> Seq<G> {
        Seq::new(self.elements@.len(), |i: int| self.elements@[i].guard_spec())
    }

    /// The colony's identity.
    pub closed spec fn colony_id(&self) -> G::__Id {
        self.id
    }

    /// The number of elements.
    pub closed spec fn spec_len(&self) -> nat {
        self.len as nat
    }

    /// The number of slots allocated.
    pub closed spec fn spec_capacity(&self) -> nat {
        self.capacity as nat
    }

    /// The heads of the reusable free skipblocks, in list order.
    pub closed spec fn free_list(&self) -> Seq<usize> {
        self.free_list@
    }

    /// `h` is the first slot of a run of empty slots, and not retired.
    pub closed spec fn is_free_head(&self, h: int) -> bool {
        head_at(self.elements@, h)
    }

    /// The index that the next insertion takes.
    pub open spec fn insert_index(&self) -> int {
        if self.free_list().len() > 0 {
            self.free_list()[0] as int
        } else {
            self.slots().len() as int
        }
    }

    /// `handle` names an occupied slot and passes its guard's check.
    pub open spec fn valid_handle(&self, handle: G::Handle) -> bool where G: CheckedGuard {
        let i = G::index_of(handle);
        &&& 0 <= i < self.slots().len()
        &&& self.guards()[i].check_spec(handle, self.colony_id())
        &&& self.slots()[i] is Some
    }

    /// Lengths, the skipfield and the count of elements agree with the slots.
    pub closed spec fn wf_storage(&self) -> bool {
        let e = self.elements@;
        &&& e.len() == self.touched
        &&& self.touched <= self.capacity <= MAX_CAPACITY
        &&& self.len <= self.touched
        &&& self.skipfield.wf()
        &&& self.skipfield@.len() == self.capacity
        &&& forall|i: int|
            0 <= i < self.capacity ==> #[trigger] self.skipfield@[i] == (i < self.touched && e[i].value() is None)
        &&& self.len == count_some(self.slots())
    }

    /// Every guard is in range and in the state its slot asks for.
    pub closed spec fn wf_guards(&self) -> bool {
        guards_ok(self.elements@)
    }

    /// The free list links exactly the free heads.
    pub closed spec fn wf_free(&self) -> bool {
        free_ok(self.elements@, self.free_list@, self.next_free@)
    }

    /// The colony's internal invariant.
    pub closed spec fn wf(&self) -> bool {
        &&& self.wf_storage()
        &&& self.wf_guards()
        &&& self.wf_free()
    }

    /// Everything but the slots and the free list is the same.
    pub closed spec fn same_frame(&self, other: &Self) -> bool {
        &&& self.skipfield == other.skipfield
        &&& self.capacity == other.capacity
        &&& self.touched == other.touched
        &&& self.len == other.len
        &&& self.id == other.id
    }

    /// Sets the links of the unoccupied slot `i`.
    fn set_links(&mut self, i: usize, prev: IndexOpt, next: IndexOpt)
        requires
            i < old(self).elements@.len(),
            old(self).elements@[i as int].value() is None,
        ensures
            final(self).same_frame(old(self)),
            final(self).next_free == old(self).next_free,
            final(self).free_list == old(self).free_list,
            final(self).elements@.len() == old(self).elements@.len(),
            forall|j: int| 0 <= j < old(self).elements@.len() && j != i ==> final(self).elements@[j] == old(self).elements@[j],
            final(self).elements@[i as int].guard_spec() == old(self).elements@[i as int].guard_spec(),
            final(self).elements@[i as int].value() is None,
            final(self).elements@[i as int].links() == Some((prev@, next@)),
    {
        self.elements[i].inner = SlotInner::Unoccupied(Unoccupied { prev, next });
    }

    /// Sets the `prev` link of the unoccupied slot `i`.
    fn set_prev(&mut self, i: usize, prev: IndexOpt)
        requires
            i < old(self).elements@.len(),
            old(self).elements@[i as int].value() is None,
        ensures
            final(self).same_frame(old(self)),
            final(self).next_free == old(self).next_free,
            final(self).free_list == old(self).free_list,
            final(self).elements@.len() == old(self).elements@.len(),
            forall|j: int| 0 <= j < old(self).elements@.len() && j != i ==> final(self).elements@[j] == old(self).elements@[j],
            final(self).elements@[i as int].guard_spec() == old(self).elements@[i as int].guard_spec(),
            final(self).elements@[i as int].value() is None,
            final(self).elements@[i as int].links() == Some((prev@, (old(self).elements@[i as int].links()->0).1)),
    {
        let u = self.elements[i].unoccupied();
        self.set_links(i, prev, u.next);
    }

    /// Sets the `next` link of the unoccupied slot `i`.
    fn set_next(&mut self, i: usize, next: IndexOpt)
        requires
            i < old(self).elements@.len(),
            old(self).elements@[i as int].value() is None,
        ensures
            final(self).same_frame(old(self)),
            final(self).next_free == old(self).next_free,
            final(self).free_list == old(self).free_list,
            final(self).elements@.len() == old(self).elements@.len(),
            forall|j: int| 0 <= j < old(self).elements@.len() && j != i ==> final(self).elements@[j] == old(self).elements@[j],
            final(self).elements@[i as int].guard_spec() == old(self).elements@[i as int].guard_spec(),
            final(self).elements@[i as int].value() is None,
            final(self).elements@[i as int].links() == Some(((old(self).elements@[i as int].links()->0).0, next@)),
    {
        let u = self.elements[i].unoccupied();
        self.set_links(i, u.prev, next);
    }

    /// Takes the node `h`, at position `k` of the free list, out of the list.
    fn remove_skipblock_from_skiplist(&mut self, h: usize, Ghost(k): Ghost<int>)
        requires
            links_ok(old(self).elements@, old(self).free_list@, old(self).next_free@),
            0 <= k < old(self).free_list@.len(),
            old(self).free_list@[k] == h,
            old(self).touched <= MAX_CAPACITY,
            old(self).elements@.len() == old(self).touched,
        ensures
            final(self).same_frame(old(self)),
            same_shape(old(self).elements@, final(self).elements@),
            final(self).free_list@ == old(self).free_list@.remove(k),
            links_ok(final(self).elements@, final(self).free_list@, final(self).next_free@),
    {
        let ghost free = self.free_list@;
        let ghost e0 = self.elements@;
        assert(free[k] < e0.len());
        let u = self.elements[h].unoccupied();
        match u.prev.as_opt() {
            Some(p) => {
                assert(p == free[k - 1]);
                self.set_next(p, u.next);
            },
            None => {
                self.next_free = u.next;
            },
        }
        match u.next.as_opt() {
            Some(n) => {
                assert(n == free[k + 1]);
                assert(k == 0 || n != free[k - 1]);
                self.set_prev(n, u.prev);
            },
            None => {},
        }
        let ghost free2 = free.remove(k);
        self.free_list = Ghost(free2);
        proof {
            lemma_unlink_links(e0, self.elements@, free, k, self.next_free@);
        }
    }

    /// Puts the unoccupied slot `h`, not in the free list, at the front of the list.
    fn add_skipblock_to_skiplist(&mut self, h: usize)
        requires
            links_ok(old(self).elements@, old(self).free_list@, old(self).next_free@),
            h < old(self).elements@.len(),
            old(self).elements@[h as int].value() is None,
            !old(self).free_list@.contains(h),
            old(self).touched <= MAX_CAPACITY,
            old(self).elements@.len() == old(self).touched,
        ensures
            final(self).same_frame(old(self)),
            same_shape(old(self).elements@, final(self).elements@),
            final(self).free_list@ == seq![h].add(old(self).free_list@),
            links_ok(final(self).elements@, final(self).free_list@, final(self).next_free@),
    {
        let ghost free = self.free_list@;
        let old_head = self.next_free;
        self.set_links(h, IndexOpt::none(), old_head);
        match old_head.as_opt() {
            Some(o) => {
                assert(o == free[0]);
                self.set_prev(o, IndexOpt::some(h));
            },
            None => {},
        }
        self.next_free = IndexOpt::some(h);
        let ghost free2 = seq![h].add(free);
        self.free_list = Ghost(free2);
        proof {
            let e = self.elements@;
            assert forall|j: int| 0 <= j < free2.len() implies #[trigger] free2[j] < e.len() && e[free2[j] as int].links()
                == Some((prev_in(free2, j), next_in(free2, j))) by {
                if j > 0 {
                    assert(free2[j] == free[j - 1]);
                }
            }
            assert(free2.no_duplicates());
        }
    }

    /// Puts the unoccupied slot `h2`, not in the free list, in the place of the node `h` at
    /// position `k` of the list.
    #[verifier::rlimit(50)]
    fn replace_skipblock_in_skiplist(&mut self, h: usize, Ghost(k): Ghost<int>, h2: usize)
        requires
            links_ok(old(self).elements@, old(self).free_list@, old(self).next_free@),
            0 <= k < old(self).free_list@.len(),
            old(self).free_list@[k] == h,
            h2 < old(self).elements@.len(),
            old(self).elements@[h2 as int].value() is None,
            !old(self).free_list@.contains(h2),
            old(self).touched <= MAX_CAPACITY,
            old(self).elements@.len() == old(self).touched,
        ensures
            final(self).same_frame(old(self)),
            same_shape(old(self).elements@, final(self).elements@),
            final(self).free_list@ == old(self).free_list@.update(k, h2),
            links_ok(final(self).elements@, final(self).free_list@, final(self).next_free@),
    {
        let ghost free = self.free_list@;
        let ghost e0 = self.elements@;
        assert(free[k] < self.elements@.len());
        let u = self.elements[h].unoccupied();
        self.set_links(h2, u.prev, u.next);
        match u.prev.as_opt() {
            Some(p) => {
                assert(p == free[k - 1]);
                self.set_next(p, IndexOpt::some(h2));
            },
            None => {
                self.next_free = IndexOpt::some(h2);
            },
        }
        match u.next.as_opt() {
            Some(n) => {
                assert(n == free[k + 1]);
                assert(k == 0 || n != free[k - 1]);
                self.set_prev(n, IndexOpt::some(h2));
            },
            None => {},
        }
        let ghost free2 = free.update(k, h2);
        self.free_list = Ghost(free2);
        proof {
            lemma_replace_links(e0, self.elements@, free, k, h2, self.next_free@);
        }
    }

    /// An empty colony that has not allocated.
    fn empty_colony() -> (r: Self)
        ensures
            r.wf(),
            r.slots() == Seq::<Option<T>>::empty(),
            r.guards() == Seq::<G>::empty(),
            r.spec_len() == 0,
            r.spec_capacity() == 0,
            r.colony_id() == G::sentinel(),
            r.free_list() == Seq::<usize>::empty(),
    {
        let r = Colony {
            elements: Vec::new(),
            skipfield: SkipfieldPtr::new(0),
            capacity: 0,
            touched: 0,
            len: 0,
            next_free: IndexOpt::none(),
            id: G::__sentinel_id(),
            free_list: Ghost(Seq::empty()),
        };
        assert(r.slots() =~= Seq::<Option<T>>::empty());
        assert(r.guards() =~= Seq::<G>::empty());
        r
    }

    /// The number of elements.
    pub fn len(&self) -> (r: usize)
        requires
            self.wf(),
        ensures
            r == self.spec_len(),
            r == count_some(self.slots()),
    {
        self.len
    }

    /// Whether the colony holds no element.
    pub fn is_empty(&self) -> (r: bool)
        requires
            self.wf(),
        ensures
            r == (self.spec_len() == 0),
    {
        self.len == 0
    }

    /// The number of slots allocated; inserting does not allocate while the length is below it.
    pub fn capacity(&self) -> (r: usize)
        requires
            self.wf(),
        ensures
            r == self.spec_capacity(),
    {
        self.capacity
    }

    /// Fills the head `free` of the first free block, which the free list then loses; the
    /// rest of the block, if any and not retired, takes its place in the list.
    fn insert_into_free(&mut self, free: usize, value: T) -> (r: G::Handle)
        requires
            old(self).wf(),
            old(self).free_list().len() > 0,
            free == old(self).free_list()[0],
        ensures
            final(self).wf(),
            G::index_of(r) == free,
            final(self).slots() == old(self).slots().update(free as int, Some(value)),
            final(self).guards() == old(self).guards().update(free as int, old(self).guards()[free as int].after_fill()),
            r == final(self).guards()[free as int].minted(free, final(self).colony_id()),
            final(self).spec_len() == old(self).spec_len() + 1,
            final(self).spec_capacity() == old(self).spec_capacity(),
            final(self).colony_id() == old(self).colony_id(),
            final(self).free_list() == free_list_after_insertion(*old(self)),
    {
        let ghost s0 = *self;
        proof {
            assert(self.is_free_head(free as int));
            assert(self.slots()[free as int] is None);
            assert(self.skipfield@[free as int]);
            if free > 0 {
                assert(self.slots()[free - 1] is Some);
                assert(!self.skipfield@[free - 1]);
            }
        }
        self.skipfield.unskip_leftmost(free);
        let next_head = free + 1 < self.touched && !self.elements[free + 1].is_occupied()
            && self.elements[free + 1].guard.__reusable();
        if next_head {
            proof {
                if s0.free_list@.contains((free + 1) as usize) {
                    let k = choose|k: int| 0 <= k < s0.free_list@.len() && s0.free_list@[k] == free + 1;
                    assert(s0.is_free_head(s0.free_list@[k] as int));
                }
            }
            self.replace_skipblock_in_skiplist(free, Ghost(0), free + 1);
        } else {
            self.remove_skipblock_from_skiplist(free, Ghost(0));
        }
        let ghost s1 = *self;
        self.elements[free].fill(value);
        self.len = self.len + 1;
        proof {
            Self::lemma_insert_into_free(s0, s1, *self, free, value, next_head);
        }
        G::__new_handle(&self.elements[free].guard, free, &self.id)
    }

    /// The state after `insert_into_free` is well formed.
    #[verifier::rlimit(60)]
    proof fn lemma_insert_into_free(s0: Self, s1: Self, s: Self, free: usize, value: T, next_head: bool)
        requires
            s0.wf(),
            s0.free_list@.len() > 0,
            free == s0.free_list@[0],
            s1.skipfield.wf(),
            s1.skipfield@ == s0.skipfield@.update(free as int, false),
            s1.capacity == s0.capacity,
            s1.touched == s0.touched,
            s1.len == s0.len,
            s1.id == s0.id,
            same_shape(s0.elements@, s1.elements@),
            links_ok(s1.elements@, s1.free_list@, s1.next_free@),
            next_head == (free + 1 < s0.touched && s0.elements@[free + 1].value() is None
                && !s0.elements@[free + 1].guard_spec().retired()),
            next_head ==> s1.free_list@ == s0.free_list@.update(0, (free + 1) as usize),
            !next_head ==> s1.free_list@ == s0.free_list@.remove(0),
            s.elements@.len() == s1.elements@.len(),
            forall|j: int| 0 <= j < s.elements@.len() && j != free ==> s.elements@[j] == s1.elements@[j],
            s.elements@[free as int].value() == Some(value),
            s.elements@[free as int].guard_spec() == s0.elements@[free as int].guard_spec().after_fill(),
            s.elements@[free as int].guard_spec().wf(),
            s.elements@[free as int].guard_spec().filled(),
            s.len == s1.len + 1,
            s.skipfield == s1.skipfield,
            s.capacity == s1.capacity,
            s.touched == s1.touched,
            s.id == s1.id,
            s.next_free == s1.next_free,
            s.free_list == s1.free_list,
        ensures
            s.wf(),
            s.slots() == s0.slots().update(free as int, Some(value)),
            s.guards() == s0.guards().update(free as int, s0.guards()[free as int].after_fill()),
    {
        let e0 = s0.elements@;
        let e1 = s1.elements@;
        let e = s.elements@;
        let f0 = s0.free_list@;
        let f = s.free_list@;
        assert(head_at(e0, free as int));
        lemma_first_gone(f0, f, (free + 1) as usize, next_head);
        assert forall|i: int| 0 <= i < e1.len() && f.contains(i as usize) implies e[i] == e1[i] by {}
        lemma_links_frame(e1, e, f, s.next_free@);
        assert(same_but(e0, e, free as int)) by {
            assert forall|j: int| 0 <= j < e.len() && j != free implies (#[trigger] e[j]).value() == e0[j].value()
                && e[j].guard_spec() == e0[j].guard_spec() by {
                assert(e[j] == e1[j]);
                assert(e1[j].value() == e0[j].value());
            }
        }
        lemma_fill_heads_listed(e0, e, f0, f, next_head);
        lemma_fill_heads_complete(e0, e, f0, f, next_head);
        assert(s.wf_free());
        assert(s.wf_guards());
        assert(s.slots() =~= s0.slots().update(free as int, Some(value))) by {
            assert forall|i: int| 0 <= i < e.len() && i != free implies e[i].value() == e0[i].value() by {
                assert(e1[i].value() == e0[i].value());
            }
        }
        assert(s.guards() =~= s0.guards().update(free as int, s0.guards()[free as int].after_fill())) by {
            assert forall|i: int| 0 <= i < e.len() && i != free implies e[i].guard_spec() == e0[i].guard_spec() by {
                assert(e1[i].guard_spec() == e0[i].guard_spec());
            }
        }
        lemma_count_some_update(s0.slots(), free as int, Some(value));
        assert forall|i: int| 0 <= i < s.capacity implies #[trigger] s.skipfield@[i] == (i < s.touched && e[i].value()
            is None) by {
            if i < s.touched && i != free {
                assert(e1[i].value() == e0[i].value());
            }
        }
        assert forall|i: int| 0 <= i < e.len() implies (#[trigger] e[i]).guard_spec().wf() && (e[i].value() is Some
            ==> e[i].guard_spec().filled()) && (e[i].value() is None ==> e[i].guard_spec().emptied()) by {
            if i != free {
                assert(e1[i].guard_spec() == e0[i].guard_spec());
                assert(e1[i].value() == e0[i].value());
            }
        }
        assert(s.wf_guards());
        assert(e.len() == s.touched);
        assert(s.len == count_some(s.slots()));
        lemma_count_some_bound(s.slots());
    }

    /// Moves the slots and the skipfield to storage for `new_cap` slots.
    fn resize(&mut self, new_cap: usize)
        requires
            old(self).wf(),
            old(self).capacity <= new_cap <= MAX_CAPACITY,
        ensures
            final(self).wf(),
            final(self).capacity == new_cap,
            final(self).elements@ == old(self).elements@,
            final(self).touched == old(self).touched,
            final(self).len == old(self).len,
            final(self).id == old(self).id,
            final(self).free_list == old(self).free_list,
            final(self).next_free == old(self).next_free,
    {
        self.elements.reserve(new_cap - self.touched);
        self.skipfield.grow(new_cap);
        self.capacity = new_cap;
        proof {
            assert(self.slots() =~= old(self).slots());
        }
    }

    /// Grows the capacity to make room for `additional` more elements; the first
    /// allocation gives the colony its identity.
    fn do_reserve(&mut self, additional: usize)
        requires
            old(self).wf(),
            old(self).len + additional <= MAX_CAPACITY,
        ensures
            final(self).wf(),
            final(self).capacity == grown_capacity::<T>(old(self).len as nat, old(self).capacity as nat, additional as nat),
            final(self).elements@ == old(self).elements@,
            final(self).touched == old(self).touched,
            final(self).len == old(self).len,
            final(self).free_list == old(self).free_list,
            final(self).next_free == old(self).next_free,
            old(self).capacity == 0 ==> G::fresh(final(self).id, old(self).id),
            old(self).capacity != 0 ==> final(self).id == old(self).id,
    {
        let new_cap = self.len + additional;
        let first = self.capacity == 0;
        let twice = self.capacity * 2;
        let new_cap = if new_cap < twice {
            twice
        } else {
            new_cap
        };
        let elem_size = core::mem::size_of::<T>();
        let min_cap: usize = if elem_size == 1 {
            8
        } else if elem_size <= 1024 {
            4
        } else {
            1
        };
        let new_cap = if new_cap < min_cap {
            min_cap
        } else {
            new_cap
        };
        let new_cap = if new_cap > MAX_CAPACITY {
            MAX_CAPACITY
        } else {
            new_cap
        };
        self.resize(new_cap);
        if first {
            self.id = G::__new_id(&self.id);
        }
        proof {
            assert(self.slots() =~= old(self).slots());
        }
    }

    /// Makes room for at least `additional` more elements, unless there is room already.
    ///
    /// Growing panics where the new capacity would pass `MAX_CAPACITY`; `requires` leaves
    /// that out.
    pub fn reserve(&mut self, additional: usize)
        requires
            old(self).wf(),
            additional <= old(self).spec_capacity() - old(self).spec_len() || old(self).spec_len() + additional
                <= MAX_CAPACITY,
        ensures
            final(self).wf(),
            final(self).slots() == old(self).slots(),
            final(self).guards() == old(self).guards(),
            final(self).spec_len() == old(self).spec_len(),
            final(self).free_list() == old(self).free_list(),
            final(self).spec_capacity() >= old(self).spec_len() + additional,
            final(self).spec_capacity() == if additional <= old(self).spec_capacity() - old(self).spec_len() {
                old(self).spec_capacity()
            } else {
                grown_capacity::<T>(old(self).spec_len(), old(self).spec_capacity(), additional as nat)
            },
            old(self).spec_capacity() == 0 && additional > 0 ==> G::fresh(final(self).colony_id(), old(self).colony_id()),
            old(self).spec_capacity() != 0 || additional == 0 ==> final(self).colony_id() == old(self).colony_id(),
    {
        if additional > self.capacity - self.len {
            self.do_reserve(additional);
        }
    }

    /// Stores `value` in a new slot past the used ones.
    fn insert_at_end_unchecked(&mut self, value: T) -> (r: G::Handle)
        requires
            old(self).wf(),
            old(self).touched < old(self).capacity,
        ensures
            final(self).wf(),
            final(self).slots() == old(self).slots().push(Some(value)),
            final(self).guards() == old(self).guards().push(G::initial()),
            r == G::initial().minted(old(self).touched, old(self).id),
            G::index_of(r) == old(self).touched,
            final(self).len == old(self).len + 1,
            final(self).capacity == old(self).capacity,
            final(self).id == old(self).id,
            final(self).free_list == old(self).free_list,
    {
        let ghost s0 = *self;
        let slot = Slot::new_full(value);
        let handle = G::__new_handle(&slot.guard, self.touched, &self.id);
        self.elements.push(slot);
        self.touched = self.touched + 1;
        self.len = self.len + 1;
        proof {
            let e0 = s0.elements@;
            let e = self.elements@;
            assert(self.slots() =~= s0.slots().push(Some(value)));
            assert(self.guards() =~= s0.guards().push(G::initial()));
            lemma_count_some_push(s0.slots(), Some(value));
            lemma_count_some_bound(self.slots());
            assert forall|i: int| 0 <= i < e0.len() && self.free_list@.contains(i as usize) implies e[i] == e0[i] by {}
            lemma_links_frame(e0, e, self.free_list@, self.next_free@);
            assert forall|k: int| 0 <= k < self.free_list@.len() implies head_at(e, #[trigger] self.free_list@[k] as int) by {
                assert(head_at(e0, self.free_list@[k] as int));
            }
            assert forall|h: int| head_at(e, h) implies self.free_list@.contains(h as usize) by {
                assert(head_at(e0, h));
            }
            assert(self.wf_free());
            assert forall|i: int| 0 <= i < self.capacity implies #[trigger] self.skipfield@[i] == (i < self.touched
                && e[i].value() is None) by {
                if i < s0.touched {
                    assert(e[i] == e0[i]);
                }
            }
            assert forall|i: int| 0 <= i < e.len() implies (#[trigger] e[i]).guard_spec().wf() && (e[i].value() is Some
                ==> e[i].guard_spec().filled()) && (e[i].value() is None ==> e[i].guard_spec().emptied()) by {
                if i < e0.len() {
                    assert(e[i] == e0[i]);
                }
            }
        }
        handle
    }

    /// Stores `value` past the used slots, growing first where they fill the capacity.
    fn insert_at_end(&mut self, value: T) -> (r: G::Handle)
        requires
            old(self).wf(),
            old(self).touched < MAX_CAPACITY,
        ensures
            final(self).wf(),
            final(self).slots() == old(self).slots().push(Some(value)),
            final(self).guards() == old(self).guards().push(G::initial()),
            r == G::initial().minted(old(self).touched, final(self).id),
            G::index_of(r) == old(self).touched,
            final(self).len == old(self).len + 1,
            final(self).free_list == old(self).free_list,
            old(self).touched < old(self).capacity ==> final(self).capacity == old(self).capacity,
            old(self).touched == old(self).capacity ==> final(self).capacity == grown_capacity::<T>(
                old(self).len as nat,
                old(self).capacity as nat,
                1,
            ),
            old(self).capacity == 0 ==> G::fresh(final(self).id, old(self).id),
            old(self).capacity != 0 ==> final(self).id == old(self).id,
    {
        if self.touched == self.capacity {
            self.do_reserve(1);
        }
        self.insert_at_end_unchecked(value)
    }

    /// Stores `value` and returns its handle. The value takes the first slot of the first
    /// reusable free block where there is one, and a new slot past the used ones otherwise.
    ///
    /// Growing panics where the capacity would pass `MAX_CAPACITY`; `requires` leaves that out.
    pub fn insert(&mut self, value: T) -> (r: G::Handle)
        requires
            old(self).wf(),
            old(self).slots().len() < MAX_CAPACITY,
        ensures
            final(self).wf(),
            G::index_of(r) == old(self).insert_index(),
            old(self).insert_index() < old(self).slots().len() ==> {
                &&& final(self).slots() == old(self).slots().update(old(self).insert_index(), Some(value))
                &&& final(self).guards() == old(self).guards().update(
                    old(self).insert_index(),
                    old(self).guards()[old(self).insert_index()].after_fill(),
                )
                &&& final(self).spec_capacity() == old(self).spec_capacity()
            },
            old(self).insert_index() == old(self).slots().len() ==> {
                &&& final(self).slots() == old(self).slots().push(Some(value))
                &&& final(self).guards() == old(self).guards().push(G::initial())
                &&& old(self).slots().len() < old(self).spec_capacity() ==> final(self).spec_capacity()
                    == old(self).spec_capacity()
                &&& old(self).slots().len() == old(self).spec_capacity() ==> final(self).spec_capacity()
                    == grown_capacity::<T>(old(self).spec_len(), old(self).spec_capacity(), 1)
            },
            final(self).spec_capacity() >= old(self).spec_capacity(),
            final(self).spec_capacity() > 0,
            r == final(self).guards()[old(self).insert_index()].minted(
                old(self).insert_index() as usize,
                final(self).colony_id(),
            ),
            final(self).spec_len() == old(self).spec_len() + 1,
            final(self).free_list() == free_list_after_insertion(*old(self)),
            old(self).spec_capacity() == 0 ==> G::fresh(final(self).colony_id(), old(self).colony_id()),
            old(self).spec_capacity() != 0 ==> final(self).colony_id() == old(self).colony_id(),
    {
        match self.next_free.as_opt() {
            Some(free) => self.insert_into_free(free, value),
            None => self.insert_at_end(value),
        }
    }

    /// Removes the element at `index`, which must be occupied, and returns it. The slot
    /// joins the skipblocks on either side; the free list then keeps one node per reusable
    /// block, at its first slot.
    pub fn remove_unchecked(&mut self, index: usize) -> (r: T)
        requires
            old(self).wf(),
            index < old(self).slots().len(),
            old(self).slots()[index as int] is Some,
        ensures
            final(self).wf(),
            r == old(self).slots()[index as int]->0,
            final(self).slots() == old(self).slots().update(index as int, None),
            final(self).guards() == old(self).guards().update(index as int, old(self).guards()[index as int].after_empty()),
            final(self).spec_len() + 1 == old(self).spec_len(),
            final(self).spec_capacity() == old(self).spec_capacity(),
            final(self).colony_id() == old(self).colony_id(),
            final(self).free_list() == free_list_after_removal(*old(self), index as int),
    {
        let ghost s0 = *self;
        let ghost e0 = self.elements@;
        let ghost f0 = self.free_list@;
        proof {
            assert(e0[index as int].value() is Some);
            assert(!self.skipfield@[index as int]);
        }
        let (result, reuse) = self.elements[index].empty();
        let (start, end) = self.skipfield.skip(index);
        let has_left = start != index;
        let has_right = end != index;
        let ghost e1 = self.elements@;
        proof {
            Self::lemma_remove_setup(s0, *self, index, reuse, start, end);
        }
        if has_right {
            // The block on the right loses its head `index + 1`.
            let listed = self.elements[index + 1].guard.__reusable();
            if listed {
                let ghost k = choose|k: int| 0 <= k < f0.len() && f0[k] == index + 1;
                if reuse && !has_left {
                    // Only a block on the right: `index` takes the place of its head.
                    self.replace_skipblock_in_skiplist(index + 1, Ghost(k), index);
                    proof {
                        lemma_contains_after_update(f0, k, index);
                    }
                } else {
                    // Blocks on both sides, or `index` retired: the merged block keeps the
                    // head of the left block, or has none that can be reused.
                    self.remove_skipblock_from_skiplist(index + 1, Ghost(k));
                    proof {
                        lemma_contains_after_remove(f0, k);
                    }
                }
            } else if reuse && !has_left {
                // The block on the right was retired at its head; `index` heads it now.
                self.add_skipblock_to_skiplist(index);
                proof {
                    lemma_contains_after_push(f0, index);
                }
            }
        } else if reuse && !has_left {
            // No neighbouring block: `index` is a block of its own.
            self.add_skipblock_to_skiplist(index);
            proof {
                lemma_contains_after_push(f0, index);
            }
        } else {
            // A block on the left only keeps its head, and a retired `index` with no block
            // on the right heads no block that can be reused: the list stays as it is.
        }
        self.len = self.len - 1;
        proof {
            Self::lemma_remove_wf(s0, *self, index, e1);
        }
        result
    }

    /// The state after `remove_unchecked` is well formed.
    proof fn lemma_remove_wf(s0: Self, s: Self, index: usize, e1: Seq<Slot<T, G>>)
        requires
            s0.wf(),
            index < s0.touched,
            s0.elements@[index as int].value() is Some,
            same_but(s0.elements@, e1, index as int),
            e1[index as int].value() is None,
            e1[index as int].guard_spec() == s0.elements@[index as int].guard_spec().after_empty(),
            e1[index as int].guard_spec().wf(),
            e1[index as int].guard_spec().emptied(),
            same_shape(e1, s.elements@),
            s.skipfield.wf(),
            s.skipfield@ == s0.skipfield@.update(index as int, true),
            links_ok(s.elements@, s.free_list@, s.next_free@),
            forall|x: usize|
                s.free_list@.contains(x) <==> ((s0.free_list@.contains(x) && x != index + 1) || (x == index && head_at(
                    e1,
                    index as int,
                ))),
            s.len + 1 == s0.len,
            s.capacity == s0.capacity,
            s.touched == s0.touched,
            s.id == s0.id,
        ensures
            s.wf(),
            s.slots() == s0.slots().update(index as int, None),
            s.guards() == s0.guards().update(index as int, s0.guards()[index as int].after_empty()),
    {
        let e0 = s0.elements@;
        let e = s.elements@;
        assert(same_but(e0, e, index as int)) by {
            assert forall|j: int| 0 <= j < e.len() && j != index implies (#[trigger] e[j]).value() == e0[j].value()
                && e[j].guard_spec() == e0[j].guard_spec() by {
                assert(e1[j].value() == e0[j].value());
            }
        }
        assert(e[index as int].value() is None && e[index as int].guard_spec() == e1[index as int].guard_spec());
        assert(head_at(e, index as int) == head_at(e1, index as int)) by {
            if index > 0 {
                assert(e[index - 1].value() == e1[index - 1].value());
            }
        }
        lemma_remove_heads(e0, e, s0.free_list@, s.free_list@, index as int);
        assert(s.wf_free());
        assert(s.slots() =~= s0.slots().update(index as int, None));
        assert(s.guards() =~= s0.guards().update(index as int, s0.guards()[index as int].after_empty()));
        lemma_count_some_update(s0.slots(), index as int, None);
        lemma_count_some_bound(s.slots());
        assert forall|i: int| 0 <= i < e.len() implies (#[trigger] e[i]).guard_spec().wf() && (e[i].value() is Some
            ==> e[i].guard_spec().filled()) && (e[i].value() is None ==> e[i].guard_spec().emptied()) by {
            if i != index {
                assert(e0[i].guard_spec().wf());
            }
        }
        assert forall|i: int| 0 <= i < s.capacity implies #[trigger] s.skipfield@[i] == (i < s.touched && e[i].value()
            is None) by {
            if i != index {
                assert(s0.skipfield@[i] == (i < s0.touched && e0[i].value() is None));
            }
        }
    }

    /// What `remove_unchecked` knows once the slot is emptied and the skipfield updated.
    proof fn lemma_remove_setup(s0: Self, s1: Self, index: usize, reuse: bool, start: usize, end: usize)
        requires
            s0.wf(),
            index < s0.touched,
            s0.elements@[index as int].value() is Some,
            s1.elements@.len() == s0.elements@.len(),
            forall|j: int| 0 <= j < s1.elements@.len() && j != index ==> s1.elements@[j] == s0.elements@[j],
            s1.elements@[index as int].value() is None,
            s1.elements@[index as int].links() == Some((None::<usize>, None::<usize>)),
            s1.elements@[index as int].guard_spec() == s0.elements@[index as int].guard_spec().after_empty(),
            reuse == !s1.elements@[index as int].guard_spec().retired(),
            s1.skipfield@ == s0.skipfield@.update(index as int, true),
            start <= index <= end,
            is_block(s1.skipfield@, start as int, end - start + 1),
            s1.free_list == s0.free_list,
            s1.next_free == s0.next_free,
            s1.touched == s0.touched,
            s1.capacity == s0.capacity,
        ensures
            (start != index) == (index > 0 && s0.elements@[index - 1].value() is None),
            (end != index) == (index + 1 < s0.touched && s0.elements@[index + 1].value() is None),
            head_at(s1.elements@, index as int) == (reuse && start == index),
            same_but(s0.elements@, s1.elements@, index as int),
            links_ok(s1.elements@, s0.free_list@, s0.next_free@),
            !s0.free_list@.contains(index),
            end != index ==> s0.free_list@.contains((index + 1) as usize) == !s0.elements@[index
                + 1].guard_spec().retired(),
            end == index ==> !s0.free_list@.contains((index + 1) as usize),
            s0.len >= 1,
    {
        let e0 = s0.elements@;
        assert(s0.slots()[index as int] is Some);
        lemma_count_some_update(s0.slots(), index as int, None);
        let e1 = s1.elements@;
        let f0 = s0.free_list@;
        let sk = s1.skipfield@;
        if start != index {
            assert(sk[index - 1]);
            assert(s0.skipfield@[index - 1]);
        } else if index > 0 {
            assert(!s0.skipfield@[index - 1]);
        }
        if end != index {
            assert(sk[index + 1]);
            assert(s0.skipfield@[index + 1]);
        } else if index + 1 < s0.touched {
            assert(!s0.skipfield@[index + 1]);
        }
        assert forall|k: int| 0 <= k < f0.len() implies #[trigger] f0[k] < e1.len() && e1[f0[k] as int].links() == Some(
            (prev_in(f0, k), next_in(f0, k))) by {
            assert(head_at(e0, f0[k] as int));
        }
        assert(!f0.contains(index)) by {
            if f0.contains(index) {
                let k = choose|k: int| 0 <= k < f0.len() && f0[k] == index;
                assert(head_at(e0, f0[k] as int));
            }
        }
        if f0.contains((index + 1) as usize) {
            let k = choose|k: int| 0 <= k < f0.len() && f0[k] == index + 1;
            assert(head_at(e0, f0[k] as int));
        }
        if end != index && !e0[index + 1].guard_spec().retired() {
            assert(head_at(e0, index + 1));
        }
    }

    /// The element of an occupied slot, by index.
    pub fn get_unchecked(&self, index: usize) -> (r: &T)
        requires
            self.wf(),
            index < self.slots().len(),
            self.slots()[index as int] is Some,
        ensures
            *r == self.slots()[index as int]->0,
    {
        self.elements[index].occupied()
    }

    /// The element that `handle` names, if it is still there.
    pub fn get(&self, handle: G::Handle) -> (r: Option<&T>)
        where
            G: CheckedGuard,
        requires
            self.wf(),
        ensures
            self.valid_handle(handle) ==> r is Some && *(r->0) == self.slots()[G::index_of(handle)]->0,
            !self.valid_handle(handle) ==> r is None,
    {
        let index = G::__extract_index(&handle);
        if index >= self.touched {
            return None;
        }
        let slot = &self.elements[index];
        if !slot.guard.__check(&handle, &self.id) {
            return None;
        }
        match &slot.inner {
            SlotInner::Occupied(v) => Some(v),
            SlotInner::Unoccupied(_) => None,
        }
    }

    /// Removes the element that `handle` names and returns it, if it is still there.
    pub fn remove(&mut self, handle: G::Handle) -> (r: Option<T>)
        where
            G: CheckedGuard,
        requires
            old(self).wf(),
        ensures
            final(self).wf(),
            old(self).valid_handle(handle) ==> {
                let i = G::index_of(handle);
                &&& r == Some(old(self).slots()[i]->0)
                &&& final(self).slots() == old(self).slots().update(i, None)
                &&& final(self).guards() == old(self).guards().update(i, old(self).guards()[i].after_empty())
                &&& final(self).spec_len() + 1 == old(self).spec_len()
                &&& final(self).free_list() == free_list_after_removal(*old(self), i)
            },
            !old(self).valid_handle(handle) ==> r is None && *final(self) == *old(self),
            final(self).spec_capacity() == old(self).spec_capacity(),
            final(self).colony_id() == old(self).colony_id(),
    {
        let index = G::__extract_index(&handle);
        if index >= self.touched {
            return None;
        }
        if !self.elements[index].guard.__check(&handle, &self.id) || !self.elements[index].is_occupied() {
            return None;
        }
        Some(self.remove_unchecked(index))
    }

    /// Removes every element, keeping the allocation. The colony takes a new identity,
    /// different from the one it had, so that no handle of before validates after.
    /// Identities are drawn at random rather than from a process-wide counter, so an
    /// identity from two or more clears back may come round again, by a chance of one in
    /// `MAX_COLONY_ID`.
    pub fn clear(&mut self)
        requires
            old(self).wf(),
        ensures
            final(self).wf(),
            final(self).slots() == Seq::<Option<T>>::empty(),
            final(self).spec_len() == 0,
            final(self).spec_capacity() == old(self).spec_capacity(),
            final(self).free_list() == Seq::<usize>::empty(),
            G::fresh(final(self).colony_id(), old(self).colony_id()),
    {
        self.elements.clear();
        self.skipfield.clear_prefix(self.touched);
        self.id = G::__new_id(&self.id);
        self.len = 0;
        self.touched = 0;
        self.next_free = IndexOpt::none();
        self.free_list = Ghost(Seq::empty());
        proof {
            assert(self.slots() =~= Seq::<Option<T>>::empty());
        }
    }

    /// The first occupied index at or after `from`, found by one jump over the skipblock
    /// that may start at `from`.
    pub(crate) fn next_occupied(&self, from: usize) -> (r: usize)
        requires
            self.wf(),
            from <= self.slots().len(),
            from == 0 || self.slots()[from - 1] is Some,
            count_some(self.slots().subrange(from as int, self.slots().len() as int)) > 0,
        ensures
            from <= r < self.slots().len(),
            self.slots()[r as int] is Some,
            forall|m: int| from <= m < r ==> #[trigger] self.slots()[m] is None,
            count_some(self.slots().subrange(from as int, self.slots().len() as int)) == 1 + count_some(
                self.slots().subrange(r + 1, self.slots().len() as int),
            ),
    {
        proof {
            Self::lemma_read_at_cursor(*self, from);
        }
        let offset = self.skipfield.read(from as isize, skipfield::Direction::Right);
        let r = from + offset;
        proof {
            Self::lemma_jump(*self, from, r);
        }
        r
    }

    /// The handle of the element at the occupied index `index`.
    pub(crate) fn handle_at(&self, index: usize) -> (r: G::Handle)
        requires
            self.wf(),
            index < self.slots().len(),
            self.slots()[index as int] is Some,
        ensures
            r == self.guards()[index as int].minted(index, self.colony_id()),
            G::index_of(r) == index,
    {
        self.elements[index].guard.__new_handle(index, &self.id)
    }

    /// An iterator over the elements and their handles, by ascending index.
    pub fn iter(&self) -> (r: Iter<'_, T, G>)
        requires
            self.wf(),
        ensures
            r.wf(),
            r.colony() == *self,
            r.cursor() == 0,
            r.remaining() == self.spec_len(),
    {
        Iter::new(self)
    }

    /// An iterator over the elements and their handles, by ascending index, lending each
    /// element for change in place.
    pub fn iter_mut(&mut self) -> (r: IterMut<'_, T, G>)
        requires
            old(self).wf(),
        ensures
            r.wf(),
            r.colony() == *old(self),
            r.cursor() == 0,
            r.remaining() == old(self).spec_len(),
    {
        IterMut::new(self)
    }

    /// An iterator over the elements alone, by ascending index, lending each element for
    /// change in place.
    pub fn values_mut(&mut self) -> (r: ValuesMut<'_, T, G>)
        requires
            old(self).wf(),
        ensures
            r.wf(),
            r.colony() == *old(self),
            r.cursor() == 0,
            r.remaining() == old(self).spec_len(),
    {
        ValuesMut::new(self)
    }

    /// An iterator over the elements alone, by ascending index.
    pub fn values(&self) -> (r: Values<'_, T, G>)
        requires
            self.wf(),
        ensures
            r.wf(),
            r.colony() == *self,
            r.cursor() == 0,
            r.remaining() == self.spec_len(),
    {
        Values::new(self)
    }

    proof fn lemma_read_at_cursor(s: Self, from: usize)
        requires
            s.wf_storage(),
            from <= s.touched,
            from == 0 || s.elements@[from - 1].value() is Some,
            count_some(s.slots().subrange(from as int, s.slots().len() as int)) > 0,
        ensures
            from < s.touched,
            from < s.skipfield@.len(),
            !s.skipfield@[from as int] || skipfield::is_head(s.skipfield@, from as int),
    {
        let sl = s.slots();
        if from == s.touched {
            assert(sl.subrange(from as int, sl.len() as int) =~= Seq::<Option<T>>::empty());
        }
        if s.skipfield@[from as int] && from > 0 {
            assert(!s.skipfield@[from - 1]);
        }
    }

    proof fn lemma_jump(s: Self, from: usize, r: usize)
        requires
            s.wf_storage(),
            from < s.touched,
            from == 0 || s.elements@[from - 1].value() is Some,
            count_some(s.slots().subrange(from as int, s.slots().len() as int)) > 0,
            !s.skipfield@[from as int] ==> r == from,
            skipfield::is_head(s.skipfield@, from as int) ==> is_block(s.skipfield@, from as int, r - from),
        ensures
            from <= r < s.slots().len(),
            s.slots()[r as int] is Some,
            forall|m: int| from <= m < r ==> #[trigger] s.slots()[m] is None,
            count_some(s.slots().subrange(from as int, s.slots().len() as int)) == 1 + count_some(
                s.slots().subrange(r + 1, s.slots().len() as int),
            ),
    {
        let sl = s.slots();
        let n = sl.len() as int;
        if s.skipfield@[from as int] && from > 0 {
            assert(!s.skipfield@[from - 1]);
        }
        assert forall|m: int| from <= m < r implies #[trigger] sl[m] is None by {
            assert(s.skipfield@[m]);
        }
        if r > from {
            assert(r <= s.capacity);
        }
        if r >= s.touched {
            lemma_count_skip_nones(sl, from as int, n);
            assert(sl.subrange(n, n) =~= Seq::<Option<T>>::empty());
        }
        lemma_count_skip_nones(sl, from as int, r as int);
        assert(!s.skipfield@[r as int]);
        lemma_count_from(sl, r as int);
    }

    /// The length is the number of occupied slots, whatever operations led here.
    pub proof fn lemma_len_is_live_count(&self)
        requires
            self.wf(),
        ensures
            self.spec_len() == count_some(self.slots()),
            self.spec_len() <= self.slots().len() <= self.spec_capacity() <= MAX_CAPACITY,
            self.guards().len() == self.slots().len(),
    {
        lemma_count_some_bound(self.slots());
    }

    /// What the skipfield holds for position `i`, read in the direction `dir`.
    pub closed spec fn skip_read(&self, i: int, dir: skipfield::Direction) -> int {
        self.skipfield.read_spec(i, dir)
    }

    /// The skipfield agrees with the slots: an occupied slot reads 0 both ways, and the
    /// first slot of every run of empty slots reads the run's length to the right, which
    /// its last slot reads to the left.
    pub proof fn lemma_skipfield_encodes_runs(&self, i: int)
        requires
            self.wf(),
            0 <= i < self.slots().len(),
        ensures
            self.slots()[i] is Some ==> self.skip_read(i, skipfield::Direction::Right) == 0 && self.skip_read(
                i,
                skipfield::Direction::Left,
            ) == 0,
            self.slots()[i] is None && (i == 0 || self.slots()[i - 1] is Some) ==> {
                let r = self.skip_read(i, skipfield::Direction::Right);
                &&& 1 <= r
                &&& i + r <= self.slots().len()
                &&& forall|m: int| i <= m < i + r ==> #[trigger] self.slots()[m] is None
                &&& (i + r == self.slots().len() || self.slots()[i + r] is Some)
                &&& self.skip_read(i + r - 1, skipfield::Direction::Left) == r
            },
    {
        let sk = self.skipfield@;
        self.skipfield.lemma_blocks_read_back(i);
        if self.slots()[i] is None && (i == 0 || self.slots()[i - 1] is Some) {
            if i > 0 {
                assert(!sk[i - 1]);
            }
            assert(skipfield::is_head(sk, i));
            let r = self.skip_read(i, skipfield::Direction::Right);
            assert forall|m: int| i <= m < i + r implies #[trigger] self.slots()[m] is None by {
                assert(sk[m]);
            }
            assert(sk[i + r - 1]);
            if i + r < self.slots().len() {
                assert(!sk[i + r]);
            }
        }
    }

    /// The free list holds exactly the reusable free heads: each node is the first slot of
    /// a run of empty slots, and each such first slot is a node unless it was retired.
    pub proof fn lemma_free_list_exact(&self)
        requires
            self.wf(),
        ensures
            self.free_list().no_duplicates(),
            forall|k: int| 0 <= k < self.free_list().len() ==> self.is_free_head(#[trigger] self.free_list()[k] as int),
            forall|h: int|
                0 <= h < self.slots().len() && self.slots()[h] is None && (h == 0 || self.slots()[h - 1] is Some)
                    && !self.guards()[h].retired() ==> self.free_list().contains(h as usize),
            forall|h: int| #[trigger] self.is_free_head(h) ==> self.slots()[h] is None && (h == 0 || self.slots()[h - 1] is Some),
            0 <= self.insert_index() <= self.slots().len(),
            self.insert_index() < self.slots().len() ==> self.slots()[self.insert_index()] is None
                && !self.guards()[self.insert_index()].retired(),
    {
        assert forall|h: int|
            0 <= h < self.slots().len() && self.slots()[h] is None && (h == 0 || self.slots()[h - 1] is Some)
                && !self.guards()[h].retired() implies self.free_list().contains(h as usize) by {
            assert(head_at(self.elements@, h));
        }
        if self.free_list@.len() > 0 {
            assert(head_at(self.elements@, self.free_list@[0] as int));
        }
    }
}

impl<T, G: CheckedGuard> Colony<T, G> {
    /// The handle minted for an occupied slot validates, and names that slot.
    pub proof fn lemma_minted_handle_valid(&self, i: int)
        requires
            self.wf(),
            0 <= i < self.slots().len(),
            self.slots()[i] is Some,
        ensures
            self.valid_handle(self.guards()[i].minted(i as usize, self.colony_id())),
            G::index_of(self.guards()[i].minted(i as usize, self.colony_id())) == i,
    {
        assert(self.elements@[i].guard_spec().filled());
        G::lemma_minted_checks(self.guards()[i], i as usize, self.colony_id());
    }

    /// A handle keeps validating in a later state whose slot and guard at its index, and
    /// whose identity, are those of the earlier state.
    pub proof fn lemma_handle_stable(c0: &Self, c1: &Self, handle: G::Handle)
        requires
            c0.valid_handle(handle),
            G::index_of(handle) < c1.slots().len(),
            c1.slots()[G::index_of(handle)] == c0.slots()[G::index_of(handle)],
            c1.guards()[G::index_of(handle)] == c0.guards()[G::index_of(handle)],
            c1.colony_id() == c0.colony_id(),
        ensures
            c1.valid_handle(handle),
    {
    }

    /// Inserting keeps every handle valid, growing or not: the slot an insertion takes was
    /// empty, every other slot and guard stays, and a colony with elements keeps its
    /// identity.
    pub proof fn lemma_insert_keeps_handles(c0: &Self, c1: &Self, handle: G::Handle)
        requires
            c0.wf(),
            c0.valid_handle(handle),
            c1.slots().len() >= c0.slots().len(),
            forall|j: int|
                0 <= j < c0.slots().len() && j != c0.insert_index() ==> c1.slots()[j] == c0.slots()[j]
                    && c1.guards()[j] == c0.guards()[j],
            c0.spec_capacity() != 0 ==> c1.colony_id() == c0.colony_id(),
        ensures
            c1.valid_handle(handle),
            G::index_of(handle) != c0.insert_index(),
    {
        c0.lemma_len_is_live_count();
        c0.lemma_free_list_exact();
    }

    /// Growing keeps every handle valid: reserving leaves the slots and guards as they
    /// were, and a colony with elements keeps its identity.
    pub proof fn lemma_reserve_keeps_handles(c0: &Self, c1: &Self, handle: G::Handle)
        requires
            c0.wf(),
            c0.valid_handle(handle),
            c1.slots() == c0.slots(),
            c1.guards() == c0.guards(),
            c0.spec_capacity() != 0 ==> c1.colony_id() == c0.colony_id(),
        ensures
            c1.valid_handle(handle),
    {
        c0.lemma_len_is_live_count();
    }

    /// Once its element is gone, a handle no longer validates: a second `remove` of the
    /// same handle finds nothing.
    pub proof fn lemma_removed_handle_invalid(&self, handle: G::Handle)
        requires
            0 <= G::index_of(handle) < self.slots().len(),
            self.slots()[G::index_of(handle)] is None,
        ensures
            !self.valid_handle(handle),
    {
    }

    /// A colony with no element validates no handle, as after `clear`.
    pub proof fn lemma_empty_validates_nothing(&self, handle: G::Handle)
        requires
            self.slots().len() == 0,
        ensures
            !self.valid_handle(handle),
    {
    }
}

impl<T> Colony<T, GenerationGuard> {
    /// A handle carrying another colony's identity never validates: neither a handle of
    /// another colony, nor one minted before this colony was cleared.
    pub proof fn lemma_foreign_handle_rejected(&self, handle: Handle)
        requires
            handle.generation.colony_id_spec() != self.colony_id(),
        ensures
            !self.valid_handle(handle),
    {
        let i = GenerationGuard::index_of(handle);
        if 0 <= i < self.slots().len() {
            guard::lemma_check_needs_colony_id(self.guards()[i], handle, self.colony_id());
        }
    }

    /// Handles minted by this colony carry its identity, so with distinct identities no
    /// handle of one colony validates in another.
    pub proof fn lemma_colonies_dont_alias<U>(&self, other: &Colony<U, GenerationGuard>, i: int)
        requires
            self.colony_id() != other.colony_id(),
        ensures
            self.guards()[i].minted(i as usize, self.colony_id()).generation.colony_id_spec() == self.colony_id(),
            !other.valid_handle(self.guards()[i].minted(i as usize, self.colony_id())),
    {
        guard::lemma_minted_colony_id(self.guards()[i], i as usize, self.colony_id());
        other.lemma_foreign_handle_rejected(self.guards()[i].minted(i as usize, self.colony_id()));
    }
}

impl<T, G: Guard> Colony<T, G> {
    /// Inserts the values one after another, in order. The elements already stored keep
    /// their slots, guards and values; the values given join them.
    pub fn extend(&mut self, values: Vec<T>)
        requires
            old(self).wf(),
            old(self).slots().len() + values.len() <= MAX_CAPACITY,
        ensures
            final(self).wf(),
            final(self).spec_len() == old(self).spec_len() + values.len(),
            final(self).slots().len() <= old(self).slots().len() + values.len(),
            live_values(final(self).slots()) == live_values(old(self).slots()).add(values@.to_multiset()),
            forall|j: int|
                0 <= j < old(self).slots().len() && old(self).slots()[j] is Some ==> final(self).slots()[j]
                    == old(self).slots()[j] && final(self).guards()[j] == old(self).guards()[j],
            old(self).spec_capacity() != 0 ==> final(self).colony_id() == old(self).colony_id(),
            final(self).spec_capacity() >= old(self).spec_capacity(),
            old(self).free_list().len() == 0 ==> final(self).slots() == old(self).slots() + values@.map_values(
                |v: T| Some(v),
            ) && final(self).free_list().len() == 0,
    {
        let ghost v0 = values@;
        let ghost k = values.len() as int;
        let mut values = values;
        let mut reversed: Vec<T> = Vec::new();
        while values.len() > 0
            invariant
                values.len() + reversed.len() == k,
                v0.len() == k,
                values@ == v0.subrange(0, values.len() as int),
                forall|i: int| 0 <= i < reversed.len() ==> #[trigger] reversed@[i] == v0[k - 1 - i],
            decreases values.len(),
        {
            match values.pop() {
                Some(v) => reversed.push(v),
                None => {},
            }
            assert(values@ =~= v0.subrange(0, values.len() as int));
        }
        proof {
            vstd::seq_lib::to_multiset_len(v0.subrange(0, 0));
            vstd::multiset::lemma_multiset_empty_len(v0.subrange(0, 0).to_multiset());
            assert(v0.subrange(0, 0).to_multiset() =~= Multiset::empty());
            assert(live_values(self.slots()).add(Multiset::empty()) =~= live_values(self.slots()));
            assert(self.slots() + v0.subrange(0, 0).map_values(|v: T| Some(v)) =~= self.slots());
        }
        while reversed.len() > 0
            invariant
                v0.len() == k,
                reversed.len() <= k,
                forall|i: int| 0 <= i < reversed.len() ==> #[trigger] reversed@[i] == v0[k - 1 - i],
                self.wf(),
                self.spec_len() == old(self).spec_len() + (k - reversed.len()),
                self.slots().len() <= old(self).slots().len() + (k - reversed.len()),
                old(self).slots().len() + k <= MAX_CAPACITY,
                live_values(self.slots()) == live_values(old(self).slots()).add(
                    v0.subrange(0, k - reversed.len()).to_multiset(),
                ),
                self.slots().len() >= old(self).slots().len(),
                forall|j: int|
                    0 <= j < old(self).slots().len() && old(self).slots()[j] is Some ==> self.slots()[j]
                        == old(self).slots()[j] && self.guards()[j] == old(self).guards()[j],
                old(self).spec_capacity() != 0 ==> self.colony_id() == old(self).colony_id(),
                self.spec_capacity() >= old(self).spec_capacity(),
                old(self).free_list().len() == 0 ==> self.slots() == old(self).slots() + v0.subrange(
                    0,
                    k - reversed.len(),
                ).map_values(|v: T| Some(v)) && self.free_list().len() == 0,
            decreases reversed.len(),
        {
            let ghost before = *self;
            let ghost m = k - reversed.len();
            match reversed.pop() {
                Some(v) => {
                    proof {
                        assert(v == v0[m]);
                        self.lemma_free_list_exact();
                    }
                    self.insert(v);
                    proof {
                        let s0 = before.slots();
                        let i = before.insert_index();
                        if i < s0.len() {
                            lemma_live_values_fill(s0, i, v);
                        } else {
                            lemma_live_values_push(s0, v);
                        }
                        assert(v0.subrange(0, m + 1) =~= v0.subrange(0, m).push(v));
                        vstd::seq_lib::to_multiset_build(v0.subrange(0, m), v);
                        assert(live_values(self.slots()) =~= live_values(old(self).slots()).add(
                            v0.subrange(0, m + 1).to_multiset(),
                        ));
                        if old(self).free_list().len() == 0 {
                            assert(self.slots() =~= old(self).slots() + v0.subrange(0, m + 1).map_values(
                                |v: T| Some(v),
                            ));
                        }
                    }
                },
                None => {},
            }
        }
        proof {
            assert(v0.subrange(0, k) =~= v0);
        }
    }

    /// A colony holding the values, inserted in order at indices `0, 1, ...`.
    pub fn from_iter(values: Vec<T>) -> (r: Self)
        requires
            values.len() <= MAX_CAPACITY,
        ensures
            r.wf(),
            r.spec_len() == values.len(),
            r.slots() == values@.map_values(|v: T| Some(v)),
    {
        let mut r = Self::empty_colony();
        r.extend(values);
        proof {
            assert(Seq::<Option<T>>::empty() + values@.map_values(|v: T| Some(v)) =~= values@.map_values(
                |v: T| Some(v),
            ));
        }
        r
    }

    /// A new colony holding a clone of each element, in index order: its slot `j` holds a
    /// clone of the `j`-th element of `self`.
    pub fn clone(&self) -> (r: Self)
        where
            T: Clone,
        requires
            self.wf(),
        ensures
            r.wf(),
            r.spec_len() == self.spec_len(),
            r.slots().len() == occupied_from(self.slots(), 0).len(),
            forall|j: int|
                0 <= j < r.slots().len() ==> #[trigger] r.slots()[j] is Some && cloned(
                    self.slots()[occupied_from(self.slots(), 0)[j]]->0,
                    r.slots()[j]->0,
                ),
    {
        let ghost sl = self.slots();
        let ghost occ = occupied_from(sl, 0);
        proof {
            self.lemma_len_is_live_count();
            lemma_occupied_from(sl, 0);
            assert(sl.subrange(0, sl.len() as int) =~= sl);
        }
        let mut values: Vec<T> = Vec::new();
        let mut it = self.values();
        proof {
            assert(occ.subrange(0, occ.len() as int) =~= occ);
        }
        while it.size_hint().0 > 0
            invariant
                it.wf(),
                it.colony() == *self,
                sl == self.slots(),
                occ == occupied_from(sl, 0),
                values.len() + it.remaining() == self.spec_len(),
                occ.len() == self.spec_len(),
                self.spec_len() <= MAX_CAPACITY,
                occupied_from(sl, it.cursor()) == occ.subrange(values.len() as int, occ.len() as int),
                forall|j: int| 0 <= j < values.len() ==> #[trigger] cloned(sl[occ[j]]->0, values@[j]),
            decreases it.remaining(),
        {
            let ghost n = values.len() as int;
            let ghost c0 = it.cursor();
            match it.next() {
                Some(v) => {
                    let c = v.clone();
                    proof {
                        let i = it.cursor() - 1;
                        let rest = occ.subrange(n, occ.len() as int);
                        assert(rest[0] == i);
                        assert(occ[n] == i);
                        let x = occupied_from(sl, it.cursor());
                        assert(occupied_from(sl, c0) == seq![i].add(x));
                        assert(x =~= seq![i].add(x).drop_first());
                        assert(rest.drop_first() =~= occ.subrange(n + 1, occ.len() as int));
                    }
                    values.push(c);
                },
                None => {},
            }
        }
        let r = Self::from_iter(values);
        proof {
            assert forall|j: int| 0 <= j < r.slots().len() implies #[trigger] r.slots()[j] is Some && cloned(
                sl[occ[j]]->0,
                r.slots()[j]->0,
            ) by {
                assert(r.slots()[j] == Some(values@[j]));
            }
        }
        r
    }

    /// `s` is `s0` with the element of the occupied slot `index` replaced.
    spec fn value_replaced(s0: Self, s: Self, index: int) -> bool {
        &&& s0.wf()
        &&& 0 <= index < s0.elements@.len()
        &&& s0.elements@[index].value() is Some
        &&& s.elements@.len() == s0.elements@.len()
        &&& forall|j: int| 0 <= j < s.elements@.len() && j != index ==> s.elements@[j] == s0.elements@[j]
        &&& s.elements@[index].value() is Some
        &&& s.elements@[index].guard_spec() == s0.elements@[index].guard_spec()
        &&& s.same_frame(&s0)
        &&& s.free_list == s0.free_list
        &&& s.next_free == s0.next_free
    }

    /// Replacing the element of an occupied slot keeps the colony well formed.
    proof fn lemma_value_replaced(s0: Self, s: Self, index: int)
        requires
            s0.wf(),
            0 <= index < s0.elements@.len(),
            s0.elements@[index].value() is Some,
            s.elements@.len() == s0.elements@.len(),
            forall|j: int| 0 <= j < s.elements@.len() && j != index ==> s.elements@[j] == s0.elements@[j],
            s.elements@[index].value() is Some,
            s.elements@[index].guard_spec() == s0.elements@[index].guard_spec(),
            s.same_frame(&s0),
            s.free_list == s0.free_list,
            s.next_free == s0.next_free,
        ensures
            s.wf(),
            s.slots() == s0.slots().update(index, s.slots()[index]),
            s.guards() == s0.guards(),
    {
        let e0 = s0.elements@;
        let e = s.elements@;
        assert(s.slots() =~= s0.slots().update(index, s.slots()[index]));
        assert(s.guards() =~= s0.guards());
        lemma_count_some_update(s0.slots(), index, s.slots()[index]);
        assert forall|k: int| 0 <= k < s.free_list@.len() implies #[trigger] s.free_list@[k] != index by {
            assert(head_at(e0, s0.free_list@[k] as int));
        }
        assert forall|i: int| 0 <= i < e0.len() && s.free_list@.contains(i as usize) implies e[i] == e0[i] by {}
        lemma_links_frame(e0, e, s.free_list@, s.next_free@);
        assert forall|k: int| 0 <= k < s.free_list@.len() implies head_at(e, #[trigger] s.free_list@[k] as int) by {
            assert(head_at(e0, s0.free_list@[k] as int));
        }
        assert forall|h: int| head_at(e, h) implies s.free_list@.contains(h as usize) by {
            assert(head_at(e0, h));
        }
        assert forall|i: int| 0 <= i < s.capacity implies #[trigger] s.skipfield@[i] == (i < s.touched && e[i].value()
            is None) by {
            assert(s0.skipfield@[i] == (i < s0.touched && e0[i].value() is None));
        }
        assert forall|i: int| 0 <= i < e.len() implies (#[trigger] e[i]).guard_spec().wf() && (e[i].value() is Some
            ==> e[i].guard_spec().filled()) && (e[i].value() is None ==> e[i].guard_spec().emptied()) by {
            assert(e0[i].guard_spec().wf());
        }
        lemma_count_some_bound(s.slots());
    }

    /// The element of an occupied slot, by index, for change in place.
    pub fn get_unchecked_mut(&mut self, index: usize) -> (r: &mut T)
        requires
            old(self).wf(),
            index < old(self).slots().len(),
            old(self).slots()[index as int] is Some,
        ensures
            *r == old(self).slots()[index as int]->0,
            final(self).wf(),
            final(self).slots() == old(self).slots().update(index as int, Some(*final(r))),
            final(self).guards() == old(self).guards(),
            final(self).spec_len() == old(self).spec_len(),
            final(self).spec_capacity() == old(self).spec_capacity(),
            final(self).colony_id() == old(self).colony_id(),
    {
        let ghost s0 = *self;
        proof {
            assert forall|s: Self| Self::value_replaced(s0, s, index as int) implies #[trigger] s.wf() && s.slots()
                == s0.slots().update(index as int, s.slots()[index as int]) && s.guards() == s0.guards() by {
                Self::lemma_value_replaced(s0, s, index as int);
            }
        }
        let slot = &mut self.elements[index];
        let r = match &mut slot.inner {
            SlotInner::Occupied(v) => v,
            SlotInner::Unoccupied(_) => vstd::pervasive::unreached(),
        };
        r
    }

    /// The element that `handle` names, for change in place, if it is still there.
    pub fn get_mut(&mut self, handle: G::Handle) -> (r: Option<&mut T>)
        where
            G: CheckedGuard,
        requires
            old(self).wf(),
        ensures
            final(self).wf(),
            old(self).valid_handle(handle) ==> {
                let i = G::index_of(handle);
                &&& r is Some
                &&& *(r->0) == old(self).slots()[i]->0
                &&& final(self).slots() == old(self).slots().update(i, Some(*final(r->0)))
            },
            !old(self).valid_handle(handle) ==> r is None && final(self).slots() == old(self).slots(),
            final(self).guards() == old(self).guards(),
            final(self).spec_len() == old(self).spec_len(),
            final(self).spec_capacity() == old(self).spec_capacity(),
            final(self).colony_id() == old(self).colony_id(),
    {
        let index = G::__extract_index(&handle);
        if index >= self.touched {
            return None;
        }
        if !self.elements[index].guard.__check(&handle, &self.id) || !self.elements[index].is_occupied() {
            return None;
        }
        Some(self.get_unchecked_mut(index))
    }
}

impl<T> Colony<T, GenerationGuard> {
    /// An empty colony using [`GenerationGuard`]; it does not allocate.
    pub fn new() -> (r: Self)
        ensures
            r.wf(),
            r.slots() == Seq::<Option<T>>::empty(),
            r.spec_len() == 0,
            r.spec_capacity() == 0,
            r.free_list() == Seq::<usize>::empty(),
            r.colony_id() == guard::SENTINEL_COLONY_ID,
    {
        Self::empty_colony()
    }
}

impl<T> Colony<T, FlagGuard> {
    /// An empty colony using [`FlagGuard`]; it does not allocate.
    pub fn flagged() -> (r: Self)
        ensures
            r.wf(),
            r.slots() == Seq::<Option<T>>::empty(),
            r.spec_len() == 0,
            r.spec_capacity() == 0,
            r.free_list() == Seq::<usize>::empty(),
    {
        Self::empty_colony()
    }
}

impl<T> Colony<T, NoGuard> {
    /// An empty colony using [`NoGuard`]; it does not allocate.
    pub fn unguarded() -> (r: Self)
        ensures
            r.wf(),
            r.slots() == Seq::<Option<T>>::empty(),
            r.spec_len() == 0,
            r.spec_capacity() == 0,
            r.free_list() == Seq::<usize>::empty(),
    {
        Self::empty_colony()
    }
}

impl<T, G: Guard> Default for Colony<T, G> {
    fn default() -> (r: Self)
        ensures
            r.wf(),
            r.slots() == Seq::<Option<T>>::empty(),
            r.spec_len() == 0,
            r.spec_capacity() == 0,
            r.free_list() == Seq::<usize>::empty(),
    {
        Self::empty_colony()
    }
}

} // verus!
