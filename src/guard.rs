use std::collections::hash_map::RandomState;
use vstd::prelude::*;

verus! {

/// Keeps the set of guards closed: only the guards of this crate implement [`Guard`].
pub trait Sealed {

}

/// A guard kept beside each slot of a colony, which decides what a handle is and how
/// far a handle can be checked against the slot it names.
///
/// Members whose names start with `__` are the colony's own protocol with its guards.
pub trait Guard: Sized + Sealed {
    /// The type that identifies an element of a colony using this guard.
    type Handle;

    /// The identity of a colony, as far as this guard tells colonies apart.
    type __Id;

    /// The guard's own state is in range.
    spec fn wf(&self) -> bool;

    /// The guard may stand beside an occupied slot.
    spec fn filled(&self) -> bool;

    /// The guard may stand beside an unoccupied slot.
    spec fn emptied(&self) -> bool;

    /// The slot was retired: it must never be filled again.
    spec fn retired(&self) -> bool;

    /// The state of a new guard.
    spec fn initial() -> Self;

    /// The guard after its slot is filled.
    spec fn after_fill(&self) -> Self;

    /// The guard after its slot is emptied.
    spec fn after_empty(&self) -> Self;

    /// The index that a handle names.
    spec fn index_of(handle: Self::Handle) -> int;

    /// The handle minted for the element at `index` of the colony `colony_id`.
    spec fn minted(&self, index: usize, colony_id: Self::__Id) -> Self::Handle;

    /// The identity of a colony that never allocated.
    spec fn sentinel() -> Self::__Id;

    /// `id` may replace `previous` as a colony's identity.
    spec fn fresh(id: Self::__Id, previous: Self::__Id) -> bool;

    fn __new() -> (r: Self)
        ensures
            r == Self::initial(),
            r.wf(),
            r.filled(),
            !r.retired(),
    ;

    fn __sentinel_id() -> (r: Self::__Id)
        ensures
            r == Self::sentinel(),
    ;

    fn __new_id(previous: &Self::__Id) -> (r: Self::__Id)
        ensures
            Self::fresh(r, *previous),
    ;

    fn __new_handle(&self, index: usize, colony_id: &Self::__Id) -> (r: Self::Handle)
        requires
            self.wf(),
            self.filled(),
        ensures
            r == self.minted(index, *colony_id),
            Self::index_of(r) == index,
    ;

    fn __extract_index(handle: &Self::Handle) -> (r: usize)
        ensures
            r == Self::index_of(*handle),
    ;

    fn __reusable(&self) -> (r: bool)
        ensures
            r == !self.retired(),
    ;

    fn __fill(&mut self)
        requires
            old(self).wf(),
            old(self).emptied(),
            !old(self).retired(),
        ensures
            *final(self) == old(self).after_fill(),
            final(self).wf(),
            final(self).filled(),
    ;

    fn __empty(&mut self) -> (reuse: bool)
        requires
            old(self).wf(),
            old(self).filled(),
        ensures
            *final(self) == old(self).after_empty(),
            final(self).wf(),
            final(self).emptied(),
            reuse == !final(self).retired(),
    ;
}

/// A [`Guard`] whose handles can be checked, which enables the checked methods of a colony.
pub trait CheckedGuard: Guard {
    /// The handle passes this guard's check in the colony `colony_id`.
    spec fn check_spec(&self, handle: Self::Handle, colony_id: Self::__Id) -> bool;

    fn __check(&self, handle: &Self::Handle, colony_id: &Self::__Id) -> (r: bool)
        ensures
            r == self.check_spec(*handle, *colony_id),
    ;

    /// A handle minted from a filled guard passes that guard's check.
    proof fn lemma_minted_checks(g: Self, index: usize, colony_id: Self::__Id)
        requires
            g.wf(),
            g.filled(),
        ensures
            g.check_spec(g.minted(index, colony_id), colony_id),
            Self::index_of(g.minted(index, colony_id)) == index,
    ;
}

/// A guard of no size: a handle is a bare index and cannot be checked.
#[non_exhaustive]
pub struct NoGuard;

impl Sealed for NoGuard {

}

impl Guard for NoGuard {
    type Handle = usize;

    type __Id = ();

    open spec fn wf(&self) -> bool {
        true
    }

    open spec fn filled(&self) -> bool {
        true
    }

    open spec fn emptied(&self) -> bool {
        true
    }

    open spec fn retired(&self) -> bool {
        false
    }

    open spec fn initial() -> Self {
        NoGuard
    }

    open spec fn after_fill(&self) -> Self {
        *self
    }

    open spec fn after_empty(&self) -> Self {
        *self
    }

    open spec fn index_of(handle: usize) -> int {
        handle as int
    }

    open spec fn minted(&self, index: usize, colony_id: ()) -> usize {
        index
    }

    open spec fn sentinel() -> () {
        ()
    }

    open spec fn fresh(id: (), previous: ()) -> bool {
        true
    }

    fn __new() -> (r: Self) {
        NoGuard
    }

    fn __sentinel_id() -> (r: ()) {
    }

    fn __new_id(previous: &()) -> (r: ()) {
    }

    fn __new_handle(&self, index: usize, colony_id: &()) -> (r: usize) {
        index
    }

    fn __extract_index(handle: &usize) -> (r: usize) {
        *handle
    }

    fn __reusable(&self) -> (r: bool) {
        true
    }

    fn __fill(&mut self) {
    }

    fn __empty(&mut self) -> (reuse: bool) {
        true
    }
}

/// A one-byte guard that records whether its slot is occupied: a handle is an index,
/// checked only against occupancy.
pub struct FlagGuard {
    occupied: bool,
}

impl FlagGuard {
    /// Whether the slot is occupied.
    pub closed spec fn is_occupied(&self) -> bool {
        self.occupied
    }
}

impl Sealed for FlagGuard {

}

impl Guard for FlagGuard {
    type Handle = usize;

    type __Id = ();

    open spec fn wf(&self) -> bool {
        true
    }

    open spec fn filled(&self) -> bool {
        self.is_occupied()
    }

    open spec fn emptied(&self) -> bool {
        !self.is_occupied()
    }

    open spec fn retired(&self) -> bool {
        false
    }

    closed spec fn initial() -> Self {
        FlagGuard { occupied: true }
    }

    closed spec fn after_fill(&self) -> Self {
        FlagGuard { occupied: true }
    }

    closed spec fn after_empty(&self) -> Self {
        FlagGuard { occupied: false }
    }

    open spec fn index_of(handle: usize) -> int {
        handle as int
    }

    open spec fn minted(&self, index: usize, colony_id: ()) -> usize {
        index
    }

    open spec fn sentinel() -> () {
        ()
    }

    open spec fn fresh(id: (), previous: ()) -> bool {
        true
    }

    fn __new() -> (r: Self) {
        FlagGuard { occupied: true }
    }

    fn __sentinel_id() -> (r: ()) {
    }

    fn __new_id(previous: &()) -> (r: ()) {
    }

    fn __new_handle(&self, index: usize, colony_id: &()) -> (r: usize) {
        index
    }

    fn __extract_index(handle: &usize) -> (r: usize) {
        *handle
    }

    fn __reusable(&self) -> (r: bool) {
        true
    }

    fn __fill(&mut self) {
        self.occupied = true;
    }

    fn __empty(&mut self) -> (reuse: bool) {
        self.occupied = false;
        true
    }
}

impl CheckedGuard for FlagGuard {
    open spec fn check_spec(&self, handle: usize, colony_id: ()) -> bool {
        self.is_occupied()
    }

    fn __check(&self, handle: &usize, colony_id: &()) -> (r: bool) {
        self.occupied
    }

    proof fn lemma_minted_checks(g: Self, index: usize, colony_id: ()) {
    }
}

/// The identity of a colony that never allocated; no handle carries it.
pub const SENTINEL_COLONY_ID: u32 = 0;

/// The largest colony identity.
pub const MAX_COLONY_ID: u32 = 0xffff_ffff;

/// The generation at which a slot retires; it is odd, so a retired slot is empty.
pub const MAX_GENERATION: u32 = 0xffff;

/// The generation carried by a [`Handle`]: the identity of the colony that minted it and
/// the generation of its slot at the time.
#[derive(Copy, Clone, PartialEq, Eq, Structural, PartialOrd, Ord, Hash, Debug)]
pub struct Generation {
    colony_id: u32,
    generation: u16,
    // Always true; the byte it takes lets `Option<Handle>` use its spare values.
    issued: bool,
}

impl Generation {
    /// The colony identity, as a number.
    pub closed spec fn colony_id_spec(&self) -> u32 {
        self.colony_id
    }

    /// The slot generation, as a number.
    pub closed spec fn generation_spec(&self) -> u32 {
        self.generation as u32
    }

    fn new(colony_id: u32, generation: u32) -> (r: Self)
        requires
            colony_id != SENTINEL_COLONY_ID,
            generation <= MAX_GENERATION,
        ensures
            r.colony_id_spec() == colony_id,
            r.generation_spec() == generation,
    {
        Generation { colony_id, generation: generation as u16, issued: true }
    }

    /// The generation of the slot when the handle was minted.
    pub fn generation(&self) -> (r: u32)
        ensures
            r == self.generation_spec(),
    {
        self.generation as u32
    }

    /// The identity of the colony that minted the handle.
    pub fn colony_id(&self) -> (r: u32)
        ensures
            r == self.colony_id_spec(),
    {
        self.colony_id
    }
}

/// Identifies an element of a colony that uses [`GenerationGuard`] (the default).
///
/// When an element is removed, the generation of its slot moves on, so a handle to a
/// removed element cannot reach an element later stored at the same index. The generation
/// also names the colony, so handles of different colonies do not alias.
#[derive(Copy, Clone, PartialEq, Eq, Structural, PartialOrd, Ord, Hash, Debug)]
pub struct Handle {
    /// The index of the element.
    pub index: usize,
    /// The generation of the handle.
    pub generation: Generation,
}

/// The default guard: a generation counter per slot, even while the slot is occupied and
/// odd while it is empty. Handles carry the colony's identity as well.
pub struct GenerationGuard {
    generation: u32,
}

impl GenerationGuard {
    /// The slot's generation counter.
    pub closed spec fn counter(&self) -> u32 {
        self.generation
    }
}

/// Relies on `RandomState::new`: hashing keys initialised at random. Nothing is promised
/// of them; a colony uses them only to draw its identity.
#[verifier::external_body]
fn fresh_keys() -> RandomState {
    RandomState::new()
}

/// Relies on `BuildHasher::hash_one` for `RandomState`: the hash of `()` under the given
/// keys, any `u64`.
#[verifier::external_body]
fn hash_of_unit(keys: &RandomState) -> u64 {
    std::hash::BuildHasher::hash_one(keys, ())
}

impl Sealed for GenerationGuard {

}

impl Guard for GenerationGuard {
    type Handle = Handle;

    type __Id = u32;

    open spec fn wf(&self) -> bool {
        self.counter() <= MAX_GENERATION
    }

    open spec fn filled(&self) -> bool {
        self.counter() % 2 == 0
    }

    open spec fn emptied(&self) -> bool {
        self.counter() % 2 == 1
    }

    open spec fn retired(&self) -> bool {
        self.counter() == MAX_GENERATION
    }

    closed spec fn initial() -> Self {
        GenerationGuard { generation: 0 }
    }

    closed spec fn after_fill(&self) -> Self {
        GenerationGuard { generation: (self.generation + 1) as u32 }
    }

    closed spec fn after_empty(&self) -> Self {
        GenerationGuard { generation: (self.generation + 1) as u32 }
    }

    open spec fn index_of(handle: Handle) -> int {
        handle.index as int
    }

    closed spec fn minted(&self, index: usize, colony_id: u32) -> Handle {
        Handle {
            index,
            generation: Generation { colony_id, generation: self.generation as u16, issued: true },
        }
    }

    open spec fn sentinel() -> u32 {
        SENTINEL_COLONY_ID
    }

    open spec fn fresh(id: u32, previous: u32) -> bool {
        id != SENTINEL_COLONY_ID && id != previous
    }

    fn __new() -> (r: Self) {
        GenerationGuard { generation: 0 }
    }

    fn __sentinel_id() -> (r: u32) {
        SENTINEL_COLONY_ID
    }

    /// Draws an identity at random, other than the sentinel and `previous`. Two colonies
    /// draw the same identity only by a chance of one in `MAX_COLONY_ID`.
    fn __new_id(previous: &u32) -> (r: u32) {
        let keys = fresh_keys();
        let drawn = hash_of_unit(&keys);
        let id = (drawn % (MAX_COLONY_ID as u64)) as u32 + 1;
        if id != *previous {
            id
        } else if id < MAX_COLONY_ID {
            id + 1
        } else {
            1
        }
    }

    fn __new_handle(&self, index: usize, colony_id: &u32) -> (r: Handle) {
        Handle {
            index,
            generation: Generation { colony_id: *colony_id, generation: self.generation as u16, issued: true },
        }
    }

    fn __extract_index(handle: &Handle) -> (r: usize) {
        handle.index
    }

    fn __reusable(&self) -> (r: bool) {
        self.generation != MAX_GENERATION
    }

    fn __fill(&mut self) {
        self.generation = self.generation + 1;
    }

    fn __empty(&mut self) -> (reuse: bool) {
        self.generation = self.generation + 1;
        self.generation != MAX_GENERATION
    }
}

impl CheckedGuard for GenerationGuard {
    closed spec fn check_spec(&self, handle: Handle, colony_id: u32) -> bool {
        colony_id == handle.generation.colony_id && self.generation == handle.generation.generation as u32
    }

    fn __check(&self, handle: &Handle, colony_id: &u32) -> (r: bool) {
        *colony_id == handle.generation.colony_id() && self.generation == handle.generation.generation()
    }

    proof fn lemma_minted_checks(g: Self, index: usize, colony_id: u32) {
    }
}

/// Emptying a slot and filling it again moves its generation on by two, so the handle of
/// the new element differs from that of the old one at the same index.
pub proof fn lemma_refill_new_handle(g: GenerationGuard, i: usize, id: u32)
    requires
        g.wf(),
        g.filled(),
        !g.after_empty().retired(),
    ensures
        g.after_empty().after_fill().minted(i, id) != g.minted(i, id),
        g.after_empty().after_fill().minted(i, id).index == g.minted(i, id).index,
        g.after_empty().after_fill().counter() == g.counter() + 2,
{
}

/// Under `FlagGuard` and `NoGuard` a handle is its index, so refilling a slot gives the
/// same handle again.
pub proof fn lemma_refill_same_index(f: FlagGuard, n: NoGuard, i: usize)
    ensures
        f.after_empty().after_fill().minted(i, ()) == f.minted(i, ()),
        n.after_empty().after_fill().minted(i, ()) == n.minted(i, ()),
{
}

/// How a `GenerationGuard` counts: a new guard starts at 0, and emptying or filling its
/// slot adds one. A slot is retired only when its counter reaches `MAX_GENERATION`.
pub proof fn lemma_counter_steps(g: GenerationGuard)
    ensures
        GenerationGuard::initial().counter() == 0,
        g.wf() ==> g.after_empty().counter() == g.counter() + 1,
        g.wf() && g.counter() < MAX_GENERATION ==> g.after_fill().counter() == g.counter() + 1,
{
}

/// A handle minted by `GenerationGuard` carries the identity it was minted with.
pub proof fn lemma_minted_colony_id(g: GenerationGuard, i: usize, id: u32)
    ensures
        g.minted(i, id).generation.colony_id_spec() == id,
        g.minted(i, id).index == i,
{
}

/// A handle passes a `GenerationGuard`'s check only in the colony whose identity it carries.
pub proof fn lemma_check_needs_colony_id(g: GenerationGuard, handle: Handle, id: u32)
    ensures
        g.check_spec(handle, id) ==> handle.generation.colony_id_spec() == id,
{
}

} // verus!
