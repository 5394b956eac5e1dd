use vstd::prelude::*;

use crate::guard::Guard;
use crate::count::{count_some, lemma_count_some_update, lemma_occupied_from, lemma_occupied_step, occupied_from};
use crate::Colony;

verus! {

/// A cursor over the occupied slots of a colony: the next index to look at, and how many
/// elements lie at or after it.
#[derive(Clone, Copy)]
pub struct RawIter {
    current_index: usize,
    len: usize,
}

impl RawIter {
    /// The cursor is in step with `colony`.
    pub closed spec fn wf_for<T, G: Guard>(&self, colony: Colony<T, G>) -> bool {
        &&& colony.wf()
        &&& self.current_index <= colony.slots().len()
        &&& (self.current_index == 0 || colony.slots()[self.current_index - 1] is Some)
        &&& self.len == count_some(colony.slots().subrange(self.current_index as int, colony.slots().len() as int))
    }

    /// The next index to look at.
    pub closed spec fn cursor(&self) -> int {
        self.current_index as int
    }

    /// The number of elements still to come.
    pub closed spec fn remaining(&self) -> nat {
        self.len as nat
    }

    /// Changing the element of an occupied slot keeps the cursor in step.
    pub proof fn lemma_value_changed<T, G: Guard>(&self, c1: Colony<T, G>, c2: Colony<T, G>, i: int, x: T)
        requires
            self.wf_for(c1),
            c2.wf(),
            0 <= i < c1.slots().len(),
            c1.slots()[i] is Some,
            c2.slots() == c1.slots().update(i, Some(x)),
        ensures
            self.wf_for(c2),
    {
        let a = self.current_index as int;
        let n = c1.slots().len() as int;
        if i >= a {
            assert(c2.slots().subrange(a, n) =~= c1.slots().subrange(a, n).update(i - a, Some(x)));
            lemma_count_some_update(c1.slots().subrange(a, n), i - a, Some(x));
        } else {
            assert(c2.slots().subrange(a, n) =~= c1.slots().subrange(a, n));
        }
    }

    /// A cursor at the start of `colony`.
    pub fn new<T, G: Guard>(colony: &Colony<T, G>) -> (r: Self)
        requires
            colony.wf(),
        ensures
            r.wf_for(*colony),
            r.cursor() == 0,
            r.remaining() == colony.spec_len(),
    {
        let r = RawIter { current_index: 0, len: colony.len() };
        proof {
            assert(colony.slots().subrange(0, colony.slots().len() as int) =~= colony.slots());
        }
        r
    }

    /// Moves to the first occupied index at or after the cursor and returns it, or `None`
    /// once every element was visited.
    pub fn next<T, G: Guard>(&mut self, colony: &Colony<T, G>) -> (r: Option<usize>)
        requires
            old(self).wf_for(*colony),
        ensures
            final(self).wf_for(*colony),
            old(self).remaining() == 0 ==> r is None && *final(self) == *old(self),
            old(self).remaining() > 0 ==> {
                let i = r->0 as int;
                &&& r is Some
                &&& old(self).cursor() <= i < colony.slots().len()
                &&& colony.slots()[i] is Some
                &&& forall|m: int| old(self).cursor() <= m < i ==> #[trigger] colony.slots()[m] is None
                &&& final(self).cursor() == i + 1
                &&& final(self).remaining() + 1 == old(self).remaining()
                &&& occupied_from(colony.slots(), old(self).cursor()) == seq![i].add(
                    occupied_from(colony.slots(), final(self).cursor()),
                )
            },
            old(self).remaining() == occupied_from(colony.slots(), old(self).cursor()).len(),
    {
        proof {
            lemma_occupied_from(colony.slots(), self.current_index as int);
        }
        if self.len == 0 {
            return None;
        }
        let index = colony.next_occupied(self.current_index);
        proof {
            lemma_occupied_step(colony.slots(), self.current_index as int, index as int);
        }
        self.current_index = index + 1;
        self.len = self.len - 1;
        Some(index)
    }
}

/// An iterator over the elements of a colony and their handles, by ascending index.
pub struct Iter<'a, T, G: Guard> {
    raw: RawIter,
    colony: &'a Colony<T, G>,
}

impl<'a, T, G: Guard> Iter<'a, T, G> {
    /// The iterator is in step with its colony.
    pub closed spec fn wf(&self) -> bool {
        self.raw.wf_for(*self.colony)
    }

    /// The colony iterated over.
    pub closed spec fn colony(&self) -> Colony<T, G> {
        *self.colony
    }

    /// The next index to look at.
    pub closed spec fn cursor(&self) -> int {
        self.raw.cursor()
    }

    /// The number of elements still to come.
    pub closed spec fn remaining(&self) -> nat {
        self.raw.remaining()
    }

    /// An iterator at the start of `colony`.
    pub fn new(colony: &'a Colony<T, G>) -> (r: Self)
        requires
            colony.wf(),
        ensures
            r.wf(),
            r.colony() == *colony,
            r.cursor() == 0,
            r.remaining() == colony.spec_len(),
    {
        Iter { raw: RawIter::new(colony), colony }
    }

    /// An iterator at the same place, which goes on independently.
    pub fn clone(&self) -> (r: Self)
        requires
            self.wf(),
        ensures
            r.wf(),
            r.colony() == self.colony(),
            r.cursor() == self.cursor(),
            r.remaining() == self.remaining(),
    {
        Iter { raw: self.raw, colony: self.colony }
    }

    /// The next element and its handle: the first occupied slot at or after the cursor.
    pub fn next(&mut self) -> (r: Option<(G::Handle, &'a T)>)
        requires
            old(self).wf(),
        ensures
            final(self).wf(),
            final(self).colony() == old(self).colony(),
            old(self).remaining() == 0 ==> r is None && final(self).cursor() == old(self).cursor()
                && final(self).remaining() == 0,
            old(self).remaining() > 0 ==> {
                let c = old(self).colony();
                let i = G::index_of((r->0).0);
                &&& r is Some
                &&& old(self).cursor() <= i < c.slots().len()
                &&& c.slots()[i] is Some
                &&& *(r->0).1 == c.slots()[i]->0
                &&& (r->0).0 == c.guards()[i].minted(i as usize, c.colony_id())
                &&& forall|m: int| old(self).cursor() <= m < i ==> #[trigger] c.slots()[m] is None
                &&& final(self).cursor() == i + 1
                &&& final(self).remaining() + 1 == old(self).remaining()
                &&& occupied_from(c.slots(), old(self).cursor()) == seq![i].add(
                    occupied_from(c.slots(), final(self).cursor()),
                )
            },
            old(self).remaining() == occupied_from(old(self).colony().slots(), old(self).cursor()).len(),
    {
        match self.raw.next(self.colony) {
            None => None,
            Some(index) => {
                let handle = self.colony.handle_at(index);
                let value = self.colony.get_unchecked(index);
                Some((handle, value))
            },
        }
    }

    /// Exactly the number of elements still to come.
    pub fn size_hint(&self) -> (r: (usize, Option<usize>))
        requires
            self.wf(),
        ensures
            r.0 == self.remaining(),
            r.1 == Some(self.remaining() as usize),
    {
        (self.raw.len, Some(self.raw.len))
    }
}

/// An iterator over the elements of a colony alone, by ascending index.
pub struct Values<'a, T, G: Guard> {
    iter: Iter<'a, T, G>,
}

impl<'a, T, G: Guard> Values<'a, T, G> {
    /// The iterator is in step with its colony.
    pub closed spec fn wf(&self) -> bool {
        self.iter.wf()
    }

    /// The colony iterated over.
    pub closed spec fn colony(&self) -> Colony<T, G> {
        self.iter.colony()
    }

    /// The next index to look at.
    pub closed spec fn cursor(&self) -> int {
        self.iter.cursor()
    }

    /// The number of elements still to come.
    pub closed spec fn remaining(&self) -> nat {
        self.iter.remaining()
    }

    /// An iterator at the start of `colony`.
    pub fn new(colony: &'a Colony<T, G>) -> (r: Self)
        requires
            colony.wf(),
        ensures
            r.wf(),
            r.colony() == *colony,
            r.cursor() == 0,
            r.remaining() == colony.spec_len(),
    {
        Values { iter: Iter::new(colony) }
    }

    /// An iterator at the same place, which goes on independently.
    pub fn clone(&self) -> (r: Self)
        requires
            self.wf(),
        ensures
            r.wf(),
            r.colony() == self.colony(),
            r.cursor() == self.cursor(),
            r.remaining() == self.remaining(),
    {
        Values { iter: self.iter.clone() }
    }

    /// The next element: the one in the first occupied slot at or after the cursor.
    pub fn next(&mut self) -> (r: Option<&'a T>)
        requires
            old(self).wf(),
        ensures
            final(self).wf(),
            final(self).colony() == old(self).colony(),
            old(self).remaining() == 0 ==> r is None && final(self).remaining() == 0,
            old(self).remaining() > 0 ==> {
                let c = old(self).colony();
                let i = final(self).cursor() - 1;
                &&& r is Some
                &&& old(self).cursor() <= i < c.slots().len()
                &&& c.slots()[i] is Some
                &&& *(r->0) == c.slots()[i]->0
                &&& forall|m: int| old(self).cursor() <= m < i ==> #[trigger] c.slots()[m] is None
                &&& final(self).remaining() + 1 == old(self).remaining()
                &&& occupied_from(c.slots(), old(self).cursor()) == seq![i].add(
                    occupied_from(c.slots(), final(self).cursor()),
                )
            },
            old(self).remaining() == occupied_from(old(self).colony().slots(), old(self).cursor()).len(),
    {
        match self.iter.next() {
            None => None,
            Some((_, value)) => Some(value),
        }
    }

    /// Exactly the number of elements still to come.
    pub fn size_hint(&self) -> (r: (usize, Option<usize>))
        requires
            self.wf(),
        ensures
            r.0 == self.remaining(),
            r.1 == Some(self.remaining() as usize),
    {
        self.iter.size_hint()
    }
}

/// An iterator over the elements of a colony and their handles, by ascending index, that
/// lends each element for change in place.
pub struct IterMut<'a, T, G: Guard> {
    raw: RawIter,
    colony: &'a mut Colony<T, G>,
}

impl<'a, T, G: Guard> IterMut<'a, T, G> {
    /// The iterator is in step with its colony.
    pub closed spec fn wf(&self) -> bool {
        self.raw.wf_for(*self.colony)
    }

    /// The colony iterated over, as it stands.
    pub closed spec fn colony(&self) -> Colony<T, G> {
        *self.colony
    }

    /// The next index to look at.
    pub closed spec fn cursor(&self) -> int {
        self.raw.cursor()
    }

    /// The number of elements still to come.
    pub closed spec fn remaining(&self) -> nat {
        self.raw.remaining()
    }

    /// An iterator at the start of `colony`.
    pub fn new(colony: &'a mut Colony<T, G>) -> (r: Self)
        requires
            old(colony).wf(),
        ensures
            r.wf(),
            r.colony() == *old(colony),
            r.cursor() == 0,
            r.remaining() == old(colony).spec_len(),
    {
        let raw = RawIter::new(colony);
        IterMut { raw, colony }
    }

    /// A shared iterator at the same place, for reading what is still to come.
    pub fn reborrow(&self) -> (r: Iter<'_, T, G>)
        requires
            self.wf(),
        ensures
            r.wf(),
            r.colony() == self.colony(),
            r.cursor() == self.cursor(),
            r.remaining() == self.remaining(),
    {
        Iter { raw: self.raw, colony: &*self.colony }
    }

    /// The next element and its handle: the first occupied slot at or after the cursor.
    pub fn next(&mut self) -> (r: Option<(G::Handle, &mut T)>)
        requires
            old(self).wf(),
        ensures
            final(self).wf(),
            old(self).remaining() == 0 ==> r is None && final(self).colony() == old(self).colony()
                && final(self).remaining() == 0,
            old(self).remaining() > 0 ==> {
                let c = old(self).colony();
                let i = G::index_of((r->0).0);
                &&& r is Some
                &&& old(self).cursor() <= i < c.slots().len()
                &&& c.slots()[i] is Some
                &&& *(r->0).1 == c.slots()[i]->0
                &&& (r->0).0 == c.guards()[i].minted(i as usize, c.colony_id())
                &&& forall|m: int| old(self).cursor() <= m < i ==> #[trigger] c.slots()[m] is None
                &&& final(self).cursor() == i + 1
                &&& final(self).remaining() + 1 == old(self).remaining()
                &&& final(self).colony().slots() == c.slots().update(i, Some(*final((r->0).1)))
                &&& final(self).colony().guards() == c.guards()
            },
    {
        match self.raw.next(self.colony) {
            None => None,
            Some(index) => {
                let handle = self.colony.handle_at(index);
                let ghost raw = self.raw;
                let ghost c1 = *self.colony;
                proof {
                    assert forall|c2: Colony<T, G>|
                        c2.wf() && c2.slots().len() == c1.slots().len() && c2.slots()[index as int] is Some
                            && c2.slots() == c1.slots().update(index as int, c2.slots()[index as int]) implies #[trigger] raw.wf_for(
                        c2,
                    ) by {
                        raw.lemma_value_changed(c1, c2, index as int, c2.slots()[index as int]->0);
                    }
                }
                let value = self.colony.get_unchecked_mut(index);
                Some((handle, value))
            },
        }
    }

    /// Exactly the number of elements still to come.
    pub fn size_hint(&self) -> (r: (usize, Option<usize>))
        requires
            self.wf(),
        ensures
            r.0 == self.remaining(),
            r.1 == Some(self.remaining() as usize),
    {
        (self.raw.len, Some(self.raw.len))
    }
}

/// An iterator over the elements of a colony alone, by ascending index, that lends each
/// element for change in place.
pub struct ValuesMut<'a, T, G: Guard> {
    iter: IterMut<'a, T, G>,
}

impl<'a, T, G: Guard> ValuesMut<'a, T, G> {
    /// The iterator is in step with its colony.
    pub closed spec fn wf(&self) -> bool {
        self.iter.wf()
    }

    /// The colony iterated over, as it stands.
    pub closed spec fn colony(&self) -> Colony<T, G> {
        self.iter.colony()
    }

    /// The next index to look at.
    pub closed spec fn cursor(&self) -> int {
        self.iter.cursor()
    }

    /// The number of elements still to come.
    pub closed spec fn remaining(&self) -> nat {
        self.iter.remaining()
    }

    /// An iterator at the start of `colony`.
    pub fn new(colony: &'a mut Colony<T, G>) -> (r: Self)
        requires
            old(colony).wf(),
        ensures
            r.wf(),
            r.colony() == *old(colony),
            r.cursor() == 0,
            r.remaining() == old(colony).spec_len(),
    {
        ValuesMut { iter: IterMut::new(colony) }
    }

    /// A shared iterator at the same place, for reading what is still to come.
    pub fn reborrow(&self) -> (r: Values<'_, T, G>)
        requires
            self.wf(),
        ensures
            r.wf(),
            r.colony() == self.colony(),
            r.cursor() == self.cursor(),
            r.remaining() == self.remaining(),
    {
        Values { iter: self.iter.reborrow() }
    }

    /// The next element: the one in the first occupied slot at or after the cursor.
    pub fn next(&mut self) -> (r: Option<&mut T>)
        requires
            old(self).wf(),
        ensures
            final(self).wf(),
            old(self).remaining() == 0 ==> r is None && final(self).colony() == old(self).colony()
                && final(self).remaining() == 0,
            old(self).remaining() > 0 ==> {
                let c = old(self).colony();
                let i = final(self).cursor() - 1;
                &&& r is Some
                &&& old(self).cursor() <= i < c.slots().len()
                &&& c.slots()[i] is Some
                &&& *(r->0) == c.slots()[i]->0
                &&& forall|m: int| old(self).cursor() <= m < i ==> #[trigger] c.slots()[m] is None
                &&& final(self).remaining() + 1 == old(self).remaining()
                &&& final(self).colony().slots() == c.slots().update(i, Some(*final(r->0)))
            },
    {
        match self.iter.next() {
            None => None,
            Some((_, value)) => Some(value),
        }
    }

    /// Exactly the number of elements still to come.
    pub fn size_hint(&self) -> (r: (usize, Option<usize>))
        requires
            self.wf(),
        ensures
            r.0 == self.remaining(),
            r.1 == Some(self.remaining() as usize),
    {
        self.iter.size_hint()
    }
}

} // verus!
