use vstd::prelude::*;
use crate::linked_list::LinkedList;

verus! {

/// A double-ended queue, open at both ends.
pub struct List<T> {
    inner: LinkedList<T>,
}

impl<T> List<T> {
    /// The elements, from front to back.
    pub closed spec fn view(&self) -> Seq<T> {
        self.inner@
    }

    /// The underlying list is well formed.
    pub closed spec fn well_formed(&self) -> bool {
        self.inner.well_formed()
    }

    /// Creates an empty queue.
    pub fn new() -> (r: Self)
        ensures
            r.well_formed(),
            r@ == Seq::<T>::empty(),
    {
        List { inner: LinkedList::new() }
    }

    /// Adds an element at the front.
    pub fn push_front(&mut self, elem: T)
        requires
            old(self).well_formed(),
            old(self)@.len() < usize::MAX,
        ensures
            final(self).well_formed(),
            final(self)@ == seq![elem] + old(self)@,
    {
        self.inner.push_front(elem);
    }

    /// Adds an element at the back.
    pub fn push_back(&mut self, elem: T)
        requires
            old(self).well_formed(),
            old(self)@.len() < usize::MAX,
        ensures
            final(self).well_formed(),
            final(self)@ == old(self)@.push(elem),
    {
        self.inner.push_back(elem);
    }

    /// Removes the front element and returns it, or `None` if the queue is empty.
    pub fn pop_front(&mut self) -> (r: Option<T>)
        requires
            old(self).well_formed(),
        ensures
            final(self).well_formed(),
            old(self)@.len() == 0 ==> r == None::<T> && final(self)@ == old(self)@,
            old(self)@.len() > 0 ==> r == Some(old(self)@[0]) && final(self)@ == old(self)@.drop_first(),
    {
        self.inner.pop_front()
    }

    /// Removes the back element and returns it, or `None` if the queue is empty.
    pub fn pop_back(&mut self) -> (r: Option<T>)
        requires
            old(self).well_formed(),
        ensures
            final(self).well_formed(),
            old(self)@.len() == 0 ==> r == None::<T> && final(self)@ == old(self)@,
            old(self)@.len() > 0 ==> r == Some(old(self)@.last()) && final(self)@ == old(self)@.drop_last(),
    {
        self.inner.pop_back()
    }

    /// A reference to the front element, or `None` if the queue is empty.
    pub fn peek_front(&self) -> (r: Option<&T>)
        requires
            self.well_formed(),
        ensures
            self@.len() == 0 ==> r == None::<&T>,
            self@.len() > 0 ==> r == Some(&self@[0]),
    {
        self.inner.front()
    }

    /// A mutable reference to the front element, or `None` if the queue is empty.
    pub fn peek_front_mut(&mut self) -> (r: Option<&mut T>)
        requires
            old(self).well_formed(),
        ensures
            old(self)@.len() == 0 ==> r == None::<&mut T> && *final(self) == *old(self),
            old(self)@.len() > 0 ==> r is Some && *r->Some_0 == old(self)@[0] && final(self).well_formed()
                && final(self)@ =~= old(self)@.update(0, *final(r->Some_0)),
    {
        self.inner.front_mut()
    }

    /// A reference to the back element, or `None` if the queue is empty.
    pub fn peek_back(&self) -> (r: Option<&T>)
        requires
            self.well_formed(),
        ensures
            self@.len() == 0 ==> r == None::<&T>,
            self@.len() > 0 ==> r == Some(&self@.last()),
    {
        self.inner.back()
    }

    /// A mutable reference to the back element, or `None` if the queue is empty.
    pub fn peek_back_mut(&mut self) -> (r: Option<&mut T>)
        requires
            old(self).well_formed(),
        ensures
            old(self)@.len() == 0 ==> r == None::<&mut T> && *final(self) == *old(self),
            old(self)@.len() > 0 ==> r is Some && *r->Some_0 == old(self)@.last() && final(self).well_formed()
                && final(self)@ =~= old(self)@.update(old(self)@.len() - 1, *final(r->Some_0)),
    {
        self.inner.back_mut()
    }
}

} // verus!
