use vstd::prelude::*;
use crate::linked_list;
use crate::linked_list::LinkedList;

verus! {

/// A first-in first-out queue: elements go in at the back and come out at
/// the front.
pub struct List<T> {
    inner: LinkedList<T>,
}

impl<T> List<T> {
    /// The elements, from front to back.
    pub closed spec fn view(&self) -> Seq<T> {
        self.inner@
    }

    /// The underlying list is well formed.
    pub closed spec fn well_formed(&self) -> bool {
        self.inner.well_formed()
    }

    /// Creates an empty queue.
    pub fn new() -> (r: Self)
        ensures
            r.well_formed(),
            r@ == Seq::<T>::empty(),
    {
        List { inner: LinkedList::new() }
    }

    /// Adds an element at the back.
    pub fn push_back(&mut self, elem: T)
        requires
            old(self).well_formed(),
            old(self)@.len() < usize::MAX,
        ensures
            final(self).well_formed(),
            final(self)@ == old(self)@.push(elem),
    {
        self.inner.push_back(elem);
    }

    /// Removes the front element and returns it, or `None` if the queue is empty.
    pub fn pop_front(&mut self) -> (r: Option<T>)
        requires
            old(self).well_formed(),
        ensures
            final(self).well_formed(),
            old(self)@.len() == 0 ==> r == None::<T> && final(self)@ == old(self)@,
            old(self)@.len() > 0 ==> r == Some(old(self)@[0]) && final(self)@ == old(self)@.drop_first(),
    {
        self.inner.pop_front()
    }

    /// Turns the queue into an iterator that hands out its elements by value.
    pub fn into_iter(self) -> (r: IntoIter<T>)
        requires
            self.well_formed(),
        ensures
            r.well_formed(),
            r.remaining() == self@,
    {
        IntoIter { list: self }
    }

    /// Returns an iterator over the elements, front to back.
    pub fn iter(&self) -> (r: Iter<'_, T>)
        requires
            self.well_formed(),
        ensures
            r.well_formed(),
            r.remaining() == self@,
    {
        Iter { inner: self.inner.iter() }
    }

    /// Returns an iterator over mutable references to the elements, front to back.
    pub fn iter_mut(&mut self) -> (r: IterMut<'_, T>)
        requires
            old(self).well_formed(),
        ensures
            r.well_formed(),
            r.remaining() == old(self)@,
            final(self)@ == (*final(r.inner.list))@,
            final(self).well_formed() == (*final(r.inner.list)).well_formed(),
    {
        IterMut { inner: self.inner.iter_mut() }
    }

    /// A reference to the front element, or `None` if the queue is empty.
    pub fn peek(&self) -> (r: Option<&T>)
        requires
            self.well_formed(),
        ensures
            self@.len() == 0 ==> r == None::<&T>,
            self@.len() > 0 ==> r == Some(&self@[0]),
    {
        self.inner.front()
    }

    /// A mutable reference to the front element, or `None` if the queue is empty.
    pub fn peek_mut(&mut self) -> (r: Option<&mut T>)
        requires
            old(self).well_formed(),
        ensures
            old(self)@.len() == 0 ==> r == None::<&mut T> && *final(self) == *old(self),
            old(self)@.len() > 0 ==> r is Some && *r->Some_0 == old(self)@[0] && final(self).well_formed()
                && final(self)@ =~= old(self)@.update(0, *final(r->Some_0)),
    {
        self.inner.front_mut()
    }
}

/// Iterator that takes the elements out of a queue, front first.
pub struct IntoIter<T> {
    list: List<T>,
}

impl<T> IntoIter<T> {
    /// The elements not yet handed out, front to back.
    pub closed spec fn remaining(&self) -> Seq<T> {
        self.list@
    }

    /// The queue that is left is well formed.
    pub closed spec fn well_formed(&self) -> bool {
        self.list.well_formed()
    }

    /// Takes out the front element, or returns `None` when none is left.
    pub fn next(&mut self) -> (r: Option<T>)
        requires
            old(self).well_formed(),
        ensures
            final(self).well_formed(),
            old(self).remaining().len() == 0 ==> r == None::<T> && final(self).remaining() == old(self).remaining(),
            old(self).remaining().len() > 0 ==> r == Some(old(self).remaining()[0]) && final(self).remaining()
                == old(self).remaining().drop_first(),
    {
        self.list.pop_front()
    }
}

/// Iterator over shared references to the elements of a queue, front first.
pub struct Iter<'a, T> {
    inner: linked_list::Iter<'a, T>,
}

impl<'a, T> Iter<'a, T> {
    /// The elements not yet handed out, front to back.
    pub closed spec fn remaining(&self) -> Seq<T> {
        self.inner.remaining()
    }

    /// The underlying list is well formed.
    pub closed spec fn well_formed(&self) -> bool {
        self.inner.well_formed()
    }

    /// Hands out the front element that is left, or `None` when none is.
    pub fn next(&mut self) -> (r: Option<&'a T>)
        requires
            old(self).well_formed(),
        ensures
            final(self).well_formed(),
            old(self).remaining().len() == 0 ==> r == None::<&T> && final(self).remaining() == old(self).remaining(),
            old(self).remaining().len() > 0 ==> r == Some(&old(self).remaining()[0]) && final(self).remaining()
                == old(self).remaining().drop_first(),
    {
        self.inner.next()
    }
}

/// Iterator over mutable references to the elements of a queue, front
/// first. Each reference lives until the next call.
pub struct IterMut<'a, T> {
    /// The iterator over the underlying list.
    pub inner: linked_list::IterMut<'a, T>,
}

impl<'a, T> IterMut<'a, T> {
    /// The elements not yet handed out, front to back.
    pub open spec fn remaining(&self) -> Seq<T> {
        self.inner.remaining()
    }

    /// The underlying iterator is well formed.
    pub open spec fn well_formed(&self) -> bool {
        self.inner.well_formed()
    }

    /// Hands out the front element that is left, or `None` when none is.
    pub fn next(&mut self) -> (r: Option<&mut T>)
        requires
            old(self).well_formed(),
        ensures
            old(self).remaining().len() == 0 ==> r == None::<&mut T> && *final(self) == *old(self),
            old(self).remaining().len() > 0 ==> ({
                let j = old(self).inner.span.first();
                &&& r is Some
                &&& *r->Some_0 == old(self).remaining()[0]
                &&& final(self).well_formed()
                &&& final(self).inner.span.first() == j + 1
                &&& final(self).inner.span.count() == old(self).inner.span.count() - 1
                &&& (*final(self).inner.list)@ =~= (*old(self).inner.list)@.update(j, *final(r->Some_0))
                &&& *final(final(self).inner.list) == *final(old(self).inner.list)
            }),
    {
        self.inner.next()
    }
}

} // verus!
