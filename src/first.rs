use vstd::prelude::*;

verus! {

/// One node of a stack's chain.
struct Node<T> {
    elem: T,
    next: Link<T>,
}

/// The link to the rest of a chain: none, or the next boxed node.
enum Link<T> {
    Empty,
    More(Box<Node<T>>),
}

/// The elements of a chain, from its first node on.
spec fn chain<T>(l: &Link<T>) -> Seq<T>
    decreases l,
{
    match l {
        Link::Empty => Seq::empty(),
        Link::More(node) => seq![node.elem] + chain(&node.next),
    }
}

/// A stack of elements, the most recently pushed on top.
pub struct List<T> {
    head: Link<T>,
}

impl<T> List<T> {
    /// The elements, from the top of the stack down.
    pub closed spec fn view(&self) -> Seq<T> {
        chain(&self.head)
    }

    /// Creates an empty stack.
    pub fn new() -> (r: Self)
        ensures
            r@ == Seq::<T>::empty(),
    {
        List { head: Link::Empty }
    }

    /// Puts an element on top of the stack.
    pub fn push(&mut self, elem: T)
        ensures
            final(self)@ == seq![elem] + old(self)@,
    {
        let mut rest = Link::Empty;
        core::mem::swap(&mut self.head, &mut rest);
        self.head = Link::More(Box::new(Node { elem, next: rest }));
    }

    /// Takes the top element off the stack, or returns `None` if it is empty.
    pub fn pop(&mut self) -> (r: Option<T>)
        ensures
            old(self)@.len() == 0 ==> r == None::<T> && final(self)@ == old(self)@,
            old(self)@.len() > 0 ==> r == Some(old(self)@[0]) && final(self)@ == old(self)@.drop_first(),
    {
        let mut top = Link::Empty;
        core::mem::swap(&mut self.head, &mut top);
        match top {
            Link::Empty => None,
            Link::More(node) => {
                let Node { elem, next } = *node;
                self.head = next;
                proof {
                    assert(chain(&next) =~= old(self)@.drop_first());
                }
                Some(elem)
            },
        }
    }
}

impl<T> Drop for List<T> {
    /// Frees the chain node by node, so that a long stack does not recurse.
    fn drop(&mut self)
        opens_invariants none
        no_unwind
    {
        let mut cur = Link::Empty;
        core::mem::swap(&mut self.head, &mut cur);
        loop
            decreases cur,
        {
            match cur {
                Link::Empty => break,
                Link::More(mut node) => {
                    let mut next = Link::Empty;
                    core::mem::swap(&mut node.next, &mut next);
                    cur = next;
                },
            }
        }
    }
}

} // verus!
