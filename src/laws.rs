use vstd::prelude::*;
use crate::linked_list::CursorMut;
use crate::linked_list::LinkedList;

verus! {

/// One of the list operations that add or remove an element at an end.
pub enum Op<T> {
    PushFront(T),
    PushBack(T),
    PopFront,
    PopBack,
}

/// The contents after `op` on contents `s`, as `push_front`, `push_back`,
/// `pop_front` and `pop_back` state it.
pub open spec fn step<T>(s: Seq<T>, op: Op<T>) -> Seq<T> {
    match op {
        Op::PushFront(x) => seq![x] + s,
        Op::PushBack(x) => s.push(x),
        Op::PopFront => if s.len() == 0 { s } else { s.drop_first() },
        Op::PopBack => if s.len() == 0 { s } else { s.drop_last() },
    }
}

/// What `op` on contents `s` returns: the element a pop takes out, `None`
/// for a pop on an empty list and for a push.
pub open spec fn yielded<T>(s: Seq<T>, op: Op<T>) -> Option<T> {
    match op {
        Op::PopFront => if s.len() == 0 { None } else { Some(s[0]) },
        Op::PopBack => if s.len() == 0 { None } else { Some(s.last()) },
        _ => None,
    }
}

/// The contents after running `ops` in order on contents `s`.
pub open spec fn run<T>(s: Seq<T>, ops: Seq<Op<T>>) -> Seq<T>
    decreases ops.len(),
{
    if ops.len() == 0 {
        s
    } else {
        run(step(s, ops[0]), ops.drop_first())
    }
}

/// The elements that the pops among `ops` take out, in order.
pub open spec fn taken<T>(s: Seq<T>, ops: Seq<Op<T>>) -> Seq<T>
    decreases ops.len(),
{
    if ops.len() == 0 {
        Seq::empty()
    } else {
        let rest = taken(step(s, ops[0]), ops.drop_first());
        match yielded(s, ops[0]) {
            Some(x) => seq![x] + rest,
            None => rest,
        }
    }
}

/// The elements that the pushes among `ops` put in, in order.
pub open spec fn pushed<T>(ops: Seq<Op<T>>) -> Seq<T>
    decreases ops.len(),
{
    if ops.len() == 0 {
        Seq::empty()
    } else {
        let rest = pushed(ops.drop_first());
        match ops[0] {
            Op::PushFront(x) => seq![x] + rest,
            Op::PushBack(x) => seq![x] + rest,
            _ => rest,
        }
    }
}

/// A plain stack whose top is the end of `t`: the contents after `ops`,
/// where a push on the front pushes on top and a pop at the front pops the top.
pub open spec fn stack_run<T>(t: Seq<T>, ops: Seq<Op<T>>) -> Seq<T>
    decreases ops.len(),
{
    if ops.len() == 0 {
        t
    } else {
        let t2 = match ops[0] {
            Op::PushFront(x) => t.push(x),
            _ => if t.len() == 0 { t } else { t.drop_last() },
        };
        stack_run(t2, ops.drop_first())
    }
}

/// What the pops of `stack_run` take off the top, in order.
pub open spec fn stack_taken<T>(t: Seq<T>, ops: Seq<Op<T>>) -> Seq<T>
    decreases ops.len(),
{
    if ops.len() == 0 {
        Seq::empty()
    } else {
        match ops[0] {
            Op::PushFront(x) => stack_taken(t.push(x), ops.drop_first()),
            _ => if t.len() == 0 {
                stack_taken(t, ops.drop_first())
            } else {
                seq![t.last()] + stack_taken(t.drop_last(), ops.drop_first())
            },
        }
    }
}

impl<T> LinkedList<T> {
    /// Performs `op` on the list and returns what it yields: the element a
    /// pop takes out, `None` for a push or for a pop on an empty list.
    pub fn apply(&mut self, op: Op<T>) -> (r: Option<T>)
        requires
            old(self).well_formed(),
            old(self)@.len() < usize::MAX,
        ensures
            final(self).well_formed(),
            final(self)@ == step(old(self)@, op),
            r == yielded(old(self)@, op),
    {
        match op {
            Op::PushFront(x) => {
                self.push_front(x);
                None
            },
            Op::PushBack(x) => {
                self.push_back(x);
                None
            },
            Op::PopFront => self.pop_front(),
            Op::PopBack => self.pop_back(),
        }
    }
}

/// Only `push_back` and `pop_front` among `ops`.
pub open spec fn queue_ops<T>(ops: Seq<Op<T>>) -> bool {
    forall|k: int| 0 <= k < ops.len() ==> (#[trigger] ops[k] is PushBack || ops[k] is PopFront)
}

/// Only `push_front` and `pop_front` among `ops`.
pub open spec fn stack_ops<T>(ops: Seq<Op<T>>) -> bool {
    forall|k: int| 0 <= k < ops.len() ==> (#[trigger] ops[k] is PushFront || ops[k] is PopFront)
}

/// Used with `push_back` and `pop_front` alone, a list is a first-in
/// first-out queue: what comes out, followed by what is left, is what was
/// there followed by what went in, in the order it went in.
pub proof fn lemma_fifo<T>(s: Seq<T>, ops: Seq<Op<T>>)
    requires
        queue_ops(ops),
    ensures
        taken(s, ops) + run(s, ops) == s + pushed(ops),
    decreases ops.len(),
{
    if ops.len() > 0 {
        let rest = ops.drop_first();
        assert(queue_ops(rest)) by {
            assert forall|k: int| 0 <= k < rest.len() implies (#[trigger] rest[k] is PushBack || rest[k] is PopFront) by {
                assert(rest[k] == ops[k + 1]);
            }
        }
        let s2 = step(s, ops[0]);
        lemma_fifo(s2, rest);
        assert(ops[0] is PushBack || ops[0] is PopFront);
        match ops[0] {
            Op::PushBack(x) => {
                assert(s2 + pushed(rest) =~= s + (seq![x] + pushed(rest)));
            },
            _ => {
                if s.len() > 0 {
                    assert(seq![s[0]] + taken(s2, rest) + run(s2, rest) =~= seq![s[0]] + (taken(s2, rest) + run(s2, rest)));
                    assert(seq![s[0]] + (s2 + pushed(rest)) =~= s + pushed(rest));
                }
            },
        }
    } else {
        assert(Seq::<T>::empty() + s =~= s + Seq::<T>::empty());
    }
}

/// Used with `push_front` and `pop_front` alone, a list is a last-in
/// first-out stack: it holds, front first, the stack read from the top,
/// and its pops take out what the stack's pops take off the top.
pub proof fn lemma_lifo<T>(s: Seq<T>, ops: Seq<Op<T>>)
    requires
        stack_ops(ops),
    ensures
        run(s, ops) == stack_run(s.reverse(), ops).reverse(),
        taken(s, ops) == stack_taken(s.reverse(), ops),
    decreases ops.len(),
{
    if ops.len() > 0 {
        let rest = ops.drop_first();
        assert(stack_ops(rest)) by {
            assert forall|k: int| 0 <= k < rest.len() implies (#[trigger] rest[k] is PushFront || rest[k] is PopFront) by {
                assert(rest[k] == ops[k + 1]);
            }
        }
        let s2 = step(s, ops[0]);
        lemma_reverse_twice(s);
        lemma_lifo(s2, rest);
        assert(ops[0] is PushFront || ops[0] is PopFront);
        match ops[0] {
            Op::PushFront(x) => {
                assert(s2.reverse() =~= s.reverse().push(x));
            },
            _ => {
                if s.len() > 0 {
                    assert(s2.reverse() =~= s.reverse().drop_last());
                    assert(s.reverse().last() == s[0]);
                }
            },
        }
    } else {
        lemma_reverse_twice(s);
    }
}

/// However pushes and pops are mixed, the length is the starting length
/// plus the pushes less the pops that took an element out.
pub proof fn lemma_length<T>(s: Seq<T>, ops: Seq<Op<T>>)
    ensures
        run(s, ops).len() == s.len() + pushed(ops).len() - taken(s, ops).len(),
    decreases ops.len(),
{
    if ops.len() > 0 {
        lemma_length(step(s, ops[0]), ops.drop_first());
    }
}

/// The elements in the order in which repeated `next` calls hand them out.
pub open spec fn drained_front<T>(s: Seq<T>) -> Seq<T>
    decreases s.len(),
{
    if s.len() == 0 {
        Seq::empty()
    } else {
        seq![s[0]] + drained_front(s.drop_first())
    }
}

/// The elements in the order in which repeated `next_back` calls hand them out.
pub open spec fn drained_back<T>(s: Seq<T>) -> Seq<T>
    decreases s.len(),
{
    if s.len() == 0 {
        Seq::empty()
    } else {
        seq![s.last()] + drained_back(s.drop_last())
    }
}

/// Iterating from the front hands out the elements as they stand: a list
/// built from a sequence iterates back to that sequence.
pub proof fn lemma_drain_front<T>(s: Seq<T>)
    ensures
        drained_front(s) == s,
    decreases s.len(),
{
    if s.len() > 0 {
        lemma_drain_front(s.drop_first());
        assert(seq![s[0]] + s.drop_first() =~= s);
    }
}

/// Iterating from the back hands out the elements reversed, so iterating
/// forward and reversing gives what iterating backward gives.
pub proof fn lemma_drain_back<T>(s: Seq<T>)
    ensures
        drained_back(s) == s.reverse(),
        drained_front(s).reverse() == drained_back(s),
    decreases s.len(),
{
    lemma_drain_front(s);
    if s.len() > 0 {
        lemma_drain_back(s.drop_last());
        assert(seq![s.last()] + s.drop_last().reverse() =~= s.reverse());
    } else {
        assert(s.reverse() =~= Seq::<T>::empty());
    }
}

/// Splitting after the cursor and splicing the detached list back in after
/// the cursor gives back the elements the list had, and so its length. At
/// the ghost position the split takes everything and the splice puts it all
/// back into the emptied list.
pub proof fn lemma_split_splice_after<T>(items: Seq<T>, pos: Option<usize>)
    requires
        pos is Some ==> pos->Some_0 < items.len(),
    ensures
        pos is None ==> items + Seq::<T>::empty() == items,
        pos is Some ==> ({
            let i = pos->Some_0 as int;
            let kept = items.subrange(0, i + 1);
            let detached = items.subrange(i + 1, items.len() as int);
            kept.subrange(0, i + 1) + detached + kept.subrange(i + 1, kept.len() as int) == items
        }),
{
    if pos is Some {
        let i = pos->Some_0 as int;
        let kept = items.subrange(0, i + 1);
        let detached = items.subrange(i + 1, items.len() as int);
        assert(kept.subrange(0, i + 1) + detached + kept.subrange(i + 1, kept.len() as int) =~= items);
    } else {
        assert(items + Seq::<T>::empty() =~= items);
    }
}

/// At the ghost position `peek_next` looks at index 0, the element `front`
/// returns, and `peek_prev` at the last index, the element `back` returns;
/// on an empty list both find nothing, as `front` and `back` do.
pub proof fn lemma_ghost_peeks<'a, T>(s: Seq<T>)
    ensures
        CursorMut::<'a, T>::next_index(None) == 0,
        CursorMut::<'a, T>::prev_index(None, s.len()) == s.len() - 1,
        s.len() > 0 ==> s[CursorMut::<'a, T>::prev_index(None, s.len())] == s.last(),
        s.len() == 0 ==> CursorMut::<'a, T>::next_index(None) >= s.len() && CursorMut::<'a, T>::prev_index(None, s.len()) < 0,
{
}

proof fn lemma_reverse_twice<T>(s: Seq<T>)
    ensures
        s.reverse().reverse() == s,
        s.reverse().len() == s.len(),
{
    assert(s.reverse().reverse() =~= s);
}

} // verus!
