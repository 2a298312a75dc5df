use vstd::prelude::*;
use vstd::std_specs::cmp::PartialEqSpec;
use vstd::std_specs::cmp::PartialOrdSpec;

verus! {

/// One element of a list together with the arena slots of its neighbours.
#[derive(Clone)]
struct Node<T> {
    elem: T,
    prev: Option<usize>,
    next: Option<usize>,
}

/// A doubly-linked list whose nodes live in an arena owned by the list.
///
/// Links between nodes are arena slots rather than pointers. The arena is
/// kept dense: it holds exactly `len` nodes, and removing a node moves the
/// node in the last slot into the freed one. Each list has its own arena,
/// so splicing and splitting move the nodes that change lists one by one,
/// relinking each in constant time.
///
/// A clone copies the arena as it stands, links included.
#[derive(Clone)]
pub struct LinkedList<T> {
    nodes: Vec<Node<T>>,
    head: Option<usize>,
    tail: Option<usize>,
    len: usize,
    /// The arena slots of the nodes, from head to tail.
    order: Ghost<Seq<usize>>,
    /// For each arena slot, the position of its node in `order`.
    pos: Ghost<Seq<int>>,
}

/// The link a node at position `i` of `o` must hold to its predecessor.
spec fn link_before(o: Seq<usize>, i: int) -> Option<usize> {
    if i == 0 {
        None
    } else {
        Some(o[i - 1])
    }
}

/// The link a node at position `i` of `o` must hold to its successor.
spec fn link_after(o: Seq<usize>, i: int) -> Option<usize> {
    if i + 1 == o.len() {
        None
    } else {
        Some(o[i + 1])
    }
}

/// The slot a node occupies after the node in slot `last` moved into `freed`.
spec fn moved_slot(s: usize, last: usize, freed: usize) -> usize {
    if s == last {
        freed
    } else {
        s
    }
}

/// `o` lists the slots `0 .. o.len()` once each, and `ps` is its inverse.
#[verifier::opaque]
spec fn positions_ok(o: Seq<usize>, ps: Seq<int>) -> bool {
    &&& ps.len() == o.len()
    &&& forall|i: int| 0 <= i < o.len() ==> (#[trigger] o[i]) < o.len() && ps[o[i] as int] == i
    &&& forall|s: int| 0 <= s < o.len() ==> 0 <= (#[trigger] ps[s]) < o.len() && o[ps[s]] == s
}

/// Every node named in `o` links to its neighbours in `o`.
#[verifier::opaque]
spec fn links_ok<T>(n: Seq<Node<T>>, o: Seq<usize>) -> bool {
    forall|i: int|
        0 <= i < o.len() ==> (o[i] as int) < n.len() && (#[trigger] n[o[i] as int]).prev == link_before(o, i)
            && n[o[i] as int].next == link_after(o, i)
}


proof fn lemma_link_at<T>(n: Seq<Node<T>>, o: Seq<usize>, i: int)
    requires
        links_ok(n, o),
        0 <= i < o.len(),
    ensures
        (o[i] as int) < n.len(),
        n[o[i] as int].prev == link_before(o, i),
        n[o[i] as int].next == link_after(o, i),
{
    reveal(links_ok);
}

proof fn lemma_position_at(o: Seq<usize>, ps: Seq<int>, i: int)
    requires
        positions_ok(o, ps),
        0 <= i < o.len(),
    ensures
        o[i] < o.len(),
        ps[o[i] as int] == i,
        0 <= ps[i] < o.len(),
        o[ps[i]] == i,
{
    reveal(positions_ok);
}

/// `n` with the successor link of the node in slot `a` (if any) set to `v`.
spec fn set_next<T>(n: Seq<Node<T>>, a: Option<usize>, v: Option<usize>) -> Seq<Node<T>> {
    match a {
        Some(x) => n.update(x as int, Node { next: v, ..n[x as int] }),
        None => n,
    }
}

/// `n` with the predecessor link of the node in slot `b` (if any) set to `v`.
spec fn set_prev<T>(n: Seq<Node<T>>, b: Option<usize>, v: Option<usize>) -> Seq<Node<T>> {
    match b {
        Some(x) => n.update(x as int, Node { prev: v, ..n[x as int] }),
        None => n,
    }
}

/// Taking the node at position `p` out of the chain, by linking its
/// neighbours to each other, leaves a chain for the remaining positions.
proof fn lemma_bypass<T>(n: Seq<Node<T>>, o: Seq<usize>, ps: Seq<int>, p: int)
    requires
        n.len() == o.len(),
        positions_ok(o, ps),
        links_ok(n, o),
        0 <= p < o.len(),
    ensures
        links_ok(set_prev(set_next(n, link_before(o, p), link_after(o, p)), link_after(o, p), link_before(o, p)), o.remove(p)),
        forall|i: int| 0 <= i < o.remove(p).len() ==> (#[trigger] o.remove(p)[i]) != o[p],
        ({
            let n1 = set_prev(set_next(n, link_before(o, p), link_after(o, p)), link_after(o, p), link_before(o, p));
            n1.len() == n.len() && forall|x: int| 0 <= x < n.len() ==> (#[trigger] n1[x]).elem == n[x].elem
        }),
        forall|i: int, j: int|
            0 <= i < o.remove(p).len() && 0 <= j < o.remove(p).len() && i != j ==> o.remove(p)[i] != o.remove(p)[j],
{
    reveal(links_ok);
    reveal(positions_ok);
    let o1 = o.remove(p);
    let n1 = set_prev(set_next(n, link_before(o, p), link_after(o, p)), link_after(o, p), link_before(o, p));
    assert forall|i: int, j: int| 0 <= i < o1.len() && 0 <= j < o1.len() && i != j implies o1[i] != o1[j] by {
        let a = if i < p { i } else { i + 1 };
        let b = if j < p { j } else { j + 1 };
        assert(ps[o[a] as int] == a && ps[o[b] as int] == b);
    }
    assert forall|i: int| 0 <= i < o1.len() implies (#[trigger] o1[i]) != o[p] by {
        let j = if i < p { i } else { i + 1 };
        assert(o1[i] == o[j]);
        assert(ps[o[j] as int] == j);
    }
    assert forall|i: int| 0 <= i < o1.len() implies (o1[i] as int) < n1.len() && (#[trigger] n1[o1[i] as int]).prev
        == link_before(o1, i) && n1[o1[i] as int].next == link_after(o1, i) by {
        let j = if i < p { i } else { i + 1 };
        assert(o1[i] == o[j]);
        assert(ps[o[j] as int] == j);
        if p > 0 {
            assert(ps[o[p - 1] as int] == p - 1);
        }
        if p + 1 < o.len() {
            assert(ps[o[p + 1] as int] == p + 1);
        }
    }
}

/// The nodes of `n` after the node in its last slot moved into `slot` and its
/// neighbours were pointed at the new slot.
spec fn compacted<T>(n: Seq<Node<T>>, slot: usize) -> Seq<Node<T>> {
    let n2 = n.update(slot as int, n.last()).drop_last();
    if slot as int == n.len() - 1 {
        n2
    } else {
        set_prev(set_next(n2, n2[slot as int].prev, Some(slot)), n2[slot as int].next, Some(slot))
    }
}

/// Moving the node in the last slot into the free slot `slot`, and pointing
/// its neighbours at the new slot, keeps the chain intact under renaming.
proof fn lemma_compact<T>(n: Seq<Node<T>>, o: Seq<usize>, slot: usize, q: int)
    requires
        links_ok(n, o),
        o.len() + 1 == n.len(),
        n.len() <= usize::MAX,
        slot < n.len(),
        forall|i: int| 0 <= i < o.len() ==> (#[trigger] o[i]) != slot,
        forall|i: int, j: int| 0 <= i < o.len() && 0 <= j < o.len() && i != j ==> o[i] != o[j],
        slot as int != n.len() - 1 ==> 0 <= q < o.len() && o[q] as int == n.len() - 1,
    ensures
        links_ok(compacted(n, slot), o.map_values(|s: usize| moved_slot(s, (n.len() - 1) as usize, slot))),
        forall|i: int|
            0 <= i < o.len() ==> (#[trigger] compacted(n, slot)[moved_slot(o[i], (n.len() - 1) as usize, slot) as int]).elem
                == n[o[i] as int].elem,
{
    reveal(links_ok);
    reveal(positions_ok);
    let last = (n.len() - 1) as usize;
    let n2 = n.update(slot as int, n.last()).drop_last();
    let n3 = compacted(n, slot);
    let o2 = o.map_values(|s: usize| moved_slot(s, last, slot));
    if slot == last {
        assert forall|i: int| 0 <= i < o2.len() implies (o2[i] as int) < n3.len() && (#[trigger] n3[o2[i] as int]).prev
            == link_before(o2, i) && n3[o2[i] as int].next == link_after(o2, i) by {
            assert(o2[i] == o[i]);
            assert(n[o[i] as int].prev == link_before(o, i));
            if i > 0 {
                assert(o2[i - 1] == o[i - 1]);
            }
            if i + 1 < o.len() {
                assert(o2[i + 1] == o[i + 1]);
            }
        }
        assert forall|i: int| 0 <= i < o.len() implies (#[trigger] n3[moved_slot(o[i], last, slot) as int]).elem
            == n[o[i] as int].elem by {
            assert(n[o[i] as int].prev == link_before(o, i));
        }
    } else {
        assert(n[last as int].prev == link_before(o, q));
        if q > 0 {
            assert(n[o[q - 1] as int].prev == link_before(o, q - 1));
        }
        if q + 1 < o.len() {
            assert(n[o[q + 1] as int].prev == link_before(o, q + 1));
        }
        assert forall|i: int| 0 <= i < o2.len() implies (o2[i] as int) < n3.len() && (#[trigger] n3[o2[i] as int]).prev
            == link_before(o2, i) && n3[o2[i] as int].next == link_after(o2, i) by {
            assert(n[o[i] as int].prev == link_before(o, i));
            assert(o2[i] == moved_slot(o[i], last, slot));
            if i > 0 {
                assert(o2[i - 1] == moved_slot(o[i - 1], last, slot));
            }
            if i + 1 < o.len() {
                assert(o2[i + 1] == moved_slot(o[i + 1], last, slot));
            }
            if i == q {
            } else if i + 1 == q {
            } else if i == q + 1 {
            } else {
                if i > 0 {
                    assert(o[i - 1] != last);
                }
                if i + 1 < o.len() {
                    assert(o[i + 1] != last);
                }
            }
        }
        assert forall|i: int| 0 <= i < o.len() implies (#[trigger] n3[moved_slot(o[i], last, slot) as int]).elem
            == n[o[i] as int].elem by {
            assert(n[o[i] as int].prev == link_before(o, i));
        }
    }
}

/// The positions of the slots after the node at position `p`, in `slot`,
/// left and the node in the last slot moved into `slot`.
spec fn unlinked_positions(ps: Seq<int>, p: int, slot: usize) -> Seq<int> {
    Seq::new(
        (ps.len() - 1) as nat,
        |s: int|
            if ps[if s == slot { ps.len() - 1 } else { s }] > p {
                ps[if s == slot { ps.len() - 1 } else { s }] - 1
            } else {
                ps[if s == slot { ps.len() - 1 } else { s }]
            },
    )
}

proof fn lemma_unlinked_positions(o: Seq<usize>, ps: Seq<int>, p: int)
    requires
        positions_ok(o, ps),
        0 <= p < o.len(),
        o.len() <= usize::MAX,
    ensures
        positions_ok(
            o.remove(p).map_values(|s: usize| moved_slot(s, (o.len() - 1) as usize, o[p])),
            unlinked_positions(ps, p, o[p]),
        ),
{
    reveal(links_ok);
    reveal(positions_ok);
    let slot = o[p];
    let last = (o.len() - 1) as usize;
    let o1 = o.remove(p);
    let o2 = o1.map_values(|s: usize| moved_slot(s, last, slot));
    let ps2 = unlinked_positions(ps, p, slot);
    assert forall|i: int| 0 <= i < o2.len() implies (#[trigger] o2[i]) < o2.len() && ps2[o2[i] as int] == i by {
        let j = if i < p { i } else { i + 1 };
        assert(o1[i] == o[j]);
        assert(ps[o[j] as int] == j);
        assert(ps[o[p] as int] == p);
    }
    assert forall|s: int| 0 <= s < o2.len() implies 0 <= (#[trigger] ps2[s]) < o2.len() && o2[ps2[s]] == s by {
        let s0 = if s == slot { last as int } else { s };
        let k = ps[s0];
        assert(o[k] == s0);
        assert(ps[o[p] as int] == p);
        assert(k != p);
        let i = if k > p { k - 1 } else { k };
        assert(o1[i] == o[k]);
    }
}

impl<T> LinkedList<T> {
    /// The elements of the list, from front to back.
    pub closed spec fn view(&self) -> Seq<T> {
        Seq::new(self.order@.len(), |i: int| self.nodes@[self.order@[i] as int].elem)
    }

    /// The arena and its links describe exactly the sequence `order`.
    pub closed spec fn well_formed(&self) -> bool {
        let o = self.order@;
        &&& self.len as int == o.len()
        &&& self.nodes@.len() == o.len()
        &&& positions_ok(o, self.pos@)
        &&& links_ok(self.nodes@, o)
        &&& self.head == (if o.len() == 0 { None::<usize> } else { Some(o[0]) })
        &&& self.tail == (if o.len() == 0 { None::<usize> } else { Some(o.last()) })
    }

    /// Creates an empty list.
    pub fn new() -> (r: Self)
        ensures
            r.well_formed(),
            r@ == Seq::<T>::empty(),
    {
        let r = LinkedList {
            nodes: Vec::new(),
            head: None,
            tail: None,
            len: 0,
            order: Ghost(Seq::empty()),
            pos: Ghost(Seq::empty()),
        };
        proof {
            reveal(links_ok);
            reveal(positions_ok);
            assert(r@ =~= Seq::<T>::empty());
        }
        r
    }

    /// Puts `elem` into a fresh slot and links it in at position `p`, between
    /// the nodes in slots `prev` and `next`.
    #[verifier::rlimit(80)]
    fn link_new(&mut self, elem: T, Ghost(p): Ghost<int>, prev: Option<usize>, next: Option<usize>) -> (slot: usize)
        requires
            old(self).well_formed(),
            0 <= p <= old(self)@.len(),
            old(self)@.len() < usize::MAX,
            prev == (if p == 0 { None::<usize> } else { Some(old(self).order@[p - 1]) }),
            next == (if p == old(self)@.len() { None::<usize> } else { Some(old(self).order@[p]) }),
        ensures
            final(self).well_formed(),
            final(self)@ == old(self)@.insert(p, elem),
            slot == old(self)@.len(),
            final(self).order@ == old(self).order@.insert(p, slot),
    {
        proof {
            reveal(links_ok);
            reveal(positions_ok);
        }
        let ghost o = self.order@;
        let ghost ps = self.pos@;
        let ghost old_view = self@;
        let slot = self.nodes.len();
        self.nodes.push(Node { elem, prev, next });
        match prev {
            Some(a) => {
                self.nodes[a].next = Some(slot);
            },
            None => {
                self.head = Some(slot);
            },
        }
        match next {
            Some(b) => {
                self.nodes[b].prev = Some(slot);
            },
            None => {
                self.tail = Some(slot);
            },
        }
        self.len = self.len + 1;
        let ghost o2 = o.insert(p, slot);
        let ghost ps2 = Seq::new(
            (o.len() + 1) as nat,
            |s: int|
                if s == o.len() {
                    p
                } else if ps[s] >= p {
                    ps[s] + 1
                } else {
                    ps[s]
                },
        );
        self.order = Ghost(o2);
        self.pos = Ghost(ps2);
        proof {
            assert forall|i: int| 0 <= i < o2.len() implies (#[trigger] o2[i]) < o2.len()
                && ps2[o2[i] as int] == i by {
                if i < p {
                    assert(o2[i] == o[i]);
                } else if i > p {
                    assert(o2[i] == o[i - 1]);
                }
            }
            assert forall|s: int| 0 <= s < o2.len() implies 0 <= (#[trigger] ps2[s]) < o2.len()
                && o2[ps2[s]] == s by {
                if s < o.len() {
                    assert(o[ps[s]] == s);
                }
            }
            let n2 = self.nodes@;
            assert forall|i: int| 0 <= i < o2.len() implies (#[trigger] n2[o2[i] as int]).prev
                == link_before(o2, i) && n2[o2[i] as int].next == link_after(o2, i) by {
                if i < p {
                    assert(o2[i] == o[i]);
                } else if i > p {
                    assert(o2[i] == o[i - 1]);
                }
            }
            assert(self@ =~= old_view.insert(p, elem));
        }
        slot
    }

    /// Unlinks the node at position `p`, which sits in `slot`, and returns its
    /// element. The node in the last arena slot moves into `slot`.
    #[verifier::rlimit(100)]
    fn unlink(&mut self, slot: usize, Ghost(p): Ghost<int>) -> (elem: T)
        requires
            old(self).well_formed(),
            0 <= p < old(self)@.len(),
            old(self).order@[p] == slot,
        ensures
            final(self).well_formed(),
            final(self)@ == old(self)@.remove(p),
            elem == old(self)@[p],
            final(self).order@.len() == old(self).order@.len() - 1,
            forall|i: int|
                0 <= i < final(self).order@.len() ==> #[trigger] final(self).order@[i] == moved_slot(
                    old(self).order@[if i < p { i } else { i + 1 }],
                    (old(self)@.len() - 1) as usize,
                    slot,
                ),
    {
        let ghost o = self.order@;
        let ghost ps = self.pos@;
        let ghost old_view = self@;
        let ghost n0 = self.nodes@;
        proof {
            lemma_position_at(o, ps, p);
            lemma_link_at(n0, o, p);
            if p > 0 {
                lemma_link_at(n0, o, p - 1);
            }
            if p + 1 < o.len() {
                lemma_link_at(n0, o, p + 1);
            }
        }
        let prev = self.nodes[slot].prev;
        let next = self.nodes[slot].next;
        match prev {
            Some(a) => {
                self.nodes[a].next = next;
            },
            None => {
                self.head = next;
            },
        }
        match next {
            Some(b) => {
                self.nodes[b].prev = prev;
            },
            None => {
                self.tail = prev;
            },
        }
        let last = self.nodes.len() - 1;
        let ghost o1 = o.remove(p);
        let ghost n1 = self.nodes@;
        let ghost q = ps[last as int];
        let ghost q1 = if q > p { q - 1 } else { q };
        proof {
            assert(n1 =~= set_prev(set_next(n0, prev, next), next, prev));
            lemma_bypass(n0, o, ps, p);
            lemma_position_at(o, ps, last as int);
            if slot != last {
                assert(o1[q1] == last);
            }
            lemma_compact(n1, o1, slot, q1);
            lemma_unlinked_positions(o, ps, p);
        }
        let node = self.nodes.swap_remove(slot);
        if slot != last {
            proof {
                lemma_link_at(n1, o1, q1);
                if q1 > 0 {
                    lemma_link_at(n1, o1, q1 - 1);
                }
                if q1 + 1 < o1.len() {
                    lemma_link_at(n1, o1, q1 + 1);
                }
            }
            let moved_prev = self.nodes[slot].prev;
            let moved_next = self.nodes[slot].next;
            match moved_prev {
                Some(a) => {
                    self.nodes[a].next = Some(slot);
                },
                None => {
                    self.head = Some(slot);
                },
            }
            match moved_next {
                Some(b) => {
                    self.nodes[b].prev = Some(slot);
                },
                None => {
                    self.tail = Some(slot);
                },
            }
        }
        self.len = self.len - 1;
        let ghost o2 = o1.map_values(|s: usize| moved_slot(s, last, slot));
        self.order = Ghost(o2);
        self.pos = Ghost(unlinked_positions(ps, p, slot));
        proof {
            assert(self.nodes@ =~= compacted(n1, slot));
            assert forall|i: int| 0 <= i < o2.len() implies #[trigger] o2[i] == moved_slot(
                o[if i < p { i } else { i + 1 }],
                last,
                slot,
            ) by {
                assert(o1[i] == o[if i < p { i } else { i + 1 }]);
            }
            if o2.len() > 0 {
                lemma_link_at(n1, o1, 0);
                lemma_link_at(n1, o1, o2.len() - 1);
                if slot != last {
                    lemma_link_at(n1, o1, q1);
                }
            }
            assert forall|i: int| 0 <= i < o2.len() implies #[trigger] self@[i] == old_view.remove(p)[i] by {
                let j = if i < p { i } else { i + 1 };
                assert(o1[i] == o[j]);
                lemma_link_at(n0, o, j);
                assert(n1[o1[i] as int].elem == n0[o1[i] as int].elem);
            }
            assert(self@ =~= old_view.remove(p));
        }
        node.elem
    }

    /// Inserts an element at the front of the list.
    pub fn push_front(&mut self, elem: T)
        requires
            old(self).well_formed(),
            old(self)@.len() < usize::MAX,
        ensures
            final(self).well_formed(),
            final(self)@ == seq![elem] + old(self)@,
    {
        let ghost v = self@;
        let head = self.head;
        self.link_new(elem, Ghost(0), None, head);
        proof {
            assert(self@ =~= seq![elem] + v);
        }
    }

    /// Inserts an element at the back of the list.
    pub fn push_back(&mut self, elem: T)
        requires
            old(self).well_formed(),
            old(self)@.len() < usize::MAX,
        ensures
            final(self).well_formed(),
            final(self)@ == old(self)@.push(elem),
    {
        let ghost v = self@;
        let tail = self.tail;
        let len = self.len;
        self.link_new(elem, Ghost(len as int), tail, None);
        proof {
            assert(self@ =~= v.push(elem));
        }
    }

    /// Removes the first element and returns it, or `None` if the list is empty.
    pub fn pop_front(&mut self) -> (r: Option<T>)
        requires
            old(self).well_formed(),
        ensures
            final(self).well_formed(),
            old(self)@.len() == 0 ==> r == None::<T> && final(self)@ == old(self)@,
            old(self)@.len() > 0 ==> r == Some(old(self)@[0]) && final(self)@ == old(self)@.drop_first(),
    {
        match self.head {
            Some(h) => {
                let ghost v = self@;
                let e = self.unlink(h, Ghost(0));
                proof {
                    assert(self@ =~= v.drop_first());
                }
                Some(e)
            },
            None => None,
        }
    }

    /// Removes the last element and returns it, or `None` if the list is empty.
    pub fn pop_back(&mut self) -> (r: Option<T>)
        requires
            old(self).well_formed(),
        ensures
            final(self).well_formed(),
            old(self)@.len() == 0 ==> r == None::<T> && final(self)@ == old(self)@,
            old(self)@.len() > 0 ==> r == Some(old(self)@.last()) && final(self)@ == old(self)@.drop_last(),
    {
        match self.tail {
            Some(t) => {
                let ghost v = self@;
                let last = self.len - 1;
                let e = self.unlink(t, Ghost(last as int));
                proof {
                    assert(self@ =~= v.drop_last());
                }
                Some(e)
            },
            None => None,
        }
    }

    /// Returns a reference to the first element, or `None` if the list is empty.
    pub fn front(&self) -> (r: Option<&T>)
        requires
            self.well_formed(),
        ensures
            self@.len() == 0 ==> r == None::<&T>,
            self@.len() > 0 ==> r == Some(&self@[0]),
    {
        proof {
            if self.len > 0 {
                lemma_link_at(self.nodes@, self.order@, 0);
            }
        }
        match self.head {
            Some(h) => Some(&self.nodes[h].elem),
            None => None,
        }
    }

    /// Returns a reference to the last element, or `None` if the list is empty.
    pub fn back(&self) -> (r: Option<&T>)
        requires
            self.well_formed(),
        ensures
            self@.len() == 0 ==> r == None::<&T>,
            self@.len() > 0 ==> r == Some(&self@.last()),
    {
        proof {
            if self.len > 0 {
                lemma_link_at(self.nodes@, self.order@, self.len - 1);
            }
        }
        match self.tail {
            Some(t) => Some(&self.nodes[t].elem),
            None => None,
        }
    }

    /// Returns a mutable reference to the first element, or `None` if the list is empty.
    pub fn front_mut(&mut self) -> (r: Option<&mut T>)
        requires
            old(self).well_formed(),
        ensures
            old(self)@.len() == 0 ==> r == None::<&mut T> && *final(self) == *old(self),
            old(self)@.len() > 0 ==> r is Some && *r->Some_0 == old(self)@[0] && final(self).well_formed()
                && final(self)@ =~= old(self)@.update(0, *final(r->Some_0)),
    {
        proof {
            reveal(links_ok);
            reveal(positions_ok);
            if self.len > 0 {
                lemma_link_at(self.nodes@, self.order@, 0);
            }
        }
        match self.head {
            Some(h) => Some(&mut self.nodes[h].elem),
            None => None,
        }
    }

    /// Returns a mutable reference to the last element, or `None` if the list is empty.
    pub fn back_mut(&mut self) -> (r: Option<&mut T>)
        requires
            old(self).well_formed(),
        ensures
            old(self)@.len() == 0 ==> r == None::<&mut T> && *final(self) == *old(self),
            old(self)@.len() > 0 ==> r is Some && *r->Some_0 == old(self)@.last() && final(self).well_formed()
                && final(self)@ =~= old(self)@.update(old(self)@.len() - 1, *final(r->Some_0)),
    {
        proof {
            reveal(links_ok);
            reveal(positions_ok);
            if self.len > 0 {
                lemma_link_at(self.nodes@, self.order@, self.len - 1);
            }
        }
        match self.tail {
            Some(t) => Some(&mut self.nodes[t].elem),
            None => None,
        }
    }

    /// Removes every element, front to back.
    pub fn clear(&mut self)
        requires
            old(self).well_formed(),
        ensures
            final(self).well_formed(),
            final(self)@ == Seq::<T>::empty(),
    {
        while self.pop_front().is_some()
            invariant
                self.well_formed(),
            decreases self@.len(),
        {
        }
        proof {
            assert(self@ =~= Seq::<T>::empty());
        }
    }

    /// The number of elements in the list.
    pub fn len(&self) -> (r: usize)
        requires
            self.well_formed(),
        ensures
            r == self@.len(),
    {
        self.len
    }

    /// Whether the list holds no element.
    pub fn is_empty(&self) -> (r: bool)
        requires
            self.well_formed(),
        ensures
            r == (self@.len() == 0),
    {
        self.len == 0
    }
}

/// The part of a list that an iterator has not yet handed out: `len`
/// elements from index `start`, whose end nodes sit in `front` and `back`.
pub struct Span {
    front: Option<usize>,
    back: Option<usize>,
    len: usize,
    start: Ghost<int>,
}

impl Span {
    /// A span over all of `list`.
    fn whole<T>(list: &LinkedList<T>) -> (r: Span)
        requires
            list.well_formed(),
        ensures
            r.within(list),
            r.first() == 0,
            r.count() == list@.len(),
    {
        Span { front: list.head, back: list.tail, len: list.len, start: Ghost(0) }
    }

    /// Index of the first element not yet handed out.
    pub closed spec fn first(&self) -> int {
        self.start@
    }

    /// How many elements are left.
    pub closed spec fn count(&self) -> nat {
        self.len as nat
    }

    /// The span lies inside `list` and its end slots are those of its first
    /// and last elements.
    pub closed spec fn within<T>(&self, list: &LinkedList<T>) -> bool {
        &&& list.well_formed()
        &&& 0 <= self.start@
        &&& self.start@ + self.len <= list@.len()
        &&& self.len > 0 ==> self.front == Some(list.order@[self.start@])
            && self.back == Some(list.order@[self.start@ + self.len - 1])
    }

    /// Hands out the first slot of the span.
    fn take_front<T>(&mut self, list: &LinkedList<T>) -> (slot: usize)
        requires
            old(self).within(list),
            old(self).count() > 0,
        ensures
            final(self).within(list),
            final(self).first() == old(self).first() + 1,
            final(self).count() == old(self).count() - 1,
            slot == list.order@[old(self).first()],
            (slot as int) < list.nodes@.len(),
    {
        let f = self.front.unwrap();
        proof {
            lemma_link_at(list.nodes@, list.order@, self.start@);
            lemma_position_at(list.order@, list.pos@, self.start@);
        }
        self.front = list.nodes[f].next;
        self.len = self.len - 1;
        self.start = Ghost(self.start@ + 1);
        f
    }

    /// Hands out the last slot of the span.
    fn take_back<T>(&mut self, list: &LinkedList<T>) -> (slot: usize)
        requires
            old(self).within(list),
            old(self).count() > 0,
        ensures
            final(self).within(list),
            final(self).first() == old(self).first(),
            final(self).count() == old(self).count() - 1,
            slot == list.order@[old(self).first() + old(self).count() - 1],
            (slot as int) < list.nodes@.len(),
    {
        let b = self.back.unwrap();
        proof {
            let j = self.start@ + self.len - 1;
            lemma_link_at(list.nodes@, list.order@, j);
            lemma_position_at(list.order@, list.pos@, j);
        }
        self.back = list.nodes[b].prev;
        self.len = self.len - 1;
        b
    }
}

/// Iterator over shared references to the elements of a list, from either end.
pub struct Iter<'a, T> {
    list: &'a LinkedList<T>,
    span: Span,
}

impl<T> LinkedList<T> {
    /// Returns an iterator over the elements, front to back.
    pub fn iter(&self) -> (r: Iter<'_, T>)
        requires
            self.well_formed(),
        ensures
            r.well_formed(),
            r.remaining() == self@,
    {
        let r = Iter { list: self, span: Span::whole(self) };
        proof {
            assert(r.remaining() =~= self@);
        }
        r
    }
}

impl<'a, T> Iter<'a, T> {
    /// The elements not yet handed out, front to back.
    pub closed spec fn remaining(&self) -> Seq<T> {
        self.list@.subrange(self.span.first(), self.span.first() + self.span.count())
    }

    /// The span still describes a part of the list.
    pub closed spec fn well_formed(&self) -> bool {
        self.span.within(self.list)
    }

    /// Hands out the front element that is left, or `None` when none is.
    pub fn next(&mut self) -> (r: Option<&'a T>)
        requires
            old(self).well_formed(),
        ensures
            final(self).well_formed(),
            old(self).remaining().len() == 0 ==> r == None::<&T> && final(self).remaining() == old(self).remaining(),
            old(self).remaining().len() > 0 ==> r == Some(&old(self).remaining()[0]) && final(self).remaining()
                == old(self).remaining().drop_first(),
    {
        if self.span.len > 0 {
            let list: &'a LinkedList<T> = self.list;
            let ghost before = self.remaining();
            let f = self.span.take_front(list);
            proof {
                assert(self.remaining() =~= before.drop_first());
            }
            Some(&list.nodes[f].elem)
        } else {
            None
        }
    }

    /// Hands out the back element that is left, or `None` when none is.
    pub fn next_back(&mut self) -> (r: Option<&'a T>)
        requires
            old(self).well_formed(),
        ensures
            final(self).well_formed(),
            old(self).remaining().len() == 0 ==> r == None::<&T> && final(self).remaining() == old(self).remaining(),
            old(self).remaining().len() > 0 ==> r == Some(&old(self).remaining().last()) && final(self).remaining()
                == old(self).remaining().drop_last(),
    {
        if self.span.len > 0 {
            let list: &'a LinkedList<T> = self.list;
            let ghost before = self.remaining();
            let b = self.span.take_back(list);
            proof {
                assert(self.remaining() =~= before.drop_last());
            }
            Some(&list.nodes[b].elem)
        } else {
            None
        }
    }

    /// The number of elements left, as exact lower and upper bounds.
    pub fn size_hint(&self) -> (r: (usize, Option<usize>))
        requires
            self.well_formed(),
        ensures
            r == (self.remaining().len() as usize, Some(self.remaining().len() as usize)),
    {
        (self.span.len, Some(self.span.len))
    }

    /// The number of elements left.
    pub fn len(&self) -> (r: usize)
        requires
            self.well_formed(),
        ensures
            r == self.remaining().len(),
    {
        self.span.len
    }
}

/// Iterator over mutable references to the elements of a list, from either
/// end. Each reference lives until the next call.
pub struct IterMut<'a, T> {
    /// The list iterated; public so that contracts can follow it past the
    /// iterator's lifetime. Changing it directly leaves `span` stale.
    pub list: &'a mut LinkedList<T>,
    /// The elements not yet handed out.
    pub span: Span,
}

impl<T> LinkedList<T> {
    /// Returns an iterator over mutable references to the elements, front to back.
    pub fn iter_mut(&mut self) -> (r: IterMut<'_, T>)
        requires
            old(self).well_formed(),
        ensures
            r.well_formed(),
            *r.list == *old(self),
            r.span.first() == 0,
            r.span.count() == old(self)@.len(),
            *final(self) == *final(r.list),
    {
        let span = Span::whole(self);
        IterMut { list: self, span }
    }
}

impl<'a, T> IterMut<'a, T> {
    /// The elements not yet handed out, front to back.
    pub open spec fn remaining(&self) -> Seq<T> {
        (*self.list)@.subrange(self.span.first(), self.span.first() + self.span.count())
    }

    /// The span still describes a part of the list.
    pub open spec fn well_formed(&self) -> bool {
        self.span.within(&*self.list)
    }

    /// Hands out the front element that is left, or `None` when none is.
    pub fn next(&mut self) -> (r: Option<&mut T>)
        requires
            old(self).well_formed(),
        ensures
            old(self).remaining().len() == 0 ==> r == None::<&mut T> && *final(self) == *old(self),
            old(self).remaining().len() > 0 ==> ({
                let j = old(self).span.first();
                &&& r is Some
                &&& *r->Some_0 == old(self).remaining()[0]
                &&& final(self).well_formed()
                &&& (*final(self).list)@ =~= (*old(self).list)@.update(j, *final(r->Some_0))
                &&& final(self).span.first() == j + 1
                &&& final(self).span.count() == old(self).span.count() - 1
                &&& *final(final(self).list) == *final(old(self).list)
            }),
    {
        if self.span.len > 0 {
            let f = self.span.take_front(&*self.list);
            proof {
                reveal(links_ok);
                reveal(positions_ok);
            }
            Some(&mut self.list.nodes[f].elem)
        } else {
            None
        }
    }

    /// Hands out the back element that is left, or `None` when none is.
    pub fn next_back(&mut self) -> (r: Option<&mut T>)
        requires
            old(self).well_formed(),
        ensures
            old(self).remaining().len() == 0 ==> r == None::<&mut T> && *final(self) == *old(self),
            old(self).remaining().len() > 0 ==> ({
                let j = old(self).span.first() + old(self).span.count() - 1;
                &&& r is Some
                &&& *r->Some_0 == old(self).remaining().last()
                &&& final(self).well_formed()
                &&& (*final(self).list)@ =~= (*old(self).list)@.update(j, *final(r->Some_0))
                &&& final(self).span.first() == old(self).span.first()
                &&& final(self).span.count() == old(self).span.count() - 1
                &&& *final(final(self).list) == *final(old(self).list)
            }),
    {
        if self.span.len > 0 {
            let b = self.span.take_back(&*self.list);
            proof {
                reveal(links_ok);
                reveal(positions_ok);
            }
            Some(&mut self.list.nodes[b].elem)
        } else {
            None
        }
    }

    /// The number of elements left, as exact lower and upper bounds.
    pub fn size_hint(&self) -> (r: (usize, Option<usize>))
        requires
            self.well_formed(),
        ensures
            r == (self.span.count() as usize, Some(self.span.count() as usize)),
    {
        (self.span.len, Some(self.span.len))
    }

    /// The number of elements left.
    pub fn len(&self) -> (r: usize)
        requires
            self.well_formed(),
        ensures
            r == self.span.count(),
    {
        self.span.len
    }
}

/// Iterator that takes the elements out of a list, from either end.
pub struct IntoIter<T> {
    list: LinkedList<T>,
}

impl<T> LinkedList<T> {
    /// Turns the list into an iterator that hands out its elements by value.
    pub fn into_iter(self) -> (r: IntoIter<T>)
        requires
            self.well_formed(),
        ensures
            r.well_formed(),
            r.remaining() == self@,
    {
        IntoIter { list: self }
    }
}

impl<T> IntoIter<T> {
    /// The elements not yet handed out, front to back.
    pub closed spec fn remaining(&self) -> Seq<T> {
        self.list@
    }

    /// The list that is left is well formed.
    pub closed spec fn well_formed(&self) -> bool {
        self.list.well_formed()
    }

    /// Takes out the front element, or returns `None` when none is left.
    pub fn next(&mut self) -> (r: Option<T>)
        requires
            old(self).well_formed(),
        ensures
            final(self).well_formed(),
            old(self).remaining().len() == 0 ==> r == None::<T> && final(self).remaining() == old(self).remaining(),
            old(self).remaining().len() > 0 ==> r == Some(old(self).remaining()[0]) && final(self).remaining()
                == old(self).remaining().drop_first(),
    {
        self.list.pop_front()
    }

    /// Takes out the back element, or returns `None` when none is left.
    pub fn next_back(&mut self) -> (r: Option<T>)
        requires
            old(self).well_formed(),
        ensures
            final(self).well_formed(),
            old(self).remaining().len() == 0 ==> r == None::<T> && final(self).remaining() == old(self).remaining(),
            old(self).remaining().len() > 0 ==> r == Some(old(self).remaining().last()) && final(self).remaining()
                == old(self).remaining().drop_last(),
    {
        self.list.pop_back()
    }

    /// The number of elements left, as exact lower and upper bounds.
    pub fn size_hint(&self) -> (r: (usize, Option<usize>))
        requires
            self.well_formed(),
        ensures
            r == (self.remaining().len() as usize, Some(self.remaining().len() as usize)),
    {
        (self.list.len, Some(self.list.len))
    }
}

impl<T> Default for LinkedList<T> {
    fn default() -> (r: Self)
        ensures
            r.well_formed(),
            r@ == Seq::<T>::empty(),
    {
        Self::new()
    }
}

impl<T> LinkedList<T> {
    /// Builds a list holding the elements of `items`, in the same order.
    pub fn from_vec(items: Vec<T>) -> (r: Self)
        ensures
            r.well_formed(),
            r@ == items@,
    {
        let ghost all = items@;
        let mut items = items;
        let mut r = LinkedList::new();
        proof {
            assert(all.len() == items.len());
        }
        while items.len() > 0
            invariant
                r.well_formed(),
                items@.len() + r@.len() == all.len(),
                items@ == all.subrange(0, items@.len() as int),
                r@ == all.subrange(items@.len() as int, all.len() as int),
                all.len() <= usize::MAX,
            decreases items@.len(),
        {
            let x = items.pop().unwrap();
            r.push_front(x);
            proof {
                assert(items@ =~= all.subrange(0, items@.len() as int));
                assert(r@ =~= all.subrange(items@.len() as int, all.len() as int));
            }
        }
        proof {
            assert(r@ =~= all);
        }
        r
    }

    /// Appends the elements of `items` at the back, in the same order.
    pub fn extend(&mut self, items: Vec<T>)
        requires
            old(self).well_formed(),
            old(self)@.len() + items@.len() <= usize::MAX,
        ensures
            final(self).well_formed(),
            final(self)@ == old(self)@ + items@,
    {
        let tail = LinkedList::from_vec(items);
        let mut c = self.cursor_mut();
        c.splice_before(tail);
    }

    /// Takes the elements out, front to back, into a vector.
    pub fn into_vec(self) -> (r: Vec<T>)
        requires
            self.well_formed(),
        ensures
            r@ == self@,
    {
        let ghost all = self@;
        let mut list = self;
        let mut r: Vec<T> = Vec::new();
        while !list.is_empty()
            invariant
                list.well_formed(),
                r@ + list@ == all,
            decreases list@.len(),
        {
            let x = list.pop_front().unwrap();
            r.push(x);
            proof {
                assert(r@ + list@ =~= all);
            }
        }
        proof {
            assert(r@ =~= r@ + list@);
        }
        r
    }
}

/// Element-wise equality of two sequences, by the elements' `==`.
pub open spec fn seq_eq<T: PartialEq>(a: Seq<T>, b: Seq<T>) -> bool {
    a.len() == b.len() && forall|i: int| 0 <= i < a.len() ==> (#[trigger] a[i]).eq_spec(&b[i])
}

/// Lexicographic comparison of two sequences, by the elements'
/// `partial_cmp`: the first pair that is not equal decides, and a sequence
/// that runs out first is the smaller.
pub open spec fn seq_partial_cmp<T: PartialOrd>(a: Seq<T>, b: Seq<T>) -> Option<core::cmp::Ordering>
    decreases a.len(),
{
    if a.len() == 0 {
        if b.len() == 0 {
            Some(core::cmp::Ordering::Equal)
        } else {
            Some(core::cmp::Ordering::Less)
        }
    } else if b.len() == 0 {
        Some(core::cmp::Ordering::Greater)
    } else {
        match a[0].partial_cmp_spec(&b[0]) {
            Some(core::cmp::Ordering::Equal) => seq_partial_cmp(a.drop_first(), b.drop_first()),
            other => other,
        }
    }
}

impl<T: PartialEq> LinkedList<T> {
    /// Whether the two lists have the same length and equal elements.
    pub fn eq(&self, other: &Self) -> (r: bool)
        requires
            self.well_formed(),
            other.well_formed(),
        ensures
            T::obeys_eq_spec() ==> r == seq_eq(self@, other@),
    {
        if self.len != other.len {
            return false;
        }
        let mut a = self.iter();
        let mut b = other.iter();
        let mut k: usize = 0;
        while k < self.len
            invariant
                a.well_formed(),
                b.well_formed(),
                self@.len() == other@.len() == self.len,
                k <= self.len,
                a.remaining() == self@.subrange(k as int, self@.len() as int),
                b.remaining() == other@.subrange(k as int, other@.len() as int),
                T::obeys_eq_spec() ==> forall|i: int| 0 <= i < k ==> (#[trigger] self@[i]).eq_spec(&other@[i]),
            decreases self.len - k,
        {
            let x = a.next().unwrap();
            let y = b.next().unwrap();
            if !x.eq(y) {
                return false;
            }
            k = k + 1;
            proof {
                assert(a.remaining() =~= self@.subrange(k as int, self@.len() as int));
                assert(b.remaining() =~= other@.subrange(k as int, other@.len() as int));
            }
        }
        true
    }

    /// Whether the two lists differ in length or in some element.
    pub fn ne(&self, other: &Self) -> (r: bool)
        requires
            self.well_formed(),
            other.well_formed(),
        ensures
            T::obeys_eq_spec() ==> r == !seq_eq(self@, other@),
    {
        !self.eq(other)
    }
}

impl<T: PartialOrd> LinkedList<T> {
    /// Compares the two lists lexicographically by their elements.
    pub fn partial_cmp(&self, other: &Self) -> (r: Option<core::cmp::Ordering>)
        requires
            self.well_formed(),
            other.well_formed(),
        ensures
            T::obeys_partial_cmp_spec() ==> r == seq_partial_cmp(self@, other@),
    {
        let mut a = self.iter();
        let mut b = other.iter();
        loop
            invariant
                a.well_formed(),
                b.well_formed(),
                T::obeys_partial_cmp_spec() ==> seq_partial_cmp(a.remaining(), b.remaining()) == seq_partial_cmp(
                    self@,
                    other@,
                ),
            decreases a.remaining().len(),
        {
            let ghost (ra, rb) = (a.remaining(), b.remaining());
            match a.next() {
                None => {
                    return match b.next() {
                        None => Some(core::cmp::Ordering::Equal),
                        Some(_) => Some(core::cmp::Ordering::Less),
                    };
                },
                Some(x) => match b.next() {
                    None => {
                        return Some(core::cmp::Ordering::Greater);
                    },
                    Some(y) => {
                        let c = x.partial_cmp(y);
                        match c {
                            Some(core::cmp::Ordering::Equal) => {},
                            _ => {
                                return c;
                            },
                        }
                    },
                },
            }
        }
    }

    /// Whether this list orders strictly before `other`.
    pub fn lt(&self, other: &Self) -> (r: bool)
        requires
            self.well_formed(),
            other.well_formed(),
        ensures
            T::obeys_partial_cmp_spec() ==> r == (seq_partial_cmp(self@, other@) == Some(core::cmp::Ordering::Less)),
    {
        match self.partial_cmp(other) {
            Some(core::cmp::Ordering::Less) => true,
            _ => false,
        }
    }

    /// Whether this list orders before `other` or equal to it.
    pub fn le(&self, other: &Self) -> (r: bool)
        requires
            self.well_formed(),
            other.well_formed(),
        ensures
            T::obeys_partial_cmp_spec() ==> r == (seq_partial_cmp(self@, other@) == Some(core::cmp::Ordering::Less)
                || seq_partial_cmp(self@, other@) == Some(core::cmp::Ordering::Equal)),
    {
        match self.partial_cmp(other) {
            Some(core::cmp::Ordering::Less) => true,
            Some(core::cmp::Ordering::Equal) => true,
            _ => false,
        }
    }

    /// Whether this list orders strictly after `other`.
    pub fn gt(&self, other: &Self) -> (r: bool)
        requires
            self.well_formed(),
            other.well_formed(),
        ensures
            T::obeys_partial_cmp_spec() ==> r == (seq_partial_cmp(self@, other@) == Some(core::cmp::Ordering::Greater)),
    {
        match self.partial_cmp(other) {
            Some(core::cmp::Ordering::Greater) => true,
            _ => false,
        }
    }

    /// Whether this list orders after `other` or equal to it.
    pub fn ge(&self, other: &Self) -> (r: bool)
        requires
            self.well_formed(),
            other.well_formed(),
        ensures
            T::obeys_partial_cmp_spec() ==> r == (seq_partial_cmp(self@, other@) == Some(core::cmp::Ordering::Greater)
                || seq_partial_cmp(self@, other@) == Some(core::cmp::Ordering::Equal)),
    {
        match self.partial_cmp(other) {
            Some(core::cmp::Ordering::Greater) => true,
            Some(core::cmp::Ordering::Equal) => true,
            _ => false,
        }
    }
}

/// Where `move_next` takes a cursor at `pos` in a list of `len` elements.
pub open spec fn position_after(pos: Option<usize>, len: nat) -> Option<usize> {
    match pos {
        None => if len > 0 { Some(0usize) } else { None },
        Some(i) => if i + 1 < len { Some((i + 1) as usize) } else { None },
    }
}

/// Where `move_prev` takes a cursor at `pos` in a list of `len` elements.
pub open spec fn position_before(pos: Option<usize>, len: nat) -> Option<usize> {
    match pos {
        None => if len > 0 { Some((len - 1) as usize) } else { None },
        Some(i) => if i > 0 { Some((i - 1) as usize) } else { None },
    }
}

/// A cursor over a list, borrowed exclusively for the cursor's lifetime.
///
/// The cursor either points at an element or sits at the ghost position,
/// which lies both before the front and after the back of the list.
pub struct CursorMut<'a, T> {
    /// The list walked; public so that contracts can follow it past the
    /// cursor's lifetime. Changing it directly leaves `at` stale.
    pub list: &'a mut LinkedList<T>,
    /// Where the cursor stands.
    pub at: Spot,
}

/// Where a cursor stands: the arena slot and the index of its element, or
/// neither at the ghost position.
pub struct Spot {
    cur: Option<usize>,
    index: Option<usize>,
}

impl<T> LinkedList<T> {
    /// Returns a cursor at the ghost position of this list.
    pub fn cursor_mut(&mut self) -> (c: CursorMut<'_, T>)
        requires
            old(self).well_formed(),
        ensures
            c.well_formed(),
            c.items() == old(self)@,
            c.position() == None::<usize>,
            *final(self) == *final(c.list),
    {
        CursorMut { list: self, at: Spot { cur: None, index: None } }
    }
}

impl<'a, T> CursorMut<'a, T> {
    /// The elements of the list under the cursor.
    pub open spec fn items(&self) -> Seq<T> {
        (*self.list)@
    }

    /// The index of the element under the cursor, `None` at the ghost position.
    pub closed spec fn position(&self) -> Option<usize> {
        self.at.index
    }

    /// The cursor's slot and index agree with the list it walks.
    pub closed spec fn well_formed(&self) -> bool {
        &&& self.list.well_formed()
        &&& self.at.cur is Some <==> self.at.index is Some
        &&& self.at.index is Some ==> self.at.index->Some_0 < self.list@.len() && self.at.cur->Some_0
            == self.list.order@[self.at.index->Some_0 as int]
    }

    /// The index of the element under the cursor, `None` at the ghost position.
    pub fn index(&self) -> (r: Option<usize>)
        requires
            self.well_formed(),
        ensures
            r == self.position(),
    {
        self.at.index
    }

    /// Moves the cursor one element towards the back, from the back to the
    /// ghost position, and from the ghost position to the front.
    pub fn move_next(&mut self)
        requires
            old(self).well_formed(),
        ensures
            final(self).well_formed(),
            *final(self).list == *old(self).list,
            *final(final(self).list) == *final(old(self).list),
            final(self).position() == position_after(old(self).position(), old(self).items().len()),
    {
        match self.at.cur {
            Some(c) => {
                let i = self.at.index.unwrap();
                proof {
                    lemma_link_at(self.list.nodes@, self.list.order@, i as int);
                    if i + 1 < self.list.order@.len() {
                        lemma_link_at(self.list.nodes@, self.list.order@, i + 1);
                    }
                    if i > 0 {
                        lemma_link_at(self.list.nodes@, self.list.order@, i - 1);
                    }
                }
                self.at.cur = self.list.nodes[c].next;
                if self.at.cur.is_some() {
                    self.at.index = Some(i + 1);
                } else {
                    self.at.index = None;
                }
            },
            None => {
                if !self.list.is_empty() {
                    self.at.cur = self.list.head;
                    self.at.index = Some(0);
                }
            },
        }
    }

    /// Moves the cursor one element towards the front, from the front to the
    /// ghost position, and from the ghost position to the back.
    pub fn move_prev(&mut self)
        requires
            old(self).well_formed(),
        ensures
            final(self).well_formed(),
            *final(self).list == *old(self).list,
            *final(final(self).list) == *final(old(self).list),
            final(self).position() == position_before(old(self).position(), old(self).items().len()),
    {
        match self.at.cur {
            Some(c) => {
                let i = self.at.index.unwrap();
                proof {
                    lemma_link_at(self.list.nodes@, self.list.order@, i as int);
                    if i + 1 < self.list.order@.len() {
                        lemma_link_at(self.list.nodes@, self.list.order@, i + 1);
                    }
                    if i > 0 {
                        lemma_link_at(self.list.nodes@, self.list.order@, i - 1);
                    }
                }
                self.at.cur = self.list.nodes[c].prev;
                if self.at.cur.is_some() {
                    self.at.index = Some(i - 1);
                } else {
                    self.at.index = None;
                }
            },
            None => {
                if !self.list.is_empty() {
                    self.at.cur = self.list.tail;
                    self.at.index = Some(self.list.len - 1);
                }
            },
        }
    }

    /// Index of the element that `peek_next` looks at.
    pub open spec fn next_index(pos: Option<usize>) -> int {
        match pos {
            None => 0,
            Some(i) => i + 1,
        }
    }

    /// Index of the element that `peek_prev` looks at.
    pub open spec fn prev_index(pos: Option<usize>, len: nat) -> int {
        match pos {
            None => len - 1,
            Some(i) => i - 1,
        }
    }

    /// The element under the cursor, or `None` at the ghost position.
    pub fn current(&mut self) -> (r: Option<&mut T>)
        requires
            old(self).well_formed(),
        ensures
            old(self).position() is None ==> r == None::<&mut T> && *final(self) == *old(self),
            old(self).position() is Some ==> ({
                let i = old(self).position()->Some_0 as int;
                &&& r is Some
                &&& *r->Some_0 == old(self).items()[i]
                &&& final(self).well_formed()
                &&& final(self).position() == old(self).position()
                &&& final(self).items() =~= old(self).items().update(i, *final(r->Some_0))
                &&& *final(final(self).list) == *final(old(self).list)
            }),
    {
        proof {
            reveal(links_ok);
            reveal(positions_ok);
        }
        match self.at.cur {
            Some(c) => Some(&mut self.list.nodes[c].elem),
            None => None,
        }
    }

    /// The element after the cursor (the front, at the ghost position), or
    /// `None` past the back.
    pub fn peek_next(&mut self) -> (r: Option<&mut T>)
        requires
            old(self).well_formed(),
        ensures
            ({
                let j = Self::next_index(old(self).position());
                &&& j >= old(self).items().len() ==> r == None::<&mut T> && *final(self) == *old(self)
                &&& j < old(self).items().len() ==> {
                    &&& r is Some
                    &&& *r->Some_0 == old(self).items()[j]
                    &&& final(self).well_formed()
                    &&& final(self).position() == old(self).position()
                    &&& final(self).items() =~= old(self).items().update(j, *final(r->Some_0))
                    &&& *final(final(self).list) == *final(old(self).list)
                }
            }),
    {
        proof {
            reveal(links_ok);
            reveal(positions_ok);
            if self.at.index is Some {
                let i = self.at.index->Some_0 as int;
                lemma_link_at(self.list.nodes@, self.list.order@, i);
            }
        }
        let slot = match self.at.cur {
            Some(c) => self.list.nodes[c].next,
            None => self.list.head,
        };
        match slot {
            Some(s) => Some(&mut self.list.nodes[s].elem),
            None => None,
        }
    }

    /// The element before the cursor (the back, at the ghost position), or
    /// `None` before the front.
    pub fn peek_prev(&mut self) -> (r: Option<&mut T>)
        requires
            old(self).well_formed(),
        ensures
            ({
                let j = Self::prev_index(old(self).position(), old(self).items().len());
                &&& j < 0 ==> r == None::<&mut T> && *final(self) == *old(self)
                &&& j >= 0 ==> {
                    &&& r is Some
                    &&& *r->Some_0 == old(self).items()[j]
                    &&& final(self).well_formed()
                    &&& final(self).position() == old(self).position()
                    &&& final(self).items() =~= old(self).items().update(j, *final(r->Some_0))
                    &&& *final(final(self).list) == *final(old(self).list)
                }
            }),
    {
        proof {
            reveal(links_ok);
            reveal(positions_ok);
            if self.at.index is Some {
                let i = self.at.index->Some_0 as int;
                lemma_link_at(self.list.nodes@, self.list.order@, i);
            }
        }
        let slot = match self.at.cur {
            Some(c) => self.list.nodes[c].prev,
            None => self.list.tail,
        };
        match slot {
            Some(s) => Some(&mut self.list.nodes[s].elem),
            None => None,
        }
    }

    /// Removes the element under the cursor and returns it; the cursor moves
    /// on to the element that followed, or to the ghost position. At the
    /// ghost position nothing changes and `None` is returned.
    pub fn remove_current(&mut self) -> (r: Option<T>)
        requires
            old(self).well_formed(),
        ensures
            final(self).well_formed(),
            *final(final(self).list) == *final(old(self).list),
            old(self).position() is None ==> r == None::<T> && final(self).items() == old(self).items()
                && final(self).position() == None::<usize>,
            old(self).position() is Some ==> ({
                let i = old(self).position()->Some_0 as int;
                &&& r == Some(old(self).items()[i])
                &&& final(self).items() == old(self).items().remove(i)
                &&& final(self).position() == (if i + 1 < old(self).items().len() {
                    Some(i as usize)
                } else {
                    None::<usize>
                })
            }),
    {
        match self.at.cur {
            Some(c) => {
                let i = self.at.index.unwrap();
                proof {
                    lemma_link_at(self.list.nodes@, self.list.order@, i as int);
                }
                let next = self.list.nodes[c].next;
                let last = self.list.len - 1;
                let e = self.list.unlink(c, Ghost(i as int));
                match next {
                    Some(nx) => {
                        self.at.cur = Some(if nx == last { c } else { nx });
                    },
                    None => {
                        self.at.cur = None;
                        self.at.index = None;
                    },
                }
                Some(e)
            },
            None => None,
        }
    }

    /// Detaches everything before the cursor into a new list and returns it;
    /// the cursor stays on its element, now at index 0. At the ghost position
    /// the whole list is detached and the list left empty.
    pub fn split_before(&mut self) -> (r: LinkedList<T>)
        requires
            old(self).well_formed(),
        ensures
            final(self).well_formed(),
            r.well_formed(),
            *final(final(self).list) == *final(old(self).list),
            old(self).position() is None ==> r@ == old(self).items() && final(self).items() == Seq::<T>::empty()
                && final(self).position() == None::<usize>,
            old(self).position() is Some ==> ({
                let i = old(self).position()->Some_0 as int;
                &&& r@ == old(self).items().subrange(0, i)
                &&& final(self).items() == old(self).items().subrange(i, old(self).items().len() as int)
                &&& final(self).position() == Some(0usize)
            }),
    {
        let mut r = LinkedList::new();
        match self.at.index {
            None => {
                core::mem::swap(&mut *self.list, &mut r);
                r
            },
            Some(i) => {
                let ghost items = self.list@;
                proof {
                    assert(items.len() == self.list.len);
                }
                let mut k: usize = 0;
                while k < i
                    invariant
                        self.list.well_formed(),
                        r.well_formed(),
                        0 <= k <= i < items.len(),
                        self.list@ == items.subrange(k as int, items.len() as int),
                        r@ == items.subrange(0, k as int),
                        *final(self.list) == *final(old(self).list),
                        self.at == old(self).at,
                        items.len() <= usize::MAX,
                    decreases i - k,
                {
                    let x = self.list.pop_front().unwrap();
                    r.push_back(x);
                    k = k + 1;
                    proof {
                        assert(self.list@ =~= items.subrange(k as int, items.len() as int));
                        assert(r@ =~= items.subrange(0, k as int));
                    }
                }
                self.at.cur = self.list.head;
                self.at.index = Some(0);
                r
            },
        }
    }

    /// Detaches everything after the cursor into a new list and returns it;
    /// the cursor stays where it is. At the ghost position the whole list is
    /// detached and the list left empty.
    pub fn split_after(&mut self) -> (r: LinkedList<T>)
        requires
            old(self).well_formed(),
        ensures
            final(self).well_formed(),
            r.well_formed(),
            *final(final(self).list) == *final(old(self).list),
            old(self).position() is None ==> r@ == old(self).items() && final(self).items() == Seq::<T>::empty()
                && final(self).position() == None::<usize>,
            old(self).position() is Some ==> ({
                let i = old(self).position()->Some_0 as int;
                &&& r@ == old(self).items().subrange(i + 1, old(self).items().len() as int)
                &&& final(self).items() == old(self).items().subrange(0, i + 1)
                &&& final(self).position() == old(self).position()
            }),
    {
        let mut r = LinkedList::new();
        match self.at.index {
            None => {
                core::mem::swap(&mut *self.list, &mut r);
                r
            },
            Some(i) => {
                let ghost items = self.list@;
                proof {
                    assert(items.len() == self.list.len);
                }
                while self.list.len() > i + 1
                    invariant
                        self.list.well_formed(),
                        r.well_formed(),
                        i < self.list@.len() <= items.len(),
                        self.list@ == items.subrange(0, self.list@.len() as int),
                        r@ == items.subrange(self.list@.len() as int, items.len() as int),
                        *final(self.list) == *final(old(self).list),
                        self.at == old(self).at,
                        items.len() <= usize::MAX,
                    decreases self.list@.len(),
                {
                    let x = self.list.pop_back().unwrap();
                    r.push_front(x);
                    proof {
                        assert(self.list@ =~= items.subrange(0, self.list@.len() as int));
                        assert(r@ =~= items.subrange(self.list@.len() as int, items.len() as int));
                    }
                }
                self.at.cur = self.list.tail;
                r
            },
        }
    }

    /// Moves every element of `input` in before the cursor, keeping their
    /// order; the cursor stays on its element. At the ghost position the
    /// elements go to the back of the list.
    pub fn splice_before(&mut self, input: LinkedList<T>)
        requires
            old(self).well_formed(),
            input.well_formed(),
            old(self).items().len() + input@.len() <= usize::MAX,
        ensures
            final(self).well_formed(),
            *final(final(self).list) == *final(old(self).list),
            old(self).position() is None ==> final(self).items() == old(self).items() + input@
                && final(self).position() == None::<usize>,
            old(self).position() is Some ==> ({
                let i = old(self).position()->Some_0 as int;
                let n = old(self).items().len() as int;
                &&& final(self).items() == old(self).items().subrange(0, i) + input@ + old(self).items().subrange(i, n)
                &&& final(self).position() == Some((i + input@.len()) as usize)
            }),
    {
        let mut input = input;
        let ghost items = self.list@;
        let ghost added = input@;
        proof {
            assert(items.len() == self.list.len);
        }
        match self.at.cur {
            Some(c) => {
                let i = self.at.index.unwrap();
                let mut k: usize = 0;
                while !input.is_empty()
                    invariant
                        self.list.well_formed(),
                        input.well_formed(),
                        i < items.len(),
                        items.len() + added.len() <= usize::MAX,
                        k + input@.len() == added.len(),
                        input@ == added.subrange(k as int, added.len() as int),
                        self.list@ == items.subrange(0, i as int) + added.subrange(0, k as int) + items.subrange(
                            i as int,
                            items.len() as int,
                        ),
                        self.list@.len() == items.len() + k,
                        c == self.list.order@[i + k],
                        *final(self.list) == *final(old(self).list),
                        self.at == old(self).at,
                        items.len() <= usize::MAX,
                    decreases input@.len(),
                {
                    let x = input.pop_front().unwrap();
                    proof {
                        lemma_link_at(self.list.nodes@, self.list.order@, i + k);
                    }
                    let prev = self.list.nodes[c].prev;
                    self.list.link_new(x, Ghost(i + k), prev, Some(c));
                    k = k + 1;
                    proof {
                        assert(self.list@ =~= items.subrange(0, i as int) + added.subrange(0, k as int)
                            + items.subrange(i as int, items.len() as int));
                        assert(input@ =~= added.subrange(k as int, added.len() as int));
                    }
                }
                self.at.index = Some(i + k);
                proof {
                    assert(added.subrange(0, k as int) =~= added);
                }
            },
            None => {
                if self.list.is_empty() {
                    *self.list = input;
                    proof {
                        assert(items + added =~= added);
                    }
                } else {
                    while !input.is_empty()
                        invariant
                            self.list.well_formed(),
                            input.well_formed(),
                            items.len() + added.len() <= usize::MAX,
                            self.list@.len() + input@.len() == items.len() + added.len(),
                            self.list@ + input@ == items + added,
                            self.list@.len() >= items.len(),
                            *final(self.list) == *final(old(self).list),
                            self.at == old(self).at,
                        decreases input@.len(),
                    {
                        let ghost before = self.list@;
                        let ghost rest = input@;
                        let x = input.pop_front().unwrap();
                        self.list.push_back(x);
                        proof {
                            assert(self.list@ + input@ =~= before + rest);
                        }
                    }
                    proof {
                        assert(self.list@ + input@ =~= self.list@);
                    }
                }
            },
        }
    }

    /// Moves every element of `input` in after the cursor, keeping their
    /// order; the cursor stays on its element. At the ghost position the
    /// elements go to the front of the list.
    pub fn splice_after(&mut self, input: LinkedList<T>)
        requires
            old(self).well_formed(),
            input.well_formed(),
            old(self).items().len() + input@.len() <= usize::MAX,
        ensures
            final(self).well_formed(),
            *final(final(self).list) == *final(old(self).list),
            old(self).position() is None ==> final(self).items() == input@ + old(self).items()
                && final(self).position() == None::<usize>,
            old(self).position() is Some ==> ({
                let i = old(self).position()->Some_0 as int;
                let n = old(self).items().len() as int;
                &&& final(self).items() == old(self).items().subrange(0, i + 1) + input@ + old(self).items().subrange(
                    i + 1,
                    n,
                )
                &&& final(self).position() == old(self).position()
            }),
    {
        let mut input = input;
        let ghost items = self.list@;
        let ghost added = input@;
        proof {
            assert(items.len() == self.list.len);
        }
        match self.at.cur {
            Some(c) => {
                let i = self.at.index.unwrap();
                while !input.is_empty()
                    invariant
                        self.list.well_formed(),
                        input.well_formed(),
                        i < items.len(),
                        items.len() + added.len() <= usize::MAX,
                        input@.len() <= added.len(),
                        self.list@.len() == items.len() + added.len() - input@.len(),
                        input@ == added.subrange(0, input@.len() as int),
                        self.list@ == items.subrange(0, i + 1) + added.subrange(input@.len() as int, added.len() as int)
                            + items.subrange(i + 1, items.len() as int),
                        c == self.list.order@[i as int],
                        *final(self.list) == *final(old(self).list),
                        self.at == old(self).at,
                        items.len() <= usize::MAX,
                    decreases input@.len(),
                {
                    let x = input.pop_back().unwrap();
                    proof {
                        lemma_link_at(self.list.nodes@, self.list.order@, i as int);
                    }
                    let next = self.list.nodes[c].next;
                    self.list.link_new(x, Ghost(i + 1), Some(c), next);
                    proof {
                        assert(self.list@ =~= items.subrange(0, i + 1) + added.subrange(input@.len() as int, added.len() as int)
                            + items.subrange(i + 1, items.len() as int));
                        assert(input@ =~= added.subrange(0, input@.len() as int));
                    }
                }
                proof {
                    assert(added.subrange(0, added.len() as int) =~= added);
                }
            },
            None => {
                if self.list.is_empty() {
                    *self.list = input;
                    proof {
                        assert(added + items =~= added);
                    }
                } else {
                    while !input.is_empty()
                        invariant
                            self.list.well_formed(),
                            input.well_formed(),
                            items.len() + added.len() <= usize::MAX,
                            self.list@.len() + input@.len() == items.len() + added.len(),
                            input@ + self.list@ == added + items,
                            self.list@.len() >= items.len(),
                            *final(self.list) == *final(old(self).list),
                            self.at == old(self).at,
                        decreases input@.len(),
                    {
                        let ghost before = self.list@;
                        let ghost rest = input@;
                        let x = input.pop_back().unwrap();
                        self.list.push_front(x);
                        proof {
                            assert(input@ + self.list@ =~= rest + before);
                        }
                    }
                    proof {
                        assert(input@ + self.list@ =~= self.list@);
                    }
                }
            },
        }
    }
}

} // verus!
