use vstd::prelude::*;

verus! {

/// One storage cell: a value and two navigational links.  A link is the
/// slot index of a neighbour inside the owning list's arena, so a link on
/// its own never owns the node it points at.
pub(crate) struct Node<T> {
    pub(crate) next: Option<usize>,
    pub(crate) prev: Option<usize>,
    pub(crate) value: T,
}

/// A doubly-linked list whose nodes live in a slot arena.  Every node sits
/// in one slot of `nodes`; a slot holds `None` while it is free, and every
/// free slot is recorded once in `free`, so pushes reuse freed slots in
/// constant time.  `order` is the ghost sequence of the slots that hold the
/// live nodes, first to last; it ties the `next`/`prev` links, `head`,
/// `tail` and `len` together in the well-formedness invariant.
pub struct LinkedList<T> {
    pub(crate) nodes: Vec<Option<Node<T>>>,
    pub(crate) free: Vec<usize>,
    pub(crate) head: Option<usize>,
    pub(crate) tail: Option<usize>,
    pub(crate) len: usize,
    pub(crate) order: Ghost<Seq<usize>>,
}

impl<T> LinkedList<T> {
    /// The link that points at the node of rank `i`: its slot, or `None`
    /// when `i` lies outside the list (the link of a boundary node).
    pub(crate) open spec fn link_to(&self, i: int) -> Option<usize> {
        if 0 <= i < self.order@.len() {
            Some(self.order@[i])
        } else {
            None
        }
    }

    /// The node of rank `i` sits in a valid slot and its links point at the
    /// nodes of ranks `i + 1` and `i - 1`.
    pub(crate) open spec fn slot_ok(&self, i: int) -> bool {
        let s = self.order@[i] as int;
        &&& 0 <= s < self.nodes@.len()
        &&& self.nodes@[s] is Some
        &&& self.nodes@[s]->0.next == self.link_to(i + 1)
        &&& self.nodes@[s]->0.prev == self.link_to(i - 1)
    }

    /// Entry `j` of the free list names a slot that is really empty.
    pub(crate) open spec fn free_ok(&self, j: int) -> bool {
        let s = self.free@[j] as int;
        0 <= s < self.nodes@.len() && self.nodes@[s] is None
    }

    /// The arena's accounting: the free list names exactly the empty slots,
    /// each once.
    pub(crate) open spec fn arena_ok(&self) -> bool {
        &&& forall|j: int| 0 <= j < self.free@.len() ==> #[trigger] self.free_ok(j)
        &&& forall|i: int, j: int|
            0 <= i < j < self.free@.len() ==> self.free@[i] != self.free@[j]
        &&& forall|s: int|
            0 <= s < self.nodes@.len() && (#[trigger] self.nodes@[s]) is None
                ==> self.free@.contains(s as usize)
    }

    /// Well-formedness: forward and backward links agree along `order`,
    /// `head`/`tail` point at the first and last live nodes, no slot is
    /// reached twice, every occupied slot is reachable, and the live slots
    /// and the free slots together account for the whole arena.
    pub closed spec fn wf(&self) -> bool {
        &&& self.len == self.order@.len()
        &&& forall|i: int| 0 <= i < self.order@.len() ==> #[trigger] self.slot_ok(i)
        &&& forall|i: int, j: int|
            0 <= i < j < self.order@.len() ==> self.order@[i] != self.order@[j]
        &&& self.head == self.link_to(0)
        &&& self.tail == self.link_to(self.order@.len() - 1)
        &&& forall|s: int|
            0 <= s < self.nodes@.len() && (#[trigger] self.nodes@[s]) is Some
                ==> self.order@.contains(s as usize)
        &&& self.arena_ok()
        &&& self.order@.len() + self.free@.len() == self.nodes@.len()
    }

    /// The values held by the list, first to last.
    pub closed spec fn view(&self) -> Seq<T> {
        Seq::new(self.order@.len(), |i: int| self.nodes@[self.order@[i] as int]->0.value)
    }

    /// The number of arena slots that hold a live node.
    pub closed spec fn live_slot_count(&self) -> nat {
        Set::new(|s: usize| s < self.nodes@.len() && self.nodes@[s as int] is Some).len()
    }

    /// An empty list.
    pub fn new() -> (l: Self)
        ensures
            l.wf(),
            l@ == Seq::<T>::empty(),
    {
        let l = LinkedList {
            nodes: Vec::new(),
            free: Vec::new(),
            head: None,
            tail: None,
            len: 0,
            order: Ghost(Seq::empty()),
        };
        proof {
            assert(l@ =~= Seq::<T>::empty());
        }
        l
    }

    /// The number of elements in the list.
    pub fn len(&self) -> (n: usize)
        requires
            self.wf(),
        ensures
            n == self@.len(),
    {
        self.len
    }

    /// Puts `node` into a free slot (or a fresh one) and returns the slot.
    /// Touches only the arena: links, head, tail, length and order are for
    /// the caller to mend.
    fn fill_slot(&mut self, node: Node<T>) -> (s: usize)
        requires
            old(self).arena_ok(),
        ensures
            final(self).arena_ok(),
            s < final(self).nodes@.len(),
            final(self).nodes@[s as int] == Some(node),
            old(self).nodes@.len() <= final(self).nodes@.len() <= old(self).nodes@.len() + 1,
            forall|t: int|
                0 <= t < old(self).nodes@.len() && t != s
                    ==> final(self).nodes@[t] == old(self).nodes@[t],
            s < old(self).nodes@.len() ==> old(self).nodes@[s as int] is None
                && final(self).nodes@.len() == old(self).nodes@.len(),
            s >= old(self).nodes@.len()
                ==> final(self).nodes@.len() == old(self).nodes@.len() + 1,
            final(self).nodes@.len() - final(self).free@.len() == old(self).nodes@.len()
                - old(self).free@.len() + 1,
            final(self).head == old(self).head,
            final(self).tail == old(self).tail,
            final(self).len == old(self).len,
            final(self).order == old(self).order,
    {
        match self.free.pop() {
            Some(s) => {
                proof {
                    assert(old(self).free_ok(old(self).free@.len() - 1));
                }
                let slot = &mut self.nodes[s];
                *slot = Some(node);
                proof {
                    assert(self.free@ == old(self).free@.drop_last());
                    assert(self.nodes@ == old(self).nodes@.update(s as int, Some(node)));
                    assert forall|t: int|
                        0 <= t < self.nodes@.len() && (#[trigger] self.nodes@[t]) is None
                        implies self.free@.contains(t as usize) by {
                        assert(self.nodes.len() == self.nodes@.len());
                        assert(t != s);
                        assert(t as usize != s);
                        assert(old(self).nodes@[t] is None);
                        assert(old(self).free@.contains(t as usize));
                        let j = choose|j: int|
                            0 <= j < old(self).free@.len() && old(self).free@[j] == t as usize;
                        assert(old(self).free@[old(self).free@.len() - 1] == s);
                        assert(j != old(self).free@.len() - 1);
                        assert(self.free@[j] == t as usize);
                    }
                    assert forall|j: int| 0 <= j < self.free@.len()
                        implies #[trigger] self.free_ok(j) by {
                        assert(old(self).free_ok(j));
                        assert(old(self).free@[j] != s);
                    }
                }
                s
            },
            None => {
                let s = self.nodes.len();
                self.nodes.push(Some(node));
                proof {
                    assert forall|j: int| 0 <= j < self.free@.len()
                        implies #[trigger] self.free_ok(j) by {
                        assert(old(self).free_ok(j));
                    }
                }
                s
            },
        }
    }

    /// Empties the occupied slot `s`, records it as free, and hands back
    /// the node that sat in it.
    fn take_slot(&mut self, s: usize) -> (node: Node<T>)
        requires
            old(self).arena_ok(),
            s < old(self).nodes@.len(),
            old(self).nodes@[s as int] is Some,
        ensures
            final(self).arena_ok(),
            node == old(self).nodes@[s as int]->0,
            final(self).nodes@ == old(self).nodes@.update(s as int, None::<Node<T>>),
            final(self).nodes@.len() - final(self).free@.len() == old(self).nodes@.len()
                - old(self).free@.len() - 1,
            final(self).head == old(self).head,
            final(self).tail == old(self).tail,
            final(self).len == old(self).len,
            final(self).order == old(self).order,
    {
        let slot = &mut self.nodes[s];
        let taken = slot.take();
        self.free.push(s);
        proof {
            assert forall|i: int, j: int| 0 <= i < j < self.free@.len()
                implies self.free@[i] != self.free@[j] by {
                if j == self.free@.len() - 1 {
                    assert(old(self).free_ok(i));
                }
            }
            assert forall|j: int| 0 <= j < self.free@.len()
                implies #[trigger] self.free_ok(j) by {
                if j < self.free@.len() - 1 {
                    assert(old(self).free_ok(j));
                }
            }
            assert forall|t: int|
                0 <= t < self.nodes@.len() && (#[trigger] self.nodes@[t]) is None
                implies self.free@.contains(t as usize) by {
                if t != s {
                    assert(old(self).free@.contains(t as usize));
                    let j = choose|j: int|
                        0 <= j < old(self).free@.len() && old(self).free@[j] == t as usize;
                    assert(self.free@[j] == t as usize);
                } else {
                    assert(self.free@[self.free@.len() - 1] == s);
                }
            }
        }
        match taken {
            Some(node) => node,
            None => unreached(),
        }
    }

    /// A mutable borrow of the value in the occupied slot `s`.  Until the
    /// borrow ends, the slot holds the borrow's final value; links and every
    /// other slot stay as they are.
    fn slot_value_mut(&mut self, s: usize) -> (v: &mut T)
        requires
            s < old(self).nodes@.len(),
            old(self).nodes@[s as int] is Some,
        ensures
            *v == old(self).nodes@[s as int]->0.value,
            final(self).nodes@ == old(self).nodes@.update(
                s as int,
                Some((Node {
                    next: old(self).nodes@[s as int]->0.next,
                    prev: old(self).nodes@[s as int]->0.prev,
                    value: *final(v),
                })),
            ),
            final(self).free == old(self).free,
            final(self).head == old(self).head,
            final(self).tail == old(self).tail,
            final(self).len == old(self).len,
            final(self).order == old(self).order,
            same_shape(*old(self), *final(self)),
    {
        let slot = &mut self.nodes[s];
        match slot {
            Some(node) => &mut node.value,
            None => unreached(),
        }
    }

    /// Rewrites the forward link of the node in slot `s`.
    fn set_next(&mut self, s: usize, link: Option<usize>)
        requires
            s < old(self).nodes@.len(),
            old(self).nodes@[s as int] is Some,
        ensures
            final(self).nodes@ == old(self).nodes@.update(
                s as int,
                Some((Node {
                    next: link,
                    prev: old(self).nodes@[s as int]->0.prev,
                    value: old(self).nodes@[s as int]->0.value,
                })),
            ),
            final(self).free == old(self).free,
            final(self).head == old(self).head,
            final(self).tail == old(self).tail,
            final(self).len == old(self).len,
            final(self).order == old(self).order,
    {
        let slot = &mut self.nodes[s];
        match slot {
            Some(node) => {
                node.next = link;
            },
            None => {
                proof {
                    assert(false);
                }
            },
        }
    }

    /// Rewrites the backward link of the node in slot `s`.
    fn set_prev(&mut self, s: usize, link: Option<usize>)
        requires
            s < old(self).nodes@.len(),
            old(self).nodes@[s as int] is Some,
        ensures
            final(self).nodes@ == old(self).nodes@.update(
                s as int,
                Some((Node {
                    next: old(self).nodes@[s as int]->0.next,
                    prev: link,
                    value: old(self).nodes@[s as int]->0.value,
                })),
            ),
            final(self).free == old(self).free,
            final(self).head == old(self).head,
            final(self).tail == old(self).tail,
            final(self).len == old(self).len,
            final(self).order == old(self).order,
    {
        let slot = &mut self.nodes[s];
        match slot {
            Some(node) => {
                node.prev = link;
            },
            None => {
                proof {
                    assert(false);
                }
            },
        }
    }

    /// Prepends `value`.  The new node's forward link is the old head; the
    /// old head's backward link (or, in an empty list, `tail`) is pointed
    /// at the new node.
    pub fn push_front(&mut self, value: T)
        requires
            old(self).wf(),
            old(self)@.len() < usize::MAX,
        ensures
            final(self).wf(),
            final(self)@ == seq![value].add(old(self)@),
    {
        let old_head = self.head;
        let s = self.fill_slot(Node { next: old_head, prev: None, value });
        let ghost mid = *self;
        proof {
            assert forall|i: int| 0 <= i < old(self).order@.len()
                implies old(self).order@[i] != s by {
                assert(old(self).slot_ok(i));
            }
        }
        match old_head {
            Some(h) => {
                proof {
                    assert(old(self).slot_ok(0));
                }
                self.set_prev(h, Some(s));
            },
            None => {
                self.tail = Some(s);
            },
        }
        self.head = Some(s);
        self.len = self.len + 1;
        proof {
            self.order@ = seq![s].add(old(self).order@);
            assert(self.free@ == mid.free@);
            assert forall|i: int| 0 <= i < self.order@.len()
                implies #[trigger] self.slot_ok(i) by {
                if i > 0 {
                    assert(old(self).slot_ok(i - 1));
                }
            }
            assert forall|t: int|
                0 <= t < self.nodes@.len() && (#[trigger] self.nodes@[t]) is Some
                implies self.order@.contains(t as usize) by {
                if t == s {
                    assert(self.order@[0] == s);
                } else {
                    assert(old(self).nodes@[t] is Some);
                    let j = choose|j: int|
                        0 <= j < old(self).order@.len() && old(self).order@[j] == t as usize;
                    assert(self.order@[j + 1] == t as usize);
                }
            }
            assert forall|j: int| 0 <= j < self.free@.len()
                implies #[trigger] self.free_ok(j) by {
                assert(mid.free_ok(j));
                assert(mid.nodes@[mid.free@[j] as int] is None);
            }
            assert forall|t: int|
                0 <= t < self.nodes@.len() && (#[trigger] self.nodes@[t]) is None
                implies self.free@.contains(t as usize) by {
                assert(mid.nodes@[t] is None);
                assert(mid.free@.contains(t as usize));
            }
            assert forall|i: int| 0 <= i < self@.len()
                implies self@[i] == seq![value].add(old(self)@)[i] by {
                if i > 0 {
                    assert(old(self).slot_ok(i - 1));
                }
            }
            assert(self@ =~= seq![value].add(old(self)@));
        }
    }

    /// Detaches and returns the first value, or `None` on an empty list.
    /// The second node (if any) becomes the head and its backward link is
    /// cleared; a list of one node becomes empty.
    pub fn pop_front(&mut self) -> (r: Option<T>)
        requires
            old(self).wf(),
        ensures
            final(self).wf(),
            old(self)@.len() == 0 ==> r is None && final(self)@ == old(self)@,
            old(self)@.len() > 0 ==> r == Some(old(self)@[0])
                && final(self)@ == old(self)@.subrange(1, old(self)@.len() as int),
    {
        match self.head {
            None => None,
            Some(h) => {
                proof {
                    assert(old(self).slot_ok(0));
                }
                let node = self.take_slot(h);
                let ghost mid = *self;
                match node.next {
                    Some(nx) => {
                        proof {
                            assert(old(self).slot_ok(1));
                        }
                        self.set_prev(nx, None);
                        self.head = Some(nx);
                    },
                    None => {
                        self.head = None;
                        self.tail = None;
                    },
                }
                self.len = self.len - 1;
                proof {
                    self.order@ = old(self).order@.subrange(1, old(self).order@.len() as int);
                    assert(self.free@ == mid.free@);
                    assert forall|i: int| 0 <= i < self.order@.len()
                        implies #[trigger] self.slot_ok(i) by {
                        assert(old(self).slot_ok(i + 1));
                    }
                    assert forall|t: int|
                        0 <= t < self.nodes@.len() && (#[trigger] self.nodes@[t]) is Some
                        implies self.order@.contains(t as usize) by {
                        assert(self.nodes.len() == self.nodes@.len());
                        assert(t as usize != h);
                        assert(old(self).nodes@[t] is Some);
                        let j = choose|j: int|
                            0 <= j < old(self).order@.len() && old(self).order@[j] == t as usize;
                        assert(j != 0);
                        assert(self.order@[j - 1] == t as usize);
                    }
                    assert forall|j: int| 0 <= j < self.free@.len()
                        implies #[trigger] self.free_ok(j) by {
                        assert(mid.free_ok(j));
                        assert(mid.nodes@[mid.free@[j] as int] is None);
                    }
                    assert forall|t: int|
                        0 <= t < self.nodes@.len() && (#[trigger] self.nodes@[t]) is None
                        implies self.free@.contains(t as usize) by {
                        assert(mid.nodes@[t] is None);
                        assert(mid.free@.contains(t as usize));
                    }
                    assert forall|i: int| 0 <= i < self@.len()
                        implies self@[i] == old(self)@.subrange(1, old(self)@.len() as int)[i] by {
                        assert(old(self).slot_ok(i + 1));
                    }
                    assert(self@ =~= old(self)@.subrange(1, old(self)@.len() as int));
                }
                Some(node.value)
            },
        }
    }

    /// Appends `value`.  The new node's backward link is the old tail; the
    /// old tail's forward link (or, in an empty list, `head`) is pointed at
    /// the new node.
    pub fn push_back(&mut self, value: T)
        requires
            old(self).wf(),
            old(self)@.len() < usize::MAX,
        ensures
            final(self).wf(),
            final(self)@ == old(self)@.push(value),
    {
        let old_tail = self.tail;
        let s = self.fill_slot(Node { next: None, prev: old_tail, value });
        let ghost mid = *self;
        proof {
            assert forall|i: int| 0 <= i < old(self).order@.len()
                implies old(self).order@[i] != s by {
                assert(old(self).slot_ok(i));
            }
        }
        match old_tail {
            Some(tl) => {
                proof {
                    assert(old(self).slot_ok(old(self).order@.len() - 1));
                }
                self.set_next(tl, Some(s));
            },
            None => {
                self.head = Some(s);
            },
        }
        self.tail = Some(s);
        self.len = self.len + 1;
        proof {
            self.order@ = old(self).order@.push(s);
            assert(self.free@ == mid.free@);
            assert forall|i: int| 0 <= i < self.order@.len()
                implies #[trigger] self.slot_ok(i) by {
                if i < self.order@.len() - 1 {
                    assert(old(self).slot_ok(i));
                }
            }
            assert forall|t: int|
                0 <= t < self.nodes@.len() && (#[trigger] self.nodes@[t]) is Some
                implies self.order@.contains(t as usize) by {
                if t == s {
                    assert(self.order@[self.order@.len() - 1] == s);
                } else {
                    assert(old(self).nodes@[t] is Some);
                    let j = choose|j: int|
                        0 <= j < old(self).order@.len() && old(self).order@[j] == t as usize;
                    assert(self.order@[j] == t as usize);
                }
            }
            assert forall|j: int| 0 <= j < self.free@.len()
                implies #[trigger] self.free_ok(j) by {
                assert(mid.free_ok(j));
                assert(mid.nodes@[mid.free@[j] as int] is None);
            }
            assert forall|t: int|
                0 <= t < self.nodes@.len() && (#[trigger] self.nodes@[t]) is None
                implies self.free@.contains(t as usize) by {
                assert(mid.nodes@[t] is None);
                assert(mid.free@.contains(t as usize));
            }
            assert forall|i: int| 0 <= i < self@.len()
                implies self@[i] == old(self)@.push(value)[i] by {
                if i < self@.len() - 1 {
                    assert(old(self).slot_ok(i));
                }
            }
            assert(self@ =~= old(self)@.push(value));
        }
    }

    /// Detaches and returns the last value, or `None` on an empty list.
    /// The next-to-last node (if any) becomes the tail and its forward link
    /// is cleared; a list of one node becomes empty.
    pub fn pop_back(&mut self) -> (r: Option<T>)
        requires
            old(self).wf(),
        ensures
            final(self).wf(),
            old(self)@.len() == 0 ==> r is None && final(self)@ == old(self)@,
            old(self)@.len() > 0 ==> r == Some(old(self)@.last())
                && final(self)@ == old(self)@.drop_last(),
    {
        match self.tail {
            None => None,
            Some(tl) => {
                proof {
                    assert(old(self).slot_ok(old(self).order@.len() - 1));
                }
                let node = self.take_slot(tl);
                let ghost mid = *self;
                match node.prev {
                    Some(pv) => {
                        proof {
                            assert(old(self).slot_ok(old(self).order@.len() - 2));
                        }
                        self.set_next(pv, None);
                        self.tail = Some(pv);
                    },
                    None => {
                        self.head = None;
                        self.tail = None;
                    },
                }
                self.len = self.len - 1;
                proof {
                    self.order@ = old(self).order@.drop_last();
                    assert(self.free@ == mid.free@);
                    assert forall|i: int| 0 <= i < self.order@.len()
                        implies #[trigger] self.slot_ok(i) by {
                        assert(old(self).slot_ok(i));
                    }
                    assert forall|t: int|
                        0 <= t < self.nodes@.len() && (#[trigger] self.nodes@[t]) is Some
                        implies self.order@.contains(t as usize) by {
                        assert(self.nodes.len() == self.nodes@.len());
                        assert(t as usize != tl);
                        assert(old(self).nodes@[t] is Some);
                        let j = choose|j: int|
                            0 <= j < old(self).order@.len() && old(self).order@[j] == t as usize;
                        assert(j != old(self).order@.len() - 1);
                        assert(self.order@[j] == t as usize);
                    }
                    assert forall|j: int| 0 <= j < self.free@.len()
                        implies #[trigger] self.free_ok(j) by {
                        assert(mid.free_ok(j));
                        assert(mid.nodes@[mid.free@[j] as int] is None);
                    }
                    assert forall|t: int|
                        0 <= t < self.nodes@.len() && (#[trigger] self.nodes@[t]) is None
                        implies self.free@.contains(t as usize) by {
                        assert(mid.nodes@[t] is None);
                        assert(mid.free@.contains(t as usize));
                    }
                    assert forall|i: int| 0 <= i < self@.len()
                        implies self@[i] == old(self)@.drop_last()[i] by {
                        assert(old(self).slot_ok(i));
                    }
                    assert(self@ =~= old(self)@.drop_last());
                }
                Some(node.value)
            },
        }
    }

    /// A mutating cursor at the first element, or before the start of an
    /// empty list.  While it lives it is the only handle on the list.
    pub fn cursor_front_mut(&mut self) -> (c: CursorMut<'_, T>)
        requires
            old(self).wf(),
        ensures
            c.wf(),
            c.list() == old(self)@,
            c.pos() == (if old(self)@.len() > 0 { Pos::At(0) } else { Pos::Start }),
    {
        let position = match self.head {
            Some(h) => CursorPos::Node(h),
            None => CursorPos::Start,
        };
        CursorMut { parent: self, position, index: Ghost(0) }
    }

    /// A mutating cursor at the last element, or past the end of an empty
    /// list.  While it lives it is the only handle on the list.
    pub fn cursor_back_mut(&mut self) -> (c: CursorMut<'_, T>)
        requires
            old(self).wf(),
        ensures
            c.wf(),
            c.list() == old(self)@,
            c.pos() == (if old(self)@.len() > 0 { Pos::At(old(self)@.len() - 1) } else { Pos::End }),
    {
        let position = match self.tail {
            Some(tl) => CursorPos::Node(tl),
            None => CursorPos::End,
        };
        let ghost idx: int = self@.len() - 1;
        CursorMut { parent: self, position, index: Ghost(idx) }
    }

    /// A read-only cursor placed before the first element.
    pub fn iter(&self) -> (c: Cursor<'_, T>)
        requires
            self.wf(),
        ensures
            c.wf(),
            c.list() == self@,
            c.pos() == Pos::Start,
    {
        Cursor { parent: self, position: CursorPos::Start, index: Ghost(0) }
    }

    /// A read-only cursor at the first element, or before the start of an
    /// empty list.
    pub fn cursor_front(&self) -> (c: Cursor<'_, T>)
        requires
            self.wf(),
        ensures
            c.wf(),
            c.list() == self@,
            c.pos() == (if self@.len() > 0 { Pos::At(0) } else { Pos::Start }),
    {
        match self.head {
            Some(h) => Cursor { parent: self, position: CursorPos::Node(h), index: Ghost(0) },
            None => Cursor { parent: self, position: CursorPos::Start, index: Ghost(0) },
        }
    }

    /// A read-only cursor at the last element, or past the end of an empty
    /// list.
    pub fn cursor_back(&self) -> (c: Cursor<'_, T>)
        requires
            self.wf(),
        ensures
            c.wf(),
            c.list() == self@,
            c.pos() == (if self@.len() > 0 { Pos::At(self@.len() - 1) } else { Pos::End }),
    {
        match self.tail {
            Some(tl) => Cursor {
                parent: self,
                position: CursorPos::Node(tl),
                index: Ghost(self@.len() - 1),
            },
            None => Cursor { parent: self, position: CursorPos::End, index: Ghost(0) },
        }
    }
}

/// A well-formed list owns one live node per element and no other: the
/// occupied arena slots are exactly the slots of the element ranks, so
/// dropping the list (which drops the arena) frees exactly as many nodes as
/// the list has elements, and removing a node frees its slot at once.
pub proof fn lemma_live_slot_count<T>(l: LinkedList<T>)
    requires
        l.wf(),
    ensures
        l.live_slot_count() == l@.len(),
{
    broadcast use vstd::set::group_set_axioms;
    broadcast use vstd::seq_lib::seq_to_set_is_finite;

    let live = Set::new(|s: usize| s < l.nodes@.len() && l.nodes@[s as int] is Some);
    assert forall|x: usize| live.contains(x) implies l.order@.to_set().contains(x) by {
        assert(l.nodes@[x as int] is Some);
        assert(l.order@.contains(x));
    }
    assert forall|x: usize| l.order@.to_set().contains(x) implies live.contains(x) by {
        assert(l.order@.contains(x));
        let j = choose|j: int| 0 <= j < l.order@.len() && l.order@[j] == x;
        assert(l.slot_ok(j));
    }
    assert(live =~= l.order@.to_set());
    assert(l.order@.no_duplicates());
    l.order@.unique_seq_to_set();
}

/// Two lists of the same shape: the same links, the same slot occupancy and
/// the same bookkeeping.  They may differ only in the values their occupied
/// slots hold, so rewriting a value in place keeps the shape.
pub(crate) open spec fn same_shape<T>(a: LinkedList<T>, b: LinkedList<T>) -> bool {
    &&& b.free == a.free
    &&& b.head == a.head
    &&& b.tail == a.tail
    &&& b.len == a.len
    &&& b.order == a.order
    &&& b.nodes@.len() == a.nodes@.len()
    &&& forall|s: int|
        0 <= s < a.nodes@.len() ==> ((#[trigger] b.nodes@[s]) is Some <==> a.nodes@[s] is Some)
    &&& forall|s: int|
        0 <= s < a.nodes@.len() && a.nodes@[s] is Some
            ==> (#[trigger] b.nodes@[s])->0.next == a.nodes@[s]->0.next
                && b.nodes@[s]->0.prev == a.nodes@[s]->0.prev
}

/// Well-formedness never looks at the stored values, so it carries over
/// between two lists of the same shape.
pub(crate) broadcast proof fn lemma_same_shape_wf<T>(a: LinkedList<T>, b: LinkedList<T>)
    ensures
        #[trigger] same_shape(a, b) && a.wf() ==> b.wf(),
{
    if same_shape(a, b) && a.wf() {
        assert forall|i: int| 0 <= i < b.order@.len() implies #[trigger] b.slot_ok(i) by {
            assert(a.slot_ok(i));
        }
        assert forall|k: int| 0 <= k < a@.len() implies a.order@[k] < a.nodes@.len()
            && (#[trigger] b@[k]) == b.nodes@[a.order@[k] as int]->0.value
            && a@[k] == a.nodes@[a.order@[k] as int]->0.value by {
            assert(a.slot_ok(k));
        }
        assert forall|j: int| 0 <= j < b.free@.len() implies #[trigger] b.free_ok(j) by {
            assert(a.free_ok(j));
        }
        assert forall|s: int|
            0 <= s < b.nodes@.len() && (#[trigger] b.nodes@[s]) is Some
            implies b.order@.contains(s as usize) by {
            assert(a.nodes@[s] is Some);
        }
        assert forall|s: int|
            0 <= s < b.nodes@.len() && (#[trigger] b.nodes@[s]) is None
            implies b.free@.contains(s as usize) by {
            assert(a.nodes@[s] is None);
        }
        assert(b.wf());
    }
}

/// Between two well-formed lists of the same shape, the element of any rank
/// sits in the same slot, so each holds that rank's value in that slot.
pub(crate) broadcast proof fn lemma_same_shape_view<T>(a: LinkedList<T>, b: LinkedList<T>, k: int)
    ensures
        #[trigger] same_shape(a, b) && a.wf() && 0 <= k < a@.len()
            ==> a.order@[k] < a.nodes@.len()
                && (#[trigger] b@[k]) == b.nodes@[a.order@[k] as int]->0.value
                && a@[k] == a.nodes@[a.order@[k] as int]->0.value,
{
    if same_shape(a, b) && a.wf() && 0 <= k < a@.len() {
        assert(a.slot_ok(k));
    }
}

/// A cursor's abstract position over a list: before the first element, past
/// the last element, or at the element of a given rank.
pub enum Pos {
    Start,
    End,
    At(int),
}

/// Where one forward step from `p` lands in a list of `n` elements: `Start`
/// steps to the first element (or to `End` of an empty list), `End` absorbs,
/// and the last element steps to `End`.
pub open spec fn pos_after_next(p: Pos, n: int) -> Pos {
    match p {
        Pos::Start => if n > 0 {
            Pos::At(0)
        } else {
            Pos::End
        },
        Pos::End => Pos::End,
        Pos::At(i) => if i + 1 < n {
            Pos::At(i + 1)
        } else {
            Pos::End
        },
    }
}

/// Where one backward step from `p` lands in a list of `n` elements: the
/// mirror image of `pos_after_next`, with `Start` absorbing and `End`
/// stepping to the last element.
pub open spec fn pos_after_prev(p: Pos, n: int) -> Pos {
    match p {
        Pos::Start => Pos::Start,
        Pos::End => if n > 0 {
            Pos::At(n - 1)
        } else {
            Pos::Start
        },
        Pos::At(i) => if i > 0 {
            Pos::At(i - 1)
        } else {
            Pos::Start
        },
    }
}

/// A cursor's concrete position: the sentinel slots before and after the
/// list, or the arena slot of the node it rests on.
#[derive(Clone, Copy)]
enum CursorPos {
    Start,
    End,
    Node(usize),
}

/// A read-only traversal handle: a borrow of the list and a position.  It
/// never changes the list it walks.
pub struct Cursor<'a, T> {
    parent: &'a LinkedList<T>,
    position: CursorPos,
    index: Ghost<int>,
}

impl<'a, T> Cursor<'a, T> {
    /// The elements of the list under the cursor.
    pub closed spec fn list(&self) -> Seq<T> {
        self.parent@
    }

    /// The cursor's abstract position.
    pub closed spec fn pos(&self) -> Pos {
        match self.position {
            CursorPos::Start => Pos::Start,
            CursorPos::End => Pos::End,
            CursorPos::Node(_) => Pos::At(self.index@),
        }
    }

    /// The underlying list is well-formed and, when the cursor rests on a
    /// node, that node is the one of the cursor's rank.
    pub closed spec fn wf(&self) -> bool {
        &&& self.parent.wf()
        &&& match self.position {
            CursorPos::Node(s) => 0 <= self.index@ < self.parent.order@.len()
                && self.parent.order@[self.index@] == s,
            _ => true,
        }
    }

    /// One step forward.  Past the end the position stays `End`.
    pub fn move_next(&mut self)
        requires
            old(self).wf(),
        ensures
            final(self).wf(),
            final(self).list() == old(self).list(),
            final(self).pos() == pos_after_next(old(self).pos(), old(self).list().len() as int),
    {
        match self.position {
            CursorPos::Start => {
                match self.parent.head {
                    Some(h) => {
                        self.position = CursorPos::Node(h);
                        proof {
                            self.index@ = 0;
                        }
                    },
                    None => {
                        self.position = CursorPos::End;
                    },
                }
            },
            CursorPos::End => {},
            CursorPos::Node(s) => {
                proof {
                    assert(self.parent.slot_ok(self.index@));
                }
                let slot = &self.parent.nodes[s];
                match slot {
                    Some(node) => {
                        match node.next {
                            Some(nx) => {
                                self.position = CursorPos::Node(nx);
                                proof {
                                    self.index@ = self.index@ + 1;
                                }
                            },
                            None => {
                                self.position = CursorPos::End;
                            },
                        }
                    },
                    None => {
                        proof {
                            assert(false);
                        }
                    },
                }
            },
        }
    }

    /// One step backward.  Before the start the position stays `Start`.
    pub fn move_prev(&mut self)
        requires
            old(self).wf(),
        ensures
            final(self).wf(),
            final(self).list() == old(self).list(),
            final(self).pos() == pos_after_prev(old(self).pos(), old(self).list().len() as int),
    {
        match self.position {
            CursorPos::Start => {},
            CursorPos::End => {
                match self.parent.tail {
                    Some(tl) => {
                        proof {
                            assert(self.parent.slot_ok(self.parent.order@.len() - 1));
                        }
                        self.position = CursorPos::Node(tl);
                        proof {
                            self.index@ = self.parent.order@.len() - 1;
                        }
                    },
                    None => {
                        self.position = CursorPos::Start;
                    },
                }
            },
            CursorPos::Node(s) => {
                proof {
                    assert(self.parent.slot_ok(self.index@));
                }
                let slot = &self.parent.nodes[s];
                match slot {
                    Some(node) => {
                        match node.prev {
                            Some(pv) => {
                                self.position = CursorPos::Node(pv);
                                proof {
                                    self.index@ = self.index@ - 1;
                                }
                            },
                            None => {
                                self.position = CursorPos::Start;
                            },
                        }
                    },
                    None => {
                        proof {
                            assert(false);
                        }
                    },
                }
            },
        }
    }

    /// The value under the cursor, or `None` at either sentinel.
    pub fn current(&self) -> (r: Option<&'a T>)
        requires
            self.wf(),
        ensures
            match self.pos() {
                Pos::At(i) => r matches Some(v) && *v == self.list()[i],
                _ => r is None,
            },
    {
        match self.position {
            CursorPos::Node(s) => {
                proof {
                    assert(self.parent.slot_ok(self.index@));
                }
                let slot = &self.parent.nodes[s];
                match slot {
                    Some(node) => Some(&node.value),
                    None => unreached(),
                }
            },
            _ => None,
        }
    }

    /// Advances, then reads: the forward-sequence producer.  Once the walk
    /// has reached `End` every further call returns `None`.
    pub fn next(&mut self) -> (r: Option<&'a T>)
        requires
            old(self).wf(),
        ensures
            final(self).wf(),
            final(self).list() == old(self).list(),
            final(self).pos() == pos_after_next(old(self).pos(), old(self).list().len() as int),
            match final(self).pos() {
                Pos::At(i) => r matches Some(v) && *v == old(self).list()[i],
                _ => r is None,
            },
    {
        self.move_next();
        self.current()
    }
}

/// A mutating cursor: an exclusive borrow of the list and a position.  It
/// reads and rewrites values in place, and edits the structure around its
/// position; while it lives, no other handle on the list exists.
pub struct CursorMut<'a, T> {
    parent: &'a mut LinkedList<T>,
    position: CursorPos,
    index: Ghost<int>,
}

impl<'a, T> CursorMut<'a, T> {
    /// The elements the list holds now.
    pub closed spec fn list(&self) -> Seq<T> {
        (*self.parent)@
    }

    /// The cursor's abstract position.
    pub closed spec fn pos(&self) -> Pos {
        match self.position {
            CursorPos::Start => Pos::Start,
            CursorPos::End => Pos::End,
            CursorPos::Node(_) => Pos::At(self.index@),
        }
    }

    /// The borrowed list is well-formed and, when the cursor rests on a
    /// node, that node is the one of the cursor's rank.
    pub closed spec fn wf(&self) -> bool {
        &&& (*self.parent).wf()
        &&& match self.position {
            CursorPos::Node(s) => 0 <= self.index@ < self.parent.order@.len()
                && self.parent.order@[self.index@] == s,
            _ => true,
        }
    }

    /// One step forward.  Past the end the position stays `End`.
    pub fn move_next(&mut self)
        requires
            old(self).wf(),
        ensures
            final(self).wf(),
            final(self).list() == old(self).list(),
            final(self).pos() == pos_after_next(old(self).pos(), old(self).list().len() as int),
    {
        match self.position {
            CursorPos::Start => {
                match self.parent.head {
                    Some(h) => {
                        self.position = CursorPos::Node(h);
                        proof {
                            self.index@ = 0;
                        }
                    },
                    None => {
                        self.position = CursorPos::End;
                    },
                }
            },
            CursorPos::End => {},
            CursorPos::Node(s) => {
                proof {
                    assert(self.parent.slot_ok(self.index@));
                }
                let slot = &self.parent.nodes[s];
                match slot {
                    Some(node) => {
                        match node.next {
                            Some(nx) => {
                                self.position = CursorPos::Node(nx);
                                proof {
                                    self.index@ = self.index@ + 1;
                                }
                            },
                            None => {
                                self.position = CursorPos::End;
                            },
                        }
                    },
                    None => {
                        proof {
                            assert(false);
                        }
                    },
                }
            },
        }
    }

    /// One step backward.  Before the start the position stays `Start`.
    pub fn move_prev(&mut self)
        requires
            old(self).wf(),
        ensures
            final(self).wf(),
            final(self).list() == old(self).list(),
            final(self).pos() == pos_after_prev(old(self).pos(), old(self).list().len() as int),
    {
        match self.position {
            CursorPos::Start => {},
            CursorPos::End => {
                match self.parent.tail {
                    Some(tl) => {
                        proof {
                            assert(self.parent.slot_ok(self.parent.order@.len() - 1));
                        }
                        self.position = CursorPos::Node(tl);
                        proof {
                            self.index@ = self.parent.order@.len() - 1;
                        }
                    },
                    None => {
                        self.position = CursorPos::Start;
                    },
                }
            },
            CursorPos::Node(s) => {
                proof {
                    assert(self.parent.slot_ok(self.index@));
                }
                let slot = &self.parent.nodes[s];
                match slot {
                    Some(node) => {
                        match node.prev {
                            Some(pv) => {
                                self.position = CursorPos::Node(pv);
                                proof {
                                    self.index@ = self.index@ - 1;
                                }
                            },
                            None => {
                                self.position = CursorPos::Start;
                            },
                        }
                    },
                    None => {
                        proof {
                            assert(false);
                        }
                    },
                }
            },
        }
    }

    /// A mutable borrow of the value under the cursor, or `None` at either
    /// sentinel.  Writing through the borrow changes that element alone.
    pub fn current(&mut self) -> (r: Option<&mut T>)
        requires
            old(self).wf(),
        ensures
            final(self).wf(),
            final(self).pos() == old(self).pos(),
            match old(self).pos() {
                Pos::At(i) => r matches Some(v) && *v == old(self).list()[i]
                    && final(self).list() =~= old(self).list().update(i, *final(v)),
                _ => r is None && final(self).list() == old(self).list(),
            },
    {
        broadcast use lemma_same_shape_wf;
        broadcast use lemma_same_shape_view;

        match self.position {
            CursorPos::Node(s) => {
                proof {
                    assert(self.parent.slot_ok(self.index@));
                }
                let v = self.parent.slot_value_mut(s);
                Some(v)
            },
            _ => None,
        }
    }

    /// Detaches the node under the cursor and returns its value; at either
    /// sentinel, does nothing and returns `None`.  The two neighbours are
    /// linked to each other, and the cursor moves to the next node, or to
    /// `End` when the removed node was last.
    pub fn remove(&mut self) -> (r: Option<T>)
        requires
            old(self).wf(),
        ensures
            final(self).wf(),
            match old(self).pos() {
                Pos::At(i) => r == Some(old(self).list()[i])
                    && final(self).list() == old(self).list().remove(i)
                    && final(self).pos() == (if i < old(self).list().len() - 1 {
                        Pos::At(i)
                    } else {
                        Pos::End
                    }),
                _ => r is None && final(self).list() == old(self).list()
                    && final(self).pos() == old(self).pos(),
            },
    {
        match self.position {
            CursorPos::Node(s) => {
                let ghost i = self.index@;
                let ghost l0 = *old(self).parent;
                proof {
                    assert(l0.slot_ok(i));
                }
                let node = self.parent.take_slot(s);
                let ghost mid = *self.parent;
                match (node.prev, node.next) {
                    (Some(pv), Some(nx)) => {
                        proof {
                            assert(l0.slot_ok(i - 1));
                            assert(l0.slot_ok(i + 1));
                        }
                        self.parent.set_next(pv, Some(nx));
                        self.parent.set_prev(nx, Some(pv));
                        self.position = CursorPos::Node(nx);
                    },
                    (Some(pv), None) => {
                        proof {
                            assert(l0.slot_ok(i - 1));
                        }
                        self.parent.set_next(pv, None);
                        self.parent.tail = Some(pv);
                        self.position = CursorPos::End;
                    },
                    (None, Some(nx)) => {
                        proof {
                            assert(l0.slot_ok(i + 1));
                        }
                        self.parent.set_prev(nx, None);
                        self.parent.head = Some(nx);
                        self.position = CursorPos::Node(nx);
                    },
                    (None, None) => {
                        self.parent.head = None;
                        self.parent.tail = None;
                        self.position = CursorPos::End;
                    },
                }
                self.parent.len = self.parent.len - 1;
                proof {
                    self.parent.order@ = l0.order@.remove(i);
                    let lp = *self.parent;
                    assert(lp.free@ == mid.free@);
                    assert forall|k: int| 0 <= k < lp.order@.len()
                        implies #[trigger] lp.slot_ok(k) by {
                        if k < i - 1 {
                            assert(l0.slot_ok(k));
                        } else if k == i - 1 {
                            assert(l0.slot_ok(k));
                            if i + 1 < l0.order@.len() {
                                assert(l0.slot_ok(i + 1));
                            }
                        } else {
                            assert(l0.slot_ok(k + 1));
                        }
                    }
                    assert forall|t: int|
                        0 <= t < lp.nodes@.len() && (#[trigger] lp.nodes@[t]) is Some
                        implies lp.order@.contains(t as usize) by {
                        assert(lp.nodes.len() == lp.nodes@.len());
                        assert(t as usize != s);
                        assert(l0.nodes@[t] is Some);
                        let j = choose|j: int|
                            0 <= j < l0.order@.len() && l0.order@[j] == t as usize;
                        assert(j != i);
                        if j < i {
                            assert(lp.order@[j] == t as usize);
                        } else {
                            assert(lp.order@[j - 1] == t as usize);
                        }
                    }
                    assert forall|j: int| 0 <= j < lp.free@.len()
                        implies #[trigger] lp.free_ok(j) by {
                        assert(mid.free_ok(j));
                        assert(mid.nodes@[mid.free@[j] as int] is None);
                    }
                    assert forall|t: int|
                        0 <= t < lp.nodes@.len() && (#[trigger] lp.nodes@[t]) is None
                        implies lp.free@.contains(t as usize) by {
                        assert(mid.nodes@[t] is None);
                        assert(mid.free@.contains(t as usize));
                    }
                    assert forall|k: int| 0 <= k < lp@.len()
                        implies lp@[k] == l0@.remove(i)[k] by {
                        if k < i {
                            assert(l0.slot_ok(k));
                        } else {
                            assert(l0.slot_ok(k + 1));
                        }
                    }
                    assert(lp@ =~= l0@.remove(i));
                }
                Some(node.value)
            },
            _ => None,
        }
    }

    /// Inserts `value` after the cursor's position: after the node under
    /// the cursor (the cursor stays on that node), or, at `Start`/`End`, as
    /// the new first/last element.
    #[verifier::rlimit(50)]
    pub fn insert_after(&mut self, value: T)
        requires
            old(self).wf(),
            old(self).list().len() < usize::MAX,
        ensures
            final(self).wf(),
            final(self).pos() == old(self).pos(),
            match old(self).pos() {
                Pos::Start => final(self).list() == seq![value].add(old(self).list()),
                Pos::End => final(self).list() == old(self).list().push(value),
                Pos::At(i) => final(self).list() == old(self).list().insert(i + 1, value),
            },
    {
        match self.position {
            CursorPos::Start => {
                self.parent.push_front(value);
            },
            CursorPos::End => {
                self.parent.push_back(value);
            },
            CursorPos::Node(s) => {
                let ghost i = self.index@;
                let ghost l0 = *old(self).parent;
                proof {
                    assert(l0.slot_ok(i));
                }
                let nxopt = match &self.parent.nodes[s] {
                    Some(node) => node.next,
                    None => unreached(),
                };
                let ns = self.parent.fill_slot(Node { next: nxopt, prev: Some(s), value });
                let ghost mid = *self.parent;
                proof {
                    assert forall|k: int| 0 <= k < l0.order@.len()
                        implies l0.order@[k] != ns by {
                        assert(l0.slot_ok(k));
                    }
                }
                self.parent.set_next(s, Some(ns));
                match nxopt {
                    Some(nx) => {
                        proof {
                            assert(l0.slot_ok(i + 1));
                        }
                        self.parent.set_prev(nx, Some(ns));
                    },
                    None => {
                        self.parent.tail = Some(ns);
                    },
                }
                self.parent.len = self.parent.len + 1;
                proof {
                    self.parent.order@ = l0.order@.insert(i + 1, ns);
                    let lp = *self.parent;
                    assert(lp.free@ == mid.free@);
                    assert forall|k: int| 0 <= k < lp.order@.len()
                        implies #[trigger] lp.slot_ok(k) by {
                        if k < i {
                            assert(l0.slot_ok(k));
                        } else if k == i || k == i + 1 {
                            assert(l0.slot_ok(i));
                        } else {
                            assert(l0.slot_ok(k - 1));
                        }
                    }
                    assert forall|t: int|
                        0 <= t < lp.nodes@.len() && (#[trigger] lp.nodes@[t]) is Some
                        implies lp.order@.contains(t as usize) by {
                        assert(lp.nodes.len() == lp.nodes@.len());
                        if t == ns {
                            assert(lp.order@[i + 1] == ns);
                        } else {
                            assert(l0.nodes@[t] is Some);
                            let j = choose|j: int|
                                0 <= j < l0.order@.len() && l0.order@[j] == t as usize;
                            if j <= i {
                                assert(lp.order@[j] == t as usize);
                            } else {
                                assert(lp.order@[j + 1] == t as usize);
                            }
                        }
                    }
                    assert forall|j: int| 0 <= j < lp.free@.len()
                        implies #[trigger] lp.free_ok(j) by {
                        assert(mid.free_ok(j));
                        assert(mid.nodes@[mid.free@[j] as int] is None);
                    }
                    assert forall|t: int|
                        0 <= t < lp.nodes@.len() && (#[trigger] lp.nodes@[t]) is None
                        implies lp.free@.contains(t as usize) by {
                        assert(mid.nodes@[t] is None);
                        assert(mid.free@.contains(t as usize));
                    }
                    assert forall|k: int| 0 <= k < lp@.len()
                        implies lp@[k] == l0@.insert(i + 1, value)[k] by {
                        if k < i {
                            assert(l0.slot_ok(k));
                        } else if k == i {
                            assert(l0.slot_ok(i));
                        } else if k > i + 1 {
                            assert(l0.slot_ok(k - 1));
                        }
                    }
                    assert(lp@ =~= l0@.insert(i + 1, value));
                }
            },
        }
    }

    /// The number of elements in the borrowed list.
    pub fn len(&self) -> (n: usize)
        requires
            self.wf(),
        ensures
            n == self.list().len(),
    {
        self.parent.len()
    }
}

} // verus!
