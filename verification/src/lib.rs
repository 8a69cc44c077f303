//! A doubly linked list backed by an arena of slots.
//!
//! The list owns a `Vec` of slots; each occupied slot holds a [`Node`],
//! and a node's `prev` / `next` links are slot indices rather than
//! pointers, so the chain carries no shared-ownership cycles and the
//! whole arena is reclaimed at once when the list is dropped. Slots
//! freed by `pop` / `shift` are remembered on a free stack and reused
//! by later insertions. All four mutators run in constant time.

use vstd::prelude::*;

verus! {

/// One chain element: a value together with the slot indices of its
/// two neighbours (`None` at an end of the chain).
pub struct Node<T> {
    pub value: T,
    pub prev: Option<usize>,
    pub next: Option<usize>,
}

impl<T> Node<T> {
    /// Builds a node from its value and its two links.
    pub fn new(value: T, prev: Option<usize>, next: Option<usize>) -> (node: Node<T>)
        ensures
            node == (Node { value, prev, next }),
    {
        Node { value, prev, next }
    }
}

/// A doubly linked list. Abstractly it is the sequence of its values
/// from head to tail, which is what [`DLL::view`] returns.
pub struct DLL<T> {
    /// The arena: `Some` slots hold the chain's nodes, `None` slots are vacant.
    nodes: Vec<Option<Node<T>>>,
    /// Vacant slot indices, available for reuse.
    free: Vec<usize>,
    /// Slot index of the first node of the chain.
    head: Option<usize>,
    /// Slot index of the last node of the chain.
    tail: Option<usize>,
    /// Number of nodes in the chain.
    length: usize,
    /// Ghost witness: the slot indices of the chain, head to tail.
    order: Ghost<Seq<usize>>,
}

impl<T> DLL<T> {
    /// The sequence of values held by the list, head first.
    pub closed spec fn view(&self) -> Seq<T> {
        Seq::new(self.order@.len(), |k: int| self.nodes@[self.order@[k] as int]->0.value)
    }

    /// The slot indices of the chain, head to tail (ghost).
    pub closed spec fn chain(&self) -> Seq<usize> {
        self.order@
    }

    /// Number of slots in the backing arena (ghost).
    pub closed spec fn arena_len(&self) -> nat {
        self.nodes@.len()
    }

    /// The head link (ghost).
    pub closed spec fn head_index(&self) -> Option<usize> {
        self.head
    }

    /// The tail link (ghost).
    pub closed spec fn tail_index(&self) -> Option<usize> {
        self.tail
    }

    /// The `prev` link of the node in slot `i` (ghost).
    pub closed spec fn prev_of(&self, i: int) -> Option<usize> {
        self.nodes@[i]->0.prev
    }

    /// The `next` link of the node in slot `i` (ghost).
    pub closed spec fn next_of(&self, i: int) -> Option<usize> {
        self.nodes@[i]->0.next
    }

    /// Structural well-formedness: the length bookkeeping is exact, the
    /// chain's slots are occupied and pairwise distinct, head and tail
    /// point at the chain's two ends, every adjacent pair of nodes is
    /// linked symmetrically, and the free stack lists exactly the
    /// vacant slots.
    pub closed spec fn well_formed(&self) -> bool {
        let s = self.nodes@;
        let ord = self.order@;
        let f = self.free@;
        let n = ord.len() as int;
        &&& self.length == n
        &&& n + f.len() == s.len()
        &&& forall|k: int| 0 <= k < n ==> (#[trigger] ord[k]) < s.len() && s[ord[k] as int] is Some
        &&& forall|k1: int, k2: int| 0 <= k1 < k2 < n ==> ord[k1] != ord[k2]
        &&& self.head == (if n == 0 { None::<usize> } else { Some(ord[0]) })
        &&& self.tail == (if n == 0 { None::<usize> } else { Some(ord[n - 1]) })
        &&& forall|k: int| #![trigger ord[k]] 0 <= k < n ==> {
            let nd = s[ord[k] as int]->0;
            &&& nd.prev == (if k == 0 { None::<usize> } else { Some(ord[k - 1]) })
            &&& nd.next == (if k == n - 1 { None::<usize> } else { Some(ord[k + 1]) })
        }
        &&& forall|j: int| 0 <= j < f.len() ==> (#[trigger] f[j]) < s.len() && s[f[j] as int] is None
        &&& forall|j1: int, j2: int| 0 <= j1 < j2 < f.len() ==> f[j1] != f[j2]
    }

    /// Returns the empty list.
    pub fn new() -> (list: DLL<T>)
        ensures
            list.well_formed(),
            list@ == Seq::<T>::empty(),
    {
        let list = DLL {
            nodes: Vec::new(),
            free: Vec::new(),
            head: None,
            tail: None,
            length: 0,
            order: Ghost(Seq::empty()),
        };
        proof {
            assert(list@ =~= Seq::<T>::empty());
        }
        list
    }

    /// True exactly when the list holds no values.
    pub fn is_empty(&self) -> (r: bool)
        requires
            self.well_formed(),
        ensures
            r <==> self@.len() == 0,
    {
        self.length == 0
    }

    /// The number of values in the list.
    pub fn len(&self) -> (n: usize)
        requires
            self.well_formed(),
        ensures
            n == self@.len(),
    {
        self.length
    }

    /// Stores `node` in a vacant slot (reusing a freed one if any) and
    /// returns the slot's index. Touches nothing but the arena and the
    /// free stack.
    fn place(&mut self, node: Node<T>) -> (idx: usize)
        requires
            old(self).well_formed(),
        ensures
            idx < final(self).nodes@.len(),
            final(self).nodes@[idx as int] == Some(node),
            forall|i: int|
                0 <= i < old(self).nodes@.len() && i != idx ==> final(self).nodes@[i]
                    == #[trigger] old(self).nodes@[i],
            idx < old(self).nodes@.len() ==> final(self).nodes@.len() == old(self).nodes@.len()
                && old(self).nodes@[idx as int] is None && old(self).free@.len() > 0 && idx
                == old(self).free@.last() && final(self).free@ == old(self).free@.drop_last(),
            idx >= old(self).nodes@.len() ==> idx == old(self).nodes@.len()
                && final(self).nodes@.len() == old(self).nodes@.len() + 1
                && old(self).free@.len() == 0 && final(self).free@ == old(self).free@,
            final(self).head == old(self).head,
            final(self).tail == old(self).tail,
            final(self).length == old(self).length,
            final(self).order == old(self).order,
    {
        match self.free.pop() {
            Some(i) => {
                self.nodes[i] = Some(node);
                i
            },
            None => {
                let i: usize = self.nodes.len();
                self.nodes.push(Some(node));
                i
            },
        }
    }

    /// Appends `value` at the tail end of the list.
    #[verifier::rlimit(50)]
    pub fn push(&mut self, value: T)
        requires
            old(self).well_formed(),
        ensures
            final(self).well_formed(),
            final(self)@ == old(self)@.push(value),
    {
        let old_tail = self.tail;
        let node = Node::new(value, old_tail, None);
        let idx = self.place(node);
        let ghost s = old(self).nodes@;
        let ghost ord = old(self).order@;
        let ghost f = old(self).free@;
        let ghost n = ord.len() as int;
        proof {
            assert forall|k: int| 0 <= k < n implies (#[trigger] ord[k]) != idx by {
                assert(s[ord[k] as int] is Some);
                assert(ord[k] < s.len());
            }
            assert(n > 0 ==> old_tail == Some(ord[n - 1]) && ord[n - 1] < s.len());
            assert(self.nodes.len() == self.nodes@.len());
        }
        match old_tail {
            Some(t) => {
                match &mut self.nodes[t] {
                    Some(nd) => {
                        nd.next = Some(idx);
                    },
                    None => {},
                }
            },
            None => {
                self.head = Some(idx);
            },
        }
        self.tail = Some(idx);
        self.length = self.length + 1;
        self.order = Ghost(ord.push(idx));
        proof {
            let s2 = self.nodes@;
            let ord2 = self.order@;
            let f2 = self.free@;
            let n2 = n + 1;
            assert forall|k: int| 0 <= k < n implies #[trigger] ord2[k] == ord[k] && ord[k]
                < s2.len() && s2[ord[k] as int] == (if n > 0 && ord[k] == ord[n - 1] {
                Some(Node { next: Some(idx), ..s[ord[k] as int]->0 })
            } else {
                s[ord[k] as int]
            }) by {
                if n > 0 && ord[k] == ord[n - 1] && k < n - 1 {
                    assert(false);
                }
            }
            assert forall|k: int| #![trigger ord2[k]] 0 <= k < n2 implies ord2[k] < s2.len()
                && s2[ord2[k] as int] is Some && {
                let nd = s2[ord2[k] as int]->0;
                &&& nd.prev == (if k == 0 {
                    None::<usize>
                } else {
                    Some(ord2[k - 1])
                })
                &&& nd.next == (if k == n2 - 1 {
                    None::<usize>
                } else {
                    Some(ord2[k + 1])
                })
            } by {
                if k < n {
                    assert(ord2[k] == ord[k]);
                    assert(s[ord[k] as int] is Some);
                } else {
                    assert(ord2[k] == idx);
                }
            }
            assert forall|j: int| 0 <= j < f2.len() implies (#[trigger] f2[j]) < s2.len()
                && s2[f2[j] as int] is None by {
                assert(f2[j] == f[j]);
                assert(s[f[j] as int] is None);
                assert(f[j] != idx);
                assert(n > 0 ==> f[j] != ord[n - 1]);
            }
            assert(self.well_formed());
            assert(self@ =~= old(self)@.push(value));
        }
    }

    /// Prepends `value` at the head end of the list.
    #[verifier::rlimit(50)]
    pub fn unshift(&mut self, value: T)
        requires
            old(self).well_formed(),
        ensures
            final(self).well_formed(),
            final(self)@ == seq![value] + old(self)@,
    {
        let old_head = self.head;
        let node = Node::new(value, None, old_head);
        let idx = self.place(node);
        let ghost s = old(self).nodes@;
        let ghost ord = old(self).order@;
        let ghost f = old(self).free@;
        let ghost n = ord.len() as int;
        proof {
            assert forall|k: int| 0 <= k < n implies (#[trigger] ord[k]) != idx by {
                assert(s[ord[k] as int] is Some);
                assert(ord[k] < s.len());
            }
            assert(n > 0 ==> old_head == Some(ord[0]) && ord[0] < s.len());
            assert(self.nodes.len() == self.nodes@.len());
        }
        match old_head {
            Some(h) => {
                match &mut self.nodes[h] {
                    Some(nd) => {
                        nd.prev = Some(idx);
                    },
                    None => {},
                }
            },
            None => {
                self.tail = Some(idx);
            },
        }
        self.head = Some(idx);
        self.length = self.length + 1;
        self.order = Ghost(seq![idx] + ord);
        proof {
            let s2 = self.nodes@;
            let ord2 = self.order@;
            let f2 = self.free@;
            let n2 = n + 1;
            assert forall|k: int| 0 <= k < n implies #[trigger] ord2[k + 1] == ord[k] && ord[k]
                < s2.len() && s2[ord[k] as int] == (if n > 0 && ord[k] == ord[0] {
                Some(Node { prev: Some(idx), ..s[ord[k] as int]->0 })
            } else {
                s[ord[k] as int]
            }) by {
                if n > 0 && ord[k] == ord[0] && k > 0 {
                    assert(false);
                }
            }
            assert forall|k: int| #![trigger ord2[k]] 0 <= k < n2 implies ord2[k] < s2.len()
                && s2[ord2[k] as int] is Some && {
                let nd = s2[ord2[k] as int]->0;
                &&& nd.prev == (if k == 0 {
                    None::<usize>
                } else {
                    Some(ord2[k - 1])
                })
                &&& nd.next == (if k == n2 - 1 {
                    None::<usize>
                } else {
                    Some(ord2[k + 1])
                })
            } by {
                if k >= 1 {
                    assert(ord2[k] == ord[k - 1]);
                    assert(s[ord[k - 1] as int] is Some);
                } else {
                    assert(ord2[k] == idx);
                }
            }
            assert forall|k1: int, k2: int| 0 <= k1 < k2 < n2 implies ord2[k1] != ord2[k2] by {
                if k1 >= 1 {
                    assert(ord2[k1] == ord[k1 - 1] && ord2[k2] == ord[k2 - 1]);
                }
            }
            assert forall|j: int| 0 <= j < f2.len() implies (#[trigger] f2[j]) < s2.len()
                && s2[f2[j] as int] is None by {
                assert(f2[j] == f[j]);
                assert(s[f[j] as int] is None);
                assert(f[j] != idx);
                assert(n > 0 ==> f[j] != ord[0]);
            }
            assert(self.well_formed());
            assert(self@ =~= seq![value] + old(self)@);
        }
    }

    /// Removes the tail node and returns its value; `None` when the
    /// list is empty, which leaves the list untouched.
    #[verifier::rlimit(50)]
    pub fn pop(&mut self) -> (r: Option<T>)
        requires
            old(self).well_formed(),
        ensures
            final(self).well_formed(),
            old(self)@.len() == 0 ==> r is None && final(self)@ == old(self)@,
            old(self)@.len() > 0 ==> r == Some(old(self)@.last()) && final(self)@
                == old(self)@.drop_last(),
    {
        let ghost s = old(self).nodes@;
        let ghost ord = old(self).order@;
        let ghost f = old(self).free@;
        let ghost n = ord.len() as int;
        let t = match self.tail {
            None => {
                return None;
            },
            Some(t) => t,
        };
        proof {
            assert(n > 0 && t == ord[n - 1] && t < s.len() && s[t as int] is Some);
        }
        let tail_prev: Option<usize> = match &self.nodes[t] {
            Some(nd) => nd.prev,
            None => None,
        };
        match tail_prev {
            Some(p) => {
                proof {
                    assert(n >= 2 && p == ord[n - 2] && p < s.len() && s[p as int] is Some);
                    assert(p != t);
                }
                match &mut self.nodes[p] {
                    Some(nd) => {
                        nd.next = None;
                    },
                    None => {},
                }
                self.tail = Some(p);
            },
            None => {
                proof {
                    assert(n == 1);
                }
                self.head = None;
                self.tail = None;
            },
        }
        let slot = &mut self.nodes[t];
        let taken = slot.take();
        self.free.push(t);
        self.length = self.length - 1;
        self.order = Ghost(ord.drop_last());
        proof {
            let s2 = self.nodes@;
            let ord2 = self.order@;
            let f2 = self.free@;
            let n2 = n - 1;
            assert forall|k: int| 0 <= k < n2 implies #[trigger] ord2[k] == ord[k] && ord[k]
                < s2.len() && s2[ord[k] as int] == (if ord[k] == ord[n2 - 1] && n >= 2 {
                Some(Node { next: None::<usize>, ..s[ord[k] as int]->0 })
            } else {
                s[ord[k] as int]
            }) by {
                assert(ord[k] != ord[n - 1]);
                if n >= 2 && ord[k] == ord[n - 2] && k != n - 2 {
                    assert(false);
                }
            }
            assert forall|k: int| #![trigger ord2[k]] 0 <= k < n2 implies ord2[k] < s2.len()
                && s2[ord2[k] as int] is Some && {
                let nd = s2[ord2[k] as int]->0;
                &&& nd.prev == (if k == 0 {
                    None::<usize>
                } else {
                    Some(ord2[k - 1])
                })
                &&& nd.next == (if k == n2 - 1 {
                    None::<usize>
                } else {
                    Some(ord2[k + 1])
                })
            } by {
                assert(ord2[k] == ord[k]);
                assert(s[ord[k] as int] is Some);
            }
            assert forall|j: int| 0 <= j < f2.len() implies (#[trigger] f2[j]) < s2.len()
                && s2[f2[j] as int] is None by {
                if j < f.len() {
                    assert(f2[j] == f[j]);
                    assert(s[f[j] as int] is None);
                    assert(f[j] != ord[n - 1]);
                    assert(n >= 2 ==> f[j] != ord[n - 2]);
                } else {
                    assert(f2[j] == t);
                }
            }
            assert forall|j1: int, j2: int| 0 <= j1 < j2 < f2.len() implies f2[j1] != f2[j2] by {
                if j2 == f.len() {
                    assert(f2[j1] == f[j1] && s[f[j1] as int] is None);
                    assert(f2[j2] == t && s[t as int] is Some);
                }
            }
            assert(self.well_formed());
            assert(self@ =~= old(self)@.drop_last());
            assert(taken == Some(s[t as int]->0));
            assert(old(self)@.last() == s[ord[n - 1] as int]->0.value);
        }
        match taken {
            Some(nd) => Some(nd.value),
            None => None,
        }
    }

    /// Removes the head node and returns its value; `None` when the
    /// list is empty, which leaves the list untouched.
    #[verifier::rlimit(50)]
    pub fn shift(&mut self) -> (r: Option<T>)
        requires
            old(self).well_formed(),
        ensures
            final(self).well_formed(),
            old(self)@.len() == 0 ==> r is None && final(self)@ == old(self)@,
            old(self)@.len() > 0 ==> r == Some(old(self)@.first()) && final(self)@
                == old(self)@.drop_first(),
    {
        let ghost s = old(self).nodes@;
        let ghost ord = old(self).order@;
        let ghost f = old(self).free@;
        let ghost n = ord.len() as int;
        let h = match self.head {
            None => {
                return None;
            },
            Some(h) => h,
        };
        proof {
            assert(n > 0 && h == ord[0] && h < s.len() && s[h as int] is Some);
        }
        let head_next: Option<usize> = match &self.nodes[h] {
            Some(nd) => nd.next,
            None => None,
        };
        match head_next {
            Some(nx) => {
                proof {
                    assert(n >= 2 && nx == ord[1] && nx < s.len() && s[nx as int] is Some);
                    assert(nx != h);
                }
                match &mut self.nodes[nx] {
                    Some(nd) => {
                        nd.prev = None;
                    },
                    None => {},
                }
                self.head = Some(nx);
            },
            None => {
                proof {
                    assert(n == 1);
                }
                self.head = None;
                self.tail = None;
            },
        }
        let slot = &mut self.nodes[h];
        let taken = slot.take();
        self.free.push(h);
        self.length = self.length - 1;
        self.order = Ghost(ord.drop_first());
        proof {
            let s2 = self.nodes@;
            let ord2 = self.order@;
            let f2 = self.free@;
            let n2 = n - 1;
            assert forall|k: int| 0 <= k < n2 implies #[trigger] ord2[k] == ord[k + 1] && ord[k + 1]
                < s2.len() && s2[ord[k + 1] as int] == (if ord[k + 1] == ord[1] && n >= 2 {
                Some(Node { prev: None::<usize>, ..s[ord[k + 1] as int]->0 })
            } else {
                s[ord[k + 1] as int]
            }) by {
                assert(ord[k + 1] != ord[0]);
                if n >= 2 && ord[k + 1] == ord[1] && k != 0 {
                    assert(false);
                }
            }
            assert forall|k: int| #![trigger ord2[k]] 0 <= k < n2 implies ord2[k] < s2.len()
                && s2[ord2[k] as int] is Some && {
                let nd = s2[ord2[k] as int]->0;
                &&& nd.prev == (if k == 0 {
                    None::<usize>
                } else {
                    Some(ord2[k - 1])
                })
                &&& nd.next == (if k == n2 - 1 {
                    None::<usize>
                } else {
                    Some(ord2[k + 1])
                })
            } by {
                assert(ord2[k] == ord[k + 1]);
                assert(s[ord[k + 1] as int] is Some);
            }
            assert forall|j: int| 0 <= j < f2.len() implies (#[trigger] f2[j]) < s2.len()
                && s2[f2[j] as int] is None by {
                if j < f.len() {
                    assert(f2[j] == f[j]);
                    assert(s[f[j] as int] is None);
                    assert(f[j] != ord[0]);
                    assert(n >= 2 ==> f[j] != ord[1]);
                } else {
                    assert(f2[j] == h);
                }
            }
            assert forall|j1: int, j2: int| 0 <= j1 < j2 < f2.len() implies f2[j1] != f2[j2] by {
                if j2 == f.len() {
                    assert(f2[j1] == f[j1] && s[f[j1] as int] is None);
                    assert(f2[j2] == h && s[h as int] is Some);
                }
            }
            assert(self.well_formed());
            assert(self@ =~= old(self)@.drop_first());
            assert(taken == Some(s[h as int]->0));
            assert(old(self)@.first() == s[ord[0] as int]->0.value);
        }
        match taken {
            Some(nd) => Some(nd.value),
            None => None,
        }
    }

    /// Turns the list into a consuming iterator over its values.
    pub fn into_iter(self) -> (it: DLLIterator<T>)
        requires
            self.well_formed(),
        ensures
            it.well_formed(),
            it@ == self@,
    {
        DLLIterator { list: self }
    }
}

/// A consuming iteration adapter over a [`DLL`]: it owns the list and
/// drains it as it is stepped. A forward step removes the tail-most
/// remaining value, so a full forward traversal yields the values in
/// tail-to-head order; a backward step removes the head-most remaining
/// value, yielding head-to-tail order. Both ends may be driven in turn
/// until they meet; after that every step yields nothing.
pub struct DLLIterator<T> {
    list: DLL<T>,
}

impl<T> DLLIterator<T> {
    /// The values not yet yielded, head first.
    pub closed spec fn view(&self) -> Seq<T> {
        self.list@
    }

    /// The underlying list is structurally well-formed.
    pub closed spec fn well_formed(&self) -> bool {
        self.list.well_formed()
    }

    /// Forward step: removes and returns the tail-most remaining value.
    pub fn next(&mut self) -> (r: Option<T>)
        requires
            old(self).well_formed(),
        ensures
            final(self).well_formed(),
            old(self)@.len() == 0 ==> r is None && final(self)@ == old(self)@,
            old(self)@.len() > 0 ==> r == Some(old(self)@.last()) && final(self)@
                == old(self)@.drop_last(),
    {
        self.list.pop()
    }

    /// Backward step: removes and returns the head-most remaining value.
    pub fn next_back(&mut self) -> (r: Option<T>)
        requires
            old(self).well_formed(),
        ensures
            final(self).well_formed(),
            old(self)@.len() == 0 ==> r is None && final(self)@ == old(self)@,
            old(self)@.len() > 0 ==> r == Some(old(self)@.first()) && final(self)@
                == old(self)@.drop_first(),
    {
        self.list.shift()
    }

    /// Steps the iterator forward until it is exhausted and collects
    /// what it yields: the values in tail-to-head order, the reverse of
    /// the order in which they were pushed.
    pub fn drain_forward(self) -> (vals: Vec<T>)
        requires
            self.well_formed(),
        ensures
            vals@ == self@.reverse(),
    {
        let ghost s = self@;
        let mut it = self;
        let mut vals: Vec<T> = Vec::new();
        proof {
            assert(vals@ + it@.reverse() =~= s.reverse());
        }
        while !it.list.is_empty()
            invariant
                it.well_formed(),
                vals@ + it@.reverse() == s.reverse(),
            decreases it@.len(),
        {
            let ghost before = it@;
            let v = it.next();
            vals.push(v.unwrap());
            proof {
                assert(before.reverse() =~= seq![before.last()] + before.drop_last().reverse());
                assert(vals@ + it@.reverse() =~= s.reverse());
            }
        }
        proof {
            assert(it@.reverse() =~= Seq::<T>::empty());
            assert(vals@ =~= s.reverse());
        }
        vals
    }

    /// Steps the iterator backward until it is exhausted and collects
    /// what it yields: the values in head-to-tail order, the order in
    /// which they were pushed.
    pub fn drain_backward(self) -> (vals: Vec<T>)
        requires
            self.well_formed(),
        ensures
            vals@ == self@,
    {
        let ghost s = self@;
        let mut it = self;
        let mut vals: Vec<T> = Vec::new();
        while !it.list.is_empty()
            invariant
                it.well_formed(),
                vals@ + it@ == s,
            decreases it@.len(),
        {
            let v = it.next_back();
            vals.push(v.unwrap());
            proof {
                assert(vals@ + it@ =~= s);
            }
        }
        proof {
            assert(vals@ =~= s);
        }
        vals
    }
}

/// The list contents after pushing each value of `vals`, in order, onto
/// a list holding `s`: one application per call of `push`, exactly as
/// `push`'s contract describes a single call.
pub open spec fn push_all<T>(s: Seq<T>, vals: Seq<T>) -> Seq<T>
    decreases vals.len(),
{
    if vals.len() == 0 {
        s
    } else {
        push_all(s.push(vals.first()), vals.drop_first())
    }
}

/// Law: pushing the values of `vals` in order appends them, so a list
/// built by pushing N values onto an empty list holds exactly those N
/// values in insertion order and its length is N.
pub proof fn lemma_push_all_appends<T>(s: Seq<T>, vals: Seq<T>)
    ensures
        push_all(s, vals) == s + vals,
    decreases vals.len(),
{
    if vals.len() == 0 {
        assert(s + vals =~= s);
    } else {
        lemma_push_all_appends(s.push(vals.first()), vals.drop_first());
        assert(s.push(vals.first()) + vals.drop_first() =~= s + vals);
    }
}

/// Law: a list built by pushing N values onto an empty list has length
/// N, so by `is_empty`'s contract it is empty exactly when N is 0.
pub proof fn lemma_push_all_length<T>(vals: Seq<T>)
    ensures
        push_all(Seq::empty(), vals).len() == vals.len(),
{
    lemma_push_all_appends(Seq::empty(), vals);
}

/// The values that repeated calls of `pop` return, first call first,
/// when a list holding `s` is drained to empty: each call yields the
/// tail value and leaves the rest, as `pop`'s contract states.
pub open spec fn pop_drain<T>(s: Seq<T>) -> Seq<T>
    decreases s.len(),
{
    if s.len() == 0 {
        Seq::empty()
    } else {
        seq![s.last()] + pop_drain(s.drop_last())
    }
}

/// Law: draining a list through `pop` returns the values in reverse of
/// head-to-tail order.
pub proof fn lemma_pop_drain_reverses<T>(s: Seq<T>)
    ensures
        pop_drain(s) == s.reverse(),
    decreases s.len(),
{
    if s.len() == 0 {
        assert(pop_drain(s) =~= s.reverse());
    } else {
        lemma_pop_drain_reverses(s.drop_last());
        assert(pop_drain(s) =~= s.reverse());
    }
}

/// The values that repeated calls of `shift` return, first call first,
/// when a list holding `s` is drained to empty: each call yields the
/// head value and leaves the rest, as `shift`'s contract states.
pub open spec fn shift_drain<T>(s: Seq<T>) -> Seq<T>
    decreases s.len(),
{
    if s.len() == 0 {
        Seq::empty()
    } else {
        seq![s.first()] + shift_drain(s.drop_first())
    }
}

/// Law: draining a list through `shift` returns the values in
/// head-to-tail order, unchanged.
pub proof fn lemma_shift_drain_keeps_order<T>(s: Seq<T>)
    ensures
        shift_drain(s) == s,
    decreases s.len(),
{
    if s.len() == 0 {
        assert(shift_drain(s) =~= s);
    } else {
        lemma_shift_drain_keeps_order(s.drop_first());
        assert(shift_drain(s) =~= s);
    }
}

/// Law: pushing N values onto an empty list and then popping N times
/// returns the values in reverse insertion order; `pop_drain` consumes
/// the whole list, so the length is 0 afterwards and, by `pop`'s
/// contract, every later `pop` returns `None`.
pub proof fn lemma_push_then_pop_reverses<T>(vals: Seq<T>)
    ensures
        pop_drain(push_all(Seq::empty(), vals)) == vals.reverse(),
{
    lemma_push_all_appends(Seq::empty(), vals);
    assert(Seq::empty() + vals =~= vals);
    lemma_pop_drain_reverses(vals);
}

/// Law (round trip): pushing N values onto an empty list and then
/// shifting N times returns exactly the pushed values, in insertion
/// order.
pub proof fn lemma_push_then_shift_round_trip<T>(vals: Seq<T>)
    ensures
        shift_drain(push_all(Seq::empty(), vals)) == vals,
{
    lemma_push_all_appends(Seq::empty(), vals);
    assert(Seq::empty() + vals =~= vals);
    lemma_shift_drain_keeps_order(vals);
}

/// Law (structural invariant): in any well-formed list the chain's slot
/// indices are pairwise distinct; starting at `head` and following
/// `next` visits exactly `len` nodes and ends at `tail`, and starting
/// at `tail` and following `prev` visits the same nodes in reverse and
/// ends at `head`. Distinctness rules out a cycle in either direction.
/// Every constructor and mutator of [`DLL`] establishes or preserves
/// `well_formed`, so this holds after any interleaving of them.
pub proof fn lemma_structural_invariant<T>(l: &DLL<T>)
    requires
        l.well_formed(),
    ensures
        ({
            let ord = l.chain();
            let n = ord.len() as int;
            &&& n == l@.len()
            &&& forall|k: int| 0 <= k < n ==> (#[trigger] ord[k]) < l.arena_len()
            &&& forall|k1: int, k2: int| 0 <= k1 < k2 < n ==> ord[k1] != ord[k2]
            &&& l.head_index() == (if n == 0 {
                None::<usize>
            } else {
                Some(ord[0])
            })
            &&& l.tail_index() == (if n == 0 {
                None::<usize>
            } else {
                Some(ord[n - 1])
            })
            &&& forall|k: int| #![trigger ord[k]] 0 <= k < n ==> l.next_of(ord[k] as int) == (if k
                == n - 1 {
                None::<usize>
            } else {
                Some(ord[k + 1])
            })
            &&& forall|k: int| #![trigger ord[k]] 0 <= k < n ==> l.prev_of(ord[k] as int) == (if k
                == 0 {
                None::<usize>
            } else {
                Some(ord[k - 1])
            })
        }),
{
}

} // verus!
