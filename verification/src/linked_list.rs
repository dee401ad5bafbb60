//! The doubly linked list core: `head`/`tail` handles and per-node
//! `next`/`prev` handles maintained over a generational [`Arena`].
//!
//! The ghost `order` sequence records the handles from head to tail; the
//! invariant [`LinkedList::wf`] ties every node's links, the arena contents,
//! and the `head`/`tail` fields to that sequence, and every operation is
//! verified to preserve it.

use crate::arena::Arena;
use crate::arena::LinkedListIndex;
use crate::arena::SecondaryMap;
use crate::arena::SparseSecondaryMap;
use vstd::prelude::*;

verus! {

/// A node of the list: its own handle, the stored value, and the handles of
/// its neighbours.
#[derive(Debug)]
pub struct LinkedListItem<T> {
    /// The handle of this node.
    pub index: LinkedListIndex,
    /// The value stored in this node.
    pub value: T,
    /// The handle of the next node, if any.
    pub next_index: Option<LinkedListIndex>,
    /// The handle of the previous node, if any.
    pub prev_index: Option<LinkedListIndex>,
}

/// A doubly linked list whose nodes live in a generational arena, so stale
/// handles are detected instead of resolving to reused storage.
pub struct LinkedList<T> {
    /// The handle of the first node, or `None` if the list is empty.
    pub head: Option<LinkedListIndex>,
    /// The handle of the last node, or `None` if the list is empty.
    pub tail: Option<LinkedListIndex>,
    /// The arena that owns the nodes.
    pub items: Arena<LinkedListItem<T>>,
    /// The handles of the nodes in head-to-tail order (ghost bookkeeping).
    pub order: Ghost<Seq<LinkedListIndex>>,
}

/// The subsequence of `s` selected by the boolean mask `keep` (element `i`
/// stays exactly when `keep[i]` is true).
pub open spec fn mask_select<A>(s: Seq<A>, keep: Seq<bool>) -> Seq<A>
    recommends
        keep.len() == s.len(),
    decreases s.len(),
{
    if s.len() == 0 {
        Seq::empty()
    } else if keep.len() == s.len() && keep.last() {
        mask_select(s.drop_last(), keep.drop_last()).push(s.last())
    } else {
        mask_select(s.drop_last(), keep.drop_last())
    }
}

/// Extending a mask selection by one element appends that element exactly
/// when its mask bit is set.
pub proof fn lemma_mask_select_push<A>(s: Seq<A>, keep: Seq<bool>, a: A, b: bool)
    requires
        keep.len() == s.len(),
    ensures
        mask_select(s.push(a), keep.push(b)) == (if b {
            mask_select(s, keep).push(a)
        } else {
            mask_select(s, keep)
        }),
{
    assert(s.push(a).drop_last() =~= s);
    assert(keep.push(b).drop_last() =~= keep);
}

impl<T> LinkedList<T> {
    /// The handles of the nodes, in head-to-tail order.
    pub closed spec fn handles(&self) -> Seq<LinkedListIndex> {
        self.order@
    }

    /// The node stored under a live handle `h`.
    pub closed spec fn node(&self, h: LinkedListIndex) -> LinkedListItem<T> {
        self.items@[h]
    }

    /// Whether `h` currently names a node of this list.
    pub open spec fn live(&self, h: LinkedListIndex) -> bool {
        self.handles().contains(h)
    }

    /// The position of a live handle `h` in head-to-tail order.
    pub open spec fn pos(&self, h: LinkedListIndex) -> int {
        self.handles().index_of(h)
    }

    /// The handle following `h`, if any.
    pub open spec fn spec_next_of(&self, h: LinkedListIndex) -> Option<LinkedListIndex> {
        self.node(h).next_index
    }

    /// The handle preceding `h`, if any.
    pub open spec fn spec_prev_of(&self, h: LinkedListIndex) -> Option<LinkedListIndex> {
        self.node(h).prev_index
    }

    /// Every handle this list ever freed. Such a handle never resolves
    /// again.
    pub closed spec fn freed(&self) -> Set<LinkedListIndex> {
        self.items.retired()
    }

    /// The node at position `i` carries its own handle and links to the
    /// nodes at positions `i - 1` and `i + 1`.
    spec fn node_wf(&self, i: int) -> bool {
        let h = self.order@[i];
        &&& self.items@.dom().contains(h)
        &&& self.items@[h].index == h
        &&& self.items@[h].next_index == (if i + 1 < self.order@.len() {
            Some(self.order@[i + 1])
        } else {
            None::<LinkedListIndex>
        })
        &&& self.items@[h].prev_index == (if i > 0 {
            Some(self.order@[i - 1])
        } else {
            None::<LinkedListIndex>
        })
    }

    /// List invariant: the arena holds exactly the handles of the ghost
    /// order sequence, each node's links follow that sequence, no handle
    /// appears twice, and `head`/`tail` name its endpoints.
    pub closed spec fn wf(&self) -> bool {
        &&& self.items.wf()
        &&& forall|i: int| 0 <= i < self.order@.len() ==> #[trigger] self.node_wf(i)
        &&& forall|i: int, j: int|
            0 <= i < j < self.order@.len() ==> self.order@[i] != self.order@[j]
        &&& forall|h: LinkedListIndex|
            #[trigger] self.items@.dom().contains(h) ==> self.order@.contains(h)
        &&& self.head == (if self.order@.len() == 0 {
            None::<LinkedListIndex>
        } else {
            Some(self.order@[0])
        })
        &&& self.tail == (if self.order@.len() == 0 {
            None::<LinkedListIndex>
        } else {
            Some(self.order@[self.order@.len() - 1])
        })
        &&& self.items.spec_len() == self.order@.len()
    }

    /// Create a new empty list.
    pub fn new() -> (l: Self)
        ensures
            l.wf(),
            l@ == Seq::<T>::empty(),
            l.handles() == Seq::<LinkedListIndex>::empty(),
            l.freed() == Set::<LinkedListIndex>::empty(),
            l.head is None,
            l.tail is None,
    {
        let l = LinkedList {
            head: None,
            tail: None,
            items: Arena::new(),
            order: Ghost(Seq::empty()),
        };
        proof {
            assert(l@ =~= Seq::<T>::empty());
        }
        l
    }

    /// Convenience method to return an empty [`SecondaryMap`] for
    /// associating values of type `V` with this list's handles.
    pub fn new_data<V>(&self) -> (m: SecondaryMap<V>)
        ensures
            m@ == Map::<LinkedListIndex, V>::empty(),
    {
        SecondaryMap::new()
    }

    /// Convenience method to return an empty [`SparseSecondaryMap`] for
    /// associating values of type `V` with this list's handles when only a
    /// few of them carry data.
    pub fn new_data_sparse<V>(&self) -> (m: SparseSecondaryMap<V>)
        ensures
            m@ == Map::<LinkedListIndex, V>::empty(),
    {
        SparseSecondaryMap::new()
    }

    /// Get the number of items in the list.
    pub fn len(&self) -> (r: usize)
        requires
            self.wf(),
        ensures
            r == self@.len(),
    {
        self.items.len()
    }

    /// Add an item to the back of the list and return its handle, which is
    /// distinct from every live handle and every handle ever freed.
    pub fn push_back(&mut self, value: T) -> (r: LinkedListIndex)
        requires
            old(self).wf(),
            old(self)@.len() < usize::MAX,
        ensures
            final(self).wf(),
            final(self)@ == old(self)@.push(value),
            final(self).handles() == old(self).handles().push(r),
            !old(self).live(r),
            !old(self).freed().contains(r),
            final(self).freed() == old(self).freed(),
            final(self).tail == Some(r),
            final(self).head == (if old(self)@.len() == 0 {
                Some(r)
            } else {
                old(self).head
            }),
    {
        let index = self.items.next_handle();
        let item = LinkedListItem { index, value, next_index: None, prev_index: self.tail };
        let r = self.items.insert(item);
        proof {
            if old(self).order@.contains(r) {
                let i = choose|i: int|
                    0 <= i < old(self).order@.len() && old(self).order@[i] == r;
                assert(old(self).node_wf(i));
            }
        }
        match self.tail {
            Some(t) => {
                proof {
                    assert(old(self).node_wf(old(self).order@.len() - 1));
                }
                match self.items.get_mut(t) {
                    Some(it) => {
                        it.next_index = Some(r);
                    },
                    None => {
                        proof {
                            assert(false);
                        }
                    },
                }
            },
            None => {
                self.head = Some(r);
            },
        }
        self.tail = Some(r);
        proof {
            self.order@ = self.order@.push(r);
            let n = old(self).order@.len();
            assert forall|i: int| 0 <= i < self.order@.len() implies #[trigger] self.node_wf(
                i,
            ) by {
                if i < n {
                    assert(old(self).node_wf(i));
                }
            }
            assert forall|h: LinkedListIndex| #[trigger] self.items@.dom().contains(h)
                implies self.order@.contains(h) by {
                if h == r {
                    assert(self.order@[n as int] == r);
                } else {
                    let i = choose|i: int|
                        0 <= i < old(self).order@.len() && old(self).order@[i] == h;
                    assert(self.order@[i] == h);
                }
            }
            assert(self@ =~= old(self)@.push(value));
        }
        r
    }

    /// Remove the last item in the list and return it (if it exists).
    pub fn pop_back(&mut self) -> (r: Option<T>)
        requires
            old(self).wf(),
        ensures
            final(self).wf(),
            match r {
                Some(v) => old(self)@.len() > 0 && v == old(self)@.last() && final(self)@
                    == old(self)@.drop_last() && final(self).handles()
                    == old(self).handles().drop_last() && final(self).freed()
                    == old(self).freed().insert(old(self).handles().last()),
                None => old(self)@.len() == 0 && *final(self) == *old(self),
            },
    {
        let t = match self.tail {
            None => {
                return None;
            },
            Some(t) => t,
        };
        let n: Ghost<int> = Ghost(self.order@.len() - 1);
        proof {
            assert(self.node_wf(n@));
        }
        let item = match self.items.remove(t) {
            Some(item) => item,
            None => {
                proof {
                    assert(false);
                }
                return None;
            },
        };
        self.tail = item.prev_index;
        match item.prev_index {
            Some(p) => {
                proof {
                    assert(old(self).node_wf(n@ - 1));
                }
                match self.items.get_mut(p) {
                    Some(pi) => {
                        pi.next_index = None;
                    },
                    None => {
                        proof {
                            assert(false);
                        }
                    },
                }
            },
            None => {
                self.head = None;
            },
        }
        proof {
            self.order@ = self.order@.drop_last();
            assert forall|i: int| 0 <= i < self.order@.len() implies #[trigger] self.node_wf(
                i,
            ) by {
                assert(old(self).node_wf(i));
            }
            assert forall|h: LinkedListIndex| #[trigger] self.items@.dom().contains(h)
                implies self.order@.contains(h) by {
                let i = choose|i: int|
                    0 <= i < old(self).order@.len() && old(self).order@[i] == h;
                assert(self.order@[i] == h);
            }
            assert(self@ =~= old(self)@.drop_last());
        }
        Some(item.value)
    }
    /// Push an item to the front of the list and return its handle, which is
    /// distinct from every live handle and every handle ever freed.
    pub fn push_front(&mut self, value: T) -> (r: LinkedListIndex)
        requires
            old(self).wf(),
            old(self)@.len() < usize::MAX,
        ensures
            final(self).wf(),
            final(self)@ == seq![value] + old(self)@,
            final(self).handles() == seq![r] + old(self).handles(),
            !old(self).live(r),
            !old(self).freed().contains(r),
            final(self).freed() == old(self).freed(),
            final(self).head == Some(r),
            final(self).tail == (if old(self)@.len() == 0 {
                Some(r)
            } else {
                old(self).tail
            }),
    {
        let index = self.items.next_handle();
        let item = LinkedListItem { index, value, next_index: self.head, prev_index: None };
        let r = self.items.insert(item);
        proof {
            if old(self).order@.contains(r) {
                let i = choose|i: int|
                    0 <= i < old(self).order@.len() && old(self).order@[i] == r;
                assert(old(self).node_wf(i));
            }
        }
        match self.head {
            Some(h) => {
                proof {
                    assert(old(self).node_wf(0));
                }
                match self.items.get_mut(h) {
                    Some(it) => {
                        it.prev_index = Some(r);
                    },
                    None => {
                        proof {
                            assert(false);
                        }
                    },
                }
            },
            None => {
                self.tail = Some(r);
            },
        }
        self.head = Some(r);
        proof {
            self.order@ = seq![r] + self.order@;
            let n = old(self).order@.len();
            assert forall|i: int| 0 <= i < self.order@.len() implies #[trigger] self.node_wf(
                i,
            ) by {
                if i >= 1 {
                    assert(old(self).node_wf(i - 1));
                    assert(self.order@[i] == old(self).order@[i - 1]);
                }
            }
            assert forall|h: LinkedListIndex| #[trigger] self.items@.dom().contains(h)
                implies self.order@.contains(h) by {
                if h == r {
                    assert(self.order@[0] == r);
                } else {
                    let i = choose|i: int|
                        0 <= i < old(self).order@.len() && old(self).order@[i] == h;
                    assert(self.order@[i + 1] == h);
                }
            }
            assert(self@ =~= seq![value] + old(self)@);
        }
        r
    }

    /// Remove the first item in the list and return it (if it exists).
    pub fn pop_front(&mut self) -> (r: Option<T>)
        requires
            old(self).wf(),
        ensures
            final(self).wf(),
            match r {
                Some(v) => old(self)@.len() > 0 && v == old(self)@[0] && final(self)@
                    == old(self)@.subrange(1, old(self)@.len() as int) && final(self).handles()
                    == old(self).handles().subrange(1, old(self).handles().len() as int)
                    && final(self).freed() == old(self).freed().insert(old(self).handles()[0]),
                None => old(self)@.len() == 0 && *final(self) == *old(self),
            },
    {
        let h = match self.head {
            None => {
                return None;
            },
            Some(h) => h,
        };
        proof {
            assert(self.node_wf(0));
        }
        let item = match self.items.remove(h) {
            Some(item) => item,
            None => {
                proof {
                    assert(false);
                }
                return None;
            },
        };
        self.head = item.next_index;
        match item.next_index {
            Some(nx) => {
                proof {
                    assert(old(self).node_wf(1));
                }
                match self.items.get_mut(nx) {
                    Some(ni) => {
                        ni.prev_index = None;
                    },
                    None => {
                        proof {
                            assert(false);
                        }
                    },
                }
            },
            None => {
                self.tail = None;
            },
        }
        proof {
            self.order@ = self.order@.subrange(1, self.order@.len() as int);
            assert forall|i: int| 0 <= i < self.order@.len() implies #[trigger] self.node_wf(
                i,
            ) by {
                assert(old(self).node_wf(i + 1));
                assert(self.order@[i] == old(self).order@[i + 1]);
            }
            assert forall|h2: LinkedListIndex| #[trigger] self.items@.dom().contains(h2)
                implies self.order@.contains(h2) by {
                let i = choose|i: int|
                    0 <= i < old(self).order@.len() && old(self).order@[i] == h2;
                assert(self.order@[i - 1] == h2);
            }
            assert(self@ =~= old(self)@.subrange(1, old(self)@.len() as int));
        }
        Some(item.value)
    }

    /// Get an item in the list, or `None` if the handle is stale.
    pub fn get(&self, index: LinkedListIndex) -> (r: Option<&LinkedListItem<T>>)
        requires
            self.wf(),
        ensures
            match r {
                Some(item) => self.live(index) && *item == self.node(index),
                None => !self.live(index),
            },
    {
        proof {
            self.lemma_live_iff_stored(index);
        }
        self.items.get(index)
    }

    /// Checks if the list contains the given handle.
    pub fn contains_key(&self, index: LinkedListIndex) -> (r: bool)
        requires
            self.wf(),
        ensures
            r == self.live(index),
    {
        proof {
            self.lemma_live_iff_stored(index);
        }
        self.items.contains(index)
    }

    /// Get the first item in the list. Can be `None` if the list is empty.
    pub fn head(&self) -> (r: Option<&LinkedListItem<T>>)
        requires
            self.wf(),
        ensures
            match r {
                Some(item) => self@.len() > 0 && *item == self.node(self.handles()[0]),
                None => self@.len() == 0,
            },
    {
        match self.head {
            Some(h) => {
                proof {
                    self.lemma_handle_at(0);
                }
                self.get(h)
            },
            None => None,
        }
    }

    /// Get the last item in the list. Can be `None` if the list is empty.
    pub fn tail(&self) -> (r: Option<&LinkedListItem<T>>)
        requires
            self.wf(),
        ensures
            match r {
                Some(item) => self@.len() > 0 && *item == self.node(
                    self.handles().last(),
                ),
                None => self@.len() == 0,
            },
    {
        match self.tail {
            Some(t) => {
                proof {
                    self.lemma_handle_at(self.handles().len() - 1);
                }
                self.get(t)
            },
            None => None,
        }
    }

    /// Get the item after the item with the given handle, if it exists.
    pub fn next_of(&self, index: LinkedListIndex) -> (r: Option<&LinkedListItem<T>>)
        requires
            self.wf(),
        ensures
            match r {
                Some(item) => self.live(index) && self.spec_next_of(index) is Some && *item
                    == self.node(self.spec_next_of(index)->0),
                None => !self.live(index) || self.spec_next_of(index) is None,
            },
    {
        match self.get(index) {
            None => None,
            Some(item) => match item.next_index {
                None => None,
                Some(nx) => {
                    proof {
                        self.lemma_live_node(index);
                    }
                    self.get(nx)
                },
            },
        }
    }

    /// Get the item before the item with the given handle, if it exists.
    pub fn prev_of(&self, index: LinkedListIndex) -> (r: Option<&LinkedListItem<T>>)
        requires
            self.wf(),
        ensures
            match r {
                Some(item) => self.live(index) && self.spec_prev_of(index) is Some && *item
                    == self.node(self.spec_prev_of(index)->0),
                None => !self.live(index) || self.spec_prev_of(index) is None,
            },
    {
        match self.get(index) {
            None => None,
            Some(item) => match item.prev_index {
                None => None,
                Some(pv) => {
                    proof {
                        self.lemma_live_node(index);
                    }
                    self.get(pv)
                },
            },
        }
    }

    /// Returns the handle following the item with the given handle, or
    /// `None` if the handle is stale or names the tail.
    pub fn cursor_next(&self, item: LinkedListIndex) -> (r: Option<LinkedListIndex>)
        requires
            self.wf(),
        ensures
            r == (if self.live(item) {
                self.spec_next_of(item)
            } else {
                None::<LinkedListIndex>
            }),
            r is Some ==> self.live(r->0) && self.pos(r->0) == self.pos(item) + 1,
    {
        proof {
            if self.live(item) {
                self.lemma_live_node(item);
            }
        }
        match self.get(item) {
            None => None,
            Some(it) => it.next_index,
        }
    }

    /// Returns the handle preceding the item with the given handle, or
    /// `None` if the handle is stale or names the head.
    pub fn cursor_prev(&self, item: LinkedListIndex) -> (r: Option<LinkedListIndex>)
        requires
            self.wf(),
        ensures
            r == (if self.live(item) {
                self.spec_prev_of(item)
            } else {
                None::<LinkedListIndex>
            }),
            r is Some ==> self.live(r->0) && self.pos(r->0) == self.pos(item) - 1,
    {
        proof {
            if self.live(item) {
                self.lemma_live_node(item);
            }
        }
        match self.get(item) {
            None => None,
            Some(it) => it.prev_index,
        }
    }

    /// Remove an item from the list, returning its node if the handle was
    /// still live, or `None` if it was stale (already removed, here or
    /// anywhere else). Only the first removal through a handle succeeds.
    pub fn remove(&mut self, index: LinkedListIndex) -> (r: Option<LinkedListItem<T>>)
        requires
            old(self).wf(),
        ensures
            final(self).wf(),
            match r {
                Some(item) => old(self).live(index) && item == old(self).node(index)
                    && final(self)@ == old(self)@.remove(old(self).pos(index))
                    && final(self).handles() == old(self).handles().remove(
                    old(self).pos(index),
                ) && final(self).freed() == old(self).freed().insert(index)
                    && !final(self).live(index),
                None => !old(self).live(index) && *final(self) == *old(self),
            },
    {
        proof {
            self.lemma_live_iff_stored(index);
            if self.live(index) {
                self.lemma_live_node(index);
            }
        }
        let item = match self.items.remove(index) {
            None => {
                return None;
            },
            Some(item) => item,
        };
        let ghost p = old(self).pos(index);
        match item.prev_index {
            Some(pv) => {
                proof {
                    assert(old(self).node_wf(p - 1));
                }
                match self.items.get_mut(pv) {
                    Some(pi) => {
                        pi.next_index = item.next_index;
                    },
                    None => {
                        proof {
                            assert(false);
                        }
                    },
                }
            },
            None => {
                self.head = item.next_index;
            },
        }
        match item.next_index {
            Some(nx) => {
                proof {
                    assert(old(self).node_wf(p + 1));
                }
                match self.items.get_mut(nx) {
                    Some(ni) => {
                        ni.prev_index = item.prev_index;
                    },
                    None => {
                        proof {
                            assert(false);
                        }
                    },
                }
            },
            None => {
                self.tail = item.prev_index;
            },
        }
        proof {
            old(self).order@.remove_ensures(p);
            self.order@ = self.order@.remove(p);
            assert forall|i: int| 0 <= i < self.order@.len() implies #[trigger] self.node_wf(
                i,
            ) by {
                if i < p - 1 {
                    assert(old(self).node_wf(i));
                } else if i == p - 1 {
                    assert(old(self).node_wf(i));
                    if p + 1 < old(self).order@.len() {
                        assert(old(self).node_wf(p + 1));
                    }
                } else if i == p {
                    assert(old(self).node_wf(p + 1));
                    if p > 0 {
                        assert(old(self).node_wf(p - 1));
                    }
                } else {
                    assert(old(self).node_wf(i + 1));
                }
            }
            assert forall|h2: LinkedListIndex| #[trigger] self.items@.dom().contains(h2)
                implies self.order@.contains(h2) by {
                let i = choose|i: int|
                    0 <= i < old(self).order@.len() && old(self).order@[i] == h2;
                if i < p {
                    assert(self.order@[i] == h2);
                } else {
                    assert(self.order@[i - 1] == h2);
                }
            }
            if self.order@.contains(index) {
                let i = choose|i: int| 0 <= i < self.order@.len() && self.order@[i] == index;
                if i < p {
                    assert(old(self).order@[i] == index);
                } else {
                    assert(old(self).order@[i + 1] == index);
                }
            }
            assert(self@ =~= old(self)@.remove(p));
        }
        Some(item)
    }

    /// Insert an item after the given live handle and return the new item's
    /// handle. The anchor must be live: splicing after a stale handle is a
    /// caller error, not an absence case.
    pub fn insert_after(&mut self, index: LinkedListIndex, value: T) -> (r: LinkedListIndex)
        requires
            old(self).wf(),
            old(self).live(index),
            old(self)@.len() < usize::MAX,
        ensures
            final(self).wf(),
            final(self)@ == old(self)@.insert(old(self).pos(index) + 1, value),
            final(self).handles() == old(self).handles().insert(old(self).pos(index) + 1, r),
            !old(self).live(r),
            !old(self).freed().contains(r),
            final(self).freed() == old(self).freed(),
    {
        proof {
            self.lemma_live_node(index);
            self.lemma_live_iff_stored(index);
        }
        let ghost p = old(self).pos(index);
        let next_index = match self.items.get(index) {
            Some(it) => it.next_index,
            None => {
                proof {
                    assert(false);
                }
                None
            },
        };
        let handle = self.items.next_handle();
        let r = self.items.insert(
            LinkedListItem { index: handle, value, next_index, prev_index: Some(index) },
        );
        proof {
            if old(self).order@.contains(r) {
                let i = choose|i: int|
                    0 <= i < old(self).order@.len() && old(self).order@[i] == r;
                assert(old(self).node_wf(i));
            }
        }
        match next_index {
            Some(nx) => {
                proof {
                    assert(old(self).node_wf(p + 1));
                }
                match self.items.get_mut(nx) {
                    Some(ni) => {
                        ni.prev_index = Some(r);
                    },
                    None => {
                        proof {
                            assert(false);
                        }
                    },
                }
            },
            None => {
                self.tail = Some(r);
            },
        }
        match self.items.get_mut(index) {
            Some(it) => {
                it.next_index = Some(r);
            },
            None => {
                proof {
                    assert(false);
                }
            },
        }
        proof {
            old(self).order@.insert_ensures(p + 1, r);
            self.order@ = self.order@.insert(p + 1, r);
            assert forall|i: int| 0 <= i < self.order@.len() implies #[trigger] self.node_wf(
                i,
            ) by {
                if i < p {
                    assert(old(self).node_wf(i));
                } else if i == p {
                    assert(old(self).node_wf(i));
                } else if i == p + 1 {
                    assert(self.order@[i] == r);
                } else {
                    assert(old(self).node_wf(i - 1));
                }
            }
            assert forall|h2: LinkedListIndex| #[trigger] self.items@.dom().contains(h2)
                implies self.order@.contains(h2) by {
                if h2 == r {
                    assert(self.order@[p + 1] == r);
                } else {
                    let i = choose|i: int|
                        0 <= i < old(self).order@.len() && old(self).order@[i] == h2;
                    if i <= p {
                        assert(self.order@[i] == h2);
                    } else {
                        assert(self.order@[i + 1] == h2);
                    }
                }
            }
            assert(self@ =~= old(self)@.insert(p + 1, value));
        }
        r
    }

    /// Insert an item before the given live handle and return the new
    /// item's handle. The anchor must be live: splicing before a stale
    /// handle is a caller error, not an absence case.
    pub fn insert_before(&mut self, index: LinkedListIndex, value: T) -> (r: LinkedListIndex)
        requires
            old(self).wf(),
            old(self).live(index),
            old(self)@.len() < usize::MAX,
        ensures
            final(self).wf(),
            final(self)@ == old(self)@.insert(old(self).pos(index), value),
            final(self).handles() == old(self).handles().insert(old(self).pos(index), r),
            !old(self).live(r),
            !old(self).freed().contains(r),
            final(self).freed() == old(self).freed(),
    {
        proof {
            self.lemma_live_node(index);
            self.lemma_live_iff_stored(index);
        }
        let ghost p = old(self).pos(index);
        let prev_index = match self.items.get(index) {
            Some(it) => it.prev_index,
            None => {
                proof {
                    assert(false);
                }
                None
            },
        };
        let handle = self.items.next_handle();
        let r = self.items.insert(
            LinkedListItem { index: handle, value, next_index: Some(index), prev_index },
        );
        proof {
            if old(self).order@.contains(r) {
                let i = choose|i: int|
                    0 <= i < old(self).order@.len() && old(self).order@[i] == r;
                assert(old(self).node_wf(i));
            }
        }
        match prev_index {
            Some(pv) => {
                proof {
                    assert(old(self).node_wf(p - 1));
                }
                match self.items.get_mut(pv) {
                    Some(pi) => {
                        pi.next_index = Some(r);
                    },
                    None => {
                        proof {
                            assert(false);
                        }
                    },
                }
            },
            None => {
                self.head = Some(r);
            },
        }
        match self.items.get_mut(index) {
            Some(it) => {
                it.prev_index = Some(r);
            },
            None => {
                proof {
                    assert(false);
                }
            },
        }
        proof {
            old(self).order@.insert_ensures(p, r);
            self.order@ = self.order@.insert(p, r);
            assert forall|i: int| 0 <= i < self.order@.len() implies #[trigger] self.node_wf(
                i,
            ) by {
                if i < p - 1 {
                    assert(old(self).node_wf(i));
                } else if i == p - 1 {
                    assert(old(self).node_wf(i));
                } else if i == p {
                    assert(self.order@[i] == r);
                } else if i == p + 1 {
                    assert(old(self).node_wf(i - 1));
                } else {
                    assert(old(self).node_wf(i - 1));
                }
            }
            assert forall|h2: LinkedListIndex| #[trigger] self.items@.dom().contains(h2)
                implies self.order@.contains(h2) by {
                if h2 == r {
                    assert(self.order@[p] == r);
                } else {
                    let i = choose|i: int|
                        0 <= i < old(self).order@.len() && old(self).order@[i] == h2;
                    if i < p {
                        assert(self.order@[i] == h2);
                    } else {
                        assert(self.order@[i + 1] == h2);
                    }
                }
            }
            assert(self@ =~= old(self)@.insert(p, value));
        }
        r
    }

    /// Returns the handle at position `n` (0-indexed) by walking from the
    /// head or the tail, whichever is closer, or `None` if `n` is out of
    /// range.
    pub fn nth(&self, n: usize) -> (r: Option<LinkedListIndex>)
        requires
            self.wf(),
        ensures
            r == (if n < self@.len() {
                Some(self.handles()[n as int])
            } else {
                None::<LinkedListIndex>
            }),
    {
        let len = self.len();
        if n >= len {
            return None;
        }
        if n < len / 2 {
            let mut cur = match self.head {
                Some(h) => h,
                None => {
                    proof {
                        assert(false);
                    }
                    return None;
                },
            };
            let mut i: usize = 0;
            while i < n
                invariant
                    self.wf(),
                    i <= n,
                    n < self@.len(),
                    cur == self.handles()[i as int],
                decreases n - i,
            {
                proof {
                    self.lemma_handle_at(i as int);
                }
                cur = match self.cursor_next(cur) {
                    Some(nx) => nx,
                    None => {
                        proof {
                            assert(false);
                        }
                        cur
                    },
                };
                i = i + 1;
            }
            Some(cur)
        } else {
            let mut cur = match self.tail {
                Some(t) => t,
                None => {
                    proof {
                        assert(false);
                    }
                    return None;
                },
            };
            let mut i: usize = len - 1;
            while i > n
                invariant
                    self.wf(),
                    n <= i < self@.len(),
                    self@.len() == len,
                    cur == self.handles()[i as int],
                decreases i,
            {
                proof {
                    self.lemma_handle_at(i as int);
                }
                cur = match self.cursor_prev(cur) {
                    Some(pv) => pv,
                    None => {
                        proof {
                            assert(false);
                        }
                        cur
                    },
                };
                i = i - 1;
            }
            Some(cur)
        }
    }

    /// Push many items to the back of the list, in order. Returns the
    /// handles of the new items, in insertion order.
    pub fn extend(&mut self, values: Vec<T>) -> (r: Vec<LinkedListIndex>)
        requires
            old(self).wf(),
            old(self)@.len() + values@.len() <= usize::MAX,
        ensures
            final(self).wf(),
            final(self)@ == old(self)@ + values@,
            final(self).handles() == old(self).handles() + r@,
            r@.len() == values@.len(),
            final(self).freed() == old(self).freed(),
            forall|k: int|
                0 <= k < r@.len() ==> !old(self).live(#[trigger] r@[k]) && !old(
                    self,
                ).freed().contains(r@[k]),
    {
        let ghost vals = values@;
        let mut values = values;
        let mut r: Vec<LinkedListIndex> = Vec::new();
        while values.len() > 0
            invariant
                self.wf(),
                r@.len() + values@.len() == vals.len(),
                values@ == vals.subrange(r@.len() as int, vals.len() as int),
                self@ == old(self)@ + vals.subrange(0, r@.len() as int),
                self.handles() == old(self).handles() + r@,
                self.freed() == old(self).freed(),
                old(self)@.len() + vals.len() <= usize::MAX,
                forall|k: int|
                    0 <= k < r@.len() ==> !old(self).live(#[trigger] r@[k]) && !old(
                        self,
                    ).freed().contains(r@[k]),
            decreases values@.len(),
        {
            let v = values.remove(0);
            proof {
                assert(v == vals[r@.len() as int]);
            }
            let h = self.push_back(v);
            proof {
                if old(self).handles().contains(h) {
                    let i = choose|i: int|
                        0 <= i < old(self).handles().len() && old(self).handles()[i] == h;
                    assert((old(self).handles() + r@)[i] == h);
                }
            }
            r.push(h);
            proof {
                assert(self@ =~= old(self)@ + vals.subrange(0, r@.len() as int));
                assert(values@ =~= vals.subrange(r@.len() as int, vals.len() as int));
            }
        }
        proof {
            assert(vals.subrange(0, vals.len() as int) =~= vals);
        }
        r
    }

    /// Push many items to the front of the list; each lands before the
    /// previous one, so the block ends up reversed at the front. Returns
    /// the handles of the new items, in insertion order.
    pub fn extend_front(&mut self, values: Vec<T>) -> (r: Vec<LinkedListIndex>)
        requires
            old(self).wf(),
            old(self)@.len() + values@.len() <= usize::MAX,
        ensures
            final(self).wf(),
            final(self)@ == values@.reverse() + old(self)@,
            final(self).handles() == r@.reverse() + old(self).handles(),
            r@.len() == values@.len(),
            final(self).freed() == old(self).freed(),
            forall|k: int|
                0 <= k < r@.len() ==> !old(self).live(#[trigger] r@[k]) && !old(
                    self,
                ).freed().contains(r@[k]),
    {
        let ghost vals = values@;
        let mut values = values;
        let mut r: Vec<LinkedListIndex> = Vec::new();
        while values.len() > 0
            invariant
                self.wf(),
                r@.len() + values@.len() == vals.len(),
                values@ == vals.subrange(r@.len() as int, vals.len() as int),
                self@ == vals.subrange(0, r@.len() as int).reverse() + old(self)@,
                self.handles() == r@.reverse() + old(self).handles(),
                self.freed() == old(self).freed(),
                old(self)@.len() + vals.len() <= usize::MAX,
                forall|k: int|
                    0 <= k < r@.len() ==> !old(self).live(#[trigger] r@[k]) && !old(
                        self,
                    ).freed().contains(r@[k]),
            decreases values@.len(),
        {
            let v = values.remove(0);
            proof {
                assert(v == vals[r@.len() as int]);
            }
            let h = self.push_front(v);
            proof {
                if old(self).handles().contains(h) {
                    let i = choose|i: int|
                        0 <= i < old(self).handles().len() && old(self).handles()[i] == h;
                    assert((r@.reverse() + old(self).handles())[r@.len() + i] == h);
                }
                if r@.contains(h) {
                    let i = choose|i: int| 0 <= i < r@.len() && r@[i] == h;
                    assert((r@.reverse() + old(self).handles())[r@.len() - 1 - i] == h);
                }
            }
            r.push(h);
            proof {
                assert(self@ =~= vals.subrange(0, r@.len() as int).reverse() + old(self)@);
                assert(values@ =~= vals.subrange(r@.len() as int, vals.len() as int));
                assert(self.handles() =~= r@.reverse() + old(self).handles());
            }
        }
        proof {
            assert(vals.subrange(0, vals.len() as int) =~= vals);
        }
        r
    }

    /// Splits the list into two at the given handle. Returns a new list
    /// containing the node named by the handle and everything after it, in
    /// their original relative order; the original list keeps only the
    /// nodes strictly before it. Every moved node gets a fresh handle, and
    /// the old handles into the moved tail segment are permanently freed.
    /// A stale handle moves nothing and returns an empty list.
    pub fn split_off(&mut self, index: LinkedListIndex) -> (other: Self)
        requires
            old(self).wf(),
        ensures
            final(self).wf(),
            other.wf(),
            other.freed() == Set::<LinkedListIndex>::empty(),
            old(self).live(index) ==> final(self)@ == old(self)@.subrange(
                0,
                old(self).pos(index),
            ) && final(self).handles() == old(self).handles().subrange(
                0,
                old(self).pos(index),
            ) && other@ == old(self)@.subrange(old(self).pos(index), old(self)@.len() as int),
            old(self).live(index) ==> forall|i: int|
                old(self).pos(index) <= i < old(self).handles().len()
                    ==> final(self).freed().contains(#[trigger] old(self).handles()[i]),
            old(self).freed().subset_of(final(self).freed()),
            !old(self).live(index) ==> *final(self) == *old(self) && other@ == Seq::<T>::empty(),
    {
        let mut other = Self::new();
        proof {
            self.lemma_len_bound();
            if self.live(index) {
                self.lemma_live_node(index);
            }
        }
        let ghost p = old(self).pos(index);
        let ghost n = old(self)@.len() as int;
        let first = match self.remove(index) {
            None => {
                return other;
            },
            Some(f) => f,
        };
        other.push_back(first.value);
        let ghost k = 1int;
        let mut cur = first.next_index;
        proof {
            assert(self.handles() =~= old(self).handles().subrange(0, p) + old(
                self,
            ).handles().subrange(p + k, n));
            assert(self@ =~= old(self)@.subrange(0, p) + old(self)@.subrange(p + k, n));
            assert(other@ =~= old(self)@.subrange(p, p + k));
        }
        while cur.is_some()
            invariant
                self.wf(),
                other.wf(),
                1 <= k,
                p + k <= n,
                n == old(self)@.len(),
                n <= usize::MAX,
                0 <= p,
                self@ == old(self)@.subrange(0, p) + old(self)@.subrange(p + k, n),
                self.handles() == old(self).handles().subrange(0, p) + old(
                    self,
                ).handles().subrange(p + k, n),
                other@ == old(self)@.subrange(p, p + k),
                other@.len() == k,
                other.freed() == Set::<LinkedListIndex>::empty(),
                old(self).freed().subset_of(self.freed()),
                forall|i: int|
                    p <= i < p + k ==> self.freed().contains(#[trigger] old(self).handles()[i]),
                cur == (if p + k < n {
                    Some(old(self).handles()[p + k])
                } else {
                    None::<LinkedListIndex>
                }),
            decreases n - p - k,
        {
            let h = match cur {
                Some(h) => h,
                None => {
                    proof {
                        assert(false);
                    }
                    index
                },
            };
            proof {
                assert(self.handles()[p] == h);
                assert(self.handles().contains(h));
                assert forall|j: int| 0 <= j < self.handles().len() && self.handles()[j] == h
                    implies j == p by {
                    if j != p {
                        assert(self.handles()[j] != self.handles()[p]);
                    }
                }
                assert(self.pos(h) == p);
                self.lemma_live_node(h);
            }
            match self.remove(h) {
                Some(item) => {
                    other.push_back(item.value);
                    proof {
                        k = k + 1;
                        assert(self.handles() =~= old(self).handles().subrange(0, p) + old(
                            self,
                        ).handles().subrange(p + k, n));
                        assert(self@ =~= old(self)@.subrange(0, p) + old(self)@.subrange(
                            p + k,
                            n,
                        ));
                        assert(other@ =~= old(self)@.subrange(p, p + k));
                    }
                    cur = item.next_index;
                },
                None => {
                    proof {
                        assert(false);
                    }
                    cur = None;
                },
            }
        }
        proof {
            assert(final(self)@ =~= old(self)@.subrange(0, p));
            assert(final(self).handles() =~= old(self).handles().subrange(0, p));
            assert(other@ =~= old(self)@.subrange(p, n));
        }
        other
    }

    /// Returns the handles of the list from `start` onward (inclusive), in
    /// order, following `next` links until exhausted; empty if `start` is
    /// stale.
    pub fn cursor_iter_next(&self, start: LinkedListIndex) -> (r: Vec<LinkedListIndex>)
        requires
            self.wf(),
        ensures
            r@ == (if self.live(start) {
                self.handles().subrange(self.pos(start), self.handles().len() as int)
            } else {
                Seq::<LinkedListIndex>::empty()
            }),
    {
        let mut r: Vec<LinkedListIndex> = Vec::new();
        if !self.contains_key(start) {
            proof {
                assert(r@ =~= Seq::<LinkedListIndex>::empty());
            }
            return r;
        }
        proof {
            self.lemma_live_node(start);
            self.lemma_len_bound();
        }
        let ghost p = self.pos(start);
        let ghost n = self.handles().len() as int;
        let mut cur = Some(start);
        while cur.is_some()
            invariant
                self.wf(),
                0 <= p,
                p + r@.len() <= n,
                n == self.handles().len(),
                n <= usize::MAX,
                r@ == self.handles().subrange(p, p + r@.len()),
                cur == (if p + r@.len() < n {
                    Some(self.handles()[p + r@.len()])
                } else {
                    None::<LinkedListIndex>
                }),
            decreases n - p - r@.len(),
        {
            let h = match cur {
                Some(h) => h,
                None => {
                    proof {
                        assert(false);
                    }
                    start
                },
            };
            proof {
                self.lemma_handle_at(p + r@.len());
            }
            r.push(h);
            proof {
                assert(r@ =~= self.handles().subrange(p, p + r@.len()));
            }
            cur = self.cursor_next(h);
        }
        proof {
            assert(r@ =~= self.handles().subrange(p, n));
        }
        r
    }

    /// Returns the handles of the list from `start` backward (inclusive),
    /// following `prev` links until exhausted; empty if `start` is stale.
    pub fn cursor_iter_prev(&self, start: LinkedListIndex) -> (r: Vec<LinkedListIndex>)
        requires
            self.wf(),
        ensures
            r@ == (if self.live(start) {
                self.handles().subrange(0, self.pos(start) + 1).reverse()
            } else {
                Seq::<LinkedListIndex>::empty()
            }),
    {
        let mut r: Vec<LinkedListIndex> = Vec::new();
        if !self.contains_key(start) {
            proof {
                assert(r@ =~= Seq::<LinkedListIndex>::empty());
            }
            return r;
        }
        proof {
            self.lemma_live_node(start);
            self.lemma_len_bound();
        }
        let ghost p = self.pos(start);
        let mut cur = Some(start);
        while cur.is_some()
            invariant
                self.wf(),
                0 <= p < self.handles().len(),
                r@.len() <= p + 1,
                self.handles().len() <= usize::MAX,
                r@ == self.handles().subrange(p - r@.len() + 1, p + 1).reverse(),
                cur == (if r@.len() <= p {
                    Some(self.handles()[p - r@.len()])
                } else {
                    None::<LinkedListIndex>
                }),
            decreases p + 1 - r@.len(),
        {
            let h = match cur {
                Some(h) => h,
                None => {
                    proof {
                        assert(false);
                    }
                    start
                },
            };
            proof {
                self.lemma_handle_at(p - r@.len());
            }
            r.push(h);
            proof {
                assert(r@ =~= self.handles().subrange(p - r@.len() + 1, p + 1).reverse());
            }
            cur = self.cursor_prev(h);
        }
        proof {
            assert(r@ =~= self.handles().subrange(0, p + 1).reverse());
        }
        r
    }

    /// Borrow the items of the list from `start` onward (inclusive), in
    /// order; empty if `start` is stale.
    pub fn iter_next(&self, start: LinkedListIndex) -> (r: Vec<&LinkedListItem<T>>)
        requires
            self.wf(),
        ensures
            self.live(start) ==> r@.len() == self@.len() - self.pos(start) && forall|j: int|
                0 <= j < r@.len() ==> *(#[trigger] r@[j]) == self.node(
                    self.handles()[self.pos(start) + j],
                ) && r@[j].value == self@[self.pos(start) + j],
            !self.live(start) ==> r@.len() == 0,
    {
        let cursor = self.cursor_iter_next(start);
        let mut r: Vec<&LinkedListItem<T>> = Vec::new();
        let mut i: usize = 0;
        let ghost p = self.pos(start);
        while i < cursor.len()
            invariant
                self.wf(),
                i == r@.len(),
                i <= cursor@.len(),
                cursor@ == (if self.live(start) {
                    self.handles().subrange(p, self.handles().len() as int)
                } else {
                    Seq::<LinkedListIndex>::empty()
                }),
                self.live(start) ==> 0 <= p < self.handles().len(),
                forall|j: int|
                    0 <= j < r@.len() ==> *(#[trigger] r@[j]) == self.node(
                        self.handles()[p + j],
                    ) && r@[j].value == self@[p + j],
            decreases cursor@.len() - i,
        {
            proof {
                self.lemma_handle_at(p + i);
            }
            match self.get(cursor[i]) {
                Some(item) => {
                    r.push(item);
                },
                None => {
                    proof {
                        assert(false);
                    }
                },
            }
            i = i + 1;
        }
        r
    }

    /// Borrow the items of the list from `start` backward (inclusive), in
    /// reverse order; empty if `start` is stale.
    pub fn iter_prev(&self, start: LinkedListIndex) -> (r: Vec<&LinkedListItem<T>>)
        requires
            self.wf(),
        ensures
            self.live(start) ==> r@.len() == self.pos(start) + 1 && forall|j: int|
                0 <= j < r@.len() ==> *(#[trigger] r@[j]) == self.node(
                    self.handles()[self.pos(start) - j],
                ) && r@[j].value == self@[self.pos(start) - j],
            !self.live(start) ==> r@.len() == 0,
    {
        let cursor = self.cursor_iter_prev(start);
        let mut r: Vec<&LinkedListItem<T>> = Vec::new();
        let mut i: usize = 0;
        let ghost p = self.pos(start);
        while i < cursor.len()
            invariant
                self.wf(),
                i == r@.len(),
                i <= cursor@.len(),
                cursor@ == (if self.live(start) {
                    self.handles().subrange(0, p + 1).reverse()
                } else {
                    Seq::<LinkedListIndex>::empty()
                }),
                self.live(start) ==> 0 <= p < self.handles().len(),
                forall|j: int|
                    0 <= j < r@.len() ==> *(#[trigger] r@[j]) == self.node(
                        self.handles()[p - j],
                    ) && r@[j].value == self@[p - j],
            decreases cursor@.len() - i,
        {
            proof {
                self.lemma_handle_at(p - i);
            }
            match self.get(cursor[i]) {
                Some(item) => {
                    r.push(item);
                },
                None => {
                    proof {
                        assert(false);
                    }
                },
            }
            i = i + 1;
        }
        r
    }

    /// Borrow all items of the list in head-to-tail order. An empty list
    /// yields an empty sequence.
    pub fn iter(&self) -> (r: Vec<&LinkedListItem<T>>)
        requires
            self.wf(),
        ensures
            r@.len() == self@.len(),
            forall|j: int|
                0 <= j < r@.len() ==> *(#[trigger] r@[j]) == self.node(self.handles()[j])
                    && r@[j].value == self@[j],
    {
        match self.head {
            None => Vec::new(),
            Some(h) => {
                proof {
                    self.lemma_handle_at(0);
                }
                self.iter_next(h)
            },
        }
    }

    /// Borrow all items of the list in slot-storage order (no particular
    /// logical order): every live node appears exactly once.
    pub fn iter_unordered(&self) -> (r: Vec<&LinkedListItem<T>>)
        requires
            self.wf(),
        ensures
            r@.len() == self@.len(),
            forall|j: int|
                0 <= j < r@.len() ==> self.live((#[trigger] r@[j]).index) && *r@[j]
                    == self.node(r@[j].index),
            forall|j: int, k: int| 0 <= j < k < r@.len() ==> r@[j].index != r@[k].index,
            forall|h: LinkedListIndex|
                #[trigger] self.live(h) ==> exists|j: int| 0 <= j < r@.len() && r@[j].index == h,
    {
        let entries = self.items.entries();
        let mut r: Vec<&LinkedListItem<T>> = Vec::new();
        let mut i: usize = 0;
        while i < entries.len()
            invariant
                self.wf(),
                i == r@.len(),
                i <= entries@.len(),
                entries@.len() == self@.len(),
                forall|j: int|
                    0 <= j < entries@.len() ==> self.items@.dom().contains(
                        (#[trigger] entries@[j]).0,
                    ) && *entries@[j].1 == self.items@[entries@[j].0],
                forall|j: int, k: int|
                    0 <= j < k < entries@.len() ==> entries@[j].0 != entries@[k].0,
                forall|h: LinkedListIndex|
                    #[trigger] self.items@.dom().contains(h) ==> exists|j: int|
                        0 <= j < entries@.len() && entries@[j].0 == h,
                forall|j: int| 0 <= j < r@.len() ==> *(#[trigger] r@[j]) == self.items@[entries@[j].0],
            decreases entries@.len() - i,
        {
            let pair = &entries[i];
            r.push(pair.1);
            i = i + 1;
        }
        proof {
            assert forall|j: int|
                0 <= j < r@.len() implies self.live((#[trigger] r@[j]).index) && *r@[j]
                == self.node(r@[j].index) by {
                self.lemma_live_iff_stored(entries@[j].0);
                self.lemma_live_node(entries@[j].0);
            }
            assert forall|j: int, k: int|
                0 <= j < k < r@.len() implies r@[j].index != r@[k].index by {
                self.lemma_live_iff_stored(entries@[j].0);
                self.lemma_live_node(entries@[j].0);
                self.lemma_live_iff_stored(entries@[k].0);
                self.lemma_live_node(entries@[k].0);
            }
            assert forall|h: LinkedListIndex| #[trigger] self.live(h) implies exists|j: int|
                0 <= j < r@.len() && r@[j].index == h by {
                self.lemma_live_iff_stored(h);
                let j = choose|j: int| 0 <= j < entries@.len() && entries@[j].0 == h;
                self.lemma_live_node(entries@[j].0);
                assert(r@[j].index == h);
            }
        }
        r
    }

    /// Relation between a list before and after a caller wrote through a
    /// mutable borrow of the node stored under `h`: the handle order, the
    /// endpoints and the freed set are unchanged, and the arena holds `it`
    /// under `h` and is otherwise untouched.
    pub open spec fn value_borrow_frame(
        pre: Self,
        post: Self,
        h: LinkedListIndex,
        it: LinkedListItem<T>,
    ) -> bool {
        &&& post.head == pre.head
        &&& post.tail == pre.tail
        &&& post.handles() == pre.handles()
        &&& post.freed() == pre.freed()
        &&& post.items.wf()
        &&& post.items.spec_len() == pre.items.spec_len()
        &&& post.items@ == pre.items@.insert(h, it)
    }

    /// Get a mutable borrow of the node under a live handle, or `None` if
    /// the handle is stale. If the caller changes only the node's value,
    /// [`Self::lemma_value_update_wf`] re-establishes the invariant.
    pub fn get_mut(&mut self, index: LinkedListIndex) -> (r: Option<&mut LinkedListItem<T>>)
        requires
            old(self).wf(),
        ensures
            r is None ==> !old(self).live(index) && *final(self) == *old(self)
                && final(self).wf(),
            r is Some ==> old(self).live(index) && *r->0 == old(self).node(index)
                && Self::value_borrow_frame(*old(self), *final(self), index, *final(r->0)),
    {
        proof {
            self.lemma_live_iff_stored(index);
        }
        self.items.get_mut(index)
    }

    /// Get a mutable borrow of the first node. Can be `None` if the list is
    /// empty.
    pub fn head_mut(&mut self) -> (r: Option<&mut LinkedListItem<T>>)
        requires
            old(self).wf(),
        ensures
            r is None ==> old(self)@.len() == 0 && *final(self) == *old(self)
                && final(self).wf(),
            r is Some ==> old(self)@.len() > 0 && *r->0 == old(self).node(
                old(self).handles()[0],
            ) && Self::value_borrow_frame(
                *old(self),
                *final(self),
                old(self).handles()[0],
                *final(r->0),
            ),
    {
        match self.head {
            Some(h) => {
                proof {
                    self.lemma_handle_at(0);
                }
                self.get_mut(h)
            },
            None => None,
        }
    }

    /// Get a mutable borrow of the last node. Can be `None` if the list is
    /// empty.
    pub fn tail_mut(&mut self) -> (r: Option<&mut LinkedListItem<T>>)
        requires
            old(self).wf(),
        ensures
            r is None ==> old(self)@.len() == 0 && *final(self) == *old(self)
                && final(self).wf(),
            r is Some ==> old(self)@.len() > 0 && *r->0 == old(self).node(
                old(self).handles().last(),
            ) && Self::value_borrow_frame(
                *old(self),
                *final(self),
                old(self).handles().last(),
                *final(r->0),
            ),
    {
        match self.tail {
            Some(t) => {
                proof {
                    self.lemma_handle_at(self.handles().len() - 1);
                }
                self.get_mut(t)
            },
            None => None,
        }
    }

    /// Get a mutable borrow of the node after the one with the given
    /// handle, if both exist.
    pub fn next_of_mut(&mut self, index: LinkedListIndex) -> (r: Option<
        &mut LinkedListItem<T>,
    >)
        requires
            old(self).wf(),
        ensures
            r is None ==> (!old(self).live(index) || old(self).spec_next_of(index) is None)
                && *final(self) == *old(self) && final(self).wf(),
            r is Some ==> old(self).live(index) && old(self).spec_next_of(index) is Some
                && *r->0 == old(self).node(old(self).spec_next_of(index)->0)
                && Self::value_borrow_frame(
                *old(self),
                *final(self),
                old(self).spec_next_of(index)->0,
                *final(r->0),
            ),
    {
        proof {
            if self.live(index) {
                self.lemma_live_node(index);
            }
        }
        let nx = match self.get(index) {
            None => {
                return None;
            },
            Some(it) => it.next_index,
        };
        match nx {
            None => None,
            Some(n) => self.get_mut(n),
        }
    }

    /// Get a mutable borrow of the node before the one with the given
    /// handle, if both exist.
    pub fn prev_of_mut(&mut self, index: LinkedListIndex) -> (r: Option<
        &mut LinkedListItem<T>,
    >)
        requires
            old(self).wf(),
        ensures
            r is None ==> (!old(self).live(index) || old(self).spec_prev_of(index) is None)
                && *final(self) == *old(self) && final(self).wf(),
            r is Some ==> old(self).live(index) && old(self).spec_prev_of(index) is Some
                && *r->0 == old(self).node(old(self).spec_prev_of(index)->0)
                && Self::value_borrow_frame(
                *old(self),
                *final(self),
                old(self).spec_prev_of(index)->0,
                *final(r->0),
            ),
    {
        proof {
            if self.live(index) {
                self.lemma_live_node(index);
            }
        }
        let pv = match self.get(index) {
            None => {
                return None;
            },
            Some(it) => it.prev_index,
        };
        match pv {
            None => None,
            Some(p) => self.get_mut(p),
        }
    }

    /// Writing through a borrow from a `..._mut` accessor keeps the list
    /// well-formed provided only the value changed: the view is the old
    /// view with the node's position updated.
    pub proof fn lemma_value_update_wf(
        pre: &Self,
        post: &Self,
        h: LinkedListIndex,
        it: LinkedListItem<T>,
    )
        requires
            pre.wf(),
            pre.live(h),
            Self::value_borrow_frame(*pre, *post, h, it),
            it.index == h,
            it.next_index == pre.node(h).next_index,
            it.prev_index == pre.node(h).prev_index,
        ensures
            post.wf(),
            post@ == pre@.update(pre.pos(h), it.value),
            post.node(h) == it,
    {
        pre.lemma_live_node(h);
        assert forall|i: int| 0 <= i < post.order@.len() implies #[trigger] post.node_wf(
            i,
        ) by {
            assert(pre.node_wf(i));
        }
        assert forall|h2: LinkedListIndex| #[trigger] post.items@.dom().contains(h2)
            implies post.order@.contains(h2) by {
            if h2 != h {
                assert(pre.items@.dom().contains(h2));
            }
        }
        assert(post@ =~= pre@.update(pre.pos(h), it.value));
    }

    /// A list never holds more than `usize::MAX` items.
    pub proof fn lemma_len_bound(&self)
        requires
            self.wf(),
        ensures
            self@.len() <= usize::MAX,
    {
        crate::arena::lemma_len_bound(&self.items);
    }

    /// Retain only the elements accepted by the predicate, in place,
    /// visiting each node exactly once in head-to-tail order. The surviving
    /// nodes keep their handles and their relative order; every removed
    /// handle is freed for good.
    pub fn retain_mut<F: Fn(&T) -> bool>(&mut self, f: F)
        requires
            old(self).wf(),
            forall|v: &T| call_requires(f, (v,)),
        ensures
            final(self).wf(),
            old(self).freed().subset_of(final(self).freed()),
            exists|keep: Seq<bool>|
                #![auto]
                keep.len() == old(self)@.len() && final(self)@ == mask_select(
                    old(self)@,
                    keep,
                ) && final(self).handles() == mask_select(old(self).handles(), keep) && forall|
                    i: int,
                |
                    0 <= i < keep.len() ==> call_ensures(f, (&old(self)@[i],), keep[i]),
    {
        let ghost n = old(self)@.len() as int;
        let ghost keep: Seq<bool> = Seq::empty();
        let mut cur = self.head;
        proof {
            assert(old(self)@.subrange(0, 0) =~= Seq::<T>::empty());
            assert(mask_select(old(self)@.subrange(0, 0), keep) =~= Seq::<T>::empty());
            assert(mask_select(old(self).handles().subrange(0, 0), keep)
                =~= Seq::<LinkedListIndex>::empty());
            assert(self.handles() =~= mask_select(old(self).handles().subrange(0, 0), keep)
                + old(self).handles().subrange(0, n));
            assert(self@ =~= mask_select(old(self)@.subrange(0, 0), keep) + old(
                self,
            )@.subrange(0, n));
        }
        while cur.is_some()
            invariant
                self.wf(),
                forall|v: &T| call_requires(f, (v,)),
                keep.len() <= n,
                n == old(self)@.len(),
                old(self).handles().len() == n,
                self@ == mask_select(old(self)@.subrange(0, keep.len() as int), keep) + old(
                    self,
                )@.subrange(keep.len() as int, n),
                self.handles() == mask_select(
                    old(self).handles().subrange(0, keep.len() as int),
                    keep,
                ) + old(self).handles().subrange(keep.len() as int, n),
                old(self).freed().subset_of(self.freed()),
                forall|i: int|
                    0 <= i < keep.len() ==> call_ensures(f, (&old(self)@[i],), #[trigger] keep[i]),
                cur == (if keep.len() < n {
                    Some(old(self).handles()[keep.len() as int])
                } else {
                    None::<LinkedListIndex>
                }),
            decreases n - keep.len(),
        {
            let ghost k = keep.len() as int;
            let ghost kept = mask_select(old(self).handles().subrange(0, k), keep);
            let h = match cur {
                Some(h) => h,
                None => {
                    proof {
                        assert(false);
                    }
                    return ;
                },
            };
            proof {
                assert(self.handles()[kept.len() as int] == h);
                assert(self.handles().contains(h));
                assert forall|j: int|
                    0 <= j < self.handles().len() && self.handles()[j] == h
                    implies j == kept.len() as int by {
                    if j != kept.len() as int {
                        assert(self.handles()[j] != self.handles()[kept.len() as int]);
                    }
                }
                assert(self.pos(h) == kept.len() as int);
                self.lemma_live_node(h);
            }
            let (keep_this, next) = match self.get(h) {
                Some(item) => (f(&item.value), item.next_index),
                None => {
                    proof {
                        assert(false);
                    }
                    (true, None)
                },
            };
            if !keep_this {
                match self.remove(h) {
                    Some(_) => {},
                    None => {
                        proof {
                            assert(false);
                        }
                    },
                }
            }
            proof {
                lemma_mask_select_push(
                    old(self)@.subrange(0, k),
                    keep,
                    old(self)@[k],
                    keep_this,
                );
                lemma_mask_select_push(
                    old(self).handles().subrange(0, k),
                    keep,
                    old(self).handles()[k],
                    keep_this,
                );
                assert(old(self)@.subrange(0, k + 1).drop_last() =~= old(self)@.subrange(
                    0,
                    k,
                ));
                assert(old(self)@.subrange(0, k + 1) =~= old(self)@.subrange(0, k).push(
                    old(self)@[k],
                ));
                assert(old(self).handles().subrange(0, k + 1) =~= old(
                    self,
                ).handles().subrange(0, k).push(old(self).handles()[k]));
                keep = keep.push(keep_this);
                assert(self@ =~= mask_select(old(self)@.subrange(0, k + 1), keep) + old(
                    self,
                )@.subrange(k + 1, n));
                assert(self.handles() =~= mask_select(
                    old(self).handles().subrange(0, k + 1),
                    keep,
                ) + old(self).handles().subrange(k + 1, n));
            }
            cur = next;
        }
        proof {
            assert(old(self)@.subrange(0, n) =~= old(self)@);
            assert(old(self).handles().subrange(0, n) =~= old(self).handles());
            assert(self@ =~= mask_select(old(self)@, keep));
            assert(self.handles() =~= mask_select(old(self).handles(), keep));
        }
    }

    /// Returns a new list holding clones of the elements accepted by the
    /// predicate, in their original order. This list is unchanged; the new
    /// list mints its own handles.
    pub fn retain<F: Fn(&T) -> bool>(&self, f: F) -> (r: Self) where T: Clone
        requires
            self.wf(),
            forall|v: &T| call_requires(f, (v,)),
        ensures
            r.wf(),
            r.freed() == Set::<LinkedListIndex>::empty(),
            exists|keep: Seq<bool>|
                #![auto]
                keep.len() == self@.len() && r@.len() == mask_select(self@, keep).len()
                    && (forall|i: int|
                    0 <= i < keep.len() ==> call_ensures(f, (&self@[i],), keep[i])) && forall|
                    j: int,
                |
                    0 <= j < r@.len() ==> vstd::pervasive::cloned::<T>(
                        mask_select(self@, keep)[j],
                        #[trigger] r@[j],
                    ),
    {
        let ghost n = self@.len() as int;
        let ghost keep: Seq<bool> = Seq::empty();
        let mut r = Self::new();
        let items = self.iter();
        let mut i: usize = 0;
        proof {
            self.lemma_len_bound();
            assert(self@.subrange(0, 0) =~= Seq::<T>::empty());
            assert(mask_select(self@.subrange(0, 0), keep) =~= Seq::<T>::empty());
        }
        while i < items.len()
            invariant
                self.wf(),
                r.wf(),
                forall|v: &T| call_requires(f, (v,)),
                keep.len() == i,
                i <= n,
                n == self@.len(),
                n <= usize::MAX,
                items@.len() == n,
                forall|j: int|
                    0 <= j < items@.len() ==> (#[trigger] items@[j]).value == self@[j],
                r.freed() == Set::<LinkedListIndex>::empty(),
                r@.len() <= i,
                r@.len() == mask_select(self@.subrange(0, i as int), keep).len(),
                forall|i2: int|
                    0 <= i2 < keep.len() ==> call_ensures(f, (&self@[i2],), #[trigger] keep[i2]),
                forall|j: int|
                    0 <= j < r@.len() ==> vstd::pervasive::cloned::<T>(
                        mask_select(self@.subrange(0, i as int), keep)[j],
                        #[trigger] r@[j],
                    ),
            decreases n - i,
        {
            let ghost k = i as int;
            let item = &items[i];
            let keep_this = f(&item.value);
            if keep_this {
                r.push_back(item.value.clone());
            }
            proof {
                lemma_mask_select_push(self@.subrange(0, k), keep, self@[k], keep_this);
                assert(self@.subrange(0, k + 1) =~= self@.subrange(0, k).push(self@[k]));
                keep = keep.push(keep_this);
            }
            i = i + 1;
        }
        proof {
            assert(self@.subrange(0, n) =~= self@);
        }
        r
    }

    /// No handle occurs twice in the head-to-tail handle sequence.
    pub proof fn lemma_handles_distinct(&self)
        requires
            self.wf(),
        ensures
            forall|i: int, j: int|
                0 <= i < j < self.handles().len() ==> self.handles()[i] != self.handles()[j],
    {
    }

    /// A handle is live exactly when the arena stores a node under it, and
    /// the node it names is the arena's entry.
    pub proof fn lemma_live_iff_stored(&self, h: LinkedListIndex)
        requires
            self.wf(),
        ensures
            self.live(h) == self.items@.dom().contains(h),
            self.live(h) ==> self.node(h) == self.items@[h],
    {
        if self.order@.contains(h) {
            let i = choose|i: int| 0 <= i < self.order@.len() && self.order@[i] == h;
            assert(self.node_wf(i));
        }
    }

    /// The handle at position `i` is live, sits at position `i`, and its
    /// node links to the handles at the neighbouring positions.
    pub proof fn lemma_handle_at(&self, i: int)
        requires
            self.wf(),
            0 <= i < self.handles().len(),
        ensures
            self.live(self.handles()[i]),
            self.pos(self.handles()[i]) == i,
            self.handles().len() == self@.len(),
            self.node(self.handles()[i]).index == self.handles()[i],
            self.node(self.handles()[i]).value == self@[i],
            self.spec_next_of(self.handles()[i]) == (if i + 1 < self.handles().len() {
                Some(self.handles()[i + 1])
            } else {
                None::<LinkedListIndex>
            }),
            self.spec_prev_of(self.handles()[i]) == (if i > 0 {
                Some(self.handles()[i - 1])
            } else {
                None::<LinkedListIndex>
            }),
    {
        let h = self.order@[i];
        assert(self.order@.contains(h));
        assert(self.node_wf(i));
        let j = self.order@.index_of(h);
        assert(0 <= j < self.order@.len() && self.order@[j] == h);
        assert(j == i);
    }

    /// Position and node facts for a live handle.
    pub proof fn lemma_live_node(&self, h: LinkedListIndex)
        requires
            self.wf(),
            self.live(h),
        ensures
            0 <= self.pos(h) < self.handles().len(),
            self.handles()[self.pos(h)] == h,
            self.handles().len() == self@.len(),
            self.node(h).index == h,
            self.node(h).value == self@[self.pos(h)],
            self.spec_next_of(h) == (if self.pos(h) + 1 < self.handles().len() {
                Some(self.handles()[self.pos(h) + 1])
            } else {
                None::<LinkedListIndex>
            }),
            self.spec_prev_of(h) == (if self.pos(h) > 0 {
                Some(self.handles()[self.pos(h) - 1])
            } else {
                None::<LinkedListIndex>
            }),
            self.spec_next_of(h) is Some ==> self.live(self.spec_next_of(h)->0) && self.pos(
                self.spec_next_of(h)->0,
            ) == self.pos(h) + 1,
            self.spec_prev_of(h) is Some ==> self.live(self.spec_prev_of(h)->0) && self.pos(
                self.spec_prev_of(h)->0,
            ) == self.pos(h) - 1,
    {
        let i = self.order@.index_of(h);
        assert(0 <= i < self.order@.len() && self.order@[i] == h);
        self.lemma_handle_at(i);
        if i + 1 < self.order@.len() {
            self.lemma_handle_at(i + 1);
        }
        if i > 0 {
            self.lemma_handle_at(i - 1);
        }
    }

    /// In a non-empty list, `head` and `tail` name the first and last
    /// handles of the traversal order.
    pub proof fn lemma_endpoints(&self)
        requires
            self.wf(),
            self.handles().len() > 0,
        ensures
            self.head == Some(self.handles()[0]),
            self.tail == Some(self.handles().last()),
    {
    }

    /// The list is empty exactly when it has no head, exactly when it has
    /// no tail; the handle order has one handle per value, and in a
    /// non-empty list `head` and `tail` name its first and last handles.
    pub proof fn lemma_empty_iff_endpoints_none(&self)
        requires
            self.wf(),
        ensures
            self@.len() == 0 <==> self.head is None,
            self@.len() == 0 <==> self.tail is None,
            self.head is None <==> self.tail is None,
            self.handles().len() == self@.len(),
            self.head == (if self@.len() == 0 {
                None::<LinkedListIndex>
            } else {
                Some(self.handles()[0])
            }),
            self.tail == (if self@.len() == 0 {
                None::<LinkedListIndex>
            } else {
                Some(self.handles().last())
            }),
    {
    }

    /// Mutual link consistency: whenever a live handle has a next
    /// neighbour, that neighbour's previous handle points back at it, and
    /// symmetrically for the previous neighbour.
    pub proof fn lemma_neighbour_links(&self, h: LinkedListIndex)
        requires
            self.wf(),
            self.live(h),
        ensures
            self.spec_next_of(h) is Some ==> self.live(self.spec_next_of(h)->0)
                && self.spec_prev_of(self.spec_next_of(h)->0) == Some(h),
            self.spec_prev_of(h) is Some ==> self.live(self.spec_prev_of(h)->0)
                && self.spec_next_of(self.spec_prev_of(h)->0) == Some(h),
    {
        self.lemma_live_node(h);
        let i = self.pos(h);
        if i + 1 < self.handles().len() {
            self.lemma_handle_at(i + 1);
        }
        if i > 0 {
            self.lemma_handle_at(i - 1);
        }
    }

    /// A handle this list has freed is never live again: lookups and
    /// removals through it keep reporting absence, whatever was inserted
    /// since.
    pub proof fn lemma_freed_never_live(&self)
        requires
            self.wf(),
        ensures
            forall|h: LinkedListIndex| #[trigger] self.freed().contains(h) ==> !self.live(h),
    {
        crate::arena::lemma_retired_never_live(&self.items);
        assert forall|h: LinkedListIndex| #[trigger] self.freed().contains(h) implies !self.live(
            h,
        ) by {
            self.lemma_live_iff_stored(h);
        }
    }
}

/// Round-trip law: pushing a value to the back of a sequence and then
/// dropping the back returns exactly that value and restores the previous
/// sequence, in particular its length. Together with the contracts of
/// [`LinkedList::push_back`] and [`LinkedList::pop_back`], this says that
/// `push_back(v)` followed by `pop_back()` yields `Some(v)` and leaves the
/// list as it was.
pub proof fn lemma_push_pop_back_round_trip<T>(s: Seq<T>, v: T)
    ensures
        s.push(v).len() == s.len() + 1,
        s.push(v).last() == v,
        s.push(v).drop_last() == s,
{
    assert(s.push(v).drop_last() =~= s);
}

/// Ordering law: a list built by extending an empty list with `vals` views
/// exactly as `vals`, so by the contract of [`LinkedList::iter`] a forward
/// traversal yields `vals` in order, and by the contract of
/// [`LinkedList::iter_prev`] a backward traversal from the tail yields the
/// values reversed.
pub proof fn lemma_extend_iter_order<T>(vals: Seq<T>)
    ensures
        Seq::<T>::empty() + vals == vals,
        vals.reverse().len() == vals.len(),
        forall|j: int| 0 <= j < vals.len() ==> vals.reverse()[j] == vals[vals.len() - 1 - j],
{
    assert(Seq::<T>::empty() + vals =~= vals);
}

impl<T> View for LinkedList<T> {
    type V = Seq<T>;

    /// The list viewed as the sequence of its values, head to tail.
    closed spec fn view(&self) -> Seq<T> {
        Seq::new(self.order@.len(), |i: int| self.items@[self.order@[i]].value)
    }
}

} // verus!
