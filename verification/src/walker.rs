//! Borrow-decoupled traversal: a walker keeps only a current handle, and
//! each step takes the list by reference for the duration of that step
//! alone, so the list may be mutated (for example, nodes removed) between
//! steps.

use crate::arena::LinkedListIndex;
use crate::linked_list::LinkedList;
use vstd::prelude::*;

verus! {

/// A walker is a traversal state where part of the traversal information is
/// supplied manually to each step, so no borrow of the collection being
/// traversed is held between steps.
pub trait Walker<Context> {
    /// What one step yields.
    type Item;

    /// Advance to the next item.
    fn walk_next(&mut self, context: Context) -> Option<Self::Item>;

    /// Create an iterator-like stepper out of the walker and the given
    /// `context`.
    fn iter(self, context: Context) -> (r: WalkerIter<Self, Context>) where
        Self: Sized,
        Context: Clone,
        ensures
            r.walker == self,
            r.context == context,
    {
        WalkerIter { walker: self, context }
    }
}

/// A walker and its context wrapped together, so it can be stepped without
/// resupplying the context.
pub struct WalkerIter<W, C> {
    /// The wrapped walker.
    pub walker: W,
    /// The context handed to the walker on each step.
    pub context: C,
}

impl<W, C> WalkerIter<W, C> where W: Walker<C>, C: Clone {
    /// A clone of the stored context.
    pub fn context(&self) -> (c: C)
        ensures
            vstd::pervasive::cloned(self.context, c),
    {
        self.context.clone()
    }

    /// Borrow the wrapped walker.
    pub fn inner_ref(&self) -> (w: &W)
        ensures
            w == &self.walker,
    {
        &self.walker
    }

    /// Borrow the wrapped walker mutably; the context is untouched.
    pub fn inner_mut(&mut self) -> (w: &mut W)
        ensures
            *w == old(self).walker,
            *final(self) == (WalkerIter { walker: *final(w), context: old(self).context }),
    {
        &mut self.walker
    }

    /// Step the walker once against a clone of the stored context; the
    /// stored context itself is untouched.
    pub fn next(&mut self) -> (r: Option<W::Item>)
        ensures
            final(self).context == old(self).context,
    {
        let context = self.context.clone();
        self.walker.walk_next(context)
    }
}

impl<C, W: Walker<C>> Walker<C> for &mut W {
    type Item = W::Item;

    fn walk_next(&mut self, context: C) -> Option<W::Item> {
        (**self).walk_next(context)
    }
}

/// A step-at-a-time traversal of a [`LinkedList`] that holds no borrow of
/// the list between steps. Direction (forward or backward) is fixed at
/// construction; the starting handle itself is not yielded.
pub struct LinkedListWalker {
    /// The handle the walker currently stands on, if any.
    pub current: Option<LinkedListIndex>,
    /// If true, walk from tail to head following `prev` links.
    pub reverse: bool,
}

impl LinkedListWalker {
    /// Create a walker standing on `start`.
    pub fn new<T>(list: &LinkedList<T>, start: LinkedListIndex, reverse: bool) -> (w: Self)
        ensures
            w.current == Some(start),
            w.reverse == reverse,
    {
        let _ = list;
        LinkedListWalker { current: Some(start), reverse }
    }

    /// Advance one step against the supplied list: returns the handle
    /// following (or, walking in reverse, preceding) the current one and
    /// moves onto it. Returns `None`, staying put, if the current handle is
    /// stale; returns `None`, standing on nothing, once the walk is
    /// exhausted.
    pub fn advance<T>(&mut self, list: &LinkedList<T>) -> (r: Option<LinkedListIndex>)
        requires
            list.wf(),
        ensures
            final(self).reverse == old(self).reverse,
            match old(self).current {
                None => r is None && final(self).current is None,
                Some(h) => if list.live(h) {
                    r == (if old(self).reverse {
                        list.spec_prev_of(h)
                    } else {
                        list.spec_next_of(h)
                    }) && final(self).current == r
                } else {
                    r is None && final(self).current == old(self).current
                },
            },
    {
        let cur = match self.current {
            None => {
                return None;
            },
            Some(c) => c,
        };
        match list.get(cur) {
            None => None,
            Some(item) => {
                let nxt = if self.reverse {
                    item.prev_index
                } else {
                    item.next_index
                };
                self.current = nxt;
                nxt
            },
        }
    }
}

impl<T> Walker<&LinkedList<T>> for LinkedListWalker {
    type Item = LinkedListIndex;

    /// Advance to the next handle: the neighbour of the current handle in
    /// the walker's direction, read from the arena, so a stale current
    /// handle yields nothing and the walker stays put. This contract is
    /// stated over the raw arena and holds for any list value; under
    /// [`LinkedList::wf`], [`LinkedListWalker::advance`] states the same
    /// step at the level of the list's traversal order.
    fn walk_next(&mut self, context: &LinkedList<T>) -> (r: Option<LinkedListIndex>)
        ensures
            final(self).reverse == old(self).reverse,
            r == (match old(self).current {
                None => None::<LinkedListIndex>,
                Some(h) => if context.items@.dom().contains(h) {
                    if old(self).reverse {
                        context.items@[h].prev_index
                    } else {
                        context.items@[h].next_index
                    }
                } else {
                    None::<LinkedListIndex>
                },
            }),
            final(self).current == (match old(self).current {
                None => None::<LinkedListIndex>,
                Some(h) => if context.items@.dom().contains(h) {
                    r
                } else {
                    Some(h)
                },
            }),
    {
        let cur = match self.current {
            None => {
                return None;
            },
            Some(c) => c,
        };
        match context.items.get(cur) {
            None => None,
            Some(item) => {
                let nxt = if self.reverse {
                    item.prev_index
                } else {
                    item.next_index
                };
                self.current = nxt;
                nxt
            },
        }
    }
}

} // verus!
