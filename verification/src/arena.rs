//! A generational arena: growable slot storage addressed by handles that
//! pair a slot position with a generation counter.
//!
//! Freeing a slot bumps its generation, so a handle minted before the slot
//! was reused can never resolve against the slot's new occupant. The ghost
//! `retired` set records every handle that was ever freed; the arena
//! invariant guarantees that a retired handle stays unresolvable forever and
//! that insertion never hands such a handle out again.

use vstd::prelude::*;

verus! {

broadcast use vstd::std_specs::hash::group_hash_axioms;


/// An opaque handle to a slot of the arena: the slot's position and the
/// generation the slot had when the occupant was stored.
///
/// Equality requires both components to match, so a handle kept across a
/// free-and-reuse of its slot compares unequal to the new occupant's handle.
#[derive(Clone, Copy, PartialEq, Eq, Hash, Debug, Structural)]
pub struct LinkedListIndex {
    slot: usize,
    generation: u64,
}

/// One unit of storage: its current generation and its occupant, if any.
struct Slot<T> {
    generation: u64,
    value: Option<T>,
}

/// Growable slot storage with generation-stamped handles.
///
/// `free` lists the vacant slots that may be reused; `live_count` caches the
/// number of occupied slots; the ghost `retired` set holds every handle that
/// was ever freed.
pub struct Arena<T> {
    slots: Vec<Slot<T>>,
    free: Vec<usize>,
    live_count: usize,
    retired: Ghost<Set<LinkedListIndex>>,
}

/// Number of occupied slots in `s`.
spec fn occupied_count<T>(s: Seq<Slot<T>>) -> nat
    decreases s.len(),
{
    if s.len() == 0 {
        0
    } else {
        occupied_count(s.drop_last()) + if s.last().value is Some {
            1nat
        } else {
            0nat
        }
    }
}

proof fn lemma_occupied_count_push<T>(s: Seq<Slot<T>>, slot: Slot<T>)
    ensures
        occupied_count(s.push(slot)) == occupied_count(s) + if slot.value is Some {
            1nat
        } else {
            0nat
        },
{
    assert(s.push(slot).drop_last() =~= s);
}

proof fn lemma_occupied_count_update<T>(s: Seq<Slot<T>>, i: int, slot: Slot<T>)
    requires
        0 <= i < s.len(),
    ensures
        occupied_count(s.update(i, slot)) + (if s[i].value is Some {
            1nat
        } else {
            0nat
        }) == occupied_count(s) + (if slot.value is Some {
            1nat
        } else {
            0nat
        }),
    decreases s.len(),
{
    if i == s.len() - 1 {
        assert(s.update(i, slot).drop_last() =~= s.drop_last());
    } else {
        assert(s.update(i, slot).drop_last() =~= s.drop_last().update(i, slot));
        lemma_occupied_count_update(s.drop_last(), i, slot);
    }
}

impl<T> Arena<T> {
    /// A handle resolves exactly when its slot exists, is occupied, and
    /// still carries the handle's generation.
    spec fn valid(&self, h: LinkedListIndex) -> bool {
        &&& h.slot < self.slots@.len()
        &&& self.slots@[h.slot as int].generation == h.generation
        &&& self.slots@[h.slot as int].value is Some
    }

    /// Number of occupied slots.
    pub closed spec fn spec_len(&self) -> nat {
        self.live_count as nat
    }

    /// Every handle that was ever freed.
    pub closed spec fn retired(&self) -> Set<LinkedListIndex> {
        self.retired@
    }

    /// The handle the next insertion will return.
    pub closed spec fn spec_next_handle(&self) -> LinkedListIndex {
        if self.free@.len() == 0 {
            LinkedListIndex { slot: self.slots@.len() as usize, generation: 0 }
        } else {
            let s = self.free@.last();
            LinkedListIndex { slot: s, generation: self.slots@[s as int].generation }
        }
    }

    /// Arena invariant: the free list names distinct vacant slots whose
    /// generation can still be bumped, `live_count` counts the occupied
    /// slots, and every retired handle is forever unresolvable (its slot has
    /// moved to a later generation, or sits vacant at the final generation
    /// and is never reused).
    pub closed spec fn wf(&self) -> bool {
        &&& forall|j: int|
            0 <= j < self.free@.len() ==> (#[trigger] self.free@[j]) < self.slots@.len()
                && self.slots@[self.free@[j] as int].value is None
                && self.slots@[self.free@[j] as int].generation < u64::MAX
        &&& forall|j: int, k: int|
            0 <= j < k < self.free@.len() ==> self.free@[j] != self.free@[k]
        &&& self.live_count == occupied_count(self.slots@)
        &&& forall|h: LinkedListIndex|
            #[trigger] self.retired@.contains(h) ==> h.slot < self.slots@.len() && (h.generation
                < self.slots@[h.slot as int].generation || (h.generation == self.slots@[h.slot
                as int].generation && self.slots@[h.slot as int].value is None && h.generation
                == u64::MAX))
    }

    /// Create an empty arena.
    pub fn new() -> (a: Self)
        ensures
            a.wf(),
            a@ == Map::<LinkedListIndex, T>::empty(),
            a.spec_len() == 0,
            a.retired() == Set::<LinkedListIndex>::empty(),
    {
        let a = Arena {
            slots: Vec::new(),
            free: Vec::new(),
            live_count: 0,
            retired: Ghost(Set::empty()),
        };
        proof {
            assert(a@ =~= Map::<LinkedListIndex, T>::empty());
        }
        a
    }

    /// Number of live (occupied) slots.
    pub fn len(&self) -> (r: usize)
        ensures
            r == self.spec_len(),
    {
        self.live_count
    }

    /// Whether `h` currently resolves to a value.
    pub fn contains(&self, h: LinkedListIndex) -> (r: bool)
        ensures
            r == self@.dom().contains(h),
    {
        if h.slot < self.slots.len() {
            let sr = &self.slots[h.slot];
            sr.generation == h.generation && sr.value.is_some()
        } else {
            false
        }
    }

    /// Borrow the value stored under `h`, or `None` if `h` is stale.
    pub fn get(&self, h: LinkedListIndex) -> (r: Option<&T>)
        ensures
            match r {
                Some(v) => self@.dom().contains(h) && *v == self@[h],
                None => !self@.dom().contains(h),
            },
    {
        if h.slot < self.slots.len() {
            let sr = &self.slots[h.slot];
            if sr.generation == h.generation {
                sr.value.as_ref()
            } else {
                None
            }
        } else {
            None
        }
    }

    /// The handle the next insertion will return.
    pub fn next_handle(&self) -> (r: LinkedListIndex)
        requires
            self.wf(),
        ensures
            r == self.spec_next_handle(),
    {
        if self.free.len() > 0 {
            let s = self.free[self.free.len() - 1];
            LinkedListIndex { slot: s, generation: self.slots[s].generation }
        } else {
            LinkedListIndex { slot: self.slots.len(), generation: 0 }
        }
    }

    /// Store `value` in a fresh or recycled slot. The returned handle is
    /// distinct from every live handle and from every handle ever freed.
    pub fn insert(&mut self, value: T) -> (r: LinkedListIndex)
        requires
            old(self).wf(),
            old(self).spec_len() < usize::MAX,
        ensures
            final(self).wf(),
            r == old(self).spec_next_handle(),
            !old(self)@.dom().contains(r),
            !old(self).retired().contains(r),
            final(self)@ == old(self)@.insert(r, value),
            final(self).spec_len() == old(self).spec_len() + 1,
            final(self).retired() == old(self).retired(),
    {
        let r: LinkedListIndex;
        if self.free.len() > 0 {
            let s = self.free.pop().unwrap();
            let sr = &mut self.slots[s];
            let generation = sr.generation;
            sr.value = Some(value);
            r = LinkedListIndex { slot: s, generation };
            proof {
                lemma_occupied_count_update(
                    old(self).slots@,
                    s as int,
                    self.slots@[s as int],
                );
            }
        } else {
            let s = self.slots.len();
            self.slots.push(Slot { generation: 0, value: Some(value) });
            r = LinkedListIndex { slot: s, generation: 0 };
            proof {
                lemma_occupied_count_push(
                    old(self).slots@,
                    self.slots@.last(),
                );
            }
        }
        self.live_count = self.live_count + 1;
        proof {
            assert(self@ =~= old(self)@.insert(r, value));
        }
        r
    }

    /// Free the slot under `h` and return its value, or `None` if `h` is
    /// stale. A freed slot's generation is bumped, so `h` never resolves
    /// again.
    pub fn remove(&mut self, h: LinkedListIndex) -> (r: Option<T>)
        requires
            old(self).wf(),
        ensures
            final(self).wf(),
            match r {
                Some(v) => old(self)@.dom().contains(h) && v == old(self)@[h] && final(self)@
                    == old(self)@.remove(h) && final(self).spec_len() == old(self).spec_len()
                    - 1 && final(self).retired() == old(self).retired().insert(h),
                None => !old(self)@.dom().contains(h) && *final(self) == *old(self),
            },
    {
        if h.slot >= self.slots.len() {
            return None;
        }
        if self.slots[h.slot].generation != h.generation || self.slots[h.slot].value.is_none() {
            return None;
        }
        let sr = &mut self.slots[h.slot];
        let taken = sr.value.take();
        let generation = sr.generation;
        if generation < u64::MAX {
            sr.generation = generation + 1;
        }
        proof {
            lemma_occupied_count_update(
                old(self).slots@,
                h.slot as int,
                self.slots@[h.slot as int],
            );
        }
        if generation < u64::MAX - 1 {
            self.free.push(h.slot);
        }
        self.live_count = self.live_count - 1;
        proof {
            self.retired@ = self.retired@.insert(h);
            assert(self@ =~= old(self)@.remove(h));
        }
        Some(taken.unwrap())
    }

    /// Borrow the value stored under `h` mutably, or `None` if `h` is
    /// stale. Whatever the caller writes through the borrow, the arena's
    /// handles, length and retired set are unchanged.
    pub fn get_mut(&mut self, h: LinkedListIndex) -> (r: Option<&mut T>)
        requires
            old(self).wf(),
        ensures
            final(self).wf(),
            r is Some <==> old(self)@.dom().contains(h),
            r is None ==> *final(self) == *old(self),
            r is Some ==> *r->0 == old(self)@[h] && final(self)@ =~= old(self)@.insert(
                h,
                *final(r->0),
            ) && final(self).spec_len() == old(self).spec_len() && final(self).retired()
                == old(self).retired() && final(self).spec_next_handle()
                == old(self).spec_next_handle(),
    {
        if h.slot >= self.slots.len() {
            return None;
        }
        if self.slots[h.slot].generation != h.generation || self.slots[h.slot].value.is_none() {
            return None;
        }
        proof {
            assert forall|sl: Slot<T>| sl.value is Some implies occupied_count(
                self.slots@.update(h.slot as int, sl),
            ) == occupied_count(self.slots@) by {
                lemma_occupied_count_update(self.slots@, h.slot as int, sl);
            }
        }
        let sr = &mut self.slots[h.slot];
        let vr = sr.value.as_mut().unwrap();
        Some(vr)
    }
}

impl<T> Arena<T> {
    /// Borrow every stored entry, keyed by its handle, in slot-storage
    /// order: every live handle appears exactly once.
    pub fn entries(&self) -> (r: Vec<(LinkedListIndex, &T)>)
        requires
            self.wf(),
        ensures
            r@.len() == self.spec_len(),
            forall|j: int|
                0 <= j < r@.len() ==> self@.dom().contains(#[trigger] r@[j].0) && *r@[j].1
                    == self@[r@[j].0],
            forall|j: int, k: int| 0 <= j < k < r@.len() ==> r@[j].0 != r@[k].0,
            forall|h: LinkedListIndex|
                #[trigger] self@.dom().contains(h) ==> exists|j: int|
                    0 <= j < r@.len() && r@[j].0 == h,
    {
        let mut r: Vec<(LinkedListIndex, &T)> = Vec::new();
        let mut i: usize = 0;
        proof {
            assert(self.slots@.subrange(0, 0) =~= Seq::<Slot<T>>::empty());
        }
        while i < self.slots.len()
            invariant
                self.wf(),
                i <= self.slots@.len(),
                r@.len() == occupied_count(self.slots@.subrange(0, i as int)),
                forall|j: int|
                    0 <= j < r@.len() ==> self@.dom().contains(#[trigger] r@[j].0) && *r@[j].1
                        == self@[r@[j].0],
                forall|j: int| 0 <= j < r@.len() ==> (#[trigger] r@[j].0).slot < i,
                forall|j: int, k: int| 0 <= j < k < r@.len() ==> r@[j].0 != r@[k].0,
                forall|h: LinkedListIndex|
                    #[trigger] self@.dom().contains(h) && h.slot < i ==> exists|j: int|
                        0 <= j < r@.len() && r@[j].0 == h,
            decreases self.slots@.len() - i,
        {
            let sr = &self.slots[i];
            proof {
                assert(self.slots@.subrange(0, i + 1).drop_last() =~= self.slots@.subrange(
                    0,
                    i as int,
                ));
            }
            let ghost r_before = r@;
            match sr.value.as_ref() {
                Some(v) => {
                    let h = LinkedListIndex { slot: i, generation: sr.generation };
                    r.push((h, v));
                },
                None => {},
            }
            proof {
                assert forall|h: LinkedListIndex|
                    #[trigger] self@.dom().contains(h) && h.slot < i + 1 implies exists|j: int|
                    0 <= j < r@.len() && r@[j].0 == h by {
                    if h.slot < i {
                        let j = choose|j: int| 0 <= j < r_before.len() && r_before[j].0 == h;
                        assert(r@[j].0 == h);
                    } else {
                        assert(r@[r@.len() - 1].0 == h);
                    }
                }
            }
            i = i + 1;
        }
        proof {
            assert(self.slots@.subrange(0, self.slots@.len() as int) =~= self.slots@);
        }
        r
    }
}

impl<T> View for Arena<T> {
    type V = Map<LinkedListIndex, T>;

    /// The arena viewed as a map from resolvable handles to stored values.
    closed spec fn view(&self) -> Map<LinkedListIndex, T> {
        Map::new(|h: LinkedListIndex| self.valid(h), |h: LinkedListIndex| self.slots@[h.slot as int].value->0)
    }
}

/// Associates extra data with the handles of a list without storing it in
/// the nodes: a growable table keyed by [`LinkedListIndex`], generation
/// checked in the same way as the arena itself, so stale handles find
/// nothing.
pub struct SecondaryMap<V> {
    slots: Vec<Option<(u64, V)>>,
}

impl<V> SecondaryMap<V> {
    /// A key finds data exactly when its slot holds an entry stamped with
    /// the key's generation.
    spec fn valid_key(&self, h: LinkedListIndex) -> bool {
        &&& h.slot < self.slots@.len()
        &&& self.slots@[h.slot as int] is Some
        &&& (self.slots@[h.slot as int]->0).0 == h.generation
    }

    /// Two distinct keys shadow each other when they name the same slot
    /// (with different generations): inserting one evicts the other.
    pub closed spec fn shadows(a: LinkedListIndex, b: LinkedListIndex) -> bool {
        a.slot == b.slot && a != b
    }

    /// Create an empty secondary map.
    pub fn new() -> (m: Self)
        ensures
            m@ == Map::<LinkedListIndex, V>::empty(),
    {
        let m = SecondaryMap { slots: Vec::new() };
        proof {
            assert(m@ =~= Map::<LinkedListIndex, V>::empty());
        }
        m
    }

    /// Insert a value under `key`, returning the value previously stored
    /// under that same key, if any. An entry stored under the same slot
    /// with another generation (a stale key) is evicted.
    pub fn insert(&mut self, key: LinkedListIndex, value: V) -> (r: Option<V>)
        ensures
            r == (if old(self)@.dom().contains(key) {
                Some(old(self)@[key])
            } else {
                None::<V>
            }),
            final(self)@.dom().contains(key),
            final(self)@[key] == value,
            forall|k: LinkedListIndex|
                #[trigger] final(self)@.dom().contains(k) && k != key ==> old(
                    self,
                )@.dom().contains(k) && final(self)@[k] == old(self)@[k],
            forall|k: LinkedListIndex|
                #[trigger] old(self)@.dom().contains(k) && k != key && !Self::shadows(k, key)
                    ==> final(self)@.dom().contains(k),
    {
        while self.slots.len() <= key.slot
            invariant
                old(self).slots@.len() <= self.slots@.len(),
                forall|j: int|
                    0 <= j < old(self).slots@.len() ==> self.slots@[j] == old(self).slots@[j],
                forall|j: int|
                    old(self).slots@.len() <= j < self.slots@.len() ==> self.slots@[j]
                        is None,
            decreases key.slot + 1 - self.slots@.len(),
        {
            self.slots.push(None);
        }
        proof {
            assert(self@ =~= old(self)@);
        }
        let ghost grown = *self;
        let sr = &mut self.slots[key.slot];
        let old_entry = sr.take();
        *sr = Some((key.generation, value));
        proof {
            assert(self.slots@ =~= grown.slots@.update(
                key.slot as int,
                Some((key.generation, value)),
            ));
        }
        let r = match old_entry {
            Some(entry) => {
                if entry.0 == key.generation {
                    Some(entry.1)
                } else {
                    None
                }
            },
            None => None,
        };
        r
    }

    /// Borrow the value stored under `key`, or `None` if nothing is stored
    /// under it (in particular if the key is stale).
    pub fn get(&self, key: LinkedListIndex) -> (r: Option<&V>)
        ensures
            match r {
                Some(v) => self@.dom().contains(key) && *v == self@[key],
                None => !self@.dom().contains(key),
            },
    {
        if key.slot < self.slots.len() {
            match self.slots[key.slot].as_ref() {
                Some(entry) => {
                    if entry.0 == key.generation {
                        Some(&entry.1)
                    } else {
                        None
                    }
                },
                None => None,
            }
        } else {
            None
        }
    }
}

impl<V> View for SecondaryMap<V> {
    type V = Map<LinkedListIndex, V>;

    /// The map viewed as a partial map from handles to associated values.
    closed spec fn view(&self) -> Map<LinkedListIndex, V> {
        Map::new(
            |h: LinkedListIndex| self.valid_key(h),
            |h: LinkedListIndex| (self.slots@[h.slot as int]->0).1,
        )
    }
}

/// Sparse variant of [`SecondaryMap`]: hash-based storage keyed by slot
/// position, cheaper when only a few handles carry data. Lookups are
/// generation checked in the same way, so stale handles find nothing.
pub struct SparseSecondaryMap<V> {
    inner: std::collections::HashMap<usize, (u64, V)>,
}

impl<V> SparseSecondaryMap<V> {
    /// A key finds data exactly when its slot holds an entry stamped with
    /// the key's generation.
    spec fn valid_key(&self, h: LinkedListIndex) -> bool {
        &&& self.inner@.contains_key(h.slot)
        &&& self.inner@[h.slot].0 == h.generation
    }

    /// Two distinct keys shadow each other when they name the same slot
    /// (with different generations): inserting one evicts the other.
    pub closed spec fn shadows(a: LinkedListIndex, b: LinkedListIndex) -> bool {
        a.slot == b.slot && a != b
    }

    /// Create an empty sparse secondary map.
    pub fn new() -> (m: Self)
        ensures
            m@ == Map::<LinkedListIndex, V>::empty(),
    {
        let m = SparseSecondaryMap { inner: std::collections::HashMap::new() };
        proof {
            assert(m@ =~= Map::<LinkedListIndex, V>::empty());
        }
        m
    }

    /// Insert a value under `key`, returning the value previously stored
    /// under that same key, if any. An entry stored under the same slot
    /// with another generation (a stale key) is evicted.
    pub fn insert(&mut self, key: LinkedListIndex, value: V) -> (r: Option<V>)
        ensures
            r == (if old(self)@.dom().contains(key) {
                Some(old(self)@[key])
            } else {
                None::<V>
            }),
            final(self)@.dom().contains(key),
            final(self)@[key] == value,
            forall|k: LinkedListIndex|
                #[trigger] final(self)@.dom().contains(k) && k != key ==> old(
                    self,
                )@.dom().contains(k) && final(self)@[k] == old(self)@[k],
            forall|k: LinkedListIndex|
                #[trigger] old(self)@.dom().contains(k) && k != key && !Self::shadows(k, key)
                    ==> final(self)@.dom().contains(k),
    {
        let old_entry = self.inner.insert(key.slot, (key.generation, value));
        match old_entry {
            Some(entry) => {
                if entry.0 == key.generation {
                    Some(entry.1)
                } else {
                    None
                }
            },
            None => None,
        }
    }

    /// Borrow the value stored under `key`, or `None` if nothing is stored
    /// under it (in particular if the key is stale).
    pub fn get(&self, key: LinkedListIndex) -> (r: Option<&V>)
        ensures
            match r {
                Some(v) => self@.dom().contains(key) && *v == self@[key],
                None => !self@.dom().contains(key),
            },
    {
        match self.inner.get(&key.slot) {
            Some(entry) => {
                if entry.0 == key.generation {
                    Some(&entry.1)
                } else {
                    None
                }
            },
            None => None,
        }
    }
}

impl<V> View for SparseSecondaryMap<V> {
    type V = Map<LinkedListIndex, V>;

    /// The map viewed as a partial map from handles to associated values.
    closed spec fn view(&self) -> Map<LinkedListIndex, V> {
        Map::new(
            |h: LinkedListIndex| self.valid_key(h),
            |h: LinkedListIndex| self.inner@[h.slot].1,
        )
    }
}

/// The handles with slot position below `k` that resolve against `s`.
spec fn valid_below<T>(s: Seq<Slot<T>>, k: int) -> Set<LinkedListIndex> {
    Set::new(
        |h: LinkedListIndex|
            h.slot < k && h.slot < s.len() && s[h.slot as int].generation == h.generation
                && s[h.slot as int].value is Some,
    )
}

proof fn lemma_valid_below_card<T>(s: Seq<Slot<T>>, k: int)
    requires
        0 <= k <= s.len(),
        s.len() <= usize::MAX,
    ensures
        valid_below(s, k).finite(),
        valid_below(s, k).len() == occupied_count(s.subrange(0, k)),
    decreases k,
{
    if k == 0 {
        assert(valid_below(s, 0) =~= Set::<LinkedListIndex>::empty());
        assert(s.subrange(0, 0) =~= Seq::<Slot<T>>::empty());
    } else {
        lemma_valid_below_card(s, k - 1);
        assert(s.subrange(0, k).drop_last() =~= s.subrange(0, k - 1));
        if s[k - 1].value is Some {
            let h = LinkedListIndex { slot: (k - 1) as usize, generation: s[k - 1].generation };
            assert(h.slot == k - 1);
            assert(valid_below(s, k) =~= valid_below(s, k - 1).insert(h));
            assert(!valid_below(s, k - 1).contains(h));
        } else {
            assert(valid_below(s, k) =~= valid_below(s, k - 1));
        }
    }
}

/// `len` is honest: the live count equals the number of handles that
/// currently resolve.
pub proof fn lemma_len_is_dom_size<T>(a: &Arena<T>)
    requires
        a.wf(),
    ensures
        a@.dom().finite(),
        a@.dom().len() == a.spec_len(),
{
    assert(a.slots@.len() <= usize::MAX) by {
        assert(a.slots.len() == a.slots@.len());
    }
    lemma_valid_below_card(a.slots@, a.slots@.len() as int);
    assert(a.slots@.subrange(0, a.slots@.len() as int) =~= a.slots@);
    assert(valid_below(a.slots@, a.slots@.len() as int) =~= a@.dom());
}

/// The live count is a machine word, so it never exceeds `usize::MAX`.
pub proof fn lemma_len_bound<T>(a: &Arena<T>)
    ensures
        a.spec_len() <= usize::MAX,
{
}

/// A handle that was freed never resolves again, whatever was inserted
/// since: the arena's ABA guarantee.
pub proof fn lemma_retired_never_live<T>(a: &Arena<T>)
    requires
        a.wf(),
    ensures
        forall|h: LinkedListIndex| a.retired().contains(h) ==> !a@.dom().contains(h),
{
}

} // verus!
