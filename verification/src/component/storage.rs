//! Storages holding all components of one kind, indexed by entity slot id.
use vstd::prelude::*;
use dense_bitset::BitSet;
use crate::component::bitset::{bitset_contents, bitset_get, bitset_insert, bitset_new, bitset_remove};

verus! {

/// `x` is a power of two.
pub open spec fn is_power_of_two(x: nat) -> bool
    decreases x,
{
    if x == 1 {
        true
    } else if x == 0 || x % 2 == 1 {
        false
    } else {
        is_power_of_two(x / 2)
    }
}

/// `r` is the smallest power of two that is at least `n`.
pub open spec fn is_next_power_of_two(n: nat, r: nat) -> bool {
    &&& is_power_of_two(r)
    &&& n <= r
    &&& (r == 1 || r / 2 < n)
}

/// Returns the smallest power of two greater than or equal to `n`.
pub fn next_power_of_two(n: usize) -> (r: usize)
    requires
        n <= usize::MAX / 2 + 1,
    ensures
        is_next_power_of_two(n as nat, r as nat),
{
    let mut p: usize = 1;
    while p < n
        invariant
            n <= usize::MAX / 2 + 1,
            p >= 1,
            is_power_of_two(p as nat),
            p == 1 || p / 2 < n,
        decreases usize::MAX - p,
    {
        p = p * 2;
        assert(is_power_of_two(p as nat));
    }
    p
}

/// The padding to put after a value of `size` bytes so that the next value starts at a multiple
/// of `align`, which, as the alignment of a memory layout, is a power of two.
pub fn padding_needed_for(size: usize, align: usize) -> (r: usize)
    requires
        is_power_of_two(align as nat),
    ensures
        r == (align - size % align) % (align as int),
        r < align,
        (size + r) % (align as int) == 0,
{
    assert(align > 0) by {
        reveal_with_fuel(is_power_of_two, 1);
    }
    let rem = size % align;
    let r: usize = if rem == 0 {
        0
    } else {
        align - rem
    };
    assert((align - rem) % (align as int) == r && (size + r) % (align as int) == 0) by (nonlinear_arith)
        requires
            align > 0,
            rem == size % align,
            rem == 0 ==> r == 0,
            rem != 0 ==> r == align - rem,
    {
        let q = size / align;
        assert(size == q * align + rem);
        if rem == 0 {
            assert(align % align == 0);
            assert((q * align) % (align as int) == 0);
        } else {
            assert(size + r == (q + 1) * align);
            assert(((q + 1) * align) % (align as int) == 0);
        }
    }
    r
}

/// The kinds of storage that a component kind can use.
#[derive(Debug, Clone, Copy, PartialEq, Eq, Structural)]
pub enum StorageType {
    VecStorage,
}

/// A storage that keeps the component of slot `i` at position `i` of a growable array. The
/// array's length is zero or a power of two, and a bitset records which positions are occupied.
#[derive(Debug)]
pub struct VecStorage<V> {
    occupied: BitSet,
    items: Vec<Option<V>>,
}

impl<V> View for VecStorage<V> {
    type V = Map<usize, V>;

    /// The component stored for each occupied slot.
    closed spec fn view(&self) -> Map<usize, V> {
        Map::new(
            |i: usize| (i as int) < self.items@.len() && self.items@[i as int] is Some,
            |i: usize| self.items@[i as int]->0,
        )
    }
}

impl<V> VecStorage<V> {
    /// The number of slots the storage has room for without growing.
    pub closed spec fn capacity(&self) -> nat {
        self.items@.len()
    }

    /// The bitset marks exactly the occupied positions, and the capacity is zero or a power of
    /// two.
    pub closed spec fn wf(&self) -> bool {
        &&& forall|i: usize|
            #[trigger] bitset_contents(self.occupied).contains(i) <==> ((i as int) < self.items@.len()
                && self.items@[i as int] is Some)
        &&& (self.items@.len() == 0 || is_power_of_two(self.items@.len()))
    }

    /// Creates an empty storage.
    pub fn new() -> (s: Self)
        ensures
            s.wf(),
            s@ == Map::<usize, V>::empty(),
            s.capacity() == 0,
    {
        let s = VecStorage { occupied: bitset_new(), items: Vec::new() };
        assert(s@ =~= Map::<usize, V>::empty());
        s
    }

    /// Grows the storage so that it has room for at least `cap` slots.
    fn ensure_capacity(&mut self, cap: usize)
        requires
            old(self).wf(),
            cap <= usize::MAX / 2 + 1,
        ensures
            final(self).wf(),
            final(self)@ == old(self)@,
            old(self).capacity() >= cap ==> final(self).capacity() == old(self).capacity(),
            old(self).capacity() < cap ==> is_next_power_of_two(cap as nat, final(self).capacity()),
    {
        if self.items.len() >= cap {
            return;
        }
        let new_cap = next_power_of_two(cap);
        let ghost old_items = self.items@;
        while self.items.len() < new_cap
            invariant
                old_items.len() <= self.items@.len() <= new_cap,
                forall|i: int| 0 <= i < old_items.len() ==> self.items@[i] == old_items[i],
                forall|i: int| old_items.len() <= i < self.items@.len() ==> self.items@[i] is None,
                self.occupied == old(self).occupied,
                old_items == old(self).items@,
                old(self).wf(),
            decreases new_cap - self.items@.len(),
        {
            self.items.push(None);
        }
        assert(self@ =~= old(self)@);
    }

    /// Stores `value` for slot `index`, dropping the component that was there. Returns `true` if
    /// the slot had no component before.
    pub fn set(&mut self, index: usize, value: V) -> (added: bool)
        requires
            old(self).wf(),
            index <= usize::MAX / 2,
        ensures
            final(self).wf(),
            final(self)@ == old(self)@.insert(index, value),
            added == !old(self)@.contains_key(index),
            index < old(self).capacity() ==> final(self).capacity() == old(self).capacity(),
            index >= old(self).capacity() ==> is_next_power_of_two(
                index as nat + 1,
                final(self).capacity(),
            ),
    {
        self.ensure_capacity(index + 1);
        assert(index < self.capacity());
        let previous = self.remove(index);
        let ghost mid = self@;
        let ghost mid_items = self.items@;
        assert(mid == old(self)@.remove(index));
        self.items.set(index, Some(value));
        assert(self.items@ == mid_items.update(index as int, Some(value)));
        assert(self@.contains_key(index));
        assert(self@[index] == value);
        assert forall|i: usize| i != index implies self@.contains_key(i) == mid.contains_key(i) && (
        self@.contains_key(i) ==> self@[i] == mid[i]) by {
            if (i as int) < self.items@.len() {
                assert(self.items@[i as int] == mid_items[i as int]);
            }
        }
        assert(self@ =~= mid.insert(index, value));
        bitset_insert(&mut self.occupied, index);
        assert(self@ =~= old(self)@.insert(index, value));
        previous.is_none()
    }

    /// Takes the component of slot `index` out of the storage, if there is one.
    pub fn remove(&mut self, index: usize) -> (r: Option<V>)
        requires
            old(self).wf(),
        ensures
            final(self).wf(),
            final(self)@ == old(self)@.remove(index),
            final(self).capacity() == old(self).capacity(),
            r == (if old(self)@.contains_key(index) { Some(old(self)@[index]) } else { None::<V> }),
    {
        if !bitset_get(&self.occupied, index) {
            assert(self@ =~= old(self)@.remove(index));
            return None;
        }
        let r = self.items[index].take();
        bitset_remove(&mut self.occupied, index);
        assert(self@ =~= old(self)@.remove(index));
        r
    }

    /// Drops the component of slot `index`. Returns `true` if there was one.
    pub fn unset(&mut self, index: usize) -> (removed: bool)
        requires
            old(self).wf(),
        ensures
            final(self).wf(),
            final(self)@ == old(self)@.remove(index),
            final(self).capacity() == old(self).capacity(),
            removed == old(self)@.contains_key(index),
    {
        self.remove(index).is_some()
    }

    /// The component of slot `index`, if there is one.
    pub fn get(&self, index: usize) -> (r: Option<&V>)
        requires
            self.wf(),
        ensures
            r == (if self@.contains_key(index) { Some(&self@[index]) } else { None::<&V> }),
    {
        if bitset_get(&self.occupied, index) {
            self.items[index].as_ref()
        } else {
            None
        }
    }

    /// The component of slot `index`, if there is one, for modification.
    pub fn get_mut(&mut self, index: usize) -> (r: Option<&mut V>)
        requires
            old(self).wf(),
        ensures
            r is Some <==> old(self)@.contains_key(index),
            r matches Some(x) ==> *x == old(self)@[index] && final(self)@ == old(self)@.insert(
                index,
                *final(x),
            ) && final(self).wf() && final(self).capacity() == old(self).capacity(),
            r is None ==> *final(self) == *old(self),
    {
        if bitset_get(&self.occupied, index) {
            self.items[index].as_mut()
        } else {
            None
        }
    }
}


/// The storage of one kind of component.
#[derive(Debug)]
pub enum Storage<V> {
    VecStorage(VecStorage<V>),
}

impl<V> View for Storage<V> {
    type V = Map<usize, V>;

    /// The component stored for each occupied slot.
    closed spec fn view(&self) -> Map<usize, V> {
        match self {
            Storage::VecStorage(s) => s@,
        }
    }
}

impl<V> Storage<V> {
    /// The storage is internally consistent.
    pub closed spec fn wf(&self) -> bool {
        match self {
            Storage::VecStorage(s) => s.wf(),
        }
    }

    /// Creates an empty storage of the given type.
    pub fn new(storage_type: StorageType) -> (s: Self)
        ensures
            s.wf(),
            s@ == Map::<usize, V>::empty(),
    {
        match storage_type {
            StorageType::VecStorage => Storage::VecStorage(VecStorage::new()),
        }
    }

    /// Stores `value` for slot `index`, dropping the component that was there. Returns `true` if
    /// the slot had no component before.
    pub fn set(&mut self, index: usize, value: V) -> (added: bool)
        requires
            old(self).wf(),
            index <= usize::MAX / 2,
        ensures
            final(self).wf(),
            final(self)@ == old(self)@.insert(index, value),
            added == !old(self)@.contains_key(index),
    {
        match self {
            Storage::VecStorage(s) => s.set(index, value),
        }
    }

    /// Takes the component of slot `index` out of the storage, if there is one.
    pub fn remove(&mut self, index: usize) -> (r: Option<V>)
        requires
            old(self).wf(),
        ensures
            final(self).wf(),
            final(self)@ == old(self)@.remove(index),
            r == (if old(self)@.contains_key(index) { Some(old(self)@[index]) } else { None::<V> }),
    {
        match self {
            Storage::VecStorage(s) => s.remove(index),
        }
    }

    /// Drops the component of slot `index`. Returns `true` if there was one.
    pub fn unset(&mut self, index: usize) -> (removed: bool)
        requires
            old(self).wf(),
        ensures
            final(self).wf(),
            final(self)@ == old(self)@.remove(index),
            removed == old(self)@.contains_key(index),
    {
        match self {
            Storage::VecStorage(s) => s.unset(index),
        }
    }

    /// The component of slot `index`, if there is one.
    pub fn get(&self, index: usize) -> (r: Option<&V>)
        requires
            self.wf(),
        ensures
            r == (if self@.contains_key(index) { Some(&self@[index]) } else { None::<&V> }),
    {
        match self {
            Storage::VecStorage(s) => s.get(index),
        }
    }

    /// The component of slot `index`, if there is one, for modification.
    pub fn get_mut(&mut self, index: usize) -> (r: Option<&mut V>)
        requires
            old(self).wf(),
        ensures
            r is Some <==> old(self)@.contains_key(index),
            r matches Some(x) ==> *x == old(self)@[index] && final(self)@ == old(self)@.insert(
                index,
                *final(x),
            ) && final(self).wf(),
            r is None ==> *final(self) == *old(self),
    {
        match self {
            Storage::VecStorage(s) => s.get_mut(index),
        }
    }
}

} // verus!
