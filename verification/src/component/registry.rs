use vstd::prelude::*;
use std::collections::HashMap;
use crate::component::storage::{Storage, StorageType};

verus! {

broadcast use vstd::std_specs::hash::group_hash_axioms;

/// Identifies a kind of component registered in a `ComponentRegistry`: its position in the
/// registry.
#[derive(Debug, Clone, Copy, PartialEq, Eq, Structural, Hash)]
pub struct ComponentId(u16);

impl ComponentId {
    /// The position of this kind of component in its registry.
    pub closed spec fn index(self) -> nat {
        self.0 as nat
    }

    /// Two kinds of components at the same position are the same.
    pub proof fn lemma_index_injective(a: ComponentId, b: ComponentId)
        requires
            a.index() == b.index(),
        ensures
            a == b,
    {
    }

    /// The position of this kind of component in its registry.
    pub fn as_index(self) -> (i: usize)
        ensures
            i == self.index(),
    {
        self.0 as usize
    }
}

/// Basic metadata about a kind of component.
#[derive(Debug, PartialEq, Eq)]
pub struct ComponentInfo {
    name: String,
    type_key: Option<u64>,
}

impl ComponentInfo {
    /// The name of the kind of component.
    pub closed spec fn spec_name(&self) -> Seq<char> {
        self.name@
    }

    /// The key of the Rust type that this kind of component was registered for, if any.
    pub closed spec fn spec_type_key(&self) -> Option<u64> {
        self.type_key
    }

    pub fn name(&self) -> (r: &str)
        ensures
            r@ == self.spec_name(),
    {
        self.name.as_str()
    }

    pub fn type_key(&self) -> (r: Option<u64>)
        ensures
            r == self.spec_type_key(),
    {
        self.type_key
    }
}

/// A kind of components registered in a `ComponentRegistry`. Includes both metadata about the kind
/// of component and all the components of this kind.
#[derive(Debug)]
pub struct ComponentEntry<V> {
    pub info: ComponentInfo,
    pub storage: Storage<V>,
}

impl<V> ComponentEntry<V> {
    pub fn new(info: ComponentInfo, storage: Storage<V>) -> (e: Self)
        ensures
            e.info == info,
            e.storage == storage,
    {
        Self { info, storage }
    }
}

/// How a kind of component is currently lent out to queries.
#[derive(Debug, Clone, Copy, PartialEq, Eq, Structural)]
pub enum BorrowState {
    Unborrowed,
    Shared(usize),
    Exclusive,
}

/// A borrow of the requested kind can be granted in state `s`.
pub open spec fn borrow_allowed(s: BorrowState, mutable: bool) -> bool {
    match s {
        BorrowState::Unborrowed => true,
        BorrowState::Shared(_) => !mutable,
        BorrowState::Exclusive => false,
    }
}

/// The state after a borrow of the requested kind is granted in state `s`.
pub open spec fn borrowed(s: BorrowState, mutable: bool) -> BorrowState {
    if mutable {
        BorrowState::Exclusive
    } else {
        match s {
            BorrowState::Shared(n) => BorrowState::Shared((n + 1) as usize),
            _ => BorrowState::Shared(1),
        }
    }
}

/// The state after a borrow of the requested kind is given back in state `s`.
pub open spec fn released(s: BorrowState, mutable: bool) -> BorrowState {
    if mutable {
        BorrowState::Unborrowed
    } else {
        match s {
            BorrowState::Shared(n) => if n <= 1 {
                BorrowState::Unborrowed
            } else {
                BorrowState::Shared((n - 1) as usize)
            },
            _ => s,
        }
    }
}

/// A registry for different kinds of components. Includes both metadata about the kinds of
/// components and all components themselves.
#[derive(Debug)]
pub struct ComponentRegistry<V> {
    // Indexed by ComponentId's
    entries: Vec<ComponentEntry<V>>,
    borrows: Vec<BorrowState>,
    rust_types: HashMap<u64, ComponentId>,
}


/// Internal consistency of a registry made of these entries, borrow states and type keys.
spec fn parts_wf<V>(
    entries: Seq<ComponentEntry<V>>,
    borrows: Seq<BorrowState>,
    rust_types: Map<u64, ComponentId>,
) -> bool {
    &&& entries.len() == borrows.len()
    &&& entries.len() <= u16::MAX as nat + 1
    &&& forall|i: int| 0 <= i < entries.len() ==> (#[trigger] entries[i]).storage.wf()
    &&& forall|i: int|
        0 <= i < borrows.len() ==> (#[trigger] borrows[i] matches BorrowState::Shared(n) ==> n >= 1)
    &&& forall|k: u64|
        #[trigger] rust_types.contains_key(k) ==> {
            &&& rust_types[k].index() < entries.len()
            &&& entries[rust_types[k].index() as int].info.type_key == Some(k)
        }
    &&& forall|i: int|
        0 <= i < entries.len() && (#[trigger] entries[i]).info.type_key is Some ==> {
            &&& rust_types.contains_key(entries[i].info.type_key->0)
            &&& rust_types[entries[i].info.type_key->0].index() == i
        }
}

impl<V> ComponentRegistry<V> {
    /// The number of registered kinds of components.
    pub closed spec fn spec_len(&self) -> nat {
        self.entries@.len()
    }

    /// `id` names a registered kind of component.
    pub open spec fn contains(&self, id: ComponentId) -> bool {
        id.index() < self.spec_len()
    }

    /// The metadata of the `i`-th kind of component.
    pub closed spec fn info(&self, i: int) -> ComponentInfo {
        self.entries@[i].info
    }

    /// The components of the `i`-th kind, by entity slot.
    pub closed spec fn storage(&self, i: int) -> Map<usize, V> {
        self.entries@[i].storage@
    }

    /// How the `i`-th kind of component is currently lent out.
    pub closed spec fn borrow_state(&self, i: int) -> BorrowState {
        self.borrows@[i]
    }

    /// How every kind of component is currently lent out, by position.
    pub open spec fn borrow_states(&self) -> Seq<BorrowState> {
        Seq::new(self.spec_len(), |i: int| self.borrow_state(i))
    }

    /// The registered type keys and the kinds of components they map to.
    pub closed spec fn keys(&self) -> Map<u64, ComponentId> {
        self.rust_types@
    }

    /// Internal consistency of the registry.
    pub closed spec fn wf(&self) -> bool {
        parts_wf(self.entries@, self.borrows@, self.rust_types@)
    }

    /// `other` agrees with `self` in everything but the components of kind `id`.
    pub open spec fn same_except_storage(self, other: Self, id: int) -> bool {
        &&& other.spec_len() == self.spec_len()
        &&& other.keys() == self.keys()
        &&& forall|j: int|
            0 <= j < self.spec_len() ==> #[trigger] other.info(j) == self.info(j) && other.borrow_state(j)
                == self.borrow_state(j)
        &&& forall|j: int| 0 <= j < self.spec_len() && j != id ==> #[trigger] other.storage(j) == self.storage(j)
    }

    /// In a consistent registry every registered type key maps to a registered kind that was
    /// registered for that key, and every kind registered for a key is found under it.
    pub proof fn lemma_keys_valid(&self)
        requires
            self.wf(),
        ensures
            forall|k: u64|
                #[trigger] self.keys().contains_key(k) ==> self.keys()[k].index() < self.spec_len()
                    && self.info(self.keys()[k].index() as int).spec_type_key() == Some(k),
            forall|i: int|
                0 <= i < self.spec_len() && (#[trigger] self.info(i)).spec_type_key() is Some ==> {
                    &&& self.keys().contains_key(self.info(i).spec_type_key()->0)
                    &&& self.keys()[self.info(i).spec_type_key()->0].index() == i
                },
    {
    }

    /// In a consistent registry every shared borrow is counted at least once.
    pub proof fn lemma_shared_positive(&self)
        requires
            self.wf(),
        ensures
            forall|i: int|
                0 <= i < self.borrow_states().len() ==> (#[trigger] self.borrow_states()[i] matches BorrowState::Shared(n)
                    ==> n >= 1),
    {
    }

    /// The first `n` kinds of components of `other` are those of `self`, with the same components
    /// and borrow states.
    pub open spec fn kinds_kept(self, other: Self, n: nat) -> bool {
        forall|j: int|
            0 <= j < n ==> #[trigger] other.info(j) == self.info(j) && other.storage(j) == self.storage(j)
                && other.borrow_state(j) == self.borrow_state(j)
    }

    /// Creates an empty registry.
    pub fn new() -> (r: Self)
        ensures
            r.wf(),
            r.spec_len() == 0,
            r.keys() == Map::<u64, ComponentId>::empty(),
    {
        ComponentRegistry { entries: Vec::new(), borrows: Vec::new(), rust_types: HashMap::new() }
    }

    /// The number of registered kinds of components.
    pub fn len(&self) -> (n: usize)
        ensures
            n == self.spec_len(),
    {
        self.entries.len()
    }

    /// Registers a new kind of component named `name`, for the Rust type with key `type_key` if
    /// there is one. A type key must not be registered twice in the same registry.
    pub fn register_raw(&mut self, type_key: Option<u64>, name: String) -> (id: ComponentId)
        requires
            old(self).wf(),
            old(self).spec_len() <= u16::MAX,
            type_key matches Some(k) ==> !old(self).keys().contains_key(k),
        ensures
            final(self).wf(),
            id.index() == old(self).spec_len(),
            final(self).spec_len() == old(self).spec_len() + 1,
            final(self).info(id.index() as int).spec_name() == name@,
            final(self).info(id.index() as int).spec_type_key() == type_key,
            final(self).storage(id.index() as int) == Map::<usize, V>::empty(),
            final(self).borrow_state(id.index() as int) == BorrowState::Unborrowed,
            final(self).keys() == (match type_key {
                Some(k) => old(self).keys().insert(k, id),
                None => old(self).keys(),
            }),
            old(self).kinds_kept(*final(self), old(self).spec_len()),
    {
        let id = ComponentId(self.entries.len() as u16);
        let info = ComponentInfo { name, type_key };
        let storage = Storage::new(StorageType::VecStorage);
        self.entries.push(ComponentEntry::new(info, storage));
        self.borrows.push(BorrowState::Unborrowed);
        match type_key {
            Some(k) => {
                self.rust_types.insert(k, id);
            },
            None => {},
        }
        proof {
            let n = old(self).entries@.len();
            assert(self.entries@[n as int].info.type_key == type_key);
            assert forall|k: u64| #[trigger] self.rust_types@.contains_key(k) implies {
                &&& self.rust_types@[k].index() < self.entries@.len()
                &&& self.entries@[self.rust_types@[k].index() as int].info.type_key == Some(k)
            } by {
                if type_key != Some(k) {
                    assert(old(self).rust_types@.contains_key(k));
                }
            }
            assert forall|i: int|
                0 <= i < self.entries@.len() && (#[trigger] self.entries@[i]).info.type_key is Some implies {
                &&& self.rust_types@.contains_key(self.entries@[i].info.type_key->0)
                &&& self.rust_types@[self.entries@[i].info.type_key->0].index() == i
            } by {
                if i < n {
                    assert(self.entries@[i] == old(self).entries@[i]);
                    let k = self.entries@[i].info.type_key->0;
                    assert(old(self).rust_types@.contains_key(k));
                }
            }
        }
        id
    }

    /// The kind of component registered for the Rust type with key `type_key`, if any.
    pub fn id_for_key(&self, type_key: u64) -> (r: Option<ComponentId>)
        requires
            self.wf(),
        ensures
            r == (if self.keys().contains_key(type_key) {
                Some(self.keys()[type_key])
            } else {
                None::<ComponentId>
            }),
    {
        match self.rust_types.get(&type_key) {
            Some(id) => Some(*id),
            None => None,
        }
    }

    /// The entry of the kind of component registered for the Rust type with key `type_key`, if any.
    pub fn component_for_key(&self, type_key: u64) -> (r: Option<&ComponentEntry<V>>)
        requires
            self.wf(),
        ensures
            r is Some <==> self.keys().contains_key(type_key),
            r matches Some(e) ==> {
                &&& e.info == self.info(self.keys()[type_key].index() as int)
                &&& e.storage@ == self.storage(self.keys()[type_key].index() as int)
            },
    {
        proof {
            self.lemma_keys_valid();
        }
        match self.id_for_key(type_key) {
            Some(id) => Some(self.entry(id)),
            None => None,
        }
    }

    /// The entry of the kind of component `id`.
    pub fn entry(&self, id: ComponentId) -> (e: &ComponentEntry<V>)
        requires
            self.wf(),
            self.contains(id),
        ensures
            e.info == self.info(id.index() as int),
            e.storage@ == self.storage(id.index() as int),
            e.storage.wf(),
    {
        &self.entries[id.0 as usize]
    }
}


impl<V> ComponentRegistry<V> {
    /// Replacing the entry at `i` by one with the same metadata and a consistent storage keeps
    /// the registry consistent.
    proof fn lemma_entry_update(self, i: int)
        requires
            self.wf(),
            0 <= i < self.entries@.len(),
        ensures
            forall|e: ComponentEntry<V>|
                e.info == self.entries@[i].info && e.storage.wf() ==> #[trigger] parts_wf(
                    self.entries@.update(i, e),
                    self.borrows@,
                    self.rust_types@,
                ),
    {
        assert forall|e: ComponentEntry<V>|
            e.info == self.entries@[i].info && e.storage.wf() implies #[trigger] parts_wf(
            self.entries@.update(i, e),
            self.borrows@,
            self.rust_types@,
        ) by {
            let es = self.entries@.update(i, e);
            assert forall|j: int| 0 <= j < es.len() implies (#[trigger] es[j]).storage.wf() by {
                if j != i {
                    assert(es[j] == self.entries@[j]);
                }
            }
            assert forall|k: u64| #[trigger] self.rust_types@.contains_key(k) implies {
                &&& self.rust_types@[k].index() < es.len()
                &&& es[self.rust_types@[k].index() as int].info.type_key == Some(k)
            } by {
                let j = self.rust_types@[k].index() as int;
                if j != i {
                    assert(es[j] == self.entries@[j]);
                }
            }
            assert forall|j: int|
                0 <= j < es.len() && (#[trigger] es[j]).info.type_key is Some implies {
                &&& self.rust_types@.contains_key(es[j].info.type_key->0)
                &&& self.rust_types@[es[j].info.type_key->0].index() == j
            } by {
                if j != i {
                    assert(es[j] == self.entries@[j]);
                }
            }
        }
    }

    /// Stores `value` as the component of kind `id` of slot `index`. Returns `true` if the slot
    /// had no such component before.
    pub fn set(&mut self, id: ComponentId, index: usize, value: V) -> (added: bool)
        requires
            old(self).wf(),
            old(self).contains(id),
            index <= usize::MAX / 2,
        ensures
            final(self).wf(),
            old(self).same_except_storage(*final(self), id.index() as int),
            final(self).storage(id.index() as int) == old(self).storage(id.index() as int).insert(
                index,
                value,
            ),
            added == !old(self).storage(id.index() as int).contains_key(index),
    {
        let i = id.0 as usize;
        proof {
            self.lemma_entry_update(i as int);
        }
        let added = self.entries[i].storage.set(index, value);
        added
    }

    /// Takes the component of kind `id` of slot `index` out of the registry, if there is one.
    pub fn remove(&mut self, id: ComponentId, index: usize) -> (r: Option<V>)
        requires
            old(self).wf(),
            old(self).contains(id),
        ensures
            final(self).wf(),
            old(self).same_except_storage(*final(self), id.index() as int),
            final(self).storage(id.index() as int) == old(self).storage(id.index() as int).remove(
                index,
            ),
            r == (if old(self).storage(id.index() as int).contains_key(index) {
                Some(old(self).storage(id.index() as int)[index])
            } else {
                None::<V>
            }),
    {
        let i = id.0 as usize;
        proof {
            self.lemma_entry_update(i as int);
        }
        let r = self.entries[i].storage.remove(index);
        r
    }

    /// Drops the components of every kind of slot `index`.
    pub fn unset_all(&mut self, index: usize)
        requires
            old(self).wf(),
        ensures
            final(self).wf(),
            final(self).spec_len() == old(self).spec_len(),
            final(self).keys() == old(self).keys(),
            forall|j: int|
                0 <= j < old(self).spec_len() ==> #[trigger] final(self).info(j) == old(self).info(j)
                    && final(self).borrow_state(j) == old(self).borrow_state(j) && final(self).storage(j)
                    == old(self).storage(j).remove(index),
    {
        let n = self.entries.len();
        let mut i: usize = 0;
        while i < n
            invariant
                self.wf(),
                n == self.spec_len(),
                n == old(self).spec_len(),
                i <= n,
                self.keys() == old(self).keys(),
                forall|j: int|
                    0 <= j < n ==> #[trigger] self.info(j) == old(self).info(j) && self.borrow_state(j)
                        == old(self).borrow_state(j),
                forall|j: int| 0 <= j < i ==> #[trigger] self.storage(j) == old(self).storage(j).remove(index),
                forall|j: int| i <= j < n ==> #[trigger] self.storage(j) == old(self).storage(j),
            decreases n - i,
        {
            proof {
                self.lemma_entry_update(i as int);
            }
            let ghost pre = *self;
            self.entries[i].storage.unset(index);
            proof {
                assert(self.entries@[i as int].info == pre.entries@[i as int].info);
                assert(self.borrows@ == pre.borrows@);
                assert forall|j: int| 0 <= j < n implies #[trigger] self.info(j) == old(self).info(j)
                    && self.borrow_state(j) == old(self).borrow_state(j) by {
                    assert(pre.info(j) == old(self).info(j));
                    assert(pre.borrow_state(j) == old(self).borrow_state(j));
                    if j != i {
                        assert(self.entries@[j] == pre.entries@[j]);
                    }
                }
                assert forall|j: int| 0 <= j < i + 1 implies #[trigger] self.storage(j) == old(self).storage(j).remove(index) by {
                    if j != i {
                        assert(pre.storage(j) == old(self).storage(j).remove(index));
                        assert(self.entries@[j] == pre.entries@[j]);
                    } else {
                        assert(pre.storage(j) == old(self).storage(j));
                    }
                }
                assert forall|j: int| i + 1 <= j < n implies #[trigger] self.storage(j) == old(self).storage(j) by {
                    assert(pre.storage(j) == old(self).storage(j));
                    assert(self.entries@[j] == pre.entries@[j]);
                }
            }
            i = i + 1;
        }
    }

    /// The component of kind `id` of slot `index`, if there is one.
    pub fn get(&self, id: ComponentId, index: usize) -> (r: Option<&V>)
        requires
            self.wf(),
            self.contains(id),
        ensures
            r == (if self.storage(id.index() as int).contains_key(index) {
                Some(&self.storage(id.index() as int)[index])
            } else {
                None::<&V>
            }),
    {
        self.entries[id.0 as usize].storage.get(index)
    }

    /// The component of kind `id` of slot `index`, if there is one, for modification.
    pub fn get_mut(&mut self, id: ComponentId, index: usize) -> (r: Option<&mut V>)
        requires
            old(self).wf(),
            old(self).contains(id),
        ensures
            r is Some <==> old(self).storage(id.index() as int).contains_key(index),
            r matches Some(x) ==> {
                &&& *x == old(self).storage(id.index() as int)[index]
                &&& final(self).wf()
                &&& old(self).same_except_storage(*final(self), id.index() as int)
                &&& final(self).storage(id.index() as int) == old(self).storage(id.index() as int).insert(
                    index,
                    *final(x),
                )
            },
            r is None ==> {
                &&& final(self).wf()
                &&& old(self).same_except_storage(*final(self), id.index() as int)
                &&& final(self).storage(id.index() as int) == old(self).storage(id.index() as int)
            },
    {
        let i = id.0 as usize;
        proof {
            self.lemma_entry_update(i as int);
        }
        self.entries[i].storage.get_mut(index)
    }
}


impl<V> ComponentRegistry<V> {
    /// `other` agrees with `self` in everything but how kind `id` is lent out.
    pub open spec fn same_except_borrow(self, other: Self, id: int) -> bool {
        &&& other.spec_len() == self.spec_len()
        &&& other.keys() == self.keys()
        &&& forall|j: int|
            0 <= j < self.spec_len() ==> #[trigger] other.info(j) == self.info(j) && other.storage(j)
                == self.storage(j)
        &&& forall|j: int|
            0 <= j < self.spec_len() && j != id ==> #[trigger] other.borrow_state(j) == self.borrow_state(j)
    }

    /// The shared-borrow counter of kind `id` can still grow.
    pub open spec fn can_count_borrow(&self, id: ComponentId) -> bool {
        self.borrow_state(id.index() as int) != BorrowState::Shared(usize::MAX)
    }

    /// Lends out the components of kind `id`, mutably or not, if that does not conflict with how
    /// they are currently lent out. Returns whether the borrow was granted.
    pub fn try_borrow(&mut self, id: ComponentId, mutable: bool) -> (ok: bool)
        requires
            old(self).wf(),
            old(self).contains(id),
            old(self).can_count_borrow(id),
        ensures
            final(self).wf(),
            ok == borrow_allowed(old(self).borrow_state(id.index() as int), mutable),
            ok ==> old(self).same_except_borrow(*final(self), id.index() as int),
            ok ==> final(self).borrow_state(id.index() as int) == borrowed(
                old(self).borrow_state(id.index() as int),
                mutable,
            ),
            !ok ==> *final(self) == *old(self),
    {
        let i = id.0 as usize;
        let state = self.borrows[i];
        let next = match state {
            BorrowState::Unborrowed => if mutable {
                BorrowState::Exclusive
            } else {
                BorrowState::Shared(1)
            },
            BorrowState::Shared(n) => if mutable {
                return false;
            } else {
                BorrowState::Shared(n + 1)
            },
            BorrowState::Exclusive => {
                return false;
            },
        };
        self.borrows.set(i, next);
        proof {
            assert forall|j: int| 0 <= j < self.spec_len() && j != i implies #[trigger] self.borrow_state(j)
                == old(self).borrow_state(j) by {}
        }
        true
    }

    /// Gives back a borrow of the components of kind `id` that was granted by `try_borrow`.
    pub fn release(&mut self, id: ComponentId, mutable: bool)
        requires
            old(self).wf(),
            old(self).contains(id),
            mutable ==> old(self).borrow_state(id.index() as int) == BorrowState::Exclusive,
            !mutable ==> old(self).borrow_state(id.index() as int) is Shared,
        ensures
            final(self).wf(),
            old(self).same_except_borrow(*final(self), id.index() as int),
            final(self).borrow_state(id.index() as int) == released(
                old(self).borrow_state(id.index() as int),
                mutable,
            ),
    {
        let i = id.0 as usize;
        let next = if mutable {
            BorrowState::Unborrowed
        } else {
            match self.borrows[i] {
                BorrowState::Shared(n) => if n <= 1 {
                    BorrowState::Unborrowed
                } else {
                    BorrowState::Shared(n - 1)
                },
                other => other,
            }
        };
        self.borrows.set(i, next);
    }

    /// Returns `true` if no kind of component is lent out.
    pub fn nothing_borrowed(&self) -> (b: bool)
        requires
            self.wf(),
        ensures
            b == forall|j: int| 0 <= j < self.spec_len() ==> #[trigger] self.borrow_state(j) == BorrowState::Unborrowed,
    {
        let n = self.borrows.len();
        let mut i: usize = 0;
        while i < n
            invariant
                n == self.spec_len(),
                self.wf(),
                i <= n,
                forall|j: int| 0 <= j < i ==> #[trigger] self.borrow_state(j) == BorrowState::Unborrowed,
            decreases n - i,
        {
            if self.borrows[i] != BorrowState::Unborrowed {
                assert(self.borrow_state(i as int) != BorrowState::Unborrowed);
                return false;
            }
            i = i + 1;
        }
        true
    }

    /// How every kind of component is currently lent out, by position.
    pub fn borrow_states_vec(&self) -> (v: Vec<BorrowState>)
        requires
            self.wf(),
        ensures
            v@ == self.borrow_states(),
    {
        let n = self.borrows.len();
        let mut v: Vec<BorrowState> = Vec::new();
        let mut i: usize = 0;
        while i < n
            invariant
                self.wf(),
                n == self.spec_len(),
                i <= n,
                v@.len() == i,
                forall|j: int| 0 <= j < i ==> v@[j] == self.borrow_state(j),
            decreases n - i,
        {
            v.push(self.borrows[i]);
            i = i + 1;
        }
        assert(v@ =~= self.borrow_states());
        v
    }

    /// How the kind of component `id` is currently lent out.
    pub fn borrow_of(&self, id: ComponentId) -> (s: BorrowState)
        requires
            self.wf(),
            self.contains(id),
        ensures
            s == self.borrow_state(id.index() as int),
    {
        self.borrows[id.0 as usize]
    }
}

} // verus!
