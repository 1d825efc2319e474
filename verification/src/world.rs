//! The world: entities, the registry of component kinds with their storages, and resources.
use vstd::prelude::*;
use crate::component::{BorrowState, ComponentId, ComponentRegistry};
use crate::component::registry::{borrow_allowed, borrowed, released};
use crate::query::{access_valid, ComponentQuery, Query};
use crate::error::BorrowMutError;
use crate::entity::{Entities, Entity};
use crate::commands::command::add_command_post;

verus! {

/// Identifies a resource: a kind of component that only the world's resource holder has.
#[derive(Debug, Clone, Copy, PartialEq, Eq, Structural)]
pub struct ResourceId(ComponentId);

impl ResourceId {
    /// The kind of component that holds the resource.
    pub closed spec fn spec_component_id(self) -> ComponentId {
        self.0
    }

    /// The kind of component that holds the resource.
    pub fn component_id(&self) -> (id: ComponentId)
        ensures
            id == self.spec_component_id(),
    {
        self.0
    }
}

/// `new` is `old` after `World::despawn(e)`.
pub open spec fn despawn_post<V>(old: World<V>, new: World<V>, e: Entity) -> bool {
    let despawned = old.spec_entities().spec_exists(e) && e != old.holder();
    &&& new.wf()
    &&& new.holder() == old.holder()
    &&& despawned ==> {
        &&& new.spec_entities().gens() == old.spec_entities().gens().update(
            e.slot() as int,
            (e.generation() + 1) as u32,
        )
        &&& new.spec_entities().free() == old.spec_entities().free().push(e.slot())
        &&& new.registry().spec_len() == old.registry().spec_len()
        &&& new.registry().keys() == old.registry().keys()
        &&& forall|j: int|
            0 <= j < old.registry().spec_len() ==> #[trigger] new.registry().info(j) == old.registry().info(j)
                && new.registry().borrow_state(j) == old.registry().borrow_state(j) && new.registry().storage(j)
                == old.registry().storage(j).remove(e.slot() as usize)
    }
    &&& !despawned ==> new == old
    &&& old.spec_entities().generations_grew(new.spec_entities())
    &&& forall|x: Entity| old.spec_entities().issued(x) ==> #[trigger] new.spec_entities().issued(x)
}

/// No kind of component in `reg` is lent out to a query.
pub open spec fn all_unborrowed<V>(reg: ComponentRegistry<V>) -> bool {
    forall|j: int| 0 <= j < reg.spec_len() ==> #[trigger] reg.borrow_state(j) == BorrowState::Unborrowed
}

/// Entities together with components of kinds registered at run time. Components are values of
/// type `V`; resources are components of the resource holder, an entity that is spawned with the
/// world and can never be despawned.
#[derive(Debug)]
pub struct World<V> {
    entities: Entities,
    component_registry: ComponentRegistry<V>,
    resource_holder: Entity,
}

impl<V> World<V> {
    /// The world's entities.
    pub closed spec fn spec_entities(&self) -> Entities {
        self.entities
    }

    /// The world's registry of component kinds.
    pub closed spec fn registry(&self) -> ComponentRegistry<V> {
        self.component_registry
    }

    /// The entity that holds the resources.
    pub closed spec fn holder(&self) -> Entity {
        self.resource_holder
    }

    /// Internal consistency of the world; the resource holder is always alive.
    pub open spec fn wf(&self) -> bool {
        &&& self.spec_entities().wf()
        &&& self.spec_entities().gens().len() <= usize::MAX / 2 + 1
        &&& self.registry().wf()
        &&& self.spec_entities().spec_exists(self.holder())
        &&& self.spec_entities().alive(self.holder().slot())
    }

    /// `spawn` can hand out a handle: a slot is free, or a new slot id still fits in `u32` and can
    /// index a component storage.
    pub open spec fn can_spawn(&self) -> bool {
        self.spec_entities().free().len() > 0 || (self.spec_entities().gens().len() <= u32::MAX
            && self.spec_entities().gens().len() <= usize::MAX / 2)
    }

    /// The component of kind `id` of `e`, if `e` is alive and has one.
    pub open spec fn component(&self, e: Entity, id: ComponentId) -> Option<V> {
        if self.spec_entities().spec_exists(e) && self.registry().storage(id.index() as int).contains_key(
            e.slot() as usize,
        ) {
            Some(self.registry().storage(id.index() as int)[e.slot() as usize])
        } else {
            None
        }
    }

    /// Creates a world holding nothing but its resource holder.
    pub fn new() -> (w: Self)
        ensures
            w.wf(),
            w.registry().spec_len() == 0,
            w.registry().keys() == Map::<u64, ComponentId>::empty(),
            w.spec_entities().gens() == seq![0u32],
            w.spec_entities().free() == Seq::<u32>::empty(),
            w.holder().slot() == 0,
    {
        let mut entities = Entities::new();
        let resource_holder = entities.spawn();
        World { entities, component_registry: ComponentRegistry::new(), resource_holder }
    }

    /// Get a reference to the world's entities.
    pub fn entities(&self) -> (r: &Entities)
        ensures
            *r == self.spec_entities(),
    {
        &self.entities
    }

    /// Get a reference to the world's component registry.
    pub fn component_registry(&self) -> (r: &ComponentRegistry<V>)
        ensures
            *r == self.registry(),
    {
        &self.component_registry
    }

    /// Get a mutable reference to the world's component registry.
    pub fn component_registry_mut(&mut self) -> (r: &mut ComponentRegistry<V>)
        ensures
            *r == old(self).registry(),
            final(self).registry() == *final(r),
            final(self).spec_entities() == old(self).spec_entities(),
            final(self).holder() == old(self).holder(),
    {
        &mut self.component_registry
    }

    /// The kind of component registered for the Rust type with key `type_key`, if any.
    pub fn component_id(&self, type_key: u64) -> (r: Option<ComponentId>)
        requires
            self.wf(),
        ensures
            r == (if self.registry().keys().contains_key(type_key) {
                Some(self.registry().keys()[type_key])
            } else {
                None::<ComponentId>
            }),
    {
        self.component_registry.id_for_key(type_key)
    }

    /// Creates a new entity. See `Entities::spawn`.
    pub fn spawn(&mut self) -> (e: Entity)
        requires
            old(self).wf(),
            old(self).can_spawn(),
        ensures
            final(self).wf(),
            old(self).spec_entities().spawn_post(final(self).spec_entities(), e),
            final(self).registry() == old(self).registry(),
            final(self).holder() == old(self).holder(),
    {
        self.entities.spawn()
    }
}


impl<V> World<V> {
    /// Adds `component` as the component of kind `id` of `entity`, replacing the one it had.
    /// Returns `true` if `entity` exists and did not have this kind of component before; if
    /// `entity` does not exist nothing changes and `false` is returned.
    pub fn add(&mut self, entity: Entity, id: ComponentId, component: V) -> (added: bool)
        requires
            old(self).wf(),
            old(self).registry().contains(id),
            old(self).spec_entities().valid_id(entity.slot()),
            old(self).registry().borrow_state(id.index() as int) == BorrowState::Unborrowed,
        ensures
            final(self).wf(),
            final(self).spec_entities() == old(self).spec_entities(),
            final(self).holder() == old(self).holder(),
            old(self).spec_entities().spec_exists(entity) ==> {
                &&& old(self).registry().same_except_storage(final(self).registry(), id.index() as int)
                &&& final(self).registry().storage(id.index() as int) == old(self).registry().storage(
                    id.index() as int,
                ).insert(entity.slot() as usize, component)
                &&& added == !old(self).registry().storage(id.index() as int).contains_key(
                    entity.slot() as usize,
                )
            },
            !old(self).spec_entities().spec_exists(entity) ==> {
                &&& final(self).registry() == old(self).registry()
                &&& !added
            },
    {
        match self.entities.id(entity) {
            Some(slot) => self.component_registry.set(id, slot as usize, component),
            None => false,
        }
    }

    /// Adds `component` to `entity` as a component of the kind registered for the Rust type with
    /// key `type_key`, registering that kind under `name` first if it is not registered yet.
    /// Returns `true` if `entity` exists and did not have this kind of component before.
    pub fn add_for_key(&mut self, entity: Entity, type_key: u64, name: String, component: V) -> (added: bool)
        requires
            old(self).wf(),
            old(self).spec_entities().valid_id(entity.slot()),
            !old(self).registry().keys().contains_key(type_key) ==> old(self).registry().spec_len() <= u16::MAX,
            old(self).registry().keys().contains_key(type_key) ==> old(self).registry().borrow_state(
                old(self).registry().keys()[type_key].index() as int,
            ) == BorrowState::Unborrowed,
        ensures
            add_command_post(*old(self), *final(self), entity, type_key, name@, component),
            added == (old(self).spec_entities().spec_exists(entity) && (old(self).registry().keys().contains_key(
                type_key,
            ) ==> !old(self).registry().storage(old(self).registry().keys()[type_key].index() as int).contains_key(
                entity.slot() as usize,
            ))),
            forall|j: int|
                0 <= j < old(self).registry().spec_len() ==> #[trigger] final(self).registry().borrow_state(j)
                    == old(self).registry().borrow_state(j),
            final(self).registry().borrow_state(final(self).registry().keys()[type_key].index() as int)
                == BorrowState::Unborrowed,
    {
        proof {
            self.registry().lemma_keys_valid();
        }
        match self.component_id(type_key) {
            Some(id) => {
                let added = self.add(entity, id, component);
                proof {
                    assert forall|j: int| 0 <= j < old(self).registry().spec_len() implies #[trigger] self.registry().borrow_state(j)
                        == old(self).registry().borrow_state(j) by {
                        assert(self.registry().info(j) == old(self).registry().info(j) || self.registry() == old(self).registry());
                    }
                    assert(add_command_post(*old(self), *self, entity, type_key, name@, component));
                }
                added
            },
            None => {
                let ghost name_view = name@;
                let id = self.component_registry.register_raw(Some(type_key), name);
                let ghost mid = *self;
                let added = self.add(entity, id, component);
                proof {
                    assert forall|j: int| 0 <= j < old(self).registry().spec_len() implies #[trigger] self.registry().borrow_state(j)
                        == old(self).registry().borrow_state(j) && self.registry().info(j) == old(self).registry().info(j)
                        && self.registry().storage(j) == old(self).registry().storage(j) by {
                        assert(self.registry().info(j) == mid.registry().info(j));
                        assert(mid.registry().info(j) == old(self).registry().info(j));
                    }
                    assert(old(self).registry().kinds_kept(self.registry(), old(self).registry().spec_len()));
                    assert(add_command_post(*old(self), *self, entity, type_key, name_view, component));
                }
                added
            },
        }
    }

    /// Removes the component of kind `id` from `entity`, returning it, or `None` if the entity
    /// did not exist or did not have such a component.
    pub fn remove(&mut self, entity: Entity, id: ComponentId) -> (r: Option<V>)
        requires
            old(self).wf(),
            old(self).registry().contains(id),
            old(self).spec_entities().valid_id(entity.slot()),
            old(self).registry().borrow_state(id.index() as int) == BorrowState::Unborrowed,
        ensures
            final(self).wf(),
            final(self).spec_entities() == old(self).spec_entities(),
            final(self).holder() == old(self).holder(),
            r == old(self).component(entity, id),
            old(self).spec_entities().spec_exists(entity) ==> {
                &&& old(self).registry().same_except_storage(final(self).registry(), id.index() as int)
                &&& final(self).registry().storage(id.index() as int) == old(self).registry().storage(
                    id.index() as int,
                ).remove(entity.slot() as usize)
            },
            !old(self).spec_entities().spec_exists(entity) ==> final(self).registry() == old(
                self,
            ).registry(),
    {
        match self.entities.id(entity) {
            Some(slot) => self.component_registry.remove(id, slot as usize),
            None => None,
        }
    }

    /// The component of kind `id` of `entity`, if `entity` exists and has one. The kind must not
    /// be lent out mutably to a query.
    pub fn get(&self, entity: Entity, id: ComponentId) -> (r: Option<&V>)
        requires
            self.wf(),
            self.registry().contains(id),
            self.spec_entities().valid_id(entity.slot()),
            self.registry().borrow_state(id.index() as int) != BorrowState::Exclusive,
        ensures
            r matches Some(x) ==> self.component(entity, id) == Some(*x),
            r is None ==> self.component(entity, id) is None,
    {
        match self.entities.id(entity) {
            Some(slot) => self.component_registry.get(id, slot as usize),
            None => None,
        }
    }

    /// The component of kind `id` of `entity` for modification, if `entity` exists and has one.
    /// The kind must not be lent out to a query.
    pub fn get_mut(&mut self, entity: Entity, id: ComponentId) -> (r: Option<&mut V>)
        requires
            old(self).wf(),
            old(self).registry().contains(id),
            old(self).spec_entities().valid_id(entity.slot()),
            old(self).registry().borrow_state(id.index() as int) == BorrowState::Unborrowed,
        ensures
            final(self).wf(),
            final(self).spec_entities() == old(self).spec_entities(),
            final(self).holder() == old(self).holder(),
            old(self).registry().same_except_storage(final(self).registry(), id.index() as int),
            r is Some <==> old(self).component(entity, id) is Some,
            r matches Some(x) ==> {
                &&& old(self).component(entity, id) == Some(*x)
                &&& final(self).registry().storage(id.index() as int) == old(self).registry().storage(
                    id.index() as int,
                ).insert(entity.slot() as usize, *final(x))
            },
            r is None ==> final(self).registry().storage(id.index() as int) == old(self).registry().storage(
                id.index() as int,
            ),
    {
        match self.entities.id(entity) {
            Some(slot) => self.component_registry.get_mut(id, slot as usize),
            None => None,
        }
    }

    /// Whether `despawn` may be called with `entity`: the handle belongs to this world, its
    /// generation is not at the limit if it refers to a living entity, and no kind of component
    /// is lent out to a query.
    pub fn can_despawn(&self, entity: Entity) -> (b: bool)
        requires
            self.wf(),
        ensures
            b == (self.spec_entities().owns(entity) && (self.spec_entities().spec_exists(entity)
                ==> entity.generation() < u32::MAX) && all_unborrowed(self.registry())),
    {
        if !self.entities.owns_handle(entity) {
            return false;
        }
        if self.entities.entity_exists(entity) && entity.get_generation_unchecked() == u32::MAX {
            return false;
        }
        self.component_registry.nothing_borrowed()
    }

    /// Despawns `entity` and drops all its components. Returns `true` if the entity existed.
    /// The resource holder cannot be despawned.
    pub fn despawn(&mut self, entity: Entity) -> (despawned: bool)
        requires
            old(self).wf(),
            old(self).spec_entities().owns(entity),
            old(self).spec_entities().spec_exists(entity) ==> entity.generation() < u32::MAX,
            all_unborrowed(old(self).registry()),
        ensures
            despawned == (old(self).spec_entities().spec_exists(entity) && entity != old(self).holder()),
            despawn_post(*old(self), *final(self), entity),
    {
        if entity == self.resource_holder {
            return false;
        }
        match self.entities.id(entity) {
            Some(slot) => {
                proof {
                    if slot == self.resource_holder.slot() {
                        Entity::lemma_eq(entity, self.resource_holder);
                    }
                }
                self.entities.despawn_unchecked(slot);
                self.component_registry.unset_all(slot as usize);
                proof {
                    let h = self.holder().slot() as int;
                    assert(self.spec_entities().gens()[h] == old(self).spec_entities().gens()[h]);
                    assert(self.spec_entities().alive(self.holder().slot()));
                    assert(self.wf());
                }
                true
            },
            None => false,
        }
    }

    /// Registers a new kind of component for the resource `resource` and gives it to the resource
    /// holder.
    pub fn add_resource(&mut self, type_key: Option<u64>, name: String, resource: V) -> (r: ResourceId)
        requires
            old(self).wf(),
            old(self).registry().spec_len() <= u16::MAX,
            type_key matches Some(k) ==> !old(self).registry().keys().contains_key(k),
        ensures
            final(self).wf(),
            final(self).spec_entities() == old(self).spec_entities(),
            final(self).holder() == old(self).holder(),
            r.spec_component_id().index() == old(self).registry().spec_len(),
            final(self).registry().spec_len() == old(self).registry().spec_len() + 1,
            final(self).registry().info(r.spec_component_id().index() as int).spec_name() == name@,
            final(self).registry().info(r.spec_component_id().index() as int).spec_type_key() == type_key,
            final(self).registry().storage(r.spec_component_id().index() as int) == Map::<usize, V>::empty().insert(
                old(self).holder().slot() as usize,
                resource,
            ),
            final(self).registry().borrow_state(r.spec_component_id().index() as int) == BorrowState::Unborrowed,
            final(self).registry().keys() == (match type_key {
                Some(k) => old(self).registry().keys().insert(k, r.spec_component_id()),
                None => old(self).registry().keys(),
            }),
            old(self).registry().kinds_kept(final(self).registry(), old(self).registry().spec_len()),
    {
        let id = self.component_registry.register_raw(type_key, name);
        let ghost mid = self.component_registry;
        let holder = self.resource_holder;
        self.add(holder, id, resource);
        proof {
            assert forall|j: int| 0 <= j < old(self).registry().spec_len() implies #[trigger] self.registry().info(j)
                == old(self).registry().info(j) && self.registry().storage(j) == old(self).registry().storage(j)
                && self.registry().borrow_state(j) == old(self).registry().borrow_state(j) by {
                assert(mid.info(j) == old(self).registry().info(j));
                assert(self.registry().info(j) == mid.info(j));
                assert(self.registry().storage(j) == mid.storage(j));
            }
            assert(old(self).registry().kinds_kept(self.registry(), old(self).registry().spec_len()));
        }
        ResourceId(id)
    }

    /// The resource `id`.
    pub fn resource(&self, id: ResourceId) -> (r: Option<&V>)
        requires
            self.wf(),
            self.registry().contains(id.spec_component_id()),
            self.registry().borrow_state(id.spec_component_id().index() as int) != BorrowState::Exclusive,
        ensures
            r matches Some(x) ==> self.component(self.holder(), id.spec_component_id()) == Some(*x),
            r is None ==> self.component(self.holder(), id.spec_component_id()) is None,
    {
        self.get(self.resource_holder, id.0)
    }

    /// The resource `id`, for modification.
    pub fn resource_mut(&mut self, id: ResourceId) -> (r: Option<&mut V>)
        requires
            old(self).wf(),
            old(self).registry().contains(id.spec_component_id()),
            old(self).registry().borrow_state(id.spec_component_id().index() as int) == BorrowState::Unborrowed,
        ensures
            final(self).wf(),
            final(self).spec_entities() == old(self).spec_entities(),
            final(self).holder() == old(self).holder(),
            old(self).registry().same_except_storage(final(self).registry(), id.spec_component_id().index() as int),
            r is Some <==> old(self).component(old(self).holder(), id.spec_component_id()) is Some,
            r matches Some(x) ==> {
                &&& old(self).component(old(self).holder(), id.spec_component_id()) == Some(*x)
                &&& final(self).registry().storage(id.spec_component_id().index() as int) == old(self).registry().storage(
                    id.spec_component_id().index() as int,
                ).insert(old(self).holder().slot() as usize, *final(x))
            },
            r is None ==> final(self).registry().storage(id.spec_component_id().index() as int) == old(self).registry().storage(
                id.spec_component_id().index() as int,
            ),
    {
        let holder = self.resource_holder;
        self.get_mut(holder, id.0)
    }
}


/// The borrow states after granting, in order, every request of `cs`.
pub open spec fn borrow_seq(states: Seq<BorrowState>, cs: Seq<ComponentQuery>) -> Seq<BorrowState>
    decreases cs.len(),
{
    if cs.len() == 0 {
        states
    } else {
        let prev = borrow_seq(states, cs.drop_last());
        let i = cs.last().id.index() as int;
        prev.update(i, borrowed(prev[i], cs.last().mutable))
    }
}

/// The borrow states after giving back, last first, every request of `cs`.
pub open spec fn release_seq(states: Seq<BorrowState>, cs: Seq<ComponentQuery>) -> Seq<BorrowState>
    decreases cs.len(),
{
    if cs.len() == 0 {
        states
    } else {
        let i = cs.last().id.index() as int;
        release_seq(states.update(i, released(states[i], cs.last().mutable)), cs.drop_last())
    }
}

/// Every request of `cs` can be given back, last first, starting from `states`.
pub open spec fn release_ok(states: Seq<BorrowState>, cs: Seq<ComponentQuery>) -> bool
    decreases cs.len(),
{
    if cs.len() == 0 {
        true
    } else {
        let i = cs.last().id.index() as int;
        &&& 0 <= i < states.len()
        &&& (if cs.last().mutable {
            states[i] == BorrowState::Exclusive
        } else {
            states[i] is Shared
        })
        &&& release_ok(states.update(i, released(states[i], cs.last().mutable)), cs.drop_last())
    }
}

/// The first request of `cs`, at or after position `k`, that cannot be granted once all requests
/// before it have been granted.
pub open spec fn first_blocked(states: Seq<BorrowState>, cs: Seq<ComponentQuery>, k: int) -> Option<int>
    decreases cs.len() - k,
{
    if k < 0 || k >= cs.len() {
        None
    } else if !borrow_allowed(borrow_seq(states, cs.take(k))[cs[k].id.index() as int], cs[k].mutable) {
        Some(k)
    } else {
        first_blocked(states, cs, k + 1)
    }
}

/// The kind of component of the first request of `cs` that is blocked, if any.
pub open spec fn blocked_kind(states: Seq<BorrowState>, cs: Seq<ComponentQuery>) -> Option<ComponentId> {
    match first_blocked(states, cs, 0) {
        Some(k) => Some(cs[k].id),
        None => None,
    }
}

/// Every request of `cs` names one of `n` kinds of components.
pub open spec fn ids_below(cs: Seq<ComponentQuery>, n: nat) -> bool {
    forall|k: int| 0 <= k < cs.len() ==> (#[trigger] cs[k]).id.index() < n
}

/// No shared-borrow counter in `states` can overflow while `m` more borrows are granted.
pub open spec fn counts_fit(states: Seq<BorrowState>, m: nat) -> bool {
    forall|i: int| 0 <= i < states.len() ==> shared_count(#[trigger] states[i]) + m < usize::MAX
}

/// The access to components granted by `World::try_query`. It is given back with
/// `World::release`.
#[derive(Debug)]
pub struct QueryResponse {
    components: Vec<ComponentQuery>,
}

impl QueryResponse {
    /// The requests whose borrows this response holds.
    pub closed spec fn spec_components(&self) -> Seq<ComponentQuery> {
        self.components@
    }
}

proof fn lemma_borrow_seq_len(states: Seq<BorrowState>, cs: Seq<ComponentQuery>)
    requires
        ids_below(cs, states.len()),
    ensures
        borrow_seq(states, cs).len() == states.len(),
    decreases cs.len(),
{
    if cs.len() > 0 {
        assert(ids_below(cs.drop_last(), states.len()));
        lemma_borrow_seq_len(states, cs.drop_last());
        assert(cs.last() == cs[cs.len() - 1]);
    }
}

proof fn lemma_first_blocked_none(states: Seq<BorrowState>, cs: Seq<ComponentQuery>, k: int)
    requires
        0 <= k,
        forall|j: int|
            k <= j < cs.len() ==> borrow_allowed(
                #[trigger] borrow_seq(states, cs.take(j))[cs[j].id.index() as int],
                cs[j].mutable,
            ),
    ensures
        first_blocked(states, cs, k) is None,
    decreases cs.len() - k,
{
    if k < cs.len() {
        lemma_first_blocked_none(states, cs, k + 1);
    }
}

proof fn lemma_first_blocked_some(states: Seq<BorrowState>, cs: Seq<ComponentQuery>, k: int, found: int)
    requires
        0 <= k <= found < cs.len(),
        forall|j: int|
            k <= j < found ==> borrow_allowed(
                #[trigger] borrow_seq(states, cs.take(j))[cs[j].id.index() as int],
                cs[j].mutable,
            ),
        !borrow_allowed(borrow_seq(states, cs.take(found))[cs[found].id.index() as int], cs[found].mutable),
    ensures
        first_blocked(states, cs, k) == Some(found),
    decreases found - k,
{
    if k < found {
        lemma_first_blocked_some(states, cs, k + 1, found);
    }
}

/// Giving back, last first, the requests that were just granted restores the borrow states.
pub proof fn lemma_release_undoes_borrow(states: Seq<BorrowState>, cs: Seq<ComponentQuery>)
    requires
        ids_below(cs, states.len()),
        counts_fit(states, cs.len()),
        forall|i: int| 0 <= i < states.len() ==> (#[trigger] states[i] matches BorrowState::Shared(n) ==> n >= 1),
        first_blocked(states, cs, 0) is None,
    ensures
        release_ok(borrow_seq(states, cs), cs),
        release_seq(borrow_seq(states, cs), cs) == states,
    decreases cs.len(),
{
    if cs.len() > 0 {
        let p = cs.drop_last();
        let c = cs.last();
        let i = c.id.index() as int;
        let n = cs.len() - 1;
        lemma_first_blocked_all(states, cs, 0);
        assert forall|j: int| 0 <= j < p.len() implies borrow_allowed(
            #[trigger] borrow_seq(states, p.take(j))[p[j].id.index() as int],
            p[j].mutable,
        ) by {
            assert(p.take(j) =~= cs.take(j));
            assert(borrow_allowed(borrow_seq(states, cs.take(j))[cs[j].id.index() as int], cs[j].mutable));
        }
        lemma_first_blocked_none(states, p, 0);
        assert forall|k: int| 0 <= k < p.len() implies (#[trigger] p[k]).id.index() < states.len() by {
            assert(p[k] == cs[k]);
        }
        assert(counts_fit(states, p.len()));
        lemma_release_undoes_borrow(states, p);
        lemma_borrow_seq_len(states, p);
        lemma_borrow_seq_counts(states, p);
        assert(c == cs[n]);
        assert(0 <= i < states.len());
        assert(cs.take(n) =~= p);
        assert(borrow_allowed(borrow_seq(states, cs.take(n))[cs[n].id.index() as int], cs[n].mutable));
        let b0 = borrow_seq(states, p);
        let b1 = borrow_seq(states, cs);
        assert(b1 == b0.update(i, borrowed(b0[i], c.mutable)));
        assert(b0[i] matches BorrowState::Shared(x) ==> x >= 1 && x <= shared_count(states[i]) + p.len());
        assert(released(borrowed(b0[i], c.mutable), c.mutable) == b0[i]);
        assert(b1.update(i, released(b1[i], c.mutable)) =~= b0);
    }
}

/// A shared-borrow counter after granting `cs` is at least one and grew by at most `cs.len()`.
proof fn lemma_borrow_seq_counts(states: Seq<BorrowState>, cs: Seq<ComponentQuery>)
    requires
        ids_below(cs, states.len()),
        counts_fit(states, cs.len()),
        forall|i: int| 0 <= i < states.len() ==> (#[trigger] states[i] matches BorrowState::Shared(n) ==> n >= 1),
    ensures
        forall|i: int|
            0 <= i < states.len() ==> (#[trigger] borrow_seq(states, cs)[i] matches BorrowState::Shared(n) ==> {
                &&& n >= 1
                &&& n <= shared_count(states[i]) + cs.len()
            }),
    decreases cs.len(),
{
    lemma_borrow_seq_len(states, cs);
    if cs.len() > 0 {
        assert(ids_below(cs.drop_last(), states.len()));
        lemma_borrow_seq_counts(states, cs.drop_last());
        lemma_borrow_seq_len(states, cs.drop_last());
        let b0 = borrow_seq(states, cs.drop_last());
        assert forall|i: int|
            0 <= i < states.len() implies (#[trigger] borrow_seq(states, cs)[i] matches BorrowState::Shared(n) ==> {
                &&& n >= 1
                &&& n <= shared_count(states[i]) + cs.len()
            }) by {
            assert(b0[i] matches BorrowState::Shared(n) ==> n >= 1 && n <= shared_count(states[i]) + cs.len() - 1);
            assert(cs.last() == cs[cs.len() - 1]);
            let idx = cs.last().id.index() as int;
            assert(borrow_seq(states, cs) == b0.update(idx, borrowed(b0[idx], cs.last().mutable)));
            assert(shared_count(states[i]) + cs.len() < usize::MAX);
            if i != idx {
                assert(borrow_seq(states, cs)[i] == b0[i]);
            }
        }
    }
}

/// The number of shared borrows in state `s`.
pub open spec fn shared_count(s: BorrowState) -> nat {
    match s {
        BorrowState::Shared(n) => n as nat,
        _ => 0,
    }
}

/// If no request of `cs` is blocked from position `k` on, each of them can be granted.
proof fn lemma_first_blocked_all(states: Seq<BorrowState>, cs: Seq<ComponentQuery>, k: int)
    requires
        0 <= k,
        first_blocked(states, cs, k) is None,
    ensures
        forall|j: int|
            k <= j < cs.len() ==> borrow_allowed(
                #[trigger] borrow_seq(states, cs.take(j))[cs[j].id.index() as int],
                cs[j].mutable,
            ),
    decreases cs.len() - k,
{
    if k < cs.len() {
        lemma_first_blocked_all(states, cs, k + 1);
    }
}


/// `e` is alive in `w` and has every non-optional kind of component requested by `cs`.
pub open spec fn query_matches<V>(w: World<V>, cs: Seq<ComponentQuery>, e: Entity) -> bool {
    &&& w.spec_entities().spec_exists(e)
    &&& forall|k: int|
        0 <= k < cs.len() && !(#[trigger] cs[k]).optional ==> w.registry().storage(cs[k].id.index() as int).contains_key(
            e.slot() as usize,
        )
}

/// `new` is `old` with different borrow states only.
pub open spec fn only_borrows_changed<V>(old: World<V>, new: World<V>) -> bool {
    &&& new.wf()
    &&& new.spec_entities() == old.spec_entities()
    &&& new.holder() == old.holder()
    &&& new.registry().spec_len() == old.registry().spec_len()
    &&& new.registry().keys() == old.registry().keys()
    &&& forall|j: int|
        0 <= j < old.registry().spec_len() ==> #[trigger] new.registry().info(j) == old.registry().info(j)
            && new.registry().storage(j) == old.registry().storage(j)
}

impl<V> World<V> {
    /// Gives back, last first, the borrows of the requests `cs`.
    fn release_requests(&mut self, cs: &Vec<ComponentQuery>)
        requires
            old(self).wf(),
            ids_below(cs@, old(self).registry().spec_len()),
            release_ok(old(self).registry().borrow_states(), cs@),
        ensures
            only_borrows_changed(*old(self), *final(self)),
            final(self).registry().borrow_states() == release_seq(old(self).registry().borrow_states(), cs@),
    {
        let mut k = cs.len();
        assert(cs@.take(k as int) =~= cs@);
        while k > 0
            invariant
                k <= cs@.len(),
                self.wf(),
                ids_below(cs@, self.registry().spec_len()),
                only_borrows_changed(*old(self), *self),
                release_ok(self.registry().borrow_states(), cs@.take(k as int)),
                release_seq(self.registry().borrow_states(), cs@.take(k as int)) == release_seq(
                    old(self).registry().borrow_states(),
                    cs@,
                ),
            decreases k,
        {
            let c = cs[k - 1];
            let ghost before = self.registry().borrow_states();
            let ghost pre = *self;
            let ghost t = cs@.take(k as int);
            assert(t.last() == c);
            assert(t.drop_last() =~= cs@.take(k - 1));
            self.component_registry.release(c.id, c.mutable);
            proof {
                let i = c.id.index() as int;
                assert(self.registry().borrow_states() =~= before.update(i, released(before[i], c.mutable)));
                assert forall|j: int| 0 <= j < old(self).registry().spec_len() implies #[trigger] self.registry().info(j)
                    == old(self).registry().info(j) && self.registry().storage(j) == old(self).registry().storage(j) by {
                    assert(pre.registry().info(j) == old(self).registry().info(j));
                }
            }
            k = k - 1;
        }
        assert(cs@.take(0) =~= Seq::<ComponentQuery>::empty());
    }

    /// Lends out the components requested by `query`, in order. If a request conflicts with how
    /// its kind of component is lent out at that point, every borrow granted so far is given back
    /// and the kind of component of that request is reported.
    pub fn try_query(&mut self, query: &Query) -> (r: Result<QueryResponse, BorrowMutError>)
        requires
            old(self).wf(),
            ids_below(query.spec_components(), old(self).registry().spec_len()),
            counts_fit(old(self).registry().borrow_states(), query.spec_components().len()),
        ensures
            only_borrows_changed(*old(self), *final(self)),
            r is Err <==> first_blocked(old(self).registry().borrow_states(), query.spec_components(), 0) is Some,
            r matches Err(e) ==> blocked_kind(old(self).registry().borrow_states(), query.spec_components())
                == Some(e.spec_component_id()),
            r is Err ==> final(self).registry().borrow_states() == old(self).registry().borrow_states(),
            r matches Ok(resp) ==> resp.spec_components() == query.spec_components(),
            r is Ok ==> final(self).registry().borrow_states() == borrow_seq(
                old(self).registry().borrow_states(),
                query.spec_components(),
            ),
    {
        let comps = query.components();
        let ghost cs = query.spec_components();
        let ghost s0 = self.registry().borrow_states();
        let n = comps.len();
        let mut held: Vec<ComponentQuery> = Vec::new();
        let mut k: usize = 0;
        proof {
            assert(cs.take(0) =~= Seq::<ComponentQuery>::empty());
            self.component_registry.lemma_shared_positive();
        }
        while k < n
            invariant
                n == cs.len(),
                comps@ == cs,
                cs == query.spec_components(),
                k <= n,
                s0 == old(self).registry().borrow_states(),
                ids_below(cs, old(self).registry().spec_len()),
                counts_fit(s0, cs.len()),
                forall|i: int| 0 <= i < s0.len() ==> (#[trigger] s0[i] matches BorrowState::Shared(n) ==> n >= 1),
                only_borrows_changed(*old(self), *self),
                held@ == cs.take(k as int),
                self.registry().borrow_states() == borrow_seq(s0, cs.take(k as int)),
                forall|j: int|
                    0 <= j < k ==> borrow_allowed(
                        #[trigger] borrow_seq(s0, cs.take(j))[cs[j].id.index() as int],
                        cs[j].mutable,
                    ),
            decreases n - k,
        {
            let c = comps[k];
            let ghost pre = *self;
            proof {
                assert(ids_below(cs.take(k as int), s0.len()));
                assert(counts_fit(s0, cs.take(k as int).len()));
                lemma_borrow_seq_counts(s0, cs.take(k as int));
                assert(0 <= c.id.index() < s0.len());
                assert(self.registry().borrow_states()[c.id.index() as int] == self.registry().borrow_state(c.id.index() as int));
                assert(shared_count(s0[c.id.index() as int]) + cs.len() < usize::MAX);
            }
            if !self.component_registry.try_borrow(c.id, c.mutable) {
                proof {
                    let t = cs.take(k as int);
                    assert(ids_below(t, s0.len()));
                    assert(counts_fit(s0, t.len()));
                    assert forall|j: int| 0 <= j < t.len() implies borrow_allowed(
                        #[trigger] borrow_seq(s0, t.take(j))[t[j].id.index() as int],
                        t[j].mutable,
                    ) by {
                        assert(t.take(j) =~= cs.take(j));
                    }
                    lemma_first_blocked_none(s0, t, 0);
                    lemma_release_undoes_borrow(s0, t);
                    lemma_first_blocked_some(s0, cs, 0, k as int);
                }
                let ghost mid = *self;
                proof {
                    assert(mid.registry().borrow_states() == borrow_seq(s0, cs.take(k as int)));
                    assert(first_blocked(s0, cs, 0) == Some(k as int));
                    assert(c == cs[k as int]);
                }
                self.release_requests(&held);
                proof {
                    assert(self.registry().borrow_states() == s0);
                    assert forall|j: int| 0 <= j < old(self).registry().spec_len() implies #[trigger] self.registry().info(j)
                        == old(self).registry().info(j) && self.registry().storage(j) == old(self).registry().storage(j) by {
                        assert(pre.registry().info(j) == old(self).registry().info(j));
                        assert(mid.registry().info(j) == pre.registry().info(j));
                        assert(self.registry().info(j) == mid.registry().info(j));
                    }
                }
                let e = BorrowMutError::new(c.id);
                assert(e.spec_component_id() == cs[k as int].id);
                assert(s0 == old(self).registry().borrow_states());
                assert(cs == query.spec_components());
                assert(first_blocked(old(self).registry().borrow_states(), query.spec_components(), 0) == Some(k as int));
                return Err(e);
            }
            held.push(c);
            proof {
                let i = c.id.index() as int;
                let before = pre.registry().borrow_states();
                assert(self.registry().borrow_states() =~= before.update(i, borrowed(before[i], c.mutable)));
                assert(cs.take(k + 1).drop_last() =~= cs.take(k as int));
                assert(cs.take(k + 1).last() == c);
                assert(held@ =~= cs.take(k + 1));
                assert forall|j: int| 0 <= j < old(self).registry().spec_len() implies #[trigger] self.registry().info(j)
                    == old(self).registry().info(j) && self.registry().storage(j) == old(self).registry().storage(j) by {
                    assert(pre.registry().info(j) == old(self).registry().info(j));
                }
            }
            k = k + 1;
        }
        proof {
            lemma_first_blocked_none(s0, cs, 0);
            assert(cs.take(n as int) =~= cs);
        }
        Ok(QueryResponse { components: held })
    }

    /// Lends out the components requested by `query`, which must not conflict with how they are
    /// currently lent out. See `try_query`.
    pub fn query(&mut self, query: &Query) -> (resp: QueryResponse)
        requires
            old(self).wf(),
            ids_below(query.spec_components(), old(self).registry().spec_len()),
            counts_fit(old(self).registry().borrow_states(), query.spec_components().len()),
            first_blocked(old(self).registry().borrow_states(), query.spec_components(), 0) is None,
        ensures
            only_borrows_changed(*old(self), *final(self)),
            resp.spec_components() == query.spec_components(),
            final(self).registry().borrow_states() == borrow_seq(
                old(self).registry().borrow_states(),
                query.spec_components(),
            ),
    {
        self.try_query(query).unwrap()
    }

    /// Whether `release` may be called with `response`: every request it holds names a
    /// registered kind of component and can be given back, last first.
    pub fn can_release(&self, response: &QueryResponse) -> (b: bool)
        requires
            self.wf(),
        ensures
            b == (ids_below(response.spec_components(), self.registry().spec_len()) && release_ok(
                self.registry().borrow_states(),
                response.spec_components(),
            )),
    {
        let cs = &response.components;
        let mut states = self.component_registry.borrow_states_vec();
        let n = states.len();
        let mut k = cs.len();
        proof {
            assert(cs@.take(k as int) =~= cs@);
        }
        while k > 0
            invariant
                cs@ == response.spec_components(),
                k <= cs@.len(),
                n == states@.len(),
                n == self.registry().spec_len(),
                forall|j: int| k <= j < cs@.len() ==> (#[trigger] cs@[j]).id.index() < n,
                release_ok(self.registry().borrow_states(), cs@) == release_ok(states@, cs@.take(k as int)),
            decreases k,
        {
            let c = cs[k - 1];
            let ghost t = cs@.take(k as int);
            proof {
                assert(t.last() == c);
                assert(t.drop_last() =~= cs@.take(k - 1));
            }
            let i = c.id.as_index();
            if i >= n {
                proof {
                    assert(!release_ok(states@, t));
                    assert(cs@ == response.spec_components());
                    assert(!release_ok(self.registry().borrow_states(), response.spec_components()));
                }
                return false;
            }
            let s = states[i];
            let allowed = if c.mutable {
                s == BorrowState::Exclusive
            } else {
                match s {
                    BorrowState::Shared(_) => true,
                    _ => false,
                }
            };
            if !allowed {
                proof {
                    assert(!release_ok(states@, t));
                    assert(cs@ == response.spec_components());
                    assert(!release_ok(self.registry().borrow_states(), response.spec_components()));
                }
                return false;
            }
            let next = if c.mutable {
                BorrowState::Unborrowed
            } else {
                match s {
                    BorrowState::Shared(m) => if m <= 1 {
                        BorrowState::Unborrowed
                    } else {
                        BorrowState::Shared(m - 1)
                    },
                    _ => s,
                }
            };
            states.set(i, next);
            k = k - 1;
        }
        proof {
            assert(cs@.take(0) =~= Seq::<ComponentQuery>::empty());
        }
        true
    }

    /// Gives back the borrows held by `response`.
    pub fn release(&mut self, response: QueryResponse)
        requires
            old(self).wf(),
            ids_below(response.spec_components(), old(self).registry().spec_len()),
            release_ok(old(self).registry().borrow_states(), response.spec_components()),
        ensures
            only_borrows_changed(*old(self), *final(self)),
            final(self).registry().borrow_states() == release_seq(
                old(self).registry().borrow_states(),
                response.spec_components(),
            ),
    {
        self.release_requests(&response.components);
    }
}


/// Every non-optional kind of component requested by `cs` is present at slot `slot` in `w`.
pub open spec fn has_requested<V>(w: World<V>, cs: Seq<ComponentQuery>, slot: usize) -> bool {
    forall|k: int|
        0 <= k < cs.len() && !(#[trigger] cs[k]).optional ==> w.registry().storage(cs[k].id.index() as int).contains_key(slot)
}

/// `x` is one of the first `k` elements of `s`.
pub open spec fn occurs_before(s: Seq<Entity>, k: int, x: Entity) -> bool {
    exists|j: int| 0 <= j < k && #[trigger] s[j] == x
}

impl QueryResponse {
    fn has_requested_at<V>(&self, world: &World<V>, slot: usize) -> (b: bool)
        requires
            world.wf(),
            ids_below(self.spec_components(), world.registry().spec_len()),
        ensures
            b == has_requested(*world, self.spec_components(), slot),
    {
        let n = self.components.len();
        let mut k: usize = 0;
        while k < n
            invariant
                world.wf(),
                ids_below(self.spec_components(), world.registry().spec_len()),
                n == self.spec_components().len(),
                k <= n,
                forall|j: int|
                    0 <= j < k && !(#[trigger] self.spec_components()[j]).optional ==> world.registry().storage(
                        self.spec_components()[j].id.index() as int,
                    ).contains_key(slot),
            decreases n - k,
        {
            let c = self.components[k];
            if !c.optional && world.component_registry.get(c.id, slot).is_none() {
                return false;
            }
            k = k + 1;
        }
        true
    }

    /// The components requested by the query, in the order of the query, if `entity` is alive
    /// and has every non-optional one of them; `None` otherwise. An optional component that
    /// `entity` lacks is `None` in the result.
    pub fn try_get<'a, V>(&self, world: &'a World<V>, entity: Entity) -> (r: Option<Vec<Option<&'a V>>>)
        requires
            world.wf(),
            ids_below(self.spec_components(), world.registry().spec_len()),
            world.spec_entities().valid_id(entity.slot()),
        ensures
            r is Some <==> query_matches(*world, self.spec_components(), entity),
            r matches Some(v) ==> {
                &&& v@.len() == self.spec_components().len()
                &&& forall|k: int|
                    0 <= k < v@.len() ==> {
                        let st = world.registry().storage(self.spec_components()[k].id.index() as int);
                        &&& ((#[trigger] v@[k]) is Some <==> st.contains_key(entity.slot() as usize))
                        &&& (v@[k] matches Some(x) ==> *x == st[entity.slot() as usize])
                    }
            },
    {
        if !world.entities.entity_exists(entity) {
            return None;
        }
        let slot = entity.get_id_unchecked() as usize;
        let n = self.components.len();
        let mut res: Vec<Option<&'a V>> = Vec::new();
        let mut k: usize = 0;
        while k < n
            invariant
                world.wf(),
                ids_below(self.spec_components(), world.registry().spec_len()),
                world.spec_entities().spec_exists(entity),
                slot == entity.slot() as usize,
                n == self.spec_components().len(),
                k <= n,
                res@.len() == k,
                forall|j: int|
                    0 <= j < k && !(#[trigger] self.spec_components()[j]).optional ==> world.registry().storage(
                        self.spec_components()[j].id.index() as int,
                    ).contains_key(slot),
                forall|j: int|
                    0 <= j < k ==> {
                        let st = world.registry().storage(self.spec_components()[j].id.index() as int);
                        &&& ((#[trigger] res@[j]) is Some <==> st.contains_key(slot))
                        &&& (res@[j] matches Some(x) ==> *x == st[slot])
                    },
            decreases n - k,
        {
            let c = self.components[k];
            let comp = world.component_registry.get(c.id, slot);
            if comp.is_none() && !c.optional {
                return None;
            }
            res.push(comp);
            k = k + 1;
        }
        Some(res)
    }

    /// The alive entities other than the resource holder that have every non-optional kind of
    /// component requested by the query, in order of increasing slot id.
    pub fn iter<V>(&self, world: &World<V>) -> (r: Vec<Entity>)
        requires
            world.wf(),
            ids_below(self.spec_components(), world.registry().spec_len()),
        ensures
            forall|i: int|
                0 <= i < r@.len() ==> query_matches(*world, self.spec_components(), #[trigger] r@[i])
                    && r@[i] != world.holder() && world.spec_entities().alive(r@[i].slot()),
            forall|i: int, j: int| 0 <= i < j < r@.len() ==> r@[i].slot() < r@[j].slot(),
            forall|e: Entity|
                world.spec_entities().issued(e) && query_matches(*world, self.spec_components(), e) && e
                    != world.holder() ==> exists|i: int| 0 <= i < r@.len() && #[trigger] r@[i] == e,
    {
        let all = world.entities.iter();
        let n = all.len();
        let mut r: Vec<Entity> = Vec::new();
        let mut k: usize = 0;
        while k < n
            invariant
                world.wf(),
                ids_below(self.spec_components(), world.registry().spec_len()),
                n == all@.len(),
                k <= n,
                forall|i: int|
                    0 <= i < all@.len() ==> world.spec_entities().alive(#[trigger] all@[i].slot())
                        && world.spec_entities().spec_exists(all@[i]),
                forall|i: int, j: int| 0 <= i < j < all@.len() ==> all@[i].slot() < all@[j].slot(),
                forall|i: int|
                    0 <= i < r@.len() ==> query_matches(*world, self.spec_components(), #[trigger] r@[i])
                        && r@[i] != world.holder() && world.spec_entities().alive(r@[i].slot()),
                forall|i: int| 0 <= i < r@.len() ==> #[trigger] occurs_before(all@, k as int, r@[i]),
                forall|i: int, j: int| 0 <= i < j < r@.len() ==> r@[i].slot() < r@[j].slot(),
                forall|j: int|
                    0 <= j < k && query_matches(*world, self.spec_components(), #[trigger] all@[j]) && all@[j]
                        != world.holder() ==> exists|i: int| 0 <= i < r@.len() && r@[i] == all@[j],
            decreases n - k,
        {
            let e = all[k];
            let ghost old_r = r@;
            if e != world.resource_holder && self.has_requested_at(world, e.get_id_unchecked() as usize) {
                r.push(e);
                proof {
                    assert forall|i: int, j: int| 0 <= i < j < r@.len() implies r@[i].slot() < r@[j].slot() by {
                        if j == r@.len() - 1 {
                            assert(occurs_before(all@, k as int, r@[i]));
                            let jj = choose|jj: int| 0 <= jj < k && #[trigger] all@[jj] == r@[i];
                            assert(all@[jj].slot() < all@[k as int].slot());
                        }
                    }
                }
            }
            proof {
                assert forall|i: int| 0 <= i < r@.len() implies #[trigger] occurs_before(all@, k + 1, r@[i]) by {
                    if i < old_r.len() {
                        assert(occurs_before(all@, k as int, old_r[i]));
                        let jj = choose|jj: int| 0 <= jj < k && #[trigger] all@[jj] == old_r[i];
                        assert(all@[jj] == r@[i]);
                    } else {
                        assert(all@[k as int] == r@[i]);
                    }
                }
                assert forall|j: int|
                    0 <= j < k + 1 && query_matches(*world, self.spec_components(), #[trigger] all@[j]) && all@[j]
                        != world.holder() implies exists|i: int| 0 <= i < r@.len() && r@[i] == all@[j] by {
                    if j < k {
                        let ii = choose|ii: int| 0 <= ii < old_r.len() && old_r[ii] == all@[j];
                        assert(r@[ii] == all@[j]);
                    } else {
                        assert(r@[r@.len() - 1] == all@[j]);
                    }
                }
            }
            k = k + 1;
        }
        proof {
            assert forall|e: Entity|
                world.spec_entities().issued(e) && query_matches(*world, self.spec_components(), e) && e
                    != world.holder() implies exists|i: int| 0 <= i < r@.len() && #[trigger] r@[i] == e by {
                let j = choose|j: int| 0 <= j < all@.len() && #[trigger] all@[j].slot() == e.slot();
                assert(world.spec_entities().spec_exists(all@[j]));
                Entity::lemma_eq(all@[j], e);
                assert(query_matches(*world, self.spec_components(), all@[j]));
                let i = choose|i: int| 0 <= i < r@.len() && r@[i] == all@[j];
                assert(r@[i] == e);
            }
        }
        r
    }
}


/// `x` is one of the first `k` elements of `s`.
pub open spec fn pair_occurs_before(s: Seq<(Entity, Entity)>, k: int, x: (Entity, Entity)) -> bool {
    exists|j: int| 0 <= j < k && #[trigger] s[j] == x
}

impl QueryResponse {
    /// All pairs of distinct entities returned by `iter`, the one with the smaller slot id first,
    /// ordered lexicographically by slot ids.
    pub fn iter_combinations<V>(&self, world: &World<V>) -> (r: Vec<(Entity, Entity)>)
        requires
            world.wf(),
            ids_below(self.spec_components(), world.registry().spec_len()),
        ensures
            forall|i: int|
                0 <= i < r@.len() ==> {
                    &&& query_matches(*world, self.spec_components(), (#[trigger] r@[i]).0)
                    &&& query_matches(*world, self.spec_components(), r@[i].1)
                    &&& r@[i].0 != world.holder()
                    &&& r@[i].1 != world.holder()
                    &&& r@[i].0.slot() < r@[i].1.slot()
                },
            forall|i: int, j: int|
                0 <= i < j < r@.len() ==> (#[trigger] r@[i]).0.slot() < (#[trigger] r@[j]).0.slot() || (
                r@[i].0.slot() == r@[j].0.slot() && r@[i].1.slot() < r@[j].1.slot()),
            forall|a: Entity, b: Entity|
                world.spec_entities().issued(a) && world.spec_entities().issued(b) && query_matches(
                    *world,
                    self.spec_components(),
                    a,
                ) && query_matches(*world, self.spec_components(), b) && a != world.holder() && b
                    != world.holder() && a.slot() < b.slot() ==> #[trigger] pair_occurs_before(r@, r@.len() as int, (a, b)),
    {
        let all = world.entities.iter_combinations();
        let n = all.len();
        let mut r: Vec<(Entity, Entity)> = Vec::new();
        let mut k: usize = 0;
        while k < n
            invariant
                world.wf(),
                ids_below(self.spec_components(), world.registry().spec_len()),
                n == all@.len(),
                k <= n,
                forall|i: int|
                    0 <= i < all@.len() ==> {
                        &&& world.spec_entities().alive((#[trigger] all@[i]).0.slot())
                        &&& world.spec_entities().spec_exists(all@[i].0)
                        &&& world.spec_entities().alive(all@[i].1.slot())
                        &&& world.spec_entities().spec_exists(all@[i].1)
                        &&& all@[i].0.slot() < all@[i].1.slot()
                    },
                forall|i: int, j: int|
                    0 <= i < j < all@.len() ==> (#[trigger] all@[i]).0.slot() < (#[trigger] all@[j]).0.slot()
                        || (all@[i].0.slot() == all@[j].0.slot() && all@[i].1.slot() < all@[j].1.slot()),
                forall|i: int|
                    0 <= i < r@.len() ==> {
                        &&& query_matches(*world, self.spec_components(), (#[trigger] r@[i]).0)
                        &&& query_matches(*world, self.spec_components(), r@[i].1)
                        &&& r@[i].0 != world.holder()
                        &&& r@[i].1 != world.holder()
                        &&& r@[i].0.slot() < r@[i].1.slot()
                    },
                forall|i: int| 0 <= i < r@.len() ==> #[trigger] pair_occurs_before(all@, k as int, r@[i]),
                forall|i: int, j: int|
                    0 <= i < j < r@.len() ==> (#[trigger] r@[i]).0.slot() < (#[trigger] r@[j]).0.slot() || (
                    r@[i].0.slot() == r@[j].0.slot() && r@[i].1.slot() < r@[j].1.slot()),
                forall|j: int|
                    0 <= j < k && query_matches(*world, self.spec_components(), (#[trigger] all@[j]).0)
                        && query_matches(*world, self.spec_components(), all@[j].1) && all@[j].0
                        != world.holder() && all@[j].1 != world.holder() ==> pair_occurs_before(r@, r@.len() as int, all@[j]),
            decreases n - k,
        {
            let (a, b) = all[k];
            let ghost old_r = r@;
            if a != world.resource_holder && b != world.resource_holder && self.has_requested_at(
                world,
                a.get_id_unchecked() as usize,
            ) && self.has_requested_at(world, b.get_id_unchecked() as usize) {
                r.push((a, b));
                proof {
                    assert forall|i: int, j: int| 0 <= i < j < r@.len() implies (#[trigger] r@[i]).0.slot()
                        < (#[trigger] r@[j]).0.slot() || (r@[i].0.slot() == r@[j].0.slot() && r@[i].1.slot()
                        < r@[j].1.slot()) by {
                        if j == r@.len() - 1 {
                            assert(pair_occurs_before(all@, k as int, r@[i]));
                            let jj = choose|jj: int| 0 <= jj < k && #[trigger] all@[jj] == r@[i];
                            assert(all@[jj].0.slot() < all@[k as int].0.slot() || (all@[jj].0.slot()
                                == all@[k as int].0.slot() && all@[jj].1.slot() < all@[k as int].1.slot()));
                        } else {
                            assert(r@[i] == old_r[i] && r@[j] == old_r[j]);
                        }
                    }
                }
            }
            proof {
                assert forall|i: int| 0 <= i < r@.len() implies #[trigger] pair_occurs_before(all@, k + 1, r@[i]) by {
                    if i < old_r.len() {
                        assert(pair_occurs_before(all@, k as int, old_r[i]));
                        let jj = choose|jj: int| 0 <= jj < k && #[trigger] all@[jj] == old_r[i];
                        assert(all@[jj] == r@[i]);
                    } else {
                        assert(all@[k as int] == r@[i]);
                    }
                }
                assert forall|j: int|
                    0 <= j < k + 1 && query_matches(*world, self.spec_components(), (#[trigger] all@[j]).0)
                        && query_matches(*world, self.spec_components(), all@[j].1) && all@[j].0
                        != world.holder() && all@[j].1 != world.holder() implies pair_occurs_before(
                    r@,
                    r@.len() as int,
                    all@[j],
                ) by {
                    if j < k {
                        assert(pair_occurs_before(old_r, old_r.len() as int, all@[j]));
                        let ii = choose|ii: int| 0 <= ii < old_r.len() && #[trigger] old_r[ii] == all@[j];
                        assert(r@[ii] == all@[j]);
                    } else {
                        assert(r@[r@.len() - 1] == all@[j]);
                    }
                }
            }
            k = k + 1;
        }
        proof {
            assert forall|a: Entity, b: Entity|
                world.spec_entities().issued(a) && world.spec_entities().issued(b) && query_matches(
                    *world,
                    self.spec_components(),
                    a,
                ) && query_matches(*world, self.spec_components(), b) && a != world.holder() && b
                    != world.holder() && a.slot() < b.slot() implies #[trigger] pair_occurs_before(
                r@,
                r@.len() as int,
                (a, b),
            ) by {
                let j = choose|j: int|
                    0 <= j < all@.len() && (#[trigger] all@[j]).0.slot() == a.slot() && all@[j].1.slot()
                        == b.slot();
                Entity::lemma_eq(all@[j].0, a);
                Entity::lemma_eq(all@[j].1, b);
                assert(all@[j] == (a, b));
            }
        }
        r
    }

    /// The components requested by the query for `entity`, which must match the query. See
    /// `try_get`.
    pub fn get<'a, V>(&self, world: &'a World<V>, entity: Entity) -> (v: Vec<Option<&'a V>>)
        requires
            world.wf(),
            ids_below(self.spec_components(), world.registry().spec_len()),
            world.spec_entities().valid_id(entity.slot()),
            query_matches(*world, self.spec_components(), entity),
        ensures
            v@.len() == self.spec_components().len(),
            forall|k: int|
                0 <= k < v@.len() ==> {
                    let st = world.registry().storage(self.spec_components()[k].id.index() as int);
                    &&& ((#[trigger] v@[k]) is Some <==> st.contains_key(entity.slot() as usize))
                    &&& (v@[k] matches Some(x) ==> *x == st[entity.slot() as usize])
                },
    {
        self.try_get(world, entity).unwrap()
    }

    /// The `k`-th component requested by the query for `entity`, for modification; the `k`-th
    /// request must be mutable. `None` if `entity` is not alive or lacks that component.
    pub fn get_mut<'a, V>(&self, world: &'a mut World<V>, entity: Entity, k: usize) -> (r: Option<&'a mut V>)
        requires
            old(world).wf(),
            ids_below(self.spec_components(), old(world).registry().spec_len()),
            old(world).spec_entities().valid_id(entity.slot()),
            k < self.spec_components().len(),
            self.spec_components()[k as int].mutable,
            old(world).registry().borrow_state(self.spec_components()[k as int].id.index() as int)
                == BorrowState::Exclusive,
        ensures
            final(world).wf(),
            final(world).spec_entities() == old(world).spec_entities(),
            final(world).holder() == old(world).holder(),
            old(world).registry().same_except_storage(
                final(world).registry(),
                self.spec_components()[k as int].id.index() as int,
            ),
            r is Some <==> old(world).component(entity, self.spec_components()[k as int].id) is Some,
            r matches Some(x) ==> {
                &&& old(world).component(entity, self.spec_components()[k as int].id) == Some(*x)
                &&& final(world).registry().storage(self.spec_components()[k as int].id.index() as int)
                    == old(world).registry().storage(
                    self.spec_components()[k as int].id.index() as int,
                ).insert(entity.slot() as usize, *final(x))
            },
            r is None ==> final(world).registry().storage(self.spec_components()[k as int].id.index() as int)
                == old(world).registry().storage(self.spec_components()[k as int].id.index() as int),
    {
        let id = self.components[k].id;
        match world.entities.id(entity) {
            Some(slot) => world.component_registry.get_mut(id, slot as usize),
            None => None,
        }
    }
}


/// The first request of `cs`, at or after position `k`, that conflicts with how its kind of
/// component is lent out in `states`, ignoring the other requests of `cs`.
pub open spec fn first_outside_conflict(states: Seq<BorrowState>, cs: Seq<ComponentQuery>, k: int) -> Option<int>
    decreases cs.len() - k,
{
    if k < 0 || k >= cs.len() {
        None
    } else if !borrow_allowed(states[cs[k].id.index() as int], cs[k].mutable) {
        Some(k)
    } else {
        first_outside_conflict(states, cs, k + 1)
    }
}

/// Requests that do not name kind `i` leave its borrow state alone.
proof fn lemma_borrow_seq_untouched(states: Seq<BorrowState>, t: Seq<ComponentQuery>, i: int)
    requires
        0 <= i < states.len(),
        ids_below(t, states.len()),
        forall|j: int| 0 <= j < t.len() ==> (#[trigger] t[j]).id.index() != i,
    ensures
        borrow_seq(states, t)[i] == states[i],
    decreases t.len(),
{
    if t.len() > 0 {
        assert forall|j: int| 0 <= j < t.drop_last().len() implies (#[trigger] t.drop_last()[j]).id.index() != i by {
            assert(t.drop_last()[j] == t[j]);
        }
        assert(ids_below(t.drop_last(), states.len()));
        lemma_borrow_seq_untouched(states, t.drop_last(), i);
        lemma_borrow_seq_len(states, t.drop_last());
        assert(t.last() == t[t.len() - 1]);
    }
}

/// Immutable requests never make a kind exclusively borrowed.
proof fn lemma_borrow_seq_not_exclusive(states: Seq<BorrowState>, t: Seq<ComponentQuery>, i: int)
    requires
        0 <= i < states.len(),
        ids_below(t, states.len()),
        forall|j: int| 0 <= j < t.len() && (#[trigger] t[j]).id.index() == i ==> !t[j].mutable,
        states[i] != BorrowState::Exclusive,
    ensures
        borrow_seq(states, t)[i] != BorrowState::Exclusive,
    decreases t.len(),
{
    if t.len() > 0 {
        assert forall|j: int| 0 <= j < t.drop_last().len() && (#[trigger] t.drop_last()[j]).id.index() == i implies !t.drop_last()[j].mutable by {
            assert(t.drop_last()[j] == t[j]);
        }
        assert(ids_below(t.drop_last(), states.len()));
        lemma_borrow_seq_not_exclusive(states, t.drop_last(), i);
        lemma_borrow_seq_len(states, t.drop_last());
        assert(t.last() == t[t.len() - 1]);
    }
}

/// In a valid query whose earlier requests do not conflict with `states`, whether the `k`-th
/// request can be granted after the earlier ones depends on `states` alone.
proof fn lemma_valid_step(states: Seq<BorrowState>, cs: Seq<ComponentQuery>, k: int)
    requires
        ids_below(cs, states.len()),
        access_valid(cs),
        0 <= k < cs.len(),
        forall|j: int| 0 <= j < k ==> borrow_allowed(states[(#[trigger] cs[j]).id.index() as int], cs[j].mutable),
    ensures
        borrow_allowed(borrow_seq(states, cs.take(k))[cs[k].id.index() as int], cs[k].mutable)
            == borrow_allowed(states[cs[k].id.index() as int], cs[k].mutable),
{
    let t = cs.take(k);
    let i = cs[k].id.index() as int;
    assert(ids_below(t, states.len()));
    if cs[k].mutable {
        assert forall|j: int| 0 <= j < t.len() implies (#[trigger] t[j]).id.index() != i by {
            assert(t[j] == cs[j]);
            assert(cs[j].id != cs[k].id);
            if cs[j].id.index() == i {
                ComponentId::lemma_index_injective(cs[j].id, cs[k].id);
            }
        }
        lemma_borrow_seq_untouched(states, t, i);
    } else {
        assert forall|j: int| 0 <= j < t.len() && (#[trigger] t[j]).id.index() == i implies !t[j].mutable by {
            assert(t[j] == cs[j]);
            ComponentId::lemma_index_injective(cs[j].id, cs[k].id);
        }
        if states[i] == BorrowState::Exclusive {
            assert forall|j: int| 0 <= j < t.len() implies (#[trigger] t[j]).id.index() != i by {
                assert(t[j] == cs[j]);
                assert(borrow_allowed(states[cs[j].id.index() as int], cs[j].mutable));
            }
            lemma_borrow_seq_untouched(states, t, i);
        } else {
            lemma_borrow_seq_not_exclusive(states, t, i);
        }
    }
}

proof fn lemma_valid_blocked_from(states: Seq<BorrowState>, cs: Seq<ComponentQuery>, k: int)
    requires
        ids_below(cs, states.len()),
        access_valid(cs),
        0 <= k <= cs.len(),
        forall|j: int| 0 <= j < k ==> borrow_allowed(states[(#[trigger] cs[j]).id.index() as int], cs[j].mutable),
    ensures
        first_blocked(states, cs, k) == first_outside_conflict(states, cs, k),
    decreases cs.len() - k,
{
    if k < cs.len() {
        lemma_valid_step(states, cs, k);
        if borrow_allowed(states[cs[k].id.index() as int], cs[k].mutable) {
            lemma_valid_blocked_from(states, cs, k + 1);
        }
    }
}

/// A query that respects the borrowing rules is never blocked by its own requests: it is blocked
/// exactly at its first request that conflicts with how the components are already lent out.
pub proof fn lemma_valid_query_blocks_only_on_others(states: Seq<BorrowState>, cs: Seq<ComponentQuery>)
    requires
        ids_below(cs, states.len()),
        access_valid(cs),
    ensures
        first_blocked(states, cs, 0) == first_outside_conflict(states, cs, 0),
{
    lemma_valid_blocked_from(states, cs, 0);
}

/// After a valid query is granted, every kind of component it requests mutably is exclusively
/// borrowed.
pub proof fn lemma_granted_mutable_is_exclusive(states: Seq<BorrowState>, cs: Seq<ComponentQuery>, k: int)
    requires
        ids_below(cs, states.len()),
        access_valid(cs),
        0 <= k < cs.len(),
        cs[k].mutable,
    ensures
        borrow_seq(states, cs)[cs[k].id.index() as int] == BorrowState::Exclusive,
    decreases cs.len(),
{
    let i = cs[k].id.index() as int;
    let p = cs.drop_last();
    assert(cs.last() == cs[cs.len() - 1]);
    assert(ids_below(p, states.len()));
    lemma_borrow_seq_len(states, p);
    if k == cs.len() - 1 {
    } else {
        assert(access_valid(p)) by {
            assert forall|a: int, b: int|
                0 <= a < b < p.len() && (p[a].mutable || p[b].mutable) implies #[trigger] p[a].id != #[trigger] p[b].id by {
                assert(p[a] == cs[a] && p[b] == cs[b]);
            }
        }
        assert(p[k] == cs[k]);
        assert(ids_below(p, states.len()));
        lemma_granted_mutable_is_exclusive(states, p, k);
        lemma_borrow_seq_len(states, p);
        if cs.last().id.index() == i {
            ComponentId::lemma_index_injective(cs.last().id, cs[k].id);
            assert(cs[k].id != cs[cs.len() - 1].id);
        }
    }
}

/// A valid query that requests a kind of component which is exclusively borrowed is refused.
pub proof fn lemma_exclusive_blocks(states: Seq<BorrowState>, cs: Seq<ComponentQuery>, k: int)
    requires
        ids_below(cs, states.len()),
        access_valid(cs),
        0 <= k < cs.len(),
        states[cs[k].id.index() as int] == BorrowState::Exclusive,
    ensures
        first_blocked(states, cs, 0) is Some,
{
    lemma_valid_query_blocks_only_on_others(states, cs);
    lemma_outside_conflict_found(states, cs, 0, k);
}

proof fn lemma_outside_conflict_found(states: Seq<BorrowState>, cs: Seq<ComponentQuery>, j: int, k: int)
    requires
        0 <= j <= k < cs.len(),
        !borrow_allowed(states[cs[k].id.index() as int], cs[k].mutable),
    ensures
        first_outside_conflict(states, cs, j) is Some,
    decreases k - j,
{
    if j < k && borrow_allowed(states[cs[j].id.index() as int], cs[j].mutable) {
        lemma_outside_conflict_found(states, cs, j + 1, k);
    }
}

} // verus!
