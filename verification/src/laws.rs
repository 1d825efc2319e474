//! Properties that relate several operations of the library.
use vstd::prelude::*;
use crate::component::ComponentId;
use crate::entity::{Entities, Entity};
use crate::world::{despawn_post, query_matches, World};
use crate::query::ComponentQuery;
use crate::commands::command::add_command_post;

verus! {

/// Generations growing is transitive: it holds across any run of spawns and despawns.
pub proof fn lemma_generations_grew_transitive(a: Entities, b: Entities, c: Entities)
    requires
        a.generations_grew(b),
        b.generations_grew(c),
    ensures
        a.generations_grew(c),
{
    assert forall|i: int| 0 <= i < a.gens().len() implies a.gens()[i] <= #[trigger] c.gens()[i] by {
        assert(a.gens()[i] <= b.gens()[i]);
    }
}

/// Despawning an entity moves its slot past the handle's generation.
pub proof fn lemma_despawn_outdates_handle(before: Entities, after: Entities, e: Entity)
    requires
        before.valid_id(e.slot()),
        before.spec_exists(e),
        e.generation() < u32::MAX,
        after.gens() == before.gens().update(e.slot() as int, (e.generation() + 1) as u32),
    ensures
        after.gens()[e.slot() as int] > e.generation(),
        !after.spec_exists(e),
{
}

/// A handle whose slot has moved past its generation (as after despawning it) never refers to a
/// living entity again, however many entities are spawned or despawned later.
pub proof fn lemma_outdated_handle_stays_dead(before: Entities, after: Entities, e: Entity)
    requires
        before.valid_id(e.slot()),
        before.gens()[e.slot() as int] > e.generation(),
        before.generations_grew(after),
    ensures
        !after.spec_exists(e),
        after.valid_id(e.slot()) ==> after.gens()[e.slot() as int] > e.generation(),
{
    assert(before.gens()[e.slot() as int] <= after.gens()[e.slot() as int]);
}

/// `spawn` returns a handle that differs from every handle handed out before it.
pub proof fn lemma_spawn_is_fresh(before: Entities, after: Entities, e: Entity, x: Entity)
    requires
        before.spawn_post(after, e),
        before.issued(x),
    ensures
        x != e,
{
    if x == e {
        if before.free().len() > 0 {
            assert(before.free().contains(e.slot())) by {
                assert(before.free()[before.free().len() - 1] == e.slot());
            }
        }
    }
}

/// After adding a component to a living entity, reading it back gives that component.
pub proof fn lemma_get_after_add<V>(before: World<V>, after: World<V>, e: Entity, id: ComponentId, v: V)
    requires
        before.spec_entities().spec_exists(e),
        after.spec_entities() == before.spec_entities(),
        after.registry().storage(id.index() as int) == before.registry().storage(id.index() as int).insert(
            e.slot() as usize,
            v,
        ),
    ensures
        after.component(e, id) == Some(v),
{
}

/// Adding a component by the key of its Rust type registers the kind when it is missing: the kind
/// is then registered, a living entity has the component, and every entity of another slot keeps
/// the components it had.
pub proof fn lemma_add_for_key_then_get<V>(
    before: World<V>,
    after: World<V>,
    e: Entity,
    type_key: u64,
    name: Seq<char>,
    v: V,
    x: Entity,
    id: ComponentId,
)
    requires
        before.wf(),
        add_command_post(before, after, e, type_key, name, v),
    ensures
        after.registry().keys().contains_key(type_key),
        before.spec_entities().spec_exists(e) ==> after.component(e, after.registry().keys()[type_key]) == Some(v),
        before.registry().contains(id) && x.slot() != e.slot() ==> after.component(x, id) == before.component(x, id),
{
    let k = after.registry().keys()[type_key];
    let i = k.index() as int;
    if before.registry().contains(id) && x.slot() != e.slot() {
        let j = id.index() as int;
        if before.registry().keys().contains_key(type_key) {
            if j != i {
                assert(after.registry().storage(j) == before.registry().storage(j));
            } else {
                assert(after.registry().storage(j).contains_key(x.slot() as usize) == before.registry().storage(j).contains_key(
                    x.slot() as usize,
                ));
            }
        } else {
            assert(after.registry().info(j) == before.registry().info(j));
            assert(after.registry().storage(j) == before.registry().storage(j));
        }
    }
}

/// After removing a component from an entity, the entity no longer has one of that kind.
pub proof fn lemma_remove_leaves_none<V>(before: World<V>, after: World<V>, e: Entity, id: ComponentId)
    requires
        after.spec_entities() == before.spec_entities(),
        after.registry().storage(id.index() as int) == before.registry().storage(id.index() as int).remove(
            e.slot() as usize,
        ),
    ensures
        after.component(e, id) is None,
{
}

/// Despawning an entity takes all its components away and leaves those of every other entity
/// as they were; the resource holder cannot be despawned.
pub proof fn lemma_despawn_components<V>(before: World<V>, after: World<V>, e: Entity, x: Entity, id: ComponentId)
    requires
        before.wf(),
        before.registry().contains(id),
        despawn_post(before, after, e),
        before.spec_entities().spec_exists(e) ==> e.generation() < u32::MAX,
        before.spec_entities().issued(x),
        x != e,
    ensures
        e != before.holder() ==> after.component(e, id) is None,
        after.component(x, id) == before.component(x, id),
        e == before.holder() ==> after == before,
{
    let i = id.index() as int;
    if before.spec_entities().spec_exists(e) && e != before.holder() {
        assert(after.registry().info(i) == before.registry().info(i));
        assert(after.registry().storage(i) == before.registry().storage(i).remove(e.slot() as usize));
        assert(!after.spec_entities().spec_exists(e));
        if before.spec_entities().spec_exists(x) {
            if x.slot() == e.slot() {
                Entity::lemma_eq(x, e);
            }
            assert(after.spec_entities().gens()[x.slot() as int] == before.spec_entities().gens()[x.slot() as int]);
        } else {
            if after.spec_entities().spec_exists(x) {
                assert(x.slot() != e.slot());
                assert(after.spec_entities().gens()[x.slot() as int] == before.spec_entities().gens()[x.slot() as int]);
            }
        }
    }
}

/// Whether an entity matches a query does not depend on which requests are mutable: two queries
/// that ask for the same kinds, with the same requests optional, match the same entities.
pub proof fn lemma_matching_ignores_mutability<V>(w: World<V>, cs: Seq<ComponentQuery>, ds: Seq<ComponentQuery>, e: Entity)
    requires
        cs.len() == ds.len(),
        forall|k: int| 0 <= k < cs.len() ==> (#[trigger] cs[k]).id == ds[k].id && cs[k].optional == ds[k].optional,
    ensures
        query_matches(w, cs, e) == query_matches(w, ds, e),
{
    if query_matches(w, cs, e) {
        assert forall|k: int| 0 <= k < ds.len() && !(#[trigger] ds[k]).optional implies w.registry().storage(
            ds[k].id.index() as int,
        ).contains_key(e.slot() as usize) by {
            assert(cs[k].id == ds[k].id);
        }
    }
    if query_matches(w, ds, e) {
        assert forall|k: int| 0 <= k < cs.len() && !(#[trigger] cs[k]).optional implies w.registry().storage(
            cs[k].id.index() as int,
        ).contains_key(e.slot() as usize) by {
            assert(cs[k].id == ds[k].id);
        }
    }
}

/// A query with no requests matches exactly the living entities.
pub proof fn lemma_empty_query_matches_living<V>(w: World<V>, e: Entity)
    ensures
        query_matches(w, Seq::<ComponentQuery>::empty(), e) == w.spec_entities().spec_exists(e),
{
}

/// An optional request never filters: adding one to a query leaves the matching entities as they
/// were, whether it is mutable or not.
pub proof fn lemma_optional_request_never_filters<V>(w: World<V>, cs: Seq<ComponentQuery>, c: ComponentQuery, e: Entity)
    requires
        c.optional,
    ensures
        query_matches(w, cs.push(c), e) == query_matches(w, cs, e),
{
    let ds = cs.push(c);
    if query_matches(w, cs, e) {
        assert forall|k: int| 0 <= k < ds.len() && !(#[trigger] ds[k]).optional implies w.registry().storage(
            ds[k].id.index() as int,
        ).contains_key(e.slot() as usize) by {
            assert(k < cs.len());
            assert(ds[k] == cs[k]);
        }
    }
    if query_matches(w, ds, e) {
        assert forall|k: int| 0 <= k < cs.len() && !(#[trigger] cs[k]).optional implies w.registry().storage(
            cs[k].id.index() as int,
        ).contains_key(e.slot() as usize) by {
            assert(ds[k] == cs[k]);
        }
    }
}

/// A required request filters by its kind alone: adding one to a query keeps exactly the matching
/// entities that have a component of that kind, whether the request is mutable or not.
pub proof fn lemma_required_request_filters<V>(w: World<V>, cs: Seq<ComponentQuery>, c: ComponentQuery, e: Entity)
    requires
        !c.optional,
    ensures
        query_matches(w, cs.push(c), e) == (query_matches(w, cs, e) && w.registry().storage(c.id.index() as int).contains_key(
            e.slot() as usize,
        )),
{
    let ds = cs.push(c);
    if query_matches(w, ds, e) {
        assert(ds[cs.len() as int] == c);
        assert forall|k: int| 0 <= k < cs.len() && !(#[trigger] cs[k]).optional implies w.registry().storage(
            cs[k].id.index() as int,
        ).contains_key(e.slot() as usize) by {
            assert(ds[k] == cs[k]);
        }
    }
    if query_matches(w, cs, e) && w.registry().storage(c.id.index() as int).contains_key(e.slot() as usize) {
        assert forall|k: int| 0 <= k < ds.len() && !(#[trigger] ds[k]).optional implies w.registry().storage(
            ds[k].id.index() as int,
        ).contains_key(e.slot() as usize) by {
            if k < cs.len() {
                assert(ds[k] == cs[k]);
            }
        }
    }
}

/// Adding a component through a handle that is not alive stores nothing: every kind registered
/// before keeps exactly its components, a kind registered by the call holds none, and so no entity,
/// including one spawned later in the handle's slot, gets the component.
pub proof fn lemma_add_to_dead_handle_stores_nothing<V>(
    before: World<V>,
    after: World<V>,
    e: Entity,
    type_key: u64,
    name: Seq<char>,
    v: V,
    x: Entity,
)
    requires
        before.wf(),
        !before.spec_entities().spec_exists(e),
        add_command_post(before, after, e, type_key, name, v),
    ensures
        after.spec_entities() == before.spec_entities(),
        forall|j: int| 0 <= j < before.registry().spec_len() ==> #[trigger] after.registry().storage(j) == before.registry().storage(j),
        !before.registry().keys().contains_key(type_key) ==> after.registry().storage(
            after.registry().keys()[type_key].index() as int,
        ) == Map::<usize, V>::empty(),
        after.component(x, after.registry().keys()[type_key]) == (if before.registry().keys().contains_key(type_key) {
            before.component(x, before.registry().keys()[type_key])
        } else {
            None::<V>
        }),
{
    before.registry().lemma_keys_valid();
    let i = after.registry().keys()[type_key].index() as int;
    assert forall|j: int| 0 <= j < before.registry().spec_len() implies #[trigger] after.registry().storage(j)
        == before.registry().storage(j) by {
        if !before.registry().keys().contains_key(type_key) {
            assert(after.registry().info(j) == before.registry().info(j));
        }
    }
}

} // verus!
