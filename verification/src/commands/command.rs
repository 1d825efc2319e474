use vstd::prelude::*;
use crate::component::BorrowState;
use crate::entity::Entity;
use crate::world::{all_unborrowed, despawn_post, World};

verus! {

/// A change to a world that is carried out when its command buffer is applied.
#[derive(Debug)]
pub enum Command<V> {
    /// Despawn an entity, dropping its components.
    Despawn(Entity),
    /// Give `entity` the component `component` of the kind registered for the Rust type with key
    /// `type_key`, registering that kind under `name` first if needed.
    AddComponent { entity: Entity, type_key: u64, name: String, component: V },
}

/// `new` is `old` after `entity` was given `component` of the kind registered for `type_key`,
/// registered under `name` first if it was not yet.
pub open spec fn add_command_post<V>(
    old: World<V>,
    new: World<V>,
    entity: Entity,
    type_key: u64,
    name: Seq<char>,
    component: V,
) -> bool {
    let id = new.registry().keys()[type_key];
    let i = id.index() as int;
    let slot = entity.slot() as usize;
    let alive = old.spec_entities().spec_exists(entity);
    &&& new.wf()
    &&& new.spec_entities() == old.spec_entities()
    &&& new.holder() == old.holder()
    &&& new.registry().keys().contains_key(type_key)
    &&& if old.registry().keys().contains_key(type_key) {
        &&& id == old.registry().keys()[type_key]
        &&& new.registry().keys() == old.registry().keys()
        &&& old.registry().same_except_storage(new.registry(), i)
        &&& new.registry().storage(i) == (if alive {
            old.registry().storage(i).insert(slot, component)
        } else {
            old.registry().storage(i)
        })
    } else {
        &&& i == old.registry().spec_len()
        &&& new.registry().keys() == old.registry().keys().insert(type_key, id)
        &&& new.registry().spec_len() == old.registry().spec_len() + 1
        &&& old.registry().kinds_kept(new.registry(), old.registry().spec_len())
        &&& new.registry().info(i).spec_name() == name
        &&& new.registry().info(i).spec_type_key() == Some(type_key)
        &&& new.registry().borrow_state(i) == BorrowState::Unborrowed
        &&& new.registry().storage(i) == (if alive {
            Map::<usize, V>::empty().insert(slot, component)
        } else {
            Map::<usize, V>::empty()
        })
    }
}

/// `new` is `old` after carrying out `c`.
pub open spec fn command_step<V>(old: World<V>, c: Command<V>, new: World<V>) -> bool {
    match c {
        Command::Despawn(e) => despawn_post(old, new, e),
        Command::AddComponent { entity, type_key, name, component } => add_command_post(
            old,
            new,
            entity,
            type_key,
            name@,
            component,
        ),
    }
}

/// `c` can be carried out on `w` without a panic.
pub open spec fn command_ok<V>(w: World<V>, c: Command<V>) -> bool {
    match c {
        Command::Despawn(e) => {
            &&& w.spec_entities().owns(e)
            &&& w.spec_entities().spec_exists(e) ==> e.generation() < u32::MAX
        },
        Command::AddComponent { entity, type_key, .. } => {
            &&& w.spec_entities().valid_id(entity.slot())
            &&& !w.registry().keys().contains_key(type_key) ==> w.registry().spec_len() <= u16::MAX
        },
    }
}

impl<V> Command<V> {
    /// Carries out the command on `world`.
    pub fn execute(self, world: &mut World<V>)
        requires
            old(world).wf(),
            all_unborrowed(old(world).registry()),
            command_ok(*old(world), self),
        ensures
            command_step(*old(world), self, *final(world)),
            all_unborrowed(final(world).registry()),
    {
        match self {
            Command::Despawn(entity) => {
                let ghost before = *world;
                world.despawn(entity);
                proof {
                    assert forall|j: int| 0 <= j < world.registry().spec_len() implies #[trigger] world.registry().borrow_state(j)
                        == BorrowState::Unborrowed by {
                        if *world != before {
                            assert(world.registry().info(j) == before.registry().info(j));
                        }
                        assert(before.registry().borrow_state(j) == BorrowState::Unborrowed);
                    }
                }
            },
            Command::AddComponent { entity, type_key, name, component } => {
                proof {
                    world.registry().lemma_keys_valid();
                }
                world.add_for_key(entity, type_key, name, component);
                proof {
                    assert forall|j: int| 0 <= j < world.registry().spec_len() implies #[trigger] world.registry().borrow_state(j)
                        == BorrowState::Unborrowed by {
                        if j < old(world).registry().spec_len() {
                            assert(old(world).registry().borrow_state(j) == BorrowState::Unborrowed);
                        }
                    }
                }
            },
        }
    }
}

} // verus!
