use std::time::Duration;

use ecs::component::storage::{next_power_of_two, padding_needed_for};
use ecs::component::{ComponentRegistry, Storage, StorageType, VecStorage};
use ecs::rendering::{batch_layout, MeshSummary, ObjFileSummary};
use ecs::{BorrowMutError, CommandBuffer, Commands, ComponentQuery, Entities, Query, Time, WindowMode, World, WorldId};

fn q(id: ecs::component::ComponentId, mutable: bool) -> ComponentQuery {
    ComponentQuery { id, mutable, optional: false }
}

fn opt(id: ecs::component::ComponentId) -> ComponentQuery {
    ComponentQuery { id, mutable: false, optional: true }
}

#[test]
fn respawned_slot_gets_a_new_generation() {
    let mut entities = Entities::new();
    let a = entities.spawn();
    assert_eq!(0, a.get_id_unchecked());
    assert!(entities.despawn(a));
    assert!(!entities.despawn(a));
    let b = entities.spawn();
    assert_eq!(0, b.get_id_unchecked());
    assert_ne!(a, b);
    assert!(!entities.entity_exists(a));
    assert_eq!(None, entities.id(a));
    assert_eq!(Some(0), entities.id(b));
    assert!(entities.despawn(b));
    let c = entities.spawn();
    assert!(!entities.entity_exists(a));
    assert!(!entities.entity_exists(b));
    assert!(entities.entity_exists(c));
}

#[test]
fn spawn_reuses_the_most_recently_freed_slot() {
    let mut entities = Entities::new();
    let es: Vec<_> = (0..4).map(|_| entities.spawn()).collect();
    entities.despawn(es[1]);
    entities.despawn(es[3]);
    assert_eq!(3, entities.spawn().get_id_unchecked());
    assert_eq!(1, entities.spawn().get_id_unchecked());
    assert_eq!(4, entities.spawn().get_id_unchecked());
}

#[test]
fn iteration_is_in_slot_order_and_pairs_are_unique() {
    let mut entities = Entities::new();
    let es: Vec<_> = (0..5).map(|_| entities.spawn()).collect();
    entities.despawn(es[2]);
    assert_eq!(vec![es[0], es[1], es[3], es[4]], entities.iter());
    let pairs = entities.iter_combinations();
    assert_eq!(
        vec![
            (es[0], es[1]),
            (es[0], es[3]),
            (es[0], es[4]),
            (es[1], es[3]),
            (es[1], es[4]),
            (es[3], es[4])
        ],
        pairs
    );
}

#[test]
fn query_new_reports_the_first_offending_request() {
    let mut reg: ComponentRegistry<u8> = ComponentRegistry::new();
    let a = reg.register_raw(None, "A".to_string());
    let b = reg.register_raw(None, "B".to_string());
    assert_eq!(
        Err(BorrowMutError::new(b)),
        Query::new(vec![q(b, true), q(a, true), q(b, true), q(a, true)])
    );
    assert_eq!(Err(BorrowMutError::new(a)), Query::new(vec![q(b, false), q(a, false), q(a, true)]));
    assert_eq!(Some(b), Query::new(vec![q(a, true), q(b, true), q(b, true)]).err().map(|e| e.component_id()));
    let ok = Query::new(vec![q(a, false), q(a, false), q(b, true)]).unwrap();
    assert!(!ok.is_immutable());
    assert_eq!(3, ok.components().len());
    assert!(Query::new(vec![q(a, false), q(b, false)]).unwrap().is_immutable());
}

#[test]
fn refused_query_gives_back_what_it_took() {
    let mut world: World<u32> = World::new();
    let a = world.component_registry_mut().register_raw(Some(1), "A".to_string());
    let b = world.component_registry_mut().register_raw(Some(2), "B".to_string());
    let holds_b = world.try_query(&Query::new(vec![q(b, true)]).unwrap()).unwrap();
    let both = Query::new(vec![q(a, true), q(b, false)]).unwrap();
    assert_eq!(BorrowMutError::new(b), world.try_query(&both).unwrap_err());
    // `a` was handed back when the query was refused.
    let holds_a = world.try_query(&Query::new(vec![q(a, true)]).unwrap()).unwrap();
    world.release(holds_a);
    world.release(holds_b);
    let r = world.try_query(&both).unwrap();
    world.release(r);
}

#[test]
fn optional_components_do_not_filter() {
    let mut world: World<u32> = World::new();
    let a = world.component_registry_mut().register_raw(Some(1), "A".to_string());
    let b = world.component_registry_mut().register_raw(Some(2), "B".to_string());
    let e1 = world.spawn();
    let e2 = world.spawn();
    world.add(e1, a, 10);
    world.add(e2, a, 20);
    world.add(e2, b, 21);
    let res = world.query(&Query::new(vec![q(a, false), opt(b)]).unwrap());
    assert_eq!(vec![e1, e2], res.iter(&world));
    assert_eq!(vec![Some(&10), None], res.get(&world, e1));
    assert_eq!(vec![Some(&20), Some(&21)], res.get(&world, e2));
    assert_eq!(vec![(e1, e2)], res.iter_combinations(&world));
    world.release(res);
    let res = world.query(&Query::new(vec![q(b, false)]).unwrap());
    assert_eq!(vec![e2], res.iter(&world));
    assert!(res.try_get(&world, e1).is_none());
    assert!(res.iter_combinations(&world).is_empty());
    world.release(res);
}

#[test]
fn despawn_drops_every_component_of_the_entity_only() {
    let mut world: World<u32> = World::new();
    let a = world.component_registry_mut().register_raw(Some(1), "A".to_string());
    let b = world.component_registry_mut().register_raw(None, "B".to_string());
    let e1 = world.spawn();
    let e2 = world.spawn();
    world.add(e1, a, 1);
    world.add(e1, b, 2);
    world.add(e2, a, 3);
    assert!(world.despawn(e1));
    assert!(!world.despawn(e1));
    assert_eq!(None, world.get(e1, a));
    assert_eq!(Some(&3), world.get(e2, a));
    // A new entity in the freed slot starts without components.
    let e3 = world.spawn();
    assert_eq!(e1.get_id_unchecked(), e3.get_id_unchecked());
    assert_eq!(None, world.get(e3, a));
    assert_eq!(None, world.get(e3, b));
    // Adding to a dead entity does nothing.
    assert!(!world.add(e1, a, 9));
    assert_eq!(None, world.get(e3, a));
    assert!(world.add(e3, a, 4));
    assert!(!world.add(e3, a, 5));
    assert_eq!(Some(&5), world.get(e3, a));
}

#[test]
fn resources_are_not_query_results() {
    let mut world: World<u32> = World::new();
    let r = world.add_resource(Some(5), "R".to_string(), 7);
    assert_eq!(Some(&7), world.resource(r));
    let res = world.query(&Query::new(vec![q(r.component_id(), false)]).unwrap());
    assert!(res.iter(&world).is_empty());
    world.release(res);
    assert_eq!(Some(r.component_id()), world.component_id(5));
}

#[test]
fn commands_register_kinds_and_run_in_order() {
    let mut world: World<u32> = World::new();
    let mut buffer = CommandBuffer::new();
    let e;
    {
        let mut commands = Commands::new(&mut buffer, &mut world);
        e = commands.spawn();
        commands.add(e, 42, "Answer".to_string(), 1);
        commands.add(e, 42, "Answer".to_string(), 2);
    }
    assert_eq!(None, world.component_id(42));
    buffer.apply(&mut world);
    let id = world.component_id(42).unwrap();
    assert_eq!("Answer", world.component_registry().entry(id).info.name());
    assert_eq!(Some(&2), world.get(e, id));
    {
        let mut commands = Commands::new(&mut buffer, &mut world);
        commands.despawn(e);
        commands.add(e, 42, "Answer".to_string(), 3);
    }
    buffer.apply(&mut world);
    assert!(!world.entities().entity_exists(e));
    assert_eq!(1, world.component_registry().len());
    // Applying an empty buffer changes nothing.
    buffer.apply(&mut world);
    assert_eq!(1, world.component_registry().len());
}

#[test]
fn storage_grows_to_powers_of_two() {
    assert_eq!(1, next_power_of_two(0));
    assert_eq!(1, next_power_of_two(1));
    assert_eq!(8, next_power_of_two(5));
    assert_eq!(1024, next_power_of_two(1000));
    assert_eq!(1024, next_power_of_two(1024));
    let mut s: VecStorage<u8> = VecStorage::new();
    assert!(s.set(1000, 1));
    assert_eq!(Some(&1), s.get(1000));
    assert_eq!(None, s.get(999));
    assert_eq!(None, s.get(5000));
    assert!(s.unset(1000));
    assert!(!s.unset(1000));
    let mut st: Storage<u8> = Storage::new(StorageType::VecStorage);
    assert!(st.set(3, 9));
    if let Some(v) = st.get_mut(3) {
        *v += 1;
    }
    assert_eq!(Some(10), st.remove(3));
    assert_eq!(None, st.remove(3));
}

#[test]
fn small_types() {
    let id = WorldId::for_new_world(3);
    assert_eq!(3, id.i());
    let t = Time::default();
    assert_eq!(Duration::ZERO, t.dt());
    assert_eq!(Duration::ZERO, t.time_since_startup());
    assert_ne!(WindowMode::CameraMode, WindowMode::CursorMode);
}

#[test]
fn spawning_through_commands_is_immediate_despawning_deferred() {
    let mut world: World<(f32, f32)> = World::new();
    let e1 = world.spawn();

    let mut command_buffer = CommandBuffer::new();
    let e2;
    {
        let mut commands = Commands::new(&mut command_buffer, &mut world);
        e2 = commands.spawn();
        commands.add(e2, 1, "Position".to_string(), (0.0, 0.0));
        commands.despawn(e1);
    }

    assert!(world.entities().entity_exists(e2));
    assert!(world.entities().entity_exists(e1));
    assert!(world.component_id(1).is_none());

    command_buffer.apply(&mut world);

    assert!(!world.entities().entity_exists(e1));
    assert!(world.entities().entity_exists(e2));
    assert_eq!(Some(&(0.0, 0.0)), world.get(e2, world.component_id(1).unwrap()));
}

/// A handle to slot 0 whose generation is two ahead of a fresh world's slot 0.
fn handle_from_elsewhere() -> ecs::Entity {
    let mut other = Entities::new();
    let x = other.spawn();
    assert!(other.despawn(x));
    let y = other.spawn();
    assert!(other.despawn(y));
    other.spawn()
}

#[test]
fn despawning_a_handle_of_another_world_does_nothing() {
    let mut world: World<u32> = World::new();
    let a = world.component_registry_mut().register_raw(Some(1), "A".to_string());
    let e = world.spawn();
    world.add(e, a, 1);
    let foreign = handle_from_elsewhere();
    assert_eq!(0, foreign.get_id_unchecked());
    assert!(!world.despawn(foreign));
    assert!(world.entities().entity_exists(e));
    assert_eq!(Some(&1), world.get(e, a));
    let mut buffer = CommandBuffer::new();
    {
        let mut commands = Commands::new(&mut buffer, &mut world);
        commands.despawn(foreign);
        commands.despawn(e);
    }
    buffer.apply(&mut world);
    assert!(!world.entities().entity_exists(e));
    assert_eq!(1, world.entities().free_count());
}

#[test]
fn add_for_key_registers_a_missing_kind() {
    let mut world: World<u32> = World::new();
    let e = world.spawn();
    assert_eq!(None, world.component_id(9));
    assert!(world.add_for_key(e, 9, "Nine".to_string(), 1));
    let id = world.component_id(9).unwrap();
    assert_eq!("Nine", world.component_registry().entry(id).info.name());
    assert_eq!(Some(&1), world.get(e, id));
    assert!(!world.add_for_key(e, 9, "Other".to_string(), 2));
    assert_eq!(Some(&2), world.get(e, id));
    assert_eq!(1, world.component_registry().len());
    assert!(world.despawn(e));
    assert!(!world.add_for_key(e, 10, "Ten".to_string(), 3));
    let ten = world.component_id(10).unwrap();
    assert_eq!(2, world.component_registry().len());
    assert_eq!(None, world.get(e, ten));
}

fn mesh(name: &str, num_vertices: u32, num_elements: u32, material_id: Option<usize>) -> MeshSummary {
    MeshSummary { name: name.to_string(), num_vertices, num_elements, material_id }
}

#[test]
fn batch_layout_places_meshes_and_materials_one_after_another() {
    let files = vec![
        ObjFileSummary {
            material_names: vec!["wood".to_string(), "metal".to_string()],
            meshes: vec![mesh("table", 10, 30, Some(1)), mesh("leg", 4, 6, None)],
        },
        ObjFileSummary { material_names: vec![], meshes: vec![mesh("rock", 7, 9, None)] },
        ObjFileSummary {
            material_names: vec!["glass".to_string()],
            meshes: vec![mesh("cup", 5, 12, Some(0)), mesh("lid", 3, 3, Some(0))],
        },
    ];
    let (materials, models) = batch_layout(&files);
    let names: Vec<&str> = materials.iter().map(|m| m.name.as_str()).collect();
    assert_eq!(vec!["wood", "metal", "glass"], names);
    for (g, m) in materials.iter().enumerate() {
        assert_eq!(g, m.diffuse_texture_index);
        assert_eq!(g, m.normal_texture_index);
    }
    assert_eq!(3, models.len());
    let placed: Vec<Vec<(&str, u64, u64, usize, u32, u32)>> = models
        .iter()
        .map(|model| {
            model
                .meshes
                .iter()
                .map(|m| (m.name.as_str(), m.vtx_start, m.idx_start, m.material_index, m.num_vertices, m.num_elements))
                .collect()
        })
        .collect();
    assert_eq!(
        vec![
            vec![("table", 0, 0, 1, 10, 30), ("leg", 10, 30, 0, 4, 6)],
            vec![("rock", 14, 36, 0, 7, 9)],
            vec![("cup", 21, 45, 2, 5, 12), ("lid", 26, 57, 2, 3, 3)],
        ],
        placed
    );
}

#[test]
fn batch_layout_of_nothing_is_empty() {
    let (materials, models) = batch_layout(&Vec::new());
    assert!(materials.is_empty());
    assert!(models.is_empty());
}

#[test]
fn time_advances_by_ten_milliseconds() {
    let mut t = Time::default();
    t.advance();
    assert_eq!(Duration::from_millis(10), t.dt());
    assert_eq!(Duration::from_millis(10), t.time_since_startup());
    t.advance();
    assert_eq!(Duration::from_millis(10), t.dt());
    assert_eq!(Duration::from_millis(20), t.time_since_startup());
    assert_eq!(20_000_000, t.since_startup_nanos());
}

#[test]
fn padding_rounds_up_to_the_alignment() {
    assert_eq!(3, padding_needed_for(5, 4));
    assert_eq!(0, padding_needed_for(8, 8));
    assert_eq!(0, padding_needed_for(0, 1));
    assert_eq!(7, padding_needed_for(9, 8));
    assert_eq!(0, padding_needed_for(0, 16));
}

#[test]
fn can_despawn_and_can_apply_check_handles() {
    let mut world: World<u32> = World::new();
    let e = world.spawn();
    assert!(world.can_despawn(e));
    // A handle whose generation is ahead of its slot but whose slot is in use is owned.
    let foreign = handle_from_elsewhere();
    assert!(world.can_despawn(foreign));
    let mut buffer = CommandBuffer::new();
    {
        let mut commands = Commands::new(&mut buffer, &mut world);
        commands.despawn(e);
        commands.add(e, 3, "Three".to_string(), 1);
    }
    assert!(buffer.can_apply(&world));
    buffer.apply(&mut world);
    // The slot of `e` is free now: a handle with its new generation is not owned by the world.
    let mut other = Entities::new();
    let _ = other.spawn();
    let x = other.spawn();
    assert!(other.despawn(x));
    let ahead = other.spawn();
    assert_eq!(e.get_id_unchecked(), ahead.get_id_unchecked());
    assert_eq!(1, ahead.get_generation_unchecked());
    assert!(!world.can_despawn(ahead));
    {
        let mut commands = Commands::new(&mut buffer, &mut world);
        commands.despawn(ahead);
    }
    assert!(!buffer.can_apply(&world));
}

#[test]
fn a_handle_with_the_next_generation_may_not_follow_the_despawn_of_its_slot() {
    let mut world: World<u32> = World::new();
    let e = world.spawn();
    let mut other = Entities::new();
    let _ = other.spawn();
    let x = other.spawn();
    assert!(other.despawn(x));
    let next = other.spawn();
    assert_eq!(e.get_id_unchecked(), next.get_id_unchecked());
    assert_eq!(e.get_generation_unchecked() + 1, next.get_generation_unchecked());
    let mut buffer = CommandBuffer::new();
    {
        let mut commands = Commands::new(&mut buffer, &mut world);
        commands.despawn(e);
        commands.despawn(next);
    }
    assert!(!buffer.can_apply(&world));
    let mut fine = CommandBuffer::new();
    {
        let mut commands = Commands::new(&mut fine, &mut world);
        commands.despawn(next);
        commands.despawn(e);
    }
    assert!(fine.can_apply(&world));
}

#[test]
fn can_release_only_what_was_granted() {
    let mut world: World<u32> = World::new();
    let a = world.component_registry_mut().register_raw(Some(1), "A".to_string());
    let q_mut = Query::new(vec![q(a, true)]).unwrap();
    let res = world.query(&q_mut);
    assert!(world.can_release(&res));
    let mut other: World<u32> = World::new();
    assert!(!other.can_release(&res));
    let b = other.component_registry_mut().register_raw(Some(1), "A".to_string());
    assert_eq!(a, b);
    assert!(!other.can_release(&res));
    world.release(res);
    assert!(world.component_registry().nothing_borrowed());
}
