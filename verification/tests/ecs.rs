use std::cell::Cell;
use std::collections::HashSet;
use std::rc::Rc;

use ecs::component::{ComponentRegistry, Storage, StorageType};
use ecs::{BorrowMutError, CommandBuffer, Commands, ComponentQuery, Entities, Entity, Query, World};

fn cq(id: ecs::component::ComponentId, mutable: bool) -> ComponentQuery {
    ComponentQuery { id, mutable, optional: false }
}

#[test]
fn validate_empty_query() {
    assert!(Query::new(vec![]).is_ok());
}

#[test]
fn component_registry() {
    let mut reg: ComponentRegistry<u8> = ComponentRegistry::new();
    let a_id = reg.register_raw(Some(1), "A".to_string());
    let b_id = reg.register_raw(Some(2), "B".to_string());

    assert_eq!("A", reg.entry(a_id).info.name());
    assert_eq!("B", reg.entry(b_id).info.name());

    assert_eq!(Some(&reg.entry(a_id).info), reg.component_for_key(1).map(|c| &c.info));
    assert_eq!(Some(&reg.entry(b_id).info), reg.component_for_key(2).map(|c| &c.info));
    assert!(reg.component_for_key(3).is_none());

    assert_eq!(Some(a_id), reg.id_for_key(1));
    assert_eq!(Some(b_id), reg.id_for_key(2));
    assert_eq!(None, reg.id_for_key(3));
    assert_eq!(2, reg.len());
}

#[test]
fn entities() {
    let mut entities = Entities::default();
    let a = entities.spawn();
    assert!(entities.entity_exists(a));
    assert!(entities.despawn(a));

    let b = entities.spawn();
    assert!(entities.entity_exists(b));
    assert!(!entities.entity_exists(a));
    assert_ne!(a, b);

    let c = entities.spawn();
    let d = entities.spawn();
    assert!(!entities.entity_exists(a));
    assert!(entities.entity_exists(b));
    assert!(entities.entity_exists(c));
    assert!(entities.entity_exists(d));

    assert!(entities.despawn(c));

    assert!(!entities.entity_exists(a));
    assert!(entities.entity_exists(b));
    assert!(!entities.entity_exists(c));
    assert!(entities.entity_exists(d));

    let e = entities.spawn();

    assert!(!entities.entity_exists(a));
    assert!(entities.entity_exists(b));
    assert!(!entities.entity_exists(c));
    assert!(entities.entity_exists(d));
    assert!(entities.entity_exists(e));

    assert_eq!(
        [b, d, e].into_iter().collect::<HashSet<Entity>>(),
        entities.iter().into_iter().collect::<HashSet<Entity>>()
    );

    let arr = [a, b, c, d, e];
    let iter = arr.iter().enumerate();
    for (i, x) in iter.clone() {
        for (j, y) in iter.clone() {
            assert!((x == y) == (i == j));
        }
    }
}

#[derive(Debug)]
struct Counter(Rc<Cell<usize>>, &'static str);

impl Counter {
    fn new(rc: Rc<Cell<usize>>) -> Self {
        Self::named(rc, "")
    }
    fn named(rc: Rc<Cell<usize>>, name: &'static str) -> Self {
        rc.set(rc.get() + 1);
        Self(rc, name)
    }
}

impl Drop for Counter {
    fn drop(&mut self) {
        self.0.set(self.0.get() - 1)
    }
}

#[test]
fn vec_storage() {
    let counter = Rc::new(Cell::new(0));
    {
        let mut storage: Storage<Counter> = Storage::new(StorageType::VecStorage);
        let mut entities = Entities::default();
        let es: Vec<_> = (0..100).map(|_| entities.spawn()).collect();
        for i in (0..100).step_by(2) {
            assert_eq!(i / 2, counter.get());
            storage.set(entities.id(es[i]).unwrap() as usize, Counter::new(counter.clone()));
        }
        assert_eq!(50, counter.get());
        for &e in &es[..50] {
            let index = entities.id(e).unwrap() as usize;
            assert!(storage.set(index, Counter::new(counter.clone())) == (index % 2 == 1));
        }
        assert_eq!(75, counter.get());
        for &e in &es[50..] {
            let index = entities.id(e).unwrap() as usize;
            let c: Option<Counter> = storage.remove(index);
            if index % 2 == 0 {
                assert!(c.is_some());
            } else {
                assert!(c.is_none());
            }
        }
        assert_eq!(50, counter.get());
    }
    assert_eq!(0, counter.get());
}

#[derive(Debug, PartialEq, Clone)]
enum Thing {
    Position { x: f32, y: f32, z: f32 },
    Health(u8),
    Hunger(u8),
    Rarity(bool),
    Marker,
    Name(String),
    Speed(f32),
    Int(usize),
    Float(f32),
}

fn register(world: &mut World<Thing>, key: u64, name: &str) -> ecs::component::ComponentId {
    world.component_registry_mut().register_raw(Some(key), name.to_string())
}

#[test]
fn world() {
    let mut world: World<Thing> = World::new();
    let pos = register(&mut world, 1, "Position");
    let health = register(&mut world, 2, "Health");
    let rarity = register(&mut world, 3, "Rarity");

    let player = world.spawn();
    world.add(player, pos, Thing::Position { x: 0., y: 0., z: 0. });
    world.add(player, health, Thing::Health(100));

    assert_eq!(Some(&Thing::Position { x: 0., y: 0., z: 0. }), world.get(player, pos));
    assert!(world.get_mut(player, rarity).is_none());

    let common_sword = world.spawn();
    world.add(common_sword, pos, Thing::Position { x: 1., y: 0., z: 1. });
    world.add(common_sword, rarity, Thing::Rarity(false));
    assert!(world.get_mut(player, rarity).is_none());

    let rare_sword = world.spawn();
    world.add(rare_sword, pos, Thing::Position { x: 1., y: 1., z: 1. });
    world.add(rare_sword, rarity, Thing::Rarity(true));
    assert!(world.get_mut(player, rarity).is_none());

    assert_eq!(Some(&Thing::Rarity(false)), world.get(common_sword, rarity));
    assert_eq!(Some(&Thing::Rarity(true)), world.get(rare_sword, rarity));
    assert_eq!(Some(&Thing::Position { x: 0., y: 0., z: 0. }), world.get(player, pos));

    world.despawn(player);

    if let Some(Thing::Position { x, .. }) = world.get_mut(rare_sword, pos) {
        *x += 1.;
    }
    assert_eq!(Some(&Thing::Position { x: 2., y: 1., z: 1. }), world.get(rare_sword, pos));
}

#[test]
fn world2() {
    let mut world: World<Thing> = World::new();
    let health = register(&mut world, 1, "Health");
    let hunger = register(&mut world, 2, "Hunger");

    let player1 = world.spawn();
    world.add(player1, health, Thing::Health(100));
    world.add(player1, hunger, Thing::Hunger(20));
    assert_eq!(Some(Thing::Hunger(20)), world.remove(player1, hunger));
    assert_eq!(None, world.remove(player1, hunger));
    world.despawn(player1);

    let player2 = world.spawn();
    world.add(player2, health, Thing::Health(50));
    assert!(world.get(player1, health).is_none());
    assert_eq!(Some(Thing::Health(50)), world.get(player2, health).cloned());
}

#[test]
fn zero_sized_components() {
    let mut world: World<Thing> = World::new();
    let marker = register(&mut world, 1, "Marker");

    let e1 = world.spawn();
    world.add(e1, marker, Thing::Marker);
    let e2 = world.spawn();
    let e3 = world.spawn();
    world.add(e3, marker, Thing::Marker);
    let e4 = world.spawn();

    assert!(world.get(e1, marker).is_some());
    assert!(world.get(e2, marker).is_none());
    assert!(world.get(e3, marker).is_some());
    assert!(world.get(e4, marker).is_none());

    world.remove(e1, marker);

    assert!(world.get(e1, marker).is_none());
    assert!(world.get(e2, marker).is_none());
    assert!(world.get(e3, marker).is_some());
    assert!(world.get(e4, marker).is_none());

    world.add(e2, marker, Thing::Marker);

    assert!(world.get(e1, marker).is_none());
    assert!(world.get(e2, marker).is_some());
    assert!(world.get(e3, marker).is_some());
    assert!(world.get(e4, marker).is_none());

    world.add(e2, marker, Thing::Marker);

    assert!(world.get(e1, marker).is_none());
    assert!(world.get(e2, marker).is_some());
    assert!(world.get(e3, marker).is_some());
    assert!(world.get(e4, marker).is_none());
}

#[test]
fn validate_multiple_const_query() {
    let mut comp_reg: ComponentRegistry<u8> = ComponentRegistry::new();
    let a = comp_reg.register_raw(None, "A".to_string());
    let b = comp_reg.register_raw(None, "B".to_string());
    let q = Query::new(vec![cq(a, true), cq(b, false), cq(b, false)]);
    assert!(q.is_ok(), "{:?}; a={:?}, b={:?}", q, a, b);
}

#[test]
fn validate_multiple_mutable_query() {
    let mut comp_reg: ComponentRegistry<u8> = ComponentRegistry::new();
    let a = comp_reg.register_raw(None, "A".to_string());
    let b = comp_reg.register_raw(None, "B".to_string());
    assert_eq!(
        Err(BorrowMutError::new(b)),
        Query::new(vec![cq(a, false), cq(b, true), cq(b, false)])
    );
}

#[test]
fn read_and_write_using_query() {
    let mut world: World<Thing> = World::new();
    let usize_id = register(&mut world, 1, "usize");
    let f32_id = register(&mut world, 2, "f32");
    let a = world.spawn();
    world.add(a, usize_id, Thing::Int(0));
    let b = world.spawn();
    world.add(b, usize_id, Thing::Int(1));
    world.add(b, f32_id, Thing::Float(2.));

    let usize_query = Query::new(vec![cq(usize_id, false)]).unwrap();
    let both_query = Query::new(vec![cq(usize_id, true), cq(f32_id, false)]).unwrap();
    {
        let res = world.try_query(&usize_query).unwrap();
        assert_eq!(res.get(&world, a)[0], Some(&Thing::Int(0)));
        assert_eq!(res.get(&world, b)[0], Some(&Thing::Int(1)));
        world.release(res);
    }
    {
        let res = world.try_query(&both_query).unwrap();
        assert!(res.try_get(&world, a).is_none());
        assert_eq!(res.get(&world, b)[1], Some(&Thing::Float(2.)));
        if let Some(Thing::Int(int)) = res.get_mut(&mut world, b, 0) {
            *int += 2;
        }
        world.release(res);
    }
    {
        let res = world.try_query(&usize_query).unwrap();
        assert_eq!(res.get(&world, a)[0], Some(&Thing::Int(0)));
        assert_eq!(res.get(&world, b)[0], Some(&Thing::Int(3)));
        world.release(res);
    }
}

#[test]
fn multiple_queries_at_the_same_time() {
    let mut world: World<Thing> = World::new();
    let name = register(&mut world, 1, "Name");
    let health = register(&mut world, 2, "Health");
    let chungus = world.spawn();
    world.add(chungus, name, Thing::Name("Big chungus".into()));
    world.add(chungus, health, Thing::Health(200));
    let ant = world.spawn();
    world.add(ant, name, Thing::Name("Mr. Ant".into()));
    world.add(ant, health, Thing::Health(8));

    let name_query = Query::new(vec![cq(name, false)]).unwrap();
    let mut_name_query = Query::new(vec![cq(name, true)]).unwrap();
    let health_query = Query::new(vec![cq(health, true)]).unwrap();
    let r1 = world.try_query(&name_query).unwrap();
    let r2 = world.try_query(&name_query).unwrap();
    let r3 = world.try_query(&health_query).unwrap();
    world.release(r1);
    world.release(r2);
    let r4 = world.try_query(&mut_name_query).unwrap();
    world.release(r3);
    world.release(r4);

    let r5 = world.try_query(&name_query).unwrap();
    let r6 = world.try_query(&name_query).unwrap();
    assert_eq!(BorrowMutError::new(name), world.try_query(&mut_name_query).unwrap_err());
    world.release(r6);
    assert_eq!(BorrowMutError::new(name), world.try_query(&mut_name_query).unwrap_err());
    world.release(r5);
    assert!(world.try_query(&mut_name_query).is_ok());
}

#[test]
fn mutable_queries_must_be_exclusive() {
    let mut world: World<Thing> = World::new();
    let name_id = register(&mut world, 1, "Name");
    let health_id = register(&mut world, 2, "Health");

    let q1 = Query::new(vec![cq(name_id, true), cq(health_id, false)]).unwrap();
    let q2 = Query::new(vec![cq(health_id, true)]).unwrap();

    let r = world.try_query(&q1).unwrap();
    assert_eq!(BorrowMutError::new(name_id), world.try_query(&q1).unwrap_err());
    world.release(r);

    let r = world.try_query(&q2).unwrap();
    assert_eq!(BorrowMutError::new(health_id), world.try_query(&q1).unwrap_err());
    world.release(r);

    let r = world.try_query(&q1).unwrap();
    assert_eq!(BorrowMutError::new(health_id), world.try_query(&q2).unwrap_err());
    world.release(r);
}

#[test]
fn type_safe_macros() {
    let mut world: World<Thing> = World::new();
    let name = register(&mut world, 1, "Name");
    let speed = register(&mut world, 2, "Speed");
    let sanic = world.spawn();
    world.add(sanic, name, Thing::Name("Sanic".into()));
    world.add(sanic, speed, Thing::Speed(100.0));
    let mario = world.spawn();
    world.add(mario, name, Thing::Name("Mario".into()));
    world.add(mario, speed, Thing::Speed(200.0));

    let q = Query::new(vec![cq(name, false), cq(speed, true)]).unwrap();
    let res = world.try_query(&q).unwrap();
    for entity in res.iter(&world) {
        let n = match res.get(&world, entity)[0] {
            Some(Thing::Name(n)) => n.clone(),
            _ => panic!("Unexpected name"),
        };
        match (n.as_str(), res.get_mut(&mut world, entity, 1)) {
            ("Mario", Some(Thing::Speed(s))) => assert_eq!(*s, 200.0),
            ("Sanic", Some(Thing::Speed(s))) => {
                assert_eq!(*s, 100.0);
                *s = 300.0;
            }
            _ => panic!("Unexpected name"),
        }
    }
    world.release(res);

    let q = Query::new(vec![cq(name, false), cq(speed, false)]).unwrap();
    let res = world.try_query(&q).unwrap();
    for entity in res.iter(&world) {
        let comps = res.get(&world, entity);
        match (comps[0], comps[1]) {
            (Some(Thing::Name(n)), Some(Thing::Speed(s))) if n == "Mario" => {
                assert_eq!(entity, mario);
                assert_eq!(*s, 200.0)
            }
            (Some(Thing::Name(n)), Some(Thing::Speed(s))) if n == "Sanic" => {
                assert_eq!(entity, sanic);
                assert_eq!(*s, 300.0)
            }
            _ => panic!("Unexpected name"),
        }
    }
    world.release(res);

    let q = Query::new(vec![]).unwrap();
    let res = world.try_query(&q).unwrap();
    let mut found_sanic = false;
    let mut found_mario = false;
    for entity in res.iter(&world) {
        if found_sanic {
            assert_eq!(entity, mario);
            found_mario = true;
        } else {
            assert_eq!(entity, sanic);
            found_sanic = true;
        }
    }
    assert!(found_sanic && found_mario);
    world.release(res);
}

#[test]
fn iterate_over_query() {
    let mut world: World<Thing> = World::new();
    let pos_id = register(&mut world, 1, "Position");
    let vel_id = register(&mut world, 2, "Velocity");

    for i in 0..1000 {
        let entity = world.spawn();
        world.add(entity, pos_id, Thing::Float(i as f32));
        world.add(entity, vel_id, Thing::Float(1.5));
    }

    let q = Query::new(vec![cq(pos_id, true), cq(vel_id, false)]).unwrap();
    let res = world.try_query(&q).unwrap();
    for e in res.iter(&world) {
        let vel = match res.get(&world, e)[1] {
            Some(Thing::Float(v)) => *v,
            _ => panic!(),
        };
        if let Some(Thing::Float(pos)) = res.get_mut(&mut world, e, 0) {
            *pos += vel;
        }
    }
    world.release(res);

    let q = Query::new(vec![cq(pos_id, false)]).unwrap();
    let res = world.try_query(&q).unwrap();
    for (i, e) in res.iter(&world).into_iter().enumerate() {
        assert_eq!(Some(&Thing::Float(i as f32 + 1.5)), res.get(&world, e)[0]);
    }
    world.release(res);
}

#[test]
fn resources() {
    let mut world: World<Thing> = World::new();
    let hunger = world.add_resource(Some(1), "Hunger".to_string(), Thing::Hunger(16));
    let gravity = world.add_resource(Some(2), "Gravity".to_string(), Thing::Float(-9.818));

    assert_eq!(Some(&Thing::Hunger(16)), world.resource(hunger));
    assert_eq!(Some(&Thing::Float(-9.818)), world.resource(gravity));

    if let Some(Thing::Hunger(h)) = world.resource_mut(hunger) {
        *h = 15;
    }
    assert_eq!(Some(&Thing::Hunger(15)), world.resource(hunger));
}

#[test]
fn command_buffer_despawn_entities() {
    let mut world: World<Thing> = World::new();
    let health = register(&mut world, 1, "Health");
    let a = world.spawn();
    world.add(a, health, Thing::Health(100));
    let b = world.spawn();
    world.add(b, health, Thing::Health(10));
    let c = world.spawn();
    world.add(c, health, Thing::Health(100));
    let d = world.spawn();
    world.add(d, health, Thing::Health(10));

    let mut command_buffer = CommandBuffer::new();
    let q = Query::new(vec![cq(health, true)]).unwrap();
    let res = world.try_query(&q).unwrap();
    for entity in res.iter(&world) {
        let mut dead = false;
        if let Some(Thing::Health(h)) = res.get_mut(&mut world, entity, 0) {
            *h -= 10;
            dead = *h == 0;
        }
        if dead {
            Commands::new(&mut command_buffer, &mut world).despawn(entity);
        }
    }
    world.release(res);
    assert!(world.entities().entity_exists(a));
    assert!(world.entities().entity_exists(b));
    assert!(world.entities().entity_exists(c));
    assert!(world.entities().entity_exists(d));
    command_buffer.apply(&mut world);
    assert!(world.entities().entity_exists(a));
    assert!(!world.entities().entity_exists(b));
    assert!(world.entities().entity_exists(c));
    assert!(!world.entities().entity_exists(d));
}

#[test]
fn add_component_to_old_entity_through_commands() {
    let mut world: World<Counter> = World::new();
    let e1 = world.spawn();
    let e2 = world.spawn();
    let counter = Rc::new(Cell::new(0));
    let mut command_buffer = CommandBuffer::new();
    {
        let mut commands = Commands::new(&mut command_buffer, &mut world);
        commands.add(e1, 7, "Counter".to_string(), Counter::named(counter.clone(), "a"));
        assert_eq!(counter.get(), 1);
        commands.add(e1, 7, "Counter".to_string(), Counter::named(counter.clone(), "b"));
        assert_eq!(counter.get(), 2);
        commands.add(e2, 7, "Counter".to_string(), Counter::named(counter.clone(), "c"));
        assert_eq!(counter.get(), 3);
        commands.despawn(e2);
        assert_eq!(counter.get(), 3);
    }
    command_buffer.apply(&mut world);
    assert_eq!(counter.get(), 1);
}

#[test]
fn add_component_to_newly_created_entity_through_commands() {
    let mut world: World<Counter> = World::new();
    let counter = Rc::new(Cell::new(0));
    let mut command_buffer = CommandBuffer::new();
    {
        let mut commands = Commands::new(&mut command_buffer, &mut world);

        let e1 = commands.spawn();
        commands.add(e1, 7, "Counter".to_string(), Counter::named(counter.clone(), "a"));
        assert_eq!(counter.get(), 1);
        commands.add(e1, 7, "Counter".to_string(), Counter::named(counter.clone(), "b"));
        assert_eq!(counter.get(), 2);

        let e2 = commands.spawn();
        commands.add(e2, 7, "Counter".to_string(), Counter::named(counter.clone(), "c"));
        commands.despawn(e2);
        assert_eq!(counter.get(), 3);
    }

    command_buffer.apply(&mut world);
    assert_eq!(counter.get(), 1);
    let id = world.component_id(7).unwrap();
    let q = Query::new(vec![cq(id, false)]).unwrap();
    let res = world.try_query(&q).unwrap();
    for e in res.iter(&world) {
        assert_eq!(res.get(&world, e)[0].unwrap().1, "b");
    }
    world.release(res);
}
