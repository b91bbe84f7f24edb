use world_snapshot::component::{Component, Field};
use world_snapshot::entity::Entity;
use world_snapshot::filter::{SaveFilter, TypeRegistry};
use world_snapshot::load::{load, LoadError};
use world_snapshot::mapper::EntityMapper;
use world_snapshot::save::{save, save_all, save_default, SaveError};
use world_snapshot::snapshot::{EntityRecord, Snapshot};
use world_snapshot::world::{LiveEntity, World};

const FOO: u32 = 1;
const BAR: u32 = 2;
const FOO_BAR: u32 = 3;
const UNREGISTERED: u32 = 99;

fn registry() -> TypeRegistry {
    let mut r = TypeRegistry::new();
    r.register(FOO);
    r.register(FOO_BAR);
    r.register(BAR);
    r
}

fn foo(v: u64) -> Component {
    Component::new(FOO, vec![Field::Value(v)])
}

fn bar() -> Component {
    Component::new(BAR, vec![])
}

fn foo_bar(target: Entity) -> Component {
    Component::new(FOO_BAR, vec![Field::Ref(target)])
}

fn with_type<'a>(world: &'a World, t: u32) -> Vec<&'a LiveEntity> {
    world
        .entities
        .iter()
        .filter(|e| e.components.iter().any(|c| c.type_id == t))
        .collect()
}

fn single<'a>(world: &'a World, t: u32) -> &'a LiveEntity {
    let found = with_type(world, t);
    assert_eq!(found.len(), 1);
    found[0]
}

fn component(e: &LiveEntity, t: u32) -> &Component {
    e.components.iter().find(|c| c.type_id == t).unwrap()
}

fn foo_value(world: &World) -> u64 {
    match component(single(world, FOO), FOO).fields[0] {
        Field::Value(v) => v,
        Field::Ref(_) => panic!("not a value"),
    }
}

fn foo_bar_target(world: &World) -> Entity {
    match component(single(world, FOO_BAR), FOO_BAR).fields[0] {
        Field::Ref(e) => e,
        Field::Value(_) => panic!("not a reference"),
    }
}

fn record(id: u64, components: Vec<Component>) -> EntityRecord {
    EntityRecord { entity: Entity::from_raw(id), save: true, components }
}

#[test]
fn it_works() {
    let reg = registry();
    let snapshot = {
        let mut world = World::new();
        let bar_entity = world.spawn(vec![bar()]);
        world.spawn(vec![foo(42), foo_bar(bar_entity)]);

        let snapshot = save_default(&world, &reg).unwrap();

        assert_eq!(foo_value(&world), 42);
        assert_eq!(foo_bar_target(&world), bar_entity);
        assert!(world.get(bar_entity).unwrap().save);
        snapshot
    };

    let mut world = World::new();
    world.spawn_empty();
    load(&mut world, &snapshot, &reg).unwrap();

    let bar_entity = single(&world, BAR).id;
    assert_eq!(foo_value(&world), 42);
    assert_eq!(foo_bar_target(&world), bar_entity);
    assert!(world.get(bar_entity).unwrap().save);
}

#[test]
fn scenario_three_entities_into_shifted_world() {
    let reg = registry();
    let mut src = World::new();
    let b = src.spawn(vec![bar()]);
    src.spawn(vec![foo(42)]);
    src.spawn(vec![foo_bar(b)]);
    let snapshot = save_default(&src, &reg).unwrap();
    assert_eq!(snapshot.len(), 3);

    let mut dst = World::new();
    let unrelated = dst.spawn_empty();
    let loaded = load(&mut dst, &snapshot, &reg).unwrap();

    assert_eq!(dst.len(), 4);
    assert!(dst.get(unrelated).is_some());
    let new_bar = single(&dst, BAR);
    assert_eq!(new_bar.components.len(), 1);
    assert!(new_bar.components[0].fields.is_empty());
    assert_eq!(foo_value(&dst), 42);
    assert_eq!(foo_bar_target(&dst), new_bar.id);
    assert_eq!(loaded.get(b), Some(new_bar.id));
    assert!(new_bar.unload);
}

#[test]
fn round_trip_reference_points_at_new_target() {
    let reg = registry();
    let mut src = World::new();
    src.spawn_empty();
    src.spawn_empty();
    let b = src.spawn(vec![bar()]);
    let a = src.spawn(vec![foo_bar(b)]);
    let snapshot = save_default(&src, &reg).unwrap();

    let mut dst = World::new();
    let loaded = load(&mut dst, &snapshot, &reg).unwrap();
    let new_b = single(&dst, BAR).id;
    let target = foo_bar_target(&dst);
    assert_eq!(target, new_b);
    assert_ne!(target, b);
    assert!(!target.is_placeholder());
    assert_eq!(loaded.get(a), Some(single(&dst, FOO_BAR).id));
}

#[test]
fn dangling_reference_becomes_placeholder() {
    let reg = registry();
    let mut src = World::new();
    let c = src.spawn_tagged(false, false, vec![bar()]);
    src.spawn(vec![foo_bar(c)]);
    let snapshot = save_default(&src, &reg).unwrap();
    assert_eq!(snapshot.len(), 1);

    let mut dst = World::new();
    let loaded = load(&mut dst, &snapshot, &reg).unwrap();
    assert_eq!(foo_bar_target(&dst), Entity::placeholder());
    assert_eq!(loaded.get(c), None);
    assert_eq!(Entity::from_loaded(c, &loaded), Entity::placeholder());

    load(&mut dst, &snapshot, &reg).unwrap();
    assert_eq!(foo_bar_target(&dst), Entity::placeholder());
    assert_eq!(Entity::placeholder().raw(), u64::MAX);
}

#[test]
fn filter_excludes_entities_and_component_types() {
    let reg = registry();
    let mut world = World::new();
    let marked = world.spawn(vec![foo(1), bar()]);
    let unmarked = world.spawn_tagged(false, false, vec![foo(2), bar()]);
    let no_bar = world.spawn(vec![foo(3)]);

    let filter = SaveFilter { marked_only: true, with_types: vec![BAR], allow: None, deny: vec![FOO] };
    let snapshot = save(&world, &filter, &reg).unwrap();
    assert_eq!(snapshot.len(), 1);
    let rec = &snapshot.records[0];
    assert_eq!(rec.entity, marked);
    assert_eq!(rec.components.len(), 1);
    assert_eq!(rec.components[0].type_id, BAR);
    assert!(snapshot.records.iter().all(|r| r.entity != unmarked && r.entity != no_bar));
    assert!(snapshot.records.iter().all(|r| r.components.iter().all(|c| c.type_id != FOO)));
}

#[test]
fn save_all_takes_unmarked_entities_and_skips_unregistered_types() {
    let reg = registry();
    let mut world = World::new();
    world.spawn_tagged(false, false, vec![foo(5), Component::new(UNREGISTERED, vec![Field::Value(1)])]);
    let snapshot = save_all(&world, &reg).unwrap();
    assert_eq!(snapshot.len(), 1);
    assert_eq!(snapshot.records[0].components.len(), 1);
    assert_eq!(snapshot.records[0].components[0].type_id, FOO);
    assert!(!snapshot.records[0].save);
    assert_eq!(save_default(&world, &reg).unwrap().len(), 0);
}

#[test]
fn save_fails_on_demanded_unregistered_type() {
    let reg = registry();
    let mut world = World::new();
    world.spawn(vec![foo(5), Component::new(UNREGISTERED, vec![])]);
    let filter = SaveFilter { marked_only: true, with_types: vec![], allow: Some(vec![FOO, UNREGISTERED]), deny: vec![] };
    assert_eq!(save(&world, &filter, &reg).unwrap_err(), SaveError::Serialize(UNREGISTERED));

    let allowed_only_foo = SaveFilter { marked_only: true, with_types: vec![], allow: Some(vec![FOO]), deny: vec![] };
    let snapshot = save(&world, &allowed_only_foo, &reg).unwrap();
    assert_eq!(snapshot.records[0].components.len(), 1);
}

#[test]
fn reload_replaces_instead_of_duplicating() {
    let reg = registry();
    let mut src = World::new();
    let b = src.spawn(vec![bar()]);
    src.spawn(vec![foo(7), foo_bar(b)]);
    let snapshot = save_default(&src, &reg).unwrap();

    let mut dst = World::new();
    let keep = dst.spawn(vec![foo(1)]);
    load(&mut dst, &snapshot, &reg).unwrap();
    let once = dst.len();
    load(&mut dst, &snapshot, &reg).unwrap();
    assert_eq!(dst.len(), once);
    assert_eq!(once, 3);
    assert_eq!(with_type(&dst, BAR).len(), 1);
    assert_eq!(with_type(&dst, FOO_BAR).len(), 1);
    assert_eq!(dst.entities[0].id, keep);
    assert_eq!(foo_bar_target(&dst), single(&dst, BAR).id);
}

#[test]
fn forward_reference_resolves() {
    let reg = registry();
    let snapshot = Snapshot { records: vec![record(10, vec![foo_bar(Entity::from_raw(20))]), record(20, vec![bar()])] };
    let mut dst = World::new();
    dst.spawn_empty();
    dst.spawn_empty();
    let loaded = load(&mut dst, &snapshot, &reg).unwrap();
    let new_bar = single(&dst, BAR).id;
    assert_eq!(foo_bar_target(&dst), new_bar);
    assert_eq!(new_bar, Entity::from_raw(3));
    assert_eq!(loaded.get(Entity::from_raw(10)), Some(Entity::from_raw(2)));
}

#[test]
fn cyclic_references_resolve() {
    let reg = registry();
    let snapshot = Snapshot {
        records: vec![
            record(5, vec![foo_bar(Entity::from_raw(6))]),
            record(6, vec![foo_bar(Entity::from_raw(5))]),
        ],
    };
    let mut dst = World::new();
    load(&mut dst, &snapshot, &reg).unwrap();
    let a = &dst.entities[0];
    let b = &dst.entities[1];
    assert_eq!(a.components[0].fields[0], Field::Ref(b.id));
    assert_eq!(b.components[0].fields[0], Field::Ref(a.id));
}

#[test]
fn load_rejects_unknown_type_and_leaves_world() {
    let reg = registry();
    let snapshot = Snapshot { records: vec![record(1, vec![bar()]), record(2, vec![Component::new(UNREGISTERED, vec![])])] };
    let mut dst = World::new();
    dst.spawn_tagged(false, true, vec![]);
    let err = load(&mut dst, &snapshot, &reg).unwrap_err();
    assert_eq!(err, LoadError::UnknownType(UNREGISTERED));
    assert_eq!(dst.len(), 1);
    assert!(dst.entities[0].unload);
}

#[test]
fn load_clears_unload_marked_entities_first() {
    let reg = registry();
    let mut dst = World::new();
    let stale = dst.spawn_tagged(false, true, vec![foo(1)]);
    let kept = dst.spawn(vec![foo(2)]);
    let snapshot = Snapshot { records: vec![] };
    load(&mut dst, &snapshot, &reg).unwrap();
    assert!(dst.get(stale).is_none());
    assert!(dst.get(kept).is_some());
    assert_eq!(dst.len(), 1);
}

#[test]
fn mapper_lookups() {
    let mut m = EntityMapper::new();
    assert_eq!(m.get(Entity::from_raw(1)), None);
    assert_eq!(m.map_entity(Entity::from_raw(1)), Entity::placeholder());
    m.insert(Entity::from_raw(1), Entity::from_raw(10));
    m.insert(Entity::from_raw(2), Entity::from_raw(20));
    m.insert(Entity::from_raw(1), Entity::from_raw(30));
    assert_eq!(m.get(Entity::from_raw(1)), Some(Entity::from_raw(30)));
    assert_eq!(m.map_entity(Entity::from_raw(2)), Entity::from_raw(20));
    assert_eq!(Field::from_mapper(Field::Value(2), &m), Field::Value(2));
    assert_eq!(Field::from_mapper(Field::Ref(Entity::from_raw(2)), &m), Field::Ref(Entity::from_raw(20)));
    let c = Component::from_mapper(&Component::new(FOO_BAR, vec![Field::Ref(Entity::from_raw(9)), Field::Value(4)]), &m);
    assert_eq!(c.fields, vec![Field::Ref(Entity::placeholder()), Field::Value(4)]);
}

#[test]
fn filter_predicates() {
    let mut world = World::new();
    world.spawn(vec![foo(1)]);
    let f = SaveFilter { marked_only: false, with_types: vec![FOO], allow: Some(vec![FOO, BAR]), deny: vec![BAR] };
    assert!(f.matches_entity(&world.entities[0]));
    assert!(f.allows(FOO));
    assert!(!f.allows(BAR));
    assert!(!f.allows(FOO_BAR));
    let g = SaveFilter { marked_only: false, with_types: vec![BAR], allow: None, deny: vec![] };
    assert!(!g.matches_entity(&world.entities[0]));
    assert!(SaveFilter::default_filter().matches_entity(&world.entities[0]));
    let reg = registry();
    assert!(reg.contains(BAR));
    assert!(!reg.contains(UNREGISTERED));
}
