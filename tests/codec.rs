use world_snapshot::codec::{decode, encode};
use world_snapshot::component::{Component, Field};
use world_snapshot::entity::Entity;
use world_snapshot::filter::TypeRegistry;
use world_snapshot::load::{load_from_bytes, LoadError};
use world_snapshot::save::save_default;
use world_snapshot::snapshot::{EntityRecord, Snapshot};
use world_snapshot::world::World;

fn sample() -> Snapshot {
    Snapshot {
        records: vec![
            EntityRecord {
                entity: Entity::from_raw(0x0102),
                save: true,
                components: vec![Component::new(7, vec![Field::Value(42), Field::Ref(Entity::from_raw(3))])],
            },
            EntityRecord { entity: Entity::from_raw(3), save: false, components: vec![] },
        ],
    }
}

fn le(x: u64) -> Vec<u8> {
    x.to_le_bytes().to_vec()
}

#[test]
fn encode_exact_bytes() {
    let mut expected = Vec::new();
    expected.extend(le(2));
    expected.extend(le(0x0102));
    expected.push(1);
    expected.extend(le(1));
    expected.extend(le(7));
    expected.extend(le(2));
    expected.push(0);
    expected.extend(le(42));
    expected.push(1);
    expected.extend(le(3));
    expected.extend(le(3));
    expected.push(0);
    expected.extend(le(0));
    assert_eq!(encode(&sample()), expected);
}

#[test]
fn decode_round_trip() {
    let bytes = encode(&sample());
    let back = decode(&bytes).unwrap();
    assert_eq!(back.records.len(), 2);
    assert_eq!(back.records[0].entity, Entity::from_raw(0x0102));
    assert!(back.records[0].save);
    assert_eq!(back.records[0].components[0].type_id, 7);
    assert_eq!(back.records[0].components[0].fields, vec![Field::Value(42), Field::Ref(Entity::from_raw(3))]);
    assert_eq!(back.records[1].entity, Entity::from_raw(3));
    assert!(!back.records[1].save);
    assert!(back.records[1].components.is_empty());
    assert_eq!(encode(&back), bytes);
}

#[test]
fn decode_rejects_malformed_bytes() {
    let bytes = encode(&sample());
    assert!(decode(&bytes[..bytes.len() - 1].to_vec()).is_none());
    let mut longer = bytes.clone();
    longer.push(0);
    assert!(decode(&longer).is_none());
    let mut bad_flag = bytes.clone();
    bad_flag[16] = 2;
    assert!(decode(&bad_flag).is_none());
    let mut bad_tag = bytes.clone();
    bad_tag[41] = 5;
    assert!(decode(&bad_tag).is_none());
    let mut wide_type = bytes.clone();
    wide_type[29] = 1;
    assert!(decode(&wide_type).is_none());
    assert!(decode(&vec![]).is_none());
    assert_eq!(decode(&le(0)).unwrap().records.len(), 0);
}

#[test]
fn load_from_bytes_round_trip() {
    let mut reg = TypeRegistry::new();
    reg.register(1);
    reg.register(2);
    let mut src = World::new();
    let target = src.spawn(vec![Component::new(2, vec![])]);
    src.spawn(vec![Component::new(1, vec![Field::Ref(target), Field::Value(9)])]);
    let bytes = encode(&save_default(&src, &reg).unwrap());

    let mut dst = World::new();
    dst.spawn_empty();
    let loaded = load_from_bytes(&mut dst, &bytes, &reg).unwrap();
    let new_target = loaded.get(target).unwrap();
    assert_eq!(new_target, Entity::from_raw(1));
    assert_eq!(dst.entities[2].components[0].fields, vec![Field::Ref(new_target), Field::Value(9)]);
}

#[test]
fn load_from_bytes_errors() {
    let reg = TypeRegistry::new();
    let mut dst = World::new();
    dst.spawn_tagged(false, true, vec![]);
    assert_eq!(load_from_bytes(&mut dst, &vec![1, 2, 3], &reg).unwrap_err(), LoadError::Deserialize);
    assert_eq!(dst.len(), 1);
    let bytes = encode(&sample());
    assert_eq!(load_from_bytes(&mut dst, &bytes, &reg).unwrap_err(), LoadError::UnknownType(7));
    assert_eq!(dst.len(), 1);
}
