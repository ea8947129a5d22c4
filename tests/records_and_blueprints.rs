use anchor_lang::solana_program::hash::hash;
use ecs_core::address::Address;
use ecs_core::blueprint::Blueprints;
use ecs_core::component::SerializedComponent;
use ecs_core::error::EcsError;
use ecs_core::record::encode_entity;
use ecs_core::store::EntityStore;
use ecs_core::world::World;
use anchor_lang::prelude::Pubkey;

fn addr(b: u8) -> Address {
    Address { bytes: [b; 32] }
}

fn comp(max_size: u64, data: Vec<u8>) -> SerializedComponent {
    SerializedComponent { max_size, data }
}

#[test]
fn entity_record_layout_fills_its_allocation() {
    let program = addr(7);
    let mut world = World::initalize(&program, &addr(9)).unwrap();
    let mut store = EntityStore::new();
    world.instance_world(&mut store, &addr(1), 3).unwrap();
    let health = world.register_component("health").unwrap();
    world.register_system(&addr(2), 3).unwrap();
    world.add_components_to_system_registration(&addr(1), &addr(2), 3, &vec![health]).unwrap();
    world
        .mint_entity(&mut store, &addr(2), 3, 0x0102, vec![(health, comp(5, vec![0xaa, 0xbb]))])
        .unwrap();
    let e = store.get_entity(&program, 3, 0x0102).unwrap();
    let rec = encode_entity(e).unwrap();
    assert_eq!(rec.len() as u64, e.space);
    assert_eq!(rec.len(), 92 + 44 + 5);
    assert_eq!(&rec[0..8], &hash(b"account:Entity").to_bytes()[0..8]);
    assert_eq!(&rec[8..16], &0x0102u64.to_le_bytes());
    assert_eq!(&rec[16..24], &3u64.to_le_bytes());
    assert_eq!(&rec[24..56], &program.bytes);
    assert_eq!(&rec[56..88], &world.get_system_signer().bytes);
    assert_eq!(&rec[88..92], &1u32.to_le_bytes());
    assert_eq!(&rec[92..124], &health.bytes);
    assert_eq!(&rec[124..132], &5u64.to_le_bytes());
    assert_eq!(&rec[132..136], &2u32.to_le_bytes());
    assert_eq!(&rec[136..141], &[0xaa, 0xbb, 0, 0, 0]);
}

#[test]
fn empty_entity_record_is_header_only() {
    let program = addr(7);
    let mut world = World::initalize(&program, &addr(9)).unwrap();
    let mut store = EntityStore::new();
    world.instance_world(&mut store, &addr(1), 0).unwrap();
    world.register_system(&addr(2), 0).unwrap();
    world.mint_entity(&mut store, &addr(2), 0, 5, vec![]).unwrap();
    let rec = encode_entity(store.get_entity(&program, 0, 5).unwrap()).unwrap();
    assert_eq!(rec.len(), 92);
    assert_eq!(&rec[88..92], &[0, 0, 0, 0]);
}

#[test]
fn blueprint_names_are_unique_and_keys_derived() {
    let program = addr(8);
    let mut book = Blueprints::new(program);
    let comps = vec![(addr(1), comp(4, vec![1])), (addr(2), comp(2, vec![]))];
    let key = book.register_blueprint("archer", comps).unwrap();
    let (expected, _) =
        Pubkey::find_program_address(&[b"Blueprint", b"archer"], &Pubkey::new_from_array(program.bytes));
    assert_eq!(key.bytes, expected.to_bytes());
    assert_eq!(book.get_blueprint_key("archer"), Some(key));
    assert_eq!(
        book.register_blueprint("archer", vec![]).unwrap_err(),
        EcsError::DuplicateBlueprint
    );
    let bp = book.get_blueprint_by_name("archer").unwrap();
    assert_eq!(bp.name, "archer");
    assert_eq!(bp.components.len(), 2);
    assert!(book.get_blueprint_by_key(&key).is_some());
    assert!(book.get_blueprint_by_name("knight").is_none());
}

#[test]
fn blueprint_components_are_checked() {
    let mut book = Blueprints::new(addr(8));
    let dup = vec![(addr(1), comp(4, vec![])), (addr(1), comp(4, vec![]))];
    assert_eq!(book.register_blueprint("a", dup).unwrap_err(), EcsError::DuplicateComponent);
    let big = vec![(addr(1), comp(1, vec![1, 2]))];
    assert_eq!(book.register_blueprint("a", big).unwrap_err(), EcsError::DataTooLarge);
    assert!(book.get_blueprint_by_name("a").is_none());
}

#[test]
fn blueprint_stamps_entities() {
    let program = addr(7);
    let mut world = World::initalize(&program, &addr(9)).unwrap();
    let mut store = EntityStore::new();
    world.instance_world(&mut store, &addr(1), 0).unwrap();
    let health = world.register_component("health").unwrap();
    world.register_system(&addr(2), 0).unwrap();
    world.add_components_to_system_registration(&addr(1), &addr(2), 0, &vec![health]).unwrap();
    let mut book = Blueprints::new(addr(8));
    book.register_blueprint("unit", vec![(health, comp(4, vec![9]))]).unwrap();
    let bp = book.get_blueprint_by_name("unit").unwrap();
    for id in 0..3u64 {
        world.mint_entity(&mut store, &addr(2), 0, id, bp.stamp()).unwrap();
        let c = store.get_component(&program, 0, id, &health).unwrap();
        assert_eq!(c.data, vec![9]);
        assert_eq!(c.max_size, 4);
    }
    assert_eq!(bp.components[0].1.data, vec![9]);
}
