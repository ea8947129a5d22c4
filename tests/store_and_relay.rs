use anchor_lang::prelude::Pubkey;
use ecs_core::address::{get_world_component, u64_be_bytes, world_signer_address, Address, Universe};
use ecs_core::component::{
    compute_comp_arr_max_size, get_removed_size, SerializedComponent,
    SERIALIZED_COMPONENT_EXTRA_SPACE,
};
use ecs_core::error::EcsError;
use ecs_core::store::{EntityStore, ENTITY_HEADER_SIZE};
use ecs_core::world::{check_sys_registry, World, GRANTED_KEY_SIZE, SYSTEM_REGISTRATION_BASE_SIZE};

fn addr(b: u8) -> Address {
    Address { bytes: [b; 32] }
}

fn comp(max_size: u64, data: Vec<u8>) -> SerializedComponent {
    SerializedComponent { max_size, data }
}

const INSTANCE: u64 = 1;

struct Game {
    world: World,
    store: EntityStore,
    payer: Address,
    system: Address,
    health: Address,
    damage: Address,
    owner: Address,
}

/// A world with one instance, three schemas, and a system granted "health"
/// and "damage".
fn game() -> Game {
    let program = addr(7);
    let mut world = World::initalize(&program, &addr(9)).unwrap();
    let mut store = EntityStore::new();
    let payer = addr(1);
    world.instance_world(&mut store, &payer, INSTANCE).unwrap();
    let health = world.register_component("health").unwrap();
    let damage = world.register_component("damage").unwrap();
    let owner = world.register_component("owner").unwrap();
    let system = addr(2);
    world.register_system(&system, INSTANCE).unwrap();
    world
        .add_components_to_system_registration(&payer, &system, INSTANCE, &vec![health, damage])
        .unwrap();
    Game { world, store, payer, system, health, damage, owner }
}

fn space_of(g: &Game, id: u64) -> u64 {
    g.store.get_entity(&g.world.id(), INSTANCE, id).unwrap().space
}

fn pda(seeds: &[&[u8]], program: &Address) -> Address {
    let (k, _) = Pubkey::find_program_address(seeds, &Pubkey::new_from_array(program.bytes));
    Address { bytes: k.to_bytes() }
}

#[test]
fn component_array_size_is_sum_of_declared_sizes_and_overhead() {
    let comps = vec![(addr(1), comp(10, vec![])), (addr(2), comp(20, vec![1, 2]))];
    assert_eq!(compute_comp_arr_max_size(&comps), Some(10 + 44 + 20 + 44));
    assert_eq!(SERIALIZED_COMPONENT_EXTRA_SPACE, 44);
    assert_eq!(compute_comp_arr_max_size(&vec![]), Some(0));
}

#[test]
fn component_array_size_overflow_is_none() {
    let comps = vec![(addr(1), comp(u64::MAX - 44, vec![])), (addr(2), comp(1, vec![]))];
    assert_eq!(compute_comp_arr_max_size(&comps), None);
    let one = vec![(addr(1), comp(u64::MAX - 43, vec![]))];
    assert_eq!(compute_comp_arr_max_size(&one), None);
}

#[test]
fn removed_size_counts_only_listed_keys() {
    let comps = vec![
        (addr(1), comp(10, vec![])),
        (addr(2), comp(20, vec![])),
        (addr(3), comp(30, vec![])),
    ];
    assert_eq!(get_removed_size(&comps, &vec![addr(1), addr(3)]), Some(10 + 44 + 30 + 44));
    assert_eq!(get_removed_size(&comps, &vec![addr(9)]), Some(0));
    assert_eq!(get_removed_size(&comps, &vec![addr(2), addr(2)]), Some(64));
}

#[test]
fn capability_check_is_subset_test() {
    let granted = vec![addr(1), addr(2)];
    assert!(check_sys_registry(&vec![addr(1)], &granted));
    assert!(check_sys_registry(&vec![], &granted));
    assert!(check_sys_registry(&vec![addr(2), addr(1)], &granted));
    assert!(!check_sys_registry(&vec![addr(1), addr(3)], &granted));
    assert!(!check_sys_registry(&vec![addr(1)], &vec![]));
}

#[test]
fn big_endian_bytes_match_std() {
    for x in [0u64, 1, 0x0102030405060708, u64::MAX] {
        assert_eq!(u64_be_bytes(x), x.to_be_bytes().to_vec());
    }
}

#[test]
fn derived_addresses_match_program_address_derivation() {
    let program = addr(7);
    let signer = world_signer_address(&program).unwrap();
    assert_eq!(signer, pda(&[b"world_signer"], &program));
    assert_ne!(signer, program);
    let key = get_world_component(&program, "health").unwrap();
    assert_eq!(key, pda(&[b"health"], &program));
    let ecs = Universe::new(addr(5));
    let wi = ecs.get_world_instance(&program, 3).unwrap();
    assert_eq!(wi, pda(&[b"World", &program.bytes, &3u64.to_be_bytes()], &addr(5)));
    let keys = ecs.get_keys_from_id(&wi, &vec![4, 5]).unwrap();
    assert_eq!(keys.len(), 2);
    assert_eq!(keys[0], pda(&[b"Entity", &4u64.to_be_bytes(), &wi.bytes], &addr(5)));
    assert_eq!(keys[1], pda(&[b"Entity", &5u64.to_be_bytes(), &wi.bytes], &addr(5)));
}

#[test]
fn long_url_has_no_key() {
    let program = addr(7);
    let url = "a-schema-url-that-is-longer-than-thirty-two-bytes";
    assert_eq!(get_world_component(&program, url), None);
    let mut world = World::initalize(&program, &addr(9)).unwrap();
    assert_eq!(world.register_component(url), Err(EcsError::InvalidSeeds));
    assert_eq!(world.get_world_config().components, 0);
}

#[test]
fn schema_registered_twice_fails_and_key_is_reproducible() {
    let program = addr(7);
    let mut world = World::initalize(&program, &addr(9)).unwrap();
    let key = world.register_component("health").unwrap();
    assert_eq!(world.register_component("health"), Err(EcsError::DuplicateSchema));
    assert_eq!(get_world_component(&program, "health"), Some(key));
    assert_eq!(key, pda(&[b"health"], &program));
    assert_eq!(world.get_world_config().components, 1);
    assert_eq!(world.get_component_pubkey("health"), Some(key));
    assert_eq!(world.get_component_pubkey("damage"), None);
    assert_eq!(world.get_component_url(&key).unwrap(), "health");
    assert!(world.is_registered(&key));
}

#[test]
fn mint_allocates_header_plus_components() {
    let mut g = game();
    let comps = vec![(g.health, comp(8, vec![1])), (g.damage, comp(4, vec![]))];
    let size = g.world.mint_entity(&mut g.store, &g.system, INSTANCE, 10, comps).unwrap();
    assert_eq!(ENTITY_HEADER_SIZE, 92);
    assert_eq!(size, 92 + (8 + 44) + (4 + 44));
    assert_eq!(space_of(&g, 10), size);
    let wi = g.store.get_world_instance(&g.world.id(), INSTANCE).unwrap();
    assert_eq!(wi.entities, 1);
    assert_eq!(wi.world_signer, g.world.get_system_signer());
    let e = g.store.get_entity(&g.world.id(), INSTANCE, 10).unwrap();
    assert_eq!(e.world_signer, g.world.get_system_signer());
    assert_eq!(e.components.len(), 2);
}

#[test]
fn size_tracks_every_mint_add_remove() {
    let mut g = game();
    let s0 = g
        .world
        .mint_entity(&mut g.store, &g.system, INSTANCE, 10, vec![(g.health, comp(8, vec![]))])
        .unwrap();
    assert_eq!(space_of(&g, 10), 92 + 52);
    let grow = g
        .world
        .req_add_component(&mut g.store, &g.system, INSTANCE, 10, vec![(g.damage, comp(100, vec![]))])
        .unwrap();
    assert_eq!(grow, 144);
    assert_eq!(space_of(&g, 10), s0 + 144);
    let refund =
        g.world.req_remove_component(&mut g.store, &g.system, INSTANCE, 10, &vec![g.health]).unwrap();
    assert_eq!(refund, 52);
    assert_eq!(space_of(&g, 10), 92 + 144);
}

#[test]
fn ungranted_key_is_denied_and_state_unchanged() {
    let mut g = game();
    let denied = g.world.mint_entity(
        &mut g.store,
        &g.system,
        INSTANCE,
        10,
        vec![(g.health, comp(8, vec![])), (g.owner, comp(8, vec![]))],
    );
    assert_eq!(denied, Err(EcsError::CapabilityDenied));
    assert!(g.store.get_entity(&g.world.id(), INSTANCE, 10).is_none());
    g.world
        .mint_entity(&mut g.store, &g.system, INSTANCE, 10, vec![(g.health, comp(8, vec![5]))])
        .unwrap();
    let add = g.world.req_add_component(
        &mut g.store,
        &g.system,
        INSTANCE,
        10,
        vec![(g.owner, comp(8, vec![]))],
    );
    assert_eq!(add, Err(EcsError::CapabilityDenied));
    let rm = g.world.req_remove_component(&mut g.store, &g.system, INSTANCE, 10, &vec![g.owner]);
    assert_eq!(rm, Err(EcsError::CapabilityDenied));
    let e = g.store.get_entity(&g.world.id(), INSTANCE, 10).unwrap();
    assert_eq!(e.components.len(), 1);
    assert_eq!(e.space, 92 + 52);
}

#[test]
fn unregistered_system_is_denied() {
    let mut g = game();
    let stranger = addr(3);
    let r = g.world.mint_entity(&mut g.store, &stranger, INSTANCE, 10, vec![]);
    assert_eq!(r, Err(EcsError::CapabilityDenied));
    g.world.mint_entity(&mut g.store, &g.system, INSTANCE, 10, vec![]).unwrap();
    assert_eq!(
        g.world.req_remove_entity(&mut g.store, &stranger, INSTANCE, 10),
        Err(EcsError::CapabilityDenied)
    );
    assert!(g.store.get_entity(&g.world.id(), INSTANCE, 10).is_some());
}

#[test]
fn modify_never_changes_size() {
    let mut g = game();
    g.world
        .mint_entity(&mut g.store, &g.system, INSTANCE, 10, vec![(g.health, comp(8, vec![]))])
        .unwrap();
    let before = space_of(&g, 10);
    for data in [vec![1u8], vec![1, 2, 3, 4, 5, 6, 7, 8], vec![]] {
        g.world
            .req_modify_component(&mut g.store, &g.system, INSTANCE, 10, &vec![g.health], &vec![data])
            .unwrap();
        assert_eq!(space_of(&g, 10), before);
    }
}

#[test]
fn remove_then_readd_restores_size() {
    let mut g = game();
    g.world
        .mint_entity(
            &mut g.store,
            &g.system,
            INSTANCE,
            10,
            vec![(g.health, comp(8, vec![1])), (g.damage, comp(16, vec![2]))],
        )
        .unwrap();
    let before = space_of(&g, 10);
    g.world
        .req_remove_component(&mut g.store, &g.system, INSTANCE, 10, &vec![g.health, g.damage])
        .unwrap();
    assert_eq!(space_of(&g, 10), 92);
    g.world
        .req_add_component(
            &mut g.store,
            &g.system,
            INSTANCE,
            10,
            vec![(g.damage, comp(16, vec![])), (g.health, comp(8, vec![9, 9]))],
        )
        .unwrap();
    assert_eq!(space_of(&g, 10), before);
}

#[test]
fn delete_only_when_empty() {
    let mut g = game();
    g.world
        .mint_entity(&mut g.store, &g.system, INSTANCE, 10, vec![(g.health, comp(8, vec![]))])
        .unwrap();
    assert_eq!(
        g.world.req_remove_entity(&mut g.store, &g.system, INSTANCE, 10),
        Err(EcsError::NonEmptyEntity)
    );
    g.world.req_remove_component(&mut g.store, &g.system, INSTANCE, 10, &vec![g.health]).unwrap();
    assert_eq!(g.world.req_remove_entity(&mut g.store, &g.system, INSTANCE, 10), Ok(92));
    assert!(g.store.get_entity(&g.world.id(), INSTANCE, 10).is_none());
    assert_eq!(
        g.world.req_remove_entity(&mut g.store, &g.system, INSTANCE, 10),
        Err(EcsError::EntityNotFound)
    );
}

#[test]
fn reference_to_deleted_entity_resolves_to_nothing() {
    let mut g = game();
    g.world.mint_entity(&mut g.store, &g.system, INSTANCE, 11, vec![]).unwrap();
    let reference: u64 = 11;
    g.world.req_remove_entity(&mut g.store, &g.system, INSTANCE, reference).unwrap();
    assert!(g.store.get_entity(&g.world.id(), INSTANCE, reference).is_none());
    assert!(g.store.get_component(&g.world.id(), INSTANCE, reference, &g.health).is_none());
}

#[test]
fn modify_checks_capability_then_size_then_writes() {
    let mut g = game();
    g.world
        .mint_entity(&mut g.store, &g.system, INSTANCE, 10, vec![(g.health, comp(4, vec![0]))])
        .unwrap();
    let owner = g.world.req_modify_component(
        &mut g.store,
        &g.system,
        INSTANCE,
        10,
        &vec![g.owner],
        &vec![vec![1]],
    );
    assert_eq!(owner, Err(EcsError::CapabilityDenied));
    let long = g.world.req_modify_component(
        &mut g.store,
        &g.system,
        INSTANCE,
        10,
        &vec![g.health],
        &vec![vec![1, 2, 3, 4, 5]],
    );
    assert_eq!(long, Err(EcsError::DataTooLarge));
    assert_eq!(g.store.get_component(&g.world.id(), INSTANCE, 10, &g.health).unwrap().data, vec![0]);
    g.world
        .req_modify_component(&mut g.store, &g.system, INSTANCE, 10, &vec![g.health], &vec![vec![7, 8]])
        .unwrap();
    let c = g.store.get_component(&g.world.id(), INSTANCE, 10, &g.health).unwrap();
    assert_eq!(c.data, vec![7, 8]);
    assert_eq!(c.max_size, 4);
}

#[test]
fn modify_is_all_or_nothing() {
    let mut g = game();
    g.world
        .mint_entity(
            &mut g.store,
            &g.system,
            INSTANCE,
            10,
            vec![(g.health, comp(4, vec![0])), (g.damage, comp(1, vec![0]))],
        )
        .unwrap();
    let r = g.world.req_modify_component(
        &mut g.store,
        &g.system,
        INSTANCE,
        10,
        &vec![g.health, g.damage],
        &vec![vec![1], vec![1, 2]],
    );
    assert_eq!(r, Err(EcsError::DataTooLarge));
    let h = g.store.get_component(&g.world.id(), INSTANCE, 10, &g.health).unwrap();
    assert_eq!(h.data, vec![0]);
    g.world
        .req_modify_component(
            &mut g.store,
            &g.system,
            INSTANCE,
            10,
            &vec![g.health, g.health],
            &vec![vec![1], vec![2]],
        )
        .unwrap();
    let h = g.store.get_component(&g.world.id(), INSTANCE, 10, &g.health).unwrap();
    assert_eq!(h.data, vec![2]);
}

#[test]
fn modify_errors_for_absent_key_and_length_mismatch() {
    let mut g = game();
    g.world
        .mint_entity(&mut g.store, &g.system, INSTANCE, 10, vec![(g.health, comp(4, vec![]))])
        .unwrap();
    let absent = g.world.req_modify_component(
        &mut g.store,
        &g.system,
        INSTANCE,
        10,
        &vec![g.damage],
        &vec![vec![1]],
    );
    assert_eq!(absent, Err(EcsError::ComponentNotFound));
    let mismatch = g.world.req_modify_component(
        &mut g.store,
        &g.system,
        INSTANCE,
        10,
        &vec![g.health],
        &vec![],
    );
    assert_eq!(mismatch, Err(EcsError::LengthMismatch));
}

#[test]
fn second_mint_of_same_id_collides() {
    let mut g = game();
    g.world.mint_entity(&mut g.store, &g.system, INSTANCE, 42, vec![]).unwrap();
    let again = g.world.mint_entity(
        &mut g.store,
        &g.system,
        INSTANCE,
        42,
        vec![(g.health, comp(1, vec![]))],
    );
    assert_eq!(again, Err(EcsError::AddressCollision));
    assert_eq!(space_of(&g, 42), 92);
    let wi = g.store.get_world_instance(&g.world.id(), INSTANCE).unwrap();
    assert_eq!(wi.entities, 1);
}

#[test]
fn duplicate_components_are_refused() {
    let mut g = game();
    let twice = g.world.mint_entity(
        &mut g.store,
        &g.system,
        INSTANCE,
        10,
        vec![(g.health, comp(1, vec![])), (g.health, comp(2, vec![]))],
    );
    assert_eq!(twice, Err(EcsError::DuplicateComponent));
    g.world
        .mint_entity(&mut g.store, &g.system, INSTANCE, 10, vec![(g.health, comp(1, vec![]))])
        .unwrap();
    let existing = g.world.req_add_component(
        &mut g.store,
        &g.system,
        INSTANCE,
        10,
        vec![(g.health, comp(1, vec![]))],
    );
    assert_eq!(existing, Err(EcsError::DuplicateComponent));
}

#[test]
fn payload_over_declared_size_is_refused_at_mint_and_add() {
    let mut g = game();
    let r = g.world.mint_entity(
        &mut g.store,
        &g.system,
        INSTANCE,
        10,
        vec![(g.health, comp(1, vec![1, 2]))],
    );
    assert_eq!(r, Err(EcsError::DataTooLarge));
    g.world.mint_entity(&mut g.store, &g.system, INSTANCE, 10, vec![]).unwrap();
    let r = g.world.req_add_component(
        &mut g.store,
        &g.system,
        INSTANCE,
        10,
        vec![(g.damage, comp(0, vec![1]))],
    );
    assert_eq!(r, Err(EcsError::DataTooLarge));
}

#[test]
fn oversized_declaration_overflows() {
    let mut g = game();
    let r = g.world.mint_entity(
        &mut g.store,
        &g.system,
        INSTANCE,
        10,
        vec![(g.health, comp(u64::MAX - 100, vec![]))],
    );
    assert_eq!(r, Err(EcsError::Overflow));
}

#[test]
fn remove_of_absent_component_fails() {
    let mut g = game();
    g.world
        .mint_entity(&mut g.store, &g.system, INSTANCE, 10, vec![(g.health, comp(1, vec![]))])
        .unwrap();
    let r = g.world.req_remove_component(
        &mut g.store,
        &g.system,
        INSTANCE,
        10,
        &vec![g.health, g.damage],
    );
    assert_eq!(r, Err(EcsError::ComponentNotFound));
    assert_eq!(space_of(&g, 10), 92 + 45);
}

#[test]
fn operations_on_missing_entity_fail() {
    let mut g = game();
    let r = g.world.req_add_component(&mut g.store, &g.system, INSTANCE, 99, vec![]);
    assert_eq!(r, Err(EcsError::EntityNotFound));
    let r = g.world.mint_entity(&mut g.store, &g.system, 5, 1, vec![]);
    assert_eq!(r, Err(EcsError::CapabilityDenied));
}

#[test]
fn store_checks_signer() {
    let mut g = game();
    let program = g.world.id();
    let signer = g.world.get_system_signer();
    let intruder = addr(4);
    assert_eq!(
        g.store.mint_entity(&intruder, &program, INSTANCE, 1, vec![]),
        Err(EcsError::Unauthorized)
    );
    assert_eq!(g.store.mint_entity(&signer, &program, 77, 1, vec![]), Err(EcsError::InstanceNotFound));
    g.store.mint_entity(&signer, &program, INSTANCE, 1, vec![]).unwrap();
    assert_eq!(
        g.store.modify_components(&intruder, &program, INSTANCE, 1, &vec![], &vec![]),
        Err(EcsError::Unauthorized)
    );
    assert_eq!(g.store.remove_entity(&intruder, &program, INSTANCE, 1), Err(EcsError::Unauthorized));
    assert_eq!(
        g.store.register_world(&intruder, &program, 2),
        Err(EcsError::Unauthorized)
    );
    assert_eq!(
        g.store.register_world(&signer, &program, INSTANCE),
        Err(EcsError::InstanceExists)
    );
    assert_eq!(g.store.register_world(&signer, &program, 2), Ok(()));
}

#[test]
fn instance_and_registration_errors() {
    let mut g = game();
    assert_eq!(
        g.world.instance_world(&mut g.store, &g.payer, INSTANCE),
        Err(EcsError::InstanceExists)
    );
    assert_eq!(g.world.register_system(&g.system, INSTANCE), Err(EcsError::RegistrationExists));
    assert_eq!(g.world.register_system(&addr(3), 8), Err(EcsError::InstanceNotFound));
    let keys = vec![g.owner];
    assert_eq!(
        g.world.add_components_to_system_registration(&addr(3), &g.system, INSTANCE, &keys),
        Err(EcsError::Unauthorized)
    );
    assert_eq!(
        g.world.add_components_to_system_registration(&g.payer, &addr(3), INSTANCE, &keys),
        Err(EcsError::RegistrationNotFound)
    );
    assert_eq!(
        g.world.add_components_to_system_registration(&g.payer, &g.system, 8, &keys),
        Err(EcsError::InstanceNotFound)
    );
}

#[test]
fn grants_append_and_grow_the_record() {
    let mut g = game();
    let reg = g.world.get_registration(&g.system, INSTANCE).unwrap();
    assert_eq!(reg.components, vec![g.health, g.damage]);
    assert_eq!(reg.space, SYSTEM_REGISTRATION_BASE_SIZE + 2 * GRANTED_KEY_SIZE);
    assert_eq!(SYSTEM_REGISTRATION_BASE_SIZE + 2 * GRANTED_KEY_SIZE, 52 + 66);
    g.world
        .add_components_to_system_registration(&g.payer, &g.system, INSTANCE, &vec![g.owner])
        .unwrap();
    let reg = g.world.get_registration(&g.system, INSTANCE).unwrap();
    assert_eq!(reg.components, vec![g.health, g.damage, g.owner]);
    assert_eq!(reg.space, 52 + 99);
    g.world
        .mint_entity(&mut g.store, &g.system, INSTANCE, 10, vec![(g.owner, comp(1, vec![]))])
        .unwrap();
}

#[test]
fn instances_are_separate_namespaces() {
    let mut g = game();
    g.world.instance_world(&mut g.store, &g.payer, 2).unwrap();
    g.world.register_system(&g.system, 2).unwrap();
    g.world.mint_entity(&mut g.store, &g.system, INSTANCE, 10, vec![]).unwrap();
    g.world.mint_entity(&mut g.store, &g.system, 2, 10, vec![]).unwrap();
    let denied = g.world.mint_entity(
        &mut g.store,
        &g.system,
        2,
        11,
        vec![(g.health, comp(1, vec![]))],
    );
    assert_eq!(denied, Err(EcsError::CapabilityDenied));
}
