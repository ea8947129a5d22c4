use vstd::prelude::*;
use crate::address::{Address, program_address_of, world_signer_seeds, world_signer_address};
use crate::component::{
    ComponentView,
    SerializedComponent, EntryView, entry_view, entries_view, keys_view, total_footprint, removed_part,
    kept_part, compute_comp_arr_max_size, get_removed_size, contains_key,
    lemma_total_append, lemma_total_split, lemma_total_nonneg,
};
use crate::error::EcsError;

verus! {

/// Bytes of an entity record before its components: the account
/// discriminator (8), the entity id (8), the instance (8), the world (32),
/// the delegated signer (32) and the component count (4).
pub const ENTITY_HEADER_SIZE: u64 = 92;

/// A registered instance of a world: its namespace in the store.
#[derive(Clone, Copy, Debug)]
pub struct WorldInstance {
    pub world: Address,
    pub instance: u64,
    /// How many entities were minted in this instance; it only grows.
    pub entities: u64,
    /// The relay identity of the world: the one signer that may mint here.
    pub world_signer: Address,
}

pub ghost struct WorldView {
    pub world: Seq<u8>,
    pub instance: u64,
    pub entities: u64,
    pub world_signer: Seq<u8>,
}

impl View for WorldInstance {
    type V = WorldView;

    open spec fn view(&self) -> WorldView {
        WorldView {
            world: self.world@,
            instance: self.instance,
            entities: self.entities,
            world_signer: self.world_signer@,
        }
    }
}

/// An entity: a bag of components, addressed by world, instance and id.
#[derive(Debug)]
pub struct Entity {
    pub entity_id: u64,
    pub instance: u64,
    pub world: Address,
    /// The only signer that may change this entity.
    pub world_signer: Address,
    pub components: Vec<(Address, SerializedComponent)>,
    /// The bytes allocated to the entity's record.
    pub space: u64,
}

pub ghost struct EntityView {
    pub entity_id: u64,
    pub instance: u64,
    pub world: Seq<u8>,
    pub world_signer: Seq<u8>,
    pub components: Seq<EntryView>,
    pub space: u64,
}

impl View for Entity {
    type V = EntityView;

    open spec fn view(&self) -> EntityView {
        EntityView {
            entity_id: self.entity_id,
            instance: self.instance,
            world: self.world@,
            world_signer: self.world_signer@,
            components: entries_view(self.components@),
            space: self.space,
        }
    }
}

/// The entity store: every world instance and every entity of every world.
pub struct EntityStore {
    worlds: Vec<WorldInstance>,
    entities: Vec<Entity>,
}

pub ghost struct StoreView {
    pub worlds: Seq<WorldView>,
    pub entities: Seq<EntityView>,
}

impl View for EntityStore {
    type V = StoreView;

    closed spec fn view(&self) -> StoreView {
        StoreView {
            worlds: self.worlds@.map_values(|w: WorldInstance| w@),
            entities: self.entities@.map_values(|e: Entity| e@),
        }
    }
}

pub open spec fn is_world(w: WorldView, world: Seq<u8>, instance: u64) -> bool {
    w.world == world && w.instance == instance
}

pub open spec fn has_world(s: StoreView, world: Seq<u8>, instance: u64) -> bool {
    exists|i: int| 0 <= i < s.worlds.len() && is_world(s.worlds[i], world, instance)
}

pub open spec fn world_idx(s: StoreView, world: Seq<u8>, instance: u64) -> int {
    choose|i: int| 0 <= i < s.worlds.len() && is_world(s.worlds[i], world, instance)
}

pub open spec fn is_entity(e: EntityView, world: Seq<u8>, instance: u64, id: u64) -> bool {
    e.world == world && e.instance == instance && e.entity_id == id
}

pub open spec fn has_entity(s: StoreView, world: Seq<u8>, instance: u64, id: u64) -> bool {
    exists|i: int| 0 <= i < s.entities.len() && is_entity(s.entities[i], world, instance, id)
}

pub open spec fn entity_idx(s: StoreView, world: Seq<u8>, instance: u64, id: u64) -> int {
    choose|i: int| 0 <= i < s.entities.len() && is_entity(s.entities[i], world, instance, id)
}

/// The entity with this address; meaningful where `has_entity` holds.
pub open spec fn entity_of(s: StoreView, world: Seq<u8>, instance: u64, id: u64) -> EntityView {
    s.entities[entity_idx(s, world, instance, id)]
}

/// No two components share a key.
pub open spec fn unique_keys(c: Seq<EntryView>) -> bool {
    forall|i: int, j: int| 0 <= i < j < c.len() ==> c[i].0 != c[j].0
}

/// Every payload fits its declared maximum size.
pub open spec fn payloads_fit(c: Seq<EntryView>) -> bool {
    forall|i: int| 0 <= i < c.len() ==> c[i].1.data.len() <= c[i].1.max_size
}

pub open spec fn has_key(c: Seq<EntryView>, k: Seq<u8>) -> bool {
    exists|i: int| 0 <= i < c.len() && c[i].0 == k
}

/// The storage size that an entity with these components must have.
pub open spec fn entity_size(c: Seq<EntryView>) -> int {
    ENTITY_HEADER_SIZE + total_footprint(c)
}

pub open spec fn entity_wf(e: EntityView) -> bool {
    &&& unique_keys(e.components)
    &&& payloads_fit(e.components)
    &&& e.space == entity_size(e.components)
}

pub open spec fn store_wf(s: StoreView) -> bool {
    &&& forall|i: int, j: int|
        0 <= i < j < s.worlds.len() ==> !is_world(
            s.worlds[j],
            s.worlds[i].world,
            s.worlds[i].instance,
        )
    &&& forall|i: int, j: int|
        0 <= i < j < s.entities.len() ==> !is_entity(
            s.entities[j],
            s.entities[i].world,
            s.entities[i].instance,
            s.entities[i].entity_id,
        )
    &&& forall|i: int| 0 <= i < s.entities.len() ==> #[trigger] entity_wf(s.entities[i])
}

/// The store with entity `i` replaced by `e`.
pub open spec fn with_entity(s: StoreView, i: int, e: EntityView) -> StoreView {
    StoreView { entities: s.entities.update(i, e), ..s }
}

pub open spec fn register_world_error(
    s: StoreView,
    signer: Seq<u8>,
    world: Seq<u8>,
    instance: u64,
) -> Option<EcsError> {
    if program_address_of(world_signer_seeds(), world) != Some(signer) {
        Some(EcsError::Unauthorized)
    } else if has_world(s, world, instance) {
        Some(EcsError::InstanceExists)
    } else {
        None
    }
}

pub open spec fn mint_error(
    s: StoreView,
    signer: Seq<u8>,
    world: Seq<u8>,
    instance: u64,
    entity_id: u64,
    c: Seq<EntryView>,
) -> Option<EcsError> {
    if !has_world(s, world, instance) {
        Some(EcsError::InstanceNotFound)
    } else if s.worlds[world_idx(s, world, instance)].world_signer != signer {
        Some(EcsError::Unauthorized)
    } else if has_entity(s, world, instance, entity_id) {
        Some(EcsError::AddressCollision)
    } else if !unique_keys(c) {
        Some(EcsError::DuplicateComponent)
    } else if !payloads_fit(c) {
        Some(EcsError::DataTooLarge)
    } else if entity_size(c) > u64::MAX || s.worlds[world_idx(s, world, instance)].entities
        == u64::MAX {
        Some(EcsError::Overflow)
    } else {
        None
    }
}

/// The store after a successful mint.
pub open spec fn minted(
    s: StoreView,
    signer: Seq<u8>,
    world: Seq<u8>,
    instance: u64,
    entity_id: u64,
    c: Seq<EntryView>,
) -> StoreView {
    let i = world_idx(s, world, instance);
    StoreView {
        worlds: s.worlds.update(i, WorldView { entities: (s.worlds[i].entities + 1) as u64, ..s.worlds[i] }),
        entities: s.entities.push(
            EntityView {
                entity_id,
                instance,
                world,
                world_signer: signer,
                components: c,
                space: entity_size(c) as u64,
            },
        ),
    }
}

/// Why a change to an existing entity is refused before anything else is
/// looked at: the entity is missing, or the signer is not its delegated one.
pub open spec fn access_error(
    s: StoreView,
    signer: Seq<u8>,
    world: Seq<u8>,
    instance: u64,
    id: u64,
) -> Option<EcsError> {
    if !has_entity(s, world, instance, id) {
        Some(EcsError::EntityNotFound)
    } else if entity_of(s, world, instance, id).world_signer != signer {
        Some(EcsError::Unauthorized)
    } else {
        None
    }
}

pub open spec fn add_error(
    s: StoreView,
    signer: Seq<u8>,
    world: Seq<u8>,
    instance: u64,
    id: u64,
    c: Seq<EntryView>,
) -> Option<EcsError> {
    let e = entity_of(s, world, instance, id);
    if access_error(s, signer, world, instance, id) is Some {
        access_error(s, signer, world, instance, id)
    } else if !unique_keys(c) || exists|i: int|
        0 <= i < c.len() && #[trigger] has_key(e.components, c[i].0) {
        Some(EcsError::DuplicateComponent)
    } else if !payloads_fit(c) {
        Some(EcsError::DataTooLarge)
    } else if e.space + total_footprint(c) > u64::MAX {
        Some(EcsError::Overflow)
    } else {
        None
    }
}

/// The entity after components `c` are added to it.
pub open spec fn with_added(e: EntityView, c: Seq<EntryView>) -> EntityView {
    EntityView { components: e.components + c, space: (e.space + total_footprint(c)) as u64, ..e }
}

pub open spec fn remove_error(
    s: StoreView,
    signer: Seq<u8>,
    world: Seq<u8>,
    instance: u64,
    id: u64,
    keys: Seq<Seq<u8>>,
) -> Option<EcsError> {
    let e = entity_of(s, world, instance, id);
    if access_error(s, signer, world, instance, id) is Some {
        access_error(s, signer, world, instance, id)
    } else if exists|i: int| 0 <= i < keys.len() && !#[trigger] has_key(e.components, keys[i]) {
        Some(EcsError::ComponentNotFound)
    } else {
        None
    }
}

/// The entity after the components with keys among `keys` are removed.
pub open spec fn with_removed(e: EntityView, keys: Seq<Seq<u8>>) -> EntityView {
    EntityView {
        components: kept_part(e.components, keys),
        space: (e.space - total_footprint(removed_part(e.components, keys))) as u64,
        ..e
    }
}

pub open spec fn remove_entity_error(
    s: StoreView,
    signer: Seq<u8>,
    world: Seq<u8>,
    instance: u64,
    id: u64,
) -> Option<EcsError> {
    if access_error(s, signer, world, instance, id) is Some {
        access_error(s, signer, world, instance, id)
    } else if entity_of(s, world, instance, id).components.len() != 0 {
        Some(EcsError::NonEmptyEntity)
    } else {
        None
    }
}

/// Every entry of what `kept_part` leaves is an entry of the original whose
/// key is not among `keys`.
pub proof fn lemma_kept_members(s: Seq<EntryView>, keys: Seq<Seq<u8>>)
    ensures
        forall|i: int|
            0 <= i < kept_part(s, keys).len() ==> exists|j: int|
                0 <= j < s.len() && s[j] == #[trigger] kept_part(s, keys)[i],
        forall|i: int|
            0 <= i < kept_part(s, keys).len() ==> !keys.contains(#[trigger] kept_part(s, keys)[i].0),
    decreases s.len(),
{
    if s.len() > 0 {
        let t = s.drop_last();
        lemma_kept_members(t, keys);
        let k = kept_part(t, keys);
        assert forall|i: int| 0 <= i < kept_part(s, keys).len() implies exists|j: int|
            0 <= j < s.len() && s[j] == #[trigger] kept_part(s, keys)[i] by {
            if i < k.len() {
                let j = choose|j: int| 0 <= j < t.len() && t[j] == k[i];
                assert(s[j] == kept_part(s, keys)[i]);
            } else {
                assert(s[s.len() - 1] == kept_part(s, keys)[i]);
            }
        }
    }
}

proof fn lemma_kept_unique(s: Seq<EntryView>, keys: Seq<Seq<u8>>)
    requires
        unique_keys(s),
    ensures
        unique_keys(kept_part(s, keys)),
        payloads_fit(s) ==> payloads_fit(kept_part(s, keys)),
    decreases s.len(),
{
    lemma_kept_members(s, keys);
    if s.len() > 0 {
        let t = s.drop_last();
        assert(unique_keys(t));
        lemma_kept_unique(t, keys);
        lemma_kept_members(t, keys);
        let k = kept_part(t, keys);
        if !keys.contains(s.last().0) {
            let n = k.push(s.last());
            assert forall|a: int, b: int| 0 <= a < b < n.len() implies #[trigger] n[a].0
                != #[trigger] n[b].0 by {
                if b == k.len() {
                    let j = choose|j: int| 0 <= j < t.len() && t[j] == k[a];
                    assert(s[j] == t[j]);
                } else {
                    assert(n[a] == k[a] && n[b] == k[b]);
                }
            }
        }
        if payloads_fit(s) {
            let kk = kept_part(s, keys);
            assert forall|i: int| 0 <= i < kk.len() implies kk[i].1.data.len()
                <= kk[i].1.max_size by {
                let j = choose|j: int| 0 <= j < s.len() && s[j] == #[trigger] kk[i];
            }
        }
    }
}

/// Each key of `keys` that an entity holds is found among the removed entries,
/// so what stays holds none of `keys`.
proof fn lemma_kept_has_key(s: Seq<EntryView>, keys: Seq<Seq<u8>>, k: Seq<u8>)
    ensures
        has_key(kept_part(s, keys), k) <==> (has_key(s, k) && !keys.contains(k)),
    decreases s.len(),
{
    lemma_kept_members(s, keys);
    if s.len() > 0 {
        let t = s.drop_last();
        lemma_kept_has_key(t, keys, k);
        let kt = kept_part(t, keys);
        if has_key(s, k) && !keys.contains(k) {
            let j = choose|j: int| 0 <= j < s.len() && s[j].0 == k;
            if j < t.len() {
                assert(t[j].0 == k);
                let m = choose|m: int| 0 <= m < kt.len() && kt[m].0 == k;
                if !keys.contains(s.last().0) {
                    assert(kept_part(s, keys)[m] == kt[m]);
                }
            } else {
                assert(kept_part(s, keys).last().0 == k);
            }
        }
        if has_key(kept_part(s, keys), k) {
            let m = choose|m: int| 0 <= m < kept_part(s, keys).len() && kept_part(s, keys)[m].0 == k;
            let j = choose|j: int| 0 <= j < s.len() && s[j] == #[trigger] kept_part(s, keys)[m];
            assert(s[j].0 == k);
        }
    }
}

/// Replacing an entity by a well-formed one with the same address keeps the
/// store well formed.
proof fn lemma_replace_entity(s: StoreView, i: int, e: EntityView)
    requires
        store_wf(s),
        0 <= i < s.entities.len(),
        is_entity(e, s.entities[i].world, s.entities[i].instance, s.entities[i].entity_id),
        entity_wf(e),
    ensures
        store_wf(with_entity(s, i, e)),
{
    let t = with_entity(s, i, e);
    assert forall|a: int, b: int|
        0 <= a < b < t.entities.len() implies !is_entity(
        t.entities[b],
        t.entities[a].world,
        t.entities[a].instance,
        t.entities[a].entity_id,
    ) by {
        assert(!is_entity(
            s.entities[b],
            s.entities[a].world,
            s.entities[a].instance,
            s.entities[a].entity_id,
        ));
    }
    assert forall|a: int| 0 <= a < t.entities.len() implies #[trigger] entity_wf(t.entities[a]) by {
        if a != i {
            assert(entity_wf(s.entities[a]));
        }
    }
}

/// The position of key `k`; meaningful where `has_key` holds.
pub open spec fn key_pos(c: Seq<EntryView>, k: Seq<u8>) -> int {
    choose|i: int| 0 <= i < c.len() && c[i].0 == k
}

/// The components with the payload of key `k` replaced by `d`.
pub open spec fn set_data(c: Seq<EntryView>, k: Seq<u8>, d: Seq<u8>) -> Seq<EntryView> {
    c.map_values(
        |e: EntryView|
            if e.0 == k {
                (e.0, ComponentView { max_size: e.1.max_size, data: d })
            } else {
                e
            },
    )
}

/// The components after the payload of each `keys[i]` is replaced by
/// `data[i]`, in order.
pub open spec fn apply_modifications(
    c: Seq<EntryView>,
    keys: Seq<Seq<u8>>,
    data: Seq<Seq<u8>>,
) -> Seq<EntryView>
    decreases keys.len(),
{
    if keys.len() == 0 || data.len() == 0 {
        c
    } else {
        set_data(
            apply_modifications(c, keys.drop_last(), data.drop_last()),
            keys.last(),
            data.last(),
        )
    }
}

/// The first reason, in the order of `keys`, why the modification is refused.
pub open spec fn modification_error(
    c: Seq<EntryView>,
    keys: Seq<Seq<u8>>,
    data: Seq<Seq<u8>>,
) -> Option<EcsError>
    decreases keys.len(),
{
    if keys.len() == 0 || data.len() == 0 {
        None
    } else {
        let e = modification_error(c, keys.drop_last(), data.drop_last());
        if e is Some {
            e
        } else if !has_key(c, keys.last()) {
            Some(EcsError::ComponentNotFound)
        } else if data.last().len() > c[key_pos(c, keys.last())].1.max_size {
            Some(EcsError::DataTooLarge)
        } else {
            None
        }
    }
}

pub open spec fn modify_error(
    s: StoreView,
    signer: Seq<u8>,
    world: Seq<u8>,
    instance: u64,
    id: u64,
    keys: Seq<Seq<u8>>,
    data: Seq<Seq<u8>>,
) -> Option<EcsError> {
    if access_error(s, signer, world, instance, id) is Some {
        access_error(s, signer, world, instance, id)
    } else if keys.len() != data.len() {
        Some(EcsError::LengthMismatch)
    } else {
        modification_error(entity_of(s, world, instance, id).components, keys, data)
    }
}

/// The entity after a modification; its storage size stays as it was.
pub open spec fn with_modified(e: EntityView, keys: Seq<Seq<u8>>, data: Seq<Seq<u8>>) -> EntityView {
    EntityView { components: apply_modifications(e.components, keys, data), ..e }
}

pub open spec fn data_view(data: Seq<Vec<u8>>) -> Seq<Seq<u8>> {
    data.map_values(|d: Vec<u8>| d@)
}

/// The same keys with the same declared sizes, in the same order.
pub open spec fn same_shape(a: Seq<EntryView>, b: Seq<EntryView>) -> bool {
    &&& a.len() == b.len()
    &&& forall|i: int|
        0 <= i < a.len() ==> a[i].0 == b[i].0 && a[i].1.max_size == b[i].1.max_size
}

proof fn lemma_shape_total(a: Seq<EntryView>, b: Seq<EntryView>)
    requires
        same_shape(a, b),
    ensures
        total_footprint(a) == total_footprint(b),
    decreases a.len(),
{
    if a.len() > 0 {
        assert(same_shape(a.drop_last(), b.drop_last()));
        lemma_shape_total(a.drop_last(), b.drop_last());
    }
}

proof fn lemma_apply_shape(c: Seq<EntryView>, keys: Seq<Seq<u8>>, data: Seq<Seq<u8>>)
    ensures
        same_shape(c, apply_modifications(c, keys, data)),
    decreases keys.len(),
{
    if keys.len() > 0 && data.len() > 0 {
        lemma_apply_shape(c, keys.drop_last(), data.drop_last());
    }
}

/// Modifying payloads never changes the storage that the components take:
/// the same keys stay, with the same declared sizes.
pub proof fn lemma_modify_keeps_size(c: Seq<EntryView>, keys: Seq<Seq<u8>>, data: Seq<Seq<u8>>)
    ensures
        total_footprint(apply_modifications(c, keys, data)) == total_footprint(c),
        same_shape(c, apply_modifications(c, keys, data)),
{
    lemma_apply_shape(c, keys, data);
    lemma_shape_total(c, apply_modifications(c, keys, data));
}

proof fn lemma_modification_error_prefix(
    c: Seq<EntryView>,
    keys: Seq<Seq<u8>>,
    data: Seq<Seq<u8>>,
    i: int,
)
    requires
        0 <= i <= keys.len(),
        keys.len() == data.len(),
        modification_error(c, keys.take(i), data.take(i)) is Some,
    ensures
        modification_error(c, keys, data) == modification_error(c, keys.take(i), data.take(i)),
    decreases keys.len(),
{
    if i == keys.len() {
        assert(keys.take(i) =~= keys);
        assert(data.take(i) =~= data);
    } else {
        assert(keys.drop_last().take(i) =~= keys.take(i));
        assert(data.drop_last().take(i) =~= data.take(i));
        lemma_modification_error_prefix(c, keys.drop_last(), data.drop_last(), i);
    }
}

proof fn lemma_modification_ok(c: Seq<EntryView>, keys: Seq<Seq<u8>>, data: Seq<Seq<u8>>, i: int)
    requires
        keys.len() == data.len(),
        modification_error(c, keys, data) is None,
        0 <= i < keys.len(),
    ensures
        has_key(c, keys[i]),
        data[i].len() <= c[key_pos(c, keys[i])].1.max_size,
    decreases keys.len(),
{
    if i < keys.len() - 1 {
        lemma_modification_ok(c, keys.drop_last(), data.drop_last(), i);
    }
}

proof fn lemma_key_pos(c: Seq<EntryView>, k: Seq<u8>, p: int)
    requires
        unique_keys(c),
        0 <= p < c.len(),
        c[p].0 == k,
    ensures
        has_key(c, k),
        key_pos(c, k) == p,
{
    assert(has_key(c, k));
    let q = key_pos(c, k);
    if q < p {
        assert(c[q].0 != c[p].0);
    } else if q > p {
        assert(c[p].0 != c[q].0);
    }
}

proof fn lemma_world_idx(s: StoreView, world: Seq<u8>, instance: u64, i: int)
    requires
        store_wf(s),
        0 <= i < s.worlds.len(),
        is_world(s.worlds[i], world, instance),
    ensures
        has_world(s, world, instance),
        world_idx(s, world, instance) == i,
{
    let k = world_idx(s, world, instance);
    if k != i {
        if k < i {
            assert(!is_world(s.worlds[i], s.worlds[k].world, s.worlds[k].instance));
        } else {
            assert(!is_world(s.worlds[k], s.worlds[i].world, s.worlds[i].instance));
        }
    }
}

proof fn lemma_entity_idx(s: StoreView, world: Seq<u8>, instance: u64, id: u64, i: int)
    requires
        store_wf(s),
        0 <= i < s.entities.len(),
        is_entity(s.entities[i], world, instance, id),
    ensures
        has_entity(s, world, instance, id),
        entity_idx(s, world, instance, id) == i,
{
    let k = entity_idx(s, world, instance, id);
    if k != i {
        if k < i {
            assert(!is_entity(
                s.entities[i],
                s.entities[k].world,
                s.entities[k].instance,
                s.entities[k].entity_id,
            ));
        } else {
            assert(!is_entity(
                s.entities[k],
                s.entities[i].world,
                s.entities[i].instance,
                s.entities[i].entity_id,
            ));
        }
    }
}

/// Whether the entries before position `upto` hold key `k`.
fn key_among(c: &Vec<(Address, SerializedComponent)>, upto: usize, k: &Address) -> (r: bool)
    requires
        upto <= c@.len(),
    ensures
        r == has_key(entries_view(c@).take(upto as int), k@),
{
    let ghost s = entries_view(c@).take(upto as int);
    let mut i: usize = 0;
    while i < upto
        invariant
            0 <= i <= upto <= c@.len(),
            s == entries_view(c@).take(upto as int),
            forall|j: int| 0 <= j < i ==> s[j].0 != k@,
        decreases upto - i,
    {
        if c[i].0 == *k {
            assert(s[i as int].0 == k@);
            return true;
        }
        i = i + 1;
    }
    false
}

/// Position of key `k` among the entries, if it is there.
fn find_key(c: &Vec<(Address, SerializedComponent)>, k: &Address) -> (r: Option<usize>)
    ensures
        match r {
            Some(i) => i < c@.len() && entries_view(c@)[i as int].0 == k@,
            None => !has_key(entries_view(c@), k@),
        },
{
    let mut i: usize = 0;
    while i < c.len()
        invariant
            0 <= i <= c@.len(),
            forall|j: int| 0 <= j < i ==> entries_view(c@)[j].0 != k@,
        decreases c@.len() - i,
    {
        if c[i].0 == *k {
            return Some(i);
        }
        i = i + 1;
    }
    None
}

/// Whether no two entries share a key.
pub(crate) fn keys_unique(c: &Vec<(Address, SerializedComponent)>) -> (r: bool)
    ensures
        r == unique_keys(entries_view(c@)),
{
    let ghost s = entries_view(c@);
    let mut i: usize = 0;
    while i < c.len()
        invariant
            0 <= i <= c@.len(),
            s == entries_view(c@),
            unique_keys(s.take(i as int)),
        decreases c@.len() - i,
    {
        if key_among(c, i, &c[i].0) {
            let ghost j = choose|j: int| 0 <= j < i && s.take(i as int)[j].0 == c@[i as int].0@;
            assert(s[j].0 == s[i as int].0);
            return false;
        }
        assert(unique_keys(s.take(i + 1))) by {
            let t = s.take(i + 1);
            let u = s.take(i as int);
            assert forall|a: int, b: int| 0 <= a < b < t.len() implies #[trigger] t[a].0
                != #[trigger] t[b].0 by {
                if b < i {
                    assert(u[a] == t[a] && u[b] == t[b]);
                }
            }
        }
        i = i + 1;
    }
    assert(s.take(i as int) =~= s);
    true
}

/// Whether every payload fits its declared maximum size.
pub(crate) fn payloads_within(c: &Vec<(Address, SerializedComponent)>) -> (r: bool)
    ensures
        r == payloads_fit(entries_view(c@)),
{
    let mut i: usize = 0;
    while i < c.len()
        invariant
            0 <= i <= c@.len(),
            forall|j: int| 0 <= j < i ==> entries_view(c@)[j].1.data.len() <= entries_view(c@)[j].1.max_size,
        decreases c@.len() - i,
    {
        if c[i].1.data.len() as u64 > c[i].1.max_size {
            assert(entries_view(c@)[i as int].1.data.len() > entries_view(c@)[i as int].1.max_size);
            return false;
        }
        i = i + 1;
    }
    true
}

impl EntityStore {
    pub closed spec fn wf(&self) -> bool {
        store_wf(self@)
    }

    /// An empty store.
    pub fn new() -> (r: EntityStore)
        ensures
            r.wf(),
            r@.worlds.len() == 0,
            r@.entities.len() == 0,
    {
        EntityStore { worlds: Vec::new(), entities: Vec::new() }
    }

    fn find_world(&self, world: &Address, instance: u64) -> (r: Option<usize>)
        requires
            self.wf(),
        ensures
            match r {
                Some(i) => has_world(self@, world@, instance) && i == world_idx(
                    self@,
                    world@,
                    instance,
                ) && i < self@.worlds.len(),
                None => !has_world(self@, world@, instance),
            },
    {
        let mut i: usize = 0;
        while i < self.worlds.len()
            invariant
                0 <= i <= self.worlds@.len(),
                self.wf(),
                forall|j: int| 0 <= j < i ==> !is_world(#[trigger] self@.worlds[j], world@, instance),
            decreases self.worlds@.len() - i,
        {
            if self.worlds[i].instance == instance && self.worlds[i].world == *world {
                proof {
                    lemma_world_idx(self@, world@, instance, i as int);
                }
                return Some(i);
            }
            i = i + 1;
        }
        None
    }

    fn find_entity(&self, world: &Address, instance: u64, id: u64) -> (r: Option<usize>)
        requires
            self.wf(),
        ensures
            match r {
                Some(i) => has_entity(self@, world@, instance, id) && i == entity_idx(
                    self@,
                    world@,
                    instance,
                    id,
                ) && i < self@.entities.len(),
                None => !has_entity(self@, world@, instance, id),
            },
    {
        let mut i: usize = 0;
        while i < self.entities.len()
            invariant
                0 <= i <= self.entities@.len(),
                self.wf(),
                forall|j: int|
                    0 <= j < i ==> !is_entity(#[trigger] self@.entities[j], world@, instance, id),
            decreases self.entities@.len() - i,
        {
            let e = &self.entities[i];
            if e.entity_id == id && e.instance == instance && e.world == *world {
                proof {
                    lemma_entity_idx(self@, world@, instance, id, i as int);
                }
                return Some(i);
            }
            i = i + 1;
        }
        None
    }

    /// Registers instance `instance` of world program `world`. Only the
    /// world's relay identity may do so.
    pub fn register_world(&mut self, signer: &Address, world: &Address, instance: u64) -> (r: Result<
        (),
        EcsError,
    >)
        requires
            old(self).wf(),
        ensures
            final(self).wf(),
            match r {
                Ok(()) => register_world_error(old(self)@, signer@, world@, instance) is None
                    && final(self)@ == (StoreView {
                    worlds: old(self)@.worlds.push(
                        WorldView {
                            world: world@,
                            instance,
                            entities: 0,
                            world_signer: signer@,
                        },
                    ),
                    ..old(self)@
                }),
                Err(e) => register_world_error(old(self)@, signer@, world@, instance) == Some(e)
                    && final(self)@ == old(self)@,
            },
    {
        match world_signer_address(world) {
            Some(a) => {
                if a != *signer {
                    return Err(EcsError::Unauthorized);
                }
            },
            None => {
                return Err(EcsError::Unauthorized);
            },
        }
        if self.find_world(world, instance).is_some() {
            return Err(EcsError::InstanceExists);
        }
        let ghost s0 = self@;
        self.worlds.push(
            WorldInstance { world: *world, instance, entities: 0, world_signer: *signer },
        );
        assert(self@.worlds =~= s0.worlds.push(
            WorldView { world: world@, instance, entities: 0, world_signer: signer@ },
        ));
        assert(self@.entities =~= s0.entities);
        Ok(())
    }

    /// Mints entity `entity_id` in instance `instance` of world `world` with
    /// the given components, and counts it in the instance. Returns the bytes
    /// allocated to it, which the payer is charged.
    pub fn mint_entity(
        &mut self,
        signer: &Address,
        world: &Address,
        instance: u64,
        entity_id: u64,
        components: Vec<(Address, SerializedComponent)>,
    ) -> (r: Result<u64, EcsError>)
        requires
            old(self).wf(),
        ensures
            final(self).wf(),
            match r {
                Ok(size) => mint_error(
                    old(self)@,
                    signer@,
                    world@,
                    instance,
                    entity_id,
                    entries_view(components@),
                ) is None && size == entity_size(entries_view(components@)) && final(self)@
                    == minted(
                    old(self)@,
                    signer@,
                    world@,
                    instance,
                    entity_id,
                    entries_view(components@),
                ),
                Err(e) => mint_error(
                    old(self)@,
                    signer@,
                    world@,
                    instance,
                    entity_id,
                    entries_view(components@),
                ) == Some(e) && final(self)@ == old(self)@,
            },
    {
        let ghost c = entries_view(components@);
        let wi = match self.find_world(world, instance) {
            None => {
                return Err(EcsError::InstanceNotFound);
            },
            Some(i) => i,
        };
        if self.worlds[wi].world_signer != *signer {
            return Err(EcsError::Unauthorized);
        }
        if self.find_entity(world, instance, entity_id).is_some() {
            return Err(EcsError::AddressCollision);
        }
        if !keys_unique(&components) {
            return Err(EcsError::DuplicateComponent);
        }
        if !payloads_within(&components) {
            return Err(EcsError::DataTooLarge);
        }
        let total = match compute_comp_arr_max_size(&components) {
            None => {
                proof {
                    lemma_total_nonneg(c);
                }
                return Err(EcsError::Overflow);
            },
            Some(t) => t,
        };
        if total > u64::MAX - ENTITY_HEADER_SIZE || self.worlds[wi].entities == u64::MAX {
            return Err(EcsError::Overflow);
        }
        let space = ENTITY_HEADER_SIZE + total;
        let ghost s0 = self@;
        let mut w = self.worlds[wi];
        w.entities = w.entities + 1;
        self.worlds.set(wi, w);
        self.entities.push(
            Entity {
                entity_id,
                instance,
                world: *world,
                world_signer: *signer,
                components,
                space,
            },
        );
        let ghost s1 = minted(s0, signer@, world@, instance, entity_id, c);
        assert(self@.worlds =~= s1.worlds);
        assert(self@.entities =~= s1.entities);
        proof {
            assert forall|i: int, j: int|
                0 <= i < j < s1.worlds.len() implies !is_world(
                s1.worlds[j],
                s1.worlds[i].world,
                s1.worlds[i].instance,
            ) by {
                assert(!is_world(s0.worlds[j], s0.worlds[i].world, s0.worlds[i].instance));
            }
            assert forall|i: int, j: int|
                0 <= i < j < s1.entities.len() implies !is_entity(
                s1.entities[j],
                s1.entities[i].world,
                s1.entities[i].instance,
                s1.entities[i].entity_id,
            ) by {
                if j < s0.entities.len() {
                    assert(!is_entity(
                        s0.entities[j],
                        s0.entities[i].world,
                        s0.entities[i].instance,
                        s0.entities[i].entity_id,
                    ));
                } else {
                    assert(!is_entity(s0.entities[i], world@, instance, entity_id));
                }
            }
            assert forall|i: int| 0 <= i < s1.entities.len() implies #[trigger] entity_wf(
                s1.entities[i],
            ) by {
                if i < s0.entities.len() {
                    assert(entity_wf(s0.entities[i]));
                }
            }
        }
        Ok(space)
    }

    fn check_access(&self, signer: &Address, world: &Address, instance: u64, id: u64) -> (r:
        Result<usize, EcsError>)
        requires
            self.wf(),
        ensures
            match r {
                Ok(i) => access_error(self@, signer@, world@, instance, id) is None && has_entity(
                    self@,
                    world@,
                    instance,
                    id,
                ) && i == entity_idx(self@, world@, instance, id) && i < self@.entities.len(),
                Err(e) => access_error(self@, signer@, world@, instance, id) == Some(e),
            },
    {
        match self.find_entity(world, instance, id) {
            None => Err(EcsError::EntityNotFound),
            Some(i) => {
                if self.entities[i].world_signer != *signer {
                    Err(EcsError::Unauthorized)
                } else {
                    Ok(i)
                }
            },
        }
    }

    /// Adds components to an entity. Returns the bytes its record grows by,
    /// which the payer is charged.
    pub fn add_components(
        &mut self,
        signer: &Address,
        world: &Address,
        instance: u64,
        entity_id: u64,
        components: Vec<(Address, SerializedComponent)>,
    ) -> (r: Result<u64, EcsError>)
        requires
            old(self).wf(),
        ensures
            final(self).wf(),
            match r {
                Ok(growth) => add_error(
                    old(self)@,
                    signer@,
                    world@,
                    instance,
                    entity_id,
                    entries_view(components@),
                ) is None && growth == total_footprint(entries_view(components@)) && final(self)@
                    == with_entity(
                    old(self)@,
                    entity_idx(old(self)@, world@, instance, entity_id),
                    with_added(
                        entity_of(old(self)@, world@, instance, entity_id),
                        entries_view(components@),
                    ),
                ),
                Err(e) => add_error(
                    old(self)@,
                    signer@,
                    world@,
                    instance,
                    entity_id,
                    entries_view(components@),
                ) == Some(e) && final(self)@ == old(self)@,
            },
    {
        let ghost c = entries_view(components@);
        let idx = match self.check_access(signer, world, instance, entity_id) {
            Err(e) => {
                return Err(e);
            },
            Ok(i) => i,
        };
        let ghost old_e = self@.entities[idx as int];
        assert(old_e == self.entities@[idx as int]@);
        if !keys_unique(&components) {
            return Err(EcsError::DuplicateComponent);
        }
        let ghost s_in = self@;
        let mut i: usize = 0;
        while i < components.len()
            invariant
                0 <= i <= components@.len(),
                self.wf(),
                self@ == s_in,
                has_entity(s_in, world@, instance, entity_id),
                idx == entity_idx(s_in, world@, instance, entity_id),
                access_error(s_in, signer@, world@, instance, entity_id) is None,
                idx < self.entities@.len(),
                c == entries_view(components@),
                old_e == self.entities@[idx as int]@,
                forall|j: int| 0 <= j < i ==> !#[trigger] has_key(old_e.components, c[j].0),
            decreases components@.len() - i,
        {
            if find_key(&self.entities[idx].components, &components[i].0).is_some() {
                assert(has_key(old_e.components, c[i as int].0));
                return Err(EcsError::DuplicateComponent);
            }
            i = i + 1;
        }
        if !payloads_within(&components) {
            return Err(EcsError::DataTooLarge);
        }
        let total = match compute_comp_arr_max_size(&components) {
            None => {
                proof {
                    lemma_total_nonneg(c);
                }
                return Err(EcsError::Overflow);
            },
            Some(t) => t,
        };
        if total > u64::MAX - self.entities[idx].space {
            return Err(EcsError::Overflow);
        }
        let ghost s0 = self@;
        let ghost v0 = self.entities@;
        let mut e = self.entities.remove(idx);
        let mut new_components = components;
        e.components.append(&mut new_components);
        e.space = e.space + total;
        self.entities.insert(idx, e);
        proof {
            let ne = with_added(old_e, c);
            assert(entries_view(self.entities@[idx as int].components@) =~= old_e.components + c);
            assert(self.entities@[idx as int]@ == ne);
            assert(self.entities@ =~= v0.update(idx as int, self.entities@[idx as int]));
            assert(self@.entities =~= s0.entities.update(idx as int, ne));
            lemma_total_append(old_e.components, c);
            assert(entity_wf(old_e));
            let all = old_e.components + c;
            assert forall|a: int, b: int| 0 <= a < b < all.len() implies #[trigger] all[a].0
                != #[trigger] all[b].0 by {
                if b >= old_e.components.len() && a < old_e.components.len() {
                    assert(!has_key(old_e.components, c[b - old_e.components.len()].0));
                    assert(all[b] == c[b - old_e.components.len()]);
                }
                if a >= old_e.components.len() {
                    assert(all[a] == c[a - old_e.components.len()]);
                    assert(all[b] == c[b - old_e.components.len()]);
                }
            }
            assert(payloads_fit(all));
            lemma_replace_entity(s0, idx as int, ne);
        }
        Ok(total)
    }

    /// Removes the components with keys among `keys` from an entity. Returns
    /// the bytes its record shrinks by, which are refunded to the beneficiary.
    pub fn remove_component(
        &mut self,
        signer: &Address,
        world: &Address,
        instance: u64,
        entity_id: u64,
        keys: &Vec<Address>,
    ) -> (r: Result<u64, EcsError>)
        requires
            old(self).wf(),
        ensures
            final(self).wf(),
            match r {
                Ok(refund) => remove_error(
                    old(self)@,
                    signer@,
                    world@,
                    instance,
                    entity_id,
                    keys_view(keys@),
                ) is None && refund == total_footprint(
                    removed_part(
                        entity_of(old(self)@, world@, instance, entity_id).components,
                        keys_view(keys@),
                    ),
                ) && final(self)@ == with_entity(
                    old(self)@,
                    entity_idx(old(self)@, world@, instance, entity_id),
                    with_removed(
                        entity_of(old(self)@, world@, instance, entity_id),
                        keys_view(keys@),
                    ),
                ),
                Err(e) => remove_error(
                    old(self)@,
                    signer@,
                    world@,
                    instance,
                    entity_id,
                    keys_view(keys@),
                ) == Some(e) && final(self)@ == old(self)@,
            },
    {
        let ghost kv = keys_view(keys@);
        let idx = match self.check_access(signer, world, instance, entity_id) {
            Err(e) => {
                return Err(e);
            },
            Ok(i) => i,
        };
        let ghost old_e = self@.entities[idx as int];
        assert(old_e == self.entities@[idx as int]@);
        let ghost s_in = self@;
        let mut i: usize = 0;
        while i < keys.len()
            invariant
                0 <= i <= keys@.len(),
                self.wf(),
                self@ == s_in,
                has_entity(s_in, world@, instance, entity_id),
                idx == entity_idx(s_in, world@, instance, entity_id),
                access_error(s_in, signer@, world@, instance, entity_id) is None,
                idx < self.entities@.len(),
                kv == keys_view(keys@),
                old_e == self.entities@[idx as int]@,
                forall|j: int| 0 <= j < i ==> #[trigger] has_key(old_e.components, kv[j]),
            decreases keys@.len() - i,
        {
            if find_key(&self.entities[idx].components, &keys[i]).is_none() {
                assert(!has_key(old_e.components, kv[i as int]));
                return Err(EcsError::ComponentNotFound);
            }
            i = i + 1;
        }
        let refund = match get_removed_size(&self.entities[idx].components, keys) {
            Some(t) => t,
            None => {
                proof {
                    assert(entity_wf(old_e));
                    lemma_total_split(old_e.components, kv);
                    lemma_total_nonneg(removed_part(old_e.components, kv));
                    lemma_total_nonneg(kept_part(old_e.components, kv));
                }
                return Err(EcsError::Overflow);
            },
        };
        let ghost s0 = self@;
        let ghost v0 = self.entities@;
        let mut e = self.entities.remove(idx);
        let mut rest = e.components;
        let ghost all = entries_view(rest@);
        let n: usize = rest.len();
        let mut kept: Vec<(Address, SerializedComponent)> = Vec::new();
        let mut j: usize = 0;
        while rest.len() > 0
            invariant
                0 <= j <= n,
                n == all.len(),
                rest@.len() + j == n,
                all == old_e.components,
                kv == keys_view(keys@),
                entries_view(rest@) == all.skip(j as int),
                entries_view(kept@) == kept_part(all.take(j as int), kv),
            decreases rest@.len(),
        {
            let ghost r0 = rest@;
            let x = rest.remove(0);
            proof {
                assert(entries_view(r0).len() == r0.len());
                assert(all.skip(j as int).len() == n - j);
                assert(x == r0[0]);
                assert(entries_view(r0)[0] == entry_view(r0[0]));
                assert(all.skip(j as int)[0] == all[j as int]);
                assert(entry_view(x) == all[j as int]);
                assert(rest@ =~= r0.subrange(1, r0.len() as int));
                assert(all.take(j + 1).drop_last() =~= all.take(j as int));
                assert forall|k: int| 0 <= k < rest@.len() implies entries_view(rest@)[k] == all.skip(
                    j + 1,
                )[k] by {
                    assert(rest@[k] == r0[k + 1]);
                    assert(entries_view(r0)[k + 1] == all.skip(j as int)[k + 1]);
                }
                assert(entries_view(rest@) =~= all.skip(j + 1));
            }
            if !contains_key(keys, &x.0) {
                kept.push(x);
                assert(entries_view(kept@) =~= kept_part(all.take(j + 1), kv));
            }
            j = j + 1;
        }
        proof {
            assert(all.skip(j as int).len() == 0);
            assert(all.take(j as int) =~= all);
            assert(entity_wf(old_e));
            lemma_total_split(old_e.components, kv);
            lemma_total_nonneg(kept_part(old_e.components, kv));
        }
        e.components = kept;
        e.space = e.space - refund;
        self.entities.insert(idx, e);
        proof {
            let ne = with_removed(old_e, kv);
            assert(self.entities@[idx as int]@ == ne);
            assert(self.entities@ =~= v0.update(idx as int, self.entities@[idx as int]));
            assert(self@.entities =~= s0.entities.update(idx as int, ne));
            lemma_kept_unique(old_e.components, kv);
            lemma_replace_entity(s0, idx as int, ne);
        }
        Ok(refund)
    }

    /// Deletes an entity that holds no component. Returns the bytes of its
    /// record, which are refunded to the beneficiary.
    pub fn remove_entity(&mut self, signer: &Address, world: &Address, instance: u64, entity_id: u64) -> (r:
        Result<u64, EcsError>)
        requires
            old(self).wf(),
        ensures
            final(self).wf(),
            match r {
                Ok(refund) => remove_entity_error(old(self)@, signer@, world@, instance, entity_id)
                    is None && refund == entity_of(old(self)@, world@, instance, entity_id).space
                    && final(self)@ == (StoreView {
                    entities: old(self)@.entities.remove(
                        entity_idx(old(self)@, world@, instance, entity_id),
                    ),
                    ..old(self)@
                }),
                Err(e) => remove_entity_error(old(self)@, signer@, world@, instance, entity_id)
                    == Some(e) && final(self)@ == old(self)@,
            },
    {
        let idx = match self.check_access(signer, world, instance, entity_id) {
            Err(e) => {
                return Err(e);
            },
            Ok(i) => i,
        };
        if self.entities[idx].components.len() != 0 {
            return Err(EcsError::NonEmptyEntity);
        }
        let ghost s0 = self@;
        let e = self.entities.remove(idx);
        proof {
            let t = s0.entities.remove(idx as int);
            assert(self@.entities =~= t);
            assert forall|a: int, b: int|
                0 <= a < b < t.len() implies !is_entity(
                t[b],
                t[a].world,
                t[a].instance,
                t[a].entity_id,
            ) by {
                let a0 = if a < idx { a } else { a + 1 };
                let b0 = if b < idx { b } else { b + 1 };
                assert(t[a] == s0.entities[a0] && t[b] == s0.entities[b0]);
                assert(!is_entity(
                    s0.entities[b0],
                    s0.entities[a0].world,
                    s0.entities[a0].instance,
                    s0.entities[a0].entity_id,
                ));
            }
            assert forall|a: int| 0 <= a < t.len() implies #[trigger] entity_wf(t[a]) by {
                let a0 = if a < idx { a } else { a + 1 };
                assert(t[a] == s0.entities[a0]);
                assert(entity_wf(s0.entities[a0]));
            }
        }
        Ok(e.space)
    }

    /// Overwrites, for each `i` in order, the payload of component `keys[i]`
    /// with `data[i]`. The storage size of the entity does not change.
    pub fn modify_components(
        &mut self,
        signer: &Address,
        world: &Address,
        instance: u64,
        entity_id: u64,
        keys: &Vec<Address>,
        data: &Vec<Vec<u8>>,
    ) -> (r: Result<(), EcsError>)
        requires
            old(self).wf(),
        ensures
            final(self).wf(),
            match r {
                Ok(()) => modify_error(
                    old(self)@,
                    signer@,
                    world@,
                    instance,
                    entity_id,
                    keys_view(keys@),
                    data_view(data@),
                ) is None && final(self)@ == with_entity(
                    old(self)@,
                    entity_idx(old(self)@, world@, instance, entity_id),
                    with_modified(
                        entity_of(old(self)@, world@, instance, entity_id),
                        keys_view(keys@),
                        data_view(data@),
                    ),
                ),
                Err(e) => modify_error(
                    old(self)@,
                    signer@,
                    world@,
                    instance,
                    entity_id,
                    keys_view(keys@),
                    data_view(data@),
                ) == Some(e) && final(self)@ == old(self)@,
            },
    {
        let ghost kv = keys_view(keys@);
        let ghost dv = data_view(data@);
        let idx = match self.check_access(signer, world, instance, entity_id) {
            Err(e) => {
                return Err(e);
            },
            Ok(i) => i,
        };
        if keys.len() != data.len() {
            return Err(EcsError::LengthMismatch);
        }
        let ghost s_in = self@;
        let ghost c0 = self@.entities[idx as int].components;
        assert(c0 == entries_view(self.entities@[idx as int].components@));
        assert(entity_wf(self@.entities[idx as int]));
        let mut i: usize = 0;
        while i < keys.len()
            invariant
                0 <= i <= keys@.len(),
                keys@.len() == data@.len(),
                self.wf(),
                self@ == s_in,
                idx < self.entities@.len(),
                has_entity(s_in, world@, instance, entity_id),
                idx == entity_idx(s_in, world@, instance, entity_id),
                access_error(s_in, signer@, world@, instance, entity_id) is None,
                kv == keys_view(keys@),
                dv == data_view(data@),
                c0 == entries_view(self.entities@[idx as int].components@),
                unique_keys(c0),
                modification_error(c0, kv.take(i as int), dv.take(i as int)) is None,
            decreases keys@.len() - i,
        {
            assert(kv.take(i + 1).drop_last() =~= kv.take(i as int));
            assert(dv.take(i + 1).drop_last() =~= dv.take(i as int));
            assert(kv.take(i + 1).last() == kv[i as int]);
            assert(dv.take(i + 1).last() == dv[i as int]);
            match find_key(&self.entities[idx].components, &keys[i]) {
                None => {
                    proof {
                        lemma_modification_error_prefix(c0, kv, dv, i + 1);
                    }
                    return Err(EcsError::ComponentNotFound);
                },
                Some(p) => {
                    proof {
                        lemma_key_pos(c0, kv[i as int], p as int);
                    }
                    if data[i].len() as u64 > self.entities[idx].components[p].1.max_size {
                        proof {
                            lemma_modification_error_prefix(c0, kv, dv, i + 1);
                        }
                        return Err(EcsError::DataTooLarge);
                    }
                },
            }
            i = i + 1;
        }
        assert(kv.take(i as int) =~= kv);
        assert(dv.take(i as int) =~= dv);
        let ghost s0 = self@;
        let ghost v0 = self.entities@;
        let ghost old_e = self@.entities[idx as int];
        let mut e = self.entities.remove(idx);
        let mut i: usize = 0;
        while i < keys.len()
            invariant
                0 <= i <= keys@.len(),
                keys@.len() == data@.len(),
                kv == keys_view(keys@),
                dv == data_view(data@),
                unique_keys(c0),
                modification_error(c0, kv, dv) is None,
                entries_view(e.components@) == apply_modifications(
                    c0,
                    kv.take(i as int),
                    dv.take(i as int),
                ),
                same_shape(c0, entries_view(e.components@)),
                payloads_fit(entries_view(e.components@)),
                e.entity_id == old_e.entity_id,
                e.instance == old_e.instance,
                e.world@ == old_e.world,
                e.world_signer@ == old_e.world_signer,
                e.space == old_e.space,
            decreases keys@.len() - i,
        {
            let ghost cur = entries_view(e.components@);
            proof {
                lemma_modification_ok(c0, kv, dv, i as int);
                let q = key_pos(c0, kv[i as int]);
                assert(cur[q].0 == kv[i as int]);
                assert(unique_keys(cur)) by {
                    assert forall|a: int, b: int| 0 <= a < b < cur.len() implies #[trigger] cur[a].0
                        != #[trigger] cur[b].0 by {
                        assert(c0[a].0 != c0[b].0);
                    }
                }
                lemma_key_pos(cur, kv[i as int], q);
            }
            let p = find_key(&e.components, &keys[i]).unwrap();
            proof {
                lemma_key_pos(cur, kv[i as int], p as int);
            }
            let ghost before = e.components@;
            let (k, mut comp) = e.components.remove(p);
            comp.data = data[i].clone();
            assert(comp.data@ =~= dv[i as int]);
            e.components.insert(p, (k, comp));
            proof {
                let next = set_data(cur, kv[i as int], dv[i as int]);
                assert(kv.take(i + 1).drop_last() =~= kv.take(i as int));
                assert(dv.take(i + 1).drop_last() =~= dv.take(i as int));
                assert(kv.take(i + 1).last() == kv[i as int]);
                assert(dv.take(i + 1).last() == dv[i as int]);
                assert(e.components@ =~= before.update(p as int, (k, comp)));
                assert forall|j: int| 0 <= j < cur.len() implies entries_view(e.components@)[j]
                    == next[j] by {
                    if j != p {
                        assert(cur[j].0 != cur[p as int].0);
                    }
                }
                assert(entries_view(e.components@) =~= next);
            }
            i = i + 1;
        }
        self.entities.insert(idx, e);
        proof {
            let ne = with_modified(old_e, kv, dv);
            lemma_modify_keeps_size(c0, kv, dv);
            assert(self.entities@[idx as int]@ == ne);
            assert(self.entities@ =~= v0.update(idx as int, self.entities@[idx as int]));
            assert(self@.entities =~= s0.entities.update(idx as int, ne));
            assert(unique_keys(ne.components)) by {
                assert forall|a: int, b: int| 0 <= a < b < ne.components.len() implies #[trigger] ne.components[a].0
                    != #[trigger] ne.components[b].0 by {
                    assert(c0[a].0 != c0[b].0);
                }
            }
            lemma_replace_entity(s0, idx as int, ne);
        }
        Ok(())
    }

    /// The entity with this address, if it exists.
    pub fn get_entity(&self, world: &Address, instance: u64, entity_id: u64) -> (r: Option<&Entity>)
        requires
            self.wf(),
        ensures
            match r {
                Some(e) => has_entity(self@, world@, instance, entity_id) && e@ == entity_of(
                    self@,
                    world@,
                    instance,
                    entity_id,
                ),
                None => !has_entity(self@, world@, instance, entity_id),
            },
    {
        match self.find_entity(world, instance, entity_id) {
            Some(i) => Some(&self.entities[i]),
            None => None,
        }
    }

    /// The world instance with this world and number, if it is registered.
    pub fn get_world_instance(&self, world: &Address, instance: u64) -> (r: Option<&WorldInstance>)
        requires
            self.wf(),
        ensures
            match r {
                Some(w) => has_world(self@, world@, instance) && w@ == self@.worlds[world_idx(
                    self@,
                    world@,
                    instance,
                )],
                None => !has_world(self@, world@, instance),
            },
    {
        match self.find_world(world, instance) {
            Some(i) => Some(&self.worlds[i]),
            None => None,
        }
    }

    /// The component `key` of an entity, if both exist.
    pub fn get_component(&self, world: &Address, instance: u64, entity_id: u64, key: &Address) -> (r:
        Option<&SerializedComponent>)
        requires
            self.wf(),
        ensures
            match r {
                Some(c) => has_entity(self@, world@, instance, entity_id) && has_key(
                    entity_of(self@, world@, instance, entity_id).components,
                    key@,
                ) && c@ == entity_of(self@, world@, instance, entity_id).components[key_pos(
                    entity_of(self@, world@, instance, entity_id).components,
                    key@,
                )].1,
                None => !has_entity(self@, world@, instance, entity_id) || !has_key(
                    entity_of(self@, world@, instance, entity_id).components,
                    key@,
                ),
            },
    {
        let i = match self.find_entity(world, instance, entity_id) {
            Some(i) => i,
            None => {
                return None;
            },
        };
        let e = &self.entities[i];
        assert(entity_wf(self@.entities[i as int]));
        match find_key(&e.components, key) {
            Some(p) => {
                proof {
                    lemma_key_pos(e@.components, key@, p as int);
                }
                Some(&e.components[p].1)
            },
            None => None,
        }
    }
}

/// Every entity of a well-formed store takes exactly the fixed header plus,
/// for each of its components, the declared maximum size and the
/// per-component overhead.
pub proof fn lemma_entity_size(store: &EntityStore, i: int)
    requires
        store.wf(),
        0 <= i < store@.entities.len(),
    ensures
        store@.entities[i].space == ENTITY_HEADER_SIZE + total_footprint(
            store@.entities[i].components,
        ),
        entity_wf(store@.entities[i]),
{
    assert(entity_wf(store@.entities[i]));
}

/// Removing a set of components from an entity and then adding back
/// components with the same keys and declared sizes, whatever their payloads,
/// gives the entity back its original storage size. No removed key stays on
/// the entity, so adding them back is not refused as a duplicate.
pub proof fn lemma_remove_readd_size(e: EntityView, keys: Seq<Seq<u8>>, readded: Seq<EntryView>)
    requires
        entity_wf(e),
        same_shape(removed_part(e.components, keys), readded),
    ensures
        with_added(with_removed(e, keys), readded).space == e.space,
        forall|k: Seq<u8>| #[trigger]
            keys.contains(k) ==> !has_key(with_removed(e, keys).components, k),
{
    lemma_total_split(e.components, keys);
    lemma_total_nonneg(kept_part(e.components, keys));
    lemma_total_nonneg(removed_part(e.components, keys));
    lemma_shape_total(removed_part(e.components, keys), readded);
    let r = with_removed(e, keys);
    let t = total_footprint(removed_part(e.components, keys));
    assert(r.space == e.space - t);
    assert forall|k: Seq<u8>| #[trigger] keys.contains(k) implies !has_key(r.components, k) by {
        lemma_kept_has_key(e.components, keys, k);
    }
}

} // verus!
