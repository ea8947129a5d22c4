use vstd::prelude::*;
use crate::address::{
    Address, program_address_of, schema_seeds, world_signer_seeds, world_signer_address,
    get_world_component,
};
use crate::component::{
    SerializedComponent, EntryView, entries_view, keys_view, total_footprint, removed_part,
};
use crate::error::EcsError;
use crate::store::{
    EntityStore, StoreView, mint_error, minted, entity_size, add_error, with_added, remove_error,
    with_removed, modify_error, with_modified, remove_entity_error, with_entity, entity_idx,
    entity_of, data_view,
};

verus! {

/// Bytes of an empty system registration: the account discriminator (8), the
/// system (32), the instance (8) and the length prefix of its keys (4).
pub const SYSTEM_REGISTRATION_BASE_SIZE: u64 = 52;

/// Bytes that each granted key adds to a system registration: the key (32)
/// and its flag (1).
pub const GRANTED_KEY_SIZE: u64 = 33;

/// The configuration of a world program.
#[derive(Clone, Copy, Debug)]
pub struct WorldConfig {
    /// The entity store program that the world relays to.
    pub universe: Address,
    /// How many component schemas the world has registered.
    pub components: u64,
}

/// Who may onboard systems onto an instance.
#[derive(Clone, Copy, Debug)]
pub struct InstanceAuthority {
    pub instance: u64,
    pub authority: Address,
}

/// A registered component schema: its url and the key derived from it.
#[derive(Debug)]
pub struct ComponentSchema {
    pub url: String,
    pub key: Address,
}

/// The capability record of a system in one instance: the component keys it
/// may touch. It only grows.
#[derive(Debug)]
pub struct SystemRegistration {
    pub system: Address,
    pub instance: u64,
    pub components: Vec<Address>,
    /// The bytes allocated to the record.
    pub space: u64,
}

pub ghost struct RegistrationView {
    pub system: Seq<u8>,
    pub instance: u64,
    pub components: Seq<Seq<u8>>,
    pub space: u64,
}

impl View for SystemRegistration {
    type V = RegistrationView;

    open spec fn view(&self) -> RegistrationView {
        RegistrationView {
            system: self.system@,
            instance: self.instance,
            components: keys_view(self.components@),
            space: self.space,
        }
    }
}

/// A world program: the schema registry, the capability registry, and the
/// relay through which every system's change to an entity goes.
pub struct World {
    program: Address,
    signer: Address,
    config: WorldConfig,
    schemas: Vec<ComponentSchema>,
    authorities: Vec<InstanceAuthority>,
    registrations: Vec<SystemRegistration>,
}

pub ghost struct WorldState {
    /// The world program's id.
    pub program: Seq<u8>,
    /// The relay identity, derived from the program id.
    pub signer: Seq<u8>,
    pub universe: Seq<u8>,
    pub component_count: u64,
    /// Registered schemas: url and key.
    pub schemas: Seq<(Seq<char>, Seq<u8>)>,
    /// Registered instances: number and onboarding authority.
    pub authorities: Seq<(u64, Seq<u8>)>,
    pub registrations: Seq<RegistrationView>,
}

impl View for World {
    type V = WorldState;

    closed spec fn view(&self) -> WorldState {
        WorldState {
            program: self.program@,
            signer: self.signer@,
            universe: self.config.universe@,
            component_count: self.config.components,
            schemas: self.schemas@.map_values(|c: ComponentSchema| (c.url@, c.key@)),
            authorities: self.authorities@.map_values(
                |a: InstanceAuthority| (a.instance, a.authority@),
            ),
            registrations: self.registrations@.map_values(|r: SystemRegistration| r@),
        }
    }
}

/// Whether every requested key is among the granted ones.
pub open spec fn can_mutate(requested: Seq<Seq<u8>>, granted: Seq<Seq<u8>>) -> bool {
    forall|i: int| 0 <= i < requested.len() ==> granted.contains(#[trigger] requested[i])
}

pub open spec fn has_schema_key(w: WorldState, key: Seq<u8>) -> bool {
    exists|i: int| 0 <= i < w.schemas.len() && w.schemas[i].1 == key
}

pub open spec fn has_instance(w: WorldState, instance: u64) -> bool {
    exists|i: int| 0 <= i < w.authorities.len() && w.authorities[i].0 == instance
}

pub open spec fn authority_of(w: WorldState, instance: u64) -> Seq<u8> {
    w.authorities[choose|i: int| 0 <= i < w.authorities.len() && w.authorities[i].0 == instance].1
}

pub open spec fn is_registration(r: RegistrationView, system: Seq<u8>, instance: u64) -> bool {
    r.system == system && r.instance == instance
}

pub open spec fn has_registration(w: WorldState, system: Seq<u8>, instance: u64) -> bool {
    exists|i: int|
        0 <= i < w.registrations.len() && is_registration(w.registrations[i], system, instance)
}

pub open spec fn registration_idx(w: WorldState, system: Seq<u8>, instance: u64) -> int {
    choose|i: int|
        0 <= i < w.registrations.len() && is_registration(w.registrations[i], system, instance)
}

/// The keys granted to `system` in `instance`; none without a registration.
pub open spec fn granted_keys(w: WorldState, system: Seq<u8>, instance: u64) -> Seq<Seq<u8>> {
    if has_registration(w, system, instance) {
        w.registrations[registration_idx(w, system, instance)].components
    } else {
        Seq::empty()
    }
}

/// The relay refuses a call of `system` that touches `keys` when the system
/// has no registration in the instance or some key was not granted to it.
pub open spec fn denied(w: WorldState, system: Seq<u8>, instance: u64, keys: Seq<Seq<u8>>) -> bool {
    !has_registration(w, system, instance) || exists|i: int|
        0 <= i < keys.len() && !granted_keys(w, system, instance).contains(#[trigger] keys[i])
}

/// The keys of a list of components.
pub open spec fn entry_keys(c: Seq<EntryView>) -> Seq<Seq<u8>> {
    c.map_values(|e: EntryView| e.0)
}

pub open spec fn world_wf(w: WorldState) -> bool {
    &&& program_address_of(world_signer_seeds(), w.program) == Some(w.signer)
    &&& w.component_count == w.schemas.len()
    &&& forall|i: int, j: int|
        0 <= i < j < w.schemas.len() ==> w.schemas[i].1 != w.schemas[j].1
    &&& forall|i: int, j: int|
        0 <= i < j < w.authorities.len() ==> w.authorities[i].0 != w.authorities[j].0
    &&& forall|i: int, j: int|
        0 <= i < j < w.registrations.len() ==> !is_registration(
            w.registrations[j],
            w.registrations[i].system,
            w.registrations[i].instance,
        )
}

pub open spec fn register_component_error(w: WorldState, url: &str) -> Option<EcsError> {
    match program_address_of(schema_seeds(url), w.program) {
        None => Some(EcsError::InvalidSeeds),
        Some(k) => if has_schema_key(w, k) {
            Some(EcsError::DuplicateSchema)
        } else if w.component_count == u64::MAX {
            Some(EcsError::Overflow)
        } else {
            None
        },
    }
}

pub open spec fn register_system_error(w: WorldState, system: Seq<u8>, instance: u64) -> Option<
    EcsError,
> {
    if !has_instance(w, instance) {
        Some(EcsError::InstanceNotFound)
    } else if has_registration(w, system, instance) {
        Some(EcsError::RegistrationExists)
    } else {
        None
    }
}

pub open spec fn grant_error(
    w: WorldState,
    authority: Seq<u8>,
    system: Seq<u8>,
    instance: u64,
    keys: Seq<Seq<u8>>,
) -> Option<EcsError> {
    if !has_instance(w, instance) {
        Some(EcsError::InstanceNotFound)
    } else if authority_of(w, instance) != authority {
        Some(EcsError::Unauthorized)
    } else if !has_registration(w, system, instance) {
        Some(EcsError::RegistrationNotFound)
    } else if w.registrations[registration_idx(w, system, instance)].space + GRANTED_KEY_SIZE
        * keys.len() > u64::MAX {
        Some(EcsError::Overflow)
    } else {
        None
    }
}

pub open spec fn instance_world_error(
    w: WorldState,
    s: StoreView,
    instance: u64,
) -> Option<EcsError> {
    if has_instance(w, instance) {
        Some(EcsError::InstanceExists)
    } else {
        crate::store::register_world_error(s, w.signer, w.program, instance)
    }
}

proof fn lemma_registration_idx(w: WorldState, system: Seq<u8>, instance: u64, i: int)
    requires
        world_wf(w),
        0 <= i < w.registrations.len(),
        is_registration(w.registrations[i], system, instance),
    ensures
        has_registration(w, system, instance),
        registration_idx(w, system, instance) == i,
{
    let k = registration_idx(w, system, instance);
    if k < i {
        assert(!is_registration(
            w.registrations[i],
            w.registrations[k].system,
            w.registrations[k].instance,
        ));
    } else if k > i {
        assert(!is_registration(
            w.registrations[k],
            w.registrations[i].system,
            w.registrations[i].instance,
        ));
    }
}

proof fn lemma_authority_of(w: WorldState, instance: u64, i: int)
    requires
        world_wf(w),
        0 <= i < w.authorities.len(),
        w.authorities[i].0 == instance,
    ensures
        has_instance(w, instance),
        authority_of(w, instance) == w.authorities[i].1,
{
    let k = choose|k: int| 0 <= k < w.authorities.len() && w.authorities[k].0 == instance;
    if k < i {
        assert(w.authorities[k].0 != w.authorities[i].0);
    } else if k > i {
        assert(w.authorities[i].0 != w.authorities[k].0);
    }
}

/// Whether every key of `components` is among `system_components`: the check
/// that guards every change a system asks for.
pub fn check_sys_registry(components: &Vec<Address>, system_components: &Vec<Address>) -> (r:
    bool)
    ensures
        r == can_mutate(keys_view(components@), keys_view(system_components@)),
{
    let ghost req = keys_view(components@);
    let ghost granted = keys_view(system_components@);
    let mut i: usize = 0;
    while i < components.len()
        invariant
            0 <= i <= components@.len(),
            req == keys_view(components@),
            granted == keys_view(system_components@),
            forall|j: int| 0 <= j < i ==> granted.contains(#[trigger] req[j]),
        decreases components@.len() - i,
    {
        if !crate::component::contains_key(system_components, &components[i]) {
            assert(!granted.contains(req[i as int]));
            return false;
        }
        i = i + 1;
    }
    true
}

impl World {
    pub closed spec fn wf(&self) -> bool {
        world_wf(self@)
    }

    /// Sets up the world program `program`, which relays to the entity
    /// store program `universe`. Its relay identity is derived from
    /// `program`.
    pub fn initalize(program: &Address, universe: &Address) -> (r: Result<World, EcsError>)
        ensures
            match r {
                Ok(w) => w.wf() && program_address_of(world_signer_seeds(), program@) == Some(
                    w@.signer,
                ) && w@ == (WorldState {
                    program: program@,
                    signer: w@.signer,
                    universe: universe@,
                    component_count: 0,
                    schemas: Seq::empty(),
                    authorities: Seq::empty(),
                    registrations: Seq::empty(),
                }),
                Err(e) => e == EcsError::InvalidSeeds && program_address_of(
                    world_signer_seeds(),
                    program@,
                ) is None,
            },
    {
        let signer = match world_signer_address(program) {
            Some(a) => a,
            None => {
                return Err(EcsError::InvalidSeeds);
            },
        };
        let w = World {
            program: *program,
            signer,
            config: WorldConfig { universe: *universe, components: 0 },
            schemas: Vec::new(),
            authorities: Vec::new(),
            registrations: Vec::new(),
        };
        assert(w@.schemas =~= Seq::empty());
        assert(w@.authorities =~= Seq::empty());
        assert(w@.registrations =~= Seq::empty());
        Ok(w)
    }

    /// The world program's id.
    pub fn id(&self) -> (r: Address)
        ensures
            r@ == self@.program,
    {
        self.program
    }

    /// The relay identity: the signer under which the world changes entities.
    pub fn get_system_signer(&self) -> (r: Address)
        ensures
            r@ == self@.signer,
    {
        self.signer
    }

    /// How many component schemas are registered.
    pub fn get_world_config(&self) -> (r: WorldConfig)
        ensures
            r.universe@ == self@.universe,
            r.components == self@.component_count,
    {
        self.config
    }

    fn find_instance(&self, instance: u64) -> (r: Option<usize>)
        requires
            self.wf(),
        ensures
            match r {
                Some(i) => i < self@.authorities.len() && self@.authorities[i as int].0 == instance
                    && has_instance(self@, instance) && authority_of(self@, instance)
                    == self@.authorities[i as int].1,
                None => !has_instance(self@, instance),
            },
    {
        let mut i: usize = 0;
        while i < self.authorities.len()
            invariant
                0 <= i <= self.authorities@.len(),
                self.wf(),
                forall|j: int| 0 <= j < i ==> #[trigger] self@.authorities[j].0 != instance,
            decreases self.authorities@.len() - i,
        {
            if self.authorities[i].instance == instance {
                proof {
                    lemma_authority_of(self@, instance, i as int);
                }
                return Some(i);
            }
            i = i + 1;
        }
        None
    }

    fn find_registration(&self, system: &Address, instance: u64) -> (r: Option<usize>)
        requires
            self.wf(),
        ensures
            match r {
                Some(i) => has_registration(self@, system@, instance) && i == registration_idx(
                    self@,
                    system@,
                    instance,
                ) && i < self@.registrations.len(),
                None => !has_registration(self@, system@, instance),
            },
    {
        let mut i: usize = 0;
        while i < self.registrations.len()
            invariant
                0 <= i <= self.registrations@.len(),
                self.wf(),
                forall|j: int|
                    0 <= j < i ==> !is_registration(
                        #[trigger] self@.registrations[j],
                        system@,
                        instance,
                    ),
            decreases self.registrations@.len() - i,
        {
            let r = &self.registrations[i];
            if r.instance == instance && r.system == *system {
                proof {
                    lemma_registration_idx(self@, system@, instance, i as int);
                }
                return Some(i);
            }
            i = i + 1;
        }
        None
    }

    /// Opens a new instance of this world in the entity store. The payer
    /// becomes the instance's onboarding authority.
    pub fn instance_world(&mut self, store: &mut EntityStore, payer: &Address, instance: u64) -> (r:
        Result<(), EcsError>)
        requires
            old(self).wf(),
            old(store).wf(),
        ensures
            final(self).wf(),
            final(store).wf(),
            match r {
                Ok(()) => instance_world_error(old(self)@, old(store)@, instance) is None
                    && final(self)@ == (WorldState {
                    authorities: old(self)@.authorities.push((instance, payer@)),
                    ..old(self)@
                }) && final(store)@ == (StoreView {
                    worlds: old(store)@.worlds.push(
                        crate::store::WorldView {
                            world: old(self)@.program,
                            instance,
                            entities: 0,
                            world_signer: old(self)@.signer,
                        },
                    ),
                    ..old(store)@
                }),
                Err(e) => instance_world_error(old(self)@, old(store)@, instance) == Some(e)
                    && final(self)@ == old(self)@ && final(store)@ == old(store)@,
            },
    {
        if self.find_instance(instance).is_some() {
            return Err(EcsError::InstanceExists);
        }
        let signer = self.signer;
        let program = self.program;
        match store.register_world(&signer, &program, instance) {
            Err(e) => {
                return Err(e);
            },
            Ok(()) => {},
        }
        let ghost w0 = self@;
        self.authorities.push(InstanceAuthority { instance, authority: *payer });
        assert(self@.authorities =~= w0.authorities.push((instance, payer@)));
        assert(self@.schemas =~= w0.schemas);
        assert(self@.registrations =~= w0.registrations);
        Ok(())
    }

    /// Registers the component schema `url`. Its key is derived from the url
    /// and this world's id, so anyone can compute it again. Urls are unique:
    /// registering one a second time fails.
    pub fn register_component(&mut self, url: &str) -> (r: Result<Address, EcsError>)
        requires
            old(self).wf(),
        ensures
            final(self).wf(),
            match r {
                Ok(k) => register_component_error(old(self)@, url) is None && program_address_of(
                    schema_seeds(url),
                    old(self)@.program,
                ) == Some(k@) && final(self)@ == (WorldState {
                    component_count: (old(self)@.component_count + 1) as u64,
                    schemas: old(self)@.schemas.push((url@, k@)),
                    ..old(self)@
                }),
                Err(e) => register_component_error(old(self)@, url) == Some(e) && final(self)@
                    == old(self)@,
            },
    {
        let key = match get_world_component(&self.program, url) {
            Some(k) => k,
            None => {
                return Err(EcsError::InvalidSeeds);
            },
        };
        let ghost w_in = self@;
        let mut i: usize = 0;
        while i < self.schemas.len()
            invariant
                0 <= i <= self.schemas@.len(),
                self.wf(),
                self@ == w_in,
                w_in == old(self)@,
                program_address_of(schema_seeds(url), w_in.program) == Some(key@),
                forall|j: int| 0 <= j < i ==> #[trigger] self@.schemas[j].1 != key@,
            decreases self.schemas@.len() - i,
        {
            if self.schemas[i].key == key {
                assert(self@.schemas[i as int].1 == key@);
                return Err(EcsError::DuplicateSchema);
            }
            i = i + 1;
        }
        if self.config.components == u64::MAX {
            return Err(EcsError::Overflow);
        }
        let ghost w0 = self@;
        self.config.components = self.config.components + 1;
        self.schemas.push(ComponentSchema { url: url.to_owned(), key });
        assert(self@.schemas =~= w0.schemas.push((url@, key@)));
        assert(self@.authorities =~= w0.authorities);
        assert(self@.registrations =~= w0.registrations);
        Ok(key)
    }

    fn find_schema(&self, key: &Address) -> (r: Option<usize>)
        ensures
            match r {
                Some(i) => i < self@.schemas.len() && self@.schemas[i as int].1 == key@,
                None => !has_schema_key(self@, key@),
            },
    {
        let mut i: usize = 0;
        while i < self.schemas.len()
            invariant
                0 <= i <= self.schemas@.len(),
                forall|j: int| 0 <= j < i ==> #[trigger] self@.schemas[j].1 != key@,
            decreases self.schemas@.len() - i,
        {
            if self.schemas[i].key == *key {
                return Some(i);
            }
            i = i + 1;
        }
        None
    }

    /// Whether `key` is the key of a registered schema.
    pub fn is_registered(&self, key: &Address) -> (r: bool)
        ensures
            r == has_schema_key(self@, key@),
    {
        self.find_schema(key).is_some()
    }

    /// The key of the schema `url`, if that schema is registered.
    pub fn get_component_pubkey(&self, url: &str) -> (r: Option<Address>)
        ensures
            match r {
                Some(k) => program_address_of(schema_seeds(url), self@.program) == Some(k@)
                    && has_schema_key(self@, k@),
                None => match program_address_of(schema_seeds(url), self@.program) {
                    Some(k) => !has_schema_key(self@, k),
                    None => true,
                },
            },
    {
        match get_world_component(&self.program, url) {
            Some(k) => {
                if self.find_schema(&k).is_some() {
                    Some(k)
                } else {
                    None
                }
            },
            None => None,
        }
    }

    /// The url of the registered schema with key `key`, if there is one.
    pub fn get_component_url(&self, key: &Address) -> (r: Option<&String>)
        ensures
            match r {
                Some(u) => exists|i: int|
                    0 <= i < self@.schemas.len() && self@.schemas[i] == (u@, key@),
                None => !has_schema_key(self@, key@),
            },
    {
        match self.find_schema(key) {
            Some(i) => {
                assert(self@.schemas[i as int] == (self.schemas@[i as int].url@, key@));
                Some(&self.schemas[i].url)
            },
            None => None,
        }
    }

    /// Creates an empty capability record for `system` in `instance`.
    pub fn register_system(&mut self, system: &Address, instance: u64) -> (r: Result<(), EcsError>)
        requires
            old(self).wf(),
        ensures
            final(self).wf(),
            match r {
                Ok(()) => register_system_error(old(self)@, system@, instance) is None && final(self)@ == (WorldState {
                    registrations: old(self)@.registrations.push(
                        RegistrationView {
                            system: system@,
                            instance,
                            components: Seq::empty(),
                            space: SYSTEM_REGISTRATION_BASE_SIZE,
                        },
                    ),
                    ..old(self)@
                }),
                Err(e) => register_system_error(old(self)@, system@, instance) == Some(e) && final(self)@ == old(self)@,
            },
    {
        if self.find_instance(instance).is_none() {
            return Err(EcsError::InstanceNotFound);
        }
        if self.find_registration(system, instance).is_some() {
            return Err(EcsError::RegistrationExists);
        }
        let ghost w0 = self@;
        let reg = SystemRegistration {
            system: *system,
            instance,
            components: Vec::new(),
            space: SYSTEM_REGISTRATION_BASE_SIZE,
        };
        assert(reg@.components =~= Seq::empty());
        self.registrations.push(reg);
        assert(self@.registrations =~= w0.registrations.push(
            RegistrationView {
                system: system@,
                instance,
                components: Seq::empty(),
                space: SYSTEM_REGISTRATION_BASE_SIZE,
            },
        ));
        assert(self@.schemas =~= w0.schemas);
        assert(self@.authorities =~= w0.authorities);
        Ok(())
    }

    /// Grants `components` to `system` in `instance`. Only the instance's
    /// onboarding authority may do so. The record grows by the size of each
    /// key given.
    pub fn add_components_to_system_registration(
        &mut self,
        authority: &Address,
        system: &Address,
        instance: u64,
        components: &Vec<Address>,
    ) -> (r: Result<(), EcsError>)
        requires
            old(self).wf(),
        ensures
            final(self).wf(),
            match r {
                Ok(()) => grant_error(
                    old(self)@,
                    authority@,
                    system@,
                    instance,
                    keys_view(components@),
                ) is None && final(self)@ == (WorldState {
                    registrations: old(self)@.registrations.update(
                        registration_idx(old(self)@, system@, instance),
                        RegistrationView {
                            components: old(self)@.registrations[registration_idx(
                                old(self)@,
                                system@,
                                instance,
                            )].components + keys_view(components@),
                            space: (old(self)@.registrations[registration_idx(
                                old(self)@,
                                system@,
                                instance,
                            )].space + GRANTED_KEY_SIZE * components@.len()) as u64,
                            ..old(self)@.registrations[registration_idx(
                                old(self)@,
                                system@,
                                instance,
                            )]
                        },
                    ),
                    ..old(self)@
                }),
                Err(e) => grant_error(
                    old(self)@,
                    authority@,
                    system@,
                    instance,
                    keys_view(components@),
                ) == Some(e) && final(self)@ == old(self)@,
            },
    {
        let ai = match self.find_instance(instance) {
            None => {
                return Err(EcsError::InstanceNotFound);
            },
            Some(i) => i,
        };
        if self.authorities[ai].authority != *authority {
            return Err(EcsError::Unauthorized);
        }
        let ri = match self.find_registration(system, instance) {
            None => {
                return Err(EcsError::RegistrationNotFound);
            },
            Some(i) => i,
        };
        let n = components.len() as u64;
        let space = self.registrations[ri].space;
        let room: u64 = u64::MAX - space;
        let limit: u64 = room / GRANTED_KEY_SIZE;
        if n > limit {
            proof {
                let x = room as int;
                let y = limit as int;
                let m = n as int;
                assert(y == x / 33);
                assert(33 * m > x) by (nonlinear_arith)
                    requires
                        m > y,
                        y == x / 33,
                        x >= 0,
                ;
            }
            return Err(EcsError::Overflow);
        }
        proof {
            let x = room as int;
            let y = limit as int;
            let m = n as int;
            assert(y == x / 33);
            assert(33 * m <= x) by (nonlinear_arith)
                requires
                    m <= y,
                    y == x / 33,
                    x >= 0,
            ;
        }
        let ghost w0 = self@;
        let ghost v0 = self.registrations@;
        let mut reg = self.registrations.remove(ri);
        let mut i: usize = 0;
        while i < components.len()
            invariant
                0 <= i <= components@.len(),
                keys_view(reg.components@) == w0.registrations[ri as int].components + keys_view(
                    components@,
                ).take(i as int),
                reg.system@ == w0.registrations[ri as int].system,
                reg.instance == w0.registrations[ri as int].instance,
                reg.space == w0.registrations[ri as int].space,
                ri < w0.registrations.len(),
            decreases components@.len() - i,
        {
            let ghost before = reg.components@;
            reg.components.push(components[i]);
            assert(reg.components@ == before.push(components@[i as int]));
            assert(keys_view(components@).take(i + 1) =~= keys_view(components@).take(i as int).push(components@[i as int]@));
            assert(keys_view(reg.components@) =~= keys_view(before).push(components@[i as int]@));
            assert(keys_view(reg.components@) =~= w0.registrations[ri as int].components
                + keys_view(components@).take(i + 1));
            i = i + 1;
        }
        assert(keys_view(components@).take(i as int) =~= keys_view(components@));
        reg.space = space + GRANTED_KEY_SIZE * n;
        self.registrations.insert(ri, reg);
        proof {
            let nr = self.registrations@[ri as int]@;
            assert(self.registrations@ =~= v0.update(ri as int, self.registrations@[ri as int]));
            assert(self@.registrations =~= w0.registrations.update(ri as int, nr));
            assert(self@.schemas =~= w0.schemas);
            assert(self@.authorities =~= w0.authorities);
            let t = self@.registrations;
            assert forall|a: int, b: int|
                0 <= a < b < t.len() implies !is_registration(
                t[b],
                t[a].system,
                t[a].instance,
            ) by {
                assert(!is_registration(
                    w0.registrations[b],
                    w0.registrations[a].system,
                    w0.registrations[a].instance,
                ));
            }
        }
        Ok(())
    }

    /// The capability record of `system` in `instance`, if there is one.
    pub fn get_registration(&self, system: &Address, instance: u64) -> (r: Option<
        &SystemRegistration,
    >)
        requires
            self.wf(),
        ensures
            match r {
                Some(reg) => has_registration(self@, system@, instance) && reg@
                    == self@.registrations[registration_idx(self@, system@, instance)],
                None => !has_registration(self@, system@, instance),
            },
    {
        match self.find_registration(system, instance) {
            Some(i) => Some(&self.registrations[i]),
            None => None,
        }
    }

    /// Whether `system` may touch `keys` in `instance`.
    fn authorize(&self, system: &Address, instance: u64, keys: &Vec<Address>) -> (r: bool)
        requires
            self.wf(),
        ensures
            r == !denied(self@, system@, instance, keys_view(keys@)),
    {
        match self.find_registration(system, instance) {
            None => false,
            Some(i) => {
                let ok = check_sys_registry(keys, &self.registrations[i].components);
                proof {
                    let g = granted_keys(self@, system@, instance);
                    assert(g == keys_view(self.registrations@[i as int].components@));
                    if !ok {
                        let j = choose|j: int|
                            0 <= j < keys_view(keys@).len() && !g.contains(
                                #[trigger] keys_view(keys@)[j],
                            );
                        assert(!g.contains(keys_view(keys@)[j]));
                    }
                }
                ok
            },
        }
    }

    /// Mints an entity on behalf of `system`, which must have been granted
    /// every key of `components`. The entity's delegated signer is this
    /// world's relay identity.
    pub fn mint_entity(
        &self,
        store: &mut EntityStore,
        system: &Address,
        instance: u64,
        entity_id: u64,
        components: Vec<(Address, SerializedComponent)>,
    ) -> (r: Result<u64, EcsError>)
        requires
            self.wf(),
            old(store).wf(),
        ensures
            final(store).wf(),
            denied(self@, system@, instance, entry_keys(entries_view(components@))) ==> r == Err::<
                u64,
                EcsError,
            >(EcsError::CapabilityDenied) && final(store)@ == old(store)@,
            !denied(self@, system@, instance, entry_keys(entries_view(components@))) ==> match r {
                Ok(size) => mint_error(
                    old(store)@,
                    self@.signer,
                    self@.program,
                    instance,
                    entity_id,
                    entries_view(components@),
                ) is None && size == entity_size(entries_view(components@)) && final(store)@
                    == minted(
                    old(store)@,
                    self@.signer,
                    self@.program,
                    instance,
                    entity_id,
                    entries_view(components@),
                ),
                Err(e) => mint_error(
                    old(store)@,
                    self@.signer,
                    self@.program,
                    instance,
                    entity_id,
                    entries_view(components@),
                ) == Some(e) && final(store)@ == old(store)@,
            },
    {
        let keys = component_keys(&components);
        if !self.authorize(system, instance, &keys) {
            return Err(EcsError::CapabilityDenied);
        }
        store.mint_entity(&self.signer, &self.program, instance, entity_id, components)
    }

    /// Adds components to an entity on behalf of `system`, which must have
    /// been granted every key of `components`.
    pub fn req_add_component(
        &self,
        store: &mut EntityStore,
        system: &Address,
        instance: u64,
        entity_id: u64,
        components: Vec<(Address, SerializedComponent)>,
    ) -> (r: Result<u64, EcsError>)
        requires
            self.wf(),
            old(store).wf(),
        ensures
            final(store).wf(),
            denied(self@, system@, instance, entry_keys(entries_view(components@))) ==> r == Err::<
                u64,
                EcsError,
            >(EcsError::CapabilityDenied) && final(store)@ == old(store)@,
            !denied(self@, system@, instance, entry_keys(entries_view(components@))) ==> match r {
                Ok(growth) => add_error(
                    old(store)@,
                    self@.signer,
                    self@.program,
                    instance,
                    entity_id,
                    entries_view(components@),
                ) is None && growth == total_footprint(entries_view(components@)) && final(store)@ == with_entity(
                    old(store)@,
                    entity_idx(old(store)@, self@.program, instance, entity_id),
                    with_added(
                        entity_of(old(store)@, self@.program, instance, entity_id),
                        entries_view(components@),
                    ),
                ),
                Err(e) => add_error(
                    old(store)@,
                    self@.signer,
                    self@.program,
                    instance,
                    entity_id,
                    entries_view(components@),
                ) == Some(e) && final(store)@ == old(store)@,
            },
    {
        let keys = component_keys(&components);
        if !self.authorize(system, instance, &keys) {
            return Err(EcsError::CapabilityDenied);
        }
        store.add_components(&self.signer, &self.program, instance, entity_id, components)
    }

    /// Removes components from an entity on behalf of `system`, which must
    /// have been granted every key of `keys`.
    pub fn req_remove_component(
        &self,
        store: &mut EntityStore,
        system: &Address,
        instance: u64,
        entity_id: u64,
        keys: &Vec<Address>,
    ) -> (r: Result<u64, EcsError>)
        requires
            self.wf(),
            old(store).wf(),
        ensures
            final(store).wf(),
            denied(self@, system@, instance, keys_view(keys@)) ==> r == Err::<u64, EcsError>(
                EcsError::CapabilityDenied,
            ) && final(store)@ == old(store)@,
            !denied(self@, system@, instance, keys_view(keys@)) ==> match r {
                Ok(refund) => remove_error(
                    old(store)@,
                    self@.signer,
                    self@.program,
                    instance,
                    entity_id,
                    keys_view(keys@),
                ) is None && refund == total_footprint(
                    removed_part(
                        entity_of(old(store)@, self@.program, instance, entity_id).components,
                        keys_view(keys@),
                    ),
                ) && final(store)@ == with_entity(
                    old(store)@,
                    entity_idx(old(store)@, self@.program, instance, entity_id),
                    with_removed(
                        entity_of(old(store)@, self@.program, instance, entity_id),
                        keys_view(keys@),
                    ),
                ),
                Err(e) => remove_error(
                    old(store)@,
                    self@.signer,
                    self@.program,
                    instance,
                    entity_id,
                    keys_view(keys@),
                ) == Some(e) && final(store)@ == old(store)@,
            },
    {
        if !self.authorize(system, instance, keys) {
            return Err(EcsError::CapabilityDenied);
        }
        store.remove_component(&self.signer, &self.program, instance, entity_id, keys)
    }

    /// Overwrites payloads of an entity on behalf of `system`, which must
    /// have been granted every key of `keys`.
    pub fn req_modify_component(
        &self,
        store: &mut EntityStore,
        system: &Address,
        instance: u64,
        entity_id: u64,
        keys: &Vec<Address>,
        data: &Vec<Vec<u8>>,
    ) -> (r: Result<(), EcsError>)
        requires
            self.wf(),
            old(store).wf(),
        ensures
            final(store).wf(),
            denied(self@, system@, instance, keys_view(keys@)) ==> r == Err::<(), EcsError>(
                EcsError::CapabilityDenied,
            ) && final(store)@ == old(store)@,
            !denied(self@, system@, instance, keys_view(keys@)) ==> match r {
                Ok(()) => modify_error(
                    old(store)@,
                    self@.signer,
                    self@.program,
                    instance,
                    entity_id,
                    keys_view(keys@),
                    data_view(data@),
                ) is None && final(store)@ == with_entity(
                    old(store)@,
                    entity_idx(old(store)@, self@.program, instance, entity_id),
                    with_modified(
                        entity_of(old(store)@, self@.program, instance, entity_id),
                        keys_view(keys@),
                        data_view(data@),
                    ),
                ),
                Err(e) => modify_error(
                    old(store)@,
                    self@.signer,
                    self@.program,
                    instance,
                    entity_id,
                    keys_view(keys@),
                    data_view(data@),
                ) == Some(e) && final(store)@ == old(store)@,
            },
    {
        if !self.authorize(system, instance, keys) {
            return Err(EcsError::CapabilityDenied);
        }
        store.modify_components(&self.signer, &self.program, instance, entity_id, keys, data)
    }

    /// Deletes an empty entity on behalf of `system`; any system registered
    /// in the instance may do so.
    pub fn req_remove_entity(
        &self,
        store: &mut EntityStore,
        system: &Address,
        instance: u64,
        entity_id: u64,
    ) -> (r: Result<u64, EcsError>)
        requires
            self.wf(),
            old(store).wf(),
        ensures
            final(store).wf(),
            !has_registration(self@, system@, instance) ==> r == Err::<u64, EcsError>(
                EcsError::CapabilityDenied,
            ) && final(store)@ == old(store)@,
            has_registration(self@, system@, instance) ==> match r {
                Ok(refund) => remove_entity_error(
                    old(store)@,
                    self@.signer,
                    self@.program,
                    instance,
                    entity_id,
                ) is None && refund == entity_of(old(store)@, self@.program, instance, entity_id).space
                    && final(store)@ == (StoreView {
                    entities: old(store)@.entities.remove(
                        entity_idx(old(store)@, self@.program, instance, entity_id),
                    ),
                    ..old(store)@
                }),
                Err(e) => remove_entity_error(
                    old(store)@,
                    self@.signer,
                    self@.program,
                    instance,
                    entity_id,
                ) == Some(e) && final(store)@ == old(store)@,
            },
    {
        if self.find_registration(system, instance).is_none() {
            return Err(EcsError::CapabilityDenied);
        }
        store.remove_entity(&self.signer, &self.program, instance, entity_id)
    }
}

/// The keys of `components`, in order.
fn component_keys(components: &Vec<(Address, SerializedComponent)>) -> (r: Vec<Address>)
    ensures
        keys_view(r@) == entry_keys(entries_view(components@)),
{
    let mut r: Vec<Address> = Vec::new();
    let mut i: usize = 0;
    while i < components.len()
        invariant
            0 <= i <= components@.len(),
            keys_view(r@) =~= entry_keys(entries_view(components@)).take(i as int),
        decreases components@.len() - i,
    {
        let ghost before = r@;
        r.push(components[i].0);
        assert(keys_view(r@) =~= keys_view(before).push(components@[i as int].0@));
        assert(entry_keys(entries_view(components@)).take(i + 1) =~= entry_keys(
            entries_view(components@),
        ).take(i as int).push(components@[i as int].0@));
        i = i + 1;
    }
    assert(entry_keys(entries_view(components@)).take(i as int) =~= entry_keys(
        entries_view(components@),
    ));
    r
}

} // verus!
