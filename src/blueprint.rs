use vstd::prelude::*;
use vstd::string::StrSliceExecFns;
use vstd::string::StringSliceAdditionalSpecFns;
use crate::address::{Address, program_address_of, seeds_view, find_program_address};
use crate::component::{EntryView, SerializedComponent, entries_view};
use crate::error::EcsError;
use crate::store::{unique_keys, payloads_fit, keys_unique, payloads_within};

verus! {

/// A named, immutable preset of components from which entities are stamped.
#[derive(Debug)]
pub struct Blueprint {
    pub name: String,
    pub key: Address,
    pub components: Vec<(Address, SerializedComponent)>,
}

pub ghost struct BlueprintView {
    pub name: Seq<char>,
    pub key: Seq<u8>,
    pub components: Seq<EntryView>,
}

impl View for Blueprint {
    type V = BlueprintView;

    open spec fn view(&self) -> BlueprintView {
        BlueprintView {
            name: self.name@,
            key: self.key@,
            components: entries_view(self.components@),
        }
    }
}

impl Blueprint {
    /// The blueprint's components, copied, ready to mint an entity with.
    pub fn stamp(&self) -> (r: Vec<(Address, SerializedComponent)>)
        ensures
            entries_view(r@) == self@.components,
    {
        let mut r: Vec<(Address, SerializedComponent)> = Vec::new();
        let mut i: usize = 0;
        while i < self.components.len()
            invariant
                0 <= i <= self.components@.len(),
                entries_view(r@) =~= self@.components.take(i as int),
            decreases self.components@.len() - i,
        {
            let c = &self.components[i];
            let ghost before = r@;
            r.push((c.0, c.1.copy()));
            assert(entries_view(r@) =~= entries_view(before).push(self@.components[i as int]));
            assert(self@.components.take(i + 1) =~= self@.components.take(i as int).push(
                self@.components[i as int],
            ));
            i = i + 1;
        }
        assert(self@.components.take(i as int) =~= self@.components);
        r
    }
}

/// The seeds of a blueprint's key: a fixed prefix and the blueprint's name.
pub open spec fn blueprint_seeds(name: &str) -> Seq<Seq<u8>> {
    seq!["Blueprint".spec_bytes(), name.spec_bytes()]
}

/// The blueprints registered by one game program, keyed by name.
pub struct Blueprints {
    program: Address,
    prints: Vec<Blueprint>,
}

pub ghost struct BlueprintsView {
    pub program: Seq<u8>,
    pub prints: Seq<BlueprintView>,
}

impl View for Blueprints {
    type V = BlueprintsView;

    closed spec fn view(&self) -> BlueprintsView {
        BlueprintsView {
            program: self.program@,
            prints: self.prints@.map_values(|b: Blueprint| b@),
        }
    }
}

pub open spec fn has_blueprint(b: BlueprintsView, key: Seq<u8>) -> bool {
    exists|i: int| 0 <= i < b.prints.len() && b.prints[i].key == key
}

pub open spec fn blueprints_wf(b: BlueprintsView) -> bool {
    &&& forall|i: int, j: int| 0 <= i < j < b.prints.len() ==> b.prints[i].key != b.prints[j].key
    &&& forall|i: int|
        0 <= i < b.prints.len() ==> unique_keys(#[trigger] b.prints[i].components) && payloads_fit(
            b.prints[i].components,
        )
}

pub open spec fn register_blueprint_error(b: BlueprintsView, name: &str, c: Seq<EntryView>) -> Option<
    EcsError,
> {
    match program_address_of(blueprint_seeds(name), b.program) {
        None => Some(EcsError::InvalidSeeds),
        Some(k) => if has_blueprint(b, k) {
            Some(EcsError::DuplicateBlueprint)
        } else if !unique_keys(c) {
            Some(EcsError::DuplicateComponent)
        } else if !payloads_fit(c) {
            Some(EcsError::DataTooLarge)
        } else {
            None
        },
    }
}

impl Blueprints {
    pub closed spec fn wf(&self) -> bool {
        blueprints_wf(self@)
    }

    /// No blueprint yet, for the game program `program`.
    pub fn new(program: Address) -> (r: Blueprints)
        ensures
            r.wf(),
            r@.program == program@,
            r@.prints.len() == 0,
    {
        Blueprints { program, prints: Vec::new() }
    }

    /// The key of the blueprint named `name`, derived from the name alone.
    pub fn get_blueprint_key(&self, name: &str) -> (r: Option<Address>)
        ensures
            match r {
                Some(k) => program_address_of(blueprint_seeds(name), self@.program) == Some(k@),
                None => program_address_of(blueprint_seeds(name), self@.program) is None,
            },
    {
        let mut seeds: Vec<Vec<u8>> = Vec::new();
        seeds.push("Blueprint".as_bytes_vec());
        seeds.push(name.as_bytes_vec());
        assert(seeds_view(seeds@) =~= blueprint_seeds(name));
        find_program_address(&seeds, &self.program)
    }

    fn find(&self, key: &Address) -> (r: Option<usize>)
        ensures
            match r {
                Some(i) => i < self@.prints.len() && self@.prints[i as int].key == key@,
                None => !has_blueprint(self@, key@),
            },
    {
        let mut i: usize = 0;
        while i < self.prints.len()
            invariant
                0 <= i <= self.prints@.len(),
                forall|j: int| 0 <= j < i ==> #[trigger] self@.prints[j].key != key@,
            decreases self.prints@.len() - i,
        {
            if self.prints[i].key == *key {
                return Some(i);
            }
            i = i + 1;
        }
        None
    }

    /// Registers the blueprint `name`. Names are unique, and a blueprint
    /// never changes once registered.
    pub fn register_blueprint(
        &mut self,
        name: &str,
        components: Vec<(Address, SerializedComponent)>,
    ) -> (r: Result<Address, EcsError>)
        requires
            old(self).wf(),
        ensures
            final(self).wf(),
            match r {
                Ok(k) => register_blueprint_error(old(self)@, name, entries_view(components@))
                    is None && program_address_of(blueprint_seeds(name), old(self)@.program)
                    == Some(k@) && final(self)@ == (BlueprintsView {
                    prints: old(self)@.prints.push(
                        BlueprintView {
                            name: name@,
                            key: k@,
                            components: entries_view(components@),
                        },
                    ),
                    ..old(self)@
                }),
                Err(e) => register_blueprint_error(old(self)@, name, entries_view(components@))
                    == Some(e) && final(self)@ == old(self)@,
            },
    {
        let key = match self.get_blueprint_key(name) {
            Some(k) => k,
            None => {
                return Err(EcsError::InvalidSeeds);
            },
        };
        if self.find(&key).is_some() {
            return Err(EcsError::DuplicateBlueprint);
        }
        if !keys_unique(&components) {
            return Err(EcsError::DuplicateComponent);
        }
        if !payloads_within(&components) {
            return Err(EcsError::DataTooLarge);
        }
        let ghost b0 = self@;
        let ghost c = entries_view(components@);
        self.prints.push(Blueprint { name: name.to_owned(), key, components });
        assert(self@.prints =~= b0.prints.push(
            BlueprintView { name: name@, key: key@, components: c },
        ));
        Ok(key)
    }

    /// The blueprint with key `key`, if one is registered.
    pub fn get_blueprint_by_key(&self, key: &Address) -> (r: Option<&Blueprint>)
        ensures
            match r {
                Some(b) => b@.key == key@ && exists|i: int|
                    0 <= i < self@.prints.len() && self@.prints[i] == b@,
                None => !has_blueprint(self@, key@),
            },
    {
        match self.find(key) {
            Some(i) => Some(&self.prints[i]),
            None => None,
        }
    }

    /// The blueprint named `name`, if one is registered.
    pub fn get_blueprint_by_name(&self, name: &str) -> (r: Option<&Blueprint>)
        ensures
            match r {
                Some(b) => program_address_of(blueprint_seeds(name), self@.program) == Some(b@.key)
                    && exists|i: int| 0 <= i < self@.prints.len() && self@.prints[i] == b@,
                None => match program_address_of(blueprint_seeds(name), self@.program) {
                    Some(k) => !has_blueprint(self@, k),
                    None => true,
                },
            },
    {
        match self.get_blueprint_key(name) {
            Some(k) => self.get_blueprint_by_key(&k),
            None => None,
        }
    }
}

} // verus!
