use vstd::prelude::*;
use vstd::string::StrSliceExecFns;
use vstd::string::StringSliceAdditionalSpecFns;

verus! {

/// A 32-byte account address: a program id, a signer, or a derived key.
#[derive(Clone, Copy, Debug)]
pub struct Address {
    pub bytes: [u8; 32],
}

impl View for Address {
    type V = Seq<u8>;

    open spec fn view(&self) -> Seq<u8> {
        self.bytes@
    }
}

impl PartialEq for Address {
    fn eq(&self, o: &Address) -> (r: bool)
        ensures
            r == (self@ == o@),
    {
        let mut i: usize = 0;
        while i < 32
            invariant
                0 <= i <= 32,
                self.bytes@.len() == 32,
                o.bytes@.len() == 32,
                forall|j: int| 0 <= j < i ==> self.bytes@[j] == o.bytes@[j],
            decreases 32 - i,
        {
            if self.bytes[i] != o.bytes[i] {
                return false;
            }
            i = i + 1;
        }
        assert(self@ =~= o@);
        true
    }
}

impl vstd::std_specs::cmp::PartialEqSpecImpl for Address {
    open spec fn obeys_eq_spec() -> bool {
        true
    }

    open spec fn eq_spec(&self, o: &Address) -> bool {
        self@ == o@
    }
}

impl Eq for Address {
}

/// The byte strings held in a list of seeds.
pub open spec fn seeds_view(seeds: Seq<Vec<u8>>) -> Seq<Seq<u8>> {
    seeds.map_values(|s: Vec<u8>| s@)
}

/// The address that a program derives from a list of seeds, if one exists.
pub uninterp spec fn program_address_of(seeds: Seq<Seq<u8>>, program: Seq<u8>) -> Option<Seq<u8>>;

/// The seed lists that address derivation refuses outright: too many seeds
/// (the bump seed is appended to them) or a seed longer than 32 bytes.
pub open spec fn seeds_rejected(seeds: Seq<Seq<u8>>) -> bool {
    seeds.len() >= 16 || exists|i: int| 0 <= i < seeds.len() && seeds[i].len() > 32
}

/// Relies on `Pubkey::try_find_program_address` of solana-program (re-exported
/// by anchor-lang): the derived address depends on the seeds and the program
/// id alone, and no address is found when a seed is longer than 32 bytes or
/// the seeds, with the bump seed, are more than 16.
#[verifier::external_body]
pub(crate) fn find_program_address(seeds: &Vec<Vec<u8>>, program: &Address) -> (r: Option<Address>)
    ensures
        match r {
            Some(a) => program_address_of(seeds_view(seeds@), program@) == Some(a@),
            None => program_address_of(seeds_view(seeds@), program@) is None,
        },
        seeds_rejected(seeds_view(seeds@)) ==> r is None,
{
    let refs: Vec<&[u8]> = seeds.iter().map(|s| s.as_slice()).collect();
    let id = anchor_lang::prelude::Pubkey::new_from_array(program.bytes);
    anchor_lang::prelude::Pubkey::try_find_program_address(&refs, &id).map(
        |(k, _bump)| Address { bytes: k.to_bytes() },
    )
}

/// The big-endian bytes of a `u64`.
pub open spec fn be_bytes(x: u64) -> Seq<u8> {
    seq![
        (x >> 56u64) as u8,
        (x >> 48u64) as u8,
        (x >> 40u64) as u8,
        (x >> 32u64) as u8,
        (x >> 24u64) as u8,
        (x >> 16u64) as u8,
        (x >> 8u64) as u8,
        x as u8,
    ]
}

/// The big-endian bytes of `x`, as `u64::to_be_bytes` gives them.
pub fn u64_be_bytes(x: u64) -> (r: Vec<u8>)
    ensures
        r@ == be_bytes(x),
{
    let mut r: Vec<u8> = Vec::new();
    r.push((x >> 56u64) as u8);
    r.push((x >> 48u64) as u8);
    r.push((x >> 40u64) as u8);
    r.push((x >> 32u64) as u8);
    r.push((x >> 24u64) as u8);
    r.push((x >> 16u64) as u8);
    r.push((x >> 8u64) as u8);
    r.push(x as u8);
    assert(r@ =~= be_bytes(x));
    r
}

fn address_bytes(a: &Address) -> (r: Vec<u8>)
    ensures
        r@ == a@,
{
    let mut r: Vec<u8> = Vec::new();
    let mut i: usize = 0;
    while i < 32
        invariant
            0 <= i <= 32,
            a.bytes@.len() == 32,
            r@ =~= a@.subrange(0, i as int),
        decreases 32 - i,
    {
        r.push(a.bytes[i]);
        i = i + 1;
    }
    assert(r@ =~= a@);
    r
}

/// The seeds of the relay identity of a world program.
pub open spec fn world_signer_seeds() -> Seq<Seq<u8>> {
    seq!["world_signer".spec_bytes()]
}

/// The seeds of a component schema's key: its url alone.
pub open spec fn schema_seeds(url: &str) -> Seq<Seq<u8>> {
    seq![url.spec_bytes()]
}

/// The seeds of a world instance's address in the entity store.
pub open spec fn world_instance_seeds(world: Seq<u8>, instance: u64) -> Seq<Seq<u8>> {
    seq!["World".spec_bytes(), world, be_bytes(instance)]
}

/// The seeds of an entity's address in the entity store.
pub open spec fn entity_seeds(entity_id: u64, world_instance: Seq<u8>) -> Seq<Seq<u8>> {
    seq!["Entity".spec_bytes(), be_bytes(entity_id), world_instance]
}

/// The relay identity of the world program `program`: the one signer that the
/// entity store recognises for the entities of that world.
pub fn world_signer_address(program: &Address) -> (r: Option<Address>)
    ensures
        match r {
            Some(a) => program_address_of(world_signer_seeds(), program@) == Some(a@),
            None => program_address_of(world_signer_seeds(), program@) is None,
        },
{
    let mut seeds: Vec<Vec<u8>> = Vec::new();
    seeds.push("world_signer".as_bytes_vec());
    assert(seeds_view(seeds@) =~= world_signer_seeds());
    find_program_address(&seeds, program)
}

/// The key of the component schema `url` registered by the world program
/// `world`. Anyone who knows the url can compute it again.
pub fn get_world_component(world: &Address, url: &str) -> (r: Option<Address>)
    ensures
        match r {
            Some(a) => program_address_of(schema_seeds(url), world@) == Some(a@),
            None => program_address_of(schema_seeds(url), world@) is None,
        },
        url.spec_bytes().len() > 32 ==> r is None,
{
    let mut seeds: Vec<Vec<u8>> = Vec::new();
    seeds.push(url.as_bytes_vec());
    assert(seeds_view(seeds@) =~= schema_seeds(url));
    assert(seeds_view(seeds@)[0].len() > 32 ==> seeds_rejected(seeds_view(seeds@)));
    find_program_address(&seeds, world)
}

/// The entity store program, as seen by clients that locate its records.
pub struct Universe {
    pub program: Address,
}

impl Universe {
    pub fn new(program: Address) -> (r: Universe)
        ensures
            r.program == program,
    {
        Universe { program }
    }

    /// The address of instance `instance` of world `world` in the store.
    pub fn get_world_instance(&self, world: &Address, instance: u64) -> (r: Option<Address>)
        ensures
            match r {
                Some(a) => program_address_of(world_instance_seeds(world@, instance), self.program@)
                    == Some(a@),
                None => program_address_of(world_instance_seeds(world@, instance), self.program@) is None,
            },
    {
        let mut seeds: Vec<Vec<u8>> = Vec::new();
        seeds.push("World".as_bytes_vec());
        seeds.push(address_bytes(world));
        seeds.push(u64_be_bytes(instance));
        assert(seeds_view(seeds@) =~= world_instance_seeds(world@, instance));
        find_program_address(&seeds, &self.program)
    }

    /// The addresses of the entities `ids` of a world instance, in order;
    /// `None` when one of them has no address.
    pub fn get_keys_from_id(&self, world_instance: &Address, ids: &Vec<u64>) -> (r: Option<
        Vec<Address>,
    >)
        ensures
            match r {
                Some(v) => v@.len() == ids@.len() && forall|i: int|
                    0 <= i < ids@.len() ==> program_address_of(
                        entity_seeds(#[trigger] ids@[i], world_instance@),
                        self.program@,
                    ) == Some(v@[i]@),
                None => exists|i: int|
                    0 <= i < ids@.len() && program_address_of(
                        entity_seeds(#[trigger] ids@[i], world_instance@),
                        self.program@,
                    ) is None,
            },
    {
        let mut keys: Vec<Address> = Vec::new();
        let mut i: usize = 0;
        while i < ids.len()
            invariant
                0 <= i <= ids@.len(),
                keys@.len() == i,
                forall|j: int|
                    0 <= j < i ==> program_address_of(
                        entity_seeds(#[trigger] ids@[j], world_instance@),
                        self.program@,
                    ) == Some(keys@[j]@),
            decreases ids@.len() - i,
        {
            let mut seeds: Vec<Vec<u8>> = Vec::new();
            seeds.push("Entity".as_bytes_vec());
            seeds.push(u64_be_bytes(ids[i]));
            seeds.push(address_bytes(world_instance));
            assert(seeds_view(seeds@) =~= entity_seeds(ids@[i as int], world_instance@));
            match find_program_address(&seeds, &self.program) {
                Some(a) => {
                    keys.push(a);
                },
                None => {
                    return None;
                },
            }
            i = i + 1;
        }
        Some(keys)
    }
}

} // verus!
