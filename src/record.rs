use vstd::prelude::*;
use vstd::string::StrSliceExecFns;
use vstd::string::StringSliceAdditionalSpecFns;
use crate::component::{EntryView, entries_view, total_footprint};
use crate::store::{Entity, EntityView, payloads_fit, ENTITY_HEADER_SIZE};

verus! {

/// The SHA-256 digest of a byte string.
pub uninterp spec fn sha256_of(data: Seq<u8>) -> Seq<u8>;

/// Relies on `solana_program::hash::hash` (re-exported by anchor-lang): the
/// 32-byte SHA-256 digest of its input.
#[verifier::external_body]
fn sha256(data: &Vec<u8>) -> (r: [u8; 32])
    ensures
        r@ == sha256_of(data@),
{
    anchor_lang::solana_program::hash::hash(data.as_slice()).to_bytes()
}

/// The eight bytes that open every entity record: the start of the digest of
/// `account:Entity`.
pub open spec fn entity_discriminator() -> Seq<u8> {
    sha256_of("account:Entity".spec_bytes()).take(8)
}

/// The little-endian bytes of `x`, `n` of them.
pub open spec fn le_bytes(x: nat, n: nat) -> Seq<u8>
    decreases n,
{
    if n == 0 {
        Seq::empty()
    } else {
        seq![(x % 256) as u8] + le_bytes(x / 256, (n - 1) as nat)
    }
}

/// `n` zero bytes.
pub open spec fn zeros(n: nat) -> Seq<u8> {
    Seq::new(n, |i: int| 0u8)
}

/// The zero bytes that fill a payload of `len` bytes up to `max`.
pub open spec fn padding(max: nat, len: nat) -> nat {
    if len <= max {
        (max - len) as nat
    } else {
        0
    }
}

/// Every key is 32 bytes long.
pub open spec fn keys_sized(s: Seq<EntryView>) -> bool {
    forall|i: int| 0 <= i < s.len() ==> (#[trigger] s[i]).0.len() == 32
}

/// One component in a record: its key, its declared size, the length of its
/// payload, and the payload padded with zeros to the declared size.
pub open spec fn component_record(e: EntryView) -> Seq<u8> {
    e.0 + le_bytes(e.1.max_size as nat, 8) + le_bytes(e.1.data.len(), 4) + e.1.data + zeros(
        padding(e.1.max_size as nat, e.1.data.len()),
    )
}

pub open spec fn components_record(s: Seq<EntryView>) -> Seq<u8>
    decreases s.len(),
{
    if s.len() == 0 {
        Seq::empty()
    } else {
        components_record(s.drop_last()) + component_record(s.last())
    }
}

/// The persisted record of an entity.
pub open spec fn entity_record(e: EntityView) -> Seq<u8> {
    entity_discriminator() + le_bytes(e.entity_id as nat, 8) + le_bytes(e.instance as nat, 8)
        + e.world + e.world_signer + le_bytes(e.components.len(), 4) + components_record(
        e.components,
    )
}

/// Whether the counts and lengths of an entity fit the record's 4-byte
/// fields.
pub open spec fn encodable(e: EntityView) -> bool {
    &&& e.components.len() <= u32::MAX
    &&& forall|i: int| 0 <= i < e.components.len() ==> #[trigger] e.components[i].1.data.len() <= u32::MAX
}

proof fn lemma_le_len(x: nat, n: nat)
    ensures
        le_bytes(x, n).len() == n,
    decreases n,
{
    if n > 0 {
        lemma_le_len(x / 256, (n - 1) as nat);
    }
}

proof fn lemma_components_record_len(s: Seq<EntryView>)
    requires
        payloads_fit(s),
        keys_sized(s),
    ensures
        components_record(s).len() == total_footprint(s),
    decreases s.len(),
{
    if s.len() > 0 {
        let t = s.drop_last();
        assert(payloads_fit(t)) by {
            assert forall|i: int| 0 <= i < t.len() implies t[i].1.data.len() <= t[i].1.max_size by {
                assert(t[i] == s[i]);
            }
        }
        assert(keys_sized(t)) by {
            assert forall|i: int| 0 <= i < t.len() implies (#[trigger] t[i]).0.len() == 32 by {
                assert(t[i] == s[i]);
            }
        }
        lemma_components_record_len(t);
        let l = s.last();
        assert(l == s[s.len() - 1]);
        assert(l.0.len() == 32);
        lemma_le_len(l.1.max_size as nat, 8);
        lemma_le_len(l.1.data.len(), 4);
    }
}

/// Appends the `n` low-order bytes of `x`, least significant first.
fn push_le(out: &mut Vec<u8>, x: u64, n: usize)
    requires
        n <= 8,
    ensures
        final(out)@ == old(out)@ + le_bytes(x as nat, n as nat),
{
    let mut v: u64 = x;
    let mut i: usize = 0;
    while i < n
        invariant
            0 <= i <= n <= 8,
            old(out)@ + le_bytes(x as nat, n as nat) == out@ + le_bytes(v as nat, (n - i) as nat),
        decreases n - i,
    {
        proof {
            assert(le_bytes(v as nat, (n - i) as nat) == seq![(v as nat % 256) as u8] + le_bytes(
                v as nat / 256,
                (n - i - 1) as nat,
            ));
        }
        let ghost before = out@;
        out.push((v % 256) as u8);
        proof {
            assert(out@ + le_bytes((v / 256) as nat, (n - i - 1) as nat) =~= before + (seq![
                (v as nat % 256) as u8,
            ] + le_bytes(v as nat / 256, (n - i - 1) as nat)));
        }
        v = v / 256;
        i = i + 1;
    }
    assert(out@ + le_bytes(v as nat, 0) =~= out@);
}

fn push_bytes(out: &mut Vec<u8>, bytes: &[u8; 32])
    ensures
        final(out)@ == old(out)@ + bytes@,
{
    let mut i: usize = 0;
    while i < 32
        invariant
            0 <= i <= 32,
            bytes@.len() == 32,
            out@ == old(out)@ + bytes@.take(i as int),
        decreases 32 - i,
    {
        out.push(bytes[i]);
        assert(bytes@.take(i + 1) =~= bytes@.take(i as int).push(bytes@[i as int]));
        i = i + 1;
    }
    assert(bytes@.take(32) =~= bytes@);
}

/// The persisted record of `e`, laid out as the discriminator, the entity
/// id, the instance, the world, the delegated signer, the component count,
/// and each component with its payload padded to its declared size. `None`
/// when the count or a payload length does not fit its 4-byte field. The
/// record of a stored entity fills its allocation exactly.
pub fn encode_entity(e: &Entity) -> (r: Option<Vec<u8>>)
    ensures
        match r {
            Some(b) => encodable(e@) && b@ == entity_record(e@) && (payloads_fit(e@.components)
                ==> b@.len() == ENTITY_HEADER_SIZE + total_footprint(e@.components)),
            None => !encodable(e@),
        },
{
    let ghost ev = e@.components;
    let d = sha256(&"account:Entity".as_bytes_vec());
    let mut out: Vec<u8> = Vec::new();
    let mut i: usize = 0;
    while i < 8
        invariant
            0 <= i <= 8,
            d@.len() == 32,
            d@ == sha256_of("account:Entity".spec_bytes()),
            out@ == d@.take(i as int),
        decreases 8 - i,
    {
        out.push(d[i]);
        assert(d@.take(i + 1) =~= d@.take(i as int).push(d@[i as int]));
        i = i + 1;
    }
    push_le(&mut out, e.entity_id, 8);
    push_le(&mut out, e.instance, 8);
    push_bytes(&mut out, &e.world.bytes);
    push_bytes(&mut out, &e.world_signer.bytes);
    let n = e.components.len();
    if n > 4294967295usize {
        return None;
    }
    push_le(&mut out, n as u64, 4);
    let ghost head = out@;
    assert(head == entity_discriminator() + le_bytes(e.entity_id as nat, 8) + le_bytes(
        e.instance as nat,
        8,
    ) + e.world@ + e.world_signer@ + le_bytes(ev.len(), 4));
    let mut i: usize = 0;
    while i < n
        invariant
            0 <= i <= n,
            n == e.components@.len(),
            ev == e@.components,
            ev == entries_view(e.components@),
            out@ == head + components_record(ev.take(i as int)),
            forall|j: int| 0 <= j < i ==> #[trigger] ev[j].1.data.len() <= u32::MAX,
        decreases n - i,
    {
        let c = &e.components[i];
        let len = c.1.data.len();
        if len > 4294967295usize {
            assert(ev[i as int].1.data.len() > u32::MAX);
            return None;
        }
        let ghost before = out@;
        push_bytes(&mut out, &c.0.bytes);
        push_le(&mut out, c.1.max_size, 8);
        push_le(&mut out, len as u64, 4);
        let mut k: usize = 0;
        while k < len
            invariant
                0 <= k <= len,
                len == c.1.data@.len(),
                out@ == before + c.0@ + le_bytes(c.1.max_size as nat, 8) + le_bytes(len as nat, 4)
                    + c.1.data@.take(k as int),
            decreases len - k,
        {
            out.push(c.1.data[k]);
            assert(c.1.data@.take(k + 1) =~= c.1.data@.take(k as int).push(c.1.data@[k as int]));
            k = k + 1;
        }
        assert(c.1.data@.take(len as int) =~= c.1.data@);
        let ghost mid = out@;
        if (len as u64) < c.1.max_size {
            let pad: u64 = c.1.max_size - len as u64;
            let mut z: u64 = 0;
            while z < pad
                invariant
                    0 <= z <= pad,
                    out@ == mid + zeros(z as nat),
                decreases pad - z,
            {
                out.push(0u8);
                assert(zeros((z + 1) as nat) =~= zeros(z as nat).push(0u8));
                z = z + 1;
            }
        } else {
            assert(out@ =~= mid + zeros(0));
        }
        proof {
            let t = ev.take(i + 1);
            assert(t.drop_last() =~= ev.take(i as int));
            assert(t.last() == ev[i as int]);
            assert(ev[i as int] == (c.0@, c.1@));
            assert(out@ =~= head + components_record(t));
        }
        i = i + 1;
    }
    assert(ev.take(n as int) =~= ev);
    proof {
        lemma_le_len(e.entity_id as nat, 8);
        lemma_le_len(e.instance as nat, 8);
        lemma_le_len(ev.len(), 4);
        assert(entity_discriminator().len() == 8);
        assert(keys_sized(ev)) by {
            assert forall|j: int| 0 <= j < ev.len() implies (#[trigger] ev[j]).0.len() == 32 by {
                assert(ev[j].0 == e.components@[j].0@);
            }
        }
        if payloads_fit(ev) {
            lemma_components_record_len(ev);
        }
    }
    Some(out)
}

} // verus!
