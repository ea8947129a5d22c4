use vstd::prelude::*;
use crate::address::Address;

verus! {

/// Bytes that each component takes in an entity's storage besides its
/// payload: its key (32), its declared maximum size (8) and the length
/// prefix of its data (4).
pub const SERIALIZED_COMPONENT_EXTRA_SPACE: u64 = 44;

/// A component as the store holds it: a declared payload ceiling and the
/// payload itself, which the store never decodes.
#[derive(Clone, Debug)]
pub struct SerializedComponent {
    pub max_size: u64,
    pub data: Vec<u8>,
}

pub ghost struct ComponentView {
    pub max_size: u64,
    pub data: Seq<u8>,
}

impl View for SerializedComponent {
    type V = ComponentView;

    open spec fn view(&self) -> ComponentView {
        ComponentView { max_size: self.max_size, data: self.data@ }
    }
}

impl SerializedComponent {
    /// A copy of the component.
    pub fn copy(&self) -> (r: SerializedComponent)
        ensures
            r@ == self@,
    {
        let data = self.data.clone();
        assert(data@ =~= self.data@);
        SerializedComponent { max_size: self.max_size, data }
    }
}

/// A component key with its component, as a mathematical value.
pub type EntryView = (Seq<u8>, ComponentView);

pub open spec fn entry_view(e: (Address, SerializedComponent)) -> EntryView {
    (e.0@, e.1@)
}

pub open spec fn entries_view(s: Seq<(Address, SerializedComponent)>) -> Seq<EntryView> {
    s.map_values(|e: (Address, SerializedComponent)| entry_view(e))
}

pub open spec fn keys_view(s: Seq<Address>) -> Seq<Seq<u8>> {
    s.map_values(|a: Address| a@)
}

/// The storage that one component takes.
pub open spec fn footprint(c: ComponentView) -> int {
    c.max_size + SERIALIZED_COMPONENT_EXTRA_SPACE
}

/// The storage that a list of components takes.
pub open spec fn total_footprint(s: Seq<EntryView>) -> int
    decreases s.len(),
{
    if s.len() == 0 {
        0
    } else {
        total_footprint(s.drop_last()) + footprint(s.last().1)
    }
}

/// The entries of `s` whose key is among `keys`, in order.
pub open spec fn removed_part(s: Seq<EntryView>, keys: Seq<Seq<u8>>) -> Seq<EntryView>
    decreases s.len(),
{
    if s.len() == 0 {
        s
    } else if keys.contains(s.last().0) {
        removed_part(s.drop_last(), keys).push(s.last())
    } else {
        removed_part(s.drop_last(), keys)
    }
}

/// The entries of `s` whose key is not among `keys`, in order.
pub open spec fn kept_part(s: Seq<EntryView>, keys: Seq<Seq<u8>>) -> Seq<EntryView>
    decreases s.len(),
{
    if s.len() == 0 {
        s
    } else if keys.contains(s.last().0) {
        kept_part(s.drop_last(), keys)
    } else {
        kept_part(s.drop_last(), keys).push(s.last())
    }
}

/// A value as a `u64`, when it fits in one.
pub open spec fn fits_u64(x: int) -> Option<u64> {
    if 0 <= x <= u64::MAX {
        Some(x as u64)
    } else {
        None
    }
}

pub proof fn lemma_total_nonneg(s: Seq<EntryView>)
    ensures
        total_footprint(s) >= 0,
    decreases s.len(),
{
    if s.len() > 0 {
        lemma_total_nonneg(s.drop_last());
    }
}

pub proof fn lemma_total_prefix(s: Seq<EntryView>, i: int)
    requires
        0 <= i <= s.len(),
    ensures
        total_footprint(s.take(i)) <= total_footprint(s),
    decreases s.len(),
{
    if i < s.len() {
        assert(s.drop_last().take(i) =~= s.take(i));
        lemma_total_prefix(s.drop_last(), i);
    } else {
        assert(s.take(i) =~= s);
    }
}

/// The footprint of a concatenation is the sum of the footprints.
pub proof fn lemma_total_append(a: Seq<EntryView>, b: Seq<EntryView>)
    ensures
        total_footprint(a + b) == total_footprint(a) + total_footprint(b),
    decreases b.len(),
{
    if b.len() == 0 {
        assert(a + b =~= a);
    } else {
        assert((a + b).drop_last() =~= a + b.drop_last());
        lemma_total_append(a, b.drop_last());
    }
}

/// Removing a set of keys splits the footprint between what goes and what stays.
pub proof fn lemma_total_split(s: Seq<EntryView>, keys: Seq<Seq<u8>>)
    ensures
        total_footprint(s) == total_footprint(removed_part(s, keys)) + total_footprint(
            kept_part(s, keys),
        ),
    decreases s.len(),
{
    if s.len() > 0 {
        lemma_total_split(s.drop_last(), keys);
        let r = removed_part(s.drop_last(), keys);
        let k = kept_part(s.drop_last(), keys);
        if keys.contains(s.last().0) {
            assert(r.push(s.last()).drop_last() =~= r);
        } else {
            assert(k.push(s.last()).drop_last() =~= k);
        }
    }
}

proof fn lemma_removed_prefix(s: Seq<EntryView>, keys: Seq<Seq<u8>>, i: int)
    requires
        0 <= i <= s.len(),
    ensures
        total_footprint(removed_part(s.take(i), keys)) <= total_footprint(removed_part(s, keys)),
    decreases s.len(),
{
    if i < s.len() {
        assert(s.drop_last().take(i) =~= s.take(i));
        lemma_removed_prefix(s.drop_last(), keys, i);
        let r = removed_part(s.drop_last(), keys);
        if keys.contains(s.last().0) {
            assert(r.push(s.last()).drop_last() =~= r);
        }
    } else {
        assert(s.take(i) =~= s);
    }
}

/// Whether `keys` holds the address `k`.
pub fn contains_key(keys: &Vec<Address>, k: &Address) -> (r: bool)
    ensures
        r == keys_view(keys@).contains(k@),
{
    let mut i: usize = 0;
    while i < keys.len()
        invariant
            0 <= i <= keys@.len(),
            forall|j: int| 0 <= j < i ==> keys@[j]@ != k@,
        decreases keys@.len() - i,
    {
        if keys[i] == *k {
            assert(keys_view(keys@)[i as int] == k@);
            return true;
        }
        i = i + 1;
    }
    assert forall|j: int| 0 <= j < keys_view(keys@).len() implies keys_view(keys@)[j] != k@ by {
        assert(keys@[j]@ != k@);
    }
    false
}

/// The storage that `components` take, or `None` when it passes the largest
/// `u64`.
pub fn compute_comp_arr_max_size(components: &Vec<(Address, SerializedComponent)>) -> (r: Option<
    u64,
>)
    ensures
        r == fits_u64(total_footprint(entries_view(components@))),
{
    let ghost s = entries_view(components@);
    let mut total: u64 = 0;
    let mut i: usize = 0;
    while i < components.len()
        invariant
            0 <= i <= components@.len(),
            s == entries_view(components@),
            total == total_footprint(s.take(i as int)),
        decreases components@.len() - i,
    {
        assert(s.take(i + 1).drop_last() =~= s.take(i as int));
        let m = components[i].1.max_size;
        if m > u64::MAX - SERIALIZED_COMPONENT_EXTRA_SPACE || total > u64::MAX
            - SERIALIZED_COMPONENT_EXTRA_SPACE - m {
            proof {
                lemma_total_prefix(s, i + 1);
            }
            return None;
        }
        total = total + m + SERIALIZED_COMPONENT_EXTRA_SPACE;
        i = i + 1;
    }
    assert(s.take(i as int) =~= s);
    Some(total)
}

/// The storage that the components of `components` whose key is among
/// `removed_components` take, or `None` when it passes the largest `u64`.
pub fn get_removed_size(
    components: &Vec<(Address, SerializedComponent)>,
    removed_components: &Vec<Address>,
) -> (r: Option<u64>)
    ensures
        r == fits_u64(
            total_footprint(
                removed_part(entries_view(components@), keys_view(removed_components@)),
            ),
        ),
{
    let ghost s = entries_view(components@);
    let ghost keys = keys_view(removed_components@);
    let mut total: u64 = 0;
    let mut i: usize = 0;
    while i < components.len()
        invariant
            0 <= i <= components@.len(),
            s == entries_view(components@),
            keys == keys_view(removed_components@),
            total == total_footprint(removed_part(s.take(i as int), keys)),
        decreases components@.len() - i,
    {
        let ghost t = s.take(i + 1);
        assert(t.drop_last() =~= s.take(i as int));
        assert(t.last() == entry_view(components@[i as int]));
        if contains_key(removed_components, &components[i].0) {
            let m = components[i].1.max_size;
            let ghost r = removed_part(s.take(i as int), keys);
            assert(removed_part(t, keys).drop_last() =~= r);
            if m > u64::MAX - SERIALIZED_COMPONENT_EXTRA_SPACE || total > u64::MAX
                - SERIALIZED_COMPONENT_EXTRA_SPACE - m {
                proof {
                    lemma_removed_prefix(s, keys, i + 1);
                }
                return None;
            }
            total = total + m + SERIALIZED_COMPONENT_EXTRA_SPACE;
        }
        i = i + 1;
    }
    assert(s.take(i as int) =~= s);
    Some(total)
}

} // verus!
