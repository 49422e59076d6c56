//! Objects laid out one behind the other, each whole or as a delta.

use crate::errors::{ErrorView, GitError, PackEncodeReason};
use crate::hash::ObjectHash;
use crate::object::{Entry, IndexEntry, ObjectType};
use crate::packed::{encode_parts, inflates, packed_object};
use crate::similarity::MAX_CHAIN_LEN;
use vstd::prelude::*;

verus! {

/// The most bytes that the objects of a pack can take: its hash is defined for
/// fewer than 2 to the power of 64 bits.
pub const MAX_PACK_LEN: u64 = 0x1fff_ffff_ffff_ffff;

/// The most bytes that a pack can be counted with here.
pub open spec fn pack_limit() -> nat {
    if usize::MAX <= MAX_PACK_LEN {
        usize::MAX as nat
    } else {
        MAX_PACK_LEN as nat
    }
}

/// The end of `len` bytes behind `offset`, if a pack can be that long.
pub fn advance(offset: usize, len: usize) -> (r: Option<usize>)
    ensures
        match r {
            Some(end) => end == offset + len && end <= pack_limit(),
            None => offset + len > pack_limit(),
        },
{
    match offset.checked_add(len) {
        Some(end) => if end as u64 <= MAX_PACK_LEN {
            Some(end)
        } else {
            None
        },
        None => None,
    }
}

/// An object in its place.
pub struct Placed {
    /// The kind under which it is stored.
    pub obj_type: ObjectType,
    /// What is stored: the data of the object, or a delta.
    pub data: Seq<u8>,
    /// The number of deltas that rebuild it.
    pub chain_len: nat,
    /// The place of the object that it is a delta against.
    pub base: Option<int>,
    /// How far back that object starts.
    pub offset: Option<usize>,
    /// Where it starts.
    pub start: nat,
}

impl Placed {
    /// The bytes of the object.
    pub open spec fn bytes(self) -> Seq<u8> {
        packed_object(self.obj_type, self.data, self.offset)
    }

    /// Where the object ends.
    pub open spec fn end(self) -> nat {
        self.start + self.bytes().len()
    }
}

/// Where the next object goes.
pub open spec fn next_start(placed: Seq<Placed>) -> nat {
    if placed.len() == 0 {
        0
    } else {
        placed.last().end()
    }
}

/// The entries, with the number of deltas that rebuild each that has its place.
pub open spec fn settled(entries: Seq<Entry>, placed: Seq<Placed>) -> Seq<Entry> {
    Seq::new(
        entries.len(),
        |j: int|
            if j < placed.len() {
                Entry { chain_len: placed[j].chain_len as usize, ..entries[j] }
            } else {
                entries[j]
            },
    )
}

/// The place of the next entry, stored whole or as the given delta against the
/// entry at the given place.
pub open spec fn placement(
    entries: Seq<Entry>,
    placed: Seq<Placed>,
    choice: Option<(int, Seq<u8>)>,
    delta_type: ObjectType,
) -> Placed {
    let entry = entries[placed.len() as int];
    let start = next_start(placed);
    match choice {
        None => Placed {
            obj_type: entry.obj_type,
            data: entry.data@,
            chain_len: entry.chain_len as nat,
            base: None,
            offset: None,
            start,
        },
        Some((base, delta)) => Placed {
            obj_type: delta_type,
            data: delta,
            chain_len: placed[base].chain_len + 1,
            base: Some(base),
            offset: Some((start - placed[base].start) as usize),
            start,
        },
    }
}

/// The value of a choice of base and delta.
pub open spec fn choice_view(choice: Option<(usize, Vec<u8>)>) -> Option<(int, Seq<u8>)> {
    match choice {
        Some((base, delta)) => Some((base as int, delta@)),
        None => None,
    }
}

/// Lays out the next entry, or tells why that cannot be done.
pub open spec fn step(
    entries: Seq<Entry>,
    placed: Seq<Placed>,
    choice: Option<(int, Seq<u8>)>,
    delta_type: ObjectType,
) -> Result<Seq<Placed>, ErrorView> {
    let next = placement(entries, placed, choice, delta_type);
    if next.obj_type.pack_number() is None {
        Err(ErrorView::Pack(PackEncodeReason::NoPackType(next.obj_type)))
    } else if next.end() > pack_limit() {
        Err(ErrorView::Pack(PackEncodeReason::PackTooLarge))
    } else {
        Ok(placed.push(next))
    }
}

/// The object at place `k` is laid out as it should be. It starts where the one
/// before it ends, and what is stored of it can be decompressed. It is stored whole as
/// it was given; or it is a delta against an earlier object with another name, counts
/// one delta more than that object, and names the distance back to where that object
/// starts.
pub open spec fn is_sound_at(entries: Seq<Entry>, placed: Seq<Placed>, k: int) -> bool {
    let it = placed[k];
    &&& it.start == next_start(placed.take(k))
    &&& it.end() <= pack_limit()
    &&& it.obj_type.pack_number() is Some
    &&& inflates(it.data)
    &&& match it.base {
        None => {
            &&& it.obj_type == entries[k].obj_type
            &&& it.data == entries[k].data@
            &&& it.chain_len == entries[k].chain_len
            &&& it.offset is None
        },
        Some(j) => {
            &&& 0 <= j < k
            &&& it.obj_type == ObjectType::OffsetDelta || it.obj_type
                == ObjectType::OffsetZstdelta
            &&& entries[j].hash != entries[k].hash
            &&& placed[j].chain_len < MAX_CHAIN_LEN
            &&& it.chain_len == placed[j].chain_len + 1
            &&& placed[j].start < it.start
            &&& it.offset == Some((it.start - placed[j].start) as usize)
        },
    }
}

/// The first entries are laid out as they should be.
pub open spec fn is_sound(entries: Seq<Entry>, placed: Seq<Placed>) -> bool {
    &&& placed.len() <= entries.len()
    &&& forall|k: int| 0 <= k < placed.len() ==> #[trigger] is_sound_at(entries, placed, k)
}

/// The bytes and the index entries of objects that are laid out. The offsets in the
/// index are filled in when the objects are written.
pub open spec fn encodes(
    out: Seq<(Vec<u8>, IndexEntry)>,
    entries: Seq<Entry>,
    placed: Seq<Placed>,
) -> bool {
    &&& out.len() == placed.len()
    &&& forall|k: int|
        0 <= k < out.len() ==> {
            &&& (#[trigger] out[k]).0@ == placed[k].bytes()
            &&& out[k].1.hash == entries[k].hash
            &&& out[k].1.offset == 0
        }
}

/// Objects as they are stored: the bytes and the name of each.
pub open spec fn stored(entries: Seq<Entry>, placed: Seq<Placed>) -> Seq<(Seq<u8>, ObjectHash)> {
    Seq::new(placed.len(), |k: int| (placed[k].bytes(), entries[k].hash))
}

/// The bytes and the names of encoded objects.
pub open spec fn objects_of(out: Seq<(Vec<u8>, IndexEntry)>) -> Seq<(Seq<u8>, ObjectHash)> {
    Seq::new(out.len(), |k: int| (out[k].0@, out[k].1.hash))
}

/// Objects as they are stored, or the error that came in between.
pub open spec fn outcome(entries: Seq<Entry>, laid_out: Result<Seq<Placed>, ErrorView>) -> Result<
    Seq<(Seq<u8>, ObjectHash)>,
    ErrorView,
> {
    match laid_out {
        Ok(placed) => Ok(stored(entries, placed)),
        Err(e) => Err(e),
    }
}

/// The bytes and the names of encoded objects, or the error that came in between.
pub open spec fn outcome_of(r: Result<Vec<(Vec<u8>, IndexEntry)>, GitError>) -> Result<
    Seq<(Seq<u8>, ObjectHash)>,
    ErrorView,
> {
    match r {
        Ok(out) => Ok(objects_of(out@)),
        Err(e) => Err(e@),
    }
}

/// An error that may come in between, whatever the delta algorithms do: a delta
/// between two entries that fails, where deltas can fail; an entry of a kind that no
/// pack holds; or objects that take more bytes than a pack can have.
pub open spec fn may_fail_with(entries: Seq<Entry>, zstd: bool, error: ErrorView) -> bool {
    match error {
        ErrorView::Delta(_) => zstd && entries.len() >= 2,
        ErrorView::Pack(PackEncodeReason::NoPackType(kind)) => kind.pack_number() is None
            && exists|k: int|
            0 <= k < entries.len() && (#[trigger] entries[k]).obj_type == kind,
        ErrorView::Pack(PackEncodeReason::PackTooLarge) => entries.len() >= 1,
        _ => false,
    }
}

/// Objects that are encoded as they are laid out are the objects that are stored.
pub proof fn encoded_is_stored(
    out: Seq<(Vec<u8>, IndexEntry)>,
    entries: Seq<Entry>,
    placed: Seq<Placed>,
)
    requires
        encodes(out, entries, placed),
    ensures
        objects_of(out) == stored(entries, placed),
{
    assert(objects_of(out) =~= stored(entries, placed));
}

/// Every object takes at least one byte.
pub proof fn objects_have_bytes(p: Placed)
    ensures
        p.bytes().len() >= 1,
{
}

/// Objects start the later the later they stand, behind the end of those before.
pub proof fn starts_increase(entries: Seq<Entry>, placed: Seq<Placed>, j: int, k: int)
    requires
        is_sound(entries, placed),
        0 <= j < k < placed.len(),
    ensures
        placed[j].end() <= placed[k].start,
        placed[j].start < placed[k].start,
    decreases k - j,
{
    objects_have_bytes(placed[j]);
    objects_have_bytes(placed[k - 1]);
    assert(is_sound_at(entries, placed, k));
    assert(placed.take(k).last() == placed[k - 1]);
    if j < k - 1 {
        starts_increase(entries, placed, j, k - 1);
    }
}

/// Every object starts before the place of the next one.
pub proof fn starts_before_next(entries: Seq<Entry>, placed: Seq<Placed>, j: int)
    requires
        is_sound(entries, placed),
        0 <= j < placed.len(),
    ensures
        placed[j].start < next_start(placed),
{
    objects_have_bytes(placed[j]);
    objects_have_bytes(placed.last());
    if j < placed.len() - 1 {
        starts_increase(entries, placed, j, placed.len() - 1);
    }
}

/// Laying out one more entry keeps the layout as it should be.
pub proof fn step_is_sound(
    entries: Seq<Entry>,
    placed: Seq<Placed>,
    choice: Option<(int, Seq<u8>)>,
    delta_type: ObjectType,
)
    requires
        is_sound(entries, placed),
        placed.len() < entries.len(),
        choice is Some ==> delta_type == ObjectType::OffsetDelta || delta_type
            == ObjectType::OffsetZstdelta,
        choice matches Some((base, _)) ==> 0 <= base < placed.len() && placed[base].chain_len
            < MAX_CHAIN_LEN && entries[base].hash != entries[placed.len() as int].hash,
        step(entries, placed, choice, delta_type) is Ok,
        inflates(placement(entries, placed, choice, delta_type).data),
    ensures
        is_sound(entries, step(entries, placed, choice, delta_type)->Ok_0),
{
    let next = placement(entries, placed, choice, delta_type);
    let after = placed.push(next);
    assert forall|k: int| 0 <= k < after.len() implies #[trigger] is_sound_at(
        entries,
        after,
        k,
    ) by {
        if k < placed.len() {
            assert(is_sound_at(entries, placed, k));
            assert(after.take(k) =~= placed.take(k));
        } else {
            assert(after.take(k) =~= placed);
            if let Some((base, _)) = choice {
                starts_before_next(entries, placed, base);
            }
        }
    }
}

/// Objects that are being laid out.
pub struct Layout {
    /// The bytes and the index entry of each object.
    pub out: Vec<(Vec<u8>, IndexEntry)>,
    /// Where each object starts.
    pub starts: Vec<usize>,
    /// Where the next object goes.
    pub next: usize,
    /// The objects in their places.
    pub placed: Ghost<Seq<Placed>>,
}

impl Layout {
    /// The layout agrees with the places that it records.
    pub open spec fn holds(self, entries: Seq<Entry>) -> bool {
        &&& is_sound(entries, self.placed@)
        &&& encodes(self.out@, entries, self.placed@)
        &&& self.starts.len() == self.placed@.len()
        &&& forall|k: int|
            0 <= k < self.starts.len() ==> #[trigger] self.starts@[k] == self.placed@[k].start
        &&& self.next == next_start(self.placed@)
    }

    /// Nothing is laid out yet.
    pub fn new(Ghost(entries): Ghost<Seq<Entry>>) -> (r: Self)
        ensures
            r.holds(entries),
            r.placed@ == Seq::<Placed>::empty(),
    {
        Layout { out: Vec::new(), starts: Vec::new(), next: 0, placed: Ghost(Seq::empty()) }
    }

    /// Lays out the next entry, whole or as a delta against an earlier one, and
    /// counts the deltas that rebuild it.
    pub fn place(
        &mut self,
        entries: &Vec<Entry>,
        Ghost(given): Ghost<Seq<Entry>>,
        choice: Option<(usize, Vec<u8>)>,
        delta_type: ObjectType,
    ) -> (r: Result<usize, GitError>)
        requires
            old(self).holds(given),
            entries@ == settled(given, old(self).placed@),
            old(self).placed@.len() < entries.len(),
            !entries@[old(self).placed@.len() as int].obj_type.is_delta(),
            choice is Some ==> delta_type == ObjectType::OffsetDelta || delta_type
                == ObjectType::OffsetZstdelta,
            choice matches Some((base, _)) ==> base < old(self).placed@.len()
                && entries@[base as int].chain_len < MAX_CHAIN_LEN && entries@[base as int].hash
                != entries@[old(self).placed@.len() as int].hash,
        ensures
            match (r, step(given, old(self).placed@, choice_view(choice), delta_type)) {
                (Ok(chain_len), Ok(placed)) => {
                    &&& final(self).placed@ == placed
                    &&& final(self).holds(given)
                    &&& chain_len == placed.last().chain_len
                },
                (Err(e), Err(f)) => e@ == f,
                _ => false,
            },
    {
        let i: usize = self.starts.len();
        let entry = &entries[i];
        let hash = entry.hash;
        let ghost before = self.placed@;
        let ghost chosen = choice_view(choice);
        let ghost next = placement(given, before, chosen, delta_type);
        let (encoded, chain_len) = match choice {
            Some((base, delta)) => {
                proof {
                    starts_before_next(given, before, base as int);
                    assert(is_sound_at(given, before, base as int));
                }
                let distance: usize = self.next - self.starts[base];
                (
                    encode_parts(delta_type, delta.as_slice(), Some(distance)),
                    entries[base].chain_len + 1,
                )
            },
            None => (encode_parts(entry.obj_type, entry.data.as_slice(), None), entry.chain_len),
        };
        let bytes: Vec<u8> = match encoded {
            Ok(bytes) => bytes,
            Err(e) => {
                return Err(e);
            },
        };
        assert(bytes@ == next.bytes());
        match advance(self.next, bytes.len()) {
            Some(end) => {
                self.out.push((bytes, IndexEntry::new(entry, 0)));
                self.starts.push(self.next);
                self.next = end;
                self.placed = Ghost(before.push(next));
                proof {
                    step_is_sound(given, before, chosen, delta_type);
                }
                Ok(chain_len)
            },
            None => Err(GitError::PackEncodeError(PackEncodeReason::PackTooLarge)),
        }
    }
}

} // verus!
