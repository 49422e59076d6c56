//! The bytes of a pack as a stream of chunks, and where the objects stand in it.

use crate::hash::ObjectHash;
use crate::object::{Entry, IndexEntry};
use crate::placement::{is_sound, is_sound_at, next_start, pack_limit, stored, Placed};
use vstd::prelude::*;

verus! {

/// Chunks one behind the other.
pub open spec fn flat(chunks: Seq<Seq<u8>>) -> Seq<u8>
    decreases chunks.len(),
{
    if chunks.len() == 0 {
        Seq::empty()
    } else {
        flat(chunks.drop_last()) + chunks.last()
    }
}

/// Where a chunk starts.
pub open spec fn start_of(chunks: Seq<Seq<u8>>, k: int) -> nat {
    flat(chunks.take(k)).len()
}

/// How many of the chunks, from the first on, can go behind `offset` bytes before
/// the pack would be longer than a pack can be.
pub open spec fn fitting(offset: nat, chunks: Seq<Seq<u8>>) -> nat
    decreases chunks.len(),
{
    if chunks.len() == 0 {
        0
    } else {
        let before = fitting(offset, chunks.drop_last());
        if before == chunks.len() - 1 && offset + flat(chunks).len() <= pack_limit() {
            chunks.len()
        } else {
            before
        }
    }
}

/// The bytes of objects.
pub open spec fn bytes_of(objects: Seq<(Seq<u8>, ObjectHash)>) -> Seq<Seq<u8>> {
    Seq::new(objects.len(), |k: int| objects[k].0)
}

/// The index entries of objects that are written one behind the other.
pub open spec fn indexed(objects: Seq<(Seq<u8>, ObjectHash)>, offset: nat) -> Seq<IndexEntry> {
    Seq::new(
        objects.len(),
        |k: int|
            IndexEntry {
                hash: objects[k].1,
                offset: (offset + start_of(bytes_of(objects), k)) as u64,
            },
    )
}

/// Chunks behind chunks are bytes behind bytes.
pub proof fn flat_of_both(a: Seq<Seq<u8>>, b: Seq<Seq<u8>>)
    ensures
        flat(a + b) == flat(a) + flat(b),
    decreases b.len(),
{
    if b.len() == 0 {
        assert(a + b =~= a);
        assert(flat(a) + flat(b) =~= flat(a));
    } else {
        flat_of_both(a, b.drop_last());
        assert((a + b).drop_last() =~= a + b.drop_last());
        assert(flat(a + b) =~= flat(a) + flat(b));
    }
}

/// The bytes of one chunk.
pub proof fn flat_of_one(chunk: Seq<u8>)
    ensures
        flat(seq![chunk]) == chunk,
{
    let none = Seq::<Seq<u8>>::empty();
    assert(seq![chunk].drop_last() =~= none);
    assert(flat(none) =~= Seq::empty());
    assert(flat(seq![chunk]) =~= chunk);
}

/// No more chunks fit than there are.
pub proof fn fitting_is_bounded(offset: nat, chunks: Seq<Seq<u8>>)
    ensures
        fitting(offset, chunks) <= chunks.len(),
    decreases chunks.len(),
{
    if chunks.len() > 0 {
        fitting_is_bounded(offset, chunks.drop_last());
    }
}

/// The chunks that fit do not depend on what follows once one does not fit.
pub proof fn fitting_stops(offset: nat, chunks: Seq<Seq<u8>>, n: int)
    requires
        0 <= n <= chunks.len(),
        fitting(offset, chunks.take(n)) < n,
    ensures
        fitting(offset, chunks) == fitting(offset, chunks.take(n)),
    decreases chunks.len(),
{
    if n < chunks.len() {
        assert(chunks.drop_last().take(n) =~= chunks.take(n));
        fitting_stops(offset, chunks.drop_last(), n);
    } else {
        assert(chunks.take(n) =~= chunks);
    }
}

/// One more chunk behind chunks that all fit.
pub proof fn fitting_one_more(offset: nat, chunks: Seq<Seq<u8>>, n: int)
    requires
        0 <= n < chunks.len(),
        fitting(offset, chunks.take(n)) == n,
    ensures
        flat(chunks.take(n + 1)) == flat(chunks.take(n)) + chunks[n],
        offset + flat(chunks.take(n)).len() + chunks[n].len() <= pack_limit() ==> fitting(
            offset,
            chunks.take(n + 1),
        ) == n + 1,
        offset + flat(chunks.take(n)).len() + chunks[n].len() > pack_limit() ==> fitting(
            offset,
            chunks,
        ) == n,
{
    let more = chunks.take(n + 1);
    assert(more.drop_last() =~= chunks.take(n));
    if offset + flat(chunks.take(n)).len() + chunks[n].len() > pack_limit() {
        fitting_stops(offset, chunks, n + 1);
    }
}

/// All chunks fit exactly if the whole is not too long.
pub proof fn all_fit(offset: nat, chunks: Seq<Seq<u8>>)
    requires
        offset <= pack_limit(),
    ensures
        fitting(offset, chunks) == chunks.len() <==> offset + flat(chunks).len() <= pack_limit(),
    decreases chunks.len(),
{
    fitting_is_bounded(offset, chunks);
    if chunks.len() > 0 {
        all_fit(offset, chunks.drop_last());
        fitting_is_bounded(offset, chunks.drop_last());
    }
}

/// A chunk stands in the bytes where it starts.
pub proof fn chunk_stands_at_its_start(chunks: Seq<Seq<u8>>, k: int)
    requires
        0 <= k < chunks.len(),
    ensures
        start_of(chunks, k) + chunks[k].len() <= flat(chunks).len(),
        flat(chunks).subrange(
            start_of(chunks, k) as int,
            (start_of(chunks, k) + chunks[k].len()) as int,
        ) == chunks[k],
{
    let before = chunks.take(k);
    let with = chunks.take(k + 1);
    let after = chunks.skip(k + 1);
    assert(with.drop_last() =~= before);
    assert(with + after =~= chunks);
    flat_of_both(with, after);
    assert(flat(chunks).subrange(
        start_of(chunks, k) as int,
        (start_of(chunks, k) + chunks[k].len()) as int,
    ) =~= chunks[k]);
}

/// In a sound layout every object starts where the bytes of the objects before it
/// end.
pub proof fn places_are_starts(entries: Seq<Entry>, placed: Seq<Placed>, k: int)
    requires
        is_sound(entries, placed),
        0 <= k <= placed.len(),
    ensures
        start_of(bytes_of(stored(entries, placed)), k) == next_start(placed.take(k)),
        k < placed.len() ==> start_of(bytes_of(stored(entries, placed)), k) == placed[k].start,
    decreases k,
{
    let chunks = bytes_of(stored(entries, placed));
    if k > 0 {
        places_are_starts(entries, placed, k - 1);
        assert(chunks.take(k).drop_last() =~= chunks.take(k - 1));
        assert(placed.take(k).last() == placed[k - 1]);
    } else {
        assert(chunks.take(0) =~= Seq::empty());
    }
    if k < placed.len() {
        assert(is_sound_at(entries, placed, k));
    }
}

/// The distance that a delta names leads from where the delta starts back to where
/// its base starts, wherever in a pack the objects are written.
pub proof fn distance_leads_to_base(
    entries: Seq<Entry>,
    placed: Seq<Placed>,
    offset: nat,
    k: int,
)
    requires
        is_sound(entries, placed),
        placed.len() == entries.len(),
        0 <= k < placed.len(),
        placed[k].base is Some,
        offset + flat(bytes_of(stored(entries, placed))).len() <= pack_limit(),
    ensures
        ({
            let index = indexed(stored(entries, placed), offset);
            &&& 0 <= placed[k].base->0 < k
            &&& placed[k].offset is Some
            &&& placed[k].offset->0 > 0
            &&& index[k].offset - placed[k].offset->0 == index[placed[k].base->0].offset
        }),
{
    let j = placed[k].base->0;
    let chunks = bytes_of(stored(entries, placed));
    assert(is_sound_at(entries, placed, k));
    places_are_starts(entries, placed, k);
    places_are_starts(entries, placed, j);
    chunk_stands_at_its_start(chunks, k);
    chunk_stands_at_its_start(chunks, j);
}

/// The offset in the index is where the object stands: the bytes there are those of
/// the object. `above` is what the pack holds before the objects.
pub proof fn index_leads_to_objects(
    above: Seq<u8>,
    objects: Seq<(Seq<u8>, ObjectHash)>,
    below: Seq<u8>,
    k: int,
)
    requires
        0 <= k < objects.len(),
        above.len() + flat(bytes_of(objects)).len() <= pack_limit(),
    ensures
        ({
            let pack = above + flat(bytes_of(objects)) + below;
            let index = indexed(objects, above.len());
            &&& index[k].hash == objects[k].1
            &&& index[k].offset + objects[k].0.len() <= pack.len()
            &&& pack.subrange(
                index[k].offset as int,
                index[k].offset + objects[k].0.len(),
            ) == objects[k].0
        }),
{
    let chunks = bytes_of(objects);
    let pack = above + flat(chunks) + below;
    let index = indexed(objects, above.len());
    chunk_stands_at_its_start(chunks, k);
    assert(pack.subrange(index[k].offset as int, index[k].offset + objects[k].0.len())
        =~= flat(chunks).subrange(
        start_of(chunks, k) as int,
        (start_of(chunks, k) + chunks[k].len()) as int,
    ));
}

/// The index of a part of the objects is a part of the index.
pub proof fn index_of_part(
    before: Seq<(Seq<u8>, ObjectHash)>,
    part: Seq<(Seq<u8>, ObjectHash)>,
    after: Seq<(Seq<u8>, ObjectHash)>,
    offset: nat,
    k: int,
)
    requires
        0 <= k < part.len(),
    ensures
        indexed(before + part + after, offset)[before.len() + k] == indexed(
            part,
            offset + flat(bytes_of(before)).len(),
        )[k],
{
    let all = bytes_of(before + part + after);
    let head = bytes_of(before);
    assert(all.take(before.len() + k) =~= head + bytes_of(part).take(k));
    flat_of_both(head, bytes_of(part).take(k));
}

} // verus!
