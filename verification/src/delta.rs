//! Groups of objects, each stored as a delta where the window holds a good base.

use crate::codec::{DeltaCodec, DeltaModel};
use crate::errors::{ErrorView, GitError};
use crate::hash::ObjectHash;
use crate::object::{Entry, IndexEntry, ObjectType};
use crate::placement::{
    encoded_is_stored, is_sound, may_fail_with, outcome, outcome_of, settled, step, stored,
    Layout, Placed,
};
use crate::similarity::plausible;
use crate::window::{
    best_delta, choose_best_delta, chosen_view, plausible_row, plausible_rows, some_rows,
    some_rows_are_plausible, start_of_window, window_start,
};
use vstd::prelude::*;

verus! {

/// The kind under which deltas are stored.
pub open spec fn delta_kind(zstd: bool) -> ObjectType {
    if zstd {
        ObjectType::OffsetZstdelta
    } else {
        ObjectType::OffsetDelta
    }
}

/// The first `n` entries laid out, each against the best base in its window where
/// there is one; or the first error.
pub open spec fn layout(
    entries: Seq<Entry>,
    n: nat,
    window_size: usize,
    zstd: bool,
    rows: Seq<Seq<bool>>,
    model: DeltaModel,
) -> Result<Seq<Placed>, ErrorView>
    decreases n,
{
    if n == 0 {
        Ok(Seq::empty())
    } else {
        let i = n - 1;
        match layout(entries, i as nat, window_size, zstd, rows, model) {
            Err(e) => Err(e),
            Ok(placed) => match best_delta(
                settled(entries, placed),
                i,
                window_start(i, window_size),
                zstd,
                rows[i],
                model,
            ) {
                Err(e) => Err(e),
                Ok(choice) => step(entries, placed, choice, delta_kind(zstd)),
            },
        }
    }
}

/// For any algorithms that the codec follows, the first `n` entries come out as
/// expected.
pub open spec fn comes_to<
    R: Fn(&[u8], &[u8]) -> u64,
    H: Fn(&[u8], &[u8]) -> u64,
    E: Fn(&[u8], &[u8]) -> Vec<u8>,
    D: Fn(&[u8], &[u8]) -> Result<Vec<u8>, String>,
>(
    codec: DeltaCodec<R, H, E, D>,
    entries: Seq<Entry>,
    n: nat,
    window_size: usize,
    zstd: bool,
    rows: Seq<Seq<bool>>,
    expected: Result<Seq<Placed>, ErrorView>,
) -> bool {
    forall|model: DeltaModel| #[trigger]
        codec.follows(model) ==> layout(entries, n, window_size, zstd, rows, model) == expected
}

/// Every base stands in the window of the object that is stored against it.
pub open spec fn bases_in_window(placed: Seq<Placed>, window_size: usize) -> bool {
    forall|k: int|
        0 <= k < placed.len() ==> ((#[trigger] placed[k]).base matches Some(j) ==> window_start(
            k,
            window_size,
        ) <= j)
}

/// Every object is stored whole, or under the given kind of delta.
pub open spec fn deltas_are(placed: Seq<Placed>, kind: ObjectType) -> bool {
    forall|k: int|
        0 <= k < placed.len() ==> ((#[trigger] placed[k]).base is Some ==> placed[k].obj_type
            == kind)
}

/// Every base is of the same kind as the entry that is stored against it.
pub open spec fn kinds_agree(entries: Seq<Entry>, placed: Seq<Placed>) -> bool {
    forall|k: int|
        0 <= k < placed.len() ==> ((#[trigger] placed[k]).base matches Some(j)
            ==> entries[j].obj_type == entries[k].obj_type)
}

/// All entries are laid out soundly, with bases of their own kind from the window
/// only, and deltas of one kind only.
pub open spec fn is_window_layout(
    entries: Seq<Entry>,
    placed: Seq<Placed>,
    window_size: usize,
    zstd: bool,
) -> bool {
    &&& placed.len() == entries.len()
    &&& is_sound(entries, placed)
    &&& bases_in_window(placed, window_size)
    &&& kinds_agree(entries, placed)
    &&& deltas_are(placed, delta_kind(zstd))
}

/// The objects are those of a layout of all entries.
pub open spec fn has_window_layout(
    objects: Seq<(Seq<u8>, ObjectHash)>,
    entries: Seq<Entry>,
    window_size: usize,
    zstd: bool,
) -> bool {
    exists|placed: Seq<Placed>| #[trigger]
        is_window_layout(entries, placed, window_size, zstd) && objects == stored(entries, placed)
}

/// What may come out of encoding a group of entries. It is the outcome of
/// [`layout`], for some answers that the similarity test may give, if the codec
/// follows a model, and that layout is a sound one; and whatever the codec does, the
/// objects have a sound layout.
pub open spec fn is_group_outcome<
    R: Fn(&[u8], &[u8]) -> u64,
    H: Fn(&[u8], &[u8]) -> u64,
    E: Fn(&[u8], &[u8]) -> Vec<u8>,
    D: Fn(&[u8], &[u8]) -> Result<Vec<u8>, String>,
>(
    codec: DeltaCodec<R, H, E, D>,
    entries: Seq<Entry>,
    window_size: usize,
    zstd: bool,
    out: Result<Seq<(Seq<u8>, ObjectHash)>, ErrorView>,
) -> bool {
    &&& exists|rows: Seq<Seq<bool>>| #[trigger]
        plausible_rows(entries, rows) && forall|model: DeltaModel| #[trigger]
            codec.follows(model) ==> {
                let laid_out = layout(entries, entries.len(), window_size, zstd, rows, model);
                &&& out == outcome(entries, laid_out)
                &&& laid_out matches Ok(placed) ==> is_window_layout(
                    entries,
                    placed,
                    window_size,
                    zstd,
                )
            }
    &&& match out {
        Ok(objects) => has_window_layout(objects, entries, window_size, zstd),
        Err(e) => may_fail_with(entries, zstd, e),
    }
}

/// The first entries do not depend on the answers for later ones.
proof fn later_rows_do_not_matter(
    entries: Seq<Entry>,
    n: nat,
    window_size: usize,
    zstd: bool,
    rows: Seq<Seq<bool>>,
    others: Seq<Seq<bool>>,
    model: DeltaModel,
)
    requires
        forall|k: int| 0 <= k < n ==> #[trigger] rows[k] == others[k],
    ensures
        layout(entries, n, window_size, zstd, rows, model) == layout(
            entries,
            n,
            window_size,
            zstd,
            others,
            model,
        ),
    decreases n,
{
    if n > 0 {
        later_rows_do_not_matter(
            entries,
            (n - 1) as nat,
            window_size,
            zstd,
            rows,
            others,
            model,
        );
        assert(rows[n - 1] == others[n - 1]);
    }
}

/// The first error ends the work.
proof fn errors_stay(
    entries: Seq<Entry>,
    n: nat,
    m: nat,
    window_size: usize,
    zstd: bool,
    rows: Seq<Seq<bool>>,
    model: DeltaModel,
)
    requires
        n <= m,
        layout(entries, n, window_size, zstd, rows, model) is Err,
    ensures
        layout(entries, m, window_size, zstd, rows, model) == layout(
            entries,
            n,
            window_size,
            zstd,
            rows,
            model,
        ),
    decreases m,
{
    if n < m {
        errors_stay(entries, n, (m - 1) as nat, window_size, zstd, rows, model);
    }
}

/// The answers for one more entry are filled in.
proof fn one_more_entry<
    R: Fn(&[u8], &[u8]) -> u64,
    H: Fn(&[u8], &[u8]) -> u64,
    E: Fn(&[u8], &[u8]) -> Vec<u8>,
    D: Fn(&[u8], &[u8]) -> Result<Vec<u8>, String>,
>(
    codec: DeltaCodec<R, H, E, D>,
    entries: Seq<Entry>,
    placed: Seq<Placed>,
    window_size: usize,
    zstd: bool,
    rows: Seq<Seq<bool>>,
    row: Seq<bool>,
    chosen: Result<Option<(int, Seq<u8>)>, ErrorView>,
)
    requires
        placed.len() < entries.len(),
        plausible_rows(entries, rows),
        comes_to(codec, entries, placed.len(), window_size, zstd, rows, Ok(placed)),
        plausible_row(settled(entries, placed), placed.len() as int, row),
        forall|model: DeltaModel| #[trigger]
            codec.follows(model) ==> chosen == best_delta(
                settled(entries, placed),
                placed.len() as int,
                window_start(placed.len() as int, window_size),
                zstd,
                row,
                model,
            ),
    ensures
        plausible_rows(entries, rows.update(placed.len() as int, row)),
        comes_to(
            codec,
            entries,
            placed.len() + 1,
            window_size,
            zstd,
            rows.update(placed.len() as int, row),
            match chosen {
                Err(e) => Err(e),
                Ok(choice) => step(entries, placed, choice, delta_kind(zstd)),
            },
        ),
{
    let i = placed.len() as int;
    let now = settled(entries, placed);
    let filled = rows.update(i, row);
    assert forall|k: int| 0 <= k < filled.len() implies #[trigger] plausible_row(
        entries,
        k,
        filled[k],
    ) by {
        assert(plausible_row(entries, k, rows[k]));
        if k == i {
            assert forall|j: int| 0 <= j < i implies #[trigger] plausible(
                entries[j].data@,
                entries[i].data@,
                row[j],
            ) by {
                assert(plausible(now[j].data@, now[i].data@, row[j]));
            }
        }
    }
    assert forall|model: DeltaModel| #[trigger] codec.follows(model) implies layout(
        entries,
        (i + 1) as nat,
        window_size,
        zstd,
        filled,
        model,
    ) == (match chosen {
        Err(e) => Err(e),
        Ok(choice) => step(entries, placed, choice, delta_kind(zstd)),
    }) by {
        later_rows_do_not_matter(entries, i as nat, window_size, zstd, rows, filled, model);
    }
}

/// The first error is what comes out of all entries.
proof fn error_ends_it<
    R: Fn(&[u8], &[u8]) -> u64,
    H: Fn(&[u8], &[u8]) -> u64,
    E: Fn(&[u8], &[u8]) -> Vec<u8>,
    D: Fn(&[u8], &[u8]) -> Result<Vec<u8>, String>,
>(
    codec: DeltaCodec<R, H, E, D>,
    entries: Seq<Entry>,
    n: nat,
    window_size: usize,
    zstd: bool,
    rows: Seq<Seq<bool>>,
    error: ErrorView,
)
    requires
        n <= entries.len(),
        comes_to(codec, entries, n, window_size, zstd, rows, Err(error)),
    ensures
        comes_to(codec, entries, entries.len(), window_size, zstd, rows, Err(error)),
{
    assert forall|model: DeltaModel| #[trigger] codec.follows(model) implies layout(
        entries,
        entries.len(),
        window_size,
        zstd,
        rows,
        model,
    ) == Err::<Seq<Placed>, ErrorView>(error) by {
        errors_stay(entries, n, entries.len(), window_size, zstd, rows, model);
    }
}

/// Encodes a group of objects of one kind, each as a delta against an object in the
/// window before it where that is worth it.
///
/// See [`is_group_outcome`] for what comes out: objects that stand one behind the
/// other, each whole or as a delta against one of the objects before it.
pub fn try_as_offset_delta<
    R: Fn(&[u8], &[u8]) -> u64,
    H: Fn(&[u8], &[u8]) -> u64,
    E: Fn(&[u8], &[u8]) -> Vec<u8>,
    D: Fn(&[u8], &[u8]) -> Result<Vec<u8>, String>,
>(
    bucket: Vec<Entry>,
    window_size: usize,
    enable_zstdelta: bool,
    codec: &DeltaCodec<R, H, E, D>,
) -> (r: Result<Vec<(Vec<u8>, IndexEntry)>, GitError>)
    requires
        codec.total(),
        forall|k: int| 0 <= k < bucket.len() ==> !(#[trigger] bucket@[k]).obj_type.is_delta(),
    ensures
        is_group_outcome(*codec, bucket@, window_size, enable_zstdelta, outcome_of(r)),
        r matches Ok(out) ==> forall|k: int|
            0 <= k < out@.len() ==> (#[trigger] out@[k]).1.offset == 0,
{
    let ghost given = bucket@;
    let mut entries = bucket;
    let mut placing = Layout::new(Ghost(given));
    let ghost mut rows = some_rows(given);
    proof {
        some_rows_are_plausible(given);
        assert(entries@ =~= settled(given, placing.placed@));
    }
    let delta_type = if enable_zstdelta {
        ObjectType::OffsetZstdelta
    } else {
        ObjectType::OffsetDelta
    };
    let mut i: usize = 0;
    while i < entries.len()
        invariant
            codec.total(),
            given == bucket@,
            entries.len() == given.len(),
            i <= given.len(),
            placing.holds(given),
            placing.placed@.len() == i,
            bases_in_window(placing.placed@, window_size),
            kinds_agree(given, placing.placed@),
            deltas_are(placing.placed@, delta_type),
            entries@ == settled(given, placing.placed@),
            forall|k: int| 0 <= k < given.len() ==> !(#[trigger] given[k]).obj_type.is_delta(),
            delta_type == delta_kind(enable_zstdelta),
            plausible_rows(given, rows),
            comes_to(
                *codec,
                given,
                i as nat,
                window_size,
                enable_zstdelta,
                rows,
                Ok(placing.placed@),
            ),
        decreases given.len() - i,
    {
        let lo: usize = start_of_window(i, window_size);
        let ghost placed = placing.placed@;
        let choice = choose_best_delta(&entries, i, lo, enable_zstdelta, codec);
        proof {
            let row = choose|row: Seq<bool>| #[trigger]
                plausible_row(entries@, i as int, row) && forall|model: DeltaModel| #[trigger]
                    codec.follows(model) ==> chosen_view(choice) == best_delta(
                        entries@,
                        i as int,
                        lo as int,
                        enable_zstdelta,
                        row,
                        model,
                    );
            one_more_entry(
                *codec,
                given,
                placed,
                window_size,
                enable_zstdelta,
                rows,
                row,
                chosen_view(choice),
            );
            rows = rows.update(i as int, row);
        }
        let choice = match choice {
            Ok(choice) => choice,
            Err(e) => {
                proof {
                    error_ends_it(
                        *codec,
                        given,
                        (i + 1) as nat,
                        window_size,
                        enable_zstdelta,
                        rows,
                        e@,
                    );
                }
                return Err(e);
            },
        };
        match placing.place(&entries, Ghost(given), choice, delta_type) {
            Ok(chain_len) => {
                entries[i].chain_len = chain_len;
                assert(entries@ =~= settled(given, placing.placed@));
            },
            Err(e) => {
                proof {
                    error_ends_it(
                        *codec,
                        given,
                        (i + 1) as nat,
                        window_size,
                        enable_zstdelta,
                        rows,
                        e@,
                    );
                }
                return Err(e);
            },
        }
        i += 1;
    }
    let out = placing.out;
    proof {
        encoded_is_stored(out@, bucket@, placing.placed@);
        assert(is_window_layout(bucket@, placing.placed@, window_size, enable_zstdelta));
    }
    Ok(out)
}

} // verus!
