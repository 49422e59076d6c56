//! The window of objects that a new object is compared with.

use crate::codec::{DeltaCodec, DeltaModel};
use crate::errors::{ErrorView, GitError};
use crate::object::Entry;
use crate::similarity::{
    can_be_base, candidate_is_better, candidate_score, is_better, plausible,
    score_delta_candidate, some_answer_is_plausible,
};
use vstd::prelude::*;

verus! {

/// Where the window of the object at place `i` starts. It ends at `i`.
pub open spec fn window_start(i: int, window_size: usize) -> int {
    if i <= window_size {
        0
    } else {
        i - window_size
    }
}

/// Where the window of the object at place `i` starts.
pub fn start_of_window(i: usize, window_size: usize) -> (r: usize)
    ensures
        r == window_start(i as int, window_size),
        r <= i,
{
    if i <= window_size {
        0
    } else {
        i - window_size
    }
}

/// Answers that the similarity test may give for the entry at place `i` and each
/// entry before it.
pub open spec fn plausible_row(entries: Seq<Entry>, i: int, row: Seq<bool>) -> bool {
    &&& row.len() == i
    &&& forall|j: int|
        0 <= j < i ==> #[trigger] plausible(entries[j].data@, entries[i].data@, row[j])
}

/// Answers that the similarity test may give for each entry and each one before it.
pub open spec fn plausible_rows(entries: Seq<Entry>, rows: Seq<Seq<bool>>) -> bool {
    &&& rows.len() == entries.len()
    &&& forall|i: int| 0 <= i < rows.len() ==> #[trigger] plausible_row(entries, i, rows[i])
}

/// Some answers for the entry at place `i`.
pub open spec fn some_row(entries: Seq<Entry>, i: int) -> Seq<bool> {
    Seq::new(
        i as nat,
        |j: int|
            choose|similar: bool| #[trigger]
                plausible(entries[j].data@, entries[i].data@, similar),
    )
}

/// Some answers for all entries.
pub open spec fn some_rows(entries: Seq<Entry>) -> Seq<Seq<bool>> {
    Seq::new(entries.len(), |i: int| some_row(entries, i))
}

/// There are answers that may be given.
pub proof fn some_row_is_plausible(entries: Seq<Entry>, i: int)
    requires
        0 <= i < entries.len(),
    ensures
        plausible_row(entries, i, some_row(entries, i)),
{
    assert forall|j: int| 0 <= j < i implies #[trigger] plausible(
        entries[j].data@,
        entries[i].data@,
        some_row(entries, i)[j],
    ) by {
        some_answer_is_plausible(entries[j].data@, entries[i].data@);
    }
}

/// There are answers that may be given.
pub proof fn some_rows_are_plausible(entries: Seq<Entry>)
    ensures
        plausible_rows(entries, some_rows(entries)),
{
    assert forall|i: int| 0 <= i < entries.len() implies #[trigger] plausible_row(
        entries,
        i,
        some_rows(entries)[i],
    ) by {
        some_row_is_plausible(entries, i);
    }
}

/// The scores of the entries from place `lo` on as bases of the entry at place `i`.
pub open spec fn window_scores(
    entries: Seq<Entry>,
    i: int,
    lo: int,
    row: Seq<bool>,
    model: DeltaModel,
) -> Seq<Option<u64>> {
    Seq::new(
        (i - lo) as nat,
        |k: int| candidate_score(entries[lo + k], entries[i], row[lo + k], model),
    )
}

/// Scores the entries from place `lo` on as bases of the entry at place `i`.
pub fn score_window<
    R: Fn(&[u8], &[u8]) -> u64,
    H: Fn(&[u8], &[u8]) -> u64,
    E: Fn(&[u8], &[u8]) -> Vec<u8>,
    D: Fn(&[u8], &[u8]) -> Result<Vec<u8>, String>,
>(entries: &Vec<Entry>, i: usize, lo: usize, codec: &DeltaCodec<R, H, E, D>) -> (r: Vec<
    Option<u64>,
>)
    requires
        codec.total(),
        lo <= i < entries.len(),
    ensures
        r.len() == i - lo,
        exists|row: Seq<bool>| #[trigger]
            plausible_row(entries@, i as int, row) && forall|model: DeltaModel| #[trigger]
                codec.follows(model) ==> r@ == window_scores(
                    entries@,
                    i as int,
                    lo as int,
                    row,
                    model,
                ),
        forall|k: int|
            0 <= k < r.len() && (#[trigger] r@[k]) is Some ==> can_be_base(
                entries@[lo + k],
                entries@[i as int],
            ),
{
    let mut scores: Vec<Option<u64>> = Vec::new();
    let ghost mut row = some_row(entries@, i as int);
    proof {
        some_row_is_plausible(entries@, i as int);
    }
    let mut j: usize = lo;
    while j < i
        invariant
            codec.total(),
            lo <= j <= i < entries.len(),
            scores.len() == j - lo,
            plausible_row(entries@, i as int, row),
            forall|model: DeltaModel, k: int|
                #![trigger codec.follows(model), scores@[k]]
                codec.follows(model) && 0 <= k < scores.len() ==> scores@[k] == candidate_score(
                    entries@[lo + k],
                    entries@[i as int],
                    row[lo + k],
                    model,
                ),
            forall|k: int|
                0 <= k < scores.len() && (#[trigger] scores@[k]) is Some ==> can_be_base(
                    entries@[lo + k],
                    entries@[i as int],
                ),
        decreases i - j,
    {
        let score = score_delta_candidate(&entries[j], &entries[i], codec);
        proof {
            let base = entries@[j as int];
            let entry = entries@[i as int];
            let similar = choose|similar: bool| #[trigger]
                plausible(base.data@, entry.data@, similar) && forall|model: DeltaModel| #[trigger]
                    codec.follows(model) ==> score == candidate_score(base, entry, similar, model);
            let before = row;
            row = row.update(j as int, similar);
            assert forall|k: int| 0 <= k < i implies #[trigger] plausible(
                entries@[k].data@,
                entries@[i as int].data@,
                row[k],
            ) by {
                assert(plausible(entries@[k].data@, entries@[i as int].data@, before[k]));
            }
        }
        scores.push(score);
        j += 1;
    }
    proof {
        assert forall|model: DeltaModel| #[trigger] codec.follows(model) implies scores@
            == window_scores(entries@, i as int, lo as int, row, model) by {
            assert(scores@ =~= window_scores(entries@, i as int, lo as int, row, model));
        }
        assert(plausible_row(entries@, i as int, row));
    }
    scores
}

/// The place in the window of the best of the first `n` candidates.
pub open spec fn best_of(scores: Seq<Option<u64>>, entries: Seq<Entry>, lo: int, n: int) -> Option<
    int,
>
    decreases n,
{
    if n <= 0 {
        None
    } else {
        let best = best_of(scores, entries, lo, n - 1);
        match (scores[n - 1], best) {
            (None, _) => best,
            (Some(_), None) => Some(n - 1),
            (Some(rate), Some(k)) => if is_better(
                rate,
                entries[lo + n - 1].chain_len as nat,
                scores[k]->0,
                entries[lo + k].chain_len as nat,
            ) {
                Some(n - 1)
            } else {
                best
            },
        }
    }
}

/// Finds the best candidate in a window. Its place counts from the start of the
/// window.
pub fn best_candidate(scores: &Vec<Option<u64>>, entries: &Vec<Entry>, lo: usize) -> (r: Option<
    usize,
>)
    requires
        lo + scores.len() <= entries.len(),
    ensures
        match r {
            Some(k) => {
                &&& best_of(scores@, entries@, lo as int, scores@.len() as int) == Some(k as int)
                &&& k < scores.len()
                &&& scores@[k as int] is Some
            },
            None => best_of(scores@, entries@, lo as int, scores@.len() as int) is None,
        },
{
    let mut best: Option<(usize, u64)> = None;
    let mut k: usize = 0;
    while k < scores.len()
        invariant
            k <= scores.len(),
            lo + scores.len() <= entries.len(),
            match best {
                Some((b, rate)) => {
                    &&& best_of(scores@, entries@, lo as int, k as int) == Some(b as int)
                    &&& b < k
                    &&& scores@[b as int] == Some(rate)
                },
                None => best_of(scores@, entries@, lo as int, k as int) is None,
            },
        decreases scores.len() - k,
    {
        if let Some(rate) = scores[k] {
            match best {
                None => {
                    best = Some((k, rate));
                },
                Some((b, best_rate)) => {
                    if candidate_is_better(rate, &entries[lo + k], best_rate, &entries[lo + b]) {
                        best = Some((k, rate));
                    }
                },
            }
        }
        k += 1;
    }
    match best {
        Some((b, _)) => Some(b),
        None => None,
    }
}

/// What is reported when a zstd delta cannot be computed.
pub open spec fn diff_failed(message: Seq<char>) -> ErrorView {
    ErrorView::Delta("zstdelta diff failed: "@ + message)
}

/// Reports that a zstd delta could not be computed.
pub fn diff_error(message: String) -> (r: GitError)
    ensures
        r@ == diff_failed(message@),
{
    let mut text = "zstdelta diff failed: ".to_owned();
    text.append(message.as_str());
    GitError::DeltaObjectError(text)
}

/// The zstd delta of two entries.
pub open spec fn zstd_delta(base: Entry, entry: Entry, model: DeltaModel) -> Result<
    Seq<u8>,
    ErrorView,
> {
    match (model.zstd_diff)(base.data@, entry.data@) {
        Ok(delta) => Ok(delta),
        Err(message) => Err(diff_failed(message)),
    }
}

/// The value of a delta or an error.
pub open spec fn delta_view(r: Result<Vec<u8>, GitError>) -> Result<Seq<u8>, ErrorView> {
    match r {
        Ok(delta) => Ok(delta@),
        Err(e) => Err(e@),
    }
}

/// Computes the zstd delta of two entries.
pub fn zstd_delta_of<
    R: Fn(&[u8], &[u8]) -> u64,
    H: Fn(&[u8], &[u8]) -> u64,
    E: Fn(&[u8], &[u8]) -> Vec<u8>,
    D: Fn(&[u8], &[u8]) -> Result<Vec<u8>, String>,
>(base: &Entry, entry: &Entry, codec: &DeltaCodec<R, H, E, D>) -> (r: Result<Vec<u8>, GitError>)
    requires
        codec.total(),
    ensures
        forall|model: DeltaModel| #[trigger]
            codec.follows(model) ==> delta_view(r) == zstd_delta(*base, *entry, model),
        r matches Err(e) ==> e@ is Delta,
{
    match codec.diff(base.data.as_slice(), entry.data.as_slice()) {
        Ok(delta) => Ok(delta),
        Err(message) => Err(diff_error(message)),
    }
}

/// The delta of two entries, of one kind or the other.
pub open spec fn delta_of(base: Entry, entry: Entry, zstd: bool, model: DeltaModel) -> Result<
    Seq<u8>,
    ErrorView,
> {
    if zstd {
        zstd_delta(base, entry, model)
    } else {
        Ok((model.encode)(base.data@, entry.data@))
    }
}

/// The base with the best score in the window that starts at `lo`, and the delta
/// against it. Nothing if no entry in the window makes a base.
pub open spec fn best_delta(
    entries: Seq<Entry>,
    i: int,
    lo: int,
    zstd: bool,
    row: Seq<bool>,
    model: DeltaModel,
) -> Result<Option<(int, Seq<u8>)>, ErrorView> {
    match best_of(window_scores(entries, i, lo, row, model), entries, lo, i - lo) {
        None => Ok(None),
        Some(k) => match delta_of(entries[lo + k], entries[i], zstd, model) {
            Ok(delta) => Ok(Some((lo + k, delta))),
            Err(e) => Err(e),
        },
    }
}

/// The value of a choice of base and delta, or of an error.
pub open spec fn chosen_view(r: Result<Option<(usize, Vec<u8>)>, GitError>) -> Result<
    Option<(int, Seq<u8>)>,
    ErrorView,
> {
    match r {
        Ok(Some((base, delta))) => Ok(Some((base as int, delta@))),
        Ok(None) => Ok(None),
        Err(e) => Err(e@),
    }
}

/// Picks the base with the best score in the window that starts at `lo`, and
/// computes the delta against it.
pub fn choose_best_delta<
    R: Fn(&[u8], &[u8]) -> u64,
    H: Fn(&[u8], &[u8]) -> u64,
    E: Fn(&[u8], &[u8]) -> Vec<u8>,
    D: Fn(&[u8], &[u8]) -> Result<Vec<u8>, String>,
>(
    entries: &Vec<Entry>,
    i: usize,
    lo: usize,
    zstd: bool,
    codec: &DeltaCodec<R, H, E, D>,
) -> (r: Result<Option<(usize, Vec<u8>)>, GitError>)
    requires
        codec.total(),
        lo <= i < entries.len(),
    ensures
        exists|row: Seq<bool>| #[trigger]
            plausible_row(entries@, i as int, row) && forall|model: DeltaModel| #[trigger]
                codec.follows(model) ==> chosen_view(r) == best_delta(
                    entries@,
                    i as int,
                    lo as int,
                    zstd,
                    row,
                    model,
                ),
        r matches Ok(Some((base, _))) ==> lo <= base < i && can_be_base(
            entries@[base as int],
            entries@[i as int],
        ),
        r matches Err(e) ==> zstd && lo < i && e@ is Delta,
{
    let scores = score_window(entries, i, lo, codec);
    match best_candidate(&scores, entries, lo) {
        None => Ok(None),
        Some(k) => {
            let base: usize = lo + k;
            if zstd {
                match zstd_delta_of(&entries[base], &entries[i], codec) {
                    Ok(delta) => Ok(Some((base, delta))),
                    Err(e) => Err(e),
                }
            } else {
                Ok(
                    Some(
                        (
                            base,
                            codec.delta(entries[base].data.as_slice(), entries[i].data.as_slice()),
                        ),
                    ),
                )
            }
        },
    }
}

} // verus!
