//! Which base an object is stored against: what the choice is worth.

use crate::codec::DeltaModel;
use crate::delta::{delta_kind, layout};
use crate::errors::ErrorView;
use crate::names::{
    BASENAME_DELTA_MAX_ANCHOR_SIZE, BASENAME_DELTA_MIN_COUNT, BASENAME_DELTA_MIN_SIZE,
};
use crate::object::Entry;
use crate::placement::{settled, Placed};
use crate::similarity::{
    candidate_score, is_better, CLEARLY_BETTER, MAX_CHAIN_LEN, MIN_DELTA_RATE, TIE_EPSILON,
};
use crate::window::{best_of, window_scores, window_start};
use vstd::prelude::*;

verus! {

/// A candidate gets its rate as its score exactly if it qualifies, whatever kind both
/// objects are of: both are of one kind, fewer than the most deltas rebuild the base,
/// the objects have different names, the shorter one has at least half of the bytes of
/// the longer one, the data was found similar, and the rate is high enough. Where both
/// have more than 64 bytes on average, the rate is the estimated one.
pub proof fn qualified_candidates_are_scored(
    base: Entry,
    entry: Entry,
    similar: bool,
    model: DeltaModel,
    rate: u64,
)
    requires
        (base.data@.len() + entry.data@.len()) / 2 > 64 ==> rate == (model.heuristic_encode_rate)(
            base.data@,
            entry.data@,
        ),
        (base.data@.len() + entry.data@.len()) / 2 <= 64 ==> rate == (model.encode_rate)(
            base.data@,
            entry.data@,
        ),
    ensures
        candidate_score(base, entry, similar, model) is Some <==> {
            &&& base.obj_type == entry.obj_type
            &&& base.chain_len < MAX_CHAIN_LEN
            &&& base.hash != entry.hash
            &&& 2 * base.data@.len() >= entry.data@.len()
            &&& 2 * entry.data@.len() >= base.data@.len()
            &&& similar
            &&& rate > MIN_DELTA_RATE
        },
        candidate_score(base, entry, similar, model) matches Some(score) ==> score == rate,
{
}

/// The score of a candidate does not depend on the kind that both objects share, nor
/// on their names, as long as these differ, nor on how many deltas rebuild the base, as
/// long as there can be one more.
pub proof fn scores_depend_on_data_alone(
    base: Entry,
    entry: Entry,
    other_base: Entry,
    other_entry: Entry,
    similar: bool,
    model: DeltaModel,
)
    requires
        base.obj_type == entry.obj_type,
        other_base.obj_type == other_entry.obj_type,
        base.hash != entry.hash,
        other_base.hash != other_entry.hash,
        base.chain_len < MAX_CHAIN_LEN,
        other_base.chain_len < MAX_CHAIN_LEN,
        base.data@ == other_base.data@,
        entry.data@ == other_entry.data@,
    ensures
        candidate_score(base, entry, similar, model) == candidate_score(
            other_base,
            other_entry,
            similar,
            model,
        ),
{
}

/// A candidate is better than another one exactly if its rate is clearly higher, or if
/// the rates are tied and fewer deltas rebuild it. So never are two candidates better
/// than each other.
pub proof fn better_candidates_have_clear_rates_or_fewer_deltas(
    rate: u64,
    chain_len: nat,
    other_rate: u64,
    other_chain_len: nat,
)
    ensures
        rate > other_rate + CLEARLY_BETTER ==> is_better(
            rate,
            chain_len,
            other_rate,
            other_chain_len,
        ),
        is_better(rate, chain_len, other_rate, other_chain_len) && rate <= other_rate
            + CLEARLY_BETTER ==> {
            &&& chain_len < other_chain_len
            &&& rate <= other_rate + TIE_EPSILON
            &&& other_rate <= rate + TIE_EPSILON
        },
        chain_len < other_chain_len && rate <= other_rate + TIE_EPSILON && other_rate <= rate
            + TIE_EPSILON ==> is_better(rate, chain_len, other_rate, other_chain_len),
        is_better(rate, chain_len, other_rate, other_chain_len) ==> !is_better(
            other_rate,
            other_chain_len,
            rate,
            chain_len,
        ),
{
}

/// Something is chosen exactly if any candidate has a score, and what is chosen has
/// one.
pub proof fn some_candidate_is_chosen(
    scores: Seq<Option<u64>>,
    entries: Seq<Entry>,
    lo: int,
    n: int,
)
    requires
        0 <= n <= scores.len(),
    ensures
        best_of(scores, entries, lo, n) is Some <==> exists|q: int|
            0 <= q < n && (#[trigger] scores[q]) is Some,
        best_of(scores, entries, lo, n) matches Some(k) ==> 0 <= k < n && scores[k] is Some,
    decreases n,
{
    if n > 0 {
        some_candidate_is_chosen(scores, entries, lo, n - 1);
        if exists|q: int| 0 <= q < n && (#[trigger] scores[q]) is Some {
            let q = choose|q: int| 0 <= q < n && (#[trigger] scores[q]) is Some;
            if q < n - 1 {
                assert(scores[q] is Some);
            }
        }
        if best_of(scores, entries, lo, n) is Some {
            if scores[n - 1] is Some {
            } else {
                let q = choose|q: int| 0 <= q < n - 1 && (#[trigger] scores[q]) is Some;
                assert(scores[q] is Some);
            }
        }
    }
}

/// The candidate at place `k` of the window has a rate that clearly exceeds those of all
/// other candidates.
pub open spec fn stands_out(scores: Seq<Option<u64>>, k: int, n: int) -> bool {
    &&& 0 <= k < n
    &&& scores[k] is Some
    &&& forall|q: int|
        0 <= q < n && q != k && (#[trigger] scores[q]) is Some ==> scores[k]->0 > scores[q]->0
            + CLEARLY_BETTER
}

/// A candidate whose rate clearly exceeds those of all others is chosen, wherever it
/// stands in the window and however many deltas rebuild it.
pub proof fn outstanding_candidate_is_chosen(
    scores: Seq<Option<u64>>,
    entries: Seq<Entry>,
    lo: int,
    n: int,
    k: int,
)
    requires
        n <= scores.len(),
        stands_out(scores, k, n),
    ensures
        best_of(scores, entries, lo, n) == Some(k),
    decreases n,
{
    some_candidate_is_chosen(scores, entries, lo, n - 1);
    if k < n - 1 {
        outstanding_candidate_is_chosen(scores, entries, lo, n - 1, k);
        assert(scores[n - 1] is Some ==> scores[k]->0 > scores[n - 1]->0 + CLEARLY_BETTER);
    } else {
        if let Some(b) = best_of(scores, entries, lo, n - 1) {
            assert(scores[k]->0 > scores[b]->0 + CLEARLY_BETTER);
        }
    }
}

/// The rates of any two candidates are tied.
pub open spec fn all_tied(scores: Seq<Option<u64>>, n: int) -> bool {
    forall|p: int, q: int|
        0 <= p < n && 0 <= q < n && (#[trigger] scores[p]) is Some && (#[trigger] scores[q])
            is Some ==> scores[p]->0 <= scores[q]->0 + TIE_EPSILON
}

/// Where the rates of all candidates are tied, the one that the fewest deltas rebuild is
/// chosen, and the first of several such ones.
pub proof fn fewest_deltas_win_ties(
    scores: Seq<Option<u64>>,
    entries: Seq<Entry>,
    lo: int,
    n: int,
    k: int,
    q: int,
)
    requires
        n <= scores.len(),
        all_tied(scores, n),
        best_of(scores, entries, lo, n) == Some(k),
        0 <= q < n,
        scores[q] is Some,
    ensures
        entries[lo + k].chain_len <= entries[lo + q].chain_len,
        q < k ==> entries[lo + k].chain_len < entries[lo + q].chain_len,
    decreases n,
{
    some_candidate_is_chosen(scores, entries, lo, n);
    some_candidate_is_chosen(scores, entries, lo, n - 1);
    assert(scores[q] is Some);
    if let Some(b) = best_of(scores, entries, lo, n - 1) {
        assert(scores[b]->0 <= scores[n - 1]->0 + TIE_EPSILON || scores[n - 1] is None);
        if q < n - 1 {
            fewest_deltas_win_ties(scores, entries, lo, n - 1, b, q);
        }
    }
}

/// Where equally many deltas rebuild all candidates, no rate clearly exceeds that of the
/// chosen one, and all candidates before it have lower rates.
pub proof fn rates_decide_between_equal_chains(
    scores: Seq<Option<u64>>,
    entries: Seq<Entry>,
    lo: int,
    n: int,
    k: int,
    q: int,
)
    requires
        n <= scores.len(),
        forall|p: int| 0 <= p < n ==> (#[trigger] entries[lo + p]).chain_len
            == entries[lo].chain_len,
        best_of(scores, entries, lo, n) == Some(k),
        0 <= q < n,
        scores[q] is Some,
    ensures
        scores[q]->0 <= scores[k]->0 + CLEARLY_BETTER,
        q < k ==> scores[q]->0 < scores[k]->0,
    decreases n,
{
    some_candidate_is_chosen(scores, entries, lo, n);
    some_candidate_is_chosen(scores, entries, lo, n - 1);
    assert(scores[q] is Some);
    assert(entries[lo + (n - 1)].chain_len == entries[lo].chain_len);
    if let Some(b) = best_of(scores, entries, lo, n - 1) {
        assert(entries[lo + b].chain_len == entries[lo].chain_len);
        if q < n - 1 {
            rates_decide_between_equal_chains(scores, entries, lo, n - 1, b, q);
        }
    }
}

/// No candidate behind the chosen one has a clearly higher rate, or a tied rate and
/// fewer deltas.
pub proof fn later_candidates_are_not_better(
    scores: Seq<Option<u64>>,
    entries: Seq<Entry>,
    lo: int,
    n: int,
    k: int,
    q: int,
)
    requires
        n <= scores.len(),
        best_of(scores, entries, lo, n) == Some(k),
        k < q < n,
        scores[q] is Some,
    ensures
        scores[q]->0 <= scores[k]->0 + CLEARLY_BETTER,
        scores[q]->0 <= scores[k]->0 + TIE_EPSILON && scores[k]->0 <= scores[q]->0 + TIE_EPSILON
            ==> entries[lo + k].chain_len <= entries[lo + q].chain_len,
    decreases n,
{
    some_candidate_is_chosen(scores, entries, lo, n - 1);
    if best_of(scores, entries, lo, n - 1) is None {
        some_candidate_is_chosen(scores, entries, lo, n);
    }
    if q < n - 1 {
        later_candidates_are_not_better(scores, entries, lo, n - 1, k, q);
    }
}

/// One more candidate takes the place of the chosen one exactly if its rate is clearly
/// higher, or tied with fewer deltas.
pub proof fn one_more_candidate(
    scores: Seq<Option<u64>>,
    entries: Seq<Entry>,
    lo: int,
    n: int,
    k: int,
)
    requires
        0 < n <= scores.len(),
        best_of(scores, entries, lo, n - 1) == Some(k),
        scores[n - 1] is Some,
    ensures
        ({
            let (rate, before) = (scores[n - 1]->0, scores[k]->0);
            best_of(scores, entries, lo, n) == if rate > before + CLEARLY_BETTER || (rate
                <= before + TIE_EPSILON && before <= rate + TIE_EPSILON && entries[lo + n
                - 1].chain_len < entries[lo + k].chain_len) {
                Some(n - 1)
            } else {
                Some(k)
            }
        }),
{
}

/// The window of an object holds exactly the `window_size` objects before it, or all
/// where there are fewer.
pub proof fn window_holds_the_last_objects(i: int, window_size: usize, j: int)
    requires
        0 <= i,
        0 <= j < i,
    ensures
        window_start(i, window_size) <= j <==> i - j <= window_size,
        0 <= window_start(i, window_size) <= i,
{
}

/// The object at place `j` is a candidate for the base of the object at place `k`: it is
/// one of the `window_size` objects before it and qualifies.
pub open spec fn is_candidate(
    entries: Seq<Entry>,
    placed: Seq<Placed>,
    window_size: usize,
    rows: Seq<Seq<bool>>,
    model: DeltaModel,
    j: int,
    k: int,
) -> bool {
    &&& 0 <= j < k
    &&& k - j <= window_size
    &&& entries[j].obj_type == entries[k].obj_type
    &&& placed[j].chain_len < MAX_CHAIN_LEN
    &&& entries[j].hash != entries[k].hash
    &&& 2 * entries[j].data@.len() >= entries[k].data@.len()
    &&& 2 * entries[k].data@.len() >= entries[j].data@.len()
    &&& rows[k][j]
    &&& rate_between(entries[j], entries[k], model) > MIN_DELTA_RATE
}

/// The rate of a delta between two objects, estimated where they have more than 64 bytes
/// on average.
pub open spec fn rate_between(base: Entry, entry: Entry, model: DeltaModel) -> u64 {
    if base.data@.len() + entry.data@.len() >= 130 {
        (model.heuristic_encode_rate)(base.data@, entry.data@)
    } else {
        (model.encode_rate)(base.data@, entry.data@)
    }
}

/// Candidates are scored in the window, and nothing else is.
pub proof fn candidates_have_scores(
    entries: Seq<Entry>,
    placed: Seq<Placed>,
    window_size: usize,
    rows: Seq<Seq<bool>>,
    model: DeltaModel,
    j: int,
)
    requires
        0 <= j < placed.len() < entries.len(),
        chains_are_numbers(placed),
        j >= window_start(placed.len() as int, window_size),
    ensures
        ({
            let k = placed.len() as int;
            let lo = window_start(k, window_size);
            let score = window_scores(settled(entries, placed), k, lo, rows[k], model)[j - lo];
            &&& score is Some <==> is_candidate(entries, placed, window_size, rows, model, j, k)
            &&& score is Some ==> score == Some(rate_between(entries[j], entries[k], model))
        }),
{
    let k = placed.len() as int;
    let lo = window_start(k, window_size);
    let now = settled(entries, placed);
    assert(placed[j].chain_len <= usize::MAX);
    assert(now[lo + (j - lo)] == now[j]);
    assert(now[j].data == entries[j].data && now[k].data == entries[k].data);
}

/// The numbers of deltas can be counted.
pub open spec fn chains_are_numbers(placed: Seq<Placed>) -> bool {
    forall|j: int| 0 <= j < placed.len() ==> (#[trigger] placed[j]).chain_len <= usize::MAX
}

/// The base of the object at place `k` is the best candidate. It is a candidate, and
/// there is none only if there is no candidate. A candidate whose rate clearly exceeds
/// those of all others is the base. Where all rates are tied, the base is the one that
/// the fewest deltas rebuild, and the first of those. Where equally many rebuild all, no
/// candidate has a clearly higher rate than the base.
pub open spec fn has_best_base(
    entries: Seq<Entry>,
    placed: Seq<Placed>,
    window_size: usize,
    rows: Seq<Seq<bool>>,
    model: DeltaModel,
    k: int,
) -> bool {
    match placed[k].base {
        None => forall|j: int|
            !#[trigger] is_candidate(entries, placed, window_size, rows, model, j, k),
        Some(b) => {
            &&& is_candidate(entries, placed, window_size, rows, model, b, k)
            &&& forall|j: int| #[trigger]
                is_candidate(entries, placed, window_size, rows, model, j, k) && is_clearly_best(
                    entries,
                    placed,
                    window_size,
                    rows,
                    model,
                    j,
                    k,
                ) ==> b == j
            &&& are_tied(entries, placed, window_size, rows, model, k) ==> forall|j: int|
                #[trigger]
                is_candidate(entries, placed, window_size, rows, model, j, k)
                    ==> placed[b].chain_len <= placed[j].chain_len && (j < b
                    ==> placed[b].chain_len < placed[j].chain_len)
            &&& have_equal_chains(entries, placed, window_size, rows, model, k) ==> forall|j: int|
                #[trigger]
                is_candidate(entries, placed, window_size, rows, model, j, k) ==> rate_between(
                    entries[j],
                    entries[k],
                    model,
                ) <= rate_between(entries[b], entries[k], model) + CLEARLY_BETTER
        },
    }
}

/// The rate of the candidate clearly exceeds those of all others.
pub open spec fn is_clearly_best(
    entries: Seq<Entry>,
    placed: Seq<Placed>,
    window_size: usize,
    rows: Seq<Seq<bool>>,
    model: DeltaModel,
    j: int,
    k: int,
) -> bool {
    forall|q: int|
        q != j && #[trigger] is_candidate(entries, placed, window_size, rows, model, q, k)
            ==> rate_between(entries[j], entries[k], model) > rate_between(
            entries[q],
            entries[k],
            model,
        ) + CLEARLY_BETTER
}

/// The rates of all candidates are tied.
pub open spec fn are_tied(
    entries: Seq<Entry>,
    placed: Seq<Placed>,
    window_size: usize,
    rows: Seq<Seq<bool>>,
    model: DeltaModel,
    k: int,
) -> bool {
    forall|p: int, q: int| #[trigger]
        is_candidate(entries, placed, window_size, rows, model, p, k) && #[trigger] is_candidate(
            entries,
            placed,
            window_size,
            rows,
            model,
            q,
            k,
        ) ==> rate_between(entries[p], entries[k], model) <= rate_between(
            entries[q],
            entries[k],
            model,
        ) + TIE_EPSILON
}

/// Equally many deltas rebuild all objects in the window.
pub open spec fn have_equal_chains(
    entries: Seq<Entry>,
    placed: Seq<Placed>,
    window_size: usize,
    rows: Seq<Seq<bool>>,
    model: DeltaModel,
    k: int,
) -> bool {
    forall|p: int, q: int|
        0 <= p < k && 0 <= q < k && k - p <= window_size && k - q <= window_size ==> (#[trigger]
        placed[p]).chain_len == (#[trigger] placed[q]).chain_len
}

/// The base of an object depends on the objects before it alone.
pub proof fn later_objects_do_not_matter(
    entries: Seq<Entry>,
    placed: Seq<Placed>,
    longer: Seq<Placed>,
    window_size: usize,
    rows: Seq<Seq<bool>>,
    model: DeltaModel,
    k: int,
)
    requires
        0 <= k < placed.len() <= longer.len(),
        longer.take(placed.len() as int) == placed,
        has_best_base(entries, placed, window_size, rows, model, k),
    ensures
        has_best_base(entries, longer, window_size, rows, model, k),
{
    assert forall|j: int| 0 <= j <= k implies #[trigger] longer[j] == placed[j] by {
        assert(longer.take(placed.len() as int)[j] == longer[j]);
    }
    assert forall|j: int| #[trigger]
        is_candidate(entries, longer, window_size, rows, model, j, k) == is_candidate(
            entries,
            placed,
            window_size,
            rows,
            model,
            j,
            k,
        ) by {
        if 0 <= j < k {
            assert(longer[j] == placed[j]);
        }
    }
    assert(longer[k] == placed[k]);
    if let Some(b) = placed[k].base {
        assert(longer[b] == placed[b]);
        assert forall|j: int| #[trigger]
            is_candidate(entries, longer, window_size, rows, model, j, k) && is_clearly_best(
                entries,
                longer,
                window_size,
                rows,
                model,
                j,
                k,
            ) implies b == j by {
            assert forall|q: int|
                q != j && #[trigger] is_candidate(
                    entries,
                    placed,
                    window_size,
                    rows,
                    model,
                    q,
                    k,
                ) implies rate_between(entries[j], entries[k], model) > rate_between(
                entries[q],
                entries[k],
                model,
            ) + CLEARLY_BETTER by {
                assert(is_candidate(entries, longer, window_size, rows, model, q, k));
            }
            assert(is_candidate(entries, placed, window_size, rows, model, j, k));
        }
        if are_tied(entries, longer, window_size, rows, model, k) {
            assert forall|p: int, q: int| #[trigger]
                is_candidate(entries, placed, window_size, rows, model, p, k)
                    && #[trigger] is_candidate(
                    entries,
                    placed,
                    window_size,
                    rows,
                    model,
                    q,
                    k,
                ) implies rate_between(entries[p], entries[k], model) <= rate_between(
                entries[q],
                entries[k],
                model,
            ) + TIE_EPSILON by {
                assert(is_candidate(entries, longer, window_size, rows, model, p, k));
                assert(is_candidate(entries, longer, window_size, rows, model, q, k));
            }
            assert forall|j: int| #[trigger]
                is_candidate(
                    entries,
                    longer,
                    window_size,
                    rows,
                    model,
                    j,
                    k,
                ) implies longer[b].chain_len <= longer[j].chain_len && (j < b
                ==> longer[b].chain_len < longer[j].chain_len) by {
                assert(is_candidate(entries, placed, window_size, rows, model, j, k));
                assert(longer[j] == placed[j]);
            }
        }
        if have_equal_chains(entries, longer, window_size, rows, model, k) {
            assert forall|p: int, q: int|
                0 <= p < k && 0 <= q < k && k - p <= window_size && k - q
                    <= window_size implies (#[trigger] placed[p]).chain_len == (#[trigger]
            placed[q]).chain_len by {
                assert(longer[p] == placed[p] && longer[q] == placed[q]);
            }
            assert forall|j: int| #[trigger]
                is_candidate(
                    entries,
                    longer,
                    window_size,
                    rows,
                    model,
                    j,
                    k,
                ) implies rate_between(entries[j], entries[k], model) <= rate_between(
                entries[b],
                entries[k],
                model,
            ) + CLEARLY_BETTER by {
                assert(is_candidate(entries, placed, window_size, rows, model, j, k));
            }
        }
    } else {
        assert forall|j: int|
            !#[trigger] is_candidate(entries, longer, window_size, rows, model, j, k) by {
            assert(!is_candidate(entries, placed, window_size, rows, model, j, k));
        }
    }
}

/// The best candidate of the window is the best base for the next object.
pub proof fn best_score_makes_the_best_base(
    entries: Seq<Entry>,
    placed: Seq<Placed>,
    window_size: usize,
    rows: Seq<Seq<bool>>,
    model: DeltaModel,
    next: Placed,
)
    requires
        placed.len() < entries.len(),
        chains_are_numbers(placed),
        ({
            let k = placed.len() as int;
            let lo = window_start(k, window_size);
            let now = settled(entries, placed);
            next.base == match best_of(
                window_scores(now, k, lo, rows[k], model),
                now,
                lo,
                k - lo,
            ) {
                Some(b) => Some(lo + b),
                None => None,
            }
        }),
    ensures
        has_best_base(entries, placed.push(next), window_size, rows, model, placed.len() as int),
        next.base matches Some(b) ==> window_start(placed.len() as int, window_size) <= b
            < placed.len() && placed[b].chain_len < MAX_CHAIN_LEN,
{
    let k = placed.len() as int;
    let lo = window_start(k, window_size);
    let now = settled(entries, placed);
    let scores = window_scores(now, k, lo, rows[k], model);
    let after = placed.push(next);
    let n = k - lo;
    some_candidate_is_chosen(scores, now, lo, n);
    assert forall|j: int| #[trigger]
        is_candidate(entries, after, window_size, rows, model, j, k) implies lo <= j < k
        && scores[j - lo] == Some(rate_between(entries[j], entries[k], model)) by {
        window_holds_the_last_objects(k, window_size, j);
        candidates_have_scores(entries, placed, window_size, rows, model, j);
        assert(after[j] == placed[j]);
        assert(is_candidate(entries, placed, window_size, rows, model, j, k));
    }
    assert forall|q: int| 0 <= q < n && (#[trigger] scores[q]) is Some implies is_candidate(
        entries,
        after,
        window_size,
        rows,
        model,
        lo + q,
        k,
    ) && scores[q] == Some(rate_between(entries[lo + q], entries[k], model)) by {
        candidates_have_scores(entries, placed, window_size, rows, model, lo + q);
        assert(after[lo + q] == placed[lo + q]);
    }
    if let Some(b) = best_of(scores, now, lo, n) {
        assert(scores[b] is Some);
        assert(is_candidate(entries, after, window_size, rows, model, lo + b, k));
        assert forall|j: int| 0 <= j < k implies (#[trigger] now[j]).chain_len
            == after[j].chain_len by {
            assert(after[j] == placed[j]);
            assert(placed[j].chain_len <= usize::MAX);
        }
        assert forall|j: int| #[trigger]
            is_candidate(entries, after, window_size, rows, model, j, k) && is_clearly_best(
                entries,
                after,
                window_size,
                rows,
                model,
                j,
                k,
            ) implies lo + b == j by {
            assert forall|q: int|
                0 <= q < n && q != j - lo && (#[trigger] scores[q]) is Some implies scores[j
                - lo]->0 > scores[q]->0 + CLEARLY_BETTER by {
                assert(is_candidate(entries, after, window_size, rows, model, lo + q, k));
            }
            outstanding_candidate_is_chosen(scores, now, lo, n, j - lo);
        }
        if are_tied(entries, after, window_size, rows, model, k) {
            assert forall|p: int, q: int|
                0 <= p < n && 0 <= q < n && (#[trigger] scores[p]) is Some && (#[trigger]
                scores[q]) is Some implies scores[p]->0 <= scores[q]->0 + TIE_EPSILON by {
                assert(is_candidate(entries, after, window_size, rows, model, lo + p, k));
                assert(is_candidate(entries, after, window_size, rows, model, lo + q, k));
            }
            assert forall|j: int| #[trigger]
                is_candidate(
                    entries,
                    after,
                    window_size,
                    rows,
                    model,
                    j,
                    k,
                ) implies after[lo + b].chain_len <= after[j].chain_len && (j < lo + b
                ==> after[lo + b].chain_len < after[j].chain_len) by {
                fewest_deltas_win_ties(scores, now, lo, n, b, j - lo);
                assert(now[lo + b].chain_len == after[lo + b].chain_len);
                assert(now[lo + (j - lo)].chain_len == after[j].chain_len);
            }
        }
        if have_equal_chains(entries, after, window_size, rows, model, k) {
            assert forall|p: int| 0 <= p < n implies (#[trigger] now[lo + p]).chain_len
                == now[lo].chain_len by {
                window_holds_the_last_objects(k, window_size, lo + p);
                window_holds_the_last_objects(k, window_size, lo);
                assert(after[lo + p].chain_len == after[lo].chain_len);
            }
            assert forall|j: int| #[trigger]
                is_candidate(
                    entries,
                    after,
                    window_size,
                    rows,
                    model,
                    j,
                    k,
                ) implies rate_between(entries[j], entries[k], model) <= rate_between(
                entries[lo + b],
                entries[k],
                model,
            ) + CLEARLY_BETTER by {
                rates_decide_between_equal_chains(scores, now, lo, n, b, j - lo);
            }
        }
    } else {
        assert forall|j: int|
            !#[trigger] is_candidate(entries, after, window_size, rows, model, j, k) by {
            if is_candidate(entries, after, window_size, rows, model, j, k) {
                assert(scores[j - lo] is Some);
            }
        }
    }
}

/// What is stored of the object at place `k`: the delta from its base, or where it has
/// none, all of it.
pub open spec fn stores_the_delta(
    entries: Seq<Entry>,
    placed: Seq<Placed>,
    zstd: bool,
    model: DeltaModel,
    k: int,
) -> bool {
    match placed[k].base {
        None => placed[k].data == entries[k].data@,
        Some(b) => if zstd {
            (model.zstd_diff)(entries[b].data@, entries[k].data@) == Ok::<Seq<u8>, Seq<char>>(
                placed[k].data,
            )
        } else {
            placed[k].data == (model.encode)(entries[b].data@, entries[k].data@)
        },
    }
}

/// Every object of a group is stored against the best candidate among the objects that
/// stand before it in its window, and whole only if there is no candidate.
pub proof fn group_bases_are_the_best(
    entries: Seq<Entry>,
    n: nat,
    window_size: usize,
    zstd: bool,
    rows: Seq<Seq<bool>>,
    model: DeltaModel,
    placed: Seq<Placed>,
    k: int,
)
    requires
        n <= entries.len(),
        layout(entries, n, window_size, zstd, rows, model) == Ok::<Seq<Placed>, ErrorView>(placed),
        0 <= k < n,
    ensures
        placed.len() == n,
        has_best_base(entries, placed, window_size, rows, model, k),
        stores_the_delta(entries, placed, zstd, model, k),
        placed[k].base is Some ==> placed[k].obj_type == delta_kind(zstd),
    decreases n,
{
    layout_counts_deltas(entries, n, window_size, zstd, rows, model, placed);
    let i = n - 1;
    let before = layout(entries, i as nat, window_size, zstd, rows, model)->Ok_0;
    layout_counts_deltas(entries, i as nat, window_size, zstd, rows, model, before);
    assert(placed.take(before.len() as int) =~= before);
    if k < i {
        group_bases_are_the_best(
            entries,
            i as nat,
            window_size,
            zstd,
            rows,
            model,
            before,
            k,
        );
        later_objects_do_not_matter(entries, before, placed, window_size, rows, model, k);
        assert(placed[k] == before[k]);
    } else {
        best_score_makes_the_best_base(
            entries,
            before,
            window_size,
            rows,
            model,
            placed[i],
        );
        assert(placed =~= before.push(placed[i]));
        let now = settled(entries, before);
        if let Some(b) = placed[i].base {
            assert(now[b].data == entries[b].data && now[i].data == entries[i].data);
        }
    }
}

/// A layout holds as many objects as were laid out, and counts their deltas.
proof fn layout_counts_deltas(
    entries: Seq<Entry>,
    n: nat,
    window_size: usize,
    zstd: bool,
    rows: Seq<Seq<bool>>,
    model: DeltaModel,
    placed: Seq<Placed>,
)
    requires
        n <= entries.len(),
        layout(entries, n, window_size, zstd, rows, model) == Ok::<Seq<Placed>, ErrorView>(placed),
    ensures
        placed.len() == n,
        chains_are_numbers(placed),
    decreases n,
{
    if n > 0 {
        let i = n - 1;
        let before = layout(entries, i as nat, window_size, zstd, rows, model)->Ok_0;
        layout_counts_deltas(entries, i as nat, window_size, zstd, rows, model, before);
        best_score_makes_the_best_base(
            entries,
            before,
            window_size,
            rows,
            model,
            placed[i],
        );
        assert forall|j: int| 0 <= j < placed.len() implies (#[trigger] placed[j]).chain_len
            <= usize::MAX by {
            if j < i {
                assert(placed[j] == before[j]);
            }
        }
    }
}

/// The limits of what makes a base. A rate of one half is half of the whole, which has 2
/// to the power of 53 units. Ties reach to 0.15 of the whole, which lies between the two
/// numbers of units that stand for it.
pub proof fn limits_have_their_values()
    ensures
        MAX_CHAIN_LEN == 50,
        2 * MIN_DELTA_RATE == 0x20_0000_0000_0000,
        20 * TIE_EPSILON < 3 * 0x20_0000_0000_0000,
        20 * CLEARLY_BETTER > 3 * 0x20_0000_0000_0000,
        CLEARLY_BETTER == TIE_EPSILON + 1,
        BASENAME_DELTA_MIN_COUNT == 3,
        BASENAME_DELTA_MIN_SIZE == 256,
        BASENAME_DELTA_MAX_ANCHOR_SIZE == 2 * 1024 * 1024,
{
}

} // verus!
