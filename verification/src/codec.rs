//! The delta algorithms that an encoder is used with.

use vstd::prelude::*;

verus! {

/// The algorithms that compute deltas, handed in by the user of the library. Each
/// takes the base first and the target second.
///
/// A rate says which share of the target a delta could take over from the base. It
/// is counted in units of one part in 2 to the power of 53, so that the fraction
/// `x` is the rate `x * 2^53`: every double between one half and one is a whole
/// number of these units.
pub struct DeltaCodec<R, H, E, D> {
    /// The rate of a delta.
    pub encode_rate: R,
    /// An estimate of the rate of a delta, for larger data.
    pub heuristic_encode_rate: H,
    /// A delta.
    pub encode: E,
    /// A zstd delta, or what went wrong.
    pub zstd_diff: D,
}

/// Delta algorithms as mathematical functions from base and target.
pub struct DeltaModel {
    pub encode_rate: spec_fn(Seq<u8>, Seq<u8>) -> u64,
    pub heuristic_encode_rate: spec_fn(Seq<u8>, Seq<u8>) -> u64,
    pub encode: spec_fn(Seq<u8>, Seq<u8>) -> Seq<u8>,
    pub zstd_diff: spec_fn(Seq<u8>, Seq<u8>) -> Result<Seq<u8>, Seq<char>>,
}

/// The value of a delta that may have failed.
pub open spec fn diff_view(r: Result<Vec<u8>, String>) -> Result<Seq<u8>, Seq<char>> {
    match r {
        Ok(delta) => Ok(delta@),
        Err(message) => Err(message@),
    }
}

impl<
    R: Fn(&[u8], &[u8]) -> u64,
    H: Fn(&[u8], &[u8]) -> u64,
    E: Fn(&[u8], &[u8]) -> Vec<u8>,
    D: Fn(&[u8], &[u8]) -> Result<Vec<u8>, String>,
> DeltaCodec<R, H, E, D> {
    /// The algorithms can be called on any two slices.
    pub open spec fn total(&self) -> bool {
        &&& forall|base: &[u8], target: &[u8]| #[trigger] self.encode_rate.requires((base, target))
        &&& forall|base: &[u8], target: &[u8]| #[trigger]
            self.heuristic_encode_rate.requires((base, target))
        &&& forall|base: &[u8], target: &[u8]| #[trigger] self.encode.requires((base, target))
        &&& forall|base: &[u8], target: &[u8]| #[trigger] self.zstd_diff.requires((base, target))
    }

    /// The algorithms compute the functions of the model.
    pub open spec fn follows(&self, model: DeltaModel) -> bool {
        &&& forall|base: &[u8], target: &[u8], r: u64| #[trigger]
            self.encode_rate.ensures((base, target), r) ==> r == (model.encode_rate)(
                base@,
                target@,
            )
        &&& forall|base: &[u8], target: &[u8], r: u64| #[trigger]
            self.heuristic_encode_rate.ensures((base, target), r) ==> r == (
            model.heuristic_encode_rate)(base@, target@)
        &&& forall|base: &[u8], target: &[u8], r: Vec<u8>| #[trigger]
            self.encode.ensures((base, target), r) ==> r@ == (model.encode)(base@, target@)
        &&& forall|base: &[u8], target: &[u8], r: Result<Vec<u8>, String>| #[trigger]
            self.zstd_diff.ensures((base, target), r) ==> diff_view(r) == (model.zstd_diff)(
                base@,
                target@,
            )
    }

    /// Calls the algorithm for rates.
    pub fn rate(&self, base: &[u8], target: &[u8]) -> (r: u64)
        requires
            self.total(),
        ensures
            forall|model: DeltaModel| #[trigger]
                self.follows(model) ==> r == (model.encode_rate)(base@, target@),
    {
        (self.encode_rate)(base, target)
    }

    /// Calls the algorithm for estimated rates.
    pub fn heuristic_rate(&self, base: &[u8], target: &[u8]) -> (r: u64)
        requires
            self.total(),
        ensures
            forall|model: DeltaModel| #[trigger]
                self.follows(model) ==> r == (model.heuristic_encode_rate)(base@, target@),
    {
        (self.heuristic_encode_rate)(base, target)
    }

    /// Calls the algorithm for deltas.
    pub fn delta(&self, base: &[u8], target: &[u8]) -> (r: Vec<u8>)
        requires
            self.total(),
        ensures
            forall|model: DeltaModel| #[trigger]
                self.follows(model) ==> r@ == (model.encode)(base@, target@),
    {
        (self.encode)(base, target)
    }

    /// Calls the algorithm for zstd deltas.
    pub fn diff(&self, base: &[u8], target: &[u8]) -> (r: Result<Vec<u8>, String>)
        requires
            self.total(),
        ensures
            forall|model: DeltaModel| #[trigger]
                self.follows(model) ==> diff_view(r) == (model.zstd_diff)(base@, target@),
    {
        (self.zstd_diff)(base, target)
    }
}

} // verus!
