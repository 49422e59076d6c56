//! Encoder for Git pack files: object entries go in, the byte stream of a
//! `.pack` file and the index entries that point into it come out.
//!
//! With a window, entries are grouped by kind, ordered so that similar objects
//! stand next to each other, and stored as deltas against an earlier object
//! where that pays off. Without a window every object is stored whole.

pub mod blobs;
pub mod choices;
pub mod codec;
pub mod decode;
pub mod delta;
pub mod digest;
pub mod encoder;
pub mod errors;
pub mod files;
pub mod first_paths;
pub mod format;
pub mod groups;
pub mod hash;
pub mod infer;
pub mod laws;
pub mod names;
pub mod object;
pub mod order;
pub mod packed;
pub mod parallel;
pub mod path;
pub mod placement;
pub mod rebuild;
pub mod refusals;
pub mod roots;
pub mod routes;
pub mod shortest;
pub mod similarity;
pub mod stream;
pub mod tree;
pub mod window;
pub mod windowed;
