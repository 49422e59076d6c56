//! The names of the files that a pack and its index are written to.

use crate::hash::{hex_of, ObjectHash};
use vstd::prelude::*;

verus! {

/// The name of the file of a finished pack: the hash stands between `pack-` and
/// `.pack`.
pub fn pack_file_name(hash: &ObjectHash) -> (r: String)
    ensures
        r@ == "pack-"@ + hex_of(hash@) + ".pack"@,
{
    let mut name = "pack-".to_owned();
    name.append(hash.to_hex().as_str());
    name.append(".pack");
    name
}

/// The name of the file of the index of a pack.
pub fn idx_file_name(hash: &ObjectHash) -> (r: String)
    ensures
        r@ == "pack-"@ + hex_of(hash@) + ".idx"@,
{
    let mut name = "pack-".to_owned();
    name.append(hash.to_hex().as_str());
    name.append(".idx");
    name
}

/// The name of the file that a pack is written to before its hash is known.
pub fn temporary_file_name(timestamp: &str) -> (r: String)
    ensures
        r@ == timestamp@ + "objects.pack.tmp"@,
{
    let mut name = timestamp.to_owned();
    name.append("objects.pack.tmp");
    name
}

} // verus!
