//! Objects on their way into a pack.

use crate::errors::{GitError, PackEncodeReason};
use crate::hash::ObjectHash;
use vstd::prelude::*;

verus! {

/// Kinds of objects.
#[derive(Clone, Copy, Debug, PartialEq, Eq, Structural, Hash)]
pub enum ObjectType {
    Commit,
    Tree,
    Blob,
    Tag,
    /// A zstd delta against an object at an earlier offset in the same pack.
    OffsetZstdelta,
    /// A delta against an object at an earlier offset in the same pack.
    OffsetDelta,
    /// A delta against an object that is named by its hash.
    HashDelta,
    /// A task of the AI process model, which is never stored in a pack.
    Task,
}

impl ObjectType {
    /// The number that stands for the kind in the header of a packed object.
    pub open spec fn pack_number(self) -> Option<u8> {
        match self {
            ObjectType::Commit => Some(1u8),
            ObjectType::Tree => Some(2u8),
            ObjectType::Blob => Some(3u8),
            ObjectType::Tag => Some(4u8),
            ObjectType::OffsetZstdelta => Some(5u8),
            ObjectType::OffsetDelta => Some(6u8),
            ObjectType::HashDelta => Some(7u8),
            ObjectType::Task => None,
        }
    }

    /// Whether an object of this kind is stored as a difference from another one.
    pub open spec fn is_delta(self) -> bool {
        self == ObjectType::OffsetZstdelta || self == ObjectType::OffsetDelta || self
            == ObjectType::HashDelta
    }

    /// Whether the kind belongs to the AI process model.
    pub fn is_ai_object(&self) -> (r: bool)
        ensures
            r == (*self == ObjectType::Task),
    {
        matches!(*self, ObjectType::Task)
    }

    /// The number that stands for the kind in the header of a packed object.
    pub fn to_pack_type_u8(&self) -> (r: Result<u8, GitError>)
        ensures
            match r {
                Ok(number) => self.pack_number() == Some(number),
                Err(e) => self.pack_number() is None && e == GitError::PackEncodeError(
                    PackEncodeReason::NoPackType(*self),
                ),
            },
    {
        match *self {
            ObjectType::Commit => Ok(1),
            ObjectType::Tree => Ok(2),
            ObjectType::Blob => Ok(3),
            ObjectType::Tag => Ok(4),
            ObjectType::OffsetZstdelta => Ok(5),
            ObjectType::OffsetDelta => Ok(6),
            ObjectType::HashDelta => Ok(7),
            ObjectType::Task => Err(
                GitError::PackEncodeError(PackEncodeReason::NoPackType(ObjectType::Task)),
            ),
        }
    }

    /// The kind that a number in the header of a packed object stands for.
    pub fn from_pack_type_u8(number: u8) -> (r: Option<ObjectType>)
        ensures
            match r {
                Some(kind) => kind.pack_number() == Some(number),
                None => number == 0 || number > 7,
            },
    {
        match number {
            1 => Some(ObjectType::Commit),
            2 => Some(ObjectType::Tree),
            3 => Some(ObjectType::Blob),
            4 => Some(ObjectType::Tag),
            5 => Some(ObjectType::OffsetZstdelta),
            6 => Some(ObjectType::OffsetDelta),
            7 => Some(ObjectType::HashDelta),
            _ => None,
        }
    }
}

/// An object to be packed.
#[derive(Clone, Debug)]
pub struct Entry {
    pub obj_type: ObjectType,
    pub data: Vec<u8>,
    pub hash: ObjectHash,
    /// How many deltas have to be applied to rebuild the object.
    pub chain_len: usize,
}

/// What is known of an entry besides its content.
#[derive(Clone, Debug)]
pub struct EntryMeta {
    /// Where the object stands in the tree of its commit.
    pub file_path: Option<String>,
}

impl EntryMeta {
    /// Nothing is known.
    pub fn new() -> (r: Self)
        ensures
            r.file_path is None,
    {
        EntryMeta { file_path: None }
    }
}

/// A value together with what is known of it.
#[derive(Clone, Debug)]
pub struct MetaAttached<T, U> {
    pub inner: T,
    pub meta: U,
}

/// An object to be packed, with its metadata.
pub type PackEntry = MetaAttached<Entry, EntryMeta>;

/// Where an object stands in a pack.
#[derive(Clone, Copy, Debug)]
pub struct IndexEntry {
    pub hash: ObjectHash,
    pub offset: u64,
}

impl IndexEntry {
    /// The index entry of an object that starts at `offset`.
    pub fn new(entry: &Entry, offset: u64) -> (r: Self)
        ensures
            r.hash == entry.hash,
            r.offset == offset,
    {
        IndexEntry { hash: entry.hash, offset }
    }
}

} // verus!
