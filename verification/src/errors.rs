//! Errors of the encoder.

use crate::object::ObjectType;
use vstd::prelude::*;

verus! {

/// Why a pack could not be encoded.
#[derive(Clone, Copy, Debug, PartialEq, Eq, Structural)]
pub enum PackEncodeReason {
    /// Encoding was already started on this encoder.
    AlreadyInProgress,
    /// The kind of object is not one that delta-window encoding takes.
    UnsupportedInWindow(ObjectType),
    /// Encoding without a window was asked for on an encoder with a window.
    WindowNotZero,
    /// AI process objects have no place in a pack.
    AiObject(ObjectType),
    /// The kind of object has no pack type number.
    NoPackType(ObjectType),
    /// The number of objects received is not the number announced in the header.
    NotAllEncoded { process: usize, total: usize },
    /// A task that encodes one of the object groups failed.
    TaskFailed,
    /// The pack would be longer than a pack can be.
    PackTooLarge,
    /// No receiver for the index file was given.
    IdxSenderMissing,
    /// The hash of the pack is not known yet: the pack comes before its index.
    FinalHashMissing,
    /// The entries of the index are not known yet: the pack comes before its index.
    IdxEntriesMissing,
}

/// Errors that the library reports.
#[derive(Clone, Debug)]
pub enum GitError {
    /// Encoding a pack failed.
    PackEncodeError(PackEncodeReason),
    /// A delta between two objects could not be computed; holds the message.
    DeltaObjectError(String),
}

/// The mathematical value of a [`GitError`].
pub enum ErrorView {
    /// See [`GitError::PackEncodeError`].
    Pack(PackEncodeReason),
    /// See [`GitError::DeltaObjectError`].
    Delta(Seq<char>),
}

impl View for GitError {
    type V = ErrorView;

    open spec fn view(&self) -> ErrorView {
        match *self {
            GitError::PackEncodeError(reason) => ErrorView::Pack(reason),
            GitError::DeltaObjectError(message) => ErrorView::Delta(message@),
        }
    }
}

} // verus!
