//! The errors of the library.
use vstd::prelude::*;

verus! {

/// What went wrong, by the class that a caller acts on.
#[derive(Clone, Copy, Debug, PartialEq, Eq, Structural)]
pub enum ErrorKind {
    NotFound,
    AlreadyExists,
    InvalidData,
    InvalidInput,
    ResourceBusy,
    DirectoryNotEmpty,
    ReadOnlyFilesystem,
    Interrupted,
    Other,
}

/// What went wrong.
#[derive(Clone, Copy, Debug, PartialEq, Eq, Structural)]
pub enum Error {
    /// No entry has the name.
    NoSuchName,
    /// The name is taken by another entry.
    NameTaken,
    /// The source of a rename was moved by another client.
    SourceGone,
    /// Another client is renaming the same source.
    RenameClaimed,
    /// The body is shorter than a tombstone header.
    TombstoneTooSmall,
    /// The body is not that of an unlink marker.
    MalformedMarker,
    /// The lease body is not text.
    LeaseNotText,
    /// The lease body names no holder.
    LeaseWithoutHolder,
    /// The lease body has no expiry.
    LeaseWithoutExpiry,
    /// The lease is held by another client and has not expired.
    LeaseHeld,
    /// The lease went away while it was being looked at.
    LeaseGone,
    /// Another client took the expired lease first.
    LeaseRaceLost,
    /// The intent body is not text.
    IntentNotText,
    /// An identifier in the intent body is not a UUID.
    IntentBadUuid,
    /// A value in the intent body is not base64.
    IntentBadBase64,
    /// A name in the intent body is not text.
    IntentBadName,
    /// The intent body lacks a field.
    IntentIncomplete,
    /// A scatter object cannot be emitted for an unknown op.
    UnknownOp,
    /// Hard links to directories are not allowed.
    LinkToDirectory,
    /// The directory still has entries.
    DirectoryNotEmpty,
    /// A past checkpoint can only be opened for reading.
    ReadOnlyCheckpoint,
    /// Too many concurrent changes; the operation was given up.
    TooManyConflicts,
    /// At least one object could not be removed.
    RemovalFailed,
    /// The object store failed the request.
    StoreFailed,
}

impl Error {
    /// The class of the error.
    pub open spec fn class(self) -> ErrorKind {
        match self {
            Error::NoSuchName | Error::SourceGone => ErrorKind::NotFound,
            Error::NameTaken => ErrorKind::AlreadyExists,
            Error::TombstoneTooSmall
            | Error::MalformedMarker
            | Error::LeaseNotText
            | Error::LeaseWithoutHolder
            | Error::LeaseWithoutExpiry
            | Error::IntentNotText
            | Error::IntentBadUuid
            | Error::IntentBadBase64
            | Error::IntentBadName
            | Error::IntentIncomplete => ErrorKind::InvalidData,
            Error::UnknownOp | Error::LinkToDirectory => ErrorKind::InvalidInput,
            Error::LeaseHeld
            | Error::LeaseGone
            | Error::LeaseRaceLost
            | Error::TooManyConflicts => ErrorKind::ResourceBusy,
            Error::DirectoryNotEmpty => ErrorKind::DirectoryNotEmpty,
            Error::ReadOnlyCheckpoint => ErrorKind::ReadOnlyFilesystem,
            Error::RemovalFailed => ErrorKind::Interrupted,
            Error::RenameClaimed | Error::StoreFailed => ErrorKind::Other,
        }
    }

    /// The class of the error.
    pub fn kind(&self) -> (r: ErrorKind)
        ensures
            r == self.class(),
    {
        match self {
            Error::NoSuchName | Error::SourceGone => ErrorKind::NotFound,
            Error::NameTaken => ErrorKind::AlreadyExists,
            Error::TombstoneTooSmall
            | Error::MalformedMarker
            | Error::LeaseNotText
            | Error::LeaseWithoutHolder
            | Error::LeaseWithoutExpiry
            | Error::IntentNotText
            | Error::IntentBadUuid
            | Error::IntentBadBase64
            | Error::IntentBadName
            | Error::IntentIncomplete => ErrorKind::InvalidData,
            Error::UnknownOp | Error::LinkToDirectory => ErrorKind::InvalidInput,
            Error::LeaseHeld
            | Error::LeaseGone
            | Error::LeaseRaceLost
            | Error::TooManyConflicts => ErrorKind::ResourceBusy,
            Error::DirectoryNotEmpty => ErrorKind::DirectoryNotEmpty,
            Error::ReadOnlyCheckpoint => ErrorKind::ReadOnlyFilesystem,
            Error::RemovalFailed => ErrorKind::Interrupted,
            Error::RenameClaimed | Error::StoreFailed => ErrorKind::Other,
        }
    }
}

/// Which errors are of which class.
pub proof fn law_classes_of_errors(e: Error)
    ensures
        e.class() == ErrorKind::NotFound <==> e == Error::NoSuchName || e == Error::SourceGone,
        e.class() == ErrorKind::AlreadyExists <==> e == Error::NameTaken,
        e.class() == ErrorKind::InvalidInput <==> e == Error::UnknownOp || e == Error::LinkToDirectory,
        e.class() == ErrorKind::ResourceBusy <==> e == Error::LeaseHeld || e == Error::LeaseGone || e
            == Error::LeaseRaceLost || e == Error::TooManyConflicts,
        e.class() == ErrorKind::DirectoryNotEmpty <==> e == Error::DirectoryNotEmpty,
        e.class() == ErrorKind::ReadOnlyFilesystem <==> e == Error::ReadOnlyCheckpoint,
        e.class() == ErrorKind::Interrupted <==> e == Error::RemovalFailed,
        e.class() == ErrorKind::Other <==> e == Error::RenameClaimed || e == Error::StoreFailed,
{
}

} // verus!
