//! The error taxonomy of the relay.
//!
//! Every error here rejects an upgrade before any registry state is touched.
//! Frame-level failures (a malformed frame, a missing relay target, a full
//! queue) are not errors of this taxonomy: the router reports them as
//! outcomes and the connection they arrive on stays open.

use vstd::prelude::*;

verus! {

/// Why a host or listener attachment was refused.
#[derive(Clone, Copy, Debug, PartialEq, Eq, Structural)]
pub enum RelayError {
    /// The caller is not the owner of the room it tried to host.
    NotOwner,
    /// A live host connection entry already exists for the room.
    AlreadyHosted,
    /// The storage collaborator has no record of the room.
    RoomNotFound,
    /// The storage collaborator could not be reached; retry is the caller's
    /// concern.
    StorageUnavailable,
}

impl RelayError {
    /// The HTTP status a rejected upgrade carries for this error.
    pub open spec fn spec_status_code(self) -> u16 {
        match self {
            RelayError::NotOwner => 403,
            RelayError::AlreadyHosted => 409,
            RelayError::RoomNotFound => 404,
            RelayError::StorageUnavailable => 503,
        }
    }

    /// The human-readable line a rejected upgrade carries for this error.
    pub open spec fn spec_message(self) -> Seq<char> {
        match self {
            RelayError::NotOwner => "You are not the owner of the selected room"@,
            RelayError::AlreadyHosted => "A host is already connected to the selected room"@,
            RelayError::RoomNotFound => "The selected room does not exist"@,
            RelayError::StorageUnavailable => "Storage is unavailable. Try again later"@,
        }
    }

    pub fn status_code(&self) -> (code: u16)
        ensures
            code == self.spec_status_code(),
    {
        match self {
            RelayError::NotOwner => 403,
            RelayError::AlreadyHosted => 409,
            RelayError::RoomNotFound => 404,
            RelayError::StorageUnavailable => 503,
        }
    }

    pub fn message(&self) -> (text: &'static str)
        ensures
            text@ == self.spec_message(),
    {
        match self {
            RelayError::NotOwner => "You are not the owner of the selected room",
            RelayError::AlreadyHosted => "A host is already connected to the selected room",
            RelayError::RoomNotFound => "The selected room does not exist",
            RelayError::StorageUnavailable => "Storage is unavailable. Try again later",
        }
    }
}

} // verus!
