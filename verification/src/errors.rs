//! Why an operation on a log failed.

use vstd::prelude::*;
use crate::uintn::UintN;
use crate::wal_entry::WalEntryError;
use crate::wal_entry_v1::WalEntryV1Error;
use crate::wal_header::WalHeaderError;
use crate::wal_header_v1::{AnyWalHeaderError, WalHeaderV1Error};

verus! {

#[derive(Debug, PartialEq, Eq)]
pub enum WalError {
    /// An I/O operation failed, with this message.
    IoError(String),
    WalHeaderError(WalHeaderError),
    AnyWalHeaderError(AnyWalHeaderError),
    WalEntryError(WalEntryError),
    WalEntryV1Error(WalEntryV1Error),
    /// Listing a queue's files failed, with this message.
    PathError(String),
    SendError,
    WalNotFound,
    WriterNotFound,
    WalEmpty(UintN),
}

impl From<WalHeaderError> for WalError {
    fn from(e: WalHeaderError) -> (res: Self) {
        WalError::WalHeaderError(e)
    }
}

impl vstd::std_specs::convert::FromSpecImpl<WalHeaderError> for WalError {
    open spec fn obeys_from_spec() -> bool {
        true
    }

    open spec fn from_spec(e: WalHeaderError) -> WalError {
        WalError::WalHeaderError(e)
    }
}

impl From<AnyWalHeaderError> for WalError {
    fn from(e: AnyWalHeaderError) -> (res: Self) {
        WalError::AnyWalHeaderError(e)
    }
}

impl vstd::std_specs::convert::FromSpecImpl<AnyWalHeaderError> for WalError {
    open spec fn obeys_from_spec() -> bool {
        true
    }

    open spec fn from_spec(e: AnyWalHeaderError) -> WalError {
        WalError::AnyWalHeaderError(e)
    }
}

impl From<WalHeaderV1Error> for WalError {
    fn from(e: WalHeaderV1Error) -> (res: Self) {
        WalError::AnyWalHeaderError(AnyWalHeaderError::V1(e))
    }
}

impl vstd::std_specs::convert::FromSpecImpl<WalHeaderV1Error> for WalError {
    open spec fn obeys_from_spec() -> bool {
        true
    }

    open spec fn from_spec(e: WalHeaderV1Error) -> WalError {
        WalError::AnyWalHeaderError(AnyWalHeaderError::V1(e))
    }
}

impl From<WalEntryError> for WalError {
    fn from(e: WalEntryError) -> (res: Self) {
        WalError::WalEntryError(e)
    }
}

impl vstd::std_specs::convert::FromSpecImpl<WalEntryError> for WalError {
    open spec fn obeys_from_spec() -> bool {
        true
    }

    open spec fn from_spec(e: WalEntryError) -> WalError {
        WalError::WalEntryError(e)
    }
}

impl From<WalEntryV1Error> for WalError {
    fn from(e: WalEntryV1Error) -> (res: Self) {
        WalError::WalEntryV1Error(e)
    }
}

impl vstd::std_specs::convert::FromSpecImpl<WalEntryV1Error> for WalError {
    open spec fn obeys_from_spec() -> bool {
        true
    }

    open spec fn from_spec(e: WalEntryV1Error) -> WalError {
        WalError::WalEntryV1Error(e)
    }
}

} // verus!
