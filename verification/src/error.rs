use vstd::prelude::*;

verus! {

/// Every error that the library reports.
#[derive(Debug, PartialEq, Eq)]
pub enum TexProError {
    Generic,
    Image(String),
    InvalidBufferCount,
    InvalidNodeId,
    InvalidNodeType,
    InvalidSlotId,
    InvalidSlotType,
    InvalidName,
    InvalidEdge,
    SlotOccupied,
    SlotNotOccupied,
    NoSlotData,
    UnableToLock,
    NodeProcessing,
    PoisonError,
    TryLockError,
    NodeDirty,
    Canceled,
    Io(String),
}

pub type Result<T> = core::result::Result<T, TexProError>;

} // verus!
