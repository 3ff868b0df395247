use vstd::prelude::*;

verus! {

/// What can go wrong in the tree's storage.
#[derive(Debug, PartialEq, Eq, PartialOrd, Ord)]
pub enum Error {
    CantSeekToPage(usize),
    CantGetNodesFileForWrite,
    CantGetValuesFileForWrite,
    CantSeekToValue(usize),
    CantWritePage,
    CantWriteValue,
    CantReadValue,
    CantReadNode(usize),
    CantWriteNode(usize),
    CantWriteCacheToDisk((usize, usize)),
    CantGetValue,
    BorrowError(usize),
    MergeError(usize),
    InvalidArguments,
    FileError,
    ParentError,
    MovingCacheError(usize),
    CantDeletePage(usize),
    CantDeleteNode(usize),
}

/// A result of the tree's storage.
pub type InternalResult<T> = Result<T, Error>;

} // verus!
