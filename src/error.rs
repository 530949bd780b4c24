use vstd::prelude::*;

verus! {

/// The conditions under which a file system operation fails.
#[derive(Debug, Clone, Copy, PartialEq, Eq, Structural)]
pub enum FsError {
    /// An empty path where a name is required, or a file in the middle of a path being created.
    InvalidPath,
    /// A missing entry, shard or label.
    NotFound,
    /// The resolved node is a directory where a file was expected.
    NotAFile,
    /// A segment in the middle of a path names a file.
    NotADirectory,
    /// The destination of a move is already taken.
    FileAlreadyExists,
    /// A file would be written where a directory stands.
    DirectoryAlreadyExists,
    /// Keys were asked of a node without a header.
    MissingHeader,
    /// A stored block carries a version this library does not read.
    UnexpectedVersion,
    /// A stored block carries another kind of node than expected.
    UnexpectedNodeType,
    /// A file shard's label holds no usable identifier.
    FileShardNotFound,
    /// A history walk would go further back than its budget allows.
    RatchetBudgetExceeded,
    /// A block exceeds the largest block size.
    BlockTooLarge,
    /// No block is stored under the requested identifier.
    BlockNotFound,
}

} // verus!
