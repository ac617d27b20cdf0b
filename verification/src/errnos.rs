//! The errors that reading an image can end in.

use vstd::prelude::*;

verus! {

/// The errors of the reader, under their usual names.
#[derive(Debug, Clone, Copy, PartialEq, Eq, Structural)]
pub enum Errno {
    EPERM,
    ENOENT,
    EIO,
    ENOMEM,
    EACCES,
    EEXIST,
    ENODEV,
    ENOTDIR,
    EISDIR,
    EINVAL,
    ENOSPC,
    EROFS,
    ENODATA,
    ERANGE,
    ENOSYS,
    EUCLEAN,
    EOPNOTSUPP,
}

/// What a fallible operation of the reader returns.
pub type PosixResult<T> = Result<T, Errno>;

} // verus!
