//! The errors of the kernel.

use crate::errnos::Errno;
use vstd::prelude::*;

verus! {

/// The errors that the kernel reports.
#[allow(non_camel_case_types)]
#[derive(Debug, Clone, Copy, PartialEq, Eq, Structural)]
pub enum SystemError {
    EPERM,
    ENOENT,
    EIO,
    ENOMEM,
    EACCES,
    EBUSY,
    EEXIST,
    ENODEV,
    ENOTDIR,
    EISDIR,
    EINVAL,
    ENOSPC,
    EROFS,
    ENODATA,
    ERANGE,
    ENOSYS,
    EUCLEAN,
    EOPNOTSUPP_OR_ENOTSUP,
}

/// What the kernel reports for an error of the reader: the error of the same name, or an I/O
/// error where there is none.
pub open spec fn system_error(e: Errno) -> SystemError {
    match e {
        Errno::EPERM => SystemError::EPERM,
        Errno::ENOENT => SystemError::ENOENT,
        Errno::EIO => SystemError::EIO,
        Errno::ENOMEM => SystemError::ENOMEM,
        Errno::EACCES => SystemError::EACCES,
        Errno::EEXIST => SystemError::EEXIST,
        Errno::ENODEV => SystemError::ENODEV,
        Errno::ENOTDIR => SystemError::ENOTDIR,
        Errno::EISDIR => SystemError::EISDIR,
        Errno::EINVAL => SystemError::EINVAL,
        Errno::ENOSPC => SystemError::ENOSPC,
        Errno::EROFS => SystemError::EROFS,
        Errno::ENODATA => SystemError::ENODATA,
        Errno::ERANGE => SystemError::ERANGE,
        Errno::ENOSYS => SystemError::ENOSYS,
        Errno::EUCLEAN => SystemError::EUCLEAN,
        Errno::EOPNOTSUPP => SystemError::EIO,
    }
}

/// What the kernel reports for an error of the reader.
pub fn from_erofs_errno(e: Errno) -> (r: SystemError)
    ensures
        r == system_error(e),
{
    match e {
        Errno::EPERM => SystemError::EPERM,
        Errno::ENOENT => SystemError::ENOENT,
        Errno::EIO => SystemError::EIO,
        Errno::ENOMEM => SystemError::ENOMEM,
        Errno::EACCES => SystemError::EACCES,
        Errno::EEXIST => SystemError::EEXIST,
        Errno::ENODEV => SystemError::ENODEV,
        Errno::ENOTDIR => SystemError::ENOTDIR,
        Errno::EISDIR => SystemError::EISDIR,
        Errno::EINVAL => SystemError::EINVAL,
        Errno::ENOSPC => SystemError::ENOSPC,
        Errno::EROFS => SystemError::EROFS,
        Errno::ENODATA => SystemError::ENODATA,
        Errno::ERANGE => SystemError::ERANGE,
        Errno::ENOSYS => SystemError::ENOSYS,
        Errno::EUCLEAN => SystemError::EUCLEAN,
        _ => SystemError::EIO,
    }
}

/// Different errors stay different, except that what has no name in the kernel is an I/O error.
pub proof fn law_errors_stay_apart(a: Errno, b: Errno)
    requires
        a != Errno::EOPNOTSUPP,
        b != Errno::EOPNOTSUPP,
    ensures
        system_error(a) == system_error(b) ==> a == b,
        system_error(Errno::EOPNOTSUPP) == system_error(Errno::EIO),
{
}

/// An error keeps its name.
pub proof fn law_errors_keep_their_names()
    ensures
        system_error(Errno::EPERM) == SystemError::EPERM,
        system_error(Errno::ENOENT) == SystemError::ENOENT,
        system_error(Errno::EIO) == SystemError::EIO,
        system_error(Errno::ENOMEM) == SystemError::ENOMEM,
        system_error(Errno::EACCES) == SystemError::EACCES,
        system_error(Errno::EEXIST) == SystemError::EEXIST,
        system_error(Errno::ENODEV) == SystemError::ENODEV,
        system_error(Errno::ENOTDIR) == SystemError::ENOTDIR,
        system_error(Errno::EISDIR) == SystemError::EISDIR,
        system_error(Errno::EINVAL) == SystemError::EINVAL,
        system_error(Errno::ENOSPC) == SystemError::ENOSPC,
        system_error(Errno::EROFS) == SystemError::EROFS,
        system_error(Errno::ENODATA) == SystemError::ENODATA,
        system_error(Errno::ERANGE) == SystemError::ERANGE,
        system_error(Errno::ENOSYS) == SystemError::ENOSYS,
        system_error(Errno::EUCLEAN) == SystemError::EUCLEAN,
        system_error(Errno::EOPNOTSUPP) == SystemError::EIO,
{
}

} // verus!
