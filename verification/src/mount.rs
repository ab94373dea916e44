//! What a mounted vault does between the operating system and the vault.

pub mod handle;
pub mod inodes;
pub mod laws;
pub mod session;

use vstd::prelude::*;

verus! {

/// Why a vault cannot be mounted.
#[derive(Clone, Copy, Debug, PartialEq, Eq, Structural)]
pub enum MountError {
    /// The platform has neither FUSE nor WinFsp.
    Unsupported,
}

/// Mounting on a platform that has neither FUSE nor WinFsp: never possible, whatever the vault,
/// the mount point and the password.
pub fn mount(_vault_path: &str, _mountpoint: &str, _password: Option<&str>) -> (r: Result<
    (),
    MountError,
>)
    ensures
        r == Err::<(), MountError>(MountError::Unsupported),
{
    Err(MountError::Unsupported)
}

} // verus!
