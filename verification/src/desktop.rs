//! What the desktop application decides: edits of several paths, what is dropped on it, which
//! opened files changed, and mounting the open vault as a drive.

pub mod drive;
pub mod drops;
pub mod edits;
pub mod watch;
