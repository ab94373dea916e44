//! Files that were opened outside and are taken back when they change.

use vstd::prelude::*;

verus! {

/// An opened file as it was seen last.
pub struct Watch {
    logical: String,
    /// Nanoseconds since the epoch, where the disk tells them.
    mtime: Option<i128>,
    size: u64,
}

/// An opened file as a value.
#[verifier::ext_equal]
pub struct WatchView {
    pub logical: Seq<char>,
    pub mtime: Option<i128>,
    pub size: u64,
}

impl View for Watch {
    type V = WatchView;

    closed spec fn view(&self) -> WatchView {
        WatchView { logical: self.logical@, mtime: self.mtime, size: self.size }
    }
}

impl Watch {
    pub fn new(logical: String, mtime: Option<i128>, size: u64) -> (r: Self)
        ensures
            r@ == (WatchView { logical: logical@, mtime, size }),
    {
        Watch { logical, mtime, size }
    }

    /// The path that the file goes back to.
    pub fn logical(&self) -> (r: &String)
        ensures
            r@ == self@.logical,
    {
        &self.logical
    }

    /// Whether the file differs from how it was seen last; from now on this is how it was seen.
    pub fn observe(&mut self, mtime: Option<i128>, size: u64) -> (r: bool)
        ensures
            r == (size != old(self)@.size || mtime != old(self)@.mtime),
            final(self)@ == (WatchView { mtime, size, ..old(self)@ }),
    {
        let same_time = match (self.mtime, mtime) {
            (Some(a), Some(b)) => a == b,
            (None, None) => true,
            _ => false,
        };
        let changed = size != self.size || !same_time;
        self.mtime = mtime;
        self.size = size;
        changed
    }
}

} // verus!
