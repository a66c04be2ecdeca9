//! Telling whether a source changed after it was opened.
use crate::error::Error;
use vstd::prelude::*;

verus! {

/// Length, modification time and identity of a file.
#[derive(Clone, Copy, Debug, PartialEq, Eq, Structural)]
pub struct Stamp {
    pub len: u64,
    /// Since the epoch.
    pub seconds: u64,
    pub nanoseconds: u32,
    pub device: u64,
    pub inode: u64,
}

impl Stamp {
    /// Refuse to go on where the file at the source's path is no longer the same.
    pub fn check(&self, now: &Stamp) -> (r: Result<(), Error>)
        ensures
            r == if *self == *now {
                Ok::<(), Error>(())
            } else {
                Err(Error::SourceChanged)
            },
    {
        if *self == *now {
            Ok(())
        } else {
            Err(Error::SourceChanged)
        }
    }

    /// Refuse to publish a save where the file at the source's path, or else the one that
    /// was read, is no longer the same.
    pub fn check_saved(&self, at_path: &Stamp, read: &Stamp) -> (r: Result<(), Error>)
        ensures
            r == if *self != *at_path {
                Err::<(), Error>(Error::SourceChanged)
            } else if *self != *read {
                Err(Error::SourceChangedDuringSave)
            } else {
                Ok(())
            },
    {
        match self.check(at_path) {
            Err(error) => Err(error),
            Ok(()) => if *self == *read {
                Ok(())
            } else {
                Err(Error::SourceChangedDuringSave)
            },
        }
    }
}

} // verus!
