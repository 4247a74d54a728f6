//! File system results that other components handle.

use vstd::prelude::*;

verus! {

/// File system operation failure.
#[derive(Copy, Clone, Debug, PartialEq, Eq, Structural)]
pub enum Error {
    /// The object does not exist.
    NotFound,
    /// The object exists already.
    AlreadyExists,
    /// A path component is no directory.
    NotDirectory,
    /// The object has no position.
    IllegalSeek,
    /// The object is a directory.
    IsDirectory,
    /// The object is no terminal.
    NotTty,
    /// A signal interrupted the operation.
    Interrupted,
    /// The directory has entries.
    NotEmpty,
    /// The operation spans two file systems.
    CrossDevice,
    /// Too many symbolic links.
    SymlinkLoop,
    /// A name is too long.
    NameTooLong,
    /// An argument is out of range.
    InvalidArgument,
    /// The object does not support the operation.
    Unsupported,
    /// The object is in use.
    Busy,
    /// The operation would have to wait.
    WouldBlock,
    /// No space is left.
    NoSpace,
    /// The file would grow too large.
    FileTooLarge,
    /// The caller lacks a permission.
    PermissionDenied,
    /// The file system is read-only.
    ReadOnly,
    /// The descriptor does not allow the operation.
    BadFileDescriptor,
    /// Memory ran out.
    OutOfMemory,
    /// A device failed.
    Io,
}

/// Readiness of a descriptor.
#[derive(Copy, Clone, Debug, PartialEq, Eq, Structural)]
pub struct PollEvents {
    /// Data can be read.
    pub readable: bool,
    /// Data can be written.
    pub writable: bool,
    /// The descriptor failed.
    pub error: bool,
    /// The other end is gone.
    pub hangup: bool,
    /// Normal data can be read.
    pub read_normal: bool,
    /// Normal data can be written.
    pub write_normal: bool,
}

impl PollEvents {
    /// Nothing is ready.
    pub open spec fn nothing() -> PollEvents {
        PollEvents {
            readable: false,
            writable: false,
            error: false,
            hangup: false,
            read_normal: false,
            write_normal: false,
        }
    }

    /// Whether anything is ready.
    pub open spec fn any(self) -> bool {
        self != PollEvents::nothing()
    }

    /// What is in both.
    pub open spec fn both(self, other: PollEvents) -> PollEvents {
        PollEvents {
            readable: self.readable && other.readable,
            writable: self.writable && other.writable,
            error: self.error && other.error,
            hangup: self.hangup && other.hangup,
            read_normal: self.read_normal && other.read_normal,
            write_normal: self.write_normal && other.write_normal,
        }
    }

    /// Returns readiness for nothing.
    pub fn empty() -> (events: Self)
        ensures
            events == PollEvents::nothing(),
    {
        PollEvents {
            readable: false,
            writable: false,
            error: false,
            hangup: false,
            read_normal: false,
            write_normal: false,
        }
    }

    /// Returns whether nothing is ready.
    pub fn is_empty(&self) -> (empty: bool)
        ensures
            empty == !self.any(),
    {
        !(self.readable || self.writable || self.error || self.hangup || self.read_normal
            || self.write_normal)
    }

    /// Returns what is in both.
    pub fn intersection(&self, other: &Self) -> (events: Self)
        ensures
            events == self.both(*other),
    {
        PollEvents {
            readable: self.readable && other.readable,
            writable: self.writable && other.writable,
            error: self.error && other.error,
            hangup: self.hangup && other.hangup,
            read_normal: self.read_normal && other.read_normal,
            write_normal: self.write_normal && other.write_normal,
        }
    }
}

} // verus!
