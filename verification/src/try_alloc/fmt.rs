use vstd::prelude::*;

use crate::try_alloc::string::TryString;
use crate::try_alloc::AllocError;

verus! {

/// The formatting error of `core::fmt`.
#[verifier::external_type_specification]
#[verifier::external_body]
pub struct ExFmtError(core::fmt::Error);

/// A `core::fmt::Error` value.
#[verifier::external_body]
fn fmt_error() -> core::fmt::Error {
    core::fmt::Error
}

/// `String::from(char)`: the one-character string `c`.
#[verifier::external_body]
fn char_to_string(c: char) -> (r: String)
    ensures
        r@ == seq![c],
{
    String::from(c)
}

/// Why a write of text failed.
#[derive(Debug)]
pub enum TryWriteError {
    /// Formatting failed.
    FmtError(core::fmt::Error),
    /// An allocation failed.
    AllocError(AllocError),
}

/// A sink of text that reports a failed allocation instead of aborting.
pub trait TryWrite {
    /// Writes `s`.
    fn try_write_str(&mut self, s: &str) -> (r: Result<(), TryWriteError>);

    /// Writes `c`.
    fn try_write_char(&mut self, c: char) -> (r: Result<(), TryWriteError>) {
        let s = char_to_string(c);
        self.try_write_str(s.as_str())
    }
}

impl TryWrite for String {
    fn try_write_str(&mut self, s: &str) -> (r: Result<(), TryWriteError>)
        ensures
            r is Ok ==> final(self)@ == old(self)@ + s@,
            r is Err ==> final(self)@ == old(self)@ && r matches Err(TryWriteError::AllocError(_)),
    {
        match self.try_push_str(s) {
            Ok(()) => Ok(()),
            Err(e) => Err(TryWriteError::AllocError(e)),
        }
    }

    fn try_write_char(&mut self, c: char) -> (r: Result<(), TryWriteError>)
        ensures
            r is Ok ==> final(self)@ == old(self)@.push(c),
            r is Err ==> final(self)@ == old(self)@ && r matches Err(TryWriteError::AllocError(_)),
    {
        match self.try_push(c) {
            Ok(()) => Ok(()),
            Err(e) => Err(TryWriteError::AllocError(e)),
        }
    }
}

/// A [`TryWrite`] seen as a plain text sink whose only error is the
/// formatting error; it remembers that a write failed for want of memory,
/// so that the error can be told apart afterwards.
pub struct Write2TryWrite<W> {
    inner_write: W,
    alloc_error: bool,
}

impl<W: TryWrite> Write2TryWrite<W> {
    pub closed spec fn spec_alloc_error(&self) -> bool {
        self.alloc_error
    }

    pub closed spec fn spec_inner(&self) -> W {
        self.inner_write
    }

    /// A sink over `write` that has seen no failed allocation.
    pub fn new(write: W) -> (w: Self)
        ensures
            !w.spec_alloc_error(),
            w.spec_inner() == write,
    {
        Write2TryWrite { inner_write: write, alloc_error: false }
    }

    /// The error a failed write of this sink stands for: a failed
    /// allocation if one happened, else `e`.
    pub fn map_try_error(&self, e: core::fmt::Error) -> (r: TryWriteError)
        ensures
            self.spec_alloc_error() ==> r matches TryWriteError::AllocError(_),
            !self.spec_alloc_error() ==> r == TryWriteError::FmtError(e),
    {
        if self.alloc_error {
            TryWriteError::AllocError(AllocError)
        } else {
            TryWriteError::FmtError(e)
        }
    }

    /// Writes `s` to the inner sink; after a failed allocation every write
    /// fails at once.
    pub fn write_str(&mut self, s: &str) -> (r: Result<(), core::fmt::Error>)
        ensures
            old(self).spec_alloc_error() ==> r is Err && *final(self) == *old(self),
            !old(self).spec_alloc_error() && r is Ok ==> !final(self).spec_alloc_error(),
    {
        if self.alloc_error {
            return Err(fmt_error());
        }
        match self.inner_write.try_write_str(s) {
            Ok(()) => Ok(()),
            Err(TryWriteError::FmtError(error)) => Err(error),
            Err(TryWriteError::AllocError(_)) => {
                self.alloc_error = true;
                Err(fmt_error())
            },
        }
    }

    /// Writes `c` to the inner sink; after a failed allocation every write
    /// fails at once.
    pub fn write_char(&mut self, c: char) -> (r: Result<(), core::fmt::Error>)
        ensures
            old(self).spec_alloc_error() ==> r is Err && *final(self) == *old(self),
            !old(self).spec_alloc_error() && r is Ok ==> !final(self).spec_alloc_error(),
    {
        if self.alloc_error {
            return Err(fmt_error());
        }
        match self.inner_write.try_write_char(c) {
            Ok(()) => Ok(()),
            Err(TryWriteError::FmtError(error)) => Err(error),
            Err(TryWriteError::AllocError(_)) => {
                self.alloc_error = true;
                Err(fmt_error())
            },
        }
    }

    /// The inner sink.
    pub fn into_inner(self) -> (w: W)
        ensures
            w == self.spec_inner(),
    {
        self.inner_write
    }
}

} // verus!
