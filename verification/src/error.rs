use vstd::prelude::*;

verus! {

/// Error kinds reported by the kernel through a system call's return code.
#[derive(Debug, Clone, Copy, PartialEq, Eq, Structural)]
pub enum ErrorKind {
    Success,
    PermissionDenied,
    OutOfMemory,
    SegmentationFault,
    BadArgument,
    Unknown,
}

/// The numeric code of an error kind (`Unknown` is `u64::MAX`).
pub open spec fn kind_code(kind: ErrorKind) -> u64 {
    match kind {
        ErrorKind::Success => 0,
        ErrorKind::PermissionDenied => 1,
        ErrorKind::OutOfMemory => 2,
        ErrorKind::SegmentationFault => 3,
        ErrorKind::BadArgument => 4,
        ErrorKind::Unknown => u64::MAX,
    }
}

/// The kind that a raw error code stands for.
pub open spec fn spec_kind_of(code: u64) -> ErrorKind {
    if code == 0 {
        ErrorKind::Success
    } else if code == 1 {
        ErrorKind::PermissionDenied
    } else if code == 2 {
        ErrorKind::OutOfMemory
    } else if code == 3 {
        ErrorKind::SegmentationFault
    } else if code == 4 {
        ErrorKind::BadArgument
    } else {
        ErrorKind::Unknown
    }
}

impl ErrorKind {
    pub fn from_error_code(error_code: u64) -> (kind: ErrorKind)
        ensures
            kind == spec_kind_of(error_code),
    {
        if error_code == 0 {
            ErrorKind::Success
        } else if error_code == 1 {
            ErrorKind::PermissionDenied
        } else if error_code == 2 {
            ErrorKind::OutOfMemory
        } else if error_code == 3 {
            ErrorKind::SegmentationFault
        } else if error_code == 4 {
            ErrorKind::BadArgument
        } else {
            ErrorKind::Unknown
        }
    }
}

impl ErrorKind {
    /// The numeric code of this kind.
    pub fn code(&self) -> (c: u64)
        ensures
            c == kind_code(*self),
    {
        match self {
            ErrorKind::Success => 0,
            ErrorKind::PermissionDenied => 1,
            ErrorKind::OutOfMemory => 2,
            ErrorKind::SegmentationFault => 3,
            ErrorKind::BadArgument => 4,
            ErrorKind::Unknown => u64::MAX,
        }
    }

    /// The human readable description of this kind.
    pub fn message(&self) -> (m: &'static str)
        ensures
            m@ == spec_message(*self),
    {
        match self {
            ErrorKind::Success => "the operation is done successful",
            ErrorKind::PermissionDenied => "you do not have permission to do this",
            ErrorKind::OutOfMemory => "system is run out of memory",
            ErrorKind::SegmentationFault => "application memory broken",
            ErrorKind::BadArgument => "bad argument",
            ErrorKind::Unknown => "unknown error",
        }
    }
}

/// The description text of each error kind.
pub open spec fn spec_message(kind: ErrorKind) -> Seq<char> {
    match kind {
        ErrorKind::Success => "the operation is done successful"@,
        ErrorKind::PermissionDenied => "you do not have permission to do this"@,
        ErrorKind::OutOfMemory => "system is run out of memory"@,
        ErrorKind::SegmentationFault => "application memory broken"@,
        ErrorKind::BadArgument => "bad argument"@,
        ErrorKind::Unknown => "unknown error"@,
    }
}

/// A failed system call: the kernel's nonzero return code.
#[derive(Clone, Copy)]
pub struct SyscallError {
    code: u64,
}

impl SyscallError {
    #[verifier::type_invariant]
    spec fn nonzero(self) -> bool {
        self.code != 0
    }

    /// The raw error code held.
    pub closed spec fn spec_code(self) -> u64 {
        self.code
    }

    /// `Some` error for a nonzero code, `None` for zero (success).
    pub fn new(error: u64) -> (r: Option<SyscallError>)
        ensures
            r is Some <==> error != 0,
            r matches Some(e) ==> e.spec_code() == error,
    {
        if error != 0 {
            Some(SyscallError { code: error })
        } else {
            None
        }
    }

    /// `Ok(())` for code zero, otherwise the error holding the code.
    pub fn to_result(error: u64) -> (r: Result<(), SyscallError>)
        ensures
            r is Ok <==> error == 0,
            r matches Err(e) ==> e.spec_code() == error,
    {
        if error != 0 {
            Err(SyscallError { code: error })
        } else {
            Ok(())
        }
    }

    pub fn error_code(self) -> (c: u64)
        ensures
            c == self.spec_code(),
            c != 0,
    {
        proof {
            use_type_invariant(self);
        }
        self.code
    }

    pub fn kind(&self) -> (k: ErrorKind)
        ensures
            k == spec_kind_of(self.spec_code()),
    {
        ErrorKind::from_error_code(self.code)
    }
}

/// Mapping a code to its kind and back gives the code again for every known code.
pub proof fn lemma_kind_code_roundtrip(kind: ErrorKind)
    requires
        kind != ErrorKind::Unknown,
    ensures
        spec_kind_of(kind_code(kind)) == kind,
{
}

} // verus!
