use vstd::prelude::*;
use vstd::string::StringExecFns;

verus! {

/// Bit flag tracking whether an I/O error was raised while writing (set)
/// or while reading (clear) an ACL.
pub const FLAG_WRITE: u32 = 0x4000_0000;

/// The platform's designator of a path's access ACL.
pub const ACL_TYPE_ACCESS: u32 = 0x8000;

/// The platform's designator of a directory's default ACL.
pub const ACL_TYPE_DEFAULT: u32 = 0x4000;

/// The flag words an I/O error can carry: one of the two ACL type
/// designators, with or without the write bit.
pub open spec fn flags_valid(flags: u32) -> bool {
    ||| flags & !FLAG_WRITE == ACL_TYPE_ACCESS
    ||| flags & !FLAG_WRITE == ACL_TYPE_DEFAULT
}

/// Coarse category of an error, mirroring the operating system's taxonomy.
/// `ValidationError` is reported as `InvalidData`.
#[derive(Debug, PartialEq, Eq, Structural, Clone, Copy)]
pub enum ErrorKind {
    /// An entity was not found (`ENOENT`).
    NotFound,
    /// The operation lacked the necessary privileges (`EPERM`, `EACCES`).
    PermissionDenied,
    /// An entity already exists (`EEXIST`).
    AlreadyExists,
    /// The operation was interrupted (`EINTR`).
    Interrupted,
    /// A parameter was incorrect (`EINVAL`).
    InvalidInput,
    /// The data was not valid for the operation: the category of every
    /// ACL validation failure.
    InvalidData,
    /// A directory was expected (`ENOTDIR`).
    NotADirectory,
    /// An allocation failed (`ENOMEM`).
    OutOfMemory,
    /// The operation is not supported here (`ENOSYS`, `ENOTSUP`).
    Unsupported,
    /// Any error code this taxonomy does not single out.
    Other,
}

/// The category the operating system assigns to an `errno` value.
pub open spec fn kind_of_code(code: i32) -> ErrorKind {
    if code == 1 || code == 13 {
        ErrorKind::PermissionDenied
    } else if code == 2 {
        ErrorKind::NotFound
    } else if code == 4 {
        ErrorKind::Interrupted
    } else if code == 12 {
        ErrorKind::OutOfMemory
    } else if code == 17 {
        ErrorKind::AlreadyExists
    } else if code == 20 {
        ErrorKind::NotADirectory
    } else if code == 22 {
        ErrorKind::InvalidInput
    } else if code == 38 || code == 95 {
        ErrorKind::Unsupported
    } else {
        ErrorKind::Other
    }
}

/// Detail of an [`ACLError::IoError`]: the operating system's error code
/// and the read/write + access/default context it arose in.
#[derive(Debug)]
pub struct IoErrorDetail {
    code: i32,
    flags: u32,
}

impl IoErrorDetail {
    #[verifier::type_invariant]
    spec fn flags_wf(self) -> bool {
        flags_valid(self.flags)
    }

    /// The `errno` value the failed platform call left behind.
    pub closed spec fn spec_code(self) -> i32 {
        self.code
    }

    /// The read/write + access/default context word.
    pub closed spec fn spec_flags(self) -> u32 {
        self.flags
    }
}

/// Detail of an [`ACLError::ValidationError`]. The platform reports no
/// reason for a failed validation, so this carries none; it exists for
/// future extensibility.
#[derive(Debug)]
pub struct ValidationErrorDetail {
    _reserved: (),
}

/// Error type from ACL operations. To distinguish different causes, use
/// the `kind()` method.
#[derive(Debug)]
pub enum ACLError {
    /// Error reading or writing an ACL.
    IoError(IoErrorDetail),
    /// ACL is not valid and cannot be written.
    ///
    /// Unfortunately it is not possible to provide detailed reasons, but
    /// mainly it can mean:
    /// * Required entries are missing (`UserObj`, `GroupObj`, `Mask` and `Other`).
    /// * ACL contains entries that are not unique.
    ValidationError(ValidationErrorDetail),
}

/// The word `to_string` renders for the operation that failed.
pub open spec fn op_word(flags: u32) -> Seq<char> {
    if flags & FLAG_WRITE != 0 {
        "writing"@
    } else {
        "reading"@
    }
}

/// The word `to_string` renders for the kind of ACL that was involved.
pub open spec fn type_word(flags: u32) -> Seq<char> {
    if flags & !FLAG_WRITE == ACL_TYPE_ACCESS {
        "ACL"@
    } else {
        "default ACL"@
    }
}

/// The fixed part of the message an I/O error renders to: everything but
/// the operating system's own description of the error code.
pub open spec fn msg_prefix(flags: u32) -> Seq<char> {
    "Error "@ + op_word(flags) + " "@ + type_word(flags) + ": "@
}

/// Relies on `std::io::Error::last_os_error` and `raw_os_error`: the
/// `errno` the most recent failed operating-system call on this thread
/// left behind; `0` stands in when none is reported.
#[verifier::external_body]
fn last_os_errno() -> i32 {
    std::io::Error::last_os_error().raw_os_error().unwrap_or(0)
}

/// Relies on `std::io::Error::from_raw_os_error`: the operating system's
/// description of an error code, e.g. "No such file or directory (os
/// error 2)".
#[verifier::external_body]
fn os_error_message(code: i32) -> String {
    std::io::Error::from_raw_os_error(code).to_string()
}

impl ACLError {
    /// The category of this error.
    pub closed spec fn spec_kind(self) -> ErrorKind {
        match self {
            ACLError::ValidationError(_) => ErrorKind::InvalidData,
            ACLError::IoError(detail) => kind_of_code(detail.spec_code()),
        }
    }

    /// The context word of an I/O error; `0` for a validation error.
    pub closed spec fn spec_flags(self) -> u32 {
        match self {
            ACLError::ValidationError(_) => 0,
            ACLError::IoError(detail) => detail.spec_flags(),
        }
    }

    /// Get a general category of error. `ValidationError` gets returned as
    /// `InvalidData`; an I/O error reports the category of the underlying
    /// OS error (not-found, permission-denied, etc).
    pub fn kind(&self) -> (r: ErrorKind)
        ensures
            r == self.spec_kind(),
            self is ValidationError ==> r == ErrorKind::InvalidData,
    {
        match self {
            ACLError::ValidationError(_) => ErrorKind::InvalidData,
            ACLError::IoError(detail) => {
                let code = detail.code;
                if code == 1 || code == 13 {
                    ErrorKind::PermissionDenied
                } else if code == 2 {
                    ErrorKind::NotFound
                } else if code == 4 {
                    ErrorKind::Interrupted
                } else if code == 12 {
                    ErrorKind::OutOfMemory
                } else if code == 17 {
                    ErrorKind::AlreadyExists
                } else if code == 20 {
                    ErrorKind::NotADirectory
                } else if code == 22 {
                    ErrorKind::InvalidInput
                } else if code == 38 || code == 95 {
                    ErrorKind::Unsupported
                } else {
                    ErrorKind::Other
                }
            },
        }
    }

    /// The message this error renders to: the fixed validation message, or
    /// the failed operation, the kind of ACL involved and the operating
    /// system's description of the code.
    pub fn to_string(&self) -> (r: String)
        ensures
            self is ValidationError ==> r@ == "ACL failed validation"@,
            self is IoError ==> exists|m: Seq<char>| r@ == msg_prefix(self.spec_flags()) + m,
    {
        match self {
            ACLError::ValidationError(_) => String::from_str("ACL failed validation"),
            ACLError::IoError(detail) => {
                proof {
                    use_type_invariant(detail);
                }
                let mut r = String::from_str("Error ");
                r.append(op_display(detail.flags));
                r.append(" ");
                r.append(type_display(detail.flags));
                r.append(": ");
                let m = os_error_message(detail.code);
                r.append(m.as_str());
                proof {
                    assert(r@ =~= msg_prefix(detail.flags) + m@);
                    assert(r@ == msg_prefix(self.spec_flags()) + m@);
                }
                r
            },
        }
    }

    /// Capture the `errno` of the operating-system call that just failed
    /// as an I/O error carrying the given context word.
    pub fn last_os_error(flags: u32) -> (r: ACLError)
        requires
            flags_valid(flags),
        ensures
            r is IoError,
            r.spec_flags() == flags,
    {
        ACLError::IoError(IoErrorDetail { code: last_os_errno(), flags })
    }

    /// The error a failed structural validation reports.
    pub fn validation_error() -> (r: ACLError)
        ensures
            r is ValidationError,
    {
        ACLError::ValidationError(ValidationErrorDetail { _reserved: () })
    }
}

/// String representation of the operation an error context word records,
/// for error messages.
pub fn op_display(flags: u32) -> (r: &'static str)
    ensures
        r@ == op_word(flags),
{
    if flags & FLAG_WRITE != 0 {
        "writing"
    } else {
        "reading"
    }
}

/// String representation of the kind of ACL an error context word
/// records, for error messages.
pub(crate) fn type_display(flags: u32) -> (r: &'static str)
    requires
        flags_valid(flags),
    ensures
        r@ == type_word(flags),
{
    if flags & !FLAG_WRITE == ACL_TYPE_ACCESS {
        "ACL"
    } else {
        "default ACL"
    }
}

} // verus!
