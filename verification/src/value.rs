use vstd::prelude::*;

verus! {

/// A run-time value produced by resolving an expression against one record.
///
/// Values are immutable once produced: an expression hands a value to its
/// caller or writes it into a batch slot, and nothing mutates it afterwards.
#[derive(Clone, Copy, Debug, PartialEq, Eq, Structural)]
pub enum Value {
    Null,
    Boolean(bool),
    Integer(i64),
    Timestamp(i64),
}

/// A run-time evaluation error.
///
/// A `Recoverable` error is a value the language itself can branch on; the
/// engine only propagates it faithfully. An `Abort` stops evaluation of the
/// whole record (or, in a batch, of that one row). Which of the two an
/// expression can produce is exactly what the `fallible` and `abortable`
/// flags of its inferred [`crate::TypeDef`] predict.
///
/// Diagnostic payloads are plain codes; rendering them into messages belongs
/// to the surrounding pipeline, not to this core.
#[derive(Clone, Copy, Debug, PartialEq, Eq, Structural)]
pub enum Error {
    Recoverable { code: i64 },
    Abort { code: i64 },
}

/// The outcome of resolving one expression for one record or one batch row.
pub type Resolved = Result<Value, Error>;

impl Error {
    /// True of the errors that terminate the whole record rather than being
    /// recoverable by error-handling syntax.
    pub open spec fn spec_is_abort(self) -> bool {
        matches!(self, Error::Abort { .. })
    }

    pub fn is_abort(&self) -> (b: bool)
        ensures
            b == self.spec_is_abort(),
    {
        match self {
            Error::Abort { .. } => true,
            Error::Recoverable { .. } => false,
        }
    }
}

} // verus!
