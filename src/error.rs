use vstd::prelude::*;

verus! {

/// The category of a failure, as surfaced to the user.
#[derive(Clone, Copy, Debug, PartialEq, Eq, Structural)]
pub enum ErrorKind {
    /// The statement holds a clause outside the supported subset.
    ParseShape,
    /// CREATE with an unsupported column type or more than one primary key.
    Schema,
    /// Unknown table, unknown column.
    Resolution,
    /// Operand types incompatible with an operator, or an incompatible row shape.
    Type,
    /// A literal out of range, or a value that cannot be converted.
    Value,
    /// Integer overflow or division by zero during evaluation.
    Arithmetic,
    /// A duplicate primary key on INSERT.
    Constraint,
    /// A failure of the key-value store.
    Storage,
    /// A recognized but unimplemented feature.
    Unsupported,
}

/// An error: its category and a human-readable message.
#[derive(Clone, Debug)]
pub struct Error {
    pub kind: ErrorKind,
    pub message: String,
}

impl Error {
    pub fn new(kind: ErrorKind, message: &str) -> (r: Error)
        ensures
            r.kind == kind,
            r.message@ == message@,
    {
        Error { kind, message: message.to_string() }
    }

    /// The category label that prefixes the message on output.
    pub fn label(&self) -> (r: &'static str) {
        match self.kind {
            ErrorKind::ParseShape => "parse error",
            ErrorKind::Schema => "schema error",
            ErrorKind::Resolution => "resolution error",
            ErrorKind::Type => "type error",
            ErrorKind::Value => "value error",
            ErrorKind::Arithmetic => "arithmetic error",
            ErrorKind::Constraint => "constraint error",
            ErrorKind::Storage => "storage error",
            ErrorKind::Unsupported => "unsupported",
        }
    }
}

/// The outcome of a fallible step, with the error reduced to its category.
pub open spec fn outcome<T>(r: Result<T, Error>) -> Result<T, ErrorKind> {
    match r {
        Ok(v) => Ok(v),
        Err(e) => Err(e.kind),
    }
}

/// An error of the given category.
pub open spec fn fails_with<T>(r: Result<T, Error>, kind: ErrorKind) -> bool {
    r is Err && r->Err_0.kind == kind
}

} // verus!
