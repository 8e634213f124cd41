use vstd::prelude::*;

verus! {

/// The public error codes under which resolver failures are reported.
#[derive(PartialEq, Eq, Structural, Clone, Copy, Debug)]
pub enum Code {
    IndexAlreadyExists,
    IndexNotFound,
    PrimaryKeyAlreadyPresent,
    Internal,
    CreateIndex,
    InvalidIndexUid,
    InvalidState,
    MissingPrimaryKey,
    DocumentNotFound,
}

/// Every way an index resolver operation can fail.
#[derive(Clone, Debug, PartialEq, Eq)]
pub enum IndexResolverError {
    /// A failure inside one index, reported under its own code.
    IndexError(Code, String),
    /// The name is already bound to an index.
    IndexAlreadyExists(String),
    /// No index is bound to the name.
    UnexistingIndex(String),
    /// The index already has a different primary key.
    ExistingPrimaryKey,
    /// A failure of a lower layer that the resolver cannot handle itself.
    Internal(String),
    /// The freshly generated identifier was already in use.
    UuidAlreadyExists(u128),
    /// A failure of the storage engine, reported under its own code.
    Milli(Code, String),
    /// The name is not a well-formed index name.
    BadlyFormatted(String),
}

impl IndexResolverError {
    /// The code under which `self` is reported.
    pub open spec fn code(&self) -> Code {
        match self {
            IndexResolverError::IndexError(c, _) => *c,
            IndexResolverError::IndexAlreadyExists(_) => Code::IndexAlreadyExists,
            IndexResolverError::UnexistingIndex(_) => Code::IndexNotFound,
            IndexResolverError::ExistingPrimaryKey => Code::PrimaryKeyAlreadyPresent,
            IndexResolverError::Internal(_) => Code::Internal,
            IndexResolverError::UuidAlreadyExists(_) => Code::CreateIndex,
            IndexResolverError::Milli(c, _) => *c,
            IndexResolverError::BadlyFormatted(_) => Code::InvalidIndexUid,
        }
    }

    pub fn error_code(&self) -> (r: Code)
        ensures
            r == self.code(),
    {
        match self {
            IndexResolverError::IndexError(c, _) => *c,
            IndexResolverError::IndexAlreadyExists(_) => Code::IndexAlreadyExists,
            IndexResolverError::UnexistingIndex(_) => Code::IndexNotFound,
            IndexResolverError::ExistingPrimaryKey => Code::PrimaryKeyAlreadyPresent,
            IndexResolverError::Internal(_) => Code::Internal,
            IndexResolverError::UuidAlreadyExists(_) => Code::CreateIndex,
            IndexResolverError::Milli(c, _) => *c,
            IndexResolverError::BadlyFormatted(_) => Code::InvalidIndexUid,
        }
    }
}

} // verus!
