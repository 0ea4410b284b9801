use vstd::prelude::*;

verus! {

/// The two ways in which a decode or a sample call can fail.
#[derive(Debug, Clone, Copy, PartialEq, Eq, Structural)]
pub enum GGUFReaderErrorKind {
    /// The input ended before a field was complete, or a call was made on
    /// an input that leaves nothing to choose from.
    Unexpected,
    /// The bytes could be read but do not form a valid container.
    DataError,
}

/// An error with its kind and a message for people.
#[derive(Debug, Clone, PartialEq, Eq)]
pub struct GGUFError {
    kind: GGUFReaderErrorKind,
    msg: String,
}

impl GGUFError {
    /// The kind of this error, for contracts.
    pub closed spec fn spec_kind(&self) -> GGUFReaderErrorKind {
        self.kind
    }

    /// The message of this error, for contracts.
    pub closed spec fn spec_msg(&self) -> Seq<char> {
        self.msg@
    }

    pub fn new(kind: GGUFReaderErrorKind, msg: &str) -> (e: GGUFError)
        ensures
            e.spec_kind() == kind,
            e.spec_msg() == msg@,
    {
        GGUFError { kind, msg: msg.to_owned() }
    }

    /// An error of kind `Unexpected`.
    pub fn unexpected(msg: &str) -> (e: GGUFError)
        ensures
            e.spec_kind() == GGUFReaderErrorKind::Unexpected,
            e.spec_msg() == msg@,
    {
        GGUFError::new(GGUFReaderErrorKind::Unexpected, msg)
    }

    /// An error of kind `DataError`.
    pub fn data_error(msg: &str) -> (e: GGUFError)
        ensures
            e.spec_kind() == GGUFReaderErrorKind::DataError,
            e.spec_msg() == msg@,
    {
        GGUFError::new(GGUFReaderErrorKind::DataError, msg)
    }

    #[verifier::when_used_as_spec(spec_kind)]
    pub fn kind(&self) -> (k: GGUFReaderErrorKind)
        ensures
            k == self.spec_kind(),
    {
        self.kind
    }

    pub fn msg(&self) -> (m: &str)
        ensures
            m@ == self.spec_msg(),
    {
        self.msg.as_str()
    }
}

} // verus!
