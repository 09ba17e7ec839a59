//! The failures that decoding and encoding report.

use vstd::prelude::*;

verus! {

/// Why decoding stopped.
///
/// `kind` tells the three families apart that callers distinguish: a
/// malformed stream or a broken policy, a value that its context cannot
/// accept, and a source that ended early.
#[derive(Clone, Copy, PartialEq, Eq, Structural, Debug)]
pub enum DecodeError {
    /// The source held fewer bytes than the item needs.
    PrematureEof { expected: usize, received: usize },
    /// Containers are nested deeper than the limit given.
    RecursionLimit { max_depth: usize },
    /// The subtype cannot carry a length.
    UnknownLengthSubtype { subtype: u8 },
    /// An indefinite length stands where a definite one is needed.
    IndefiniteLengthNotAllowed,
    /// A length does not fit into the memory of this machine.
    LengthTooLarge { length: u64 },
    /// A chunk of an indefinite-length string is itself too long.
    ChunkTooLong { length: u64 },
    /// A chunk of an indefinite-length string has another major type.
    WrongChunkType { wanted: u8, found: u8 },
    /// A text string is not valid UTF-8 under the strict policy.
    InvalidUtf8,
    /// Major type 7 with a subtype that has no meaning.
    ReservedSpecial { subtype: u8 },
    /// A two-byte simple value in the reserved range 24 to 31.
    ReservedSimpleValue { value: u8 },
    /// A map key that cannot be a key: a mutable container.
    UnhashableKey,
    /// A member of a set that cannot be a member: a mutable container.
    UnhashableMember,
    /// A string reference outside of any namespace.
    StringReferenceOutsideNamespace,
    /// A string reference to an index that the namespace does not hold.
    StringReferenceNotFound { index: u64 },
    /// A reference whose index is no unsigned integer.
    InvalidReferenceIndex,
    /// A shared reference to a slot that was never made.
    SharedReferenceNotFound { index: u64 },
    /// A shared reference to a slot whose value is still being read.
    SharedValueNotInitialized { index: u64 },
    /// The content of a semantic tag has the wrong shape.
    InvalidTagPayload { tag: u64 },
    /// The object hook failed.
    ObjectHookFailed,
    /// The tag hook failed.
    TagHookFailed,
}

/// The family of a decoding failure.
#[derive(Clone, Copy, PartialEq, Eq, Structural, Debug)]
pub enum DecodeErrorKind {
    /// Malformed stream or broken policy.
    Malformed,
    /// A value that its context cannot accept.
    Value,
    /// The source ended early.
    EndOfStream,
}

impl DecodeError {
    /// The family of this failure.
    pub open spec fn spec_kind(self) -> DecodeErrorKind {
        match self {
            DecodeError::PrematureEof { .. } => DecodeErrorKind::EndOfStream,
            DecodeError::RecursionLimit { .. } => DecodeErrorKind::Malformed,
            DecodeError::LengthTooLarge { .. } => DecodeErrorKind::Malformed,
            DecodeError::UnhashableKey => DecodeErrorKind::Malformed,
            DecodeError::UnhashableMember => DecodeErrorKind::Malformed,
            DecodeError::InvalidReferenceIndex => DecodeErrorKind::Malformed,
            DecodeError::ObjectHookFailed => DecodeErrorKind::Malformed,
            DecodeError::TagHookFailed => DecodeErrorKind::Malformed,
            _ => DecodeErrorKind::Value,
        }
    }

    /// The family of this failure.
    #[verifier::when_used_as_spec(spec_kind)]
    pub fn kind(self) -> (k: DecodeErrorKind)
        ensures
            k == self.spec_kind(),
    {
        match self {
            DecodeError::PrematureEof { .. } => DecodeErrorKind::EndOfStream,
            DecodeError::RecursionLimit { .. } => DecodeErrorKind::Malformed,
            DecodeError::LengthTooLarge { .. } => DecodeErrorKind::Malformed,
            DecodeError::UnhashableKey => DecodeErrorKind::Malformed,
            DecodeError::UnhashableMember => DecodeErrorKind::Malformed,
            DecodeError::InvalidReferenceIndex => DecodeErrorKind::Malformed,
            DecodeError::ObjectHookFailed => DecodeErrorKind::Malformed,
            DecodeError::TagHookFailed => DecodeErrorKind::Malformed,
            _ => DecodeErrorKind::Value,
        }
    }

    /// Whether two failures are the same but for the byte counts of an
    /// early end, which depend on how the source was buffered.
    pub open spec fn same_as(self, other: DecodeError) -> bool {
        self == other || (self is PrematureEof && other is PrematureEof)
    }
}

/// Why encoding stopped.
#[derive(Clone, PartialEq, Eq, Debug)]
pub enum EncodeError {
    /// A container holds itself and value sharing is off.
    CyclicStructure,
    /// A reference into the table of shared values that holds no such entry.
    DanglingReference { index: usize },
    /// A value of a kind that has no encoding, with no fallback given;
    /// `name` is the name of its type.
    UnsupportedType { name: String },
    /// A date and time without a zone, with no default zone given.
    NaiveDateTime,
    /// A value of a known kind whose content has the wrong shape.
    InvalidContent,
    /// The fallback for unsupported values failed.
    DefaultHookFailed,
    /// The sink refused the bytes.
    WriteFailed,
}

/// The model of an encoding failure: the failure with the name of the type
/// as its characters.
pub enum EncodeFault {
    CyclicStructure,
    DanglingReference { index: usize },
    UnsupportedType { name: Seq<char> },
    NaiveDateTime,
    InvalidContent,
    DefaultHookFailed,
    WriteFailed,
}

impl View for EncodeError {
    type V = EncodeFault;

    open spec fn view(&self) -> EncodeFault {
        match *self {
            EncodeError::CyclicStructure => EncodeFault::CyclicStructure,
            EncodeError::DanglingReference { index } => EncodeFault::DanglingReference { index },
            EncodeError::UnsupportedType { name } => EncodeFault::UnsupportedType { name: name@ },
            EncodeError::NaiveDateTime => EncodeFault::NaiveDateTime,
            EncodeError::InvalidContent => EncodeFault::InvalidContent,
            EncodeError::DefaultHookFailed => EncodeFault::DefaultHookFailed,
            EncodeError::WriteFailed => EncodeFault::WriteFailed,
        }
    }
}

/// The family of an encoding failure.
#[derive(Clone, Copy, PartialEq, Eq, Structural, Debug)]
pub enum EncodeErrorKind {
    /// The value has no encoding.
    Unencodable,
    /// The value has an encoding in general, but not as it stands.
    Value,
}

impl EncodeFault {
    /// The family of this failure.
    pub open spec fn kind(self) -> EncodeErrorKind {
        match self {
            EncodeFault::CyclicStructure => EncodeErrorKind::Value,
            EncodeFault::DanglingReference { .. } => EncodeErrorKind::Value,
            EncodeFault::InvalidContent => EncodeErrorKind::Value,
            _ => EncodeErrorKind::Unencodable,
        }
    }
}

impl EncodeError {
    /// The family of this failure.
    pub fn kind(&self) -> (k: EncodeErrorKind)
        ensures
            k == self@.kind(),
    {
        match self {
            EncodeError::CyclicStructure => EncodeErrorKind::Value,
            EncodeError::DanglingReference { .. } => EncodeErrorKind::Value,
            EncodeError::InvalidContent => EncodeErrorKind::Value,
            _ => EncodeErrorKind::Unencodable,
        }
    }
}

} // verus!
