use vstd::prelude::*;

verus! {

/// The closed set of reasons a read or a write can fail.  Every error is
/// terminal: no operation retries or swallows one.
#[derive(Debug)]
pub enum XmlError {
    /// The underlying tokenizer rejected the input; the message is the
    /// tokenizer's own description of the fault.
    Parser { message: String },
    /// A pop of the namespace-scope stack was asked for when no scope was
    /// open: the writer's start/end calls were not balanced.
    Io { message: String },
    /// The input ended while a structural construct was still open.
    UnexpectedEof,
    /// A token appeared in a position the grammar forbids.
    UnexpectedToken { token: String },
    /// A closing tag's name does not match its opening tag.
    TagMismatch { expected: String, found: String },
    /// A required field was absent when assembling a record.
    MissingField { name: String, field: String },
    /// An `&` with no `;` before the end of the input.
    UnterminatedEntity { entity: String },
    /// An entity between `&` and `;` that names no character.
    UnrecognizedSymbol { symbol: String },
}

/// The ghost image of an [`XmlError`]: the same variants, with every text
/// field viewed as a sequence of characters.
pub ghost enum ErrorModel {
    Parser { message: Seq<char> },
    Io { message: Seq<char> },
    UnexpectedEof,
    UnexpectedToken { token: Seq<char> },
    TagMismatch { expected: Seq<char>, found: Seq<char> },
    MissingField { name: Seq<char>, field: Seq<char> },
    UnterminatedEntity { entity: Seq<char> },
    UnrecognizedSymbol { symbol: Seq<char> },
}

impl View for XmlError {
    type V = ErrorModel;

    open spec fn view(&self) -> ErrorModel {
        match self {
            XmlError::Parser { message } => ErrorModel::Parser { message: message@ },
            XmlError::Io { message } => ErrorModel::Io { message: message@ },
            XmlError::UnexpectedEof => ErrorModel::UnexpectedEof,
            XmlError::UnexpectedToken { token } => ErrorModel::UnexpectedToken { token: token@ },
            XmlError::TagMismatch { expected, found } => ErrorModel::TagMismatch {
                expected: expected@,
                found: found@,
            },
            XmlError::MissingField { name, field } => ErrorModel::MissingField {
                name: name@,
                field: field@,
            },
            XmlError::UnterminatedEntity { entity } => ErrorModel::UnterminatedEntity {
                entity: entity@,
            },
            XmlError::UnrecognizedSymbol { symbol } => ErrorModel::UnrecognizedSymbol {
                symbol: symbol@,
            },
        }
    }
}

/// Specialized `Result` whose error value is [`XmlError`].
pub type XmlResult<T> = Result<T, XmlError>;

} // verus!
