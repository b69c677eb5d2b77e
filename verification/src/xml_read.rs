use vstd::prelude::*;

use crate::xml_error::XmlError;
use crate::xml_reader::XmlReader;

verus! {

/// A value that can be read from the reader's token stream.  An
/// implementation consumes exactly its own element; `from_str` reads one
/// value out of a whole input.
pub trait XmlRead: Sized {
    fn from_reader(reader: &mut XmlReader) -> Result<Self, XmlError>;

    fn from_str(text: &str) -> Result<Self, XmlError> {
        let mut reader = XmlReader::new(text);
        Self::from_reader(&mut reader)
    }
}

/// A readable value that borrows nothing from the input it was read from.
pub trait XmlReadOwned: XmlRead {

}

impl<T: XmlRead> XmlReadOwned for T {

}

} // verus!
