use vstd::prelude::*;

use crate::xml_error::XmlError;
use crate::xml_writer::XmlWriter;

verus! {

/// A value that can be written as XML.  An implementation emits exactly its
/// own element, with the writer's start/end calls balanced; `to_string`
/// serializes one value into a fresh output.
pub trait XmlWrite {
    fn to_writer(&self, writer: &mut XmlWriter) -> Result<(), XmlError>
        requires
            old(writer).wf(),
    ;

    fn to_string(&self) -> Result<String, XmlError> {
        let mut writer = XmlWriter::new(String::new());
        match self.to_writer(&mut writer) {
            Ok(()) => Ok(writer.into_inner()),
            Err(e) => Err(e),
        }
    }
}

} // verus!
