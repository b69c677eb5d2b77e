//! The text helpers on their own, for callers that use the escaper or the
//! unescaper without a reader or a writer.

pub use crate::xml_escape::xml_escape;
pub use crate::xml_unescape::xml_unescape;
