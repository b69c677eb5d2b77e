//! A streaming XML reader and writer.
//!
//! The reader wraps an external pull tokenizer and layers matching and
//! skipping primitives on top of the token stream: reading the text of an
//! element, skipping a whole subtree, scanning for an attribute or a child
//! element.  The writer is an append-only emitter of XML syntax with a
//! namespace-prefix scoping stack.  Entity escaping and unescaping of text
//! content are part of the library.
//!
//! Every operation carries a contract that pins down, token by token, what
//! it consumes, what it returns and which error it reports.

pub mod utils;

mod xml_error;
mod xml_read;
mod xml_escape;
mod xml_reader;
mod xml_text;
mod xml_token;
mod xml_unescape;
mod xml_write;
mod xml_writer;

pub use xml_error::ErrorModel;
pub use xml_error::XmlError;
pub use xml_error::XmlResult;
pub use xml_escape::escape_char;
pub use xml_escape::escaped_text;
pub use xml_escape::has_special;
pub use xml_escape::is_xml_special;
pub use xml_escape::lemma_escape_no_special;
pub use xml_escape::lemma_escape_unescape_roundtrip;
pub use xml_escape::xml_escape;
pub use xml_read::XmlRead;
pub use xml_read::XmlReadOwned;
pub use xml_reader::find_outcome;
pub use xml_reader::find_run;
pub use xml_reader::read_text;
pub use xml_reader::read_till_element_start;
pub use xml_reader::read_to_end;
pub use xml_reader::rte_run;
pub use xml_reader::skip_outcome;
pub use xml_reader::text_outcome;
pub use xml_reader::text_run;
pub use xml_reader::till_run;
pub use xml_reader::FindRun;
pub use xml_reader::RteState;
pub use xml_reader::SkipRun;
pub use xml_reader::TextRun;
pub use xml_reader::lemma_read_to_end_nested;
pub use xml_reader::lemma_till_stops_at_start;
pub use xml_reader::nested_element;
pub use xml_reader::XmlReader;
pub use xml_write::XmlWrite;
pub use xml_writer::attr_text;
pub use xml_writer::cdata_text;
pub use xml_writer::close_text;
pub use xml_writer::closed_model;
pub use xml_writer::declared_model;
pub use xml_writer::declares_applied;
pub use xml_writer::decls_consistent;
pub use xml_writer::flatten_text;
pub use xml_writer::lemma_namespace_scope_balanced;
pub use xml_writer::ns_bindings;
pub use xml_writer::ns_decl_text;
pub use xml_writer::ns_defined_as;
pub use xml_writer::opened_model;
pub use xml_writer::start_text;
pub use xml_writer::NsModel;
pub use xml_writer::XmlWriter;
pub use xml_text::XmlText;
pub use xml_token::opt_qname;
pub use xml_token::qname;
pub use xml_token::spec_opt_qname;
pub use xml_token::spec_qname;
pub use xml_token::str_equal;
pub use xml_token::XmlToken;
pub use xml_unescape::entity_char;
pub use xml_unescape::has_amp;
pub use xml_unescape::unescape_run;
pub use xml_unescape::UnescapeOutcome;
pub use xml_unescape::xml_unescape;
