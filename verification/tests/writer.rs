use strong_xml::XmlError;
use strong_xml::XmlReader;
use strong_xml::XmlRead;
use strong_xml::XmlResult;
use strong_xml::XmlWrite;
use strong_xml::XmlWriter;

#[test]
fn writer_emits_element_with_attribute() -> XmlResult<()> {
    let mut writer = XmlWriter::new(String::new());
    writer.write_element_start(None, "root")?;
    writer.write_attribute(None, "a", "v<1")?;
    writer.write_element_end_empty()?;
    assert_eq!(writer.into_inner(), "<root a=\"v&lt;1\"/>");
    Ok(())
}

#[test]
fn writer_emits_prefixed_names() -> XmlResult<()> {
    let mut writer = XmlWriter::new(String::new());
    writer.write_element_start(Some("n"), "nested")?;
    writer.write_attribute(Some("n"), "key", "value")?;
    writer.write_element_end_open()?;
    writer.write_text("a&b")?;
    writer.write_element_end_close(Some("n"), "nested")?;
    assert_eq!(writer.into_inner(), "<n:nested n:key=\"value\">a&amp;b</n:nested>");
    Ok(())
}

#[test]
fn writer_cdata_passes_verbatim() -> XmlResult<()> {
    let mut writer = XmlWriter::new(String::new());
    writer.write_element_start(None, "root")?;
    writer.write_element_end_open()?;
    writer.write_cdata_text("<not & escaped>")?;
    writer.write_element_end_close(None, "root")?;
    assert_eq!(writer.into_inner(), "<root><![CDATA[<not & escaped>]]></root>");
    Ok(())
}

#[test]
fn writer_flatten_text_both_ways() -> XmlResult<()> {
    let mut writer = XmlWriter::new(String::new());
    writer.write_flatten_text(None, "tag", "a<b", false)?;
    assert_eq!(writer.into_inner(), "<tag>a&lt;b</tag>");

    let mut writer = XmlWriter::new(String::new());
    writer.write_flatten_text(None, "code", "a<b", true)?;
    assert_eq!(writer.into_inner(), "<code><![CDATA[a<b]]></code>");
    Ok(())
}

#[test]
fn writer_namespace_declaration_output() -> XmlResult<()> {
    let mut writer = XmlWriter::new(String::new());
    writer.write_element_start(Some("n"), "root")?;
    writer.write_namespace_declaration(Some("n"), "http://example.com")?;
    // the same binding again is suppressed
    writer.write_namespace_declaration(Some("n"), "http://example.com")?;
    writer.write_namespace_declaration(None, "http://base.example.com")?;
    writer.write_element_end_open()?;
    writer.write_element_end_close(Some("n"), "root")?;
    assert_eq!(
        writer.into_inner(),
        "<n:root xmlns:n=\"http://example.com\" xmlns=\"http://base.example.com\"></n:root>"
    );
    Ok(())
}

#[test]
fn writer_suppresses_duplicate_in_child_scope() -> XmlResult<()> {
    let mut writer = XmlWriter::new(String::new());
    writer.write_element_start(Some("n"), "root")?;
    writer.write_namespace_declaration(Some("n"), "http://example.com")?;
    writer.write_element_end_open()?;
    writer.write_element_start(Some("n"), "child")?;
    // bound to the same namespace already: nothing is emitted
    writer.write_namespace_declaration(Some("n"), "http://example.com")?;
    writer.write_element_end_open()?;
    writer.write_element_end_close(Some("n"), "child")?;
    writer.write_element_end_close(Some("n"), "root")?;
    assert_eq!(
        writer.into_inner(),
        "<n:root xmlns:n=\"http://example.com\"><n:child></n:child></n:root>"
    );
    Ok(())
}

#[test]
fn writer_scope_restores_nested_redeclaration() -> XmlResult<()> {
    let mut writer = XmlWriter::new(String::new());
    let prefix = Some("n");
    assert_eq!(writer.get_namespace(&prefix), None);

    writer.write_element_start(Some("n"), "root")?;
    writer.write_namespace_declaration(Some("n"), "outer")?;
    writer.write_element_end_open()?;
    assert_eq!(writer.get_namespace(&prefix), Some("outer".to_string()));
    assert!(writer.is_prefix_defined_as(&prefix, "outer"));

    writer.write_element_start(Some("n"), "child")?;
    writer.write_namespace_declaration(Some("n"), "inner")?;
    writer.write_element_end_open()?;
    assert_eq!(writer.get_namespace(&prefix), Some("inner".to_string()));
    assert!(!writer.is_prefix_defined_as(&prefix, "outer"));

    writer.write_element_end_close(Some("n"), "child")?;
    // the child's scope closed: the outer binding is back
    assert_eq!(writer.get_namespace(&prefix), Some("outer".to_string()));

    writer.write_element_end_close(Some("n"), "root")?;
    // the root's scope closed: no binding is left
    assert_eq!(writer.get_namespace(&prefix), None);
    assert!(!writer.is_prefix_defined_as(&prefix, "outer"));
    Ok(())
}

#[test]
fn writer_unbalanced_close_is_a_fault() {
    let mut writer = XmlWriter::new(String::new());
    match writer.write_element_end_close(None, "root") {
        Err(XmlError::Io { message }) => {
            assert_eq!(message, "Failed to restore previous prefix scope");
        }
        other => panic!("expected the unbalanced-close fault, got {:?}", other),
    }
    // a declaration outside any element is a fault too
    match writer.write_namespace_declaration(None, "http://example.com") {
        Err(XmlError::Io { message }) => {
            assert_eq!(message, "Failed to get current prefix scope");
        }
        other => panic!("expected the no-scope fault, got {:?}", other),
    }
}

/// The kind of record the library's callers assemble: one attribute and one
/// text child, written and read through the two traits.
#[derive(Debug, PartialEq)]
struct Parent {
    attr1: String,
    child: String,
}

impl XmlWrite for Parent {
    fn to_writer(&self, writer: &mut XmlWriter) -> XmlResult<()> {
        writer.write_element_start(None, "parent")?;
        writer.write_attribute(None, "attr1", &self.attr1)?;
        writer.write_element_end_open()?;
        writer.write_flatten_text(None, "child", &self.child, false)?;
        writer.write_element_end_close(None, "parent")?;
        Ok(())
    }
}

impl XmlRead for Parent {
    fn from_reader(reader: &mut XmlReader) -> XmlResult<Self> {
        let mut attr1 = None;
        let mut child = None;
        reader.read_till_element_start("parent")?;
        while let Some((name, value)) = reader.find_attribute()? {
            if name == "attr1" {
                // attribute values are handed out raw; each caller unescapes
                attr1 = Some(strong_xml::xml_unescape(&value)?.into_string());
            }
        }
        if let Some(token) = reader.next() {
            if !matches!(token, strong_xml::XmlToken::ElementEndOpen) {
                return Err(XmlError::UnexpectedToken { token: "ElementEnd".to_string() });
            }
        }
        while let Some(tag) = reader.find_element_start(Some("parent"))? {
            if tag == "child" {
                reader.next();
                child = Some(reader.read_text("child")?);
            } else {
                reader.next();
                reader.read_to_end(&tag)?;
            }
        }
        let attr1 = attr1.ok_or_else(|| XmlError::MissingField {
            name: "Parent".to_string(),
            field: "attr1".to_string(),
        })?;
        let child = child.ok_or_else(|| XmlError::MissingField {
            name: "Parent".to_string(),
            field: "child".to_string(),
        })?;
        Ok(Parent { attr1, child })
    }
}

#[test]
fn record_round_trip_through_traits() -> XmlResult<()> {
    let record = Parent { attr1: "it's".to_string(), child: "a<b".to_string() };
    let text = record.to_string()?;
    assert_eq!(text, "<parent attr1=\"it&apos;s\"><child>a&lt;b</child></parent>");
    assert_eq!(Parent::from_str(&text)?, record);
    Ok(())
}

#[test]
fn record_missing_field_is_reported() {
    match Parent::from_str("<parent><child>x</child></parent>") {
        Err(XmlError::MissingField { name, field }) => {
            assert_eq!(name, "Parent");
            assert_eq!(field, "attr1");
        }
        other => panic!("expected a missing field, got {:?}", other),
    }
}
