use strong_xml::XmlError;
use strong_xml::XmlReader;
use strong_xml::XmlResult;
use strong_xml::XmlToken;

#[test]
fn test_read_till_element_start() -> XmlResult<()> {
    let mut reader = XmlReader::new("<tag/>");

    strong_xml::read_till_element_start(&mut reader, "tag")?;
    assert!(reader.next().is_some()); // "/>"
    assert!(reader.next().is_none());

    let mut reader = XmlReader::new("<parent><skip/><tag/></parent>");

    assert!(reader.next().is_some()); // "<parent"
    assert!(reader.next().is_some()); // ">"
    strong_xml::read_till_element_start(&mut reader, "tag")?;
    assert!(reader.next().is_some()); // "/>"
    assert!(reader.next().is_some()); // "</parent>"
    assert!(reader.next().is_none());

    let mut reader = XmlReader::new("<parent><skip></skip><tag/></parent>");

    assert!(reader.next().is_some()); // "<parent"
    assert!(reader.next().is_some()); // ">"
    strong_xml::read_till_element_start(&mut reader, "tag")?;
    assert!(reader.next().is_some()); // "/>"
    assert!(reader.next().is_some()); // "</parent>"
    assert!(reader.next().is_none());

    let mut reader = XmlReader::new("<parent><skip><skip/></skip><tag/></parent>");

    assert!(reader.next().is_some()); // "<parent"
    assert!(reader.next().is_some()); // ">"
    strong_xml::read_till_element_start(&mut reader, "tag")?;
    assert!(reader.next().is_some()); // "/>"
    assert!(reader.next().is_some()); // "</parent>"
    assert!(reader.next().is_none());

    let mut reader = XmlReader::new("<parent><skip><skip></skip></skip><tag/></parent>");

    assert!(reader.next().is_some()); // "<parent"
    assert!(reader.next().is_some()); // ">"
    strong_xml::read_till_element_start(&mut reader, "tag")?;
    assert!(reader.next().is_some()); // "/>"
    assert!(reader.next().is_some()); // "</parent>"
    assert!(reader.next().is_none());

    Ok(())
}

#[test]
fn read_text() -> XmlResult<()> {
    let mut reader = XmlReader::new("<parent></parent>");

    assert!(reader.next().is_some()); // "<parent"
    assert_eq!(reader.read_text("parent")?, "");
    assert!(reader.next().is_none());

    reader = XmlReader::new("<parent>text</parent>");

    assert!(reader.next().is_some()); // "<parent"
    assert_eq!(reader.read_text("parent")?, "text");
    assert!(reader.next().is_none());

    reader = XmlReader::new("<parent attr=\"value\">text</parent>");

    assert!(reader.next().is_some()); // "<parent"
    assert_eq!(reader.read_text("parent")?, "text");
    assert!(reader.next().is_none());

    reader = XmlReader::new("<parent attr=\"value\">&quot;&apos;&lt;&gt;&amp;</parent>");

    assert!(reader.next().is_some()); // "<parent"
    assert_eq!(reader.read_text("parent")?, r#""'<>&"#);
    assert!(reader.next().is_none());

    let mut reader = XmlReader::new("<parent><![CDATA[]]></parent>");

    assert!(reader.next().is_some()); // "<parent"
    assert_eq!(reader.read_text("parent")?, "");
    assert!(reader.next().is_none());

    reader = XmlReader::new("<parent><![CDATA[text]]></parent>");

    assert!(reader.next().is_some()); // "<parent"
    assert_eq!(reader.read_text("parent")?, "text");
    assert!(reader.next().is_none());

    reader = XmlReader::new("<parent attr=\"value\"><![CDATA[text]]></parent>");

    assert!(reader.next().is_some()); // "<parent"
    assert_eq!(reader.read_text("parent")?, "text");
    assert!(reader.next().is_none());

    reader = XmlReader::new("<parent attr=\"value\"><![CDATA[<foo></foo>]]></parent>");

    assert!(reader.next().is_some()); // "<parent"
    assert_eq!(reader.read_text("parent")?, "<foo></foo>");
    assert!(reader.next().is_none());

    reader =
        XmlReader::new("<parent attr=\"value\"><![CDATA[&quot;&apos;&lt;&gt;&amp;]]></parent>");

    assert!(reader.next().is_some()); // "<parent"
    assert_eq!(reader.read_text("parent")?, "&quot;&apos;&lt;&gt;&amp;");
    assert!(reader.next().is_none());

    Ok(())
}

#[test]
fn read_till_element_start() -> XmlResult<()> {
    let mut reader = XmlReader::new("<tag/>");

    reader.read_till_element_start("tag")?;
    assert!(reader.next().is_some()); // "/>"
    assert!(reader.next().is_none());

    reader = XmlReader::new("<parent><skip/><tag/></parent>");

    assert!(reader.next().is_some()); // "<parent"
    assert!(reader.next().is_some()); // ">"
    reader.read_till_element_start("tag")?;
    assert!(reader.next().is_some()); // "/>"
    assert!(reader.next().is_some()); // "</parent>"
    assert!(reader.next().is_none());

    reader = XmlReader::new("<parent><skip></skip><tag/></parent>");

    assert!(reader.next().is_some()); // "<parent"
    assert!(reader.next().is_some()); // ">"
    reader.read_till_element_start("tag")?;
    assert!(reader.next().is_some()); // "/>"
    assert!(reader.next().is_some()); // "</parent>"
    assert!(reader.next().is_none());

    reader = XmlReader::new("<parent><skip><skip/></skip><tag/></parent>");

    assert!(reader.next().is_some()); // "<parent"
    assert!(reader.next().is_some()); // ">"
    reader.read_till_element_start("tag")?;
    assert!(reader.next().is_some()); // "/>"
    assert!(reader.next().is_some()); // "</parent>"
    assert!(reader.next().is_none());

    reader = XmlReader::new("<parent><skip><skip></skip></skip><tag/></parent>");

    assert!(reader.next().is_some()); // "<parent"
    assert!(reader.next().is_some()); // ">"
    reader.read_till_element_start("tag")?;
    assert!(reader.next().is_some()); // "/>"
    assert!(reader.next().is_some()); // "</parent>"
    assert!(reader.next().is_none());

    Ok(())
}

#[test]
fn read_to_end() -> XmlResult<()> {
    let mut reader = XmlReader::new("<parent><child/></parent>");

    assert!(reader.next().is_some()); // "<parent"
    assert!(reader.next().is_some()); // ">"
    assert!(reader.next().is_some()); // "<child"
    reader.read_to_end("child")?;
    assert!(reader.next().is_some()); // "</parent>"
    assert!(reader.next().is_none());

    reader = XmlReader::new("<parent><child></child></parent>");

    assert!(reader.next().is_some()); // "<parent"
    assert!(reader.next().is_some()); // ">"
    assert!(reader.next().is_some()); // "<child"
    reader.read_to_end("child")?;
    assert!(reader.next().is_some()); // "</parent>"
    assert!(reader.next().is_none());

    reader = XmlReader::new("<parent><child><child/></child></parent>");

    assert!(reader.next().is_some()); // "<parent"
    assert!(reader.next().is_some()); // ">"
    assert!(reader.next().is_some()); // "<child"
    reader.read_to_end("child")?;
    assert!(reader.next().is_some()); // "</parent>"
    assert!(reader.next().is_none());

    reader = XmlReader::new("<parent><child><child></child></child></parent>");

    assert!(reader.next().is_some()); // "<parent"
    assert!(reader.next().is_some()); // ">"
    assert!(reader.next().is_some()); // "<child"
    reader.read_to_end("child")?;
    assert!(reader.next().is_some()); // "</parent>"
    assert!(reader.next().is_none());

    Ok(())
}

#[test]
fn test_read_text() -> XmlResult<()> {
    let mut reader = XmlReader::new("<parent></parent>");

    assert!(reader.next().is_some()); // "<parent"
    assert_eq!(strong_xml::read_text(&mut reader, "parent")?, "");
    assert!(reader.next().is_none());

    let mut reader = XmlReader::new("<parent>text</parent>");

    assert!(reader.next().is_some()); // "<parent"
    assert_eq!(strong_xml::read_text(&mut reader, "parent")?, "text");
    assert!(reader.next().is_none());

    let mut reader = XmlReader::new("<parent attr=\"value\">text</parent>");

    assert!(reader.next().is_some()); // "<parent"
    assert_eq!(strong_xml::read_text(&mut reader, "parent")?, "text");
    assert!(reader.next().is_none());

    Ok(())
}

#[test]
fn test_read_to_end() -> XmlResult<()> {
    let mut reader = XmlReader::new("<parent><child/></parent>");

    assert!(reader.next().is_some()); // "<parent"
    assert!(reader.next().is_some()); // ">"
    assert!(reader.next().is_some()); // "<child"
    strong_xml::read_to_end(&mut reader, "child")?;
    assert!(reader.next().is_some()); // "</parent>"
    assert!(reader.next().is_none());

    let mut reader = XmlReader::new("<parent><child></child></parent>");

    assert!(reader.next().is_some()); // "<parent"
    assert!(reader.next().is_some()); // ">"
    assert!(reader.next().is_some()); // "<child"
    strong_xml::read_to_end(&mut reader, "child")?;
    assert!(reader.next().is_some()); // "</parent>"
    assert!(reader.next().is_none());

    let mut reader = XmlReader::new("<parent><child><child/></child></parent>");

    assert!(reader.next().is_some()); // "<parent"
    assert!(reader.next().is_some()); // ">"
    assert!(reader.next().is_some()); // "<child"
    strong_xml::read_to_end(&mut reader, "child")?;
    assert!(reader.next().is_some()); // "</parent>"
    assert!(reader.next().is_none());

    let mut reader = XmlReader::new("<parent><child><child></child></child></parent>");

    assert!(reader.next().is_some()); // "<parent"
    assert!(reader.next().is_some()); // ">"
    assert!(reader.next().is_some()); // "<child"
    strong_xml::read_to_end(&mut reader, "child")?;
    assert!(reader.next().is_some()); // "</parent>"
    assert!(reader.next().is_none());

    Ok(())
}

#[test]
fn read_to_end_same_tag_nested() -> XmlResult<()> {
    // same-named recursion is balanced by the depth count
    let mut reader = XmlReader::new("<a><a><a/></a></a>");

    assert!(reader.next().is_some()); // "<a"
    reader.read_to_end("a")?;
    assert!(reader.next().is_none());

    // a differently named element in between does not disturb it
    let mut reader = XmlReader::new("<a><b><a/></b></a>");

    assert!(reader.next().is_some()); // "<a"
    reader.read_to_end("a")?;
    assert!(reader.next().is_none());

    Ok(())
}

#[test]
fn read_till_element_start_skips_whole_subtree() -> XmlResult<()> {
    let mut reader = XmlReader::new("<p><skip/><tag/></p>");

    assert!(reader.next().is_some()); // "<p"
    assert!(reader.next().is_some()); // ">"
    reader.read_till_element_start("tag")?;
    // the cursor stands exactly at the end token of "<tag/>"
    assert!(matches!(reader.next(), Some(XmlToken::ElementEndEmpty)));
    assert!(matches!(reader.next(), Some(XmlToken::ElementEndClose { .. })));
    assert!(reader.next().is_none());

    Ok(())
}

#[test]
fn read_text_reports_mismatched_close() {
    let mut reader = XmlReader::new("<expectedTag>text</found>");

    assert!(reader.next().is_some()); // "<expectedTag"
    match reader.read_text("expectedTag") {
        Err(XmlError::TagMismatch { expected, found }) => {
            assert_eq!(expected, "expectedTag");
            assert_eq!(found, "found");
        }
        other => panic!("expected a tag mismatch, got {:?}", other),
    }
}

#[test]
fn read_text_decodes_entities() -> XmlResult<()> {
    let mut reader = XmlReader::new("<parent>&lt;&gt;&amp;</parent>");

    assert!(reader.next().is_some()); // "<parent"
    assert_eq!(reader.read_text("parent")?, "<>&");
    assert!(reader.next().is_none());

    let mut reader = XmlReader::new("<parent></parent>");

    assert!(reader.next().is_some()); // "<parent"
    assert_eq!(reader.read_text("parent")?, "");
    assert!(reader.next().is_none());

    Ok(())
}

#[test]
fn read_text_rejects_child_element() {
    let mut reader = XmlReader::new("<parent><child/></parent>");

    assert!(reader.next().is_some()); // "<parent"
    match reader.read_text("parent") {
        Err(XmlError::UnexpectedToken { token }) => {
            assert_eq!(token, "ElementStart");
        }
        other => panic!("expected an out-of-place token, got {:?}", other),
    }
}

#[test]
fn read_to_end_reports_early_end_of_input() {
    let mut reader = XmlReader::new("<parent>");

    assert!(reader.next().is_some()); // "<parent"
    match reader.read_to_end("parent") {
        Err(XmlError::UnexpectedEof) => {}
        other => panic!("expected an early end of input, got {:?}", other),
    }
}

#[test]
fn tokenizer_fault_passes_through() {
    let mut reader = XmlReader::new("<parent><</parent>");

    assert!(reader.next().is_some()); // "<parent"
    assert!(reader.next().is_some()); // ">"
    match reader.read_till_element_start("tag") {
        Err(XmlError::Parser { .. }) => {}
        other => panic!("expected the tokenizer's fault, got {:?}", other),
    }
}

#[test]
fn find_attribute_yields_each_then_none() -> XmlResult<()> {
    let mut reader = XmlReader::new("<tag a=\"1\" b=\"2\"/>");

    assert!(reader.next().is_some()); // "<tag"
    assert_eq!(reader.find_attribute()?, Some(("a".to_string(), "1".to_string())));
    assert_eq!(reader.find_attribute()?, Some(("b".to_string(), "2".to_string())));
    assert_eq!(reader.find_attribute()?, None);
    // the tag head's end was not consumed
    assert!(matches!(reader.next(), Some(XmlToken::ElementEndEmpty)));
    assert!(reader.next().is_none());

    Ok(())
}

#[test]
fn find_element_start_peeks_and_closes() -> XmlResult<()> {
    let mut reader = XmlReader::new("<p>text<child/></p>");

    assert!(reader.next().is_some()); // "<p"
    assert!(reader.next().is_some()); // ">"
    // text is passed over; the start itself is not consumed
    assert_eq!(reader.find_element_start(Some("p"))?, Some("child".to_string()));
    assert!(matches!(reader.next(), Some(XmlToken::ElementStart { .. })));
    assert!(reader.next().is_some()); // "/>"
    // the matching close is consumed and reported as the end
    assert_eq!(reader.find_element_start(Some("p"))?, None);
    assert!(reader.next().is_none());

    Ok(())
}

#[test]
fn find_element_start_reports_wrong_close() {
    let mut reader = XmlReader::new("<p></q>");

    assert!(reader.next().is_some()); // "<p"
    assert!(reader.next().is_some()); // ">"
    match reader.find_element_start(Some("p")) {
        Err(XmlError::TagMismatch { expected, found }) => {
            assert_eq!(expected, "p");
            assert_eq!(found, "q");
        }
        other => panic!("expected a tag mismatch, got {:?}", other),
    }
}

#[test]
fn prefixed_names_are_matched_in_full() -> XmlResult<()> {
    let mut reader = XmlReader::new("<n:nested xmlns:n=\"http://example.com\">x</n:nested>");

    assert!(reader.next().is_some()); // "<n:nested"
    assert_eq!(reader.find_attribute()?, Some(("xmlns:n".to_string(), "http://example.com".to_string())));
    assert_eq!(reader.read_text("n:nested")?, "x");
    assert!(reader.next().is_none());

    Ok(())
}
