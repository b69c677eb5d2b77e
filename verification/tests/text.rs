use strong_xml::xml_escape;
use strong_xml::xml_unescape;
use strong_xml::XmlError;

#[test]
fn test_escape() {
    assert_eq!(xml_escape("< < <").as_str(), "&lt; &lt; &lt;");
    assert_eq!(
        xml_escape("<script>alert('Hello XSS')</script>").as_str(),
        "&lt;script&gt;alert(&apos;Hello XSS&apos;)&lt;/script&gt;"
    );
}

#[test]
fn test_unescape() {
    assert_eq!(xml_unescape("test").unwrap().as_str(), "test");
    assert_eq!(xml_unescape("&lt;test&gt;").unwrap().as_str(), "<test>");
    assert_eq!(xml_unescape("&#x30;").unwrap().as_str(), "0");
    assert_eq!(xml_unescape("&#48;").unwrap().as_str(), "0");
}

#[test]
fn escape_unescape_round_trip() {
    let samples = ["", "plain text", "<>&'\"", "a<b>&c'd\"e", "&amp;", "x&&&y"];
    for s in samples {
        let escaped = xml_escape(s);
        assert_eq!(xml_unescape(escaped.as_str()).unwrap().as_str(), s);
    }
}

#[test]
fn escape_is_zero_copy_without_special_characters() {
    assert!(xml_escape("nothing special").is_borrowed());
    assert_eq!(xml_escape("nothing special").as_str(), "nothing special");
    assert!(!xml_escape("a<b").is_borrowed());
    assert!(!xml_escape("a\"b").is_borrowed());
}

#[test]
fn unescape_is_zero_copy_without_ampersand() {
    assert!(xml_unescape("no entities here").unwrap().is_borrowed());
    assert_eq!(xml_unescape("no entities here").unwrap().as_str(), "no entities here");
    assert!(!xml_unescape("&lt;").unwrap().is_borrowed());
}

#[test]
fn unescape_reports_unterminated_entity() {
    match xml_unescape("&lt") {
        Err(XmlError::UnterminatedEntity { entity }) => assert_eq!(entity, "&lt"),
        other => panic!("expected an unterminated entity, got {:?}", other),
    }
    match xml_unescape("text &amp; more &") {
        Err(XmlError::UnterminatedEntity { entity }) => assert_eq!(entity, "&"),
        other => panic!("expected an unterminated entity, got {:?}", other),
    }
}

#[test]
fn unescape_reports_unrecognized_symbol() {
    match xml_unescape("&foo;") {
        Err(XmlError::UnrecognizedSymbol { symbol }) => assert_eq!(symbol, "foo"),
        other => panic!("expected an unrecognized symbol, got {:?}", other),
    }
    match xml_unescape("&;") {
        Err(XmlError::UnrecognizedSymbol { symbol }) => assert_eq!(symbol, ""),
        other => panic!("expected an unrecognized symbol, got {:?}", other),
    }
}

#[test]
fn unescape_numeric_references() {
    assert_eq!(xml_unescape("&#65;&#x41;").unwrap().as_str(), "AA");
    assert_eq!(xml_unescape("&#x1F600;").unwrap().as_str(), "\u{1F600}");
    // a plus sign is accepted, as the standard radix parse does
    assert_eq!(xml_unescape("&#+48;").unwrap().as_str(), "0");
    // not a Unicode scalar value: a surrogate, and one past the last scalar
    match xml_unescape("&#xD800;") {
        Err(XmlError::UnrecognizedSymbol { symbol }) => assert_eq!(symbol, "#xD800"),
        other => panic!("expected an unrecognized symbol, got {:?}", other),
    }
    match xml_unescape("&#x110000;") {
        Err(XmlError::UnrecognizedSymbol { symbol }) => assert_eq!(symbol, "#x110000"),
        other => panic!("expected an unrecognized symbol, got {:?}", other),
    }
    // overflow and empty digit strings name no character
    assert!(xml_unescape("&#99999999999;").is_err());
    assert!(xml_unescape("&#;").is_err());
    assert!(xml_unescape("&#x;").is_err());
}

#[test]
fn unescape_copies_tail_after_last_entity() {
    assert_eq!(xml_unescape("a&lt;b tail").unwrap().as_str(), "a<b tail");
    assert_eq!(xml_unescape("&gt;leading").unwrap().as_str(), ">leading");
}
