use vstd::prelude::*;

verus! {

/// One lexical unit of the document, as the reader sees it.  Element and
/// attribute names are kept as the pair of prefix and local part; the full
/// name (`prefix:local`, or the local part alone when the prefix is empty)
/// is what the matching primitives compare against.
#[derive(Debug)]
pub enum XmlToken {
    /// `<name` — the start of an element's tag head.
    ElementStart { prefix: String, local: String },
    /// `key="raw value"` inside a tag head; the value is not yet unescaped.
    Attribute { prefix: String, local: String, value: String },
    /// `>` — the tag head closes and the element's body begins.
    ElementEndOpen,
    /// `/>` — the element is self-closing and has no body.
    ElementEndEmpty,
    /// `</name>` — the element's closing tag.
    ElementEndClose { prefix: String, local: String },
    /// Character data between tags, still escaped.
    Text { text: String },
    /// A `<![CDATA[...]]>` section; its contents are taken verbatim.
    Cdata { text: String },
    /// A token the reader has no use for: a declaration, a processing
    /// instruction, a comment, or document-type matter.
    Other,
    /// The tokenizer rejected the input at this point; the stream ends here.
    ParseError { message: String },
}

/// The full name that a prefix and a local part form: `local` when the
/// prefix is empty, `prefix:local` otherwise.
pub open spec fn spec_qname(prefix: Seq<char>, local: Seq<char>) -> Seq<char> {
    if prefix.len() == 0 {
        local
    } else {
        prefix + seq![':'] + local
    }
}

/// The full name an optional prefix gives to a local part.
pub open spec fn spec_opt_qname(prefix: Option<Seq<char>>, local: Seq<char>) -> Seq<char> {
    match prefix {
        Option::None => local,
        Option::Some(p) => spec_qname(p, local),
    }
}

/// The view of an optional borrowed string.
pub open spec fn opt_str_view(o: Option<&str>) -> Option<Seq<char>> {
    match o {
        Option::None => Option::<Seq<char>>::None,
        Option::Some(s) => Option::Some(s@),
    }
}

/// The view of an optional owned string.
pub open spec fn opt_string_view(o: &Option<String>) -> Option<Seq<char>> {
    match o {
        Option::None => Option::<Seq<char>>::None,
        Option::Some(s) => Option::Some(s@),
    }
}

/// Builds the full name `prefix:local`, or the local part alone when the
/// prefix is empty.
pub fn qname(prefix: &str, local: &str) -> (r: String)
    ensures
        r@ == spec_qname(prefix@, local@),
{
    if prefix.is_empty() {
        local.to_owned()
    } else {
        let mut s = prefix.to_owned();
        s.append(":");
        s.append(local);
        proof {
            reveal_strlit(":");
            assert(":"@ =~= seq![':']);
            assert(s@ =~= spec_qname(prefix@, local@));
        }
        s
    }
}

/// Builds the full name an optional prefix gives to a local part.
pub fn opt_qname(prefix: Option<&str>, local: &str) -> (r: String)
    ensures
        r@ == spec_opt_qname(opt_str_view(prefix), local@),
{
    match prefix {
        Option::None => local.to_owned(),
        Option::Some(p) => qname(p, local),
    }
}

/// True when two string slices hold the same characters.
pub fn str_equal(a: &str, b: &str) -> (r: bool)
    ensures
        r == (a@ == b@),
{
    let x = a.to_owned();
    let y = b.to_owned();
    x == y
}

impl XmlToken {
    /// The short description a grammar error carries for this token.
    pub open spec fn describe_spec(&self) -> Seq<char> {
        match self {
            XmlToken::ElementStart { .. } => "ElementStart"@,
            XmlToken::Attribute { .. } => "Attribute"@,
            XmlToken::ElementEndOpen => "ElementEnd(Open)"@,
            XmlToken::ElementEndEmpty => "ElementEnd(Empty)"@,
            XmlToken::ElementEndClose { .. } => "ElementEnd(Close)"@,
            XmlToken::Text { .. } => "Text"@,
            XmlToken::Cdata { .. } => "Cdata"@,
            XmlToken::Other => "Other"@,
            XmlToken::ParseError { .. } => "ParseError"@,
        }
    }

    /// A short description of the token's kind, for error reports.
    pub fn describe(&self) -> (r: String)
        ensures
            r@ == self.describe_spec(),
    {
        match self {
            XmlToken::ElementStart { .. } => "ElementStart".to_owned(),
            XmlToken::Attribute { .. } => "Attribute".to_owned(),
            XmlToken::ElementEndOpen => "ElementEnd(Open)".to_owned(),
            XmlToken::ElementEndEmpty => "ElementEnd(Empty)".to_owned(),
            XmlToken::ElementEndClose { .. } => "ElementEnd(Close)".to_owned(),
            XmlToken::Text { .. } => "Text".to_owned(),
            XmlToken::Cdata { .. } => "Cdata".to_owned(),
            XmlToken::Other => "Other".to_owned(),
            XmlToken::ParseError { .. } => "ParseError".to_owned(),
        }
    }

    /// True when this token starts an element whose full name is `tag`.
    pub open spec fn starts_named(&self, tag: Seq<char>) -> bool {
        match self {
            XmlToken::ElementStart { prefix, local } => spec_qname(prefix@, local@) == tag,
            _ => false,
        }
    }

    /// True when this token closes an element whose full name is `tag`.
    pub open spec fn closes_named(&self, tag: Seq<char>) -> bool {
        match self {
            XmlToken::ElementEndClose { prefix, local } => spec_qname(prefix@, local@) == tag,
            _ => false,
        }
    }
}

} // verus!
