use vstd::prelude::*;

verus! {

/// A piece of text that is either borrowed unchanged from the input or
/// owned because it had to be rewritten.  Escaping and unescaping return
/// this type so that their zero-copy behaviour is part of their contract.
#[derive(Debug)]
pub enum XmlText<'a> {
    Borrowed(&'a str),
    Owned(String),
}

impl<'a> View for XmlText<'a> {
    type V = Seq<char>;

    open spec fn view(&self) -> Seq<char> {
        match self {
            XmlText::Borrowed(s) => s@,
            XmlText::Owned(s) => s@,
        }
    }
}

impl<'a> XmlText<'a> {
    /// True when the text still borrows from the input, that is, when no
    /// rewriting was needed.
    pub fn is_borrowed(&self) -> (r: bool)
        ensures
            r == (self is Borrowed),
    {
        match self {
            XmlText::Borrowed(_) => true,
            XmlText::Owned(_) => false,
        }
    }

    /// The text as a string slice.
    pub fn as_str(&self) -> (r: &str)
        ensures
            r@ == self@,
    {
        match self {
            XmlText::Borrowed(s) => s,
            XmlText::Owned(s) => s.as_str(),
        }
    }

    /// The text as an owned string.
    pub fn into_string(self) -> (r: String)
        ensures
            r@ == self@,
    {
        match self {
            XmlText::Borrowed(s) => s.to_owned(),
            XmlText::Owned(s) => s,
        }
    }
}

/// Relies on `String::push`: appends exactly the given character at the end
/// of the string.
#[verifier::external_body]
pub(crate) fn push_char(s: &mut String, c: char)
    ensures
        final(s)@ == old(s)@.push(c),
{
    s.push(c);
}

} // verus!
