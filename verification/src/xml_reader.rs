use vstd::prelude::*;

use crate::xml_error::ErrorModel;
use crate::xml_error::XmlError;
use crate::xml_token::opt_str_view;
use crate::xml_token::opt_string_view;
use crate::xml_token::qname;
use crate::xml_token::spec_qname;
use crate::xml_token::str_equal;
use crate::xml_token::XmlToken;
use crate::xml_unescape::unescape_run;
use crate::xml_unescape::xml_unescape;
use crate::xml_unescape::UnescapeOutcome;

verus! {

// ---------------------------------------------------------------------------
// The trusted adapter around the outside tokenizer.
// ---------------------------------------------------------------------------
#[verifier::external_type_specification]
#[verifier::external_body]
pub struct ExXmlParserToken<'a>(xmlparser::Token<'a>);

#[verifier::external_type_specification]
#[verifier::external_body]
pub struct ExXmlParserElementEnd<'a>(xmlparser::ElementEnd<'a>);

#[verifier::external_type_specification]
#[verifier::external_body]
pub struct ExXmlParserError(xmlparser::Error);

#[verifier::external_type_specification]
#[verifier::external_body]
pub struct ExXmlParserStrSpan<'a>(xmlparser::StrSpan<'a>);

/// Relies on `xmlparser::Tokenizer`: driven to its end it yields the
/// document's tokens in order, each one `Ok`, or ends with one `Err` at the
/// first malformed construct.
#[verifier::external_body]
fn raw_tokens<'a>(text: &'a str) -> (r: Vec<Result<xmlparser::Token<'a>, xmlparser::Error>>) {
    xmlparser::Tokenizer::from(text).collect()
}

/// Relies on `xmlparser::StrSpan::as_str`: the text the span covers.
#[verifier::external_body]
fn span_text<'a>(s: &xmlparser::StrSpan<'a>) -> (r: String) {
    s.as_str().to_owned()
}

/// Relies on the display of `xmlparser::Error`: one line naming the fault
/// and its position.
#[verifier::external_body]
fn parse_error_text(e: &xmlparser::Error) -> (r: String) {
    format!("{}", e)
}

/// Tells the variants of `xmlparser::ElementEnd` apart, moving each name
/// field through `span_text`.
#[verifier::external_body]
fn convert_end_token<'a>(end: xmlparser::ElementEnd<'a>) -> (r: XmlToken) {
    match end {
        xmlparser::ElementEnd::Open => XmlToken::ElementEndOpen,
        xmlparser::ElementEnd::Empty => XmlToken::ElementEndEmpty,
        xmlparser::ElementEnd::Close(prefix, local) => XmlToken::ElementEndClose {
            prefix: span_text(&prefix),
            local: span_text(&local),
        },
    }
}

/// Tells the variants of `xmlparser::Token` apart, moving each field through
/// `span_text`; tokens the reader has no use for become `XmlToken::Other`.
#[verifier::external_body]
fn convert_token<'a>(t: xmlparser::Token<'a>) -> (r: XmlToken) {
    match t {
        xmlparser::Token::ElementStart { prefix, local, .. } => XmlToken::ElementStart {
            prefix: span_text(&prefix),
            local: span_text(&local),
        },
        xmlparser::Token::Attribute { prefix, local, value, .. } => XmlToken::Attribute {
            prefix: span_text(&prefix),
            local: span_text(&local),
            value: span_text(&value),
        },
        xmlparser::Token::ElementEnd { end, .. } => convert_end_token(end),
        xmlparser::Token::Text { text } => XmlToken::Text { text: span_text(&text) },
        xmlparser::Token::Cdata { text, .. } => XmlToken::Cdata { text: span_text(&text) },
        _ => XmlToken::Other,
    }
}

// ---------------------------------------------------------------------------
// The token-level state machines the reading primitives follow.  Each "run"
// function walks the token stream from its front and says how many tokens
// the operation consumes and what it yields; the executable functions are
// proved to follow these runs exactly.
// ---------------------------------------------------------------------------
/// What a skipping run yields: success, or an error; either way, how many
/// tokens were consumed.
pub ghost enum SkipRun {
    Done { used: nat },
    Fail { used: nat, err: ErrorModel },
}

/// What a text-reading run yields: the element's decoded text, or an error;
/// either way, how many tokens were consumed.
pub ghost enum TextRun {
    Done { used: nat, text: Seq<char> },
    Fail { used: nat, err: ErrorModel },
}

/// What a scan for a child element yields: the name of the element start
/// ahead, the matching close consumed, or an error.
pub ghost enum FindRun {
    Found { used: nat, name: Seq<char> },
    Closed { used: nat },
    Fail { used: nat, err: ErrorModel },
}

/// The phases of skipping one element: its own tag head, its body at a
/// nesting depth of same-named elements, and the tag head of a nested
/// same-named element.
pub ghost enum RteState {
    OwnAttrs,
    Body { depth: nat },
    NestedAttrs { depth: nat },
}

/// The same run, seen after `k` more tokens were already consumed.
pub open spec fn skip_plus(r: SkipRun, k: nat) -> SkipRun {
    match r {
        SkipRun::Done { used } => SkipRun::Done { used: used + k },
        SkipRun::Fail { used, err } => SkipRun::Fail { used: used + k, err },
    }
}

/// The same run, seen after `k` more tokens were already consumed.
pub open spec fn text_plus(r: TextRun, k: nat) -> TextRun {
    match r {
        TextRun::Done { used, text } => TextRun::Done { used: used + k, text },
        TextRun::Fail { used, err } => TextRun::Fail { used: used + k, err },
    }
}

/// The same run, seen after `k` more tokens were already consumed.
pub open spec fn find_plus(r: FindRun, k: nat) -> FindRun {
    match r {
        FindRun::Found { used, name } => FindRun::Found { used: used + k, name },
        FindRun::Closed { used } => FindRun::Closed { used: used + k },
        FindRun::Fail { used, err } => FindRun::Fail { used: used + k, err },
    }
}

/// How many tokens a skipping run consumed.
pub open spec fn skip_used(r: SkipRun) -> nat {
    match r {
        SkipRun::Done { used } => used,
        SkipRun::Fail { used, err } => used,
    }
}

/// The run of `read_to_end`: in the element's own tag head, attributes pass,
/// `/>` finishes, `>` opens the body at depth one, anything else is out of
/// place.  In the body, only tokens of the skipped element's own name move
/// the depth: a same-named start leads into its tag head, where `>` deepens
/// and `/>` does not; a same-named close raises the body one level and at
/// depth one finishes the run.  A stream that ends first is an early end of
/// input.
pub open spec fn rte_run(s: Seq<XmlToken>, tag: Seq<char>, st: RteState) -> SkipRun
    decreases s.len(),
{
    if s.len() == 0 {
        SkipRun::Fail { used: 0, err: ErrorModel::UnexpectedEof }
    } else {
        let rest = s.drop_first();
        match st {
            RteState::OwnAttrs => match s[0] {
                XmlToken::ElementEndEmpty => SkipRun::Done { used: 1 },
                XmlToken::ElementEndOpen => skip_plus(
                    rte_run(rest, tag, RteState::Body { depth: 1 }),
                    1,
                ),
                XmlToken::Attribute { .. } => skip_plus(rte_run(rest, tag, RteState::OwnAttrs), 1),
                XmlToken::ParseError { message } => SkipRun::Fail {
                    used: 1,
                    err: ErrorModel::Parser { message: message@ },
                },
                _ => SkipRun::Fail {
                    used: 1,
                    err: ErrorModel::UnexpectedToken { token: s[0].describe_spec() },
                },
            },
            RteState::Body { depth } => match s[0] {
                XmlToken::ElementStart { prefix, local } => if spec_qname(prefix@, local@)
                    == tag {
                    skip_plus(rte_run(rest, tag, RteState::NestedAttrs { depth }), 1)
                } else {
                    skip_plus(rte_run(rest, tag, RteState::Body { depth }), 1)
                },
                XmlToken::ElementEndClose { prefix, local } => if spec_qname(prefix@, local@)
                    == tag {
                    if depth == 1 {
                        SkipRun::Done { used: 1 }
                    } else {
                        skip_plus(
                            rte_run(rest, tag, RteState::Body { depth: (depth - 1) as nat }),
                            1,
                        )
                    }
                } else {
                    skip_plus(rte_run(rest, tag, RteState::Body { depth }), 1)
                },
                XmlToken::ParseError { message } => SkipRun::Fail {
                    used: 1,
                    err: ErrorModel::Parser { message: message@ },
                },
                _ => skip_plus(rte_run(rest, tag, RteState::Body { depth }), 1),
            },
            RteState::NestedAttrs { depth } => match s[0] {
                XmlToken::ElementEndEmpty => skip_plus(
                    rte_run(rest, tag, RteState::Body { depth }),
                    1,
                ),
                XmlToken::ElementEndOpen => skip_plus(
                    rte_run(rest, tag, RteState::Body { depth: depth + 1 }),
                    1,
                ),
                XmlToken::Attribute { .. } => skip_plus(
                    rte_run(rest, tag, RteState::NestedAttrs { depth }),
                    1,
                ),
                XmlToken::ParseError { message } => SkipRun::Fail {
                    used: 1,
                    err: ErrorModel::Parser { message: message@ },
                },
                _ => SkipRun::Fail {
                    used: 1,
                    err: ErrorModel::UnexpectedToken { token: s[0].describe_spec() },
                },
            },
        }
    }
}

/// A run never consumes more tokens than the stream holds.
pub proof fn lemma_rte_used_bound(s: Seq<XmlToken>, tag: Seq<char>, st: RteState)
    ensures
        skip_used(rte_run(s, tag, st)) <= s.len(),
    decreases s.len(),
{
    if s.len() > 0 {
        let rest = s.drop_first();
        lemma_rte_used_bound(rest, tag, RteState::OwnAttrs);
        match st {
            RteState::OwnAttrs => {
                lemma_rte_used_bound(rest, tag, RteState::Body { depth: 1 });
            },
            RteState::Body { depth } => {
                lemma_rte_used_bound(rest, tag, RteState::Body { depth });
                lemma_rte_used_bound(rest, tag, RteState::NestedAttrs { depth });
                lemma_rte_used_bound(rest, tag, RteState::Body { depth: (depth - 1) as nat });
            },
            RteState::NestedAttrs { depth } => {
                lemma_rte_used_bound(rest, tag, RteState::Body { depth });
                lemma_rte_used_bound(rest, tag, RteState::Body { depth: depth + 1 });
                lemma_rte_used_bound(rest, tag, RteState::NestedAttrs { depth });
            },
        }
    }
}

/// Dropping the first token and then `k` more is dropping `k + 1` tokens.
pub proof fn lemma_skip_one(s: Seq<XmlToken>, k: int)
    requires
        0 <= k <= s.len() - 1,
    ensures
        s.drop_first().skip(k) == s.skip(k + 1),
{
    assert(s.drop_first().skip(k) =~= s.skip(k + 1));
}

/// Skipping `a` tokens and then `b` more is skipping `a + b` tokens.
pub proof fn lemma_skip_skip(s: Seq<XmlToken>, a: int, b: int)
    requires
        0 <= a,
        0 <= b,
        a + b <= s.len(),
    ensures
        s.skip(a).skip(b) == s.skip(a + b),
{
    assert(s.skip(a).skip(b) =~= s.skip(a + b));
}

/// How many tokens a text-reading run consumed.
pub open spec fn text_used(r: TextRun) -> nat {
    match r {
        TextRun::Done { used, text } => used,
        TextRun::Fail { used, err } => used,
    }
}

/// How many tokens a child-element scan consumed.
pub open spec fn find_used(r: FindRun) -> nat {
    match r {
        FindRun::Found { used, name } => used,
        FindRun::Closed { used } => used,
        FindRun::Fail { used, err } => used,
    }
}

/// The run of `read_text`, carrying the last text seen so far: attributes
/// and the tag-head `>` pass; a text token is unescaped and remembered, a
/// CDATA token is remembered raw; the matching close yields what was
/// remembered (the empty text when nothing was); a differently named close
/// is a tag mismatch; any other token is out of place.  A stream that ends
/// first also yields what was remembered.
pub open spec fn text_run(s: Seq<XmlToken>, tag: Seq<char>, acc: Option<Seq<char>>) -> TextRun
    decreases s.len(),
{
    if s.len() == 0 {
        TextRun::Done {
            used: 0,
            text: match acc {
                Option::Some(t) => t,
                Option::None => Seq::empty(),
            },
        }
    } else {
        let rest = s.drop_first();
        match s[0] {
            XmlToken::ElementEndOpen => text_plus(text_run(rest, tag, acc), 1),
            XmlToken::Attribute { .. } => text_plus(text_run(rest, tag, acc), 1),
            XmlToken::Text { text } => match unescape_run(text@) {
                UnescapeOutcome::Done { text: u } => text_plus(
                    text_run(rest, tag, Option::Some(u)),
                    1,
                ),
                UnescapeOutcome::Unterminated { entity } => TextRun::Fail {
                    used: 1,
                    err: ErrorModel::UnterminatedEntity { entity },
                },
                UnescapeOutcome::Unrecognized { symbol } => TextRun::Fail {
                    used: 1,
                    err: ErrorModel::UnrecognizedSymbol { symbol },
                },
            },
            XmlToken::Cdata { text } => text_plus(text_run(rest, tag, Option::Some(text@)), 1),
            XmlToken::ElementEndClose { prefix, local } => if spec_qname(prefix@, local@) == tag {
                TextRun::Done {
                    used: 1,
                    text: match acc {
                        Option::Some(t) => t,
                        Option::None => Seq::empty(),
                    },
                }
            } else {
                TextRun::Fail {
                    used: 1,
                    err: ErrorModel::TagMismatch {
                        expected: tag,
                        found: spec_qname(prefix@, local@),
                    },
                }
            },
            XmlToken::ParseError { message } => TextRun::Fail {
                used: 1,
                err: ErrorModel::Parser { message: message@ },
            },
            _ => TextRun::Fail {
                used: 1,
                err: ErrorModel::UnexpectedToken { token: s[0].describe_spec() },
            },
        }
    }
}

/// A text-reading run never consumes more tokens than the stream holds.
pub proof fn lemma_text_used_bound(s: Seq<XmlToken>, tag: Seq<char>, acc: Option<Seq<char>>)
    ensures
        text_used(text_run(s, tag, acc)) <= s.len(),
    decreases s.len(),
{
    if s.len() > 0 {
        let rest = s.drop_first();
        lemma_text_used_bound(rest, tag, acc);
        match s[0] {
            XmlToken::Text { text } => match unescape_run(text@) {
                UnescapeOutcome::Done { text: u } => {
                    lemma_text_used_bound(rest, tag, Option::Some(u));
                },
                _ => {},
            },
            XmlToken::Cdata { text } => {
                lemma_text_used_bound(rest, tag, Option::Some(text@));
            },
            _ => {},
        }
    }
}

/// The run of `read_till_element_start`: a start of the wanted name
/// finishes (consumed); a start of another name is skipped whole, as
/// `read_to_end` does, and the scan goes on; tokens of no interest pass;
/// an end, attribute, text or CDATA token is out of place.  A stream that
/// ends first finishes without fault.
pub open spec fn till_run(s: Seq<XmlToken>, tag: Seq<char>) -> SkipRun
    decreases s.len(),
        via till_run_decreases
{
    if s.len() == 0 {
        SkipRun::Done { used: 0 }
    } else {
        let rest = s.drop_first();
        match s[0] {
            XmlToken::ElementStart { prefix, local } => {
                let name = spec_qname(prefix@, local@);
                if name == tag {
                    SkipRun::Done { used: 1 }
                } else {
                    match rte_run(rest, name, RteState::OwnAttrs) {
                        SkipRun::Done { used } => skip_plus(
                            till_run(s.skip(1 + used as int), tag),
                            1 + used,
                        ),
                        SkipRun::Fail { used, err } => SkipRun::Fail { used: 1 + used, err },
                    }
                }
            },
            XmlToken::Other => skip_plus(till_run(rest, tag), 1),
            XmlToken::ParseError { message } => SkipRun::Fail {
                used: 1,
                err: ErrorModel::Parser { message: message@ },
            },
            _ => SkipRun::Fail {
                used: 1,
                err: ErrorModel::UnexpectedToken { token: s[0].describe_spec() },
            },
        }
    }
}

#[via_fn]
proof fn till_run_decreases(s: Seq<XmlToken>, tag: Seq<char>) {
    if s.len() > 0 {
        match s[0] {
            XmlToken::ElementStart { prefix, local } => {
                lemma_rte_used_bound(s.drop_first(), spec_qname(prefix@, local@),
                    RteState::OwnAttrs);
            },
            _ => {},
        }
    }
}

/// A scan never consumes more tokens than the stream holds.
pub proof fn lemma_till_used_bound(s: Seq<XmlToken>, tag: Seq<char>)
    ensures
        skip_used(till_run(s, tag)) <= s.len(),
    decreases s.len(),
{
    if s.len() > 0 {
        let rest = s.drop_first();
        lemma_till_used_bound(rest, tag);
        match s[0] {
            XmlToken::ElementStart { prefix, local } => {
                let name = spec_qname(prefix@, local@);
                lemma_rte_used_bound(rest, name, RteState::OwnAttrs);
                match rte_run(rest, name, RteState::OwnAttrs) {
                    SkipRun::Done { used } => {
                        lemma_till_used_bound(s.skip(1 + used as int), tag);
                    },
                    SkipRun::Fail { used, err } => {},
                }
            },
            _ => {},
        }
    }
}

/// The run of `find_element_start`: the next element start is reported
/// without being consumed; when a wanted closing tag is given, its matching
/// close is consumed and reported, a differently named close is a tag
/// mismatch; a stray end or attribute token is out of place; text, CDATA
/// and tokens of no interest pass.
pub open spec fn find_run(s: Seq<XmlToken>, end_tag: Option<Seq<char>>) -> FindRun
    decreases s.len(),
{
    if s.len() == 0 {
        FindRun::Fail { used: 0, err: ErrorModel::UnexpectedEof }
    } else {
        match s[0] {
            XmlToken::ElementStart { prefix, local } => FindRun::Found {
                used: 0,
                name: spec_qname(prefix@, local@),
            },
            XmlToken::ElementEndClose { prefix, local } => match end_tag {
                Option::Some(tg) => if spec_qname(prefix@, local@) == tg {
                    FindRun::Closed { used: 1 }
                } else {
                    FindRun::Fail {
                        used: 0,
                        err: ErrorModel::TagMismatch {
                            expected: tg,
                            found: spec_qname(prefix@, local@),
                        },
                    }
                },
                Option::None => FindRun::Fail {
                    used: 0,
                    err: ErrorModel::UnexpectedToken { token: s[0].describe_spec() },
                },
            },
            XmlToken::ElementEndOpen => FindRun::Fail {
                used: 0,
                err: ErrorModel::UnexpectedToken { token: s[0].describe_spec() },
            },
            XmlToken::ElementEndEmpty => FindRun::Fail {
                used: 0,
                err: ErrorModel::UnexpectedToken { token: s[0].describe_spec() },
            },
            XmlToken::Attribute { .. } => FindRun::Fail {
                used: 0,
                err: ErrorModel::UnexpectedToken { token: s[0].describe_spec() },
            },
            XmlToken::ParseError { message } => FindRun::Fail {
                used: 1,
                err: ErrorModel::Parser { message: message@ },
            },
            _ => find_plus(find_run(s.drop_first(), end_tag), 1),
        }
    }
}

/// A scan never consumes more tokens than the stream holds.
pub proof fn lemma_find_used_bound(s: Seq<XmlToken>, end_tag: Option<Seq<char>>)
    ensures
        find_used(find_run(s, end_tag)) <= s.len(),
    decreases s.len(),
{
    if s.len() > 0 {
        lemma_find_used_bound(s.drop_first(), end_tag);
    }
}

/// How a text-reading operation's result and final stream relate to its run.
pub open spec fn text_outcome(
    pre: Seq<XmlToken>,
    post: Seq<XmlToken>,
    run: TextRun,
    r: Result<String, XmlError>,
) -> bool {
    match run {
        TextRun::Done { used, text } => (r matches Ok(t) && t@ == text) && post == pre.skip(
            used as int,
        ),
        TextRun::Fail { used, err } => (r matches Err(e) && e@ == err) && post == pre.skip(
            used as int,
        ),
    }
}

/// How a child-element scan's result and final stream relate to its run.
pub open spec fn find_outcome(
    pre: Seq<XmlToken>,
    post: Seq<XmlToken>,
    run: FindRun,
    r: Result<Option<String>, XmlError>,
) -> bool {
    match run {
        FindRun::Found { used, name } => (r matches Ok(o) && o matches Some(nm) && nm@ == name)
            && post == pre.skip(used as int),
        FindRun::Closed { used } => (r matches Ok(o) && o is None) && post == pre.skip(used as int),
        FindRun::Fail { used, err } => (r matches Err(e) && e@ == err) && post == pre.skip(
            used as int,
        ),
    }
}

/// How a skipping operation's result and final stream relate to its run.
pub open spec fn skip_outcome(
    pre: Seq<XmlToken>,
    post: Seq<XmlToken>,
    run: SkipRun,
    r: Result<(), XmlError>,
) -> bool {
    match run {
        SkipRun::Done { used } => r is Ok && post == pre.skip(used as int),
        SkipRun::Fail { used, err } => (r matches Err(e) && e@ == err) && post == pre.skip(
            used as int,
        ),
    }
}

// ---------------------------------------------------------------------------
// The reader and its primitive cursor operations.
// ---------------------------------------------------------------------------
/// A cursor over the document's tokens with one token of lookahead: `peek`
/// shows the next token without consuming it, `next` consumes it.  Every
/// higher operation's contract is stated over [`XmlReader::stream`], the
/// sequence of tokens not yet consumed.
pub struct XmlReader {
    tokens: Vec<XmlToken>,
}

impl XmlReader {
    /// The tokens not yet consumed, in the order `next` will yield them.
    pub closed spec fn stream(self) -> Seq<XmlToken> {
        Seq::new(self.tokens@.len(), |i: int| self.tokens@[self.tokens@.len() - 1 - i])
    }

    /// Tokenizes the whole input.  What the stream holds is whatever the
    /// outside tokenizer yields for this text.
    pub fn new(text: &str) -> (r: XmlReader) {
        let mut raw = raw_tokens(text);
        let mut tokens: Vec<XmlToken> = Vec::new();
        loop
            decreases raw@.len(),
        {
            match raw.pop() {
                None => { break; },
                Some(item) => {
                    let t = match item {
                        Ok(rt) => convert_token(rt),
                        Err(e) => XmlToken::ParseError { message: parse_error_text(&e) },
                    };
                    tokens.push(t);
                },
            }
        }
        XmlReader { tokens }
    }

    /// Consumes and returns the next token, if any.
    pub fn next(&mut self) -> (r: Option<XmlToken>)
        ensures
            old(self).stream().len() == 0 ==> r is None && final(self).stream()
                == old(self).stream(),
            old(self).stream().len() > 0 ==> r == Some(old(self).stream()[0])
                && final(self).stream() == old(self).stream().drop_first(),
    {
        let r = self.tokens.pop();
        proof {
            if old(self).stream().len() > 0 {
                assert(self.stream() =~= old(self).stream().drop_first());
            } else {
                assert(self.stream() =~= old(self).stream());
            }
        }
        r
    }

    /// Skips the rest of the element named `end_tag` whose start token was
    /// just consumed: first its own attributes and tag-head end, then, if the
    /// head ended with `>`, its whole body through the matching close, with
    /// same-named nesting balanced by an explicit depth.
    pub fn read_to_end(&mut self, end_tag: &str) -> (r: Result<(), XmlError>)
        ensures
            skip_outcome(
                old(self).stream(),
                final(self).stream(),
                rte_run(old(self).stream(), end_tag@, RteState::OwnAttrs),
                r,
            ),
        decreases old(self).stream().len(),
    {
        let ghost pre = self.stream();
        // pins the stream's length into the machine range for the depth bound
        let _stream_len = self.tokens.len();
        match self.next() {
            None => {
                proof {
                    assert(pre.skip(0) =~= pre);
                }
                Err(XmlError::UnexpectedEof)
            },
            Some(t) => {
                proof {
                    assert(pre.skip(1) =~= pre.drop_first());
                }
                match t {
                    XmlToken::ElementEndEmpty => Ok(()),
                    XmlToken::ElementEndOpen => {
                        let r = self.rte_body(end_tag, 1);
                        proof {
                            let run = rte_run(pre.drop_first(), end_tag@, RteState::Body {
                                depth: 1,
                            });
                            lemma_rte_used_bound(pre.drop_first(), end_tag@, RteState::Body {
                                depth: 1,
                            });
                            lemma_skip_one(pre, skip_used(run) as int);
                        }
                        r
                    },
                    XmlToken::Attribute { .. } => {
                        let r = self.read_to_end(end_tag);
                        proof {
                            let run = rte_run(pre.drop_first(), end_tag@, RteState::OwnAttrs);
                            lemma_rte_used_bound(pre.drop_first(), end_tag@, RteState::OwnAttrs);
                            lemma_skip_one(pre, skip_used(run) as int);
                        }
                        r
                    },
                    XmlToken::ParseError { message } => Err(XmlError::Parser { message }),
                    other => Err(XmlError::UnexpectedToken { token: other.describe() }),
                }
            },
        }
    }

    /// The body phase of `read_to_end`: walks tokens at nesting depth
    /// `depth` of elements named `end_tag`.
    fn rte_body(&mut self, end_tag: &str, depth: usize) -> (r: Result<(), XmlError>)
        requires
            1 <= depth,
            depth + old(self).stream().len() <= usize::MAX,
        ensures
            skip_outcome(
                old(self).stream(),
                final(self).stream(),
                rte_run(old(self).stream(), end_tag@, RteState::Body { depth: depth as nat }),
                r,
            ),
        decreases old(self).stream().len(),
    {
        let ghost pre = self.stream();
        match self.next() {
            None => {
                proof {
                    assert(pre.skip(0) =~= pre);
                }
                Err(XmlError::UnexpectedEof)
            },
            Some(t) => {
                proof {
                    assert(pre.skip(1) =~= pre.drop_first());
                }
                match t {
                    XmlToken::ElementStart { prefix, local } => {
                        let name = qname(prefix.as_str(), local.as_str());
                        let ghost st: RteState = if spec_qname(prefix@, local@) == end_tag@ {
                            RteState::NestedAttrs { depth: depth as nat }
                        } else {
                            RteState::Body { depth: depth as nat }
                        };
                        let r = if str_equal(name.as_str(), end_tag) {
                            self.rte_nested(end_tag, depth)
                        } else {
                            self.rte_body(end_tag, depth)
                        };
                        proof {
                            let run = rte_run(pre.drop_first(), end_tag@, st);
                            lemma_rte_used_bound(pre.drop_first(), end_tag@, st);
                            lemma_skip_one(pre, skip_used(run) as int);
                        }
                        r
                    },
                    XmlToken::ElementEndClose { prefix, local } => {
                        let name = qname(prefix.as_str(), local.as_str());
                        if str_equal(name.as_str(), end_tag) {
                            if depth == 1 {
                                Ok(())
                            } else {
                                let r = self.rte_body(end_tag, depth - 1);
                                proof {
                                    let st = RteState::Body { depth: (depth - 1) as nat };
                                    let run = rte_run(pre.drop_first(), end_tag@, st);
                                    lemma_rte_used_bound(pre.drop_first(), end_tag@, st);
                                    lemma_skip_one(pre, skip_used(run) as int);
                                }
                                r
                            }
                        } else {
                            let r = self.rte_body(end_tag, depth);
                            proof {
                                let st = RteState::Body { depth: depth as nat };
                                let run = rte_run(pre.drop_first(), end_tag@, st);
                                lemma_rte_used_bound(pre.drop_first(), end_tag@, st);
                                lemma_skip_one(pre, skip_used(run) as int);
                            }
                            r
                        }
                    },
                    XmlToken::ParseError { message } => Err(XmlError::Parser { message }),
                    _ => {
                        let r = self.rte_body(end_tag, depth);
                        proof {
                            let st = RteState::Body { depth: depth as nat };
                            let run = rte_run(pre.drop_first(), end_tag@, st);
                            lemma_rte_used_bound(pre.drop_first(), end_tag@, st);
                            lemma_skip_one(pre, skip_used(run) as int);
                        }
                        r
                    },
                }
            },
        }
    }

    /// The tag-head phase of a nested same-named element inside
    /// `read_to_end`'s body walk: `>` deepens the nesting, `/>` leaves it.
    fn rte_nested(&mut self, end_tag: &str, depth: usize) -> (r: Result<(), XmlError>)
        requires
            1 <= depth,
            depth + old(self).stream().len() <= usize::MAX,
        ensures
            skip_outcome(
                old(self).stream(),
                final(self).stream(),
                rte_run(
                    old(self).stream(),
                    end_tag@,
                    RteState::NestedAttrs { depth: depth as nat },
                ),
                r,
            ),
        decreases old(self).stream().len(),
    {
        let ghost pre = self.stream();
        match self.next() {
            None => {
                proof {
                    assert(pre.skip(0) =~= pre);
                }
                Err(XmlError::UnexpectedEof)
            },
            Some(t) => {
                proof {
                    assert(pre.skip(1) =~= pre.drop_first());
                }
                match t {
                    XmlToken::ElementEndEmpty => {
                        let r = self.rte_body(end_tag, depth);
                        proof {
                            let st = RteState::Body { depth: depth as nat };
                            let run = rte_run(pre.drop_first(), end_tag@, st);
                            lemma_rte_used_bound(pre.drop_first(), end_tag@, st);
                            lemma_skip_one(pre, skip_used(run) as int);
                        }
                        r
                    },
                    XmlToken::ElementEndOpen => {
                        let r = self.rte_body(end_tag, depth + 1);
                        proof {
                            let st = RteState::Body { depth: depth as nat + 1 };
                            let run = rte_run(pre.drop_first(), end_tag@, st);
                            lemma_rte_used_bound(pre.drop_first(), end_tag@, st);
                            lemma_skip_one(pre, skip_used(run) as int);
                        }
                        r
                    },
                    XmlToken::Attribute { .. } => {
                        let r = self.rte_nested(end_tag, depth);
                        proof {
                            let st = RteState::NestedAttrs { depth: depth as nat };
                            let run = rte_run(pre.drop_first(), end_tag@, st);
                            lemma_rte_used_bound(pre.drop_first(), end_tag@, st);
                            lemma_skip_one(pre, skip_used(run) as int);
                        }
                        r
                    },
                    XmlToken::ParseError { message } => Err(XmlError::Parser { message }),
                    other => Err(XmlError::UnexpectedToken { token: other.describe() }),
                }
            },
        }
    }

    /// Reads the single text or CDATA payload of the element named
    /// `end_tag`, whose start token was just consumed: text is unescaped,
    /// CDATA passes raw, and the matching close ends the read.  An element
    /// with no text yields the empty string; a differently named close is a
    /// `TagMismatch`.
    pub fn read_text(&mut self, end_tag: &str) -> (r: Result<String, XmlError>)
        ensures
            text_outcome(
                old(self).stream(),
                final(self).stream(),
                text_run(old(self).stream(), end_tag@, Option::None),
                r,
            ),
    {
        self.read_text_go(end_tag, None)
    }

    /// The walk behind `read_text`, carrying the last text seen so far.
    fn read_text_go(&mut self, end_tag: &str, acc: Option<String>) -> (r: Result<
        String,
        XmlError,
    >)
        ensures
            text_outcome(
                old(self).stream(),
                final(self).stream(),
                text_run(old(self).stream(), end_tag@, opt_string_view(&acc)),
                r,
            ),
        decreases old(self).stream().len(),
    {
        let ghost pre = self.stream();
        let ghost acc0 = opt_string_view(&acc);
        match self.next() {
            None => {
                proof {
                    assert(pre.skip(0) =~= pre);
                }
                match acc {
                    Some(t) => Ok(t),
                    None => Ok(String::new()),
                }
            },
            Some(t) => {
                proof {
                    assert(pre.skip(1) =~= pre.drop_first());
                }
                match t {
                    XmlToken::ElementEndOpen => {
                        let r = self.read_text_go(end_tag, acc);
                        proof {
                            let run = text_run(pre.drop_first(), end_tag@, acc0);
                            lemma_text_used_bound(pre.drop_first(), end_tag@, acc0);
                            lemma_skip_one(pre, text_used(run) as int);
                        }
                        r
                    },
                    XmlToken::Attribute { .. } => {
                        let r = self.read_text_go(end_tag, acc);
                        proof {
                            let run = text_run(pre.drop_first(), end_tag@, acc0);
                            lemma_text_used_bound(pre.drop_first(), end_tag@, acc0);
                            lemma_skip_one(pre, text_used(run) as int);
                        }
                        r
                    },
                    XmlToken::Text { text } => {
                        match xml_unescape(text.as_str()) {
                            Ok(u) => {
                                let unescaped = u.into_string();
                                let ghost acc1 = opt_string_view(&Some(unescaped));
                                let r = self.read_text_go(end_tag, Some(unescaped));
                                proof {
                                    let run = text_run(pre.drop_first(), end_tag@, acc1);
                                    lemma_text_used_bound(pre.drop_first(), end_tag@, acc1);
                                    lemma_skip_one(pre, text_used(run) as int);
                                }
                                r
                            },
                            Err(e) => Err(e),
                        }
                    },
                    XmlToken::Cdata { text } => {
                        let ghost acc1 = opt_string_view(&Some(text));
                        let r = self.read_text_go(end_tag, Some(text));
                        proof {
                            let run = text_run(pre.drop_first(), end_tag@, acc1);
                            lemma_text_used_bound(pre.drop_first(), end_tag@, acc1);
                            lemma_skip_one(pre, text_used(run) as int);
                        }
                        r
                    },
                    XmlToken::ElementEndClose { prefix, local } => {
                        let name = qname(prefix.as_str(), local.as_str());
                        if str_equal(name.as_str(), end_tag) {
                            match acc {
                                Some(t) => Ok(t),
                                None => Ok(String::new()),
                            }
                        } else {
                            Err(XmlError::TagMismatch { expected: end_tag.to_owned(), found: name })
                        }
                    },
                    XmlToken::ParseError { message } => Err(XmlError::Parser { message }),
                    other => Err(XmlError::UnexpectedToken { token: other.describe() }),
                }
            },
        }
    }

    /// Scans forward for the start of an element named `end_tag`, consuming
    /// it; the start of any other element is skipped with its whole subtree.
    /// Reaching the end of the input without finding one is not a fault.
    pub fn read_till_element_start(&mut self, end_tag: &str) -> (r: Result<(), XmlError>)
        ensures
            skip_outcome(
                old(self).stream(),
                final(self).stream(),
                till_run(old(self).stream(), end_tag@),
                r,
            ),
        decreases old(self).stream().len(),
    {
        let ghost pre = self.stream();
        match self.next() {
            None => {
                proof {
                    assert(pre.skip(0) =~= pre);
                }
                Ok(())
            },
            Some(t) => {
                proof {
                    assert(pre.skip(1) =~= pre.drop_first());
                }
                match t {
                    XmlToken::ElementStart { prefix, local } => {
                        let name = qname(prefix.as_str(), local.as_str());
                        if str_equal(name.as_str(), end_tag) {
                            Ok(())
                        } else {
                            let ghost rest = pre.drop_first();
                            let ghost inner = rte_run(rest, name@, RteState::OwnAttrs);
                            proof {
                                lemma_rte_used_bound(rest, name@, RteState::OwnAttrs);
                            }
                            match self.read_to_end(name.as_str()) {
                                Ok(()) => {
                                    proof {
                                        lemma_skip_one(pre, skip_used(inner) as int);
                                    }
                                    let r = self.read_till_element_start(end_tag);
                                    proof {
                                        let c = skip_used(inner) as int;
                                        let run = till_run(pre.skip(1 + c), end_tag@);
                                        lemma_till_used_bound(pre.skip(1 + c), end_tag@);
                                        lemma_skip_skip(pre, 1 + c, skip_used(run) as int);
                                    }
                                    r
                                },
                                Err(e) => {
                                    proof {
                                        lemma_skip_one(pre, skip_used(inner) as int);
                                    }
                                    Err(e)
                                },
                            }
                        }
                    },
                    XmlToken::Other => {
                        let r = self.read_till_element_start(end_tag);
                        proof {
                            let run = till_run(pre.drop_first(), end_tag@);
                            lemma_till_used_bound(pre.drop_first(), end_tag@);
                            lemma_skip_one(pre, skip_used(run) as int);
                        }
                        r
                    },
                    XmlToken::ParseError { message } => Err(XmlError::Parser { message }),
                    other => Err(XmlError::UnexpectedToken { token: other.describe() }),
                }
            },
        }
    }

    /// Peeks for the next attribute of the element whose tag head is being
    /// read: an attribute token is consumed and returned; the tag head's own
    /// end (`>` or `/>`) is left in place and yields `None`; anything else
    /// is out of place.
    pub fn find_attribute(&mut self) -> (r: Result<Option<(String, String)>, XmlError>)
        ensures
            ({
                let pre = old(self).stream();
                let post = final(self).stream();
                if pre.len() == 0 {
                    (r matches Err(e) && e@ == ErrorModel::UnexpectedEof) && post == pre
                } else {
                    match pre[0] {
                        XmlToken::Attribute { prefix, local, value } => (r matches Ok(o)
                            && o matches Some(a) && a.0@ == spec_qname(prefix@, local@) && a.1@
                            == value@) && post == pre.drop_first(),
                        XmlToken::ElementEndOpen => (r matches Ok(o) && o is None) && post == pre,
                        XmlToken::ElementEndEmpty => (r matches Ok(o) && o is None) && post == pre,
                        XmlToken::ParseError { message } => (r matches Err(e) && e@
                            == ErrorModel::Parser { message: message@ }) && post
                            == pre.drop_first(),
                        _ => (r matches Err(e) && e@ == ErrorModel::UnexpectedToken {
                            token: pre[0].describe_spec(),
                        }) && post == pre,
                    }
                }
            }),
    {
        let decision: u8 = match self.peek() {
            None => 0,
            Some(XmlToken::Attribute { .. }) => 1,
            Some(XmlToken::ElementEndOpen) => 2,
            Some(XmlToken::ElementEndEmpty) => 2,
            Some(XmlToken::ParseError { .. }) => 3,
            Some(_) => 4,
        };
        if decision == 0 {
            return Err(XmlError::UnexpectedEof);
        }
        if decision == 1 {
            match self.next() {
                Some(XmlToken::Attribute { prefix, local, value }) => {
                    let name = qname(prefix.as_str(), local.as_str());
                    return Ok(Some((name, value)));
                },
                _ => {
                    proof {
                        assert(false);
                    }
                    return Err(XmlError::UnexpectedEof);
                },
            }
        }
        if decision == 2 {
            return Ok(None);
        }
        if decision == 3 {
            match self.next() {
                Some(XmlToken::ParseError { message }) => {
                    return Err(XmlError::Parser { message });
                },
                _ => {
                    proof {
                        assert(false);
                    }
                    return Err(XmlError::UnexpectedEof);
                },
            }
        }
        let msg = match self.peek() {
            Some(t) => t.describe(),
            None => {
                proof {
                    assert(false);
                }
                String::new()
            },
        };
        Err(XmlError::UnexpectedToken { token: msg })
    }

    /// Peeks forward for the start of a child element, passing over text and
    /// tokens of no interest: an element start's full name is returned with
    /// the start left in place; when `end_tag` is given and its matching
    /// close appears instead, the close is consumed and `None` returned.
    pub fn find_element_start(&mut self, end_tag: Option<&str>) -> (r: Result<
        Option<String>,
        XmlError,
    >)
        ensures
            find_outcome(
                old(self).stream(),
                final(self).stream(),
                find_run(old(self).stream(), opt_str_view(end_tag)),
                r,
            ),
        decreases old(self).stream().len(),
    {
        let ghost pre = self.stream();
        let decision: u8 = match self.peek() {
            None => 0,
            Some(XmlToken::ElementStart { .. }) => 1,
            Some(XmlToken::ElementEndClose { .. }) => 2,
            Some(XmlToken::ElementEndOpen) => 3,
            Some(XmlToken::ElementEndEmpty) => 3,
            Some(XmlToken::Attribute { .. }) => 3,
            Some(XmlToken::ParseError { .. }) => 4,
            Some(_) => 5,
        };
        if decision == 0 {
            proof {
                assert(pre.skip(0) =~= pre);
            }
            return Err(XmlError::UnexpectedEof);
        }
        if decision == 1 {
            let name = match self.peek() {
                Some(XmlToken::ElementStart { prefix, local }) => qname(
                    prefix.as_str(),
                    local.as_str(),
                ),
                _ => {
                    proof {
                        assert(false);
                    }
                    String::new()
                },
            };
            proof {
                assert(pre.skip(0) =~= pre);
            }
            return Ok(Some(name));
        }
        if decision == 2 {
            let name = match self.peek() {
                Some(XmlToken::ElementEndClose { prefix, local }) => qname(
                    prefix.as_str(),
                    local.as_str(),
                ),
                _ => {
                    proof {
                        assert(false);
                    }
                    String::new()
                },
            };
            match end_tag {
                Some(tg) => {
                    if str_equal(name.as_str(), tg) {
                        let _close = self.next();
                        proof {
                            assert(pre.skip(1) =~= pre.drop_first());
                        }
                        return Ok(None);
                    } else {
                        proof {
                            assert(pre.skip(0) =~= pre);
                        }
                        return Err(XmlError::TagMismatch { expected: tg.to_owned(), found: name });
                    }
                },
                None => {
                    let msg = match self.peek() {
                        Some(t) => t.describe(),
                        None => {
                            proof {
                                assert(false);
                            }
                            String::new()
                        },
                    };
                    proof {
                        assert(pre.skip(0) =~= pre);
                    }
                    return Err(XmlError::UnexpectedToken { token: msg });
                },
            }
        }
        if decision == 3 {
            let msg = match self.peek() {
                Some(t) => t.describe(),
                None => {
                    proof {
                        assert(false);
                    }
                    String::new()
                },
            };
            proof {
                assert(pre.skip(0) =~= pre);
            }
            return Err(XmlError::UnexpectedToken { token: msg });
        }
        if decision == 4 {
            match self.next() {
                Some(XmlToken::ParseError { message }) => {
                    proof {
                        assert(pre.skip(1) =~= pre.drop_first());
                    }
                    return Err(XmlError::Parser { message });
                },
                _ => {
                    proof {
                        assert(false);
                    }
                    return Err(XmlError::UnexpectedEof);
                },
            }
        }
        let _passed = self.next();
        let r = self.find_element_start(end_tag);
        proof {
            let run = find_run(pre.drop_first(), opt_str_view(end_tag));
            lemma_find_used_bound(pre.drop_first(), opt_str_view(end_tag));
            lemma_skip_one(pre, find_used(run) as int);
        }
        r
    }

    /// Shows the next token without consuming it; idempotent until `next`.
    pub fn peek(&self) -> (r: Option<&XmlToken>)
        ensures
            self.stream().len() == 0 ==> r is None,
            self.stream().len() > 0 ==> (r matches Some(t) && *t == self.stream()[0]),
    {
        let n = self.tokens.len();
        if n == 0 {
            None
        } else {
            Some(&self.tokens[n - 1])
        }
    }
}

/// Where the scan of `read_till_element_start` stops when it succeeds: on
/// the start token of an element with the wanted name, consuming it and
/// nothing after it — unless the input ran out, in which case everything
/// was consumed.
pub proof fn lemma_till_stops_at_start(s: Seq<XmlToken>, tag: Seq<char>)
    requires
        till_run(s, tag) is Done,
    ensures
        ({
            let used = skip_used(till_run(s, tag));
            used == s.len() || (used > 0 && s[used - 1].starts_named(tag))
        }),
    decreases s.len(),
{
    if s.len() > 0 {
        let rest = s.drop_first();
        match s[0] {
            XmlToken::ElementStart { prefix, local } => {
                let name = spec_qname(prefix@, local@);
                if name != tag {
                    match rte_run(rest, name, RteState::OwnAttrs) {
                        SkipRun::Done { used } => {
                            lemma_rte_used_bound(rest, name, RteState::OwnAttrs);
                            let tail = s.skip(1 + used as int);
                            lemma_till_stops_at_start(tail, tag);
                            lemma_till_used_bound(tail, tag);
                            let inner = skip_used(till_run(tail, tag));
                            if inner != tail.len() {
                                assert(tail[inner as int - 1] == s[1 + used as int + inner as int - 1]);
                            }
                        },
                        SkipRun::Fail { used, err } => {},
                    }
                }
            },
            XmlToken::Other => {
                lemma_till_stops_at_start(rest, tag);
                lemma_till_used_bound(rest, tag);
                let inner = skip_used(till_run(rest, tag));
                if inner != rest.len() {
                    assert(rest[inner as int - 1] == s[inner as int]);
                }
            },
            _ => {},
        }
    }
}

/// The shape of a same-tag-nested element of depth `n`: `<a/>` at depth
/// zero, else `<a>` wrapping the next depth down, closed by `</a>`, with no
/// attributes, text or other matter in between.
pub open spec fn nested_element(s: Seq<XmlToken>, tag: Seq<char>, n: nat) -> bool
    decreases n,
{
    if n == 0 {
        s.len() == 2 && s[0].starts_named(tag) && s[1] == XmlToken::ElementEndEmpty
    } else {
        s.len() == 3 * n + 2 && s[0].starts_named(tag) && s[1] == XmlToken::ElementEndOpen
            && nested_element(s.subrange(2, s.len() - 1), tag, (n - 1) as nat)
            && s.last().closes_named(tag)
    }
}

/// Walking a same-tag-nested element inside a body consumes exactly its
/// tokens and leaves the depth where it was.
proof fn lemma_nested_element_body(s: Seq<XmlToken>, rest: Seq<XmlToken>, tag: Seq<char>, n: nat, d: nat)
    requires
        nested_element(s, tag, n),
        d >= 1,
    ensures
        rte_run(s + rest, tag, RteState::Body { depth: d }) == skip_plus(
            rte_run(rest, tag, RteState::Body { depth: d }),
            s.len(),
        ),
    decreases n,
{
    let w = s + rest;
    assert(w[0] == s[0]);
    assert(w.drop_first() =~= s.drop_first() + rest);
    assert(w.drop_first()[0] == s[1]);
    assert(w.drop_first().drop_first() =~= s.drop_first().drop_first() + rest);
    assert(rte_run(w, tag, RteState::Body { depth: d }) == skip_plus(
        rte_run(w.drop_first(), tag, RteState::NestedAttrs { depth: d }),
        1,
    ));
    if n == 0 {
        assert(s.drop_first().drop_first() =~= Seq::<XmlToken>::empty());
        assert(s.drop_first().drop_first() + rest =~= rest);
        assert(rte_run(w.drop_first(), tag, RteState::NestedAttrs { depth: d }) == skip_plus(
            rte_run(rest, tag, RteState::Body { depth: d }),
            1,
        ));
    } else {
        let inner = s.subrange(2, s.len() - 1);
        let close = seq![s.last()];
        assert(s.drop_first().drop_first() + rest =~= inner + (close + rest));
        assert(rte_run(w.drop_first(), tag, RteState::NestedAttrs { depth: d }) == skip_plus(
            rte_run(inner + (close + rest), tag, RteState::Body { depth: d + 1 }),
            1,
        ));
        lemma_nested_element_body(inner, close + rest, tag, (n - 1) as nat, d + 1);
        assert((close + rest)[0] == s.last());
        assert((close + rest).drop_first() =~= rest);
        assert(rte_run(close + rest, tag, RteState::Body { depth: d + 1 }) == skip_plus(
            rte_run(rest, tag, RteState::Body { depth: d }),
            1,
        ));
    }
}

/// The balance law of `read_to_end`: on a same-tag-nested element whose
/// start token was just consumed, the run succeeds and consumes exactly the
/// element's remaining tokens — same-named recursion does not fool the
/// depth count.
pub proof fn lemma_read_to_end_nested(s: Seq<XmlToken>, tag: Seq<char>, n: nat)
    requires
        nested_element(s, tag, n),
    ensures
        rte_run(s.drop_first(), tag, RteState::OwnAttrs) == (SkipRun::Done {
            used: (s.len() - 1) as nat,
        }),
{
    let t = s.drop_first();
    assert(t[0] == s[1]);
    if n == 0 {
    } else {
        let inner = s.subrange(2, s.len() - 1);
        let close = seq![s.last()];
        assert(t.drop_first() =~= inner + close);
        lemma_nested_element_body(inner, close, tag, (n - 1) as nat, 1);
        assert(close[0] == s.last());
    }
}

/// Free-function form of [`XmlReader::read_text`].
pub fn read_text(reader: &mut XmlReader, tag: &str) -> (r: Result<String, XmlError>)
    ensures
        text_outcome(
            old(reader).stream(),
            final(reader).stream(),
            text_run(old(reader).stream(), tag@, Option::None),
            r,
        ),
{
    reader.read_text(tag)
}

/// Free-function form of [`XmlReader::read_till_element_start`].
pub fn read_till_element_start(reader: &mut XmlReader, tag: &str) -> (r: Result<(), XmlError>)
    ensures
        skip_outcome(
            old(reader).stream(),
            final(reader).stream(),
            till_run(old(reader).stream(), tag@),
            r,
        ),
{
    reader.read_till_element_start(tag)
}

/// Free-function form of [`XmlReader::read_to_end`].
pub fn read_to_end(reader: &mut XmlReader, tag: &str) -> (r: Result<(), XmlError>)
    ensures
        skip_outcome(
            old(reader).stream(),
            final(reader).stream(),
            rte_run(old(reader).stream(), tag@, RteState::OwnAttrs),
            r,
        ),
{
    reader.read_to_end(tag)
}

} // verus!
