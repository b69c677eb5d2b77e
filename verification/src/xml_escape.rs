use vstd::prelude::*;

use crate::xml_text::push_char;
use crate::xml_text::XmlText;
use crate::xml_unescape::entity_char;
use crate::xml_unescape::find_semicolon;
use crate::xml_unescape::unescape_run;
use crate::xml_unescape::UnescapeOutcome;

verus! {

/// True for the five characters that must be written as entities.
pub open spec fn is_xml_special(c: char) -> bool {
    c == '<' || c == '>' || c == '&' || c == '\'' || c == '"'
}

/// What one character becomes in escaped output: its entity if it is
/// special, itself otherwise.
pub open spec fn escape_char(c: char) -> Seq<char> {
    if c == '<' {
        seq!['&', 'l', 't', ';']
    } else if c == '>' {
        seq!['&', 'g', 't', ';']
    } else if c == '&' {
        seq!['&', 'a', 'm', 'p', ';']
    } else if c == '\'' {
        seq!['&', 'a', 'p', 'o', 's', ';']
    } else if c == '"' {
        seq!['&', 'q', 'u', 'o', 't', ';']
    } else {
        seq![c]
    }
}

/// The escaped form of a text: every character replaced by what it becomes,
/// in order, with nothing else changed.
pub open spec fn escaped_text(s: Seq<char>) -> Seq<char>
    decreases s.len(),
{
    if s.len() == 0 {
        Seq::empty()
    } else {
        escape_char(s[0]) + escaped_text(s.drop_first())
    }
}

/// True when the text holds at least one special character.
pub open spec fn has_special(s: Seq<char>) -> bool {
    exists|i: int| 0 <= i < s.len() && is_xml_special(s[i])
}

/// A text without special characters escapes to itself.
pub proof fn lemma_escape_no_special(s: Seq<char>)
    requires
        !has_special(s),
    ensures
        escaped_text(s) == s,
    decreases s.len(),
{
    if s.len() > 0 {
        assert(!is_xml_special(s[0]));
        assert(!has_special(s.drop_first())) by {
            assert(forall|i: int|
                0 <= i < s.drop_first().len() ==> s.drop_first()[i] == s[i + 1]);
        }
        lemma_escape_no_special(s.drop_first());
        assert(escaped_text(s) =~= s);
    } else {
        assert(escaped_text(s) =~= s);
    }
}

/// Escaping and unescaping are inverse: unescaping the escaped form of any
/// text succeeds and gives the text back.
pub proof fn lemma_escape_unescape_roundtrip(s: Seq<char>)
    ensures
        unescape_run(escaped_text(s)) == (UnescapeOutcome::Done { text: s }),
    decreases s.len(),
{
    reveal_with_fuel(find_semicolon, 7);
    if s.len() == 0 {
        assert(escaped_text(s) =~= Seq::<char>::empty());
        assert(s =~= Seq::<char>::empty());
    } else {
        let c = s[0];
        let rest = s.drop_first();
        lemma_escape_unescape_roundtrip(rest);
        let e = escaped_text(s);
        assert(e == escape_char(c) + escaped_text(rest));
        assert(seq![c] + rest =~= s);
        if !is_xml_special(c) {
            assert(e[0] == c);
            assert(e.drop_first() =~= escaped_text(rest));
            assert(unescape_run(e) == (UnescapeOutcome::Done { text: seq![c] + rest }));
        } else {
            let k: int = if c == '<' || c == '>' {
                3
            } else if c == '&' {
                4
            } else {
                5
            };
            assert(e[0] == '&');
            assert(e[k] == ';');
            assert(forall|j: int| 1 <= j < k ==> e[j] != ';');
            assert(find_semicolon(e, 1) == Option::Some(k));
            let ent = e.subrange(1, k);
            if c == '<' {
                assert(ent =~= seq!['l', 't']);
            } else if c == '>' {
                assert(ent =~= seq!['g', 't']);
            } else if c == '&' {
                assert(ent =~= seq!['a', 'm', 'p']);
            } else if c == '\'' {
                assert(ent =~= seq!['a', 'p', 'o', 's']);
            } else {
                assert(ent =~= seq!['q', 'u', 'o', 't']);
            }
            assert(entity_char(ent) == Option::Some(c));
            assert(e.skip(k + 1) =~= escaped_text(rest));
            assert(unescape_run(e) == (UnescapeOutcome::Done { text: seq![c] + rest }));
        }
    }
}

/// Replaces each of `< > & ' "` by its entity, preserving order and all
/// other characters verbatim; returns the input borrowed and unchanged when
/// none of the five appears.  Never fails.
pub fn xml_escape<'a>(raw: &'a str) -> (r: XmlText<'a>)
    ensures
        r@ == escaped_text(raw@),
        r is Borrowed <==> !has_special(raw@),
{
    let n = raw.unicode_len();
    let mut i: usize = 0;
    let mut found = false;
    while i < n && !found
        invariant
            n == raw@.len(),
            i <= n,
            !found ==> forall|j: int| 0 <= j < i ==> !is_xml_special(raw@[j]),
            found ==> has_special(raw@),
        decreases n - i + if found { 0int } else { 1int },
    {
        if char_is_special(raw.get_char(i)) {
            found = true;
        } else {
            i += 1;
        }
    }
    if !found {
        proof {
            lemma_escape_no_special(raw@);
        }
        XmlText::Borrowed(raw)
    } else {
        let mut out = String::new();
        escape_from(raw, n, 0, &mut out);
        proof {
            assert(raw@.skip(0) =~= raw@);
        }
        XmlText::Owned(out)
    }
}

/// True when the character is one of the five that escaping rewrites.
fn char_is_special(c: char) -> (r: bool)
    ensures
        r == is_xml_special(c),
{
    c == '<' || c == '>' || c == '&' || c == '\'' || c == '"'
}

/// Appends the escaped form of `raw`'s characters from position `i` on.
fn escape_from(raw: &str, n: usize, i: usize, out: &mut String)
    requires
        n == raw@.len(),
        i <= n,
    ensures
        final(out)@ == old(out)@ + escaped_text(raw@.skip(i as int)),
    decreases n - i,
{
    if i == n {
        proof {
            assert(raw@.skip(i as int) =~= Seq::<char>::empty());
            assert(out@ =~= old(out)@ + escaped_text(raw@.skip(i as int)));
        }
    } else {
        let c = raw.get_char(i);
        if c == '<' {
            out.append("&lt;");
            proof {
                reveal_strlit("&lt;");
                assert("&lt;"@ =~= escape_char('<'));
            }
        } else if c == '>' {
            out.append("&gt;");
            proof {
                reveal_strlit("&gt;");
                assert("&gt;"@ =~= escape_char('>'));
            }
        } else if c == '&' {
            out.append("&amp;");
            proof {
                reveal_strlit("&amp;");
                assert("&amp;"@ =~= escape_char('&'));
            }
        } else if c == '\'' {
            out.append("&apos;");
            proof {
                reveal_strlit("&apos;");
                assert("&apos;"@ =~= escape_char('\''));
            }
        } else if c == '"' {
            out.append("&quot;");
            proof {
                reveal_strlit("&quot;");
                assert("&quot;"@ =~= escape_char('"'));
            }
        } else {
            push_char(out, c);
            proof {
                assert(out@ =~= old(out)@ + escape_char(c));
            }
        }
        escape_from(raw, n, i + 1, out);
        proof {
            assert(raw@.skip(i as int).drop_first() =~= raw@.skip(i as int + 1));
            assert(escaped_text(raw@.skip(i as int)) == escape_char(raw@[i as int])
                + escaped_text(raw@.skip(i as int + 1)));
            assert(out@ =~= old(out)@ + escaped_text(raw@.skip(i as int)));
        }
    }
}

} // verus!
