use vstd::prelude::*;
use vstd::utf8::is_scalar;

use crate::xml_error::ErrorModel;
use crate::xml_error::XmlError;
use crate::xml_text::push_char;
use crate::xml_text::XmlText;

verus! {

/// What unescaping a text yields: the decoded text, or the first malformed
/// entity, exactly as the input shows it.
pub ghost enum UnescapeOutcome {
    /// Every entity decoded; `text` is the result.
    Done { text: Seq<char> },
    /// An `&` with no `;` after it; `entity` is the input from that `&` to
    /// its end.
    Unterminated { entity: Seq<char> },
    /// An entity that names no character; `symbol` is what stood between
    /// `&` and `;`.
    Unrecognized { symbol: Seq<char> },
}

/// The position of the first `;` at or after `i`, if any.
pub open spec fn find_semicolon(s: Seq<char>, i: int) -> Option<int>
    decreases s.len() - i when 0 <= i <= s.len()
{
    if i >= s.len() {
        Option::None
    } else if s[i] == ';' {
        Option::Some(i)
    } else {
        find_semicolon(s, i + 1)
    }
}

/// Where `find_semicolon` points, there stands a `;`, none stands earlier,
/// and `None` means none stands at all.
pub proof fn lemma_find_semicolon(s: Seq<char>, i: int)
    requires
        0 <= i <= s.len(),
    ensures
        match find_semicolon(s, i) {
            Option::Some(j) => i <= j < s.len() && s[j] == ';' && forall|k: int|
                i <= k < j ==> s[k] != ';',
            Option::None => forall|k: int| i <= k < s.len() ==> s[k] != ';',
        },
    decreases s.len() - i,
{
    if i < s.len() && s[i] != ';' {
        lemma_find_semicolon(s, i + 1);
    }
}

/// The numeric value of a digit in the given radix, if it is one.
pub open spec fn digit_val(c: char, radix: nat) -> Option<nat> {
    let u = c as u32;
    if 48 <= u <= 57 {
        Option::Some((u - 48) as nat)
    } else if radix == 16 && 97 <= u <= 102 {
        Option::Some((u - 87) as nat)
    } else if radix == 16 && 65 <= u <= 70 {
        Option::Some((u - 55) as nat)
    } else {
        Option::None
    }
}

/// Folds digits left to right; `None` on a non-digit or when the value
/// leaves the 32-bit range, as the standard radix parse behaves.
pub open spec fn radix_fold(s: Seq<char>, radix: nat, acc: nat) -> Option<nat>
    decreases s.len(),
{
    if s.len() == 0 {
        Option::Some(acc)
    } else {
        match digit_val(s[0], radix) {
            Option::Some(d) => {
                let acc2 = acc * radix + d;
                if acc2 > 0xFFFF_FFFF {
                    Option::None
                } else {
                    radix_fold(s.drop_first(), radix, acc2)
                }
            },
            Option::None => Option::None,
        }
    }
}

/// The value of a numeric-reference digit string: at most one leading `+`,
/// then at least one digit of the radix.
pub open spec fn parse_radix(s: Seq<char>, radix: nat) -> Option<nat> {
    if s.len() == 0 {
        Option::None
    } else if s[0] == '+' {
        if s.len() == 1 {
            Option::None
        } else {
            radix_fold(s.drop_first(), radix, 0)
        }
    } else {
        radix_fold(s, radix, 0)
    }
}

/// The character an entity names: one of the five predefined names, or a
/// numeric reference `#<decimal>` / `#x<hex>` to a Unicode scalar value.
pub open spec fn entity_char(ent: Seq<char>) -> Option<char> {
    if ent == seq!['q', 'u', 'o', 't'] {
        Option::Some('"')
    } else if ent == seq!['a', 'p', 'o', 's'] {
        Option::Some('\'')
    } else if ent == seq!['g', 't'] {
        Option::Some('>')
    } else if ent == seq!['l', 't'] {
        Option::Some('<')
    } else if ent == seq!['a', 'm', 'p'] {
        Option::Some('&')
    } else {
        let v = if ent.len() >= 2 && ent[0] == '#' && ent[1] == 'x' {
            parse_radix(ent.skip(2), 16)
        } else if ent.len() >= 1 && ent[0] == '#' {
            parse_radix(ent.skip(1), 10)
        } else {
            Option::<nat>::None
        };
        match v {
            Option::Some(n) => if n <= 0xFFFF_FFFF && is_scalar(n as u32) {
                Option::Some(n as u32 as char)
            } else {
                Option::None
            },
            Option::None => Option::None,
        }
    }
}

/// Unescaping, character by character from the front: ordinary characters
/// pass through; each `&` must open an entity closed by the next `;`, which
/// decodes to one character; the first malformed entity ends the run.
pub open spec fn unescape_run(s: Seq<char>) -> UnescapeOutcome
    decreases s.len() via unescape_run_decreases
{
    if s.len() == 0 {
        UnescapeOutcome::Done { text: Seq::empty() }
    } else if s[0] != '&' {
        match unescape_run(s.drop_first()) {
            UnescapeOutcome::Done { text } => UnescapeOutcome::Done { text: seq![s[0]] + text },
            e => e,
        }
    } else {
        match find_semicolon(s, 1) {
            Option::None => UnescapeOutcome::Unterminated { entity: s },
            Option::Some(j) => {
                let ent = s.subrange(1, j);
                match entity_char(ent) {
                    Option::Some(c) => match unescape_run(s.skip(j + 1)) {
                        UnescapeOutcome::Done { text } => UnescapeOutcome::Done {
                            text: seq![c] + text,
                        },
                        e => e,
                    },
                    Option::None => UnescapeOutcome::Unrecognized { symbol: ent },
                }
            },
        }
    }
}

#[via_fn]
proof fn unescape_run_decreases(s: Seq<char>) {
    if s.len() > 0 && s[0] == '&' {
        lemma_find_semicolon(s, 1);
    }
}

/// True when the text holds an `&`.
pub open spec fn has_amp(s: Seq<char>) -> bool {
    exists|i: int| 0 <= i < s.len() && s[i] == '&'
}

/// A text without `&` unescapes to itself.
pub proof fn lemma_unescape_no_amp(s: Seq<char>)
    requires
        !has_amp(s),
    ensures
        unescape_run(s) == (UnescapeOutcome::Done { text: s }),
    decreases s.len(),
{
    if s.len() > 0 {
        assert(s[0] != '&');
        assert(!has_amp(s.drop_first())) by {
            assert(forall|i: int|
                0 <= i < s.drop_first().len() ==> s.drop_first()[i] == s[i + 1]);
        }
        lemma_unescape_no_amp(s.drop_first());
        assert(seq![s[0]] + s.drop_first() =~= s);
    } else {
        assert(s =~= Seq::<char>::empty());
    }
}

/// Relies on `char::from_u32`: `Some` exactly for Unicode scalar values
/// (at most 0x10FFFF and not a surrogate), and then the character with that
/// value.
#[verifier::external_body]
fn char_from_u32(v: u32) -> (r: Option<char>)
    ensures
        r is Some <==> is_scalar(v),
        r is Some ==> r->0 as u32 == v,
{
    char::from_u32(v)
}

/// Decodes the five predefined entities and numeric character references;
/// returns the input borrowed and unchanged when it holds no `&`.  Fails
/// with `UnterminatedEntity` on an `&` that no `;` follows, and with
/// `UnrecognizedSymbol` on an entity that names no character.
pub fn xml_unescape<'a>(raw: &'a str) -> (r: Result<XmlText<'a>, XmlError>)
    ensures
        match unescape_run(raw@) {
            UnescapeOutcome::Done { text } => r matches Ok(t) && t@ == text && ((t is Borrowed)
                <==> !has_amp(raw@)),
            UnescapeOutcome::Unterminated { entity } => r matches Err(e) && e@
                == (ErrorModel::UnterminatedEntity { entity }),
            UnescapeOutcome::Unrecognized { symbol } => r matches Err(e) && e@
                == (ErrorModel::UnrecognizedSymbol { symbol }),
        },
{
    let n = raw.unicode_len();
    let mut i: usize = 0;
    let mut found = false;
    while i < n && !found
        invariant
            n == raw@.len(),
            i <= n,
            !found ==> forall|j: int| 0 <= j < i ==> raw@[j] != '&',
            found ==> has_amp(raw@),
        decreases n - i + if found { 0int } else { 1int },
    {
        if raw.get_char(i) == '&' {
            found = true;
        } else {
            i += 1;
        }
    }
    if !found {
        proof {
            lemma_unescape_no_amp(raw@);
        }
        Ok(XmlText::Borrowed(raw))
    } else {
        let mut out = String::new();
        proof {
            assert(raw@.skip(0) =~= raw@);
        }
        match unescape_from(raw, n, 0, &mut out) {
            Ok(()) => {
                proof {
                    if unescape_run(raw@) is Done {
                        let text = unescape_run(raw@)->Done_text;
                        assert(out@ =~= text);
                    }
                }
                Ok(XmlText::Owned(out))
            },
            Err(e) => Err(e),
        }
    }
}

/// Decodes `raw`'s characters from position `i` on into `out`.
fn unescape_from(raw: &str, n: usize, i: usize, out: &mut String) -> (r: Result<(), XmlError>)
    requires
        n == raw@.len(),
        i <= n,
    ensures
        match unescape_run(raw@.skip(i as int)) {
            UnescapeOutcome::Done { text } => r is Ok && final(out)@ == old(out)@ + text,
            UnescapeOutcome::Unterminated { entity } => r matches Err(e) && e@
                == (ErrorModel::UnterminatedEntity { entity }),
            UnescapeOutcome::Unrecognized { symbol } => r matches Err(e) && e@
                == (ErrorModel::UnrecognizedSymbol { symbol }),
        },
    decreases n - i,
{
    let ghost s = raw@.skip(i as int);
    if i == n {
        proof {
            assert(s =~= Seq::<char>::empty());
            assert(out@ =~= old(out)@ + Seq::<char>::empty());
        }
        return Ok(());
    }
    let c = raw.get_char(i);
    proof {
        assert(s[0] == raw@[i as int]);
    }
    if c != '&' {
        push_char(out, c);
        let r = unescape_from(raw, n, i + 1, out);
        proof {
            assert(s.drop_first() =~= raw@.skip(i as int + 1));
            if unescape_run(s.drop_first()) is Done {
                let text = unescape_run(s.drop_first())->Done_text;
                assert(out@ =~= old(out)@ + (seq![c] + text));
            }
        }
        return r;
    }
    // `c` is `&`: the next `;` closes the entity.
    let mut j = i + 1;
    while j < n && raw.get_char(j) != ';'
        invariant
            n == raw@.len(),
            i + 1 <= j <= n,
            forall|k: int| i + 1 <= k < j ==> raw@[k] != ';',
        decreases n - j,
    {
        j += 1;
    }
    proof {
        lemma_find_semicolon(s, 1);
        assert(forall|k: int| 0 <= k < s.len() ==> s[k] == raw@[i + k]);
    }
    if j == n {
        // no `;` before the end of the input
        let entity = raw.substring_char(i, n).to_owned();
        proof {
            assert(find_semicolon(s, 1) is None) by {
                if find_semicolon(s, 1) is Some {
                    let jj = find_semicolon(s, 1)->0;
                    assert(raw@[i + jj] == ';');
                }
            }
            assert(entity@ =~= s);
        }
        return Err(XmlError::UnterminatedEntity { entity });
    }
    proof {
        assert(raw@[j as int] == ';');
        assert(find_semicolon(s, 1) == Option::Some(j - i)) by {
            if find_semicolon(s, 1) is None {
                assert(s[j - i] != ';');
            } else {
                let jj = find_semicolon(s, 1)->0;
                assert(s[jj] == ';');
                if jj < j - i {
                    assert(raw@[i + jj] == ';');
                }
                if jj > j - i {
                    assert(s[j - i] != ';');
                }
            }
        }
    }
    let ent = raw.substring_char(i + 1, j);
    proof {
        assert(ent@ =~= s.subrange(1, j - i));
    }
    match recognize_entity(ent) {
        Ok(c2) => {
            push_char(out, c2);
            let r = unescape_from(raw, n, j + 1, out);
            proof {
                assert(s.skip(j - i + 1) =~= raw@.skip(j as int + 1));
                if unescape_run(s.skip(j - i + 1)) is Done {
                    let text = unescape_run(s.skip(j - i + 1))->Done_text;
                    assert(out@ =~= old(out)@ + (seq![c2] + text));
                }
            }
            r
        },
        Err(e) => Err(e),
    }
}

/// The character the entity between `&` and `;` names, or the error naming
/// the symbol.
fn recognize_entity(entity: &str) -> (r: Result<char, XmlError>)
    ensures
        match entity_char(entity@) {
            Option::Some(c) => r matches Ok(rc) && rc == c,
            Option::None => r matches Err(e) && e@ == (ErrorModel::UnrecognizedSymbol {
                symbol: entity@,
            }),
        },
{
    proof {
        reveal_strlit("quot");
        reveal_strlit("apos");
        reveal_strlit("gt");
        reveal_strlit("lt");
        reveal_strlit("amp");
        assert("quot"@ =~= seq!['q', 'u', 'o', 't']);
        assert("apos"@ =~= seq!['a', 'p', 'o', 's']);
        assert("gt"@ =~= seq!['g', 't']);
        assert("lt"@ =~= seq!['l', 't']);
        assert("amp"@ =~= seq!['a', 'm', 'p']);
    }
    if crate::xml_token::str_equal(entity, "quot") {
        return Ok('"');
    }
    if crate::xml_token::str_equal(entity, "apos") {
        return Ok('\'');
    }
    if crate::xml_token::str_equal(entity, "gt") {
        return Ok('>');
    }
    if crate::xml_token::str_equal(entity, "lt") {
        return Ok('<');
    }
    if crate::xml_token::str_equal(entity, "amp") {
        return Ok('&');
    }
    let n = entity.unicode_len();
    let v: Option<u32> = if n >= 2 && entity.get_char(0) == '#' && entity.get_char(1) == 'x' {
        parse_u32(entity, 2, n, 16)
    } else if n >= 1 && entity.get_char(0) == '#' {
        parse_u32(entity, 1, n, 10)
    } else {
        None
    };
    match v {
        Some(u) => match char_from_u32(u) {
            Some(c) => {
                proof {
                    vstd::utf8::char_u32_cast(c, u);
                }
                Ok(c)
            },
            None => Err(XmlError::UnrecognizedSymbol { symbol: entity.to_owned() }),
        },
        None => Err(XmlError::UnrecognizedSymbol { symbol: entity.to_owned() }),
    }
}

/// The numeric value of `s`'s digits from `start` on, in the given radix.
fn parse_u32(s: &str, start: usize, n: usize, radix: u32) -> (r: Option<u32>)
    requires
        n == s@.len(),
        start <= n,
        radix == 10 || radix == 16,
    ensures
        match parse_radix(s@.skip(start as int), radix as nat) {
            Option::Some(v) => r matches Some(u) && u as nat == v,
            Option::None => r is None,
        },
{
    let ghost d = s@.skip(start as int);
    if start == n {
        return None;
    }
    proof {
        assert(forall|k: int| 0 <= k < d.len() ==> d[k] == s@[start + k]);
    }
    if s.get_char(start) == '+' {
        if start + 1 == n {
            return None;
        }
        let r = fold_digits(s, start + 1, n, radix, 0);
        proof {
            assert(d.drop_first() =~= s@.skip(start as int + 1));
        }
        r
    } else {
        fold_digits(s, start, n, radix, 0)
    }
}

/// Folds the digits of `s` from `i` on into `acc`, left to right, in the
/// given radix; `None` on a non-digit or on 32-bit overflow.
fn fold_digits(s: &str, i: usize, n: usize, radix: u32, acc: u32) -> (r: Option<u32>)
    requires
        n == s@.len(),
        i <= n,
        radix == 10 || radix == 16,
    ensures
        match radix_fold(s@.skip(i as int), radix as nat, acc as nat) {
            Option::Some(v) => r matches Some(u) && u as nat == v,
            Option::None => r is None,
        },
    decreases n - i,
{
    let ghost d = s@.skip(i as int);
    if i == n {
        proof {
            assert(d =~= Seq::<char>::empty());
        }
        return Some(acc);
    }
    proof {
        assert(d[0] == s@[i as int]);
    }
    let c = s.get_char(i);
    let u = c as u32;
    let dv: Option<u32> = if 48 <= u && u <= 57 {
        Some(u - 48)
    } else if radix == 16 && 97 <= u && u <= 102 {
        Some(u - 87)
    } else if radix == 16 && 65 <= u && u <= 70 {
        Some(u - 55)
    } else {
        None
    };
    match dv {
        None => None,
        Some(dig) => {
            let wide: u64 = acc as u64 * radix as u64 + dig as u64;
            if wide > 0xFFFF_FFFFu64 {
                None
            } else {
                let r = fold_digits(s, i + 1, n, radix, wide as u32);
                proof {
                    assert(d.drop_first() =~= s@.skip(i as int + 1));
                }
                r
            }
        },
    }
}

} // verus!
