//! Escaping for the small JSON documents the bridge publishes over HTTP.

use crate::arguments;
use crate::text;
use vstd::prelude::*;

verus! {

/// Writes a string as the contents of a JSON string literal.
///
/// An SSID is arbitrary bytes as far as 802.11 is concerned, and the credential
/// codec only checks length and UTF-8, so a network called `guest"net` reaches
/// the HTTP layer intact and interpolating it raw produces a document no parser
/// will accept.
pub struct Escaped<'a>(pub &'a str);

/// What stands for a character inside a JSON string.
pub open spec fn escape_char(ch: char) -> Seq<char> {
    if ch == '"' {
        seq!['\\', '"']
    } else if ch == '\\' {
        seq!['\\', '\\']
    } else if ch == '\n' {
        seq!['\\', 'n']
    } else if ch == '\r' {
        seq!['\\', 'r']
    } else if ch == '\t' {
        seq!['\\', 't']
    } else if (ch as u32) < 0x20 {
        seq!['\\', 'u'] + text::hex(ch as u32 as nat, 4)
    } else {
        seq![ch]
    }
}

/// What stands for a text inside a JSON string.
pub open spec fn escape(chars: Seq<char>) -> Seq<char>
    decreases chars.len(),
{
    if chars.len() == 0 {
        Seq::empty()
    } else {
        escape(chars.drop_last()) + escape_char(chars.last())
    }
}

impl<'a> Escaped<'a> {
    /// The escaped text.
    pub fn to_string(&self) -> (out: String)
        ensures
            out@ == escape(self.0@),
    {
        let chars: Vec<char> = text::chars_of(self.0);
        let mut out: String = String::new();
        let mut at: usize = 0;
        assert(chars@.take(0) =~= Seq::empty());
        while at < chars.len()
            invariant
                at <= chars@.len(),
                out@ == escape(chars@.take(at as int)),
            decreases chars@.len() - at,
        {
            let ch: char = chars[at];
            let code: u32 = ch as u32;
            let ghost before = out@;
            proof {
                reveal_strlit("\\\"");
                reveal_strlit("\\\\");
                reveal_strlit("\\n");
                reveal_strlit("\\r");
                reveal_strlit("\\t");
                reveal_strlit("\\u");
                assert(chars@.take(at + 1).drop_last() =~= chars@.take(at as int));
            }
            if ch == '"' {
                out.push_str("\\\"");
            } else if ch == '\\' {
                out.push_str("\\\\");
            } else if ch == '\n' {
                out.push_str("\\n");
            } else if ch == '\r' {
                out.push_str("\\r");
            } else if ch == '\t' {
                out.push_str("\\t");
            } else if code < 0x20 {
                out.push_str("\\u");
                text::push_hex(&mut out, code as u64, 4);
            } else {
                out.push(ch);
            }
            assert(out@ =~= before + escape_char(ch));
            at += 1;
        }
        assert(chars@.take(at as int) =~= chars@);
        out
    }
}

/// Where a JSON string's contents end: at its first quote that no backslash
/// escapes.
pub open spec fn literal_end(chars: Seq<char>) -> Option<nat>
    decreases chars.len(),
{
    if chars.len() == 0 {
        None
    } else if chars[0] == '"' {
        Some(0)
    } else if chars[0] == '\\' {
        if chars.len() < 2 {
            None
        } else {
            match literal_end(chars.skip(2)) {
                Some(end) => Some(end + 2),
                None => None,
            }
        }
    } else {
        match literal_end(chars.skip(1)) {
            Some(end) => Some(end + 1),
            None => None,
        }
    }
}

/// Skipping plain characters at the front of a literal.
proof fn lemma_plain_prefix(plain: Seq<char>, rest: Seq<char>)
    requires
        forall|i: int| 0 <= i < plain.len() ==> plain[i] != '"' && plain[i] != '\\',
    ensures
        literal_end(plain + rest) == (match literal_end(rest) {
            Some(end) => Some((end + plain.len()) as nat),
            None => None::<nat>,
        }),
    decreases plain.len(),
{
    let all = plain + rest;
    if plain.len() == 0 {
        assert(all =~= rest);
    } else {
        assert(all[0] == plain[0]);
        assert(all.skip(1) =~= plain.skip(1) + rest);
        lemma_plain_prefix(plain.skip(1), rest);
    }
}

proof fn lemma_hex4(n: nat)
    ensures
        text::hex(n, 4) == seq![
            text::hex_digit(n / 16 / 16 / 16 % 16),
            text::hex_digit(n / 16 / 16 % 16),
            text::hex_digit(n / 16 % 16),
            text::hex_digit(n % 16),
        ],
{
    reveal_with_fuel(text::hex, 5);
    assert(text::hex(n, 4) =~= seq![
        text::hex_digit(n / 16 / 16 / 16 % 16),
        text::hex_digit(n / 16 / 16 % 16),
        text::hex_digit(n / 16 % 16),
        text::hex_digit(n % 16),
    ]);
}

/// One character's escape never ends the string it stands in.
proof fn lemma_escape_char_continues(ch: char, rest: Seq<char>)
    ensures
        literal_end(escape_char(ch) + rest) == (match literal_end(rest) {
            Some(end) => Some((end + escape_char(ch).len()) as nat),
            None => None::<nat>,
        }),
        forall|i: int| 0 <= i < escape_char(ch).len() ==> escape_char(ch)[i] as u32 >= 0x20,
{
    let out = escape_char(ch);
    let all = out + rest;
    if ch == '"' || ch == '\\' || ch == '\n' || ch == '\r' || ch == '\t' {
        assert(all[0] == '\\');
        assert(all.skip(2) =~= rest);
    } else if (ch as u32) < 0x20 {
        let digits = text::hex(ch as u32 as nat, 4);
        lemma_hex4(ch as u32 as nat);
        assert(all[0] == '\\');
        assert(all.skip(2) =~= digits + rest);
        lemma_plain_prefix(digits, rest);
    } else {
        lemma_plain_prefix(out, rest);
    }
}

/// Whatever a text holds, the string that it is escaped into ends at the quote
/// after it and nowhere before, and holds no control character.
pub proof fn law_an_escaped_text_stays_one_string(chars: Seq<char>, rest: Seq<char>)
    ensures
        literal_end(escape(chars) + (seq!['"'] + rest)) == Some(escape(chars).len()),
        forall|i: int| 0 <= i < escape(chars).len() ==> escape(chars)[i] as u32 >= 0x20,
{
    lemma_escape_continues(chars, seq!['"'] + rest);
}

proof fn lemma_escape_continues(chars: Seq<char>, rest: Seq<char>)
    ensures
        literal_end(escape(chars) + rest) == (match literal_end(rest) {
            Some(end) => Some((end + escape(chars).len()) as nat),
            None => None::<nat>,
        }),
        forall|i: int| 0 <= i < escape(chars).len() ==> escape(chars)[i] as u32 >= 0x20,
    decreases chars.len(),
{
    if chars.len() == 0 {
        assert(escape(chars) + rest =~= rest);
    } else {
        let head = chars.drop_last();
        let last = escape_char(chars.last());
        lemma_escape_char_continues(chars.last(), rest);
        lemma_escape_continues(head, last + rest);
        assert(escape(chars) + rest =~= escape(head) + (last + rest));
    }
}

/// The character that a backslash and one more stand for.
pub open spec fn short_escape(ch: char) -> Option<char> {
    if ch == '"' || ch == '\\' || ch == '/' {
        Some(ch)
    } else if ch == 'b' {
        Some(8u8 as char)
    } else if ch == 'f' {
        Some(12u8 as char)
    } else if ch == 'n' {
        Some('\n')
    } else if ch == 'r' {
        Some('\r')
    } else if ch == 't' {
        Some('\t')
    } else {
        None
    }
}

/// The number that four hexadecimal digits at the start spell.
pub open spec fn code_at(chars: Seq<char>) -> Option<nat> {
    if chars.len() < 4 {
        None
    } else {
        match (
            arguments::digit_value(chars[0], 16),
            arguments::digit_value(chars[1], 16),
            arguments::digit_value(chars[2], 16),
            arguments::digit_value(chars[3], 16),
        ) {
            (Some(a), Some(b), Some(c), Some(d)) => Some(((a * 16 + b) * 16 + c) * 16 + d),
            _ => None,
        }
    }
}

/// `head` before what the rest of a text comes to.
pub open spec fn led_by(head: char, rest: Option<Seq<char>>) -> Option<Seq<char>> {
    match rest {
        Some(rest) => Some(seq![head] + rest),
        None => None,
    }
}

/// The text that the contents of a JSON string literal stand for, if they are
/// well-formed. A pair of surrogate codes is not read.
pub open spec fn unescape(chars: Seq<char>) -> Option<Seq<char>>
    decreases chars.len(),
{
    if chars.len() == 0 {
        Some(Seq::empty())
    } else if chars[0] == '"' || (chars[0] as u32) < 0x20 {
        None
    } else if chars[0] != '\\' {
        led_by(chars[0], unescape(chars.skip(1)))
    } else if chars.len() < 2 {
        None
    } else if chars[1] == 'u' {
        match code_at(chars.skip(2)) {
            Some(code) if code < 0xd800 || code >= 0xe000 => led_by(
                code as u32 as char,
                unescape(chars.skip(6)),
            ),
            _ => None,
        }
    } else {
        match short_escape(chars[1]) {
            Some(ch) => led_by(ch, unescape(chars.skip(2))),
            None => None,
        }
    }
}

/// An escaped text stands for the text that it was: as the contents of a JSON
/// string literal it parses back, every character in its place.
pub proof fn law_an_escaped_text_parses_back(chars: Seq<char>)
    ensures
        unescape(escape(chars)) == Some(chars),
{
    lemma_unescape_continues(chars, Seq::empty());
    assert(escape(chars) + Seq::<char>::empty() =~= escape(chars));
    assert(chars + Seq::<char>::empty() =~= chars);
}

proof fn lemma_unescape_continues(chars: Seq<char>, rest: Seq<char>)
    ensures
        unescape(escape(chars) + rest) == (match unescape(rest) {
            Some(text) => Some(chars + text),
            None => None::<Seq<char>>,
        }),
    decreases chars.len(),
{
    if chars.len() == 0 {
        assert(escape(chars) + rest =~= rest);
        if let Some(text) = unescape(rest) {
            assert(chars + text =~= text);
        }
    } else {
        let head = chars.drop_last();
        let last = escape_char(chars.last());
        lemma_unescape_char(chars.last(), rest);
        lemma_unescape_continues(head, last + rest);
        assert(escape(chars) + rest =~= escape(head) + (last + rest));
        if let Some(text) = unescape(rest) {
            assert(head + (seq![chars.last()] + text) =~= chars + text);
        }
    }
}

proof fn lemma_unescape_char(ch: char, rest: Seq<char>)
    ensures
        unescape(escape_char(ch) + rest) == led_by(ch, unescape(rest)),
{
    let out = escape_char(ch);
    let all = out + rest;
    if ch == '"' || ch == '\\' || ch == '\n' || ch == '\r' || ch == '\t' {
        assert(all[0] == '\\' && all[1] == out[1]);
        assert(all.skip(2) =~= rest);
    } else if (ch as u32) < 0x20 {
        let n = ch as u32 as nat;
        let digits = text::hex(n, 4);
        lemma_hex4(n);
        assert(all[0] == '\\' && all[1] == 'u');
        assert(all.skip(2) =~= digits + rest);
        assert(all.skip(6) =~= rest);
        let four = all.skip(2);
        assert(four[0] == digits[0] && four[1] == digits[1] && four[2] == digits[2] && four[3]
            == digits[3]);
        assert(code_at(four) == Some(n));
    } else {
        assert(all[0] == ch);
        assert(all.skip(1) =~= rest);
    }
}

/// Text with nothing to escape is unchanged.
pub proof fn law_ordinary_text_is_unchanged(chars: Seq<char>)
    requires
        forall|i: int|
            0 <= i < chars.len() ==> chars[i] != '"' && chars[i] != '\\' && #[trigger] chars[i] as u32
                >= 0x20,
    ensures
        escape(chars) == chars,
    decreases chars.len(),
{
    if chars.len() > 0 {
        law_ordinary_text_is_unchanged(chars.drop_last());
        assert(escape(chars) =~= chars);
    } else {
        assert(escape(chars) =~= chars);
    }
}

} // verus!
