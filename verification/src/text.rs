//! Text as sequences of characters: the searching, reading and number
//! formatting that the other modules share.

use vstd::prelude::*;

verus! {

/// `String::push` appends one character to the end of the string.
pub assume_specification[ String::push ](string: &mut String, ch: char)
    ensures
        final(string)@ == old(string)@.push(ch),
;

/// `String::push_str` appends the characters of a string slice.
pub assume_specification[ String::push_str ](string: &mut String, slice: &str)
    ensures
        final(string)@ == old(string)@ + slice@,
;

/// The characters of `text`.
pub fn chars_of(text: &str) -> (chars: Vec<char>)
    ensures
        chars@ == text@,
{
    let mut chars: Vec<char> = Vec::new();
    for ch in iter: text.chars()
        invariant
            iter.seq() == text@,
            chars@ == text@.take(iter.index() as int),
    {
        chars.push(ch);
        assert(chars@ =~= text@.take(iter.index() + 1));
    }
    assert(chars@ =~= text@);
    chars
}

/// The text that `chars` spell.
pub fn string_of(chars: &[char]) -> (text: String)
    ensures
        text@ == chars@,
{
    let mut text: String = String::new();
    let mut at: usize = 0;
    while at < chars.len()
        invariant
            at <= chars@.len(),
            text@ == chars@.take(at as int),
        decreases chars@.len() - at,
    {
        text.push(chars[at]);
        at += 1;
        assert(text@ =~= chars@.take(at as int));
    }
    assert(text@ =~= chars@);
    text
}

pub open spec fn is_digit(ch: char) -> bool {
    '0' <= ch <= '9'
}

/// The decimal digit for a number below ten.
pub open spec fn digit(n: nat) -> char {
    ('0' as nat + n) as char
}

/// The digit for a number below sixteen, in lower case.
pub open spec fn hex_digit(n: nat) -> char {
    if n < 10 {
        ('0' as nat + n) as char
    } else {
        ('a' as nat + n - 10) as char
    }
}

/// `n` in decimal, without leading zeros.
pub open spec fn decimal(n: nat) -> Seq<char>
    decreases n,
{
    if n < 10 {
        seq![digit(n)]
    } else {
        decimal(n / 10).push(digit(n % 10))
    }
}

/// `n` in decimal, with a minus sign where it is negative.
pub open spec fn signed_decimal(n: int) -> Seq<char> {
    if n < 0 {
        seq!['-'] + decimal((-n) as nat)
    } else {
        decimal(n as nat)
    }
}

/// The lowest `width` hexadecimal digits of `n`.
pub open spec fn hex(n: nat, width: nat) -> Seq<char>
    decreases width,
{
    if width == 0 {
        Seq::empty()
    } else {
        hex(n / 16, (width - 1) as nat).push(hex_digit(n % 16))
    }
}

/// The number that decimal digits spell.
pub open spec fn decimal_value(digits: Seq<char>) -> nat
    decreases digits.len(),
{
    if digits.len() == 0 {
        0
    } else {
        10 * decimal_value(digits.drop_last()) + (digits.last() as nat - '0' as nat) as nat
    }
}

/// Reading a number back gives the number that was written, and all that was
/// written are digits.
pub proof fn law_decimal_value_undoes_decimal(n: nat)
    ensures
        decimal_value(decimal(n)) == n,
        decimal(n).len() > 0,
        forall|i: int| 0 <= i < decimal(n).len() ==> is_digit(#[trigger] decimal(n)[i]),
    decreases n,
{
    if n >= 10 {
        law_decimal_value_undoes_decimal(n / 10);
        assert(decimal(n).drop_last() =~= decimal(n / 10));
        assert forall|i: int| 0 <= i < decimal(n).len() implies is_digit(
            #[trigger] decimal(n)[i],
        ) by {
            if i < decimal(n / 10).len() {
                assert(decimal(n)[i] == decimal(n / 10)[i]);
            }
        }
    } else {
        assert(decimal(n).drop_last() =~= Seq::empty());
        assert(decimal_value(Seq::empty()) == 0);
    }
}

fn decimal_digit(n: u8) -> (ch: char)
    requires
        n < 10,
    ensures
        ch == digit(n as nat),
{
    (48 + n) as char
}

fn hexadecimal_digit(n: u8) -> (ch: char)
    requires
        n < 16,
    ensures
        ch == hex_digit(n as nat),
{
    if n < 10 {
        (48 + n) as char
    } else {
        (97 + (n - 10)) as char
    }
}

/// Appends `n` in decimal.
pub fn push_decimal(text: &mut String, n: u64)
    ensures
        final(text)@ == old(text)@ + decimal(n as nat),
    decreases n,
{
    if n >= 10 {
        push_decimal(text, n / 10);
    }
    text.push(decimal_digit((n % 10) as u8));
    assert(text@ =~= old(text)@ + decimal(n as nat));
}

/// Appends `n` in decimal, signed.
pub fn push_signed(text: &mut String, n: i64)
    ensures
        final(text)@ == old(text)@ + signed_decimal(n as int),
{
    if n < 0 {
        text.push('-');
        push_decimal(text, (-(n as i128)) as u64);
        assert(text@ =~= old(text)@ + signed_decimal(n as int));
    } else {
        push_decimal(text, n as u64);
    }
}

/// Appends the lowest `width` hexadecimal digits of `n`.
pub fn push_hex(text: &mut String, n: u64, width: u8)
    ensures
        final(text)@ == old(text)@ + hex(n as nat, width as nat),
    decreases width,
{
    if width > 0 {
        push_hex(text, n / 16, width - 1);
        text.push(hexadecimal_digit((n % 16) as u8));
    }
    assert(text@ =~= old(text)@ + hex(n as nat, width as nat));
}

/// `n` in hexadecimal, without leading zeros.
pub open spec fn short_hex(n: nat) -> Seq<char>
    decreases n,
{
    if n < 16 {
        seq![hex_digit(n)]
    } else {
        short_hex(n / 16).push(hex_digit(n % 16))
    }
}

/// Appends `n` in hexadecimal, without leading zeros.
pub fn push_short_hex(text: &mut String, n: u64)
    ensures
        final(text)@ == old(text)@ + short_hex(n as nat),
    decreases n,
{
    if n >= 16 {
        push_short_hex(text, n / 16);
    }
    text.push(hexadecimal_digit((n % 16) as u8));
    assert(text@ =~= old(text)@ + short_hex(n as nat));
}

/// `n` in hexadecimal behind `0x`, padded with zeros to at least eight digits.
pub open spec fn address(n: nat) -> Seq<char> {
    if n < 0x1_0000_0000 {
        "0x"@ + hex(n, 8)
    } else {
        "0x"@ + short_hex(n)
    }
}

/// Appends `n` as an address.
pub fn push_address(text: &mut String, n: u64)
    ensures
        final(text)@ == old(text)@ + address(n as nat),
{
    text.push_str("0x");
    if n < 0x1_0000_0000 {
        push_hex(text, n, 8);
    } else {
        push_short_hex(text, n);
    }
    assert(text@ =~= old(text)@ + address(n as nat));
}

/// Unicode's white space.
pub open spec fn is_space(ch: char) -> bool {
    let c = ch as u32;
    ||| 0x09 <= c <= 0x0d
    ||| c == 0x20
    ||| c == 0x85
    ||| c == 0xa0
    ||| c == 0x1680
    ||| 0x2000 <= c <= 0x200a
    ||| c == 0x2028
    ||| c == 0x2029
    ||| c == 0x202f
    ||| c == 0x205f
    ||| c == 0x3000
}

fn space(ch: char) -> (yes: bool)
    ensures
        yes == is_space(ch),
{
    let c: u32 = ch as u32;
    (0x09 <= c && c <= 0x0d) || c == 0x20 || c == 0x85 || c == 0xa0 || c == 0x1680 || (0x2000 <= c
        && c <= 0x200a) || c == 0x2028 || c == 0x2029 || c == 0x202f || c == 0x205f || c == 0x3000
}

/// `chars` without the white space that starts them.
pub open spec fn trim_start(chars: Seq<char>) -> Seq<char>
    decreases chars.len(),
{
    if chars.len() > 0 && is_space(chars[0]) {
        trim_start(chars.skip(1))
    } else {
        chars
    }
}

/// The index of the first character at or after `from` that is not white
/// space.
pub fn skip_space(chars: &[char], from: usize) -> (at: usize)
    requires
        from <= chars@.len(),
    ensures
        from <= at <= chars@.len(),
        chars@.skip(at as int) == trim_start(chars@.skip(from as int)),
{
    let mut at: usize = from;
    while at < chars.len() && space(chars[at])
        invariant
            from <= at <= chars@.len(),
            trim_start(chars@.skip(at as int)) == trim_start(chars@.skip(from as int)),
        decreases chars@.len() - at,
    {
        assert(chars@.skip(at as int).skip(1) =~= chars@.skip(at + 1));
        at += 1;
    }
    at
}

/// How many characters start `chars` that are decimal digits.
pub open spec fn digits_len(chars: Seq<char>) -> nat
    decreases chars.len(),
{
    if chars.len() > 0 && is_digit(chars[0]) {
        1 + digits_len(chars.skip(1))
    } else {
        0
    }
}

/// The index of the first character at or after `from` that is no digit.
pub fn skip_digits(chars: &[char], from: usize) -> (at: usize)
    requires
        from <= chars@.len(),
    ensures
        from <= at <= chars@.len(),
        at - from == digits_len(chars@.skip(from as int)),
        forall|i: int| from <= i < at ==> is_digit(chars@[i]),
{
    let mut at: usize = from;
    assert(chars@.skip(from as int) =~= chars@.skip(at as int));
    while at < chars.len() && '0' <= chars[at] && chars[at] <= '9'
        invariant
            from <= at <= chars@.len(),
            digits_len(chars@.skip(from as int)) == at - from + digits_len(chars@.skip(at as int)),
            forall|i: int| from <= i < at ==> is_digit(chars@[i]),
        decreases chars@.len() - at,
    {
        assert(chars@.skip(at as int).skip(1) =~= chars@.skip(at + 1));
        at += 1;
    }
    at
}

pub proof fn lemma_decimal_value_grows(digits: Seq<char>, at: int)
    requires
        0 <= at <= digits.len(),
    ensures
        decimal_value(digits.take(at)) <= decimal_value(digits),
    decreases digits.len() - at,
{
    if at < digits.len() {
        assert(digits.take(at + 1).drop_last() =~= digits.take(at));
        lemma_decimal_value_grows(digits, at + 1);
    } else {
        assert(digits.take(at) =~= digits);
    }
}

/// The number that `chars[from..to]`, all digits, spell, where it is at most
/// `limit`.
pub fn read_decimal(chars: &[char], from: usize, to: usize, limit: u64) -> (value: Option<u64>)
    requires
        from <= to <= chars@.len(),
        forall|i: int| from <= i < to ==> is_digit(chars@[i]),
    ensures
        ({
            let n = decimal_value(chars@.subrange(from as int, to as int));
            value == (if n <= limit {
                Some(n as u64)
            } else {
                None
            })
        }),
{
    let ghost digits = chars@.subrange(from as int, to as int);
    let mut value: u64 = 0;
    let mut at: usize = from;
    assert(digits.take(0) =~= Seq::empty());
    while at < to
        invariant
            from <= at <= to <= chars@.len(),
            forall|i: int| from <= i < to ==> is_digit(chars@[i]),
            digits == chars@.subrange(from as int, to as int),
            value == decimal_value(digits.take(at - from)),
            value <= limit,
        decreases to - at,
    {
        let next: u128 = value as u128 * 10 + (chars[at] as u32 - '0' as u32) as u128;
        proof {
            assert(digits.take(at - from + 1).drop_last() =~= digits.take(at - from));
            lemma_decimal_value_grows(digits, at - from + 1);
        }
        if next > limit as u128 {
            return None;
        }
        value = next as u64;
        at += 1;
    }
    assert(digits.take(at - from) =~= digits);
    Some(value)
}

/// Does `needle` stand in `chars` at `at`?
pub open spec fn occurs_at(chars: Seq<char>, needle: Seq<char>, at: int) -> bool {
    0 <= at && at + needle.len() <= chars.len() && chars.subrange(at, at + needle.len()) == needle
}

/// Is `at` where `needle` first stands in `chars`?
pub open spec fn first_at(chars: Seq<char>, needle: Seq<char>, at: int) -> bool {
    occurs_at(chars, needle, at) && forall|i: int|
        0 <= i < at ==> !#[trigger] occurs_at(chars, needle, i)
}

/// Does `needle` stand anywhere in `chars`?
pub open spec fn contains(chars: Seq<char>, needle: Seq<char>) -> bool {
    exists|i: int| #[trigger] occurs_at(chars, needle, i)
}

pub fn stands_at(chars: &[char], needle: &[char], at: usize) -> (yes: bool)
    requires
        at <= chars@.len(),
    ensures
        yes == occurs_at(chars@, needle@, at as int),
{
    if needle.len() > chars.len() - at {
        return false;
    }
    let mut i: usize = 0;
    while i < needle.len()
        invariant
            i <= needle@.len(),
            at + needle@.len() <= chars@.len() <= usize::MAX,
            forall|j: int| 0 <= j < i ==> chars@[at + j] == needle@[j],
        decreases needle@.len() - i,
    {
        if chars[at + i] != needle[i] {
            assert(chars@.subrange(at as int, at + needle@.len())[i as int] != needle@[i as int]);
            return false;
        }
        i += 1;
    }
    assert(chars@.subrange(at as int, at + needle@.len()) =~= needle@);
    true
}

/// Where `needle` first stands at or after `from`.
pub fn find_from(chars: &[char], needle: &[char], from: usize) -> (found: Option<usize>)
    requires
        from <= chars@.len(),
    ensures
        found matches Some(at) ==> from <= at && at + needle@.len() <= chars@.len() && first_at(
            chars@.skip(from as int),
            needle@,
            at - from,
        ),
        found is None ==> !contains(chars@.skip(from as int), needle@),
{
    let ghost tail = chars@.skip(from as int);
    let mut at: usize = from;
    while at < chars.len()
        invariant
            from <= at <= chars@.len(),
            tail == chars@.skip(from as int),
            forall|i: int| 0 <= i < at - from ==> !#[trigger] occurs_at(tail, needle@, i),
        decreases chars@.len() - at,
    {
        let here: bool = stands_at(chars, needle, at);
        proof {
            if at + needle@.len() <= chars@.len() {
                assert(chars@.subrange(at as int, at + needle@.len()) =~= tail.subrange(
                    at - from,
                    at - from + needle@.len(),
                ));
            }
        }
        if here {
            return Some(at);
        }
        at += 1;
    }
    if needle.len() == 0 {
        assert(tail.subrange(tail.len() as int, tail.len() as int) =~= needle@);
        return Some(at);
    }
    assert forall|i: int| !#[trigger] occurs_at(tail, needle@, i) by {}
    None
}

/// A number without the plus sign that may stand before it.
pub open spec fn unsigned(number: Seq<char>) -> Seq<char> {
    if number.len() > 0 && number[0] == '+' {
        number.skip(1)
    } else {
        number
    }
}

/// Are these decimal digits, one at least?
pub open spec fn are_digits(digits: Seq<char>) -> bool {
    digits.len() > 0 && forall|i: int| 0 <= i < digits.len() ==> is_digit(digits[i])
}

/// Is `chars` free of `ch`?
pub open spec fn free_of(chars: Seq<char>, ch: char) -> bool {
    forall|i: int| 0 <= i < chars.len() ==> chars[i] != ch
}

/// Does `ch` stand anywhere in `chars`?
pub fn holds(chars: &[char], ch: char) -> (yes: bool)
    ensures
        yes == !free_of(chars@, ch),
{
    let mut at: usize = 0;
    while at < chars.len()
        invariant
            at <= chars@.len(),
            forall|i: int| 0 <= i < at ==> chars@[i] != ch,
        decreases chars@.len() - at,
    {
        if chars[at] == ch {
            return true;
        }
        at += 1;
    }
    false
}

/// Are both the same text?
pub fn same(one: &str, other: &str) -> (yes: bool)
    ensures
        yes == (one@ == other@),
{
    let a: Vec<char> = chars_of(one);
    let b: Vec<char> = chars_of(other);
    let yes: bool = a.len() == b.len() && stands_at(a.as_slice(), b.as_slice(), 0);
    proof {
        if a@.len() == b@.len() {
            assert(a@.subrange(0, b@.len() as int) =~= a@);
        }
    }
    yes
}

/// Does `needle` stand anywhere in `chars`?
pub fn found_in(chars: &[char], needle: &[char]) -> (yes: bool)
    ensures
        yes == contains(chars@, needle@),
{
    assert(chars@.skip(0) =~= chars@);
    match find_from(chars, needle, 0) {
        Some(at) => {
            assert(occurs_at(chars@, needle@, at as int));
            true
        },
        None => false,
    }
}

/// Each byte as two hexadecimal digits.
pub open spec fn hex_bytes(bytes: Seq<u8>) -> Seq<char>
    decreases bytes.len(),
{
    if bytes.len() == 0 {
        Seq::empty()
    } else {
        hex_bytes(bytes.drop_last()) + hex(bytes.last() as nat, 2)
    }
}

/// Appends each byte as two hexadecimal digits.
pub fn push_hex_bytes(text: &mut String, bytes: &[u8])
    ensures
        final(text)@ == old(text)@ + hex_bytes(bytes@),
{
    let mut at: usize = 0;
    assert(bytes@.take(0) =~= Seq::empty());
    assert(text@ =~= old(text)@ + hex_bytes(bytes@.take(0)));
    while at < bytes.len()
        invariant
            at <= bytes@.len(),
            text@ == old(text)@ + hex_bytes(bytes@.take(at as int)),
        decreases bytes@.len() - at,
    {
        assert(bytes@.take(at + 1).drop_last() =~= bytes@.take(at as int));
        push_hex(text, bytes[at] as u64, 2);
        at += 1;
        assert(text@ =~= old(text)@ + hex_bytes(bytes@.take(at as int)));
    }
    assert(bytes@.take(at as int) =~= bytes@);
}

/// `chars` without the white space that ends them.
pub open spec fn trim_end(chars: Seq<char>) -> Seq<char>
    decreases chars.len(),
{
    if chars.len() > 0 && is_space(chars.last()) {
        trim_end(chars.drop_last())
    } else {
        chars
    }
}

/// Is this white space?
pub fn is_white(ch: char) -> (yes: bool)
    ensures
        yes == is_space(ch),
{
    space(ch)
}

/// The characters of `text` without the white space around them.
pub fn trimmed(text: &str) -> (chars: Vec<char>)
    ensures
        chars@ == trim_end(trim_start(text@)),
{
    let mut chars: Vec<char> = chars_of(text);
    assert(chars@.skip(0) =~= chars@);
    let from: usize = skip_space(chars.as_slice(), 0);
    let mut rest: Vec<char> = chars.split_off(from);
    assert(rest@ =~= trim_start(text@));
    while rest.len() > 0 && space(rest[rest.len() - 1])
        invariant
            trim_end(rest@) == trim_end(trim_start(text@)),
        decreases rest@.len(),
    {
        let ghost before = rest@;
        rest.pop();
        assert(rest@ =~= before.drop_last());
    }
    rest
}

} // verus!
