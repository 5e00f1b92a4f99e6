//! Numbers and byte strings as a person types them.

use crate::text;
use vstd::prelude::*;

verus! {

/// Why text is no number.
#[derive(Clone, Copy, Debug, Eq, PartialEq, Structural)]
pub enum NumberError {
    Nothing,
    InvalidDigit,
    TooLarge,
}

/// The value of a digit in a radix of at most sixteen.
pub open spec fn digit_value(ch: char, radix: nat) -> Option<nat> {
    let value: int = if '0' <= ch <= '9' {
        ch as int - '0' as int
    } else if 'a' <= ch <= 'f' {
        ch as int - 'a' as int + 10
    } else if 'A' <= ch <= 'F' {
        ch as int - 'A' as int + 10
    } else {
        16
    };
    if value < radix {
        Some(value as nat)
    } else {
        None
    }
}

/// What `digits` spell behind a number that has been read already. The first
/// character that cannot be taken decides the error.
pub open spec fn continued(
    value: nat,
    digits: Seq<char>,
    radix: nat,
    limit: nat,
) -> Result<nat, NumberError>
    decreases digits.len(),
{
    if digits.len() == 0 {
        Ok(value)
    } else {
        match digit_value(digits[0], radix) {
            None => Err(NumberError::InvalidDigit),
            Some(digit) => if value * radix + digit > limit {
                Err(NumberError::TooLarge)
            } else {
                continued(value * radix + digit, digits.skip(1), radix, limit)
            },
        }
    }
}

/// What `number` spells: digits, with a plus sign before them or without.
pub open spec fn read(number: Seq<char>, radix: nat, limit: nat) -> Result<nat, NumberError> {
    if number.len() == 0 {
        Err(NumberError::Nothing)
    } else if text::unsigned(number).len() == 0 {
        Err(NumberError::InvalidDigit)
    } else {
        continued(0, text::unsigned(number), radix, limit)
    }
}

/// Does `0x` or `0X` stand at the start?
pub open spec fn has_hex_prefix(chars: Seq<char>) -> bool {
    chars.len() >= 2 && chars[0] == '0' && (chars[1] == 'x' || chars[1] == 'X')
}

/// The address that `typed` spells.
pub open spec fn address(typed: Seq<char>) -> Result<nat, NumberError> {
    let trimmed = text::trim_end(text::trim_start(typed));
    if has_hex_prefix(trimmed) {
        read(trimmed.skip(2), 16, u64::MAX as nat)
    } else {
        read(trimmed, 10, u64::MAX as nat)
    }
}

impl NumberError {
    /// The error in words.
    pub open spec fn words(self) -> Seq<char> {
        match self {
            NumberError::Nothing => "cannot parse integer from empty string"@,
            NumberError::InvalidDigit => "invalid digit found in string"@,
            NumberError::TooLarge => "number too large to fit in target type"@,
        }
    }

    /// The error in words.
    pub fn message(&self) -> (told: &'static str)
        ensures
            told@ == self.words(),
    {
        match self {
            NumberError::Nothing => "cannot parse integer from empty string",
            NumberError::InvalidDigit => "invalid digit found in string",
            NumberError::TooLarge => "number too large to fit in target type",
        }
    }
}

fn value_of(ch: char, radix: u32) -> (value: Option<u32>)
    requires
        radix <= 16,
    ensures
        match value {
            Some(value) => digit_value(ch, radix as nat) == Some(value as nat),
            None => digit_value(ch, radix as nat) is None,
        },
{
    let value: u32 = if '0' <= ch && ch <= '9' {
        ch as u32 - '0' as u32
    } else if 'a' <= ch && ch <= 'f' {
        ch as u32 - 'a' as u32 + 10
    } else if 'A' <= ch && ch <= 'F' {
        ch as u32 - 'A' as u32 + 10
    } else {
        16
    };
    if value < radix {
        Some(value)
    } else {
        None
    }
}

/// The number that stands in `chars` from `from` on.
fn number(chars: &[char], from: usize, radix: u32, limit: u64) -> (number: Result<u64, NumberError>)
    requires
        from <= chars@.len(),
        2 <= radix <= 16,
    ensures
        match number {
            Ok(value) => read(chars@.skip(from as int), radix as nat, limit as nat) == Ok::<
                nat,
                NumberError,
            >(value as nat),
            Err(error) => read(chars@.skip(from as int), radix as nat, limit as nat) == Err::<
                nat,
                NumberError,
            >(error),
        },
{
    let len: usize = chars.len();
    if from == len {
        return Err(NumberError::Nothing);
    }
    let mut at: usize = from;
    if chars[from] == '+' {
        at = from + 1;
        assert(chars@.skip(from as int).skip(1) =~= chars@.skip(at as int));
        if at == len {
            return Err(NumberError::InvalidDigit);
        }
    }
    let ghost digits = chars@.skip(at as int);
    let mut value: u64 = 0;
    while at < len
        invariant
            at <= len,
            len == chars@.len(),
            2 <= radix <= 16,
            value <= limit,
            read(chars@.skip(from as int), radix as nat, limit as nat) == continued(
                0,
                digits,
                radix as nat,
                limit as nat,
            ),
            continued(0, digits, radix as nat, limit as nat) == continued(
                value as nat,
                chars@.skip(at as int),
                radix as nat,
                limit as nat,
            ),
        decreases len - at,
    {
        assert(chars@.skip(at as int).skip(1) =~= chars@.skip(at + 1));
        match value_of(chars[at], radix) {
            None => {
                return Err(NumberError::InvalidDigit);
            },
            Some(digit) => {
                assert(value as int * radix as int <= u64::MAX * 16) by (nonlinear_arith)
                    requires
                        value <= u64::MAX,
                        radix <= 16,
                ;
                let next: u128 = value as u128 * radix as u128 + digit as u128;
                if next > limit as u128 {
                    return Err(NumberError::TooLarge);
                }
                value = next as u64;
                at += 1;
            },
        }
    }
    Ok(value)
}

/// Accepts `0x`-prefixed hex as well as decimal, because addresses are written
/// in hex everywhere else a person meets them.
pub fn parse_address(typed: &str) -> (parsed: Result<u64, NumberError>)
    ensures
        match parsed {
            Ok(value) => address(typed@) == Ok::<nat, NumberError>(value as nat),
            Err(error) => address(typed@) == Err::<nat, NumberError>(error),
        },
{
    let chars: Vec<char> = text::trimmed(typed);
    if chars.len() >= 2 && chars[0] == '0' && (chars[1] == 'x' || chars[1] == 'X') {
        number(chars.as_slice(), 2, 16, u64::MAX)
    } else {
        assert(chars@.skip(0) =~= chars@);
        number(chars.as_slice(), 0, 10, u64::MAX)
    }
}

/// How many bytes a character takes in UTF-8.
pub open spec fn width(ch: char) -> nat {
    let c = ch as u32;
    if c < 0x80 {
        1
    } else if c < 0x800 {
        2
    } else if c < 0x1_0000 {
        3
    } else {
        4
    }
}

/// How many bytes text takes in UTF-8.
pub open spec fn bytes_in(chars: Seq<char>) -> nat
    decreases chars.len(),
{
    if chars.len() == 0 {
        0
    } else {
        bytes_in(chars.drop_last()) + width(chars.last())
    }
}

/// The text behind every `0x` that starts it.
pub open spec fn without_prefixes(chars: Seq<char>) -> Seq<char>
    decreases chars.len(),
{
    if chars.len() >= 2 && chars[0] == '0' && chars[1] == 'x' {
        without_prefixes(chars.skip(2))
    } else {
        chars
    }
}

/// Is this a character that only separates?
pub open spec fn separates(ch: char) -> bool {
    text::is_space(ch) || ch == ':' || ch == '_'
}

/// The text without what only separates.
pub open spec fn without_separators(chars: Seq<char>) -> Seq<char>
    decreases chars.len(),
{
    if chars.len() == 0 {
        Seq::empty()
    } else if separates(chars.last()) {
        without_separators(chars.drop_last())
    } else {
        without_separators(chars.drop_last()).push(chars.last())
    }
}

/// The digits of a byte string that was typed.
pub open spec fn cleaned(typed: Seq<char>) -> Seq<char> {
    without_separators(without_prefixes(text::trim_end(text::trim_start(typed))))
}

/// What the byte pairs of `chars` spell.
#[verifier::ext_equal]
pub enum Spelled {
    Bytes(Seq<u8>),
    /// These characters are no byte.
    NoByte(Seq<char>),
    /// A pair ends inside a character.
    Cut,
}

/// What the byte pairs of `chars` spell behind `bytes`.
pub open spec fn spelled(bytes: Seq<u8>, chars: Seq<char>) -> Spelled
    decreases chars.len(),
{
    if chars.len() == 0 {
        Spelled::Bytes(bytes)
    } else if width(chars[0]) == 2 {
        Spelled::NoByte(chars.take(1))
    } else if width(chars[0]) > 2 || chars.len() == 1 || width(chars[1]) > 1 {
        Spelled::Cut
    } else {
        match read(chars.take(2), 16, u8::MAX as nat) {
            Ok(byte) => spelled(bytes.push(byte as u8), chars.skip(2)),
            Err(_) => Spelled::NoByte(chars.take(2)),
        }
    }
}

/// Can every byte pair up to the first that is no byte be looked at? Text whose
/// characters all take one byte always can.
pub open spec fn legible(typed: Seq<char>) -> bool {
    &&& bytes_in(cleaned(typed)) <= u64::MAX
    &&& bytes_in(cleaned(typed)) % 2 == 0 ==> !(byte_string(typed) is Cut)
}

/// The bytes that `typed` spells.
pub open spec fn byte_string(typed: Seq<char>) -> Spelled {
    spelled(Seq::empty(), cleaned(typed))
}

/// Why text is no byte string.
#[derive(Debug)]
pub enum HexError {
    /// It has this many digits, which is odd.
    OddDigits(u64),
    /// These two characters are no byte.
    NotAByte(String),
}

impl HexError {
    /// The error in words.
    pub open spec fn words(self) -> Seq<char> {
        match self {
            HexError::OddDigits(
                digits,
            ) => "a hex payload needs an even number of digits, got "@ + text::decimal(
                digits as nat,
            ),
            HexError::NotAByte(pair) => "`"@ + pair@ + "` is not a hex byte"@,
        }
    }

    /// The error in words.
    pub fn message(&self) -> (told: String)
        ensures
            told@ == self.words(),
    {
        let mut told: String = String::new();
        match self {
            HexError::OddDigits(digits) => {
                told.push_str("a hex payload needs an even number of digits, got ");
                text::push_decimal(&mut told, *digits);
            },
            HexError::NotAByte(pair) => {
                told.push_str("`");
                told.push_str(pair.as_str());
                told.push_str("` is not a hex byte");
            },
        }
        assert(told@ =~= self.words());
        told
    }
}

fn width_of(ch: char) -> (bytes: u64)
    ensures
        bytes == width(ch),
{
    let c: u32 = ch as u32;
    if c < 0x80 {
        1
    } else if c < 0x800 {
        2
    } else if c < 0x1_0000 {
        3
    } else {
        4
    }
}

fn clean(typed: &str) -> (digits: Vec<char>)
    ensures
        digits@ == cleaned(typed@),
{
    let chars: Vec<char> = text::trimmed(typed);
    let len: usize = chars.len();
    let mut from: usize = 0;
    assert(chars@.skip(0) =~= chars@);
    while len - from >= 2 && chars[from] == '0' && chars[from + 1] == 'x'
        invariant
            from <= len,
            len == chars@.len(),
            without_prefixes(chars@) == without_prefixes(chars@.skip(from as int)),
        decreases len - from,
    {
        assert(chars@.skip(from as int).skip(2) =~= chars@.skip(from + 2));
        from += 2;
    }
    let ghost rest = chars@.skip(from as int);
    let mut digits: Vec<char> = Vec::new();
    let mut at: usize = from;
    assert(rest.take(0) =~= Seq::empty());
    while at < len
        invariant
            from <= at <= len,
            len == chars@.len(),
            rest == chars@.skip(from as int),
            digits@ == without_separators(rest.take(at - from)),
        decreases len - at,
    {
        assert(rest.take(at - from + 1).drop_last() =~= rest.take(at - from));
        let ch: char = chars[at];
        if !(text::is_white(ch) || ch == ':' || ch == '_') {
            digits.push(ch);
        }
        at += 1;
    }
    assert(rest.take(at - from) =~= rest);
    digits
}

/// The length of text in bytes, where sixty-four bits can count it.
fn count_bytes(chars: &Vec<char>) -> (bytes: Option<u64>)
    ensures
        bytes == (if bytes_in(chars@) <= u64::MAX {
            Some(bytes_in(chars@) as u64)
        } else {
            None
        }),
{
    let mut bytes: u64 = 0;
    let mut at: usize = 0;
    assert(chars@.take(0) =~= Seq::empty());
    while at < chars.len()
        invariant
            at <= chars@.len(),
            bytes == bytes_in(chars@.take(at as int)),
        decreases chars@.len() - at,
    {
        proof {
            assert(chars@.take(at + 1).drop_last() =~= chars@.take(at as int));
            lemma_bytes_grow(chars@, at + 1);
        }
        match bytes.checked_add(width_of(chars[at])) {
            Some(sum) => {
                bytes = sum;
            },
            None => {
                return None;
            },
        }
        at += 1;
    }
    assert(chars@.take(at as int) =~= chars@);
    Some(bytes)
}

proof fn lemma_bytes_grow(chars: Seq<char>, at: int)
    requires
        0 <= at <= chars.len(),
    ensures
        bytes_in(chars.take(at)) <= bytes_in(chars),
    decreases chars.len() - at,
{
    if at < chars.len() {
        assert(chars.take(at + 1).drop_last() =~= chars.take(at));
        lemma_bytes_grow(chars, at + 1);
    } else {
        assert(chars.take(at) =~= chars);
    }
}

/// What byte pairs spell.
enum Reading {
    Bytes(Vec<u8>),
    NoByte(String),
    Cut,
}

fn spell(chars: &Vec<char>) -> (reading: Reading)
    ensures
        match reading {
            Reading::Bytes(bytes) => spelled(Seq::empty(), chars@) == Spelled::Bytes(bytes@),
            Reading::NoByte(pair) => spelled(Seq::empty(), chars@) == Spelled::NoByte(pair@),
            Reading::Cut => spelled(Seq::empty(), chars@) == Spelled::Cut,
        },
{
    let len: usize = chars.len();
    let mut bytes: Vec<u8> = Vec::new();
    let mut at: usize = 0;
    assert(chars@.skip(0) =~= chars@);
    assert(bytes@ =~= Seq::empty());
    while at < len
        invariant
            at <= len,
            len == chars@.len(),
            spelled(Seq::empty(), chars@) == spelled(bytes@, chars@.skip(at as int)),
        decreases len - at,
    {
        let ghost rest = chars@.skip(at as int);
        let wide: u64 = width_of(chars[at]);
        if wide == 2 {
            let mut pair: String = String::new();
            pair.push(chars[at]);
            assert(pair@ =~= rest.take(1));
            return Reading::NoByte(pair);
        }
        if wide > 2 || len - at == 1 || width_of(chars[at + 1]) > 1 {
            return Reading::Cut;
        }
        let two: [char; 2] = [chars[at], chars[at + 1]];
        assert(two@ =~= rest.take(2));
        assert(two@.skip(0) =~= two@);
        match number(&two, 0, 16, u8::MAX as u64) {
            Ok(byte) => {
                assert(rest.skip(2) =~= chars@.skip(at + 2));
                assert(byte <= u8::MAX) by {
                    lemma_within_limit(0, text::unsigned(two@), 16, u8::MAX as nat);
                }
                bytes.push(byte as u8);
                at += 2;
            },
            Err(_) => {
                let pair: String = text::string_of(&two);
                return Reading::NoByte(pair);
            },
        }
    }
    Reading::Bytes(bytes)
}

/// A number that was read is within its limit.
proof fn lemma_within_limit(value: nat, digits: Seq<char>, radix: nat, limit: nat)
    requires
        value <= limit,
    ensures
        continued(value, digits, radix, limit) matches Ok(read) ==> read <= limit,
    decreases digits.len(),
{
    if digits.len() > 0 {
        match digit_value(digits[0], radix) {
            Some(digit) => {
                if value * radix + digit <= limit {
                    lemma_within_limit(value * radix + digit, digits.skip(1), radix, limit);
                }
            },
            None => {},
        }
    }
}

/// Can `parse_hex` look at this text? Text outside ASCII may be cut inside a
/// character.
pub fn is_legible(typed: &str) -> (yes: bool)
    ensures
        yes == legible(typed@),
{
    let digits: Vec<char> = clean(typed);
    match count_bytes(&digits) {
        None => false,
        Some(bytes) => bytes % 2 != 0 || !matches!(spell(&digits), Reading::Cut),
    }
}

/// Parses a hex byte string, tolerating whitespace, `0x`, and `:` separators.
pub fn parse_hex(typed: &str) -> (parsed: Result<Vec<u8>, HexError>)
    requires
        legible(typed@),
    ensures
        ({
            let digits = bytes_in(cleaned(typed@));
            match parsed {
                Ok(bytes) => digits % 2 == 0 && byte_string(typed@) == Spelled::Bytes(bytes@),
                Err(HexError::OddDigits(told)) => digits % 2 == 1 && told == digits,
                Err(HexError::NotAByte(pair)) => digits % 2 == 0 && byte_string(typed@)
                    == Spelled::NoByte(pair@),
            }
        }),
{
    let digits: Vec<char> = clean(typed);
    match count_bytes(&digits) {
        Some(bytes) => if bytes % 2 != 0 {
            Err(HexError::OddDigits(bytes))
        } else {
            match spell(&digits) {
                Reading::Bytes(bytes) => Ok(bytes),
                Reading::NoByte(pair) => Err(HexError::NotAByte(pair)),
                Reading::Cut => vstd::pervasive::unreached(),
            }
        },
        None => vstd::pervasive::unreached(),
    }
}

/// Bytes written out as hex digits are read back as the same bytes.
pub proof fn law_hex_digits_are_read_back(bytes: Seq<u8>)
    ensures
        spelled(Seq::empty(), text::hex_bytes(bytes)) == Spelled::Bytes(bytes),
        bytes_in(text::hex_bytes(bytes)) == 2 * bytes.len(),
{
    lemma_read_back(Seq::empty(), bytes, Seq::empty());
    assert(text::hex_bytes(bytes) + Seq::<char>::empty() =~= text::hex_bytes(bytes));
    assert(Seq::<u8>::empty() + bytes =~= bytes);
    lemma_hex_width(bytes);
}

proof fn lemma_hex_width(bytes: Seq<u8>)
    ensures
        bytes_in(text::hex_bytes(bytes)) == 2 * bytes.len(),
    decreases bytes.len(),
{
    if bytes.len() > 0 {
        lemma_hex_width(bytes.drop_last());
        lemma_pair(bytes.last());
        let head = text::hex_bytes(bytes.drop_last());
        let pair = text::hex(bytes.last() as nat, 2);
        let all = text::hex_bytes(bytes);
        assert(all.drop_last() =~= head.push(pair[0]));
        assert(all.drop_last().drop_last() =~= head);
        reveal_with_fuel(bytes_in, 3);
    }
}

/// The two digits of a byte.
proof fn lemma_pair(byte: u8)
    ensures
        ({
            let pair = text::hex(byte as nat, 2);
            &&& pair.len() == 2
            &&& width(pair[0]) == 1
            &&& width(pair[1]) == 1
            &&& pair[0] != '+'
            &&& read(pair, 16, u8::MAX as nat) == Ok::<nat, NumberError>(byte as nat)
        }),
{
    let high = (byte / 16) as nat;
    let low = (byte % 16) as nat;
    reveal_with_fuel(text::hex, 3);
    let pair = text::hex(byte as nat, 2);
    assert(pair =~= seq![text::hex_digit(high), text::hex_digit(low)]);
    assert(digit_value(text::hex_digit(high), 16) == Some(high));
    assert(digit_value(text::hex_digit(low), 16) == Some(low));
    assert(text::unsigned(pair) == pair);
    assert(pair.skip(1) =~= seq![text::hex_digit(low)]);
    assert(pair.skip(1).skip(1) =~= Seq::empty());
    reveal_with_fuel(continued, 4);
    assert(high * 16 + low == byte);
}

proof fn lemma_read_back(before: Seq<u8>, bytes: Seq<u8>, rest: Seq<char>)
    ensures
        spelled(before, text::hex_bytes(bytes) + rest) == spelled(before + bytes, rest),
    decreases bytes.len(),
{
    if bytes.len() == 0 {
        assert(text::hex_bytes(bytes) + rest =~= rest);
        assert(before + bytes =~= before);
    } else {
        let pair = text::hex(bytes.last() as nat, 2);
        lemma_pair(bytes.last());
        lemma_read_back(before, bytes.drop_last(), pair + rest);
        assert(text::hex_bytes(bytes) + rest =~= text::hex_bytes(bytes.drop_last()) + (pair
            + rest));
        let all = pair + rest;
        assert(all.take(2) =~= pair);
        assert(all.skip(2) =~= rest);
        assert((before + bytes.drop_last()).push(bytes.last()) =~= before + bytes);
    }
}

/// A digit stands for what it does in every base up to sixteen, and a number
/// goes on by its weight: one more digit is the base times what was read, and
/// the digit.
pub proof fn law_digits_are_read_by_their_weight(
    digits: Seq<char>,
    last: char,
    radix: nat,
    limit: nat,
)
    requires
        2 <= radix <= 16,
    ensures
        '0' <= last <= '9' && radix >= 10 ==> digit_value(last, radix) == Some(
            (last as int - '0' as int) as nat,
        ),
        radix == 16 && 'a' <= last <= 'f' ==> digit_value(last, radix) == Some(
            (last as int - 'a' as int + 10) as nat,
        ),
        radix == 16 && 'A' <= last <= 'F' ==> digit_value(last, radix) == Some(
            (last as int - 'A' as int + 10) as nat,
        ),
        radix == 10 && !('0' <= last <= '9') ==> digit_value(last, radix) is None,
        continued(0, digits, radix, limit) matches Ok(value) ==> match digit_value(last, radix) {
            Some(digit) => continued(0, digits.push(last), radix, limit) == (if value * radix
                + digit <= limit {
                Ok::<nat, NumberError>(value * radix + digit)
            } else {
                Err(NumberError::TooLarge)
            }),
            None => continued(0, digits.push(last), radix, limit) == Err::<nat, NumberError>(
                NumberError::InvalidDigit,
            ),
        },
        continued(0, digits, radix, limit) matches Err(error) ==> continued(
            0,
            digits.push(last),
            radix,
            limit,
        ) == Err::<nat, NumberError>(error),
{
    lemma_one_more(0, digits, last, radix, limit);
}

proof fn lemma_one_more(value: nat, digits: Seq<char>, last: char, radix: nat, limit: nat)
    ensures
        continued(value, digits.push(last), radix, limit) == (match continued(
            value,
            digits,
            radix,
            limit,
        ) {
            Ok(read) => continued(read, seq![last], radix, limit),
            Err(error) => Err(error),
        }),
        continued(value, seq![last], radix, limit) == (match digit_value(last, radix) {
            None => Err::<nat, NumberError>(NumberError::InvalidDigit),
            Some(digit) => if value * radix + digit > limit {
                Err(NumberError::TooLarge)
            } else {
                Ok(value * radix + digit)
            },
        }),
        continued(value, digits, radix, limit) matches Ok(read) ==> continued(
            read,
            seq![last],
            radix,
            limit,
        ) == (match digit_value(last, radix) {
            None => Err::<nat, NumberError>(NumberError::InvalidDigit),
            Some(digit) => if read * radix + digit > limit {
                Err(NumberError::TooLarge)
            } else {
                Ok(read * radix + digit)
            },
        }),
    decreases digits.len(),
{
    assert(seq![last].skip(1) =~= Seq::empty());
    reveal_with_fuel(continued, 2);
    if digits.len() == 0 {
        assert(digits.push(last) =~= seq![last]);
    } else {
        assert(digits.push(last)[0] == digits[0]);
        assert(digits.push(last).skip(1) =~= digits.skip(1).push(last));
        if let Some(digit) = digit_value(digits[0], radix) {
            if value * radix + digit <= limit {
                lemma_one_more(value * radix + digit, digits.skip(1), last, radix, limit);
            }
        }
    }
}

/// An address is hexadecimal behind 0x and decimal without it, whatever space is
/// around it.
pub proof fn law_an_address_tells_its_base(typed: Seq<char>)
    ensures
        ({
            let trimmed = text::trim_end(text::trim_start(typed));
            let hex = trimmed.len() >= 2 && trimmed[0] == '0' && (trimmed[1] == 'x' || trimmed[1]
                == 'X');
            &&& hex ==> address(typed) == read(trimmed.skip(2), 16, 0xffff_ffff_ffff_ffff)
            &&& !hex ==> address(typed) == read(trimmed, 10, 0xffff_ffff_ffff_ffff)
        }),
{
}

} // verus!
