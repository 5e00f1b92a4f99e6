//! Little-endian fields, as every message of this project lays them out.

use vstd::prelude::*;

verus! {

/// The two bytes of `value`, least significant first.
pub open spec fn le16(value: u16) -> Seq<u8> {
    seq![(value % 256) as u8, (value / 256) as u8]
}

/// The four bytes of `value`, least significant first.
pub open spec fn le32(value: u32) -> Seq<u8> {
    seq![
        (value % 256) as u8,
        (value / 256 % 256) as u8,
        (value / 65536 % 256) as u8,
        (value / 16777216) as u8,
    ]
}

/// The eight bytes of `value`, least significant first.
pub open spec fn le64(value: u64) -> Seq<u8> {
    le32((value % 0x1_0000_0000) as u32) + le32((value / 0x1_0000_0000) as u32)
}

/// The number whose first two little-endian bytes start `bytes`.
pub open spec fn read16(bytes: Seq<u8>) -> u16 {
    (bytes[0] + 256 * bytes[1]) as u16
}

/// The number whose first four little-endian bytes start `bytes`.
pub open spec fn read32(bytes: Seq<u8>) -> u32 {
    (bytes[0] + 256 * bytes[1] + 65536 * bytes[2] + 16777216 * bytes[3]) as u32
}

/// The concatenated little-endian encoding of `words`.
pub open spec fn words_le(words: Seq<u32>) -> Seq<u8>
    decreases words.len(),
{
    if words.len() == 0 {
        Seq::empty()
    } else {
        words_le(words.drop_last()) + le32(words.last())
    }
}

/// The words that the little-endian `bytes` spell, a short tail ignored.
pub open spec fn read_words(bytes: Seq<u8>) -> Seq<u32> {
    Seq::new(bytes.len() / 4, |i: int| read32(bytes.skip(4 * i)))
}

/// Reading a 16-bit field back gives what was written.
pub proof fn law_read16_undoes_le16(value: u16)
    ensures
        read16(le16(value)) == value,
{
}

/// Reading a 32-bit field back gives what was written.
pub proof fn law_read32_undoes_le32(value: u32)
    ensures
        read32(le32(value)) == value,
{
}

/// Writing a field that was read gives the bytes it was read from.
pub proof fn law_le32_undoes_read32(bytes: Seq<u8>)
    requires
        bytes.len() == 4,
    ensures
        le32(read32(bytes)) == bytes,
{
    let (a, b, c, d) = (bytes[0], bytes[1], bytes[2], bytes[3]);
    let value = read32(bytes);
    assert(value == a + 256 * (b + 256 * (c + 256 * d)));
    assert(value % 256 == a && value / 256 == b + 256 * (c + 256 * d));
    let upper = value / 256;
    assert(upper % 256 == b && upper / 256 == c + 256 * d);
    assert(value / 65536 == upper / 256);
    let top = value / 65536;
    assert(top % 256 == c && top / 256 == d);
    assert(value / 16777216 == top / 256);
    assert(le32(value) =~= bytes);
}

pub proof fn lemma_words_le_len(words: Seq<u32>)
    ensures
        words_le(words).len() == 4 * words.len(),
    decreases words.len(),
{
    if words.len() > 0 {
        lemma_words_le_len(words.drop_last());
    }
}

/// A block of words survives being written out and read back.
pub proof fn law_read_words_undoes_words_le(words: Seq<u32>)
    ensures
        read_words(words_le(words)) == words,
    decreases words.len(),
{
    lemma_words_le_len(words);
    if words.len() > 0 {
        let head = words.drop_last();
        law_read_words_undoes_words_le(head);
        lemma_words_le_len(head);
        let all = words_le(words);
        let back = read_words(all);
        assert forall|i: int| 0 <= i < words.len() implies back[i] == words[i] by {
            let at = all.skip(4 * i);
            if i < head.len() {
                assert(read_words(words_le(head))[i] == head[i]);
                let inner = words_le(head).skip(4 * i);
                assert(at[0] == inner[0] && at[1] == inner[1]);
                assert(at[2] == inner[2] && at[3] == inner[3]);
            } else {
                law_read32_undoes_le32(words.last());
                let last = le32(words.last());
                assert(at[0] == last[0] && at[1] == last[1]);
                assert(at[2] == last[2] && at[3] == last[3]);
            }
        }
        assert(back =~= words);
    } else {
        assert(read_words(words_le(words)) =~= words);
    }
}

/// The 64-bit field that starts `bytes`.
pub open spec fn read64(bytes: Seq<u8>) -> u64 {
    (read32(bytes) + 0x1_0000_0000 * read32(bytes.skip(4))) as u64
}

/// A 64-bit number is read back from its bytes.
pub proof fn law_read64_undoes_le64(value: u64)
    ensures
        read64(le64(value)) == value,
{
    let low = (value % 0x1_0000_0000) as u32;
    let high = (value / 0x1_0000_0000) as u32;
    law_read32_undoes_le32(low);
    law_read32_undoes_le32(high);
    assert(le64(value).skip(4) =~= le32(high));
    assert(read32(le64(value)) == read32(le32(low)));
}

/// The 64-bit field at `at`.
pub fn get_le64(bytes: &[u8], at: usize) -> (value: u64)
    requires
        at + 8 <= bytes@.len(),
    ensures
        value == read64(bytes@.skip(at as int)),
{
    let len: usize = bytes.len();
    assert(at + 8 <= len);
    assert(bytes@.skip(at as int).skip(4) =~= bytes@.skip(at + 4));
    get_le32(bytes, at) as u64 + 0x1_0000_0000 * (get_le32(bytes, at + 4) as u64)
}

/// Appends a 16-bit field.
pub fn push_le16(out: &mut Vec<u8>, value: u16)
    ensures
        final(out)@ == old(out)@ + le16(value),
{
    out.push((value % 256) as u8);
    out.push((value / 256) as u8);
    assert(out@ =~= old(out)@ + le16(value));
}

/// Appends a 32-bit field.
pub fn push_le32(out: &mut Vec<u8>, value: u32)
    ensures
        final(out)@ == old(out)@ + le32(value),
{
    out.push((value % 256) as u8);
    out.push((value / 256 % 256) as u8);
    out.push((value / 65536 % 256) as u8);
    out.push((value / 16777216) as u8);
    assert(out@ =~= old(out)@ + le32(value));
}

/// The 16-bit field at `at`.
pub fn get_le16(bytes: &[u8], at: usize) -> (value: u16)
    requires
        at + 2 <= bytes@.len(),
    ensures
        value == read16(bytes@.skip(at as int)),
{
    bytes[at] as u16 + 256 * (bytes[at + 1] as u16)
}

/// The 32-bit field at `at`.
pub fn get_le32(bytes: &[u8], at: usize) -> (value: u32)
    requires
        at + 4 <= bytes@.len(),
    ensures
        value == read32(bytes@.skip(at as int)),
{
    bytes[at] as u32 + 256 * (bytes[at + 1] as u32) + 65536 * (bytes[at + 2] as u32) + 16777216 * (
    bytes[at + 3] as u32)
}

/// Appends the eight bytes of `value`.
pub fn push_le64(out: &mut Vec<u8>, value: u64)
    ensures
        final(out)@ == old(out)@ + le64(value),
{
    push_le32(out, (value % 0x1_0000_0000) as u32);
    push_le32(out, (value / 0x1_0000_0000) as u32);
    assert(out@ =~= old(out)@ + le64(value));
}

/// The words that `bytes` spell, a short tail ignored.
pub fn get_words(bytes: &[u8]) -> (words: Vec<u32>)
    ensures
        words@ == read_words(bytes@),
{
    let count: usize = bytes.len() / 4;
    let mut words: Vec<u32> = Vec::new();
    let mut at: usize = 0;
    while at < count
        invariant
            at <= count,
            count == bytes@.len() / 4,
            bytes@.len() <= usize::MAX,
            words@ == read_words(bytes@).take(at as int),
        decreases count - at,
    {
        let word: u32 = get_le32(bytes, 4 * at);
        words.push(word);
        at += 1;
        assert(words@ =~= read_words(bytes@).take(at as int));
    }
    assert(words@ =~= read_words(bytes@));
    words
}

/// Appends every word of `words`.
pub fn push_words(out: &mut Vec<u8>, words: &[u32])
    ensures
        final(out)@ == old(out)@ + words_le(words@),
{
    let mut at: usize = 0;
    assert(words@.take(0) =~= Seq::empty());
    assert(out@ =~= old(out)@ + words_le(words@.take(0)));
    while at < words.len()
        invariant
            at <= words@.len(),
            out@ == old(out)@ + words_le(words@.take(at as int)),
        decreases words@.len() - at,
    {
        push_le32(out, words[at]);
        at += 1;
        let ghost head = words@.take(at as int);
        assert(head.drop_last() =~= words@.take(at - 1));
        assert(out@ =~= old(out)@ + words_le(head));
    }
    assert(words@.take(at as int) =~= words@);
}

/// The signed number that a two's complement 16-bit field spells.
pub open spec fn signed16(value: u16) -> i16 {
    if value < 0x8000 {
        value as i16
    } else {
        (value - 0x1_0000) as i16
    }
}

/// The two's complement field that spells a signed 16-bit number.
pub open spec fn unsigned16(value: i16) -> u16 {
    if value >= 0 {
        value as u16
    } else {
        (value + 0x1_0000) as u16
    }
}

/// The signed number that a two's complement 32-bit field spells.
pub open spec fn signed32(value: u32) -> i32 {
    if value < 0x8000_0000 {
        value as i32
    } else {
        (value - 0x1_0000_0000) as i32
    }
}

/// The two's complement field that spells a signed 32-bit number.
pub open spec fn unsigned32(value: i32) -> u32 {
    if value >= 0 {
        value as u32
    } else {
        (value + 0x1_0000_0000) as u32
    }
}

/// A signed field is read back as it was written.
pub proof fn law_signed_undoes_unsigned(short: i16, long: i32)
    ensures
        signed16(unsigned16(short)) == short,
        signed32(unsigned32(long)) == long,
{
}

/// The signed number that a 16-bit field spells.
pub fn to_signed16(value: u16) -> (number: i16)
    ensures
        number == signed16(value),
{
    if value < 0x8000 {
        value as i16
    } else {
        (value as i32 - 0x1_0000) as i16
    }
}

/// The 16-bit field that spells a signed number.
pub fn to_unsigned16(value: i16) -> (field: u16)
    ensures
        field == unsigned16(value),
{
    if value >= 0 {
        value as u16
    } else {
        (value as i32 + 0x1_0000) as u16
    }
}

/// The signed number that a 32-bit field spells.
pub fn to_signed32(value: u32) -> (number: i32)
    ensures
        number == signed32(value),
{
    if value < 0x8000_0000 {
        value as i32
    } else {
        (value as i64 - 0x1_0000_0000) as i32
    }
}

/// The 32-bit field that spells a signed number.
pub fn to_unsigned32(value: i32) -> (field: u32)
    ensures
        field == unsigned32(value),
{
    if value >= 0 {
        value as u32
    } else {
        (value as i64 + 0x1_0000_0000) as u32
    }
}

/// A byte of a word stands by its weight, the least significant first.
pub proof fn law_a_byte_stands_by_its_weight(half: u16, word: u32, long: u64)
    ensures
        le16(half) == seq![(half & 0xff) as u8, (half >> 8) as u8],
        le32(word) == seq![
            (word & 0xff) as u8,
            ((word >> 8) & 0xff) as u8,
            ((word >> 16) & 0xff) as u8,
            (word >> 24) as u8,
        ],
        le64(long).len() == 8,
        le64(long)[0] == (long & 0xff) as u8,
        le64(long)[4] == ((long >> 32) & 0xff) as u8,
        le64(long)[7] == (long >> 56) as u8,
{
    assert(half % 256 == half & 0xff && half / 256 == half >> 8) by (bit_vector);
    assert(word % 256 == word & 0xff && word / 256 % 256 == (word >> 8) & 0xff && word / 65536 % 256
        == (word >> 16) & 0xff && word / 16777216 == word >> 24) by (bit_vector);
    assert(long % 0x1_0000_0000 % 256 == long & 0xff && long / 0x1_0000_0000 % 256 == (long >> 32)
        & 0xff && long / 0x1_0000_0000 / 16777216 == long >> 56) by (bit_vector);
}

/// Where each byte of a block of words stands.
pub proof fn law_a_word_of_a_block_stands_in_its_place(words: Seq<u32>, i: int)
    requires
        0 <= i < words.len(),
    ensures
        words_le(words).len() == 4 * words.len(),
        words_le(words).subrange(4 * i, 4 * i + 4) == le32(words[i]),
    decreases words.len(),
{
    lemma_words_le_len(words);
    lemma_words_le_len(words.drop_last());
    let all = words_le(words);
    if i < words.len() - 1 {
        law_a_word_of_a_block_stands_in_its_place(words.drop_last(), i);
        assert(all.subrange(4 * i, 4 * i + 4) =~= words_le(words.drop_last()).subrange(
            4 * i,
            4 * i + 4,
        ));
    } else {
        assert(all.subrange(4 * i, 4 * i + 4) =~= le32(words[i]));
    }
}

} // verus!
