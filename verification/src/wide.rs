//! UTF-16 text: encoding, lossy decoding, and the byte and word forms the system hands out.
use vstd::endian;
use vstd::prelude::*;

use crate::text::chars_of;

verus! {

/// `char::from_u32`: the character with the given scalar value; none for a surrogate or a
/// number past the last character.
pub assume_specification[ char::from_u32 ](i: u32) -> (result: Option<char>)
    ensures
        result is Some <==> (i <= 0xd7ff || 0xe000 <= i <= 0x10ffff),
        result matches Some(c) ==> c as u32 == i,
;

/// `u16::from_ne_bytes`: the number whose two bytes are given in the order of the machine.
#[verifier::external_body]
fn native_word(first: u8, second: u8) -> (result: u16)
    ensures
        result == match endian::endianness() {
            endian::Endian::Little => first + 256 * second,
            endian::Endian::Big => second + 256 * first,
        },
{
    u16::from_ne_bytes([first, second])
}

// ---------------------------------------------------------------------------------------------
// Models
// ---------------------------------------------------------------------------------------------
/// A word that opens a pair of words for one character.
pub open spec fn is_high_surrogate(word: u16) -> bool {
    0xd800 <= word <= 0xdbff
}

/// A word that closes a pair of words for one character.
pub open spec fn is_low_surrogate(word: u16) -> bool {
    0xdc00 <= word <= 0xdfff
}

/// The words of one character: itself below 0x10000, else a pair of surrogates.
pub open spec fn char_words(c: char) -> Seq<u16> {
    let value = c as u32;
    if value < 0x10000 {
        seq![value as u16]
    } else {
        seq![
            (0xd800 + (value - 0x10000) / 0x400) as u16,
            (0xdc00 + (value - 0x10000) % 0x400) as u16,
        ]
    }
}

/// The words of a text.
pub open spec fn utf16(s: Seq<char>) -> Seq<u16>
    decreases s.len(),
{
    if s.len() == 0 {
        Seq::empty()
    } else {
        char_words(s[0]) + utf16(s.drop_first())
    }
}

/// The text of a sequence of words, with U+FFFD for each surrogate that stands alone.
pub open spec fn utf16_text(words: Seq<u16>) -> Seq<char>
    decreases words.len(),
{
    if words.len() == 0 {
        Seq::empty()
    } else if !is_high_surrogate(words[0]) && !is_low_surrogate(words[0]) {
        seq![words[0] as char] + utf16_text(words.drop_first())
    } else if is_high_surrogate(words[0]) && words.len() > 1 && is_low_surrogate(words[1]) {
        seq![(0x10000 + (words[0] - 0xd800) * 0x400 + (words[1] - 0xdc00)) as char] + utf16_text(
            words.skip(2),
        )
    } else {
        seq!['\u{fffd}'] + utf16_text(words.drop_first())
    }
}

/// The words in front of the first zero, or all of them.
pub open spec fn up_to_zero(words: Seq<u16>) -> Seq<u16> {
    match words.index_of_first(0u16) {
        Some(at) => words.take(at),
        None => words,
    }
}

/// The number whose bytes are given with the least significant one first.
pub open spec fn little_endian_value(bytes: Seq<u8>) -> nat
    decreases bytes.len(),
{
    if bytes.len() == 0 {
        0
    } else {
        bytes[0] as nat + 256 * little_endian_value(bytes.drop_first())
    }
}

/// The number whose bytes are given in the order of the machine.
pub open spec fn native_value(bytes: Seq<u8>) -> nat {
    match endian::endianness() {
        endian::Endian::Little => little_endian_value(bytes),
        endian::Endian::Big => little_endian_value(bytes.reverse()),
    }
}

/// The words whose bytes are given in pairs; an odd byte at the end is left out.
pub open spec fn native_words(bytes: Seq<u8>) -> Seq<u16> {
    Seq::new(
        bytes.len() / 2,
        |i: int| native_value(bytes.subrange(2 * i, 2 * i + 2)) as u16,
    )
}

// ---------------------------------------------------------------------------------------------
// Functions
// ---------------------------------------------------------------------------------------------
/// The words of `value` with a zero behind them.
pub fn to_wide(value: &str) -> (result: Vec<u16>)
    ensures
        result@ == utf16(value@).push(0),
{
    let chars = chars_of(value);
    let mut result: Vec<u16> = Vec::new();
    assert(value@.skip(0) =~= value@);
    for i in 0..chars.len()
        invariant
            chars@ == value@,
            result@ + utf16(value@.skip(i as int)) == utf16(value@),
    {
        let code: u32 = chars[i] as u32;
        let ghost before = result@;
        let ghost rest = value@.skip(i as int);
        assert(rest.drop_first() =~= value@.skip(i + 1));
        if code < 0x10000 {
            result.push(code as u16);
        } else {
            result.push((0xd800 + (code - 0x10000) / 0x400) as u16);
            result.push((0xdc00 + (code - 0x10000) % 0x400) as u16);
        }
        assert(result@ =~= before + char_words(rest[0]));
        assert(result@ + utf16(value@.skip(i + 1)) =~= before + utf16(rest));
    }
    assert(result@ =~= utf16(value@));
    result.push(0);
    result
}

/// The character for `code`, which must be the number of one.
fn character(code: u32) -> (result: char)
    requires
        code <= 0xd7ff || 0xe000 <= code <= 0x10ffff,
    ensures
        result == code as char,
        result as u32 == code,
{
    match char::from_u32(code) {
        Some(c) => {
            proof {
                vstd::utf8::char_u32_cast(c, code);
            }
            c
        },
        None => '\u{fffd}',
    }
}

/// The text of `words`, with U+FFFD for each surrogate that stands alone.
pub fn decode_words(words: &[u16]) -> (result: String)
    ensures
        result@ == utf16_text(words@),
{
    let mut result = String::new();
    let mut i: usize = 0;
    assert(words@.skip(0) =~= words@);
    assert(result@ + utf16_text(words@) =~= utf16_text(words@));
    while i < words.len()
        invariant
            i <= words@.len(),
            result@ + utf16_text(words@.skip(i as int)) == utf16_text(words@),
        decreases words@.len() - i,
    {
        let word: u16 = words[i];
        let ghost before = result@;
        let ghost rest = words@.skip(i as int);
        assert(rest.drop_first() =~= words@.skip(i + 1));
        if word < 0xd800 || word > 0xdfff {
            let c = character(word as u32);
            result.push(c);
            i = i + 1;
            assert(result@ + utf16_text(words@.skip(i as int)) =~= before + utf16_text(rest));
        } else if word <= 0xdbff && i + 1 < words.len() && 0xdc00 <= words[i + 1] && words[i + 1]
            <= 0xdfff {
            let low: u16 = words[i + 1];
            let c = character(
                0x10000 + (word as u32 - 0xd800) * 0x400 + (low as u32 - 0xdc00),
            );
            result.push(c);
            assert(rest.skip(2) =~= words@.skip(i + 2));
            i = i + 2;
            assert(result@ + utf16_text(words@.skip(i as int)) =~= before + utf16_text(rest));
        } else {
            result.push('\u{fffd}');
            i = i + 1;
            assert(result@ + utf16_text(words@.skip(i as int)) =~= before + utf16_text(rest));
        }
    }
    assert(result@ =~= utf16_text(words@));
    result
}

/// The text in front of the first zero of `value`.
pub fn wide_z_to_string(value: &[u16]) -> (result: String)
    ensures
        result@ == utf16_text(up_to_zero(value@)),
{
    let mut words: Vec<u16> = Vec::new();
    proof {
        value@.index_of_first_ensures(0u16);
    }
    let mut i: usize = 0;
    while i < value.len() && value[i] != 0
        invariant
            i <= value@.len(),
            words@ == value@.take(i as int),
            forall|j: int| 0 <= j < i ==> value@[j] != 0,
        decreases value@.len() - i,
    {
        words.push(value[i]);
        i = i + 1;
    }
    proof {
        match value@.index_of_first(0u16) {
            Some(at) => {
                assert(at >= i);
                if i < value@.len() && at > i {
                    assert(value@.take(at)[i as int] == 0);
                }
            },
            None => {
                if i < value@.len() {
                    assert(value@.contains(value@[i as int]));
                }
                assert(words@ =~= value@);
            },
        }
    }
    decode_words(words.as_slice())
}

/// The value with the given number of bytes never reaches this.
spec fn radix(bytes: nat) -> nat
    decreases bytes,
{
    if bytes == 0 {
        1
    } else {
        256 * radix((bytes - 1) as nat)
    }
}

proof fn lemma_value_bound(bytes: Seq<u8>)
    ensures
        little_endian_value(bytes) < radix(bytes.len()),
    decreases bytes.len(),
{
    if bytes.len() > 0 {
        lemma_value_bound(bytes.drop_first());
    }
}

proof fn lemma_radix_monotone(a: nat, b: nat)
    requires
        a <= b,
    ensures
        radix(a) <= radix(b),
    decreases b,
{
    if a < b {
        lemma_radix_monotone(a, (b - 1) as nat);
    }
}

/// A value of at most eight bytes fits in 64 bits, one of at most four in 32 and one of at
/// most two in 16.
pub proof fn lemma_value_fits(bytes: Seq<u8>)
    requires
        bytes.len() <= 8,
    ensures
        little_endian_value(bytes) <= u64::MAX,
        native_value(bytes) <= u64::MAX,
        bytes.len() <= 4 ==> little_endian_value(bytes) <= u32::MAX,
        bytes.len() <= 4 ==> native_value(bytes) <= u32::MAX,
        bytes.len() <= 2 ==> little_endian_value(bytes) <= u16::MAX,
        bytes.len() <= 2 ==> native_value(bytes) <= u16::MAX,
{
    lemma_value_bound(bytes);
    lemma_value_bound(bytes.reverse());
    lemma_radix_monotone(bytes.len(), 8);
    if bytes.len() <= 4 {
        lemma_radix_monotone(bytes.len(), 4);
    }
    if bytes.len() <= 2 {
        lemma_radix_monotone(bytes.len(), 2);
    }
    reveal_with_fuel(radix, 9);
}

/// Whether the machine puts the least significant byte first.
fn least_byte_first() -> (result: bool)
    ensures
        result == (endian::endianness() == endian::Endian::Little),
{
    native_word(1, 0) == 1
}

/// The number whose `width` bytes stand in `bytes` from position `from`, in the order of the
/// machine.
pub fn read_native(bytes: &[u8], from: usize, width: usize) -> (result: u64)
    requires
        width <= 8,
        from + width <= bytes@.len(),
    ensures
        result == native_value(bytes@.subrange(from as int, from + width)),
{
    let ghost field = bytes@.subrange(from as int, from + width);
    let length: usize = bytes.len();
    let mut value: u64 = 0;
    if least_byte_first() {
        let mut left: usize = width;
        assert(field.skip(width as int) =~= Seq::empty());
        while left > 0
            invariant
                left <= width <= 8,
                from + width <= length,
                length == bytes@.len(),
                field == bytes@.subrange(from as int, from + width),
                value == little_endian_value(field.skip(left as int)),
            decreases left,
        {
            left = left - 1;
            assert(field.skip(left as int).drop_first() =~= field.skip(left + 1));
            proof {
                lemma_value_fits(field.skip(left as int));
            }
            value = value * 256 + bytes[from + left] as u64;
        }
        assert(field.skip(0) =~= field);
    } else {
        assert(field.take(0).reverse() =~= Seq::empty());
        for i in 0..width
            invariant
                width <= 8,
                from + width <= length,
                length == bytes@.len(),
                field == bytes@.subrange(from as int, from + width),
                value == little_endian_value(field.take(i as int).reverse()),
        {
            assert(field.take(i + 1).reverse().drop_first() =~= field.take(i as int).reverse());
            assert(field.take(i + 1).reverse()[0] == field[i as int]);
            proof {
                lemma_value_fits(field.take(i + 1).reverse());
            }
            value = value * 256 + bytes[from + i] as u64;
        }
        assert(field.take(width as int) =~= field);
        assert(endian::endianness() == endian::Endian::Big);
    }
    value
}

/// The text whose words are given by their bytes.
pub fn decode_utf16_bytes(bytes: &[u8]) -> (result: String)
    ensures
        result@ == utf16_text(native_words(bytes@)),
{
    let mut words: Vec<u16> = Vec::new();
    let length: usize = bytes.len();
    let count: usize = length / 2;
    for i in 0..count
        invariant
            length == bytes@.len(),
            count == length / 2,
            words@ == native_words(bytes@).take(i as int),
    {
        proof {
            lemma_value_fits(bytes@.subrange(2 * i, 2 * i + 2));
        }
        words.push(read_native(bytes, 2 * i, 2) as u16);
        assert(words@ =~= native_words(bytes@).take(i + 1));
    }
    assert(words@ =~= native_words(bytes@));
    decode_words(words.as_slice())
}

// ---------------------------------------------------------------------------------------------
// Laws
// ---------------------------------------------------------------------------------------------
/// Decoding one encoded character gives the character and leaves what follows.
proof fn lemma_decode_char(c: char, rest: Seq<u16>)
    ensures
        utf16_text(char_words(c) + rest) == seq![c] + utf16_text(rest),
{
    let words = char_words(c) + rest;
    let value = c as u32;
    if value < 0x10000 {
        assert(words.drop_first() =~= rest);
        assert(words[0] == value as u16);
    } else {
        assert(words.skip(2) =~= rest);
        assert(is_high_surrogate(words[0]));
        assert(is_low_surrogate(words[1]));
        assert(0x10000 + (words[0] - 0xd800) * 0x400 + (words[1] - 0xdc00) == value);
    }
}

/// Text that is encoded in UTF-16 decodes to itself.
pub proof fn law_utf16_reads_back(s: Seq<char>)
    ensures
        utf16_text(utf16(s)) == s,
    decreases s.len(),
{
    if s.len() > 0 {
        law_utf16_reads_back(s.drop_first());
        lemma_decode_char(s[0], utf16(s.drop_first()));
        assert(seq![s[0]] + s.drop_first() =~= s);
    }
}

/// No word of a character other than NUL is zero.
proof fn lemma_no_zero_char_word(c: char, i: int)
    requires
        c != '\0',
        0 <= i < char_words(c).len(),
    ensures
        char_words(c)[i] != 0,
{
    let value = c as u32;
    assert(value != 0);
}

/// No word of a text without a NUL character is zero.
proof fn lemma_no_zero_word(s: Seq<char>)
    requires
        !s.contains('\0'),
    ensures
        !utf16(s).contains(0),
    decreases s.len(),
{
    if s.len() > 0 {
        assert forall|i: int| 0 <= i < s.drop_first().len() implies s.drop_first()[i] != '\0' by {
            assert(s.contains(s[i + 1]));
        }
        lemma_no_zero_word(s.drop_first());
        assert(s.contains(s[0]));
        assert forall|i: int| 0 <= i < utf16(s).len() implies utf16(s)[i] != 0 by {
            let first = char_words(s[0]);
            if i >= first.len() {
                assert(utf16(s)[i] == utf16(s.drop_first())[i - first.len()]);
                assert(utf16(s.drop_first()).contains(utf16(s.drop_first())[i - first.len()]));
            } else {
                assert(utf16(s)[i] == first[i]);
                lemma_no_zero_char_word(s[0], i);
            }
        }
    }
}

/// A text without a NUL character that is handed over with a zero behind it is read back as it
/// was, whatever follows the zero.
pub proof fn law_wide_text_reads_back(s: Seq<char>, behind: Seq<u16>)
    requires
        !s.contains('\0'),
    ensures
        utf16_text(up_to_zero(utf16(s).push(0) + behind)) == s,
{
    lemma_no_zero_word(s);
    law_utf16_reads_back(s);
    let words = utf16(s).push(0) + behind;
    words.index_of_first_ensures(0u16);
    assert(words[utf16(s).len() as int] == 0);
    assert(words.contains(0u16));
    let at = words.index_of_first(0u16)->0;
    if at < utf16(s).len() {
        assert(utf16(s)[at] == 0);
        assert(utf16(s).contains(0u16));
    }
    if at > utf16(s).len() {
        assert(words.take(at)[utf16(s).len() as int] == 0);
    }
    assert(words.take(at) =~= utf16(s));
}

/// A character below 0x10000 is one word, its own number. Any other is a pair: a high surrogate
/// with the upper ten bits and a low one with the lower ten of what its number is above 0x10000.
pub proof fn law_words_of_a_character(c: char)
    ensures
        (c as u32) < 0x10000 ==> utf16(seq![c]) == seq![c as u16],
        (c as u32) >= 0x10000 ==> {
            let words = utf16(seq![c]);
            &&& words.len() == 2
            &&& 0xd800 <= words[0] <= 0xdbff
            &&& 0xdc00 <= words[1] <= 0xdfff
            &&& c as u32 == 0x10000 + 1024 * (words[0] - 0xd800) + (words[1] - 0xdc00)
        },
{
    reveal_with_fuel(utf16, 2);
    assert(seq![c].drop_first() =~= Seq::empty());
    assert(utf16(seq![c]) =~= char_words(c));
}

/// A surrogate that stands alone is read as U+FFFD, and what follows it is read as if it were not
/// there.
pub proof fn law_lone_surrogates_are_replaced(word: u16, rest: Seq<u16>)
    requires
        0xd800 <= word <= 0xdfff,
        word <= 0xdbff && rest.len() > 0 ==> !(0xdc00 <= rest[0] <= 0xdfff),
    ensures
        utf16_text(seq![word] + rest) == seq!['\u{fffd}'] + utf16_text(rest),
{
    let words = seq![word] + rest;
    assert(words.drop_first() =~= rest);
    if rest.len() > 0 {
        assert(words[1] == rest[0]);
    }
}

/// Bytes are read in the order of the machine: on the one kind of machine each further byte
/// counts 256 times as much as the one before it, on the other it is the last that counts once.
pub proof fn law_bytes_count_by_their_place(bytes: Seq<u8>, byte: u8)
    ensures
        endian::endianness() == endian::Endian::Little ==> native_value(seq![byte] + bytes) == byte
            + 256 * native_value(bytes),
        endian::endianness() == endian::Endian::Big ==> native_value(bytes + seq![byte]) == byte
            + 256 * native_value(bytes),
        native_value(Seq::empty()) == 0,
{
    assert((seq![byte] + bytes).drop_first() =~= bytes);
    assert((bytes + seq![byte]).reverse() =~= seq![byte] + bytes.reverse());
    assert((seq![byte] + bytes.reverse()).drop_first() =~= bytes.reverse());
    assert(Seq::<u8>::empty().reverse() =~= Seq::<u8>::empty());
}

/// Two bytes more are one word more. One byte more is none.
pub proof fn law_words_have_two_bytes(bytes: Seq<u8>, first: u8, second: u8)
    requires
        bytes.len() % 2 == 0,
    ensures
        native_words(bytes.push(first)) == native_words(bytes),
        native_words(bytes.push(first).push(second)) == native_words(bytes).push(
            native_value(seq![first, second]) as u16,
        ),
{
    let odd = bytes.push(first);
    let even = odd.push(second);
    assert forall|i: int| 0 <= i < bytes.len() / 2 implies #[trigger] native_words(odd)[i]
        == native_words(bytes)[i] by {
        assert(odd.subrange(2 * i, 2 * i + 2) =~= bytes.subrange(2 * i, 2 * i + 2));
    }
    assert(native_words(odd) =~= native_words(bytes));
    assert forall|i: int| 0 <= i < bytes.len() / 2 implies #[trigger] native_words(even)[i]
        == native_words(bytes)[i] by {
        assert(even.subrange(2 * i, 2 * i + 2) =~= bytes.subrange(2 * i, 2 * i + 2));
    }
    let last = (bytes.len() / 2) as int;
    assert(even.subrange(2 * last, 2 * last + 2) =~= seq![first, second]);
    assert(native_words(even) =~= native_words(bytes).push(
        native_value(seq![first, second]) as u16,
    ));
}

} // verus!
