//! Offsets into text, counted in characters, in UTF-8 bytes and in UTF-16
//! code units.
use vstd::prelude::*;
use vstd::utf8::{
    char_u32_cast, encode_scalar, encode_utf8, encode_utf8_decode_utf8, encode_utf8_first_scalar,
    encode_utf8_valid_utf8, is_char_boundary, pop_first_scalar,
};

verus! {

// --- widths --------------------------------------------------------------

/// The number of UTF-16 code units of a character: two outside the basic
/// multilingual plane, one within it.
pub open spec fn utf16_width(c: char) -> nat {
    if c as u32 > 0xFFFF {
        2
    } else {
        1
    }
}

/// The number of UTF-16 code units of a text.
pub open spec fn utf16_size(text: Seq<char>) -> nat
    decreases text.len(),
{
    if text.len() == 0 {
        0
    } else {
        utf16_size(text.drop_last()) + utf16_width(text.last())
    }
}

/// The number of UTF-8 bytes of a text.
pub open spec fn utf8_size(text: Seq<char>) -> nat {
    encode_utf8(text).len()
}

/// The byte offset of the character at index `k`.
pub open spec fn byte_at(text: Seq<char>, k: int) -> nat {
    utf8_size(text.take(k))
}

/// The UTF-16 offset of the character at index `k`.
pub open spec fn unit_at(text: Seq<char>, k: int) -> nat {
    utf16_size(text.take(k))
}

/// Whether `byte` is the byte offset of a character, or of the end.
pub open spec fn on_boundary(text: Seq<char>, byte: int) -> bool {
    exists|k: int| 0 <= k <= text.len() && #[trigger] byte_at(text, k) == byte
}

/// Whether `unit` is the UTF-16 offset of a character, or of the end.
pub open spec fn on_unit(text: Seq<char>, unit: int) -> bool {
    exists|k: int| 0 <= k <= text.len() && #[trigger] unit_at(text, k) == unit
}

/// The index of the character at a byte offset.
pub open spec fn char_of_byte(text: Seq<char>, byte: int) -> int {
    choose|k: int| 0 <= k <= text.len() && #[trigger] byte_at(text, k) == byte
}

/// The index of the character at a UTF-16 offset.
pub open spec fn char_of_unit(text: Seq<char>, unit: int) -> int {
    choose|k: int| 0 <= k <= text.len() && #[trigger] unit_at(text, k) == unit
}

/// The byte offset that belongs to a UTF-16 offset; none when that offset lies
/// outside the text or inside a surrogate pair.
pub open spec fn byte_of_unit(text: Seq<char>, unit: int) -> Option<nat> {
    if on_unit(text, unit) {
        Some(byte_at(text, char_of_unit(text, unit)))
    } else {
        None
    }
}

// --- how sizes add up ----------------------------------------------------

pub proof fn lemma_utf16_concat(a: Seq<char>, b: Seq<char>)
    ensures
        utf16_size(a + b) == utf16_size(a) + utf16_size(b),
    decreases b.len(),
{
    if b.len() == 0 {
        assert(a + b =~= a);
    } else {
        lemma_utf16_concat(a, b.drop_last());
        assert((a + b).drop_last() =~= a + b.drop_last());
    }
}

pub proof fn lemma_utf8_concat(a: Seq<char>, b: Seq<char>)
    ensures
        encode_utf8(a + b) == encode_utf8(a) + encode_utf8(b),
        utf8_size(a + b) == utf8_size(a) + utf8_size(b),
    decreases a.len(),
{
    if a.len() == 0 {
        assert(a + b =~= b);
        assert(encode_utf8(a) + encode_utf8(b) =~= encode_utf8(b));
    } else {
        lemma_utf8_concat(a.drop_first(), b);
        assert((a + b).drop_first() =~= a.drop_first() + b);
        assert((a + b)[0] == a[0]);
        assert(encode_utf8(a + b) =~= encode_utf8(a) + encode_utf8(b));
    }
}

pub proof fn lemma_single_sizes(c: char)
    ensures
        utf16_size(seq![c]) == utf16_width(c),
        utf8_size(seq![c]) == encode_scalar(c as u32).len(),
        1 <= utf16_width(c) <= utf8_size(seq![c]),
{
    assert(seq![c].drop_last() =~= Seq::<char>::empty());
    assert(seq![c].drop_first() =~= Seq::<char>::empty());
    assert(utf16_size(seq![c].drop_last()) == 0);
    assert(encode_utf8(seq![c].drop_first()).len() == 0);
    assert(utf8_size(seq![c]) == encode_scalar(c as u32).len());
}

pub proof fn lemma_utf16_within_utf8(text: Seq<char>)
    ensures
        text.len() <= utf16_size(text) <= utf8_size(text),
    decreases text.len(),
{
    if text.len() > 0 {
        lemma_utf16_within_utf8(text.drop_last());
        lemma_single_sizes(text.last());
        lemma_utf8_concat(text.drop_last(), seq![text.last()]);
        assert(text.drop_last() + seq![text.last()] =~= text);
    }
}

/// Offsets grow with the index, in bytes as in code units.
pub proof fn lemma_offsets_grow(text: Seq<char>, i: int, j: int)
    requires
        0 <= i <= j <= text.len(),
    ensures
        byte_at(text, j) == byte_at(text, i) + utf8_size(text.subrange(i, j)),
        unit_at(text, j) == unit_at(text, i) + utf16_size(text.subrange(i, j)),
        i < j ==> byte_at(text, i) < byte_at(text, j) && unit_at(text, i) < unit_at(text, j),
{
    assert(text.take(j) =~= text.take(i) + text.subrange(i, j));
    lemma_utf8_concat(text.take(i), text.subrange(i, j));
    lemma_utf16_concat(text.take(i), text.subrange(i, j));
    lemma_utf16_within_utf8(text.subrange(i, j));
}

pub proof fn lemma_offset_bounds(text: Seq<char>, k: int)
    requires
        0 <= k <= text.len(),
    ensures
        byte_at(text, 0) == 0,
        unit_at(text, 0) == 0,
        byte_at(text, text.len() as int) == utf8_size(text),
        unit_at(text, text.len() as int) == utf16_size(text),
        byte_at(text, k) <= utf8_size(text),
        unit_at(text, k) <= utf16_size(text),
        unit_at(text, k) <= byte_at(text, k),
{
    assert(text.take(0) =~= Seq::<char>::empty());
    assert(text.take(text.len() as int) =~= text);
    lemma_offsets_grow(text, k, text.len() as int);
    lemma_utf16_within_utf8(text.take(k));
}

/// A character index is the only one with its byte offset.
pub proof fn lemma_char_of_byte(text: Seq<char>, k: int)
    requires
        0 <= k <= text.len(),
    ensures
        on_boundary(text, byte_at(text, k) as int),
        char_of_byte(text, byte_at(text, k) as int) == k,
{
    let j = char_of_byte(text, byte_at(text, k) as int);
    if j < k {
        lemma_offsets_grow(text, j, k);
    } else if k < j {
        lemma_offsets_grow(text, k, j);
    }
}

/// A character index is the only one with its UTF-16 offset.
pub proof fn lemma_char_of_unit(text: Seq<char>, k: int)
    requires
        0 <= k <= text.len(),
    ensures
        on_unit(text, unit_at(text, k) as int),
        char_of_unit(text, unit_at(text, k) as int) == k,
        byte_of_unit(text, unit_at(text, k) as int) == Some(byte_at(text, k)),
{
    let j = char_of_unit(text, unit_at(text, k) as int);
    if j < k {
        lemma_offsets_grow(text, j, k);
    } else if k < j {
        lemma_offsets_grow(text, k, j);
    }
}

/// Byte offsets and UTF-16 offsets of characters belong to each other, whichever
/// one comes from.
pub proof fn offsets_read_back(text: Seq<char>, byte: int, unit: int)
    ensures
        on_boundary(text, byte) ==> byte_of_unit(
            text,
            unit_at(text, char_of_byte(text, byte)) as int,
        ) == Some(byte as nat),
        on_unit(text, unit) ==> {
            &&& byte_of_unit(text, unit) is Some
            &&& on_boundary(text, byte_of_unit(text, unit)->0 as int)
            &&& unit_at(text, char_of_byte(text, byte_of_unit(text, unit)->0 as int)) == unit
        },
{
    if on_boundary(text, byte) {
        lemma_char_of_unit(text, char_of_byte(text, byte));
    }
    if on_unit(text, unit) {
        lemma_char_of_byte(text, char_of_unit(text, unit));
    }
}

/// The boundaries of the encoded text are the byte offsets of its characters.
pub proof fn lemma_boundary(text: Seq<char>, byte: int)
    ensures
        is_char_boundary(encode_utf8(text), byte) == on_boundary(text, byte),
    decreases text.len(),
{
    let bytes = encode_utf8(text);
    encode_utf8_valid_utf8(text);
    lemma_offset_bounds(text, 0);
    if byte == 0 {
        assert(byte_at(text, 0) == 0);
    } else if byte < 0 || bytes.len() < byte {
        if on_boundary(text, byte) {
            let k = char_of_byte(text, byte);
            lemma_offset_bounds(text, k);
        }
    } else {
        encode_utf8_first_scalar(text);
        let rest = text.drop_first();
        let w = encode_scalar(text[0] as u32).len() as int;
        assert(pop_first_scalar(bytes) =~= encode_utf8(rest));
        lemma_boundary(rest, byte - w);
        assert forall|k: int| 1 <= k <= text.len() implies #[trigger] byte_at(text, k) == w
            + byte_at(rest, k - 1) by {
            assert(text.take(k).drop_first() =~= rest.take(k - 1));
            assert(text.take(k)[0] == text[0]);
        }
        if on_boundary(rest, byte - w) {
            let k = char_of_byte(rest, byte - w);
            assert(byte_at(text, k + 1) == byte);
        }
        if on_boundary(text, byte) {
            let k = char_of_byte(text, byte);
            assert(k != 0);
            assert(byte_at(rest, k - 1) == byte - w);
        }
    }
}

/// Two texts with the same encoding are the same.
pub proof fn lemma_encoding_injective(a: Seq<char>, b: Seq<char>)
    requires
        encode_utf8(a) == encode_utf8(b),
    ensures
        a == b,
{
    encode_utf8_decode_utf8(a);
    encode_utf8_decode_utf8(b);
}

// --- cutting strings -----------------------------------------------------

/// The number of bytes of a string.
pub fn byte_len(text: &str) -> (n: usize)
    ensures
        n == utf8_size(text@),
{
    text.as_bytes().len()
}

/// Cuts a string in two at a byte offset.
pub fn cut(text: &str, byte: usize) -> (parts: (&str, &str))
    requires
        on_boundary(text@, byte as int),
    ensures
        parts.0@ == text@.take(char_of_byte(text@, byte as int)),
        parts.1@ == text@.skip(char_of_byte(text@, byte as int)),
{
    proof {
        lemma_boundary(text@, byte as int);
    }
    let parts = text.split_at(byte);
    proof {
        let k = char_of_byte(text@, byte as int);
        assert(text@.take(k) + text@.skip(k) =~= text@);
        lemma_utf8_concat(text@.take(k), text@.skip(k));
        let bytes = encode_utf8(text@);
        assert(bytes.subrange(0, byte as int) =~= encode_utf8(text@.take(k)));
        assert(bytes.subrange(byte as int, bytes.len() as int) =~= encode_utf8(text@.skip(k)));
        lemma_encoding_injective(parts.0@, text@.take(k));
        lemma_encoding_injective(parts.1@, text@.skip(k));
    }
    parts
}

/// The part of a string between two byte offsets.
pub fn slice(text: &str, start: usize, end: usize) -> (part: &str)
    requires
        start <= end,
        on_boundary(text@, start as int),
        on_boundary(text@, end as int),
    ensures
        char_of_byte(text@, start as int) <= char_of_byte(text@, end as int),
        part@ == text@.subrange(
            char_of_byte(text@, start as int),
            char_of_byte(text@, end as int),
        ),
{
    let (head, _) = cut(text, end);
    proof {
        let from = char_of_byte(text@, start as int);
        let to = char_of_byte(text@, end as int);
        if to < from {
            lemma_offsets_grow(text@, to, from);
        }
        assert(text@.take(to).take(from) =~= text@.take(from));
        assert(byte_at(head@, from) == start);
        lemma_char_of_byte(head@, from);
    }
    let (_, part) = cut(head, start);
    assert(part@ =~= text@.subrange(
        char_of_byte(text@, start as int),
        char_of_byte(text@, end as int),
    ));
    part
}

/// The number of UTF-8 bytes of a character.
pub fn char_bytes(c: char) -> (n: usize)
    ensures
        n == encode_scalar(c as u32).len(),
        1 <= n <= 4,
{
    let v = c as u32;
    if v < 0x80 {
        1
    } else if v < 0x800 {
        2
    } else if v < 0x10000 {
        3
    } else {
        4
    }
}

/// The byte offset of the character at index `k`, `chars` being the
/// characters of `text`.
pub fn byte_offset(text: &str, chars: &[char], k: usize) -> (byte: usize)
    requires
        chars@ == text@,
        k <= chars@.len(),
    ensures
        byte == byte_at(text@, k as int),
{
    let total: usize = byte_len(text);
    let mut byte: usize = 0;
    let mut i: usize = 0;
    proof {
        lemma_offset_bounds(text@, 0);
    }
    while i < k
        invariant
            i <= k <= chars@.len(),
            chars@ == text@,
            total == utf8_size(text@),
            byte == byte_at(text@, i as int),
        decreases k - i,
    {
        proof {
            lemma_offsets_grow(text@, i as int, i + 1);
            lemma_offset_bounds(text@, i + 1);
            lemma_single_sizes(text@[i as int]);
            assert(text@.subrange(i as int, i + 1) =~= seq![text@[i as int]]);
        }
        byte += char_bytes(chars[i]);
        i += 1;
    }
    byte
}

/// The number of UTF-16 code units of a character.
pub fn char_units(c: char) -> (n: u64)
    ensures
        n == utf16_width(c),
{
    if c as u32 > 0xFFFF {
        2
    } else {
        1
    }
}

// --- what UTF-16 is ------------------------------------------------------

/// The UTF-16 code units of a character. A character outside the basic
/// multilingual plane is a pair of surrogates, which hold ten bits each.
pub open spec fn code_units(c: char) -> Seq<u16> {
    let v = c as u32 as int;
    if v < 0x10000 {
        seq![v as u16]
    } else {
        seq![(0xD800 + (v - 0x10000) / 0x400) as u16, (0xDC00 + (v - 0x10000) % 0x400) as u16]
    }
}

/// The UTF-16 encoding of a text.
pub open spec fn encode_utf16(text: Seq<char>) -> Seq<u16>
    decreases text.len(),
{
    if text.len() == 0 {
        Seq::empty()
    } else {
        encode_utf16(text.drop_last()) + code_units(text.last())
    }
}

/// Whether a code unit is the first of a pair.
pub open spec fn leads_a_pair(unit: u16) -> bool {
    0xD800 <= unit <= 0xDBFF
}

/// The text that a sequence of code units stands for.
pub open spec fn decode_utf16(units: Seq<u16>) -> Seq<char>
    decreases units.len(),
{
    if units.len() == 0 {
        Seq::empty()
    } else if leads_a_pair(units[0]) && units.len() > 1 {
        seq![((0x10000 + (units[0] - 0xD800) * 0x400 + (units[1] - 0xDC00)) as u32) as char] + decode_utf16(
            units.skip(2),
        )
    } else {
        seq![(units[0] as u32) as char] + decode_utf16(units.skip(1))
    }
}

/// The encoding of two texts one after the other is that of the first followed
/// by that of the second.
pub proof fn utf16_encodes_piece_by_piece(a: Seq<char>, b: Seq<char>)
    ensures
        encode_utf16(a + b) == encode_utf16(a) + encode_utf16(b),
    decreases b.len(),
{
    if b.len() == 0 {
        assert(a + b =~= a);
        assert(encode_utf16(a) + encode_utf16(b) =~= encode_utf16(a));
    } else {
        utf16_encodes_piece_by_piece(a, b.drop_last());
        assert((a + b).drop_last() =~= a + b.drop_last());
        assert(encode_utf16(a + b) =~= encode_utf16(a) + encode_utf16(b));
    }
}

/// Every text can be read back from its UTF-16 encoding.
pub proof fn utf16_decoding_undoes_encoding(text: Seq<char>)
    ensures
        decode_utf16(encode_utf16(text)) == text,
    decreases text.len(),
{
    if text.len() > 0 {
        let c = text[0];
        let rest = text.drop_first();
        let units = encode_utf16(text);
        utf16_decoding_undoes_encoding(rest);
        assert(seq![c] + rest =~= text);
        utf16_encodes_piece_by_piece(seq![c], rest);
        assert(seq![c].drop_last() =~= Seq::<char>::empty());
        assert(encode_utf16(seq![c].drop_last()) =~= Seq::<u16>::empty());
        assert(encode_utf16(seq![c]) =~= code_units(c));
        char_u32_cast(c, c as u32);
        let v = c as u32 as int;
        assert(v <= 0x10FFFF);
        assert(units =~= code_units(c) + encode_utf16(rest));
        if v < 0x10000 {
            assert(units.skip(1) =~= encode_utf16(rest));
            assert(decode_utf16(units) =~= seq![c] + rest);
        } else {
            let high = (v - 0x10000) / 0x400;
            let low = (v - 0x10000) % 0x400;
            assert(0 <= high < 0x400 && 0 <= low < 0x400);
            assert(units[0] == 0xD800 + high);
            assert(units[1] == 0xDC00 + low);
            assert(high * 0x400 + low == v - 0x10000);
            assert(units.skip(2) =~= encode_utf16(rest));
            assert(decode_utf16(units) =~= seq![c] + rest);
        }
    } else {
        assert(decode_utf16(encode_utf16(text)) =~= text);
    }
}

/// The size of a text is the length of its UTF-16 encoding, and the offset of a
/// character is the length of the encoding of what stands before it.
pub proof fn offsets_count_utf16_code_units(text: Seq<char>, k: int)
    requires
        0 <= k <= text.len(),
    ensures
        utf16_size(text) == encode_utf16(text).len(),
        unit_at(text, k) == encode_utf16(text.take(k)).len(),
        encode_utf16(text.take(k)) == encode_utf16(text).take(unit_at(text, k) as int),
{
    lemma_utf16_size(text);
    lemma_utf16_size(text.take(k));
    utf16_encodes_piece_by_piece(text.take(k), text.skip(k));
    assert(text.take(k) + text.skip(k) =~= text);
    assert(encode_utf16(text).take(unit_at(text, k) as int) =~= encode_utf16(text.take(k)));
}

proof fn lemma_utf16_size(text: Seq<char>)
    ensures
        utf16_size(text) == encode_utf16(text).len(),
    decreases text.len(),
{
    if text.len() > 0 {
        lemma_utf16_size(text.drop_last());
    }
}

/// Every character up to U+FFFF takes one code unit, every other one two. So in
/// a text without the latter, offsets are counted in characters.
pub proof fn plain_text_is_counted_in_characters(text: Seq<char>, k: int)
    requires
        0 <= k <= text.len(),
    ensures
        forall|c: char| #[trigger]
            utf16_width(c) == if c as u32 <= 0xFFFF {
                1nat
            } else {
                2nat
            },
        (forall|i: int| 0 <= i < text.len() ==> (#[trigger] text[i]) as u32 <= 0xFFFF) ==> unit_at(
            text,
            k,
        ) == k,
    decreases k,
{
    if k > 0 {
        plain_text_is_counted_in_characters(text, k - 1);
        assert(text.take(k).drop_last() =~= text.take(k - 1));
    } else {
        assert(text.take(0) =~= Seq::<char>::empty());
    }
}

} // verus!
