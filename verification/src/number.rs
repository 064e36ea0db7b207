//! Decimal numbers in text.
use vstd::prelude::*;

use crate::text::chars_of;

verus! {

// --- writing -------------------------------------------------------------

/// The character of a decimal digit.
pub open spec fn digit(d: nat) -> char {
    (48 + d) as char
}

/// The decimal notation of a natural number, without leading zeros.
pub open spec fn decimal(n: nat) -> Seq<char>
    decreases n,
{
    if n < 10 {
        seq![digit(n)]
    } else {
        decimal(n / 10).push(digit(n % 10))
    }
}

/// The decimal notation of an integer.
pub open spec fn signed_decimal(n: int) -> Seq<char> {
    if n < 0 {
        seq!['-'] + decimal((-n) as nat)
    } else {
        decimal(n as nat)
    }
}

/// Appends the decimal notation of `n`.
pub fn push_decimal(out: &mut String, n: u64)
    ensures
        final(out)@ == old(out)@ + decimal(n as nat),
    decreases n,
{
    let ghost before = out@;
    if n >= 10 {
        push_decimal(out, n / 10);
    } else {
        assert(before + Seq::<char>::empty() =~= before);
    }
    let d: u8 = 48 + (n % 10) as u8;
    out.push(d as char);
    assert(out@ =~= before + decimal(n as nat));
}

/// Appends the decimal notation of `n`.
pub fn push_signed(out: &mut String, n: i64)
    ensures
        final(out)@ == old(out)@ + signed_decimal(n as int),
{
    if n < 0 {
        let ghost before = out@;
        out.push('-');
        let magnitude: u64 = (-(n as i128)) as u64;
        push_decimal(out, magnitude);
        assert(out@ =~= before + signed_decimal(n as int));
    } else {
        push_decimal(out, n as u64);
    }
}

/// The decimal notation of `n`.
pub fn decimal_text(n: u64) -> (out: String)
    ensures
        out@ == decimal(n as nat),
{
    let mut out = String::new();
    push_decimal(&mut out, n);
    assert(out@ =~= decimal(n as nat));
    out
}

/// `text` with spaces before it up to a width of `width` characters.
pub open spec fn right_aligned(text: Seq<char>, width: nat) -> Seq<char> {
    if text.len() >= width {
        text
    } else {
        Seq::new((width - text.len()) as nat, |i: int| ' ') + text
    }
}

/// Appends the decimal notation of `n`, right-aligned in `width` columns.
pub fn push_aligned(out: &mut String, n: u64, width: usize)
    ensures
        final(out)@ == old(out)@ + right_aligned(decimal(n as nat), width as nat),
{
    let digits = decimal_text(n);
    let len: usize = chars_of(digits.as_str()).len();
    let ghost before = out@;
    let mut pad: usize = len;
    while pad < width
        invariant
            len == digits@.len(),
            len <= pad,
            pad <= width || pad == len,
            out@ == before + Seq::new((pad - len) as nat, |i: int| ' '),
        decreases width - pad,
    {
        out.push(' ');
        pad += 1;
        assert(out@ =~= before + Seq::new((pad - len) as nat, |i: int| ' '));
    }
    out.append(digits.as_str());
    assert(out@ =~= before + right_aligned(decimal(n as nat), width as nat));
}

// --- reading -------------------------------------------------------------

/// Whether `c` is one of the ten ASCII digits.
pub open spec fn is_digit(c: char) -> bool {
    '0' <= c <= '9'
}

/// The value of a digit.
pub open spec fn digit_value(c: char) -> nat {
    (c as nat - 48) as nat
}

/// The number that a run of digits denotes.
pub open spec fn digits_value(digits: Seq<char>) -> nat
    decreases digits.len(),
{
    if digits.len() == 0 {
        0
    } else {
        digits_value(digits.drop_last()) * 10 + digit_value(digits.last())
    }
}

/// Whether `text` is a non-empty run of digits.
pub open spec fn all_digits(text: Seq<char>) -> bool {
    text.len() > 0 && forall|i: int| 0 <= i < text.len() ==> is_digit(#[trigger] text[i])
}

/// `text` without one leading `sign`.
pub open spec fn without_sign(text: Seq<char>, sign: char) -> Seq<char> {
    if text.len() > 0 && text[0] == sign {
        text.skip(1)
    } else {
        text
    }
}

/// The number that `text` denotes as an unsigned 64-bit integer: digits with
/// an optional `+` before them, within range.
pub open spec fn unsigned_in(text: Seq<char>) -> Option<u64> {
    let digits = without_sign(text, '+');
    if all_digits(digits) && digits_value(digits) <= u64::MAX {
        Some(digits_value(digits) as u64)
    } else {
        None
    }
}

proof fn lemma_digits_value_grows(digits: Seq<char>, k: int)
    requires
        0 <= k <= digits.len(),
    ensures
        digits_value(digits.take(k)) <= digits_value(digits),
    decreases digits.len() - k,
{
    if k == digits.len() {
        assert(digits.take(k) =~= digits);
    } else {
        lemma_digits_value_grows(digits, k + 1);
        assert(digits.take(k + 1).drop_last() =~= digits.take(k));
    }
}

/// The value of the run of digits `chars[from..to]`, when it fits.
pub(crate) fn read_digits(chars: &[char], from: usize, to: usize) -> (n: Option<u64>)
    requires
        from <= to <= chars@.len(),
        forall|i: int| from <= i < to ==> is_digit(#[trigger] chars@[i]),
    ensures
        n == (if digits_value(chars@.subrange(from as int, to as int)) <= u64::MAX {
            Some(digits_value(chars@.subrange(from as int, to as int)) as u64)
        } else {
            None::<u64>
        }),
{
    let ghost run = chars@.subrange(from as int, to as int);
    let mut value: u64 = 0;
    let mut i: usize = from;
    while i < to
        invariant
            from <= i <= to <= chars@.len(),
            run == chars@.subrange(from as int, to as int),
            forall|j: int| from <= j < to ==> is_digit(#[trigger] chars@[j]),
            value == digits_value(run.take(i - from)),
        decreases to - i,
    {
        let d: u64 = (chars[i] as u32 - 48) as u64;
        assert(run.take(i + 1 - from).drop_last() =~= run.take(i - from));
        assert(run.take(i + 1 - from).last() == chars@[i as int]);
        proof {
            lemma_digits_value_grows(run, i + 1 - from);
        }
        if value > (u64::MAX - d) / 10 {
            return None;
        }
        value = value * 10 + d;
        i += 1;
    }
    assert(run.take(to - from) =~= run);
    Some(value)
}

/// Reads an unsigned 64-bit integer.
pub fn parse_unsigned(text: &str) -> (n: Option<u64>)
    ensures
        n == unsigned_in(text@),
{
    let t = chars_of(text);
    let from: usize = if t.len() > 0 && t[0] == '+' {
        1
    } else {
        0
    };
    let ghost digits = without_sign(text@, '+');
    assert(digits =~= t@.subrange(from as int, t@.len() as int));
    if from == t.len() {
        return None;
    }
    let mut i: usize = from;
    while i < t.len()
        invariant
            from <= i <= t@.len(),
            digits == without_sign(text@, '+'),
            digits == t@.subrange(from as int, t@.len() as int),
            forall|j: int| from <= j < i ==> is_digit(#[trigger] t@[j]),
        decreases t@.len() - i,
    {
        if !('0' <= t[i] && t[i] <= '9') {
            assert(digits[i - from] == t@[i as int]);
            return None;
        }
        i += 1;
    }
    read_digits(t.as_slice(), from, t.len())
}

/// The notation of a number consists of digits that denote that number.
pub proof fn decimal_denotes(n: nat)
    ensures
        all_digits(decimal(n)),
        digits_value(decimal(n)) == n,
    decreases n,
{
    if n < 10 {
        assert(decimal(n).drop_last() =~= Seq::<char>::empty());
        assert(digits_value(decimal(n).drop_last()) == 0);
    } else {
        decimal_denotes(n / 10);
        assert(decimal(n).drop_last() =~= decimal(n / 10));
        assert forall|i: int| 0 <= i < decimal(n).len() implies is_digit(
            #[trigger] decimal(n)[i],
        ) by {
            if i < decimal(n / 10).len() {
                assert(decimal(n)[i] == decimal(n / 10)[i]);
            }
        }
    }
}

/// Reading a number gives back the number that was written.
pub proof fn unsigned_reads_back(n: u64)
    ensures
        unsigned_in(decimal(n as nat)) == Some(n),
{
    decimal_denotes(n as nat);
    assert(is_digit(decimal(n as nat)[0]));
}

/// No notation but that of zero begins with a zero, and ten times a number and a
/// digit is written as the number followed by the digit.
pub proof fn decimal_is_the_shortest_notation(n: nat)
    ensures
        decimal(n).len() > 0,
        decimal(n)[0] == '0' <==> n == 0,
        n > 0 ==> forall|c: char| #[trigger]
            is_digit(c) ==> decimal(n * 10 + digit_value(c)) == decimal(n).push(c),
        forall|c: char| #[trigger] is_digit(c) ==> decimal(digit_value(c)) == seq![c],
    decreases n,
{
    assert forall|c: char| #[trigger] is_digit(c) implies digit(digit_value(c)) == c by {
        assert(48 <= c as nat <= 57);
    }
    if n >= 10 {
        decimal_is_the_shortest_notation(n / 10);
        assert(decimal(n)[0] == decimal(n / 10)[0]);
    }
    if n > 0 {
        assert forall|c: char| #[trigger] is_digit(c) implies decimal(n * 10 + digit_value(c))
            == decimal(n).push(c) by {
            let m = n * 10 + digit_value(c);
            assert(digit_value(c) < 10);
            assert(m / 10 == n && m % 10 == digit_value(c));
        }
    }
}

/// A negative number is written as a minus and its amount, any other as itself.
pub proof fn only_negative_numbers_have_a_sign(n: nat)
    ensures
        signed_decimal(n as int) == decimal(n),
        n > 0 ==> signed_decimal(-n) == seq!['-'] + decimal(n),
{
}

/// A text is aligned by spaces before it, and only where it is too short.
pub proof fn alignment_puts_spaces_before(text: Seq<char>, width: nat)
    ensures
        ({
            let out = right_aligned(text, width);
            let pad = out.len() - text.len();
            &&& out.len() == if text.len() < width {
                width
            } else {
                text.len()
            }
            &&& out.skip(pad) == text
            &&& forall|i: int| 0 <= i < pad ==> #[trigger] out[i] == ' '
        }),
{
    let out = right_aligned(text, width);
    assert(out.skip(out.len() - text.len()) =~= text);
}

/// A text is read as a number exactly when it is a run of digits, perhaps behind
/// a plus, whose value fits; then it is that value.
pub proof fn numbers_are_read_from_digits(digits: Seq<char>)
    requires
        digits.len() > 0,
        forall|i: int| 0 <= i < digits.len() ==> '0' <= #[trigger] digits[i] <= '9',
    ensures
        unsigned_in(seq!['+'] + digits) == unsigned_in(digits),
        unsigned_in(digits) is Some <==> digits_value(digits) <= u64::MAX,
        unsigned_in(digits) matches Some(n) ==> n == digits_value(digits),
        digits_value(seq![digits[0]]) == digits[0] as nat - 48,
        digits.len() > 1 ==> digits_value(digits) == 10 * digits_value(
            digits.take(digits.len() - 1),
        ) + (digits[digits.len() - 1] as nat - 48),
{
    assert((seq!['+'] + digits).skip(1) =~= digits);
    assert(digits[0] != '+');
    assert(digits.drop_last() =~= digits.take(digits.len() - 1));
    let one = seq![digits[0]];
    assert(one.drop_last() =~= Seq::<char>::empty());
    assert(digits_value(one.drop_last()) == 0);
}

/// What holds anything but digits behind its first character is no number, nor is
/// an empty text or a sign alone.
pub proof fn other_texts_are_no_numbers(text: Seq<char>, i: int)
    ensures
        unsigned_in(Seq::empty()) is None,
        unsigned_in(seq!['+']) is None,
        0 <= i < text.len() && !('0' <= text[i] <= '9') && !(i == 0 && text[i] == '+')
            ==> unsigned_in(text) is None,
{
    assert(seq!['+'].skip(1) =~= Seq::<char>::empty());
    if 0 <= i < text.len() && !('0' <= text[i] <= '9') && !(i == 0 && text[i] == '+') {
        if text[0] == '+' {
            assert(text.skip(1)[i - 1] == text[i]);
        }
    }
}

} // verus!
