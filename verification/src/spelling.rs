//! Spelling out numbers.

use crate::wire;
use vstd::prelude::*;

verus! {

/// The character of a digit.
pub open spec fn digit(n: nat) -> char {
    (48 + n) as char
}

/// A number in decimal digits.
pub open spec fn decimal(n: nat) -> Seq<char>
    decreases n,
{
    if n < 10 {
        seq![digit(n)]
    } else {
        decimal(n / 10).push(digit(n % 10))
    }
}

/// A number below a hundred in two decimal digits.
pub open spec fn two_digits(n: nat) -> Seq<char> {
    seq![digit(n / 10), digit(n % 10)]
}

/// The characters of ASCII bytes.
pub open spec fn ascii_chars(bytes: Seq<u8>) -> Seq<char> {
    Seq::new(bytes.len(), |i: int| bytes[i] as char)
}

/// Whether all bytes are ASCII.
pub open spec fn is_ascii(bytes: Seq<u8>) -> bool {
    forall|i: int| 0 <= i < bytes.len() ==> #[trigger] bytes[i] < 128
}

/// The text of ASCII bytes.
pub(crate) fn ascii_text(bytes: Vec<u8>) -> (text: String)
    requires
        is_ascii(bytes@),
    ensures
        text@ == ascii_chars(bytes@),
{
    let ghost chars = ascii_chars(bytes@);
    proof {
        assert forall|i: int| 0 <= i < chars.len() implies '\0' <= #[trigger] chars[i]
            <= '\u{7f}' by {
            assert(bytes@[i] < 128);
        }
        vstd::utf8::is_ascii_chars_encode_utf8(chars);
        assert forall|i: int| 0 <= i < chars.len() implies vstd::utf8::encode_utf8(chars)[i]
            == bytes@[i] by {
            assert(chars[i] as u8 == vstd::utf8::encode_utf8(chars)[i]);
            assert(bytes@[i] < 128);
        }
        assert(vstd::utf8::encode_utf8(chars) =~= bytes@);
        vstd::utf8::encode_utf8_valid_utf8(chars);
        vstd::utf8::encode_utf8_decode_utf8(chars);
    }
    match wire::text_of(bytes) {
        Some(text) => text,
        None => vstd::pervasive::unreached(),
    }
}

/// Adds a number in decimal digits.
pub(crate) fn push_decimal(out: &mut Vec<u8>, n: u64)
    requires
        is_ascii(old(out)@),
    ensures
        is_ascii(final(out)@),
        ascii_chars(final(out)@) == ascii_chars(old(out)@) + decimal(n as nat),
    decreases n,
{
    if n >= 10 {
        push_decimal(out, n / 10);
    }
    let ghost before = out@;
    out.push(48 + (n % 10) as u8);
    assert(ascii_chars(out@) =~= ascii_chars(before).push(digit((n % 10) as nat)));
    assert(ascii_chars(out@) =~= ascii_chars(old(out)@) + decimal(n as nat));
}

/// Adds a number below a hundred in two decimal digits.
pub(crate) fn push_two_digits(out: &mut Vec<u8>, n: u64)
    requires
        is_ascii(old(out)@),
        n < 100,
    ensures
        is_ascii(final(out)@),
        ascii_chars(final(out)@) == ascii_chars(old(out)@) + two_digits(n as nat),
{
    out.push(48 + (n / 10) as u8);
    out.push(48 + (n % 10) as u8);
    assert(ascii_chars(out@) =~= ascii_chars(old(out)@) + two_digits(n as nat));
}

/// Adds a character.
pub(crate) fn push_letter(out: &mut Vec<u8>, letter: u8)
    requires
        is_ascii(old(out)@),
        letter < 128,
    ensures
        is_ascii(final(out)@),
        ascii_chars(final(out)@) == ascii_chars(old(out)@).push(letter as char),
{
    out.push(letter);
    assert(ascii_chars(out@) =~= ascii_chars(old(out)@).push(letter as char));
}

/// Adds ASCII text.
pub(crate) fn push_text(out: &mut Vec<u8>, text: &str)
    requires
        is_ascii(old(out)@),
        vstd::utf8::is_ascii_chars(text@),
    ensures
        is_ascii(final(out)@),
        ascii_chars(final(out)@) == ascii_chars(old(out)@) + text@,
{
    let bytes = text.as_bytes();
    let ghost before = out@;
    proof {
        vstd::utf8::is_ascii_chars_encode_utf8(text@);
        assert forall|i: int| 0 <= i < bytes@.len() implies #[trigger] bytes@[i] < 128
            && bytes@[i] as char == text@[i] by {
            assert('\0' <= text@[i] <= '\u{7f}');
            assert(text@[i] as u8 == bytes@[i]);
        }
    }
    out.extend_from_slice(bytes);
    assert(out@ =~= before + bytes@);
    assert(is_ascii(out@)) by {
        assert forall|i: int| 0 <= i < out@.len() implies #[trigger] out@[i] < 128 by {
            if i >= before.len() {
                assert(out@[i] == bytes@[i - before.len()]);
            }
        }
    }
    assert(ascii_chars(out@) =~= ascii_chars(before) + text@);
}

/// A span of time, in nanoseconds.
#[derive(Clone, Copy, Debug, PartialEq, Eq, Structural)]
pub struct Elapsed(pub u64);

impl Elapsed {
    /// The span in minutes and seconds, and in hours once there are any.
    pub open spec fn spelled(self) -> Seq<char> {
        let seconds = self.0 as nat / 1_000_000_000;
        if seconds / 3600 == 0 {
            (decimal(seconds / 60).push('m') + two_digits(seconds % 60)).push('s')
        } else {
            ((decimal(seconds / 3600).push('h') + two_digits(seconds / 60 % 60)).push('m')
                + two_digits(seconds % 60)).push('s')
        }
    }

    /// The span in minutes and seconds, and in hours once there are any.
    pub fn text(&self) -> (text: String)
        ensures
            text@ == self.spelled(),
    {
        let seconds: u64 = self.0 / 1_000_000_000;
        let hours: u64 = seconds / 3600;
        let mut out: Vec<u8> = Vec::new();
        assert(ascii_chars(out@) =~= Seq::<char>::empty());
        if hours == 0 {
            push_decimal(&mut out, seconds / 60);
            assert(ascii_chars(out@) =~= decimal((seconds / 60) as nat));
        } else {
            push_decimal(&mut out, hours);
            assert(ascii_chars(out@) =~= decimal(hours as nat));
            push_letter(&mut out, 104);
            push_two_digits(&mut out, seconds / 60 % 60);
        }
        push_letter(&mut out, 109);
        push_two_digits(&mut out, seconds % 60);
        push_letter(&mut out, 115);
        ascii_text(out)
    }
}

/// What a run of decimal digits counts.
pub open spec fn value_of(digits: Seq<char>) -> nat
    decreases digits.len(),
{
    if digits.len() == 0 {
        0
    } else {
        10 * value_of(digits.drop_last()) + (digits.last() as u32 - '0' as u32) as nat
    }
}

/// A number reads back from its digits, of which there are no more than it takes.
pub proof fn numbers_read_back(n: nat)
    ensures
        value_of(decimal(n)) == n,
        decimal(n).len() > 0,
        forall|i: int| 0 <= i < decimal(n).len() ==> '0' <= #[trigger] decimal(n)[i] <= '9',
        decimal(n).len() > 1 ==> decimal(n)[0] != '0',
        decimal(n)[0] == '0' ==> n == 0,
    decreases n,
{
    reveal_with_fuel(value_of, 2);
    if n >= 10 {
        numbers_read_back(n / 10);
        let digits = decimal(n);
        assert(digits.drop_last() =~= decimal(n / 10));
        assert(digits.last() == digit(n % 10));
        assert(digits[0] == decimal(n / 10)[0]);
        assert forall|i: int| 0 <= i < digits.len() implies '0' <= #[trigger] digits[i] <= '9' by {
            if i < digits.len() - 1 {
                assert(digits[i] == decimal(n / 10)[i]);
            }
        }
    } else {
        assert(decimal(n).drop_last() =~= Seq::<char>::empty());
    }
}

/// A span is spelled as the hours, minutes and seconds that it is made up of, the hours
/// where there are any, and what is left of a second makes no difference.
pub proof fn a_span_is_spelled_as_what_it_is_made_of(
    span: Elapsed,
    hours: nat,
    minutes: nat,
    seconds: nat,
    rest: nat,
)
    requires
        span.0 == ((hours * 60 + minutes) * 60 + seconds) * 1_000_000_000 + rest,
        minutes < 60,
        seconds < 60,
        rest < 1_000_000_000,
    ensures
        hours > 0 ==> span.spelled() == decimal(hours) + seq!['h'] + two_digits(minutes)
            + seq!['m'] + two_digits(seconds) + seq!['s'],
        hours == 0 ==> span.spelled() == decimal(minutes) + seq!['m'] + two_digits(seconds)
            + seq!['s'],
{
    let whole = span.0 as nat / 1_000_000_000;
    assert(whole == (hours * 60 + minutes) * 60 + seconds);
    assert(whole / 3600 == hours);
    assert(whole / 60 == hours * 60 + minutes);
    assert(whole / 60 % 60 == minutes);
    assert(whole % 60 == seconds);
    if hours > 0 {
        assert(span.spelled() =~= decimal(hours) + seq!['h'] + two_digits(minutes) + seq!['m']
            + two_digits(seconds) + seq!['s']);
    } else {
        assert(span.spelled() =~= decimal(minutes) + seq!['m'] + two_digits(seconds) + seq!['s']);
    }
}

/// Two digits read back as the number that they spell.
pub proof fn two_digits_read_back(n: nat)
    requires
        n < 100,
    ensures
        two_digits(n).len() == 2,
        value_of(two_digits(n)) == n,
{
    reveal_with_fuel(value_of, 3);
    let digits = two_digits(n);
    assert(digits.drop_last() =~= seq![digit(n / 10)]);
    assert(digits.drop_last().drop_last() =~= Seq::<char>::empty());
}

} // verus!
