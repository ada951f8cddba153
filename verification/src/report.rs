//! Sizes as they are written on a command line.

use crate::spelling;
use vstd::prelude::*;

verus! {

/// How often progress is reported, in nanoseconds.
pub const REPORT_INTERVAL: u64 = 1_000_000_000;

/// Whether a character is white space in Unicode.
pub open spec fn is_space(c: char) -> bool {
    let n = c as u32;
    ||| 0x9 <= n <= 0xd
    ||| n == 0x20
    ||| n == 0x85
    ||| n == 0xa0
    ||| n == 0x1680
    ||| 0x2000 <= n <= 0x200a
    ||| n == 0x2028
    ||| n == 0x2029
    ||| n == 0x202f
    ||| n == 0x205f
    ||| n == 0x3000
}

fn space(c: char) -> (result: bool)
    ensures
        result == is_space(c),
{
    let n: u32 = c as u32;
    (0x9 <= n && n <= 0xd) || n == 0x20 || n == 0x85 || n == 0xa0 || n == 0x1680 || (0x2000 <= n && n
        <= 0x200a) || n == 0x2028 || n == 0x2029 || n == 0x202f || n == 0x205f || n == 0x3000
}

/// Whether a character is an ASCII letter.
pub open spec fn is_letter(c: char) -> bool {
    'a' <= c <= 'z' || 'A' <= c <= 'Z'
}

/// An ASCII letter in lower case; any other character as it is.
pub open spec fn lower(c: char) -> char {
    if 'A' <= c <= 'Z' {
        (c as u32 + 32) as char
    } else {
        c
    }
}

/// Text without the white space that it starts with.
pub open spec fn trimmed_start(text: Seq<char>) -> Seq<char>
    decreases text.len(),
{
    if text.len() > 0 && is_space(text[0]) {
        trimmed_start(text.skip(1))
    } else {
        text
    }
}

/// Text without the white space that it ends with.
pub open spec fn trimmed_end(text: Seq<char>) -> Seq<char>
    decreases text.len(),
{
    if text.len() > 0 && is_space(text.last()) {
        trimmed_end(text.drop_last())
    } else {
        text
    }
}

/// Text without the ASCII letters that it ends with.
pub open spec fn without_letters(text: Seq<char>) -> Seq<char>
    decreases text.len(),
{
    if text.len() > 0 && is_letter(text.last()) {
        without_letters(text.drop_last())
    } else {
        text
    }
}

/// Text in lower case.
pub open spec fn lowered(text: Seq<char>) -> Seq<char> {
    Seq::new(text.len(), |i: int| lower(text[i]))
}

/// What the number before a suffix counts.
pub open spec fn scale_of(suffix: Seq<char>) -> Option<u64> {
    if suffix == Seq::<char>::empty() || suffix == seq!['b'] {
        Some(1)
    } else if suffix == seq!['k'] || suffix == seq!['k', 'i', 'b'] || suffix == seq!['k', 'b'] {
        Some(0x400)
    } else if suffix == seq!['m'] || suffix == seq!['m', 'i', 'b'] || suffix == seq!['m', 'b'] {
        Some(0x10_0000)
    } else if suffix == seq!['g'] || suffix == seq!['g', 'i', 'b'] || suffix == seq!['g', 'b'] {
        Some(0x4000_0000)
    } else if suffix == seq!['t'] || suffix == seq!['t', 'i', 'b'] || suffix == seq!['t', 'b'] {
        Some(0x100_0000_0000)
    } else {
        None
    }
}

/// The number of a size, as text.
pub open spec fn number_part(text: Seq<char>) -> Seq<char> {
    trimmed_end(without_letters(trimmed_end(trimmed_start(text))))
}

/// The suffix of a size, in lower case.
pub open spec fn suffix_part(text: Seq<char>) -> Seq<char> {
    let whole = trimmed_end(trimmed_start(text));
    lowered(whole.skip(without_letters(whole).len() as int))
}

/// A size: a number, as text, and what it counts.
#[derive(Debug, PartialEq)]
pub struct Size {
    pub number: String,
    pub scale: u64,
}

/// Takes a size apart into its number and what that counts, or gives the suffix
/// that is none.
pub fn parse_bytes(text: &str) -> (result: Result<Size, String>)
    ensures
        match result {
            Ok(size) => {
                &&& size.number@ == number_part(text@)
                &&& scale_of(suffix_part(text@)) == Some(size.scale)
            },
            Err(suffix) => {
                &&& suffix@ == suffix_part(text@)
                &&& scale_of(suffix_part(text@)) is None
            },
        },
{
    let chars = chars_of(text);
    let ghost all = text@;
    let start: usize = first_solid(&chars);
    let end: usize = solid_end(&chars, start, chars.len());
    let letters: usize = letters_start(&chars, start, end);
    let number_end: usize = solid_end(&chars, start, letters);
    let ghost whole = trimmed_end(trimmed_start(all));
    proof {
        assert(all.subrange(start as int, all.len() as int) =~= all.skip(start as int));
        assert(whole == all.subrange(start as int, end as int));
        assert(without_letters(whole) == all.subrange(start as int, letters as int));
        assert(whole.skip(letters - start) =~= all.subrange(letters as int, end as int));
    }
    let suffix = lower_part(&chars, letters, end);
    assert(suffix@ =~= suffix_part(all));
    match scale(&suffix) {
        Some(scale) => Ok(
            Size { number: text.substring_char(start, number_end).to_owned(), scale },
        ),
        None => Err(ascii_of(&suffix)),
    }
}

fn chars_of(text: &str) -> (chars: Vec<char>)
    ensures
        chars@ == text@,
{
    let len: usize = text.unicode_len();
    let mut chars: Vec<char> = Vec::new();
    let mut at: usize = 0;
    while at < len
        invariant
            at <= len,
            len == text@.len(),
            chars@ == text@.take(at as int),
        decreases len - at,
    {
        chars.push(text.get_char(at));
        at += 1;
        assert(chars@ =~= text@.take(at as int));
    }
    assert(text@.take(len as int) =~= text@);
    chars
}

fn first_solid(chars: &Vec<char>) -> (start: usize)
    ensures
        start <= chars@.len(),
        trimmed_start(chars@) == chars@.skip(start as int),
{
    let mut start: usize = 0;
    assert(chars@.skip(0) =~= chars@);
    while start < chars.len() && space(chars[start])
        invariant
            start <= chars@.len(),
            trimmed_start(chars@) == trimmed_start(chars@.skip(start as int)),
        decreases chars@.len() - start,
    {
        assert(chars@.skip(start as int).skip(1) =~= chars@.skip(start + 1));
        start += 1;
    }
    start
}

fn solid_end(chars: &Vec<char>, start: usize, upto: usize) -> (end: usize)
    requires
        start <= upto <= chars@.len(),
    ensures
        start <= end <= upto,
        trimmed_end(chars@.subrange(start as int, upto as int)) == chars@.subrange(
            start as int,
            end as int,
        ),
{
    let mut end: usize = upto;
    while end > start && space(chars[end - 1])
        invariant
            start <= end <= upto <= chars@.len(),
            trimmed_end(chars@.subrange(start as int, upto as int)) == trimmed_end(
                chars@.subrange(start as int, end as int),
            ),
        decreases end - start,
    {
        assert(chars@.subrange(start as int, end as int).drop_last() =~= chars@.subrange(
            start as int,
            end - 1,
        ));
        end -= 1;
    }
    end
}

fn letters_start(chars: &Vec<char>, start: usize, end: usize) -> (letters: usize)
    requires
        start <= end <= chars@.len(),
    ensures
        start <= letters <= end,
        without_letters(chars@.subrange(start as int, end as int)) == chars@.subrange(
            start as int,
            letters as int,
        ),
        forall|i: int| letters <= i < end ==> is_letter(#[trigger] chars@[i]),
{
    let mut letters: usize = end;
    while letters > start && (('a' <= chars[letters - 1] && chars[letters - 1] <= 'z') || ('A'
        <= chars[letters - 1] && chars[letters - 1] <= 'Z'))
        invariant
            start <= letters <= end <= chars@.len(),
            without_letters(chars@.subrange(start as int, end as int)) == without_letters(
                chars@.subrange(start as int, letters as int),
            ),
            forall|i: int| letters <= i < end ==> is_letter(#[trigger] chars@[i]),
        decreases letters - start,
    {
        assert(chars@.subrange(start as int, letters as int).drop_last() =~= chars@.subrange(
            start as int,
            letters - 1,
        ));
        letters -= 1;
    }
    letters
}

fn lower_letter(c: char) -> (result: u8)
    requires
        is_letter(c),
    ensures
        result as char == lower(c),
        97 <= result <= 122,
{
    let n: u8 = c as u8;
    if n <= 90 {
        n + 32
    } else {
        n
    }
}

/// Letters as ASCII bytes, in lower case.
struct Letters {
    bytes: Vec<u8>,
}

impl View for Letters {
    type V = Seq<char>;

    closed spec fn view(&self) -> Seq<char> {
        spelling::ascii_chars(self.bytes@)
    }
}

fn lower_part(chars: &Vec<char>, from: usize, upto: usize) -> (letters: Letters)
    requires
        from <= upto <= chars@.len(),
        forall|i: int| from <= i < upto ==> is_letter(#[trigger] chars@[i]),
    ensures
        letters@ == lowered(chars@.subrange(from as int, upto as int)),
        spelling::is_ascii(letters.bytes@),
{
    let mut bytes: Vec<u8> = Vec::new();
    let mut at: usize = from;
    while at < upto
        invariant
            from <= at <= upto <= chars@.len(),
            forall|i: int| from <= i < upto ==> is_letter(#[trigger] chars@[i]),
            bytes@.len() == at - from,
            forall|i: int|
                0 <= i < bytes@.len() ==> #[trigger] bytes@[i] < 128 && bytes@[i] as char == lower(
                    chars@[from + i],
                ),
        decreases upto - at,
    {
        bytes.push(lower_letter(chars[at]));
        at += 1;
    }
    let letters = Letters { bytes };
    assert(letters@ =~= lowered(chars@.subrange(from as int, upto as int)));
    letters
}

fn ascii_of(letters: &Letters) -> (text: String)
    requires
        spelling::is_ascii(letters.bytes@),
    ensures
        text@ == letters@,
{
    let mut bytes: Vec<u8> = Vec::new();
    bytes.extend_from_slice(letters.bytes.as_slice());
    assert(bytes@ =~= letters.bytes@);
    spelling::ascii_text(bytes)
}

fn scale(letters: &Letters) -> (scale: Option<u64>)
    ensures
        scale == scale_of(letters@),
{
    let bytes = &letters.bytes;
    let len: usize = bytes.len();
    proof {
        lemma_short(letters@);
    }
    if len == 0 {
        return Some(1);
    }
    let first: u8 = bytes[0];
    if len == 1 && first == 98 {
        return Some(1);
    }
    let binary = len == 1 || (len == 2 && bytes[1] == 98) || (len == 3 && bytes[1] == 105
        && bytes[2] == 98);
    if !binary {
        None
    } else if first == 107 {
        Some(0x400)
    } else if first == 109 {
        Some(0x10_0000)
    } else if first == 103 {
        Some(0x4000_0000)
    } else if first == 116 {
        Some(0x100_0000_0000)
    } else {
        None
    }
}

/// A suffix is one of those that count when its characters are.
proof fn lemma_short(s: Seq<char>)
    ensures
        scale_of(s) == if s.len() == 0 || (s.len() == 1 && s[0] == 'b') {
            Some(1u64)
        } else if s.len() == 1 || (s.len() == 2 && s[1] == 'b') || (s.len() == 3 && s[1] == 'i'
            && s[2] == 'b') {
            if s[0] == 'k' {
                Some(0x400u64)
            } else if s[0] == 'm' {
                Some(0x10_0000u64)
            } else if s[0] == 'g' {
                Some(0x4000_0000u64)
            } else if s[0] == 't' {
                Some(0x100_0000_0000u64)
            } else {
                None
            }
        } else {
            None
        },
{
    if s.len() == 0 {
        assert(s =~= Seq::<char>::empty());
    } else if s.len() == 1 {
        assert(s =~= seq![s[0]]);
    } else if s.len() == 2 {
        assert(s =~= seq![s[0], s[1]]);
    } else if s.len() == 3 {
        assert(s =~= seq![s[0], s[1], s[2]]);
    }
    assert(seq!['b'].len() == 1 && seq!['b'][0] == 'b');
    assert(seq!['k'][0] == 'k' && seq!['m'][0] == 'm' && seq!['g'][0] == 'g' && seq!['t'][0]
        == 't');
    assert(seq!['k', 'b'][0] == 'k' && seq!['k', 'b'][1] == 'b');
    assert(seq!['m', 'b'][0] == 'm' && seq!['m', 'b'][1] == 'b');
    assert(seq!['g', 'b'][0] == 'g' && seq!['g', 'b'][1] == 'b');
    assert(seq!['t', 'b'][0] == 't' && seq!['t', 'b'][1] == 'b');
    assert(seq!['k', 'i', 'b'][0] == 'k' && seq!['k', 'i', 'b'][1] == 'i' && seq!['k', 'i', 'b'][2]
        == 'b');
    assert(seq!['m', 'i', 'b'][0] == 'm' && seq!['m', 'i', 'b'][1] == 'i' && seq!['m', 'i', 'b'][2]
        == 'b');
    assert(seq!['g', 'i', 'b'][0] == 'g' && seq!['g', 'i', 'b'][1] == 'i' && seq!['g', 'i', 'b'][2]
        == 'b');
    assert(seq!['t', 'i', 'b'][0] == 't' && seq!['t', 'i', 'b'][1] == 'i' && seq!['t', 'i', 'b'][2]
        == 'b');
}

proof fn lemma_starts(spaces: Seq<char>, rest: Seq<char>)
    requires
        forall|i: int| 0 <= i < spaces.len() ==> is_space(#[trigger] spaces[i]),
        rest.len() > 0,
        !is_space(rest[0]),
    ensures
        trimmed_start(spaces + rest) == rest,
    decreases spaces.len(),
{
    if spaces.len() > 0 {
        lemma_starts(spaces.skip(1), rest);
        assert((spaces + rest).skip(1) =~= spaces.skip(1) + rest);
    } else {
        assert(spaces + rest =~= rest);
    }
}

proof fn lemma_ends(rest: Seq<char>, spaces: Seq<char>)
    requires
        forall|i: int| 0 <= i < spaces.len() ==> is_space(#[trigger] spaces[i]),
        rest.len() > 0,
        !is_space(rest.last()),
    ensures
        trimmed_end(rest + spaces) == rest,
    decreases spaces.len(),
{
    if spaces.len() > 0 {
        lemma_ends(rest, spaces.drop_last());
        assert((rest + spaces).drop_last() =~= rest + spaces.drop_last());
        assert((rest + spaces).last() == spaces[spaces.len() - 1]);
    } else {
        assert(rest + spaces =~= rest);
    }
}

proof fn lemma_letters_end(rest: Seq<char>, letters: Seq<char>)
    requires
        forall|i: int| 0 <= i < letters.len() ==> is_letter(#[trigger] letters[i]),
        rest.len() > 0,
        !is_letter(rest.last()),
    ensures
        without_letters(rest + letters) == rest,
    decreases letters.len(),
{
    if letters.len() > 0 {
        lemma_letters_end(rest, letters.drop_last());
        assert((rest + letters).drop_last() =~= rest + letters.drop_last());
        assert((rest + letters).last() == letters[letters.len() - 1]);
    } else {
        assert(rest + letters =~= rest);
    }
}

/// A size is a number and the letters after it, whatever white space stands before, between
/// and behind them, and whether the letters are small or not.
pub proof fn a_size_is_a_number_and_letters(
    before: Seq<char>,
    number: Seq<char>,
    between: Seq<char>,
    letters: Seq<char>,
    behind: Seq<char>,
)
    requires
        forall|i: int| 0 <= i < before.len() ==> is_space(#[trigger] before[i]),
        forall|i: int| 0 <= i < between.len() ==> is_space(#[trigger] between[i]),
        forall|i: int| 0 <= i < behind.len() ==> is_space(#[trigger] behind[i]),
        forall|i: int| 0 <= i < letters.len() ==> is_letter(#[trigger] letters[i]),
        number.len() > 0,
        !is_space(number[0]),
        !is_space(number.last()),
        !is_letter(number.last()),
    ensures
        ({
            let text = before + number + between + letters + behind;
            &&& number_part(text) == number
            &&& suffix_part(text).len() == letters.len()
            &&& forall|i: int|
                0 <= i < letters.len() ==> 'a' <= #[trigger] suffix_part(text)[i] <= 'z' && (
                suffix_part(text)[i] == letters[i] || suffix_part(text)[i] as u32
                    == letters[i] as u32 + 32)
        }),
{
    let text = before + number + between + letters + behind;
    let rest = number + between + letters + behind;
    assert(text =~= before + rest);
    assert(rest[0] == number[0]);
    lemma_starts(before, rest);
    if letters.len() > 0 {
        let whole = number + between + letters;
        assert(rest =~= whole + behind);
        assert(whole.last() == letters[letters.len() - 1]);
        lemma_ends(whole, behind);
        let head = number + between;
        if between.len() > 0 {
            assert(head.last() == between[between.len() - 1]);
        } else {
            assert(head =~= number);
        }
        assert(whole =~= head + letters);
        lemma_letters_end(head, letters);
        lemma_ends(number, between);
        assert(whole.skip(head.len() as int) =~= letters);
        assert(trimmed_end(trimmed_start(text)) == whole);
    } else {
        let spaces = between + letters + behind;
        assert(rest =~= number + spaces);
        assert forall|i: int| 0 <= i < spaces.len() implies is_space(#[trigger] spaces[i]) by {
            if i < between.len() {
                assert(spaces[i] == between[i]);
            } else {
                assert(spaces[i] == behind[i - between.len()]);
            }
        }
        lemma_ends(number, spaces);
        assert(trimmed_end(trimmed_start(text)) == number);
        lemma_letters_end(number, Seq::empty());
        assert(number + Seq::<char>::empty() =~= number);
        lemma_ends(number, Seq::empty());
        assert(number.skip(number.len() as int) =~= Seq::<char>::empty());
    }
}

/// Each unit counts 1024 times the one before, however it is written, and nothing else is a
/// unit.
pub proof fn each_unit_counts_1024_times_the_one_before(suffix: Seq<char>, i: int)
    requires
        0 <= i < 4,
    ensures
        ({
            let units = seq!['k', 'm', 'g', 't'];
            let unit = units[i];
            let before = if i == 0 {
                scale_of(Seq::empty())
            } else {
                scale_of(seq![units[i - 1]])
            };
            &&& before matches Some(smaller) && scale_of(seq![unit]) == Some((1024 * smaller) as u64)
            &&& scale_of(seq![unit, 'b']) == scale_of(seq![unit])
            &&& scale_of(seq![unit, 'i', 'b']) == scale_of(seq![unit])
        }),
        scale_of(Seq::empty()) == Some(1u64),
        scale_of(seq!['b']) == Some(1u64),
        scale_of(suffix) is Some && suffix.len() > 0 && suffix != seq!['b'] ==> {
            &&& suffix[0] == 'k' || suffix[0] == 'm' || suffix[0] == 'g' || suffix[0] == 't'
            &&& suffix.len() == 1 || suffix == seq![suffix[0], 'b'] || suffix == seq![
                suffix[0],
                'i',
                'b',
            ]
        },
{
    let units = seq!['k', 'm', 'g', 't'];
    let unit = units[i];
    assert(unit == 'k' || unit == 'm' || unit == 'g' || unit == 't');
    let (short, long, longest) = (seq![unit], seq![unit, 'b'], seq![unit, 'i', 'b']);
    assert(short[0] == unit && long[0] == unit && longest[0] == unit);
    let none = Seq::<char>::empty();
    assert forall|c: char| c != unit implies short != seq![c] && long != #[trigger] seq![c, 'b']
        && longest != seq![c, 'i', 'b'] by {
        assert(seq![c][0] == c && seq![c, 'b'][0] == c && seq![c, 'i', 'b'][0] == c);
    }
    assert(seq!['k', 'b'].len() == 2 && seq!['m', 'b'].len() == 2 && seq!['g', 'b'].len() == 2
        && seq!['t', 'b'].len() == 2);
    assert(short.len() == 1 && long.len() == 2 && longest.len() == 3 && none.len() == 0);
    assert(short != none && long != none && longest != none);
    assert(seq!['b'].len() == 1 && seq!['b'][0] == 'b');
    assert(scale_of(long) == scale_of(short));
    assert(scale_of(longest) == scale_of(short));
    if i > 0 {
        let last = units[i - 1];
        assert(last == 'k' || last == 'm' || last == 'g');
        assert(seq![last][0] == last);
        assert forall|c: char| c != last implies seq![last] != #[trigger] seq![c] by {
            assert(seq![c][0] == c);
        }
    }
}

/// White space is these characters and no others.
pub proof fn white_space_is_told_by_its_number(c: char)
    ensures
        is_space(c) <==> seq![
            0x9u32,
            0xa,
            0xb,
            0xc,
            0xd,
            0x20,
            0x85,
            0xa0,
            0x1680,
            0x2000,
            0x2001,
            0x2002,
            0x2003,
            0x2004,
            0x2005,
            0x2006,
            0x2007,
            0x2008,
            0x2009,
            0x200a,
            0x2028,
            0x2029,
            0x202f,
            0x205f,
            0x3000,
        ].contains(c as u32),
{
    let spaces = seq![
        0x9u32,
        0xa,
        0xb,
        0xc,
        0xd,
        0x20,
        0x85,
        0xa0,
        0x1680,
        0x2000,
        0x2001,
        0x2002,
        0x2003,
        0x2004,
        0x2005,
        0x2006,
        0x2007,
        0x2008,
        0x2009,
        0x200a,
        0x2028,
        0x2029,
        0x202f,
        0x205f,
        0x3000,
    ];
    let n = c as u32;
    if is_space(c) {
        let i: int = if n <= 0xd {
            n - 0x9
        } else if n == 0x20 {
            5
        } else if n == 0x85 {
            6
        } else if n == 0xa0 {
            7
        } else if n == 0x1680 {
            8
        } else if n <= 0x200a {
            9 + (n - 0x2000)
        } else if n == 0x2028 {
            20
        } else if n == 0x2029 {
            21
        } else if n == 0x202f {
            22
        } else if n == 0x205f {
            23
        } else {
            24
        };
        assert(spaces[i] == n);
    }
}

/// Letters are those of the alphabet in either case, the large ones have a small one each,
/// and every other character stays as it is.
pub proof fn every_large_letter_has_a_small_one(c: char)
    ensures
        is_letter(c) <==> 65 <= c as u32 <= 90 || 97 <= c as u32 <= 122,
        65 <= c as u32 <= 90 ==> lower(c) as u32 == c as u32 + 32,
        !(65 <= c as u32 <= 90) ==> lower(c) == c,
{
}

} // verus!
