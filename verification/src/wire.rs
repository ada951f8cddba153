//! How values are laid out in control messages.
//!
//! A value is a sequence of fields. An integer takes one byte where it is small
//! and a marker byte with the little-endian integer after it where it is not; a
//! run of bytes follows its length.

use bincode::config::standard;
use bincode::error::{DecodeError, EncodeError};
use vstd::prelude::*;

verus! {

/// `bincode::error::EncodeError`.
#[verifier::external_type_specification]
#[verifier::external_body]
pub struct ExEncodeError(bincode::error::EncodeError);

/// `bincode::error::DecodeError`.
#[verifier::external_type_specification]
#[verifier::external_body]
pub struct ExDecodeError(bincode::error::DecodeError);

/// The two little-endian bytes of an integer.
pub open spec fn le_u16(value: u16) -> Seq<u8> {
    seq![(value % 256) as u8, (value / 256) as u8]
}

/// The four little-endian bytes of an integer.
pub open spec fn le_u32(value: u32) -> Seq<u8> {
    seq![
        (value % 256) as u8,
        (value / 256 % 256) as u8,
        (value / 0x1_0000 % 256) as u8,
        (value / 0x100_0000) as u8,
    ]
}

/// The eight little-endian bytes of an integer.
pub open spec fn le_u64(value: u64) -> Seq<u8> {
    le_u32((value % 0x1_0000_0000) as u32) + le_u32((value / 0x1_0000_0000) as u32)
}

/// The integer of two little-endian bytes.
pub open spec fn of_le_u16(bytes: Seq<u8>) -> u16 {
    (bytes[0] + 256 * bytes[1]) as u16
}

/// The integer of four little-endian bytes.
pub open spec fn of_le_u32(bytes: Seq<u8>) -> u32 {
    (bytes[0] + 256 * bytes[1] + 0x1_0000 * bytes[2] + 0x100_0000 * bytes[3]) as u32
}

/// The integer of eight little-endian bytes.
pub open spec fn of_le_u64(bytes: Seq<u8>) -> u64 {
    (of_le_u32(bytes.take(4)) + 0x1_0000_0000 * of_le_u32(bytes.skip(4))) as u64
}

/// The two bytes of an integer make up that integer.
pub proof fn le_u16_inverts(value: u16)
    ensures
        le_u16(value).len() == 2,
        of_le_u16(le_u16(value)) == value,
{
}

/// The four bytes of an integer make up that integer.
pub proof fn le_u32_inverts(value: u32)
    ensures
        le_u32(value).len() == 4,
        of_le_u32(le_u32(value)) == value,
{
    assert(value == value % 256 + 256 * (value / 256 % 256) + 0x1_0000 * (value / 0x1_0000 % 256)
        + 0x100_0000 * (value / 0x100_0000)) by (bit_vector);
}

/// The eight bytes of an integer make up that integer.
pub proof fn le_u64_inverts(value: u64)
    ensures
        le_u64(value).len() == 8,
        of_le_u64(le_u64(value)) == value,
{
    let low = (value % 0x1_0000_0000) as u32;
    let high = (value / 0x1_0000_0000) as u32;
    le_u32_inverts(low);
    le_u32_inverts(high);
    assert(le_u64(value).take(4) =~= le_u32(low));
    assert(le_u64(value).skip(4) =~= le_u32(high));
}

/// The bytes of an integer field.
pub open spec fn uint_bytes(value: u64) -> Seq<u8> {
    if value <= 250 {
        seq![value as u8]
    } else if value <= u16::MAX {
        seq![251u8] + le_u16(value as u16)
    } else if value <= u32::MAX {
        seq![252u8] + le_u32(value as u32)
    } else {
        seq![253u8] + le_u64(value)
    }
}

/// Why bytes are not a message.
#[derive(Debug)]
pub enum DecodeFault {
    /// A field is cut short or not well-formed.
    Field(DecodeError),
    /// A run of bytes is cut short.
    Truncated,
    /// What says whether a value follows is neither zero nor one.
    Presence(u8),
    /// A value that is never zero is zero.
    Zero,
    /// Text is not valid UTF-8.
    Text,
    /// There is no such kind of message.
    Kind(u32),
}

/// Why bytes are not a message, but for what tells one ill-formed field from another.
pub enum FaultView {
    Field,
    Truncated,
    Presence(u8),
    Zero,
    Text,
    Kind(u32),
}

impl View for DecodeFault {
    type V = FaultView;

    open spec fn view(&self) -> FaultView {
        match self {
            DecodeFault::Field(_) => FaultView::Field,
            DecodeFault::Truncated => FaultView::Truncated,
            DecodeFault::Presence(presence) => FaultView::Presence(*presence),
            DecodeFault::Zero => FaultView::Zero,
            DecodeFault::Text => FaultView::Text,
            DecodeFault::Kind(kind) => FaultView::Kind(*kind),
        }
    }
}

/// The integer field that starts a run of bytes, of at most `widest` bytes behind
/// its marker, and what follows it. A marker may stand before a smaller integer
/// than needs it.
pub open spec fn read_uint(bytes: Seq<u8>, widest: nat) -> Result<(u64, Seq<u8>), FaultView> {
    if bytes.len() == 0 {
        Err(FaultView::Field)
    } else if bytes[0] <= 250 {
        Ok((bytes[0] as u64, bytes.skip(1)))
    } else if bytes[0] == 251 && bytes.len() >= 3 {
        Ok((of_le_u16(bytes.subrange(1, 3)) as u64, bytes.skip(3)))
    } else if bytes[0] == 252 && widest >= 4 && bytes.len() >= 5 {
        Ok((of_le_u32(bytes.subrange(1, 5)) as u64, bytes.skip(5)))
    } else if bytes[0] == 253 && widest >= 8 && bytes.len() >= 9 {
        Ok((of_le_u64(bytes.subrange(1, 9)), bytes.skip(9)))
    } else {
        Err(FaultView::Field)
    }
}

/// The integer field that is never zero that starts a run of bytes, and what
/// follows it.
pub open spec fn read_nonzero(bytes: Seq<u8>, widest: nat) -> Result<(u64, Seq<u8>), FaultView> {
    match read_uint(bytes, widest) {
        Ok((value, rest)) => if value != 0 {
            Ok((value, rest))
        } else {
            Err(FaultView::Zero)
        },
        Err(fault) => Err(fault),
    }
}

/// How many bytes an integer of that size takes behind its marker.
pub open spec fn uint_width(value: u64) -> nat {
    if value <= u16::MAX {
        2
    } else if value <= u32::MAX {
        4
    } else {
        8
    }
}

/// An integer field reads back as the integer it was written for.
pub proof fn uint_reads_back(value: u64, widest: nat, rest: Seq<u8>)
    requires
        uint_width(value) <= widest,
    ensures
        read_uint(uint_bytes(value) + rest, widest) == Ok::<_, FaultView>((value, rest)),
        0 < uint_bytes(value).len() <= 9,
{
    let bytes = uint_bytes(value) + rest;
    if value <= 250 {
        assert(bytes.skip(1) =~= rest);
    } else if value <= u16::MAX {
        le_u16_inverts(value as u16);
        assert(bytes.subrange(1, 3) =~= le_u16(value as u16));
        assert(bytes.skip(3) =~= rest);
    } else if value <= u32::MAX {
        le_u32_inverts(value as u32);
        assert(bytes.subrange(1, 5) =~= le_u32(value as u32));
        assert(bytes.skip(5) =~= rest);
    } else {
        le_u64_inverts(value);
        assert(bytes.subrange(1, 9) =~= le_u64(value));
        assert(bytes.skip(9) =~= rest);
    }
}

/// A field of a message as it stands in the bytes.
#[verifier::ext_equal]
pub enum FieldView {
    Byte(u8),
    Uint(u64),
    Run(Seq<u8>),
}

/// The bytes of a field.
pub open spec fn field_bytes(field: FieldView) -> Seq<u8> {
    match field {
        FieldView::Byte(value) => seq![value],
        FieldView::Uint(value) => uint_bytes(value),
        FieldView::Run(run) => uint_bytes(run.len() as u64) + run,
    }
}

/// The bytes of a sequence of fields.
pub open spec fn fields_bytes(fields: Seq<FieldView>) -> Seq<u8>
    decreases fields.len(),
{
    if fields.len() == 0 {
        Seq::empty()
    } else {
        field_bytes(fields[0]) + fields_bytes(fields.skip(1))
    }
}

/// The byte field that starts a run of bytes, and what follows it.
pub open spec fn read_byte(bytes: Seq<u8>) -> Result<(u8, Seq<u8>), FaultView> {
    if bytes.len() == 0 {
        Err(FaultView::Field)
    } else {
        Ok((bytes[0], bytes.skip(1)))
    }
}

/// The run field that starts a run of bytes, and what follows it.
pub open spec fn read_run(bytes: Seq<u8>) -> Result<(Seq<u8>, Seq<u8>), FaultView> {
    match read_uint(bytes, 8) {
        Ok((len, rest)) => if len <= rest.len() {
            Ok((rest.take(len as int), rest.skip(len as int)))
        } else {
            Err(FaultView::Truncated)
        },
        Err(fault) => Err(fault),
    }
}

/// A byte field reads back as the byte it was written for.
pub proof fn byte_reads_back(value: u8, rest: Seq<u8>)
    ensures
        read_byte(field_bytes(FieldView::Byte(value)) + rest) == Ok::<_, FaultView>((value, rest)),
{
    assert((seq![value] + rest).skip(1) =~= rest);
}

/// A run field reads back as the run it was written for.
pub proof fn run_reads_back(run: Seq<u8>, rest: Seq<u8>)
    requires
        run.len() <= u64::MAX,
    ensures
        read_run(field_bytes(FieldView::Run(run)) + rest) == Ok::<_, FaultView>((run, rest)),
{
    let head = uint_bytes(run.len() as u64);
    uint_reads_back(run.len() as u64, 8, run + rest);
    assert(field_bytes(FieldView::Run(run)) + rest =~= head + (run + rest));
    assert((run + rest).take(run.len() as int) =~= run);
    assert((run + rest).skip(run.len() as int) =~= rest);
}

pub(crate) proof fn lemma_fields_bytes_snoc(fields: Seq<FieldView>, last: FieldView)
    ensures
        fields_bytes(fields.push(last)) == fields_bytes(fields) + field_bytes(last),
    decreases fields.len(),
{
    let longer = fields.push(last);
    if fields.len() == 0 {
        reveal_with_fuel(fields_bytes, 2);
        assert(longer.skip(1) =~= Seq::<FieldView>::empty());
        assert(fields_bytes(longer) =~= fields_bytes(fields) + field_bytes(last));
    } else {
        lemma_fields_bytes_snoc(fields.skip(1), last);
        assert(longer.skip(1) =~= fields.skip(1).push(last));
        assert(fields_bytes(longer) =~= fields_bytes(fields) + field_bytes(last));
    }
}

/// Whether `after` is `before` with `written` in place from `at` on.
#[verifier::opaque]
pub open spec fn written_at(
    before: Seq<u8>,
    after: Seq<u8>,
    at: int,
    written: Seq<u8>,
) -> bool {
    &&& 0 <= at
    &&& at + written.len() <= before.len()
    &&& after == before.take(at) + written + before.skip(at + written.len())
}

/// Whether `after` is `before` up to `at`, and as long.
#[verifier::opaque]
pub open spec fn kept_up_to(before: Seq<u8>, after: Seq<u8>, at: int) -> bool {
    &&& after.len() == before.len()
    &&& 0 <= at <= before.len()
    &&& after.take(at) == before.take(at)
}

/// `bincode::encode_into_slice` of a `u8` with the standard configuration: writes
/// the byte, unless there is no room.
#[verifier::external_body]
fn put_byte(buffer: &mut [u8], at: usize, value: u8) -> (result: Result<usize, EncodeError>)
    requires
        at <= old(buffer)@.len(),
    ensures
        result is Ok <==> at + 1 <= old(buffer)@.len(),
        result matches Ok(len) ==> len == 1 && written_at(
            old(buffer)@,
            final(buffer)@,
            at as int,
            seq![value],
        ),
        result is Err ==> kept_up_to(old(buffer)@, final(buffer)@, at as int),
{
    bincode::encode_into_slice(value, &mut buffer[at..], standard())
}

/// `bincode::encode_into_slice` of a `u64` with the standard configuration: writes
/// the integer in as few bytes as it takes, unless there is no room. The narrower
/// unsigned integers are written the same way.
#[verifier::external_body]
fn put_uint(buffer: &mut [u8], at: usize, value: u64) -> (result: Result<usize, EncodeError>)
    requires
        at <= old(buffer)@.len(),
    ensures
        result is Ok <==> at + uint_bytes(value).len() <= old(buffer)@.len(),
        result matches Ok(len) ==> len == uint_bytes(value).len() && written_at(
            old(buffer)@,
            final(buffer)@,
            at as int,
            uint_bytes(value),
        ),
        result is Err ==> kept_up_to(old(buffer)@, final(buffer)@, at as int),
{
    bincode::encode_into_slice(value, &mut buffer[at..], standard())
}

/// `bincode::encode_into_slice` of a `[u8]` with the standard configuration:
/// writes the length and the bytes, unless there is no room.
#[verifier::external_body]
fn put_run(buffer: &mut [u8], at: usize, run: &[u8]) -> (result: Result<usize, EncodeError>)
    requires
        at <= old(buffer)@.len(),
    ensures
        result is Ok <==> at + uint_bytes(run@.len() as u64).len() + run@.len()
            <= old(buffer)@.len(),
        result matches Ok(len) ==> len == uint_bytes(run@.len() as u64).len() + run@.len()
            && written_at(
            old(buffer)@,
            final(buffer)@,
            at as int,
            uint_bytes(run@.len() as u64) + run@,
        ),
        result is Err ==> kept_up_to(old(buffer)@, final(buffer)@, at as int),
{
    bincode::encode_into_slice(run, &mut buffer[at..], standard())
}

/// `bincode::decode_from_slice` of a `u8` with the standard configuration: the
/// first byte, and that it took one.
#[verifier::external_body]
pub(crate) fn take_byte(bytes: &[u8], at: usize) -> (result: Result<(u8, usize), DecodeError>)
    requires
        at <= bytes@.len(),
    ensures
        result is Ok <==> read_byte(bytes@.skip(at as int)) is Ok,
        result matches Ok((value, len)) ==> at + len <= bytes@.len() && (read_byte(
            bytes@.skip(at as int),
        ) matches Ok(read) && read == (value, bytes@.skip(at + len))),
{
    bincode::decode_from_slice(&bytes[at..], standard())
}

/// `bincode::decode_from_slice` of a `u16` with the standard configuration: the
/// integer, and how many bytes it took.
#[verifier::external_body]
pub(crate) fn take_u16(bytes: &[u8], at: usize) -> (result: Result<(u16, usize), DecodeError>)
    requires
        at <= bytes@.len(),
    ensures
        result is Ok <==> read_uint(bytes@.skip(at as int), 2) is Ok,
        result matches Ok((value, len)) ==> at + len <= bytes@.len() && (read_uint(
            bytes@.skip(at as int),
            2,
        ) matches Ok(read) && read == (value as u64, bytes@.skip(at + len))),
{
    bincode::decode_from_slice(&bytes[at..], standard())
}

/// `bincode::decode_from_slice` of a `u32` with the standard configuration: the
/// integer, and how many bytes it took.
#[verifier::external_body]
pub(crate) fn take_u32(bytes: &[u8], at: usize) -> (result: Result<(u32, usize), DecodeError>)
    requires
        at <= bytes@.len(),
    ensures
        result is Ok <==> read_uint(bytes@.skip(at as int), 4) is Ok,
        result matches Ok((value, len)) ==> at + len <= bytes@.len() && (read_uint(
            bytes@.skip(at as int),
            4,
        ) matches Ok(read) && read == (value as u64, bytes@.skip(at + len))),
{
    bincode::decode_from_slice(&bytes[at..], standard())
}

/// `bincode::decode_from_slice` of a `u64` with the standard configuration: the
/// integer, and how many bytes it took.
#[verifier::external_body]
pub(crate) fn take_u64(bytes: &[u8], at: usize) -> (result: Result<(u64, usize), DecodeError>)
    requires
        at <= bytes@.len(),
    ensures
        result is Ok <==> read_uint(bytes@.skip(at as int), 8) is Ok,
        result matches Ok((value, len)) ==> at + len <= bytes@.len() && (read_uint(
            bytes@.skip(at as int),
            8,
        ) matches Ok(read) && read == (value, bytes@.skip(at + len))),
{
    bincode::decode_from_slice(&bytes[at..], standard())
}

/// A field of a message.
pub(crate) enum Field<'a> {
    Byte(u8),
    Uint(u64),
    Run(&'a [u8]),
}

impl<'a> View for Field<'a> {
    type V = FieldView;

    open(crate) spec fn view(&self) -> FieldView {
        match self {
            Field::Byte(value) => FieldView::Byte(*value),
            Field::Uint(value) => FieldView::Uint(*value),
            Field::Run(run) => FieldView::Run(run@),
        }
    }
}

/// What each field of a list stands for.
pub(crate) open(crate) spec fn field_views(fields: Seq<Field>) -> Seq<FieldView> {
    Seq::new(fields.len(), |i: int| fields[i]@)
}

proof fn lemma_written_on(
    before: Seq<u8>,
    middle: Seq<u8>,
    after: Seq<u8>,
    at: int,
    first: Seq<u8>,
    second: Seq<u8>,
)
    requires
        written_at(before, middle, at, first),
        written_at(middle, after, at + first.len(), second),
    ensures
        written_at(before, after, at, first + second),
        after.len() == before.len(),
{
    reveal(written_at);
    let end = at + first.len() + second.len();
    assert(middle.take(at + first.len()) =~= before.take(at) + first);
    assert(middle.skip(end) =~= before.skip(end));
    assert(after =~= before.take(at) + (first + second) + before.skip(end));
}

proof fn lemma_kept(
    before: Seq<u8>,
    middle: Seq<u8>,
    after: Seq<u8>,
    at: int,
    first: Seq<u8>,
)
    requires
        written_at(before, middle, at, first),
        kept_up_to(middle, after, at + first.len()),
    ensures
        kept_up_to(before, after, at),
{
    reveal(written_at);
    reveal(kept_up_to);
    assert(after.take(at) =~= after.take(at + first.len()).take(at));
    assert(middle.take(at + first.len()).take(at) =~= before.take(at));
}

fn put_field(buffer: &mut [u8], at: usize, field: &Field) -> (result: Result<usize, EncodeError>)
    requires
        at <= old(buffer)@.len(),
    ensures
        result is Ok <==> at + field_bytes(field@).len() <= old(buffer)@.len(),
        result matches Ok(len) ==> len == field_bytes(field@).len() && written_at(
            old(buffer)@,
            final(buffer)@,
            at as int,
            field_bytes(field@),
        ),
        result is Err ==> kept_up_to(old(buffer)@, final(buffer)@, at as int),
{
    match field {
        Field::Byte(value) => put_byte(buffer, at, *value),
        Field::Uint(value) => put_uint(buffer, at, *value),
        Field::Run(run) => put_run(buffer, at, run),
    }
}

/// Writes fields one after another, and says where they end.
pub(crate) fn put_fields(buffer: &mut [u8], start: usize, fields: &Vec<Field>) -> (result: Result<
    usize,
    EncodeError,
>)
    requires
        start <= old(buffer)@.len(),
    ensures
        result is Ok <==> start + fields_bytes(field_views(fields@)).len() <= old(buffer)@.len(),
        result matches Ok(end) ==> end == start + fields_bytes(field_views(fields@)).len()
            && written_at(
            old(buffer)@,
            final(buffer)@,
            start as int,
            fields_bytes(field_views(fields@)),
        ),
        result is Err ==> kept_up_to(old(buffer)@, final(buffer)@, start as int),
{
    let room: usize = buffer.len();
    let ghost before = buffer@;
    let ghost all = field_views(fields@);
    let mut at: usize = start;
    let mut done: usize = 0;
    proof {
        reveal(written_at);
        assert(all.take(0) =~= Seq::<FieldView>::empty());
        assert(before.take(start as int) + Seq::<u8>::empty() + before.skip(start as int)
            =~= before);
    }
    while done < fields.len()
        invariant
            done <= fields@.len(),
            all == field_views(fields@),
            before == old(buffer)@,
            start <= room,
            at <= room,
            before.len() == room,
            buffer@.len() == room,
            at == start + fields_bytes(all.take(done as int)).len(),
            written_at(before, buffer@, start as int, fields_bytes(all.take(done as int))),
        decreases fields@.len() - done,
    {
        let ghost sofar = fields_bytes(all.take(done as int));
        let ghost middle = buffer@;
        let ghost next = field_bytes(all[done as int]);
        proof {
            assert(all.take(done + 1) =~= all.take(done as int).push(all[done as int]));
            lemma_fields_bytes_snoc(all.take(done as int), all[done as int]);
        }
        match put_field(buffer, at, &fields[done]) {
            Ok(len) => {
                proof {
                    lemma_written_on(before, middle, buffer@, start as int, sofar, next);
                }
                at = at + len;
            },
            Err(error) => {
                proof {
                    lemma_fields_bytes_grow(all, done + 1, all.len() as int);
                    assert(all.take(all.len() as int) =~= all);
                    lemma_kept(before, middle, buffer@, start as int, sofar);
                }
                return Err(error);
            },
        }
        done += 1;
    }
    assert(all.take(all.len() as int) =~= all);
    Ok(at)
}

/// How many bytes fields take.
pub(crate) fn fields_len(fields: &Vec<Field>) -> (len: usize)
    requires
        fields_bytes(field_views(fields@)).len() <= usize::MAX,
    ensures
        len == fields_bytes(field_views(fields@)).len(),
{
    let ghost all = field_views(fields@);
    let mut len: usize = 0;
    let mut done: usize = 0;
    assert(all.take(0) =~= Seq::<FieldView>::empty());
    while done < fields.len()
        invariant
            done <= fields@.len(),
            all == field_views(fields@),
            fields_bytes(all).len() <= usize::MAX,
            len == fields_bytes(all.take(done as int)).len(),
        decreases fields@.len() - done,
    {
        proof {
            assert(all.take(done + 1) =~= all.take(done as int).push(all[done as int]));
            lemma_fields_bytes_snoc(all.take(done as int), all[done as int]);
            lemma_fields_bytes_grow(all, done + 1, all.len() as int);
            assert(all.take(all.len() as int) =~= all);
        }
        len = match &fields[done] {
            Field::Byte(_) => len + 1,
            Field::Uint(value) => len + uint_len(*value),
            Field::Run(run) => len + uint_len(run.len() as u64) + run.len(),
        };
        done += 1;
    }
    assert(all.take(all.len() as int) =~= all);
    len
}

fn uint_len(value: u64) -> (len: usize)
    ensures
        len == uint_bytes(value).len(),
{
    if value <= 250 {
        1
    } else if value <= 0xffff {
        3
    } else if value <= 0xffff_ffff {
        5
    } else {
        9
    }
}

proof fn lemma_fields_bytes_grow(fields: Seq<FieldView>, from: int, upto: int)
    requires
        0 <= from <= upto <= fields.len(),
    ensures
        fields_bytes(fields.take(from)).len() <= fields_bytes(fields.take(upto)).len(),
    decreases upto,
{
    if from < upto {
        lemma_fields_bytes_grow(fields, from, upto - 1);
        assert(fields.take(upto) =~= fields.take(upto - 1).push(fields[upto - 1]));
        lemma_fields_bytes_snoc(fields.take(upto - 1), fields[upto - 1]);
    }
}

/// `String::from_utf8`: the text of bytes that are valid UTF-8.
#[verifier::external_body]
pub(crate) fn text_of(bytes: Vec<u8>) -> (text: Option<String>)
    ensures
        text is Some <==> vstd::utf8::valid_utf8(bytes@),
        text matches Some(text) ==> text@ == vstd::utf8::decode_utf8(bytes@),
{
    String::from_utf8(bytes).ok()
}

/// Reads a byte, and says where it ends.
pub(crate) fn byte_at(bytes: &[u8], at: usize) -> (result: Result<(u8, usize), DecodeFault>)
    requires
        at <= bytes@.len(),
    ensures
        match result {
            Ok((value, end)) => end <= bytes@.len() && read_byte(bytes@.skip(at as int)) == Ok::<_, FaultView>(
                (value, bytes@.skip(end as int)),
            ),
            Err(fault) => read_byte(bytes@.skip(at as int)) matches Err(why) && why == fault@,
        },
{
    assert(bytes.len() == bytes@.len());
    match take_byte(bytes, at) {
        Ok((value, len)) => Ok((value, at + len)),
        Err(error) => Err(DecodeFault::Field(error)),
    }
}

/// Reads an integer of 16 bits, and says where it ends.
pub(crate) fn u16_at(bytes: &[u8], at: usize) -> (result: Result<(u16, usize), DecodeFault>)
    requires
        at <= bytes@.len(),
    ensures
        match result {
            Ok((value, end)) => end <= bytes@.len() && read_uint(bytes@.skip(at as int), 2) == Ok::<_, FaultView>(
                (value as u64, bytes@.skip(end as int)),
            ),
            Err(fault) => read_uint(bytes@.skip(at as int), 2) matches Err(why) && why == fault@,
        },
{
    assert(bytes.len() == bytes@.len());
    match take_u16(bytes, at) {
        Ok((value, len)) => Ok((value, at + len)),
        Err(error) => Err(DecodeFault::Field(error)),
    }
}

/// Reads an integer of 32 bits, and says where it ends.
pub(crate) fn u32_at(bytes: &[u8], at: usize) -> (result: Result<(u32, usize), DecodeFault>)
    requires
        at <= bytes@.len(),
    ensures
        match result {
            Ok((value, end)) => end <= bytes@.len() && read_uint(bytes@.skip(at as int), 4) == Ok::<_, FaultView>(
                (value as u64, bytes@.skip(end as int)),
            ),
            Err(fault) => read_uint(bytes@.skip(at as int), 4) matches Err(why) && why == fault@,
        },
{
    assert(bytes.len() == bytes@.len());
    match take_u32(bytes, at) {
        Ok((value, len)) => Ok((value, at + len)),
        Err(error) => Err(DecodeFault::Field(error)),
    }
}

/// Reads an integer of 64 bits, and says where it ends.
pub(crate) fn u64_at(bytes: &[u8], at: usize) -> (result: Result<(u64, usize), DecodeFault>)
    requires
        at <= bytes@.len(),
    ensures
        match result {
            Ok((value, end)) => end <= bytes@.len() && read_uint(bytes@.skip(at as int), 8) == Ok::<_, FaultView>(
                (value, bytes@.skip(end as int)),
            ),
            Err(fault) => read_uint(bytes@.skip(at as int), 8) matches Err(why) && why == fault@,
        },
{
    assert(bytes.len() == bytes@.len());
    match take_u64(bytes, at) {
        Ok((value, len)) => Ok((value, at + len)),
        Err(error) => Err(DecodeFault::Field(error)),
    }
}

/// Reads a run of bytes, and says where it ends.
pub(crate) fn run_at(bytes: &[u8], at: usize) -> (result: Result<(Vec<u8>, usize), DecodeFault>)
    requires
        at <= bytes@.len(),
    ensures
        match result {
            Ok((run, end)) => end <= bytes@.len() && read_run(bytes@.skip(at as int)) == Ok::<_, FaultView>(
                (run@, bytes@.skip(end as int)),
            ),
            Err(fault) => read_run(bytes@.skip(at as int)) matches Err(why) && why == fault@,
        },
{
    let (len, start): (u64, usize) = u64_at(bytes, at)?;
    if len > (bytes.len() - start) as u64 {
        return Err(DecodeFault::Truncated);
    }
    let end: usize = start + len as usize;
    let run = vstd::slice::slice_to_vec(vstd::slice::slice_subrange(bytes, start, end));
    assert(run@ =~= bytes@.skip(start as int).take(len as int));
    assert(bytes@.skip(end as int) =~= bytes@.skip(start as int).skip(len as int));
    Ok((run, end))
}

/// The text field that starts a run of bytes, and what follows it.
pub open spec fn read_text(bytes: Seq<u8>) -> Result<(Seq<char>, Seq<u8>), FaultView> {
    match read_run(bytes) {
        Ok((run, rest)) => if vstd::utf8::valid_utf8(run) {
            Ok((vstd::utf8::decode_utf8(run), rest))
        } else {
            Err(FaultView::Text)
        },
        Err(fault) => Err(fault),
    }
}

/// Reads text, and says where it ends.
pub(crate) fn text_at(bytes: &[u8], at: usize) -> (result: Result<(String, usize), DecodeFault>)
    requires
        at <= bytes@.len(),
    ensures
        match result {
            Ok((text, end)) => end <= bytes@.len() && read_text(bytes@.skip(at as int)) == Ok::<_, FaultView>(
                (text@, bytes@.skip(end as int)),
            ),
            Err(fault) => read_text(bytes@.skip(at as int)) matches Err(why) && why == fault@,
        },
{
    let (run, end): (Vec<u8>, usize) = run_at(bytes, at)?;
    match text_of(run) {
        Some(text) => Ok((text, end)),
        None => Err(DecodeFault::Text),
    }
}

/// Text reads back as the text it was written for.
pub proof fn text_reads_back(text: Seq<char>, rest: Seq<u8>)
    requires
        vstd::utf8::encode_utf8(text).len() <= u64::MAX,
    ensures
        read_text(field_bytes(FieldView::Run(vstd::utf8::encode_utf8(text))) + rest) == Ok::<_, FaultView>(
            (text, rest),
        ),
{
    run_reads_back(vstd::utf8::encode_utf8(text), rest);
    vstd::utf8::encode_utf8_valid_utf8(text);
    vstd::utf8::encode_utf8_decode_utf8(text);
}

/// The optional integer field that starts a run of bytes, and what follows it.
pub open spec fn read_optional(bytes: Seq<u8>, widest: nat) -> Result<(Option<u64>, Seq<u8>), FaultView> {
    match read_byte(bytes) {
        Ok((presence, rest)) => if presence == 0 {
            Ok((None, rest))
        } else if presence == 1 {
            match read_uint(rest, widest) {
                Ok((value, rest)) => Ok((Some(value), rest)),
                Err(fault) => Err(fault),
            }
        } else {
            Err(FaultView::Presence(presence))
        },
        Err(fault) => Err(fault),
    }
}

/// The fields of an optional integer.
pub open spec fn optional_fields(value: Option<u64>) -> Seq<FieldView> {
    match value {
        Some(value) => seq![FieldView::Byte(1), FieldView::Uint(value)],
        None => seq![FieldView::Byte(0)],
    }
}

/// Reads an optional integer of 64 bits, and says where it ends.
pub(crate) fn optional_u64_at(bytes: &[u8], at: usize) -> (result: Result<
    (Option<u64>, usize),
    DecodeFault,
>)
    requires
        at <= bytes@.len(),
    ensures
        match result {
            Ok((value, end)) => end <= bytes@.len() && read_optional(bytes@.skip(at as int), 8)
                == Ok::<_, FaultView>((value, bytes@.skip(end as int))),
            Err(fault) => read_optional(bytes@.skip(at as int), 8) matches Err(why) && why == fault@,
        },
{
    let (presence, at): (u8, usize) = byte_at(bytes, at)?;
    if presence == 0 {
        Ok((None, at))
    } else if presence == 1 {
        let (value, at): (u64, usize) = u64_at(bytes, at)?;
        Ok((Some(value), at))
    } else {
        Err(DecodeFault::Presence(presence))
    }
}

/// Reads an optional integer of 32 bits, and says where it ends.
pub(crate) fn optional_u32_at(bytes: &[u8], at: usize) -> (result: Result<
    (Option<u32>, usize),
    DecodeFault,
>)
    requires
        at <= bytes@.len(),
    ensures
        match result {
            Ok((value, end)) => end <= bytes@.len() && read_optional(bytes@.skip(at as int), 4)
                == Ok::<_, FaultView>(
                (
                    match value {
                        Some(value) => Some(value as u64),
                        None => None,
                    },
                    bytes@.skip(end as int),
                ),
            ),
            Err(fault) => read_optional(bytes@.skip(at as int), 4) matches Err(why) && why == fault@,
        },
{
    let (presence, at): (u8, usize) = byte_at(bytes, at)?;
    if presence == 0 {
        Ok((None, at))
    } else if presence == 1 {
        let (value, at): (u32, usize) = u32_at(bytes, at)?;
        Ok((Some(value), at))
    } else {
        Err(DecodeFault::Presence(presence))
    }
}

/// An optional integer reads back as the one it was written for.
pub proof fn optional_reads_back(value: Option<u64>, widest: nat, rest: Seq<u8>)
    requires
        value matches Some(value) ==> uint_width(value) <= widest,
    ensures
        read_optional(fields_bytes(optional_fields(value)) + rest, widest) == Ok::<_, FaultView>((value, rest)),
{
    reveal_with_fuel(fields_bytes, 3);
    let fields = optional_fields(value);
    match value {
        Some(value) => {
            let tail = uint_bytes(value) + rest;
            assert(fields.skip(1)[0] == FieldView::Uint(value));
            assert(fields.skip(1).skip(1) =~= Seq::<FieldView>::empty());
            assert(fields_bytes(fields) + rest =~= field_bytes(FieldView::Byte(1)) + tail);
            byte_reads_back(1, tail);
            uint_reads_back(value, widest, rest);
        },
        None => {
            assert(fields.skip(1) =~= Seq::<FieldView>::empty());
            assert(fields_bytes(fields) + rest =~= field_bytes(FieldView::Byte(0)) + rest);
            byte_reads_back(0, rest);
        },
    }
}

/// The list of 16-bit integers of that length that starts a run of bytes, and what
/// follows it.
pub open spec fn read_items(bytes: Seq<u8>, count: nat) -> Result<(Seq<u16>, Seq<u8>), FaultView>
    decreases count,
{
    if count == 0 {
        Ok((Seq::empty(), bytes))
    } else {
        match read_uint(bytes, 2) {
            Ok((first, rest)) => match read_items(rest, (count - 1) as nat) {
                Ok((others, rest)) => Ok((seq![first as u16] + others, rest)),
                Err(fault) => Err(fault),
            },
            Err(fault) => Err(fault),
        }
    }
}

/// The list of 16-bit integers that starts a run of bytes, and what follows it.
pub open spec fn read_list(bytes: Seq<u8>) -> Result<(Seq<u16>, Seq<u8>), FaultView> {
    match read_uint(bytes, 8) {
        Ok((count, rest)) => read_items(rest, count as nat),
        Err(fault) => Err(fault),
    }
}

/// The fields of the items of a list of 16-bit integers.
pub open spec fn item_fields(items: Seq<u16>) -> Seq<FieldView> {
    Seq::new(items.len(), |i: int| FieldView::Uint(items[i] as u64))
}

/// Reads a list of 16-bit integers, and says where it ends.
pub(crate) fn list_at(bytes: &[u8], at: usize) -> (result: Result<(Vec<u16>, usize), DecodeFault>)
    requires
        at <= bytes@.len(),
    ensures
        match result {
            Ok((items, end)) => end <= bytes@.len() && read_list(bytes@.skip(at as int)) == Ok::<_, FaultView>(
                (items@, bytes@.skip(end as int)),
            ),
            Err(fault) => read_list(bytes@.skip(at as int)) matches Err(why) && why == fault@,
        },
{
    let (count, start): (u64, usize) = u64_at(bytes, at)?;
    let ghost whole = read_items(bytes@.skip(start as int), count as nat);
    let mut items: Vec<u16> = Vec::new();
    let mut end: usize = start;
    let mut left: u64 = count;
    proof {
        let rest = read_items(bytes@.skip(end as int), left as nat);
        assert(rest matches Ok((tail, _)) ==> items@ + tail =~= tail);
    }
    while left > 0
        invariant
            end <= bytes@.len(),
            whole == read_list(bytes@.skip(at as int)),
            whole == (match read_items(bytes@.skip(end as int), left as nat) {
                Ok((tail, rest)) => Ok((items@ + tail, rest)),
                Err(fault) => Err(fault),
            }),
        decreases left,
    {
        let ghost before = items@;
        match u16_at(bytes, end) {
            Ok((item, next)) => {
                items.push(item);
                end = next;
                proof {
                    let rest = read_items(bytes@.skip(end as int), (left - 1) as nat);
                    assert(rest matches Ok((tail, _)) ==> before + (seq![item] + tail) =~= items@
                        + tail);
                }
            },
            Err(fault) => {
                return Err(fault);
            },
        }
        left = left - 1;
    }
    assert(items@ + Seq::<u16>::empty() =~= items@);
    Ok((items, end))
}

/// Adds the items of a list to fields.
pub(crate) fn push_items(fields: &mut Vec<Field>, items: &Vec<u16>)
    ensures
        field_views(final(fields)@) == field_views(old(fields)@) + item_fields(items@),
{
    let ghost before = fields@;
    let mut at: usize = 0;
    while at < items.len()
        invariant
            at <= items@.len(),
            fields@.len() == before.len() + at,
            forall|i: int| 0 <= i < before.len() ==> fields@[i] == before[i],
            forall|i: int|
                0 <= i < at ==> (#[trigger] fields@[before.len() + i])@ == FieldView::Uint(
                    items@[i] as u64,
                ),
        decreases items@.len() - at,
    {
        fields.push(Field::Uint(items[at] as u64));
        at += 1;
    }
    proof {
        let after = field_views(fields@);
        assert forall|i: int| before.len() <= i < after.len() implies after[i] == item_fields(
            items@,
        )[i - before.len()] by {
            assert(fields@[before.len() + (i - before.len())]@ == FieldView::Uint(
                items@[i - before.len()] as u64,
            ));
        }
        assert(after =~= field_views(before) + item_fields(items@));
    }
}

proof fn lemma_items_read_back(items: Seq<u16>, rest: Seq<u8>)
    ensures
        read_items(fields_bytes(item_fields(items)) + rest, items.len()) == Ok::<_, FaultView>((items, rest)),
    decreases items.len(),
{
    let fields = item_fields(items);
    if items.len() == 0 {
        assert(fields_bytes(fields) + rest =~= rest);
        assert(items =~= Seq::<u16>::empty());
    } else {
        let tail = fields_bytes(fields.skip(1)) + rest;
        assert(fields.skip(1) =~= item_fields(items.skip(1)));
        assert(fields_bytes(fields) + rest =~= uint_bytes(items[0] as u64) + tail);
        uint_reads_back(items[0] as u64, 2, tail);
        lemma_items_read_back(items.skip(1), rest);
        assert(seq![items[0]] + items.skip(1) =~= items);
    }
}

/// A list reads back as the list it was written for.
pub proof fn list_reads_back(items: Seq<u16>, rest: Seq<u8>)
    requires
        items.len() <= u64::MAX,
    ensures
        read_list(
            fields_bytes(seq![FieldView::Uint(items.len() as u64)] + item_fields(items)) + rest,
        ) == Ok::<_, FaultView>((items, rest)),
{
    let fields = seq![FieldView::Uint(items.len() as u64)] + item_fields(items);
    let tail = fields_bytes(item_fields(items)) + rest;
    assert(fields.skip(1) =~= item_fields(items));
    assert(fields_bytes(fields) + rest =~= uint_bytes(items.len() as u64) + tail);
    uint_reads_back(items.len() as u64, 8, tail);
    lemma_items_read_back(items, rest);
}

/// The bytes of fields that follow others follow their bytes.
pub proof fn fields_bytes_add(first: Seq<FieldView>, second: Seq<FieldView>)
    ensures
        fields_bytes(first + second) == fields_bytes(first) + fields_bytes(second),
    decreases first.len(),
{
    if first.len() == 0 {
        assert(first + second =~= second);
        assert(fields_bytes(first) + fields_bytes(second) =~= fields_bytes(second));
    } else {
        fields_bytes_add(first.skip(1), second);
        assert((first + second).skip(1) =~= first.skip(1) + second);
        assert(fields_bytes(first + second) =~= fields_bytes(first) + fields_bytes(second));
    }
}

/// A leading integer field reads back, and the fields after it follow.
pub proof fn uint_first(fields: Seq<FieldView>, value: u64, widest: nat, rest: Seq<u8>)
    requires
        fields.len() > 0,
        fields[0] == FieldView::Uint(value),
        uint_width(value) <= widest,
    ensures
        read_uint(fields_bytes(fields) + rest, widest) == Ok::<_, FaultView>(
            (value, fields_bytes(fields.skip(1)) + rest),
        ),
{
    let tail = fields_bytes(fields.skip(1)) + rest;
    assert(fields_bytes(fields) + rest =~= uint_bytes(value) + tail);
    uint_reads_back(value, widest, tail);
}

/// A leading byte field reads back, and the fields after it follow.
pub proof fn byte_first(fields: Seq<FieldView>, value: u8, rest: Seq<u8>)
    requires
        fields.len() > 0,
        fields[0] == FieldView::Byte(value),
    ensures
        read_byte(fields_bytes(fields) + rest) == Ok::<_, FaultView>((value, fields_bytes(fields.skip(1)) + rest)),
{
    let tail = fields_bytes(fields.skip(1)) + rest;
    assert(fields_bytes(fields) + rest =~= field_bytes(FieldView::Byte(value)) + tail);
    byte_reads_back(value, tail);
}

/// Text that is the only field reads back.
pub proof fn text_first(fields: Seq<FieldView>, text: Seq<char>, rest: Seq<u8>)
    requires
        fields.len() == 1,
        fields[0] == FieldView::Run(vstd::utf8::encode_utf8(text)),
        vstd::utf8::encode_utf8(text).len() <= u64::MAX,
    ensures
        read_text(fields_bytes(fields) + rest) == Ok::<_, FaultView>((text, rest)),
{
    assert(fields_bytes(fields) =~= field_bytes(fields[0])) by {
        reveal_with_fuel(fields_bytes, 2);
        assert(fields.skip(1) =~= Seq::<FieldView>::empty());
    }
    text_reads_back(text, rest);
}

} // verus!
