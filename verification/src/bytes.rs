use vstd::prelude::*;
use vstd::arithmetic::power2::{pow2, lemma_pow2_adds, lemma2_to64};
use vstd::bits::{lemma_u64_shl_is_mul, lemma_u64_pow2_no_overflow};
use vstd::utf8::{valid_utf8, decode_utf8};
use crate::error::{RecordError, ValueKind};

verus! {

// ---------------------------------------------------------------------------
// Fixed-width little-endian numbers
// ---------------------------------------------------------------------------

/// The unsigned number whose little-endian bytes are `bytes`.
pub open spec fn le_value(bytes: Seq<u8>) -> nat
    decreases bytes.len(),
{
    if bytes.len() == 0 {
        0
    } else {
        bytes[0] as nat + 256 * le_value(bytes.drop_first())
    }
}

/// Reading `width` little-endian bytes at `pos`: the number and the position after it,
/// or the end of the data, reported as the end of a value of kind `kind`.
pub open spec fn fixed_spec(data: Seq<u8>, pos: int, width: nat, kind: ValueKind) -> Result<
    (nat, int),
    RecordError,
> {
    if pos + width > data.len() {
        Err(RecordError::UnexpectedEnd(kind))
    } else {
        Ok((le_value(data.subrange(pos, pos + width)), pos + width))
    }
}

/// A byte read as a two's complement `i8`.
pub open spec fn as_i8(v: nat) -> int {
    if v < 0x80 { v as int } else { v - 0x100 }
}

/// Four bytes' value read as a two's complement `i32`.
pub open spec fn as_i32(v: nat) -> int {
    if v < 0x8000_0000 { v as int } else { v - 0x1_0000_0000 }
}

/// Eight bytes' value read as a two's complement `i64`.
pub open spec fn as_i64(v: nat) -> int {
    if v < 0x8000_0000_0000_0000 { v as int } else { v - 0x1_0000_0000_0000_0000 }
}

pub open spec fn u8_spec(data: Seq<u8>, pos: int) -> Result<(u8, int), RecordError> {
    match fixed_spec(data, pos, 1, ValueKind::U8) {
        Ok((v, end)) => Ok((v as u8, end)),
        Err(e) => Err(e),
    }
}

pub open spec fn i8_spec(data: Seq<u8>, pos: int) -> Result<(i8, int), RecordError> {
    match fixed_spec(data, pos, 1, ValueKind::I8) {
        Ok((v, end)) => Ok((as_i8(v) as i8, end)),
        Err(e) => Err(e),
    }
}

pub open spec fn u16_spec(data: Seq<u8>, pos: int) -> Result<(u16, int), RecordError> {
    match fixed_spec(data, pos, 2, ValueKind::U16) {
        Ok((v, end)) => Ok((v as u16, end)),
        Err(e) => Err(e),
    }
}

/// The four bytes of an IEEE-754 single-precision number, as their bit pattern.
pub open spec fn f32_bits_spec(data: Seq<u8>, pos: int) -> Result<(u32, int), RecordError> {
    match fixed_spec(data, pos, 4, ValueKind::F32) {
        Ok((v, end)) => Ok((v as u32, end)),
        Err(e) => Err(e),
    }
}

pub open spec fn i32_spec(data: Seq<u8>, pos: int) -> Result<(i32, int), RecordError> {
    match fixed_spec(data, pos, 4, ValueKind::I32) {
        Ok((v, end)) => Ok((as_i32(v) as i32, end)),
        Err(e) => Err(e),
    }
}

pub open spec fn i64_spec(data: Seq<u8>, pos: int) -> Result<(i64, int), RecordError> {
    match fixed_spec(data, pos, 8, ValueKind::I64) {
        Ok((v, end)) => Ok((as_i64(v) as i64, end)),
        Err(e) => Err(e),
    }
}

/// The little-endian `u16` at `at`.
fn le_u16_at(data: &[u8], at: usize) -> (v: u16)
    requires
        at + 2 <= data@.len(),
    ensures
        v == le_value(data@.subrange(at as int, at + 2)),
{
    let ghost s = data@.subrange(at as int, at + 2);
    proof {
        reveal_with_fuel(le_value, 3);
        assert(s.drop_first().drop_first().len() == 0);
    }
    data[at] as u16 + data[at + 1] as u16 * 0x100
}

/// The little-endian `u32` at `at`.
pub(crate) fn le_u32_at(data: &[u8], at: usize) -> (v: u32)
    requires
        at + 4 <= data@.len(),
    ensures
        v == le_value(data@.subrange(at as int, at + 4)),
{
    let ghost s = data@.subrange(at as int, at + 4);
    proof {
        reveal_with_fuel(le_value, 5);
        assert(s.drop_first().drop_first().drop_first().drop_first().len() == 0);
    }
    data[at] as u32 + data[at + 1] as u32 * 0x100 + data[at + 2] as u32 * 0x1_0000 + data[at + 3]
        as u32 * 0x100_0000
}

/// The little-endian `u64` at `at`.
fn le_u64_at(data: &[u8], at: usize) -> (v: u64)
    requires
        at + 8 <= data.len(),
    ensures
        v == le_value(data@.subrange(at as int, at + 8)),
{
    let ghost s = data@.subrange(at as int, at + 8);
    let lo = le_u32_at(data, at) as u64;
    let hi = le_u32_at(data, at + 4) as u64;
    proof {
        let s4 = s.drop_first().drop_first().drop_first().drop_first();
        assert(s4 =~= data@.subrange(at + 4, at + 8));
        reveal_with_fuel(le_value, 5);
        assert(data@.subrange(at as int, at + 4) =~= s.subrange(0, 4));
        assert(le_value(s) == le_value(s.subrange(0, 4)) + 0x1_0000_0000 * le_value(s4));
    }
    lo + hi * 0x1_0000_0000
}


/// Whether `width` bytes remain at `pos`; the error names the kind of value being read.
fn require_room(data: &[u8], pos: usize, width: usize, kind: ValueKind) -> (r: Result<(), RecordError>)
    requires
        pos <= data.len(),
    ensures
        r is Ok <==> pos + width <= data@.len(),
        r is Err ==> r == Err::<(), RecordError>(RecordError::UnexpectedEnd(kind)),
{
    if data.len() - pos < width {
        Err(RecordError::UnexpectedEnd(kind))
    } else {
        Ok(())
    }
}

/// Reads a `u8`.
pub(crate) fn read_u8(data: &[u8], pos: &mut usize) -> (r: Result<u8, RecordError>)
    requires
        *old(pos) <= data.len(),
    ensures
        match u8_spec(data@, *old(pos) as int) {
            Ok((v, end)) => r == Ok::<u8, RecordError>(v) && *final(pos) == end,
            Err(e) => r == Err::<u8, RecordError>(e) && *final(pos) == *old(pos),
        },
        *final(pos) <= data.len(),
{
    require_room(data, *pos, 1, ValueKind::U8)?;
    let v = data[*pos];
    proof {
        reveal_with_fuel(le_value, 2);
        assert(data@.subrange(*pos as int, *pos + 1).drop_first().len() == 0);
    }
    *pos = *pos + 1;
    Ok(v)
}

/// Reads an `i8`.
pub(crate) fn read_i8(data: &[u8], pos: &mut usize) -> (r: Result<i8, RecordError>)
    requires
        *old(pos) <= data.len(),
    ensures
        match i8_spec(data@, *old(pos) as int) {
            Ok((v, end)) => r == Ok::<i8, RecordError>(v) && *final(pos) == end,
            Err(e) => r == Err::<i8, RecordError>(e) && *final(pos) == *old(pos),
        },
        *final(pos) <= data.len(),
{
    require_room(data, *pos, 1, ValueKind::I8)?;
    let b = data[*pos];
    proof {
        reveal_with_fuel(le_value, 2);
        assert(data@.subrange(*pos as int, *pos + 1).drop_first().len() == 0);
    }
    *pos = *pos + 1;
    if b < 0x80 {
        Ok(b as i8)
    } else {
        Ok((b - 0x80) as i8 - 0x40 - 0x40)
    }
}

/// Reads a little-endian `u16`.
pub(crate) fn read_u16(data: &[u8], pos: &mut usize) -> (r: Result<u16, RecordError>)
    requires
        *old(pos) <= data.len(),
    ensures
        match u16_spec(data@, *old(pos) as int) {
            Ok((v, end)) => r == Ok::<u16, RecordError>(v) && *final(pos) == end,
            Err(e) => r == Err::<u16, RecordError>(e) && *final(pos) == *old(pos),
        },
        *final(pos) <= data.len(),
{
    require_room(data, *pos, 2, ValueKind::U16)?;
    let v = le_u16_at(data, *pos);
    *pos = *pos + 2;
    Ok(v)
}

/// Reads the bit pattern of a little-endian IEEE-754 `f32`.
pub(crate) fn read_f32_bits(data: &[u8], pos: &mut usize) -> (r: Result<u32, RecordError>)
    requires
        *old(pos) <= data.len(),
    ensures
        match f32_bits_spec(data@, *old(pos) as int) {
            Ok((v, end)) => r == Ok::<u32, RecordError>(v) && *final(pos) == end,
            Err(e) => r == Err::<u32, RecordError>(e) && *final(pos) == *old(pos),
        },
        *final(pos) <= data.len(),
{
    require_room(data, *pos, 4, ValueKind::F32)?;
    let v = le_u32_at(data, *pos);
    *pos = *pos + 4;
    Ok(v)
}

/// Reads a little-endian `i32`.
pub(crate) fn read_i32(data: &[u8], pos: &mut usize) -> (r: Result<i32, RecordError>)
    requires
        *old(pos) <= data.len(),
    ensures
        match i32_spec(data@, *old(pos) as int) {
            Ok((v, end)) => r == Ok::<i32, RecordError>(v) && *final(pos) == end,
            Err(e) => r == Err::<i32, RecordError>(e) && *final(pos) == *old(pos),
        },
        *final(pos) <= data.len(),
{
    require_room(data, *pos, 4, ValueKind::I32)?;
    let u = le_u32_at(data, *pos);
    *pos = *pos + 4;
    if u < 0x8000_0000 {
        Ok(u as i32)
    } else {
        Ok((u - 0x8000_0000) as i32 - 0x4000_0000 - 0x4000_0000)
    }
}

/// Reads a little-endian `i64`.
pub(crate) fn read_i64(data: &[u8], pos: &mut usize) -> (r: Result<i64, RecordError>)
    requires
        *old(pos) <= data.len(),
    ensures
        match i64_spec(data@, *old(pos) as int) {
            Ok((v, end)) => r == Ok::<i64, RecordError>(v) && *final(pos) == end,
            Err(e) => r == Err::<i64, RecordError>(e) && *final(pos) == *old(pos),
        },
        *final(pos) <= data.len(),
{
    require_room(data, *pos, 8, ValueKind::I64)?;
    let u = le_u64_at(data, *pos);
    *pos = *pos + 8;
    if u < 0x8000_0000_0000_0000 {
        Ok(u as i64)
    } else {
        Ok((u - 0x8000_0000_0000_0000) as i64 - 0x4000_0000_0000_0000 - 0x4000_0000_0000_0000)
    }
}


// ---------------------------------------------------------------------------
// Unsigned LEB128
// ---------------------------------------------------------------------------

/// The number written by LEB128 groups `groups`: the low seven bits of each byte,
/// least significant group first, without any bound.
pub open spec fn uleb_digits(groups: Seq<u8>) -> nat
    decreases groups.len(),
{
    if groups.len() == 0 {
        0
    } else {
        uleb_digits(groups.drop_last()) + (groups.last() % 128) as nat * pow2(
            (7 * (groups.len() - 1)) as nat,
        )
    }
}

/// How many bytes the LEB128 number at `start` occupies, given that the `i` bytes
/// before `start + i` carry the continuation bit: the first byte without it ends the
/// number; the data may end first; a number may not run on past ten bytes.
pub open spec fn uleb_extent(data: Seq<u8>, start: int, i: nat) -> Result<nat, RecordError>
    decreases 10 - i,
{
    if i >= 10 {
        Err(RecordError::UlebTooLarge)
    } else if start + i >= data.len() {
        Err(RecordError::UnexpectedEnd(ValueKind::Uleb128))
    } else if data[start + i] < 0x80 {
        Ok(i + 1)
    } else {
        uleb_extent(data, start, i + 1)
    }
}

/// Reading an unsigned LEB128 number at `start`: its value, taken modulo 2^64, and the
/// position after it.
pub open spec fn uleb_spec(data: Seq<u8>, start: int) -> Result<(u64, int), RecordError> {
    match uleb_extent(data, start, 0) {
        Ok(n) => Ok(
            (
                (uleb_digits(data.subrange(start, start + n)) % 0x1_0000_0000_0000_0000) as u64,
                start + n,
            ),
        ),
        Err(e) => Err(e),
    }
}

/// Where the read position stands after a failed LEB128 read at `start`.
pub open spec fn uleb_stop(data: Seq<u8>, start: int, e: RecordError) -> int {
    if e == RecordError::UlebTooLarge {
        start + 10
    } else if start < data.len() {
        data.len() as int
    } else {
        start
    }
}

proof fn lemma_or_shift_is_add(r: u64, p: u64, s: u64)
    by (bit_vector)
    requires
        s < 64,
        r < (1u64 << s),
    ensures
        r | (p << s) == r + (p << s),
{
}

proof fn lemma_top_group(p: u64)
    by (bit_vector)
    ensures
        p << 63u64 == (p % 2) << 63u64,
{
}

proof fn lemma_byte_bits(b: u8)
    by (bit_vector)
    ensures
        b & 0x7f == b % 128,
        (b & 0x80 == 0) == (b < 0x80),
{
}

/// LEB128 groups of `n` bytes are below 2^(7n).
proof fn lemma_uleb_digits_bound(groups: Seq<u8>)
    ensures
        uleb_digits(groups) < pow2(7 * groups.len()),
    decreases groups.len(),
{
    lemma2_to64();
    if groups.len() > 0 {
        let n = groups.len();
        let below = pow2((7 * (n - 1)) as nat);
        lemma_uleb_digits_bound(groups.drop_last());
        lemma_pow2_adds((7 * (n - 1)) as nat, 7);
        let d = (groups.last() % 128) as nat;
        assert(d * below <= 127 * below) by (nonlinear_arith)
            requires
                d <= 127,
        ;
    }
}

/// Reads an unsigned LEB128 number at `*pos` and moves `*pos` past it.
pub fn read_uleb(data: &[u8], pos: &mut usize) -> (r: Result<u64, RecordError>)
    ensures
        match uleb_spec(data@, *old(pos) as int) {
            Ok((v, end)) => r == Ok::<u64, RecordError>(v) && *final(pos) == end && end
                <= data@.len(),
            Err(e) => r == Err::<u64, RecordError>(e) && *final(pos) == uleb_stop(
                data@,
                *old(pos) as int,
                e,
            ),
        },
{
    let start = *pos;
    let mut result: u64 = 0;
    let mut shift: u64 = 0;
    proof {
        lemma2_to64();
    }
    loop
        invariant
            start == *old(pos),
            start <= *pos,
            shift == 7 * (*pos - start),
            *pos - start <= 9,
            shift > 0 ==> *pos <= data.len(),
            forall|j: int| start <= j < *pos ==> data@[j] >= 0x80,
            uleb_extent(data@, start as int, 0) == uleb_extent(
                data@,
                start as int,
                (*pos - start) as nat,
            ),
            shift == 0 ==> result == 0,
            shift > 0 ==> result == uleb_digits(data@.subrange(start as int, *pos as int)),
            result < pow2(shift as nat),
        decreases 10 - (*pos - start),
    {
        if *pos >= data.len() {
            assert(uleb_extent(data@, start as int, (*pos - start) as nat) == Err::<
                nat,
                RecordError,
            >(RecordError::UnexpectedEnd(ValueKind::Uleb128)));
            return Err(RecordError::UnexpectedEnd(ValueKind::Uleb128));
        }
        let byte = data[*pos];
        let ghost k: nat = (*pos - start) as nat;
        let ghost before = data@.subrange(start as int, *pos as int);
        *pos = *pos + 1;
        let ghost groups = data@.subrange(start as int, *pos as int);
        let payload = (byte & 0x7f) as u64;
        proof {
            lemma2_to64();
            vstd::arithmetic::power2::lemma2_to64_rest();
            lemma_byte_bits(byte);
            assert(groups.drop_last() =~= before);
            assert(groups.len() == k + 1);
            assert(groups.last() == byte);
            if k == 0 {
                assert(before.len() == 0);
            }
            assert(data@.len() == data.len());
            assert(uleb_digits(groups.drop_last()) == result);
            assert((groups.last() % 128) as nat == payload);
            assert((7 * (groups.len() - 1)) as nat == shift as nat);
            assert(uleb_digits(groups) == result + payload * pow2(shift as nat));
            lemma_u64_pow2_no_overflow(shift as nat);
            lemma_u64_shl_is_mul(1, shift);
            lemma_or_shift_is_add(result, payload, shift);
            lemma_uleb_digits_bound(groups);
            if k < 9 {
                lemma_pow2_adds(shift as nat, 7);
                vstd::arithmetic::power2::lemma_pow2_strictly_increases((shift + 7) as nat, 64);
                assert(payload * pow2(shift as nat) <= uleb_digits(groups));
                lemma_u64_shl_is_mul(payload, shift);
            } else {
                lemma_top_group(payload);
                lemma_u64_shl_is_mul(payload % 2, 63);
                let q = payload / 2;
                let m = payload % 2;
                assert(payload == 2 * q + m);
                assert(payload * pow2(63) == q * pow2(64) + m * pow2(63)) by (nonlinear_arith)
                    requires
                        pow2(64) == 2 * pow2(63),
                        payload == 2 * q + m,
                ;
                vstd::arithmetic::div_mod::lemma_mod_multiples_vanish(
                    q as int,
                    result + (payload % 2) * pow2(63),
                    pow2(64) as int,
                );
                vstd::arithmetic::div_mod::lemma_small_mod(
                    (result + (payload % 2) * pow2(63)) as nat,
                    pow2(64),
                );
            }
        }
        result = result | (payload << shift);
        if byte & 0x80 == 0 {
            return Ok(result);
        }
        shift = shift + 7;
        if shift >= 64 {
            return Err(RecordError::UlebTooLarge);
        }
    }
}


// ---------------------------------------------------------------------------
// Strings
// ---------------------------------------------------------------------------

/// The text that `String::from_utf8_lossy` makes of `bytes`.
pub uninterp spec fn utf8_lossy(bytes: Seq<u8>) -> Seq<char>;

/// Whether every byte of `bytes` is ASCII.
pub open spec fn all_ascii(bytes: Seq<u8>) -> bool {
    forall|i: int| 0 <= i < bytes.len() ==> bytes[i] < 0x80
}

/// ASCII bytes read as the characters with the same code points.
pub open spec fn ascii_chars(bytes: Seq<u8>) -> Seq<char> {
    bytes.map_values(|b: u8| b as char)
}

/// Decodes `bytes` as UTF-8 with `String::from_utf8_lossy`, which puts U+FFFD in place of
/// each invalid sequence. Trusted: the result is the name `utf8_lossy` of the bytes; bytes
/// that are valid UTF-8 decode to the characters they encode (std returns the text itself,
/// borrowed, for valid input); and bytes that are all ASCII decode to the characters with
/// the same code points (ASCII is valid UTF-8 and encodes each character as its own code
/// point).
#[verifier::external_body]
fn decode_utf8_lossy(bytes: &[u8]) -> (text: String)
    ensures
        text@ == utf8_lossy(bytes@),
        valid_utf8(bytes@) ==> text@ == decode_utf8(bytes@),
        all_ascii(bytes@) ==> text@ == ascii_chars(bytes@),
{
    String::from_utf8_lossy(bytes).into_owned()
}

/// Reading a string at `pos`: an unsigned LEB128 length followed by that many bytes of
/// UTF-8, decoded lossily; and the position after it.
pub open spec fn string_spec(data: Seq<u8>, pos: int) -> Result<(Seq<char>, int), RecordError> {
    match uleb_spec(data, pos) {
        Err(e) => Err(e),
        Ok((len, start)) => if start + len > data.len() {
            Err(RecordError::StringTooLong(len))
        } else {
            Ok((utf8_lossy(data.subrange(start, start + len)), start + len))
        },
    }
}

/// The bytes of the string at `pos`: those that follow its LEB128 length, as many as it says.
pub open spec fn string_bytes(data: Seq<u8>, pos: int) -> Seq<u8> {
    match uleb_spec(data, pos) {
        Ok((len, start)) => data.subrange(start, start + len),
        Err(_) => Seq::empty(),
    }
}

/// Reads a string (an unsigned LEB128 byte count, then that many bytes of UTF-8) at `*pos`
/// and moves `*pos` past it.
pub fn read_string(data: &[u8], pos: &mut usize) -> (r: Result<String, RecordError>)
    ensures
        match string_spec(data@, *old(pos) as int) {
            Ok((text, end)) => r matches Ok(s) && s@ == text && *final(pos) == end,
            Err(e) => r == Err::<String, RecordError>(e),
        },
        r matches Ok(s) ==> (all_ascii(string_bytes(data@, *old(pos) as int)) ==> s@
            == ascii_chars(string_bytes(data@, *old(pos) as int))),
        r matches Ok(s) ==> (valid_utf8(string_bytes(data@, *old(pos) as int)) ==> s@
            == decode_utf8(string_bytes(data@, *old(pos) as int))),
        r is Ok ==> *final(pos) <= data@.len(),
        r is Err ==> *final(pos) == match uleb_spec(data@, *old(pos) as int) {
            Ok((_, start)) => start,
            Err(e) => uleb_stop(data@, *old(pos) as int, e),
        },
{
    let len = read_uleb(data, pos)?;
    let remaining = data.len() - *pos;
    if len > remaining as u64 {
        return Err(RecordError::StringTooLong(len));
    }
    let len = len as usize;
    let text = decode_utf8_lossy(vstd::slice::slice_subrange(data, *pos, *pos + len));
    *pos = *pos + len;
    Ok(text)
}

} // verus!
