use vstd::prelude::*;
use vstd::arithmetic::power::pow;
use vstd::utf8::{encode_utf8, valid_utf8, decode_utf8, encode_utf8_valid_utf8, encode_utf8_decode_utf8};
use crate::bytes::{
    le_value, u8_spec, i8_spec, u16_spec, f32_bits_spec, i32_spec, i64_spec, uleb_spec,
    string_spec, string_bytes, utf8_lossy,
};
use crate::error::RecordError;
use crate::roundtrip::{uleb_encoding, lemma_uleb_encoding_reads_back};

verus! {

/// The `n` little-endian bytes of `v`: its base-256 digits, least significant first.
pub open spec fn le_bytes(v: nat, n: nat) -> Seq<u8>
    decreases n,
{
    if n == 0 {
        Seq::empty()
    } else {
        seq![(v % 256) as u8] + le_bytes(v / 256, (n - 1) as nat)
    }
}

/// The two's-complement value of `t` in `n` bytes: `t` itself when it is not negative,
/// `t + 256^n` when it is.
pub open spec fn twos_complement(t: int, n: nat) -> nat {
    if t >= 0 {
        t as nat
    } else {
        (t + pow(256, n)) as nat
    }
}

/// There are `n` little-endian bytes of any number.
pub proof fn lemma_le_bytes_len(v: nat, n: nat)
    ensures
        le_bytes(v, n).len() == n,
    decreases n,
{
    if n > 0 {
        lemma_le_bytes_len(v / 256, (n - 1) as nat);
    }
}

/// Little-endian bytes read back as the number they were made from.
proof fn lemma_le_bytes_value(v: nat, n: nat)
    requires
        v < pow(256, n),
    ensures
        le_bytes(v, n).len() == n,
        le_value(le_bytes(v, n)) == v,
    decreases n,
{
    reveal(pow);
    if n > 0 {
        let p = pow(256, (n - 1) as nat);
        assert(pow(256, n) == 256 * p);
        vstd::arithmetic::div_mod::lemma_fundamental_div_mod(v as int, 256);
        assert(v / 256 < p) by (nonlinear_arith)
            requires
                v == 256 * (v / 256) + v % 256,
                v % 256 >= 0,
                v < 256 * p,
        ;
        lemma_le_bytes_value(v / 256, (n - 1) as nat);
        let s = le_bytes(v, n);
        assert(s.drop_first() =~= le_bytes(v / 256, (n - 1) as nat));
        assert(s[0] == v % 256);
    }
}

/// The place of a value's bytes: `bytes` with anything before and after them.
proof fn lemma_bytes_in_place(before: Seq<u8>, bytes: Seq<u8>, rest: Seq<u8>)
    ensures
        (before + bytes + rest).subrange(before.len() as int, before.len() + bytes.len() as int)
            == bytes,
        (before + bytes + rest).len() == before.len() + bytes.len() + rest.len(),
{
    assert((before + bytes + rest).subrange(before.len() as int, before.len() + bytes.len() as int)
        =~= bytes);
}

proof fn lemma_powers()
    ensures
        pow(256, 1) == 0x100,
        pow(256, 2) == 0x1_0000,
        pow(256, 4) == 0x1_0000_0000,
        pow(256, 8) == 0x1_0000_0000_0000_0000,
{
    reveal_with_fuel(pow, 9);
}

/// The byte of any `u8`, wherever it stands, reads back as that `u8`.
pub proof fn lemma_u8_reads_back(v: u8, before: Seq<u8>, rest: Seq<u8>)
    ensures
        u8_spec(before + le_bytes(v as nat, 1) + rest, before.len() as int) == Ok::<
            (u8, int),
            RecordError,
        >((v, before.len() + 1int)),
{
    lemma_powers();
    lemma_le_bytes_value(v as nat, 1);
    lemma_bytes_in_place(before, le_bytes(v as nat, 1), rest);
}

/// The two's-complement byte of any `i8`, wherever it stands, reads back as that `i8`.
pub proof fn lemma_i8_reads_back(t: i8, before: Seq<u8>, rest: Seq<u8>)
    ensures
        i8_spec(before + le_bytes(twos_complement(t as int, 1), 1) + rest, before.len() as int)
            == Ok::<(i8, int), RecordError>((t, before.len() + 1int)),
{
    lemma_powers();
    lemma_le_bytes_value(twos_complement(t as int, 1), 1);
    lemma_bytes_in_place(before, le_bytes(twos_complement(t as int, 1), 1), rest);
}

/// The two little-endian bytes of any `u16`, wherever they stand, read back as that `u16`.
pub proof fn lemma_u16_reads_back(v: u16, before: Seq<u8>, rest: Seq<u8>)
    ensures
        u16_spec(before + le_bytes(v as nat, 2) + rest, before.len() as int) == Ok::<
            (u16, int),
            RecordError,
        >((v, before.len() + 2int)),
{
    lemma_powers();
    lemma_le_bytes_value(v as nat, 2);
    lemma_bytes_in_place(before, le_bytes(v as nat, 2), rest);
}

/// The four little-endian bytes of any `f32` bit pattern, wherever they stand, read back as
/// that bit pattern.
pub proof fn lemma_f32_bits_read_back(bits: u32, before: Seq<u8>, rest: Seq<u8>)
    ensures
        f32_bits_spec(before + le_bytes(bits as nat, 4) + rest, before.len() as int) == Ok::<
            (u32, int),
            RecordError,
        >((bits, before.len() + 4int)),
{
    lemma_powers();
    lemma_le_bytes_value(bits as nat, 4);
    lemma_bytes_in_place(before, le_bytes(bits as nat, 4), rest);
}

/// The four little-endian two's-complement bytes of any `i32`, wherever they stand, read
/// back as that `i32`.
pub proof fn lemma_i32_reads_back(t: i32, before: Seq<u8>, rest: Seq<u8>)
    ensures
        i32_spec(before + le_bytes(twos_complement(t as int, 4), 4) + rest, before.len() as int)
            == Ok::<(i32, int), RecordError>((t, before.len() + 4int)),
{
    lemma_powers();
    lemma_le_bytes_value(twos_complement(t as int, 4), 4);
    lemma_bytes_in_place(before, le_bytes(twos_complement(t as int, 4), 4), rest);
}

/// The eight little-endian two's-complement bytes of any `i64` (what `i64::to_le_bytes`
/// gives), wherever they stand, read back as that `i64`.
pub proof fn lemma_i64_reads_back(t: i64, before: Seq<u8>, rest: Seq<u8>)
    ensures
        i64_spec(before + le_bytes(twos_complement(t as int, 8), 8) + rest, before.len() as int)
            == Ok::<(i64, int), RecordError>((t, before.len() + 8int)),
{
    lemma_powers();
    lemma_le_bytes_value(twos_complement(t as int, 8), 8);
    lemma_bytes_in_place(before, le_bytes(twos_complement(t as int, 8), 8), rest);
}

/// A string written as the shortest LEB128 encoding of its byte count followed by its bytes
/// reads, wherever it stands, as the lossy UTF-8 decoding of all those bytes at once, and the
/// read ends right after them.
pub proof fn lemma_string_reads_back(bytes: Seq<u8>, before: Seq<u8>, rest: Seq<u8>)
    requires
        bytes.len() < 0x1_0000_0000_0000_0000,
    ensures
        ({
            let head = before + uleb_encoding(bytes.len());
            let data = head + bytes + rest;
            &&& string_spec(data, before.len() as int) == Ok::<(Seq<char>, int), RecordError>(
                (utf8_lossy(bytes), head.len() + bytes.len() as int),
            )
            &&& string_bytes(data, before.len() as int) == bytes
        }),
{
    let len = bytes.len() as u64;
    let head = before + uleb_encoding(bytes.len());
    let data = head + bytes + rest;
    lemma_uleb_encoding_reads_back(len, before, bytes + rest);
    assert(before + uleb_encoding(len as nat) + (bytes + rest) =~= data);
    lemma_bytes_in_place(head, bytes, rest);
}

/// The UTF-8 encoding of any text, framed as a string, is exactly what the string reader
/// decodes: valid UTF-8 that decodes back to the text. With the contract of `read_string`
/// (valid UTF-8 decodes to the characters it encodes), every text reads back as itself.
pub proof fn lemma_text_reads_back(text: Seq<char>, before: Seq<u8>, rest: Seq<u8>)
    requires
        encode_utf8(text).len() < 0x1_0000_0000_0000_0000,
    ensures
        ({
            let bytes = encode_utf8(text);
            let data = before + uleb_encoding(bytes.len()) + bytes + rest;
            &&& string_bytes(data, before.len() as int) == bytes
            &&& valid_utf8(string_bytes(data, before.len() as int))
            &&& decode_utf8(string_bytes(data, before.len() as int)) == text
        }),
{
    lemma_string_reads_back(encode_utf8(text), before, rest);
    encode_utf8_valid_utf8(text);
    encode_utf8_decode_utf8(text);
}

} // verus!
