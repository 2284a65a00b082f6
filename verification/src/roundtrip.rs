use vstd::prelude::*;
use vstd::arithmetic::power2::{pow2, lemma_pow2_adds, lemma2_to64, lemma_pow2_strictly_increases};
use crate::bytes::{uleb_digits, uleb_extent, uleb_spec};
use crate::error::RecordError;

verus! {

/// The shortest unsigned LEB128 encoding of `v`: seven bits per byte, least significant
/// group first, the continuation bit (0x80) set on every byte but the last.
pub open spec fn uleb_encoding(v: nat) -> Seq<u8>
    decreases v,
{
    if v < 128 {
        seq![v as u8]
    } else {
        seq![(v % 128 + 128) as u8] + uleb_encoding(v / 128)
    }
}

/// Putting a byte in front of LEB128 groups shifts them up by one group.
proof fn lemma_digits_prepend(b: u8, s: Seq<u8>)
    ensures
        uleb_digits(seq![b] + s) == (b % 128) as nat + 128 * uleb_digits(s),
    decreases s.len(),
{
    lemma2_to64();
    let t = seq![b] + s;
    if s.len() == 0 {
        assert(t.drop_last() =~= Seq::<u8>::empty());
        assert(t.last() == b);
        assert(uleb_digits(t.drop_last()) == 0);
        assert(pow2(0) == 1);
        vstd::arithmetic::mul::lemma_mul_basics((b % 128) as int);
        assert(uleb_digits(t) == (b % 128) as nat);
    } else {
        let n = s.len();
        assert(t.drop_last() =~= seq![b] + s.drop_last());
        assert(t.last() == s.last());
        lemma_digits_prepend(b, s.drop_last());
        lemma_pow2_adds((7 * (n - 1)) as nat, 7);
        let p = pow2((7 * (n - 1)) as nat);
        let c = (s.last() % 128) as nat;
        let a = uleb_digits(s.drop_last());
        assert(pow2((7 * n) as nat) == 128 * p);
        assert(c * (128 * p) == 128 * (c * p)) by (nonlinear_arith);
        assert(uleb_digits(s) == a + c * p);
        assert(uleb_digits(t.drop_last()) == (b % 128) as nat + 128 * a);
        assert(uleb_digits(t) == uleb_digits(t.drop_last()) + c * pow2((7 * n) as nat));
        assert(128 * (a + c * p) == 128 * a + 128 * (c * p)) by (nonlinear_arith);
    }
}

/// The encoding is not empty; every byte but the last carries the continuation bit and the
/// last does not.
proof fn lemma_encoding_shape(v: nat)
    ensures
        uleb_encoding(v).len() >= 1,
        uleb_encoding(v)[uleb_encoding(v).len() - 1] < 0x80,
        forall|j: int| 0 <= j < uleb_encoding(v).len() - 1 ==> uleb_encoding(v)[j] >= 0x80,
    decreases v,
{
    if v >= 128 {
        lemma_encoding_shape(v / 128);
        let tail = uleb_encoding(v / 128);
        let e = uleb_encoding(v);
        assert(e =~= seq![(v % 128 + 128) as u8] + tail);
        assert forall|j: int| 0 <= j < e.len() - 1 implies e[j] >= 0x80 by {
            if j > 0 {
                assert(e[j] == tail[j - 1]);
            }
        }
    }
}

/// The encoding's groups spell `v`.
proof fn lemma_encoding_digits(v: nat)
    ensures
        uleb_digits(uleb_encoding(v)) == v,
    decreases v,
{
    lemma2_to64();
    if v < 128 {
        let e = uleb_encoding(v);
        assert(e.drop_last() =~= Seq::<u8>::empty());
        assert(e.last() == v);
        assert(uleb_digits(e.drop_last()) == 0);
        vstd::arithmetic::mul::lemma_mul_basics((v % 128) as int);
        assert(uleb_digits(e) == v % 128);
    } else {
        let r = v % 128;
        let b = (r + 128) as u8;
        assert(b == r + 128);
        assert(b % 128 == r);
        lemma_encoding_digits(v / 128);
        lemma_digits_prepend(b, uleb_encoding(v / 128));
        assert(uleb_encoding(v) == seq![b] + uleb_encoding(v / 128));
        vstd::arithmetic::div_mod::lemma_fundamental_div_mod(v as int, 128);
    }
}

/// A number below 2^(7k) takes at most `k` bytes.
proof fn lemma_encoding_length(v: nat, k: nat)
    requires
        k >= 1,
        v < pow2(7 * k),
    ensures
        uleb_encoding(v).len() <= k,
    decreases v,
{
    lemma2_to64();
    if v >= 128 {
        if k == 1 {
            assert(pow2(7) == 128);
        }
        let p = pow2((7 * (k - 1)) as nat);
        lemma_pow2_adds((7 * (k - 1)) as nat, 7);
        assert(pow2(7 * k) == 128 * p);
        vstd::arithmetic::div_mod::lemma_fundamental_div_mod(v as int, 128);
        assert(v / 128 < p) by (nonlinear_arith)
            requires
                v == 128 * (v / 128) + v % 128,
                v % 128 >= 0,
                v < 128 * p,
        ;
        lemma_encoding_length(v / 128, (k - 1) as nat);
    }
}

/// Reading LEB128 bytes from the `i`-th byte of an encoding finds its end.
proof fn lemma_encoding_extent(before: Seq<u8>, enc: Seq<u8>, rest: Seq<u8>, i: nat)
    requires
        1 <= enc.len() <= 10,
        i < enc.len(),
        enc[enc.len() - 1] < 0x80,
        forall|j: int| 0 <= j < enc.len() - 1 ==> enc[j] >= 0x80,
    ensures
        uleb_extent(before + enc + rest, before.len() as int, i) == Ok::<nat, RecordError>(
            enc.len(),
        ),
    decreases enc.len() - i,
{
    let data = before + enc + rest;
    assert(data[before.len() + i as int] == enc[i as int]);
    if i + 1 < enc.len() {
        lemma_encoding_extent(before, enc, rest, i + 1);
    }
}

/// Whatever comes before and after it, the shortest LEB128 encoding of any `u64` reads back
/// as that number, and the read ends right after the encoding.
pub proof fn lemma_uleb_encoding_reads_back(v: u64, before: Seq<u8>, rest: Seq<u8>)
    ensures
        uleb_spec(before + uleb_encoding(v as nat) + rest, before.len() as int) == Ok::<
            (u64, int),
            RecordError,
        >((v, before.len() + uleb_encoding(v as nat).len() as int)),
{
    let enc = uleb_encoding(v as nat);
    let data = before + enc + rest;
    let start = before.len() as int;
    lemma2_to64();
    lemma_pow2_strictly_increases(64, 70);
    lemma_encoding_length(v as nat, 10);
    lemma_encoding_shape(v as nat);
    lemma_encoding_extent(before, enc, rest, 0);
    assert(data.subrange(start, start + enc.len()) =~= enc);
    lemma_encoding_digits(v as nat);
    vstd::arithmetic::div_mod::lemma_small_mod(v as nat, 0x1_0000_0000_0000_0000);
}

} // verus!
