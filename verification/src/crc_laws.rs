//! What the checksum is, apart from how it is computed.

use vstd::prelude::*;

use crate::bytes;
use crate::crc64;

verus! {

/// Two byte strings of one length, bit by bit.
pub open spec fn differ_by(a: Seq<u8>, b: Seq<u8>) -> Seq<u8> {
    Seq::new(a.len(), |i: int| a[i] ^ b[i])
}

/// The checksum of the difference of two byte strings is the difference of their checksums.
pub proof fn law_checksum_is_linear(a: Seq<u8>, b: Seq<u8>)
    requires
        a.len() == b.len(),
    ensures
        crc64::crc64(differ_by(a, b)) == crc64::crc64(a) ^ crc64::crc64(b),
    decreases a.len(),
{
    if a.len() == 0 {
        assert(0u64 ^ 0u64 == 0u64) by (bit_vector);
    } else {
        let d = differ_by(a, b);
        law_checksum_is_linear(a.drop_last(), b.drop_last());
        assert(d.drop_last() =~= differ_by(a.drop_last(), b.drop_last()));
        let x = crc64::crc64(a.drop_last());
        let y = crc64::crc64(b.drop_last());
        let p = a.last();
        let q = b.last();
        assert((x ^ y) ^ ((p ^ q) as u64) == (x ^ (p as u64)) ^ (y ^ (q as u64))) by (bit_vector);
        crc64::lemma_fold_linear(x ^ (p as u64), y ^ (q as u64));
    }
}

/// Zeros in front of a byte string do not change its checksum.
pub proof fn law_zeros_in_front(n: nat, s: Seq<u8>)
    ensures
        crc64::crc64(Seq::new(n, |i: int| 0u8) + s) == crc64::crc64(s),
    decreases n,
{
    let zeros = Seq::new(n, |i: int| 0u8);
    if n == 0 {
        assert(zeros + s =~= s);
    } else {
        let less = (n - 1) as nat;
        let fewer = Seq::new(less, |i: int| 0u8);
        law_zeros_in_front(less, Seq::empty());
        law_zeros_in_front(less, s);
        crc64::lemma_crc_after_split(0, zeros, s);
        assert(zeros.drop_last() =~= fewer + Seq::empty());
        assert(0u64 ^ 0u64 == 0u64) by (bit_vector);
        crc64::lemma_fold_shift(0);
        assert(crc64::crc64(Seq::empty()) == 0);
    }
}

proof fn lemma_own_bytes(c: u64, width: nat)
    ensures
        crc64::crc_after(c, bytes::le_bytes(c as nat, width)) == c as nat / bytes::pow256(width),
    decreases width,
{
    if width > 0 {
        let less = (width - 1) as nat;
        let low: u8 = (c as nat % 256) as u8;
        let head = seq![low];
        let next: u64 = c / 256;
        assert((c ^ (low as u64)) % 256 == 0 && (c ^ (low as u64)) / 256 == c / 256)
            by (bit_vector)
            requires
                low as u64 == c % 256,
        ;
        crc64::lemma_fold_shift(c ^ (low as u64));
        assert(head.drop_last() =~= Seq::empty());
        assert(crc64::crc_after(c, head.drop_last()) == c);
        assert(crc64::crc_after(c, head) == next);
        crc64::lemma_crc_after_split(c, head, bytes::le_bytes(next as nat, less));
        lemma_own_bytes(next, less);
        bytes::lemma_pow256_mono(0, less);
        vstd::arithmetic::div_mod::lemma_div_denominator(
            c as int,
            256,
            bytes::pow256(less) as int,
        );
        assert(bytes::le_bytes(c as nat, width) == head + bytes::le_bytes(next as nat, less));
        assert(bytes::pow256(width) == 256 * bytes::pow256(less));
        assert((c as nat) / 256 == next as nat);
    } else {
        assert(bytes::le_bytes(c as nat, 0) == Seq::<u8>::empty());
        assert(c as nat / 1 == c as nat);
    }
}

/// With its checksum behind it, the lowest byte first, every byte string has the checksum zero.
pub proof fn law_checksum_cancels(data: Seq<u8>)
    ensures
        crc64::crc64(data + bytes::le_bytes(crc64::crc64(data) as nat, 8)) == 0,
{
    let c = crc64::crc64(data);
    crc64::lemma_crc_after_split(0, data, bytes::le_bytes(c as nat, 8));
    lemma_own_bytes(c, 8);
    bytes::lemma_pow256_values();
}

/// A last bit alone has the polynomial as its checksum, however many zeros are in front of it.
pub proof fn law_last_bit(n: nat)
    ensures
        crc64::crc64(Seq::new(n, |i: int| 0u8) + seq![0x80u8]) == 0x95AC_9329_AC4B_C9B5,
{
    law_zeros_in_front(n, seq![0x80u8]);
    assert(seq![0x80u8].drop_last() =~= Seq::empty());
    assert(0u64 ^ 0x80u64 == 0x80u64 && 0x80u64 & 1 == 0 && 0x80u64 >> 1 == 0x40u64 && 0x40u64 & 1
        == 0 && 0x40u64 >> 1 == 0x20u64 && 0x20u64 & 1 == 0 && 0x20u64 >> 1 == 0x10u64 && 0x10u64
        & 1 == 0 && 0x10u64 >> 1 == 8u64 && 8u64 & 1 == 0 && 8u64 >> 1 == 4u64 && 4u64 & 1 == 0
        && 4u64 >> 1 == 2u64 && 2u64 & 1 == 0 && 2u64 >> 1 == 1u64 && 1u64 & 1 == 1 && (1u64 >> 1)
        ^ 0x95AC_9329_AC4B_C9B5u64 == 0x95AC_9329_AC4B_C9B5u64) by (bit_vector);
    assert(crc64::crc_after(0, seq![0x80u8].drop_last()) == 0);
    assert(seq![0x80u8].last() as u64 == 0x80u64);
    assert(crc64::crc_bit(0x80) == 0x40 && crc64::crc_bit(0x40) == 0x20 && crc64::crc_bit(0x20)
        == 0x10 && crc64::crc_bit(0x10) == 8 && crc64::crc_bit(8) == 4 && crc64::crc_bit(4) == 2
        && crc64::crc_bit(2) == 1);
    assert(crc64::crc_bit(1) == 0x95AC_9329_AC4B_C9B5);
}

/// The checksum goes on from one part to the next: byte strings with one checksum have one with
/// the same bytes behind them.
pub proof fn law_checksum_goes_on(a: Seq<u8>, b: Seq<u8>, rest: Seq<u8>)
    requires
        crc64::crc64(a) == crc64::crc64(b),
    ensures
        crc64::crc64(a + rest) == crc64::crc64(b + rest),
{
    crc64::lemma_crc_after_split(0, a, rest);
    crc64::lemma_crc_after_split(0, b, rest);
}

} // verus!
