//! The CRC-64 that closes snapshots: reflected Jones polynomial, no initial or
//! final complement.

use vstd::prelude::*;

verus! {

/// The polynomial, most significant bit first.
pub const CRC64_POLY: u64 = 0xAD93_D235_94C9_35A9;

/// The polynomial, least significant bit first.
pub const CRC64_REFLECTED_POLY: u64 = 0x95AC_9329_AC4B_C9B5;

/// Inputs below this length are folded byte by byte; building the tables would
/// cost more than it saves.
const CRC64_SLICE_MIN: usize = 4_096;

/// The two polynomial constants hold the same bits in opposite order.
pub proof fn law_polynomial_reflected(i: u64)
    requires
        i < 64,
    ensures
        (CRC64_REFLECTED_POLY >> i) & 1 == (CRC64_POLY >> ((63 - i) as u64)) & 1,
{
    let a = CRC64_REFLECTED_POLY;
    let b = CRC64_POLY;
    let j: u64 = (63 - i) as u64;
    assert((a >> i) & 1 == (b >> j) & 1) by (bit_vector)
        requires
            i < 64,
            j == 63 - i,
            a == 0x95AC_9329_AC4B_C9B5u64,
            b == 0xAD93_D235_94C9_35A9u64,
    ;
}

/// Takes one bit off the register.
pub open spec fn crc_bit(crc: u64) -> u64 {
    if crc & 1 == 1 {
        (crc >> 1) ^ CRC64_REFLECTED_POLY
    } else {
        crc >> 1
    }
}

/// Takes eight bits off the register.
pub open spec fn crc_fold(crc: u64) -> u64 {
    crc_bit(crc_bit(crc_bit(crc_bit(crc_bit(crc_bit(crc_bit(crc_bit(crc))))))))
}

/// The register after the bytes of `data`, starting from `crc`.
pub open spec fn crc_after(crc: u64, data: Seq<u8>) -> u64
    decreases data.len(),
{
    if data.len() == 0 {
        crc
    } else {
        crc_fold(crc_after(crc, data.drop_last()) ^ (data.last() as u64))
    }
}

/// The checksum of `data`.
pub open spec fn crc64(data: Seq<u8>) -> u64 {
    crc_after(0, data)
}

/// `n` times eight bits off the register.
spec fn fold_times(n: nat, crc: u64) -> u64
    decreases n,
{
    if n == 0 {
        crc
    } else {
        fold_times((n - 1) as nat, crc_fold(crc))
    }
}

proof fn lemma_bit_linear(a: u64, b: u64)
    ensures
        crc_bit(a ^ b) == crc_bit(a) ^ crc_bit(b),
{
    let p = CRC64_REFLECTED_POLY;
    assert((if (a ^ b) & 1 == 1 {
        ((a ^ b) >> 1) ^ p
    } else {
        (a ^ b) >> 1
    }) == (if a & 1 == 1 {
        (a >> 1) ^ p
    } else {
        a >> 1
    }) ^ (if b & 1 == 1 {
        (b >> 1) ^ p
    } else {
        b >> 1
    })) by (bit_vector);
}

pub proof fn lemma_fold_linear(a: u64, b: u64)
    ensures
        crc_fold(a ^ b) == crc_fold(a) ^ crc_fold(b),
{
    let (a1, b1) = (crc_bit(a), crc_bit(b));
    let (a2, b2) = (crc_bit(a1), crc_bit(b1));
    let (a3, b3) = (crc_bit(a2), crc_bit(b2));
    let (a4, b4) = (crc_bit(a3), crc_bit(b3));
    let (a5, b5) = (crc_bit(a4), crc_bit(b4));
    let (a6, b6) = (crc_bit(a5), crc_bit(b5));
    let (a7, b7) = (crc_bit(a6), crc_bit(b6));
    lemma_bit_linear(a, b);
    lemma_bit_linear(a1, b1);
    lemma_bit_linear(a2, b2);
    lemma_bit_linear(a3, b3);
    lemma_bit_linear(a4, b4);
    lemma_bit_linear(a5, b5);
    lemma_bit_linear(a6, b6);
    lemma_bit_linear(a7, b7);
}

pub proof fn lemma_fold_shift(x: u64)
    requires
        x % 256 == 0,
    ensures
        crc_fold(x) == x / 256,
{
    assert(x & 1 == 0 && (x >> 1) & 1 == 0 && (x >> 2) & 1 == 0 && (x >> 3) & 1 == 0 && (x >> 4) & 1
        == 0 && (x >> 5) & 1 == 0 && (x >> 6) & 1 == 0 && (x >> 7) & 1 == 0 && (x >> 1) >> 1 == x
        >> 2 && (x >> 2) >> 1 == x >> 3 && (x >> 3) >> 1 == x >> 4 && (x >> 4) >> 1 == x >> 5 && (x
        >> 5) >> 1 == x >> 6 && (x >> 6) >> 1 == x >> 7 && (x >> 7) >> 1 == x / 256)
        by (bit_vector)
        requires
            x % 256 == 0,
    ;
}

/// The low byte of the register is folded; the rest moves down.
proof fn lemma_fold_split(x: u64)
    ensures
        crc_fold(x) == (x / 256) ^ crc_fold(x % 256),
{
    let low: u64 = x % 256;
    let high: u64 = (x - x % 256) as u64;
    assert(high ^ low == x && high % 256 == 0 && high / 256 == x / 256) by (bit_vector)
        requires
            low == x % 256,
            high == x - x % 256,
    ;
    lemma_fold_linear(high, low);
    lemma_fold_shift(high);
}

proof fn lemma_fold_times_linear(n: nat, a: u64, b: u64)
    ensures
        fold_times(n, a ^ b) == fold_times(n, a) ^ fold_times(n, b),
    decreases n,
{
    if n > 0 {
        lemma_fold_linear(a, b);
        lemma_fold_times_linear((n - 1) as nat, crc_fold(a), crc_fold(b));
    }
}

proof fn lemma_fold_times_outer(n: nat, x: u64)
    ensures
        fold_times(n + 1, x) == crc_fold(fold_times(n, x)),
    decreases n,
{
    reveal_with_fuel(fold_times, 2);
    if n > 0 {
        lemma_fold_times_outer((n - 1) as nat, crc_fold(x));
    }
}

/// Takes eight bits off the register.
fn fold_byte(crc: u64) -> (r: u64)
    ensures
        r == crc_fold(crc),
{
    let mut c: u64 = crc;
    let mut k: usize = 0;
    while k < 8
        invariant
            k <= 8,
            k == 0 ==> c == crc,
            k == 1 ==> c == crc_bit(crc),
            k == 2 ==> c == crc_bit(crc_bit(crc)),
            k == 3 ==> c == crc_bit(crc_bit(crc_bit(crc))),
            k == 4 ==> c == crc_bit(crc_bit(crc_bit(crc_bit(crc)))),
            k == 5 ==> c == crc_bit(crc_bit(crc_bit(crc_bit(crc_bit(crc))))),
            k == 6 ==> c == crc_bit(crc_bit(crc_bit(crc_bit(crc_bit(crc_bit(crc)))))),
            k == 7 ==> c == crc_bit(crc_bit(crc_bit(crc_bit(crc_bit(crc_bit(crc_bit(crc))))))),
            k == 8 ==> c == crc_fold(crc),
        decreases 8 - k,
    {
        c = if c & 1 == 1 {
            (c >> 1) ^ CRC64_REFLECTED_POLY
        } else {
            c >> 1
        };
        k = k + 1;
    }
    c
}

/// Row `k` holds, for each byte, the register `k + 1` byte steps after the byte.
spec fn row_right(k: int, row: Seq<u64>) -> bool {
    &&& row.len() == 256
    &&& forall|n: int| 0 <= n < 256 ==> (#[trigger] row[n]) == fold_times((k + 1) as nat, n as u64)
}

/// Tables for folding sixteen bytes at a time: row `k` holds, for each byte, the
/// register `k + 1` byte steps after the byte.
#[derive(Debug)]
pub struct Crc64Tables {
    rows: Vec<Vec<u64>>,
}

impl Crc64Tables {
    /// Every row is complete and right.
    pub closed spec fn wf(self) -> bool {
        &&& self.rows@.len() == 16
        &&& forall|k: int| 0 <= k < 16 ==> row_right(k, (#[trigger] self.rows@[k])@)
    }

    /// Builds the tables.
    pub fn new() -> (tables: Crc64Tables)
        ensures
            tables.wf(),
    {
        let mut rows: Vec<Vec<u64>> = Vec::new();
        let mut k: usize = 0;
        while k < 16
            invariant
                k <= 16,
                rows@.len() == k,
                forall|j: int| 0 <= j < k ==> row_right(j, (#[trigger] rows@[j])@),
            decreases 16 - k,
        {
            let mut row: Vec<u64> = Vec::new();
            let mut n: usize = 0;
            while n < 256
                invariant
                    k < 16,
                    n <= 256,
                    row@.len() == n,
                    rows@.len() == k,
                    forall|j: int| 0 <= j < k ==> row_right(j, (#[trigger] rows@[j])@),
                    forall|m: int|
                        0 <= m < n ==> (#[trigger] row@[m]) == fold_times((k + 1) as nat, m as u64),
                decreases 256 - n,
            {
                let before: u64 = if k == 0 {
                    n as u64
                } else {
                    assert(row_right(k - 1, rows@[k - 1]@));
                    assert(rows@[k - 1]@[n as int] == fold_times(k as nat, n as u64));
                    rows[k - 1][n]
                };
                proof {
                    lemma_fold_times_outer(k as nat, n as u64);
                }
                row.push(fold_byte(before));
                n = n + 1;
            }
            rows.push(row);
            k = k + 1;
        }
        Crc64Tables { rows }
    }

    /// Folds sixteen bytes at `pos` into the register.
    fn fold_chunk(&self, crc: u64, data: &[u8], pos: usize) -> (r: u64)
        requires
            self.wf(),
            pos + 16 <= data@.len(),
        ensures
            r == crc_after(crc, data@.subrange(pos as int, pos + 16)),
    {
        let len: usize = data.len();
        let mut acc: u64 = 0;
        let mut rest: u64 = crc;
        let mut k: usize = 0;
        proof {
            crate::bytes::lemma_pow256_values();
            assert(data@.subrange(pos as int, pos as int) =~= Seq::<u8>::empty());
            let f = fold_times(16, crc);
            assert(0u64 ^ f == f) by (bit_vector);
        }
        while k < 16
            invariant
                self.wf(),
                k <= 16,
                pos + 16 <= data@.len() == len,
                acc ^ fold_times((16 - k) as nat, rest) == fold_times(
                    (16 - k) as nat,
                    crc_after(crc, data@.subrange(pos as int, pos + k)),
                ),
                rest < crate::bytes::pow256(
                    if k < 8 {
                        (8 - k) as nat
                    } else {
                        0
                    },
                ),
            decreases 16 - k,
        {
            let byte: u64 = data[pos + k] as u64;
            let low: u64 = rest % 256;
            assert(low ^ byte < 256) by (bit_vector)
                requires
                    low < 256,
                    byte < 256,
            ;
            let index: usize = (low ^ byte) as usize;
            let ghost m: nat = (16 - k) as nat;
            let ghost state = crc_after(crc, data@.subrange(pos as int, pos + k));
            let ghost acc0 = acc;
            assert(row_right(15 - k, self.rows@[15 - k]@));
            assert(self.rows@[15 - k]@[index as int] == fold_times(m, low ^ byte));
            acc = acc ^ self.rows[15 - k][index];
            proof {
                let more = data@.subrange(pos as int, pos + k + 1);
                assert(more.drop_last() =~= data@.subrange(pos as int, pos + k));
                assert(more.last() == data@[pos + k]);
                let high: u64 = rest / 256;
                lemma_fold_times_linear(m, low, byte);
                lemma_fold_times_linear(m, state, byte);
                lemma_fold_split(rest);
                lemma_fold_times_linear((m - 1) as nat, high, crc_fold(low));
                let t_low = fold_times(m, low);
                let t_byte = fold_times(m, byte);
                let t_high = fold_times((m - 1) as nat, high);
                let t_rest = fold_times(m, rest);
                let t_state = fold_times(m, state);
                assert(t_rest == t_high ^ t_low);
                assert((acc0 ^ (t_low ^ t_byte)) ^ t_high == t_state ^ t_byte) by (bit_vector)
                    requires
                        t_rest == t_high ^ t_low,
                        acc0 ^ t_rest == t_state,
                ;
                assert(fold_times((m - 1) as nat, crc_after(crc, more)) == t_state ^ t_byte);
            }
            rest = rest / 256;
            k = k + 1;
        }
        assert(rest == 0);
        assert(acc ^ 0u64 == acc) by (bit_vector);
        acc
    }
}

pub proof fn lemma_crc_after_split(crc: u64, left: Seq<u8>, right: Seq<u8>)
    ensures
        crc_after(crc, left + right) == crc_after(crc_after(crc, left), right),
    decreases right.len(),
{
    if right.len() == 0 {
        assert(left + right =~= left);
    } else {
        assert((left + right).drop_last() =~= left + right.drop_last());
        lemma_crc_after_split(crc, left, right.drop_last());
    }
}

/// The checksum of `data`.
pub fn crc64_redis(data: &[u8]) -> (crc: u64)
    ensures
        crc == crc64(data@),
{
    let len: usize = data.len();
    let mut crc: u64 = 0;
    let mut pos: usize = 0;
    assert(data@.take(0) =~= Seq::<u8>::empty());
    if len >= CRC64_SLICE_MIN {
        let tables = Crc64Tables::new();
        while len - pos >= 16
            invariant
                tables.wf(),
                pos <= len == data@.len(),
                crc == crc64(data@.take(pos as int)),
            decreases len - pos,
        {
            let ghost chunk = data@.subrange(pos as int, pos + 16);
            proof {
                lemma_crc_after_split(0, data@.take(pos as int), chunk);
                assert(data@.take(pos as int) + chunk =~= data@.take(pos + 16));
            }
            crc = tables.fold_chunk(crc, data, pos);
            pos = pos + 16;
        }
    }
    while pos < len
        invariant
            pos <= len == data@.len(),
            crc == crc64(data@.take(pos as int)),
        decreases len - pos,
    {
        assert(data@.take(pos + 1).drop_last() =~= data@.take(pos as int));
        crc = fold_byte(crc ^ (data[pos] as u64));
        pos = pos + 1;
    }
    assert(data@.take(len as int) =~= data@);
    crc
}

} // verus!
