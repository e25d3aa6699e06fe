//! Compression, checksums and numbers.

use fr_persist::crc64::crc64_redis;
use fr_persist::listpack_encode::parse_listpack_integer;
use fr_persist::lzf::{lzf_compress, lzf_decompress};

#[test]
fn parse_listpack_integer_matches_to_string_roundtrip() {
    fn oracle(entry: &[u8]) -> Option<i64> {
        if entry.is_empty() || entry.len() >= 21 {
            return None;
        }
        let value = std::str::from_utf8(entry).ok()?.parse::<i64>().ok()?;
        if value.to_string().as_bytes() == entry {
            Some(value)
        } else {
            None
        }
    }
    let mut cases: Vec<Vec<u8>> = vec![
        b"0".to_vec(),
        b"-0".to_vec(),
        b"00".to_vec(),
        b"007".to_vec(),
        b"+7".to_vec(),
        b"7".to_vec(),
        b"-7".to_vec(),
        b"123456789".to_vec(),
        b"-123456789".to_vec(),
        b"9223372036854775807".to_vec(),
        b"-9223372036854775808".to_vec(),
        b"9223372036854775808".to_vec(),
        b"99999999999999999999".to_vec(),
        b" 7".to_vec(),
        b"7 ".to_vec(),
        b"-".to_vec(),
        b"".to_vec(),
        b"1.0".to_vec(),
        b"0x10".to_vec(),
        b"1e3".to_vec(),
        b"\xff\x01".to_vec(),
    ];
    for n in [0i64, 1, -1, 42, -42, i64::MAX, i64::MIN, 1000000007] {
        cases.push(n.to_string().into_bytes());
    }
    for entry in &cases {
        assert_eq!(
            parse_listpack_integer(entry),
            oracle(entry),
            "mismatch for {entry:?}"
        );
    }
}

#[test]
fn lzf_decompresses_literal_runs() {
    let compressed = [4, b'h', b'e', b'l', b'l', b'o'];
    let decompressed = lzf_decompress(&compressed, 5).expect("literal decode");
    assert_eq!(decompressed, b"hello");
}

#[test]
fn lzf_decompress_never_panics_on_adversarial_input() {
    let cases: &[&[u8]] = &[
        &[],
        &[0x04, b'h', b'i'],
        &[0x1F],
        &[0x20, 0x00],
        &[0xE0, 0x00],
        &[0xE0, 0xFF],
        &[0xFF, 0xFF, 0xFF],
        &[0x04, b'a', b'b', b'c', b'd', b'e', 0x20, 0x00],
    ];
    for c in cases {
        for &elen in &[0u64, 1, 5, 64, 1_000_000, 600_000_000, u64::MAX] {
            let _ = lzf_decompress(c, elen);
        }
    }

    assert!(lzf_decompress(&[0x00, b'x'], 600_000_000).is_none());

    assert!(lzf_decompress(&[0x20, 0x00], 4).is_none());
}

#[test]
fn lzf_decompress_chunked_matches_bytewise_and_reports_ab_ratio() {
    fn ref_decompress(input: &[u8], expected_len: usize) -> Option<Vec<u8>> {
        let mut output = Vec::with_capacity(expected_len.min(8192));
        let mut cursor = 0usize;
        while cursor < input.len() && output.len() < expected_len {
            let ctrl = usize::from(*input.get(cursor)?);
            cursor += 1;
            if ctrl < 32 {
                let literal_len = ctrl + 1;
                let end = cursor.checked_add(literal_len)?;
                output.extend_from_slice(input.get(cursor..end)?);
                cursor = end;
                continue;
            }
            let mut copy_len = (ctrl >> 5) + 2;
            if copy_len == 9 {
                copy_len = copy_len.checked_add(usize::from(*input.get(cursor)?))?;
                cursor += 1;
            }
            let backref_low = usize::from(*input.get(cursor)?);
            cursor += 1;
            let backref = (((ctrl & 0x1F) << 8) | backref_low) + 1;
            if backref > output.len() {
                return None;
            }
            let copy_start = output.len() - backref;
            for idx in 0..copy_len {
                let byte = *output.get(copy_start + idx)?;
                output.push(byte);
            }
        }
        if cursor == input.len() && output.len() == expected_len {
            Some(output)
        } else {
            None
        }
    }

    let payloads: Vec<Vec<u8>> = vec![
        vec![b'a'; 4096],
        b"abcabcabcabc".iter().copied().cycle().take(8192).collect(),
        b"the quick brown fox "
            .iter()
            .copied()
            .cycle()
            .take(16384)
            .collect(),
        {
            let mut v = Vec::new();
            for i in 0..4000u32 {
                v.extend_from_slice(&(i % 7).to_le_bytes());
            }
            v
        },
    ];
    for p in &payloads {
        let c = lzf_compress(p, p.len().saturating_sub(1)).expect("payload should compress");

        let chunked = lzf_decompress(&c, p.len() as u64).expect("chunked decode");
        let bytewise = ref_decompress(&c, p.len()).expect("bytewise decode");
        assert_eq!(chunked, *p, "chunked round-trip");
        assert_eq!(chunked, bytewise, "chunked != bytewise");
    }
}

#[test]
fn lzf_decompresses_back_references() {
    let compressed = [2, b'a', b'b', b'c', 0x20, 0x02];
    let decompressed = lzf_decompress(&compressed, 6).expect("backref decode");
    assert_eq!(decompressed, b"abcabc");
}

#[test]
fn crc64_matches_redis_reference_vector() {
    assert_eq!(crc64_redis(b"123456789"), 0xe9c6_d914_c4b8_d9ca);
}

#[test]
fn crc64_slice_by_8_matches_bytewise_and_reports_ab_ratio() {
    fn bytewise(data: &[u8]) -> u64 {
        let table: Vec<u64> = (0..256u64)
            .map(|i| {
                (0..8).fold(i, |crc, _| {
                    if crc & 1 == 1 {
                        (crc >> 1) ^ 0x95ac_9329_ac4b_c9b5
                    } else {
                        crc >> 1
                    }
                })
            })
            .collect();
        let mut crc = 0u64;
        for &b in data {
            crc = (crc >> 8) ^ table[((crc as u8) ^ b) as usize];
        }
        crc
    }
    let mut state: u64 = 0x0123_4567_89AB_CDEF;
    let mut next = || {
        state ^= state << 13;
        state ^= state >> 7;
        state ^= state << 17;
        state
    };
    let mut buf: Vec<u8> = Vec::new();
    for len in 0..600usize {
        buf.clear();
        while buf.len() < len {
            buf.extend_from_slice(&next().to_ne_bytes());
        }
        buf.truncate(len);
        assert_eq!(crc64_redis(&buf), bytewise(&buf), "len={len}");
    }

    let n = 32 * 1024 * 1024;
    let mut big = vec![0u8; n];
    for (i, b) in big.iter_mut().enumerate() {
        *b = (i as u8).wrapping_mul(37).wrapping_add(11);
    }
    let expected = bytewise(&big);
    assert_eq!(crc64_redis(&big), expected);
}

#[test]
fn lzf_compress_round_trips_repetitive_payload() {
    let payload: Vec<u8> = b"ababababcdcdcdcdef"
        .iter()
        .copied()
        .cycle()
        .take(256)
        .collect();
    let compressed =
        lzf_compress(&payload, payload.len() - 4).expect("repetitive payload should compress");
    assert!(
        compressed.len() < payload.len(),
        "compressed size {} should be smaller than raw {}",
        compressed.len(),
        payload.len()
    );
    let restored = lzf_decompress(&compressed, payload.len() as u64).expect("decompress round-trip");
    assert_eq!(restored, payload);
}

#[test]
fn lzf_compress_round_trips_short_input() {
    for &input in &[
        &b"hello"[..],
        &b"aaaaaaaaaa"[..],
        &b"abcdefghijklmnopqrstuvwxyz0123456"[..],
        &b"abcdefghijklmnopqrstuvwxyz01234567"[..],
    ] {
        let budget = input.len() * 2 + 64;
        if let Some(compressed) = lzf_compress(input, budget) {
            let restored = lzf_decompress(&compressed, input.len() as u64)
                .unwrap_or_else(|| panic!("decompress {input:?}"));
            assert_eq!(restored, input, "round-trip mismatch on {input:?}");
        }
    }
}

#[test]
fn lzf_compress_round_trips_long_repetitive_payload() {
    let mut payload = Vec::with_capacity(4096);
    for _ in 0..512 {
        payload.extend_from_slice(b"frankenredis_lzf");
    }
    let compressed =
        lzf_compress(&payload, payload.len() - 4).expect("4096B repetitive should compress");
    assert!(compressed.len() < payload.len() / 4);
    let restored = lzf_decompress(&compressed, payload.len() as u64).expect("decompress");
    assert_eq!(restored, payload);
}

#[test]
fn lzf_compress_returns_none_when_budget_exceeded() {
    let payload: Vec<u8> = (0..20)
        .map(|i: u8| i.wrapping_mul(73).wrapping_add(31))
        .collect();
    let compressed = lzf_compress(&payload, payload.len() - 4);
    assert!(
        compressed.is_none(),
        "incompressible 20-byte payload should fail to fit in budget {}",
        payload.len() - 4
    );
}

#[test]
fn lzf_compress_matches_vendored_wire_format_for_all_xs_z4tsz() {
    let input: Vec<u8> = vec![b'x'; 30];
    let out =
        lzf_compress(&input, input.len() - 4).expect("compression of 30 x's must succeed");
    assert_eq!(
        out,
        vec![0x01, b'x', b'x', 0xe0, 0x11, 0x00, 0x01, b'x', b'x'],
        "the compressed form of 'x' * 30 is known byte for byte",
    );
}
