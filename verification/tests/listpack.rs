//! Packed lists: their entries, spans and numbers.

use fr_persist::decimal::decimal_i64_bytes;
use fr_persist::listpack::{
    backlen_byte_count, bench_backlen_walk, decode_entry_value_span_into, decode_listpack,
    decode_retained_listpack_spans, decode_string_ranges_if_all_strings, decode_value_spans,
    entry_len_one_byte_backlen, entry_len_with_backlen, entry_len_with_backlen_orig, narrow_span,
    parse_header, ListpackEntry, ListpackError, ListpackIntegerBytes, ListpackValueSpan,
    RetainedListpackValueSpan, LISTPACK_EOF, LISTPACK_HDR_NUMELE_UNKNOWN, LISTPACK_HEADER_SIZE,
};
use fr_persist::listpack_encode::encode_listpack_strings_blob;
use fr_persist::listpack_members::{
    decode_zset_listpack_pairs, decode_zset_listpack_pairs_orig, decode_zset_spans_and_scores,
};
use fr_persist::score::RdbScore;

#[test]
fn entry_len_one_byte_backlen_matches_the_general_form_qj6jn() {

    let data: Vec<u8> = (0..600u32).map(|i| i as u8).collect();
    let mut checked = 0usize;
    for data_len in [0usize, 1, 2, 3, 4, 5, 9, 100, 126, 127] {
        let cursors: [usize; 12] =
            [0, 1, 2, 127, 128, 300, 597, 598, 599, 600, 601, usize::MAX];
        for cursor in cursors {
            assert_eq!(
                entry_len_one_byte_backlen(&data, cursor, data_len),
                entry_len_with_backlen(&data, cursor, data_len),
                "diverged at cursor {cursor}, data_len {data_len}"
            );
            checked += 1;
        }
        assert_eq!(
            entry_len_one_byte_backlen(&[], 0, data_len),
            entry_len_with_backlen(&[], 0, data_len),
            "diverged on an empty buffer at data_len {data_len}"
        );
        checked += 1;
    }
    assert!(checked >= 130, "corpus shrank to {checked} cases");
}

#[test]
fn listpack_integer_bytes_right_aligned_matches_the_relocating_form_qj6jn() {
    fn reference(value: i64) -> Vec<u8> {
        let digits = decimal_i64_bytes(value);
        let len = digits.len();
        let mut bytes = [0u8; 20];
        bytes[..len].copy_from_slice(&digits);
        bytes[..len].to_vec()
    }

    let mut values: Vec<i64> = vec![
        0,
        i64::MIN,
        i64::MAX,
        i64::MIN + 1,
        i64::MAX - 1,
        -1,
        1,
        10,
        -10,
        99,
        100,
        -99,
        -100,
    ];
    for p in 0..19u32 {
        let base = 10i64.saturating_pow(p);
        values.extend([base - 1, base, base + 1, -base, -(base - 1)]);
    }
    values.extend(-2000i64..2000);
    for v in values {
        let made = ListpackIntegerBytes::new(v);
        assert_eq!(
            made.as_slice(),
            reference(v).as_slice(),
            "right-aligned form diverged from the relocating form for {v}"
        );
        assert_eq!(
            made.as_slice(),
            v.to_string().as_bytes(),
            "rendered decimal is not the canonical text for {v}"
        );

        assert_eq!(
            made,
            ListpackIntegerBytes::new(v),
            "representation is not stable"
        );
    }
    assert_ne!(
        ListpackIntegerBytes::new(1),
        ListpackIntegerBytes::new(10),
        "distinct values must not compare equal"
    );
}

fn reference_decode_entry_value_span(
    data: &[u8],
    cursor: usize,
) -> Result<(ListpackValueSpan, usize), ListpackError> {
    let first = *data.get(cursor).ok_or(ListpackError::TruncatedEntry)?;

    if first & 0x80 == 0 {
        let value = i64::from(first & 0x7F);
        let entry_len = entry_len_with_backlen(data, cursor, 1)?;
        return Ok((ListpackValueSpan::integer(value), entry_len));
    }
    if first & 0xC0 == 0x80 {
        let slen = (first & 0x3F) as usize;
        let start = cursor + 1;
        let end = start
            .checked_add(slen)
            .ok_or(ListpackError::StringLengthOverflow)?;
        if end > data.len() {
            return Err(ListpackError::TruncatedEntry);
        }
        let entry_len = entry_len_with_backlen(data, cursor, 1 + slen)?;
        return Ok((
            ListpackValueSpan::String(narrow_span(start, end)?),
            entry_len,
        ));
    }
    if first & 0xE0 == 0xC0 {
        let second = *data.get(cursor + 1).ok_or(ListpackError::TruncatedEntry)?;
        let raw = (u16::from(first & 0x1F) << 8) | u16::from(second);
        let signed = if raw & 0x1000 != 0 {
            (raw as i64) - 0x2000
        } else {
            raw as i64
        };
        let entry_len = entry_len_with_backlen(data, cursor, 2)?;
        return Ok((ListpackValueSpan::integer(signed), entry_len));
    }
    if first & 0xF0 == 0xE0 {
        let second = *data.get(cursor + 1).ok_or(ListpackError::TruncatedEntry)?;
        let slen = ((u32::from(first & 0x0F) << 8) | u32::from(second)) as usize;
        let start = cursor + 2;
        let end = start
            .checked_add(slen)
            .ok_or(ListpackError::StringLengthOverflow)?;
        if end > data.len() {
            return Err(ListpackError::TruncatedEntry);
        }
        let entry_len = entry_len_with_backlen(data, cursor, 2 + slen)?;
        return Ok((
            ListpackValueSpan::String(narrow_span(start, end)?),
            entry_len,
        ));
    }
    match first {
        0xF0 => {
            if cursor + 5 > data.len() {
                return Err(ListpackError::TruncatedEntry);
            }
            let slen = u32::from_le_bytes([
                data[cursor + 1],
                data[cursor + 2],
                data[cursor + 3],
                data[cursor + 4],
            ]) as usize;
            let start = cursor + 5;
            let end = start
                .checked_add(slen)
                .ok_or(ListpackError::StringLengthOverflow)?;
            if end > data.len() {
                return Err(ListpackError::TruncatedEntry);
            }
            let entry_len = entry_len_with_backlen(data, cursor, 5 + slen)?;
            Ok((
                ListpackValueSpan::String(narrow_span(start, end)?),
                entry_len,
            ))
        }
        0xF1 => {
            if cursor + 3 > data.len() {
                return Err(ListpackError::TruncatedEntry);
            }
            let raw = i16::from_le_bytes([data[cursor + 1], data[cursor + 2]]);
            let entry_len = entry_len_with_backlen(data, cursor, 3)?;
            Ok((ListpackValueSpan::integer(i64::from(raw)), entry_len))
        }
        0xF2 => {
            if cursor + 4 > data.len() {
                return Err(ListpackError::TruncatedEntry);
            }
            let bytes = [data[cursor + 1], data[cursor + 2], data[cursor + 3], 0];
            let raw_u32 = u32::from_le_bytes(bytes);
            let signed = if raw_u32 & 0x00_80_00_00 != 0 {
                (raw_u32 as i64) - 0x0100_0000
            } else {
                raw_u32 as i64
            };
            let entry_len = entry_len_with_backlen(data, cursor, 4)?;
            Ok((ListpackValueSpan::integer(signed), entry_len))
        }
        0xF3 => {
            if cursor + 5 > data.len() {
                return Err(ListpackError::TruncatedEntry);
            }
            let raw = i32::from_le_bytes([
                data[cursor + 1],
                data[cursor + 2],
                data[cursor + 3],
                data[cursor + 4],
            ]);
            let entry_len = entry_len_with_backlen(data, cursor, 5)?;
            Ok((ListpackValueSpan::integer(i64::from(raw)), entry_len))
        }
        0xF4 => {
            if cursor + 9 > data.len() {
                return Err(ListpackError::TruncatedEntry);
            }
            let raw = i64::from_le_bytes([
                data[cursor + 1],
                data[cursor + 2],
                data[cursor + 3],
                data[cursor + 4],
                data[cursor + 5],
                data[cursor + 6],
                data[cursor + 7],
                data[cursor + 8],
            ]);
            let entry_len = entry_len_with_backlen(data, cursor, 9)?;
            Ok((ListpackValueSpan::integer(raw), entry_len))
        }
        _ => Err(ListpackError::InvalidEncoding(first)),
    }
}

fn assert_entry_arms_agree(data: &[u8], cursor: usize) {
    let (want_res, want_spans) = match reference_decode_entry_value_span(data, cursor) {
        Ok((span, consumed)) => (Ok(consumed), vec![span]),
        Err(err) => (Err(err), Vec::new()),
    };
    let mut got_spans: Vec<ListpackValueSpan> = Vec::new();
    let got_res = decode_entry_value_span_into(data, cursor, &mut got_spans);
    assert_eq!(
        (want_res, want_spans),
        (got_res, got_spans),
        "span decode arms diverged at cursor {cursor}"
    );
}

#[test]
fn inplace_span_decode_matches_reference_across_all_encodings() {

    let mut max6 = vec![0xBFu8];
    max6.extend(std::iter::repeat_n(b'q', 63));

    let bodies: Vec<(Vec<u8>, &str)> = vec![
        (vec![0x00], "7-bit uint 0"),
        (vec![0x7F], "7-bit uint 127"),
        (vec![0x80], "6-bit string, empty"),
        (vec![0x83, b'a', b'b', b'c'], "6-bit string 'abc'"),
        (max6, "6-bit string at max length 63"),
        (vec![0xC0, 0x00], "13-bit int 0"),
        (vec![0xDF, 0xFF], "13-bit int -1"),
        (vec![0xD0, 0x00], "13-bit int, sign bit set"),
        (vec![0xE0, 0x00], "12-bit string, empty"),
        (vec![0xE0, 0x02, b'h', b'i'], "12-bit string 'hi'"),
        (vec![0xF1, 0x00, 0x80], "int16 i16::MIN"),
        (vec![0xF1, 0xFF, 0x7F], "int16 i16::MAX"),
        (vec![0xF2, 0x00, 0x00, 0x80], "int24 min"),
        (vec![0xF2, 0xFF, 0xFF, 0x7F], "int24 max"),
        (vec![0xF3, 0x00, 0x00, 0x00, 0x80], "int32 i32::MIN"),
        (vec![0xF3, 0xFF, 0xFF, 0xFF, 0x7F], "int32 i32::MAX"),
        (
            vec![0xF4, 0x00, 0x00, 0x00, 0x00, 0x00, 0x00, 0x00, 0x80],
            "int64 i64::MIN",
        ),
        (
            vec![0xF4, 0xFF, 0xFF, 0xFF, 0xFF, 0xFF, 0xFF, 0xFF, 0x7F],
            "int64 i64::MAX",
        ),
        (vec![0xF0, 0x00, 0x00, 0x00, 0x00], "32-bit string, empty"),
        (
            vec![0xF0, 0x01, 0x00, 0x00, 0x00, b'z'],
            "32-bit string 'z'",
        ),
    ];
    for (body, label) in &bodies {

        let mut entry = body.clone();
        assert!(
            body.len() < 128,
            "test bodies stay in the 1-byte backlen range"
        );
        entry.push(body.len() as u8);
        assert_entry_arms_agree(&entry, 0);

        let mut got: Vec<ListpackValueSpan> = Vec::new();
        assert!(
            decode_entry_value_span_into(&entry, 0, &mut got).is_ok(),
            "{label} must decode, not be rejected"
        );
        assert_eq!(got.len(), 1, "{label} must yield exactly one span");
    }
}

#[test]
fn inplace_span_decode_matches_reference_on_malformed_entries() {
    let cases: Vec<(Vec<u8>, &str)> = vec![
        (vec![], "empty buffer"),
        (vec![0x00], "7-bit uint with the backlen byte missing"),
        (vec![0x00, 0x09], "7-bit uint with a WRONG backlen"),
        (vec![0x83, b'a'], "6-bit string truncated mid-payload"),
        (
            vec![0x83, b'a', b'b', b'c'],
            "6-bit string, backlen missing",
        ),
        (
            vec![0x83, b'a', b'b', b'c', 0x02],
            "6-bit string, wrong backlen",
        ),
        (vec![0xC0], "13-bit int missing its second byte"),
        (vec![0xE0], "12-bit string missing its length byte"),
        (vec![0xE0, 0xFF], "12-bit string length past the buffer"),
        (
            vec![0xF0, 0xFF, 0xFF, 0xFF, 0xFF],
            "32-bit string len u32::MAX",
        ),
        (vec![0xF0, 0x01, 0x00], "32-bit string header truncated"),
        (vec![0xF1, 0x00], "int16 truncated"),
        (vec![0xF2, 0x00, 0x00], "int24 truncated"),
        (vec![0xF3, 0x00, 0x00, 0x00], "int32 truncated"),
        (vec![0xF4, 0x00], "int64 truncated"),
        (vec![0xF5], "invalid encoding byte 0xF5"),
        (vec![0xFF], "the EOF terminator, decoded as an entry"),
    ];
    for (data, label) in &cases {
        assert_entry_arms_agree(data, 0);
        let mut sink: Vec<ListpackValueSpan> = Vec::new();
        assert!(
            decode_entry_value_span_into(data, 0, &mut sink).is_err(),
            "{label} must be rejected, not decoded"
        );
        assert!(sink.is_empty(), "{label} must leave the sink untouched");
    }

    let data = [0x83u8, b'a', b'b', b'c', 0x04];
    for cursor in 0..=data.len() + 2 {
        assert_entry_arms_agree(&data, cursor);
    }
}

#[test]
fn listpack_integer_bytes_matches_single_digit_reference() {
    fn reference(value: i64) -> Vec<u8> {
        let mut scratch = [0u8; 20];
        let mut magnitude = value.unsigned_abs();
        let mut start = scratch.len();
        if magnitude == 0 {
            start -= 1;
            scratch[start] = b'0';
        } else {
            while magnitude != 0 {
                start -= 1;
                scratch[start] = b'0' + (magnitude % 10) as u8;
                magnitude /= 10;
            }
        }
        if value < 0 {
            start -= 1;
            scratch[start] = b'-';
        }
        scratch[start..].to_vec()
    }
    let mut probes: Vec<i64> = vec![
        0,
        1,
        -1,
        9,
        -9,
        10,
        -10,
        99,
        -99,
        100,
        -100,
        i64::MAX,
        i64::MIN,
        i64::MAX - 1,
        i64::MIN + 1,
    ];
    let mut p: i64 = 1;
    while let Some(next) = p.checked_mul(10) {
        probes.push(p);
        probes.push(-p);
        p = next;
    }
    for &v in &probes {
        assert_eq!(
            ListpackIntegerBytes::new(v).as_slice(),
            reference(v).as_slice(),
            "decimal rendering of {v}"
        );
    }
}

#[test]
fn span_byte_len_and_first_byte_match_as_bytes_qj6jn() {
    let parts: Vec<Vec<u8>> = vec![
        entry_6bit_str(b""),
        entry_6bit_str(b"a"),
        entry_6bit_str(b"0123"),
        entry_6bit_str(b"vvvvvvvvvv"),
        entry_6bit_str(&[b'z'; 60]),
        entry_7bit_uint(0),
        entry_7bit_uint(9),
        entry_7bit_uint(127),
        entry_13bit_int(-4096),
        entry_13bit_int(4095),
        entry_32bit_int(i32::MIN),
        entry_32bit_int(2_147_483_647),
    ];
    let refs: Vec<&[u8]> = parts.iter().map(Vec::as_slice).collect();
    let lp = assemble(&refs);
    let spans = decode_value_spans(&lp).expect("the fixture must decode");
    assert_eq!(spans.len(), parts.len(), "fixture lost an entry");
    for span in &spans {
        let via_slice = span.as_bytes(&lp);
        assert_eq!(span.byte_len(), via_slice.len(), "byte_len disagreed");
        assert_eq!(
            span.first_byte(&lp),
            via_slice.first().copied(),
            "first_byte disagreed for {:?}",
            String::from_utf8_lossy(&via_slice[..via_slice.len().min(12)])
        );
    }

    assert!(
        spans.iter().any(ListpackValueSpan::is_string_encoded),
        "fixture produced no string span"
    );
    assert!(
        !spans.iter().all(ListpackValueSpan::is_string_encoded),
        "fixture produced no integer span"
    );

    assert!(
        spans.iter().any(|s| s.first_byte(&lp).is_none()),
        "fixture never exercised the empty-element arm"
    );
}

fn assemble(entries: &[&[u8]]) -> Vec<u8> {
    let total_entries_bytes: usize = entries.iter().map(|e| e.len()).sum();
    let total_bytes = (LISTPACK_HEADER_SIZE + total_entries_bytes + 1) as u32;
    let num_elements = entries.len().min(u16::MAX as usize) as u16;
    let mut out = Vec::with_capacity(total_bytes as usize);
    out.extend_from_slice(&total_bytes.to_le_bytes());
    out.extend_from_slice(&num_elements.to_le_bytes());
    for e in entries {
        out.extend_from_slice(e);
    }
    out.push(LISTPACK_EOF);
    out
}

fn entry_7bit_uint(v: u8) -> Vec<u8> {
    assert!(v <= 0x7F);
    vec![v, 1]
}

fn entry_6bit_str(s: &[u8]) -> Vec<u8> {
    assert!(s.len() <= 63);
    let data_len = 1 + s.len();
    let backlen_len = backlen_byte_count(data_len);
    let mut out = Vec::with_capacity(data_len + backlen_len);
    out.push(0x80 | (s.len() as u8));
    out.extend_from_slice(s);

    assert!(data_len <= 127);
    out.push(data_len as u8);
    out
}

fn entry_32bit_int(v: i32) -> Vec<u8> {
    let mut out = Vec::with_capacity(6);
    out.push(0xF3);
    out.extend_from_slice(&v.to_le_bytes());

    out.push(5);
    out
}

fn entry_13bit_int(v: i16) -> Vec<u8> {
    assert!((-4096..=4095).contains(&v));
    let raw: u16 = if v < 0 {
        (v as i32 + 0x2000) as u16
    } else {
        v as u16
    };
    let first = 0xC0u8 | ((raw >> 8) as u8 & 0x1F);
    let second = (raw & 0xFF) as u8;
    vec![first, second, 2]
}

#[test]
fn parse_header_reads_total_bytes_and_num_elements() {
    let lp = assemble(&[&entry_7bit_uint(3), &entry_7bit_uint(5)]);
    let (total, n) = parse_header(&lp).unwrap();
    assert_eq!(total, lp.len() as u32);
    assert_eq!(n, 2);
}

#[test]
fn backlen_fast_path_matches_loop_for_every_data_len() {

    fn encode_backlen(data_len: usize) -> Vec<u8> {

        if data_len <= 127 {
            vec![data_len as u8]
        } else {

            vec![(data_len >> 7) as u8, ((data_len & 127) | 128) as u8]
        }
    }
    for data_len in [1usize, 2, 5, 63, 64, 126, 127, 128, 129, 200, 500, 1000] {
        let mut buf = vec![0xEEu8; data_len];
        buf.extend_from_slice(&encode_backlen(data_len));
        assert_eq!(
            entry_len_with_backlen(&buf, 0, data_len),
            entry_len_with_backlen_orig(&buf, 0, data_len),
            "well-formed data_len={data_len}"
        );

        let mut bad = buf.clone();
        let backlen_start = data_len;
        bad[backlen_start] ^= 0x01;
        assert_eq!(
            entry_len_with_backlen(&bad, 0, data_len),
            entry_len_with_backlen_orig(&bad, 0, data_len),
            "corrupt data_len={data_len}"
        );
    }
}

#[test]
fn bench_backlen_walk_orig_and_new_agree_on_real_listpack() {

    let long = vec![b'x'; 200];
    let mut long_entry = Vec::new();

    long_entry.push(0xE0 | ((200u16 >> 8) as u8 & 0x0F));
    long_entry.push((200u16 & 0xFF) as u8);
    long_entry.extend_from_slice(&long);
    long_entry.push((202usize >> 7) as u8);
    long_entry.push(((202usize & 127) | 128) as u8);
    let lp = assemble(&[
        &entry_7bit_uint(7),
        &entry_6bit_str(b"hello"),
        &long_entry,
        &entry_32bit_int(-12345),
    ]);
    assert_eq!(
        bench_backlen_walk(&lp, true).unwrap(),
        bench_backlen_walk(&lp, false).unwrap()
    );

    assert_eq!(decode_listpack(&lp).unwrap().len(), 4);
}

#[test]
fn empty_listpack_decodes_to_no_entries() {
    let lp = assemble(&[]);
    assert_eq!(decode_listpack(&lp).unwrap(), Vec::<ListpackEntry>::new());
}

#[test]
fn decode_7bit_uint_entries() {
    let lp = assemble(&[
        &entry_7bit_uint(0),
        &entry_7bit_uint(42),
        &entry_7bit_uint(127),
    ]);
    let out = decode_listpack(&lp).unwrap();
    assert_eq!(
        out,
        vec![
            ListpackEntry::Integer(0),
            ListpackEntry::Integer(42),
            ListpackEntry::Integer(127),
        ]
    );
}

#[test]
fn decode_6bit_strings() {
    let lp = assemble(&[&entry_6bit_str(b"hello"), &entry_6bit_str(b"")]);
    let out = decode_listpack(&lp).unwrap();
    assert_eq!(
        out,
        vec![
            ListpackEntry::String(b"hello".to_vec()),
            ListpackEntry::String(b"".to_vec()),
        ]
    );
}

#[test]
fn decode_32bit_int_entries_signed() {
    let lp = assemble(&[&entry_32bit_int(100_000), &entry_32bit_int(-100_000)]);
    let out = decode_listpack(&lp).unwrap();
    assert_eq!(
        out,
        vec![
            ListpackEntry::Integer(100_000),
            ListpackEntry::Integer(-100_000),
        ]
    );
}

#[test]
fn decode_13bit_int_positive_and_negative() {
    let lp = assemble(&[
        &entry_13bit_int(4095),
        &entry_13bit_int(-4096),
        &entry_13bit_int(0),
    ]);
    let out = decode_listpack(&lp).unwrap();
    assert_eq!(
        out,
        vec![
            ListpackEntry::Integer(4095),
            ListpackEntry::Integer(-4096),
            ListpackEntry::Integer(0),
        ]
    );
}

#[test]
fn decode_12bit_and_32bit_str() {

    let s100 = vec![b'a'; 100];
    let mut e100 = Vec::new();
    e100.push(0xE0u8 | ((100u16 >> 8) as u8 & 0x0F));
    e100.push(100u8);
    e100.extend_from_slice(&s100);
    let data_len = 2 + 100;
    let backlen = backlen_byte_count(data_len);

    assert_eq!(backlen, 1);
    e100.push(data_len as u8);

    let s70k = vec![b'b'; 70_000];
    let mut e70k = Vec::new();
    e70k.push(0xF0u8);
    e70k.extend_from_slice(&(70_000u32).to_le_bytes());
    e70k.extend_from_slice(&s70k);
    let data_len_big = 5 + 70_000;
    let backlen_big = backlen_byte_count(data_len_big);

    assert_eq!(backlen_big, 3);

    e70k.push((data_len_big >> 14) as u8);
    e70k.push(((data_len_big >> 7) as u8 & 0x7F) | 0x80);
    e70k.push((data_len_big as u8 & 0x7F) | 0x80);

    let lp = assemble(&[&e100, &e70k]);
    let out = decode_listpack(&lp).unwrap();
    assert_eq!(out[0], ListpackEntry::String(s100));
    assert_eq!(out[1], ListpackEntry::String(s70k));
}

#[test]
fn decode_16_24_64_bit_ints() {

    let mut e16 = Vec::from([0xF1u8]);
    e16.extend_from_slice(&(12345_i16).to_le_bytes());
    e16.push(3);
    let mut e16n = Vec::from([0xF1u8]);
    e16n.extend_from_slice(&((-32_000_i16).to_le_bytes()));
    e16n.push(3);

    let mut e24 = Vec::from([0xF2u8]);
    let v24 = -1_000_000_i32;
    let bytes24 = v24.to_le_bytes();
    e24.extend_from_slice(&bytes24[0..3]);
    e24.push(4);

    let mut e64 = Vec::from([0xF4u8]);
    e64.extend_from_slice(&(i64::MIN.to_le_bytes()));
    e64.push(9);

    let lp = assemble(&[&e16, &e16n, &e24, &e64]);
    let out = decode_listpack(&lp).unwrap();
    assert_eq!(
        out,
        vec![
            ListpackEntry::Integer(12_345),
            ListpackEntry::Integer(-32_000),
            ListpackEntry::Integer(-1_000_000),
            ListpackEntry::Integer(i64::MIN),
        ]
    );
}

#[test]
fn invalid_terminator_rejected() {
    let mut lp = assemble(&[&entry_7bit_uint(3)]);
    *lp.last_mut().unwrap() = 0xAB;
    assert_eq!(decode_listpack(&lp), Err(ListpackError::MissingTerminator));
}

#[test]
fn mismatched_backlen_rejected() {
    let mut lp = assemble(&[&entry_6bit_str(b"hello")]);
    let backlen_idx = lp.len() - 2;
    assert_eq!(lp[backlen_idx], 6);
    lp[backlen_idx] = 1;
    assert_eq!(decode_listpack(&lp), Err(ListpackError::InvalidBacklen));
}

#[test]
fn short_header_rejected() {
    let lp = vec![0, 0, 0];
    assert_eq!(decode_listpack(&lp), Err(ListpackError::ShortHeader));
}

#[test]
fn total_bytes_exceeding_buffer_rejected() {
    let mut lp = assemble(&[&entry_7bit_uint(3)]);

    lp[0..4].copy_from_slice(&(1_000_000u32).to_le_bytes());
    assert_eq!(
        decode_listpack(&lp),
        Err(ListpackError::TotalBytesOutOfRange)
    );
}

#[test]
fn total_bytes_smaller_than_buffer_rejected() {
    let mut lp = assemble(&[&entry_7bit_uint(3)]);
    lp.push(0);
    assert_eq!(decode_listpack(&lp), Err(ListpackError::TotalBytesMismatch));
}

#[test]
fn element_count_mismatch_rejected_unless_unknown_sentinel() {
    let mut lp = assemble(&[&entry_7bit_uint(3), &entry_7bit_uint(5)]);
    lp[4..6].copy_from_slice(&1u16.to_le_bytes());
    assert_eq!(
        decode_listpack(&lp),
        Err(ListpackError::ElementCountMismatch)
    );

    lp[4..6].copy_from_slice(&LISTPACK_HDR_NUMELE_UNKNOWN.to_le_bytes());
    assert_eq!(
        decode_listpack(&lp).unwrap(),
        vec![ListpackEntry::Integer(3), ListpackEntry::Integer(5)]
    );
}

#[test]
fn decode_string_ranges_borrows_string_payloads() {
    let first = entry_6bit_str(b"alpha");
    let second = entry_6bit_str(b"beta");
    let lp = assemble(&[&first, &second]);
    let ranges = decode_string_ranges_if_all_strings(&lp)
        .unwrap()
        .expect("all entries are strings");
    let borrowed: Vec<&[u8]> = ranges.iter().map(|range| &lp[range.clone()]).collect();
    assert_eq!(borrowed, vec![b"alpha".as_slice(), b"beta".as_slice()]);
}

#[test]
fn integer_span_value_and_rendered_bytes_agree_as_f64() {
    for value in [
        0i64,
        1,
        -1,
        42,
        -42,
        9_007_199_254_740_992,
        9_007_199_254_740_993,
        -9_007_199_254_740_993,
        i64::MAX,
        i64::MIN,
    ] {
        let span = ListpackValueSpan::integer(value);
        assert_eq!(span.as_i64(), Some(value), "as_i64 for {value}");

        let rendered = span.as_bytes(&[]);
        assert_eq!(
            rendered,
            value.to_string().as_bytes(),
            "rendered decimal for {value}"
        );

        let via_parse: f64 = std::str::from_utf8(rendered)
            .expect("decimal render is ascii")
            .parse()
            .expect("decimal render parses");
                let via_value = value as f64;
        assert_eq!(
            via_value.to_bits(),
            via_parse.to_bits(),
            "the two score routes must produce the identical f64 for {value}"
        );
    }

    let lp = assemble(&[&entry_6bit_str(b"1.5")]);
    let spans = decode_value_spans(&lp).expect("decodes");
    assert_eq!(spans[0].as_i64(), None, "string spans have no integer");
    assert_eq!(spans[0].as_bytes(&lp), b"1.5");
}

#[test]
fn zset_span_decode_agrees_with_the_general_decoder() {

    let lp = assemble(&[
        &entry_6bit_str(b"alpha"),
        &entry_7bit_uint(7),
        &entry_7bit_uint(42),
        &entry_6bit_str(b"1.5"),
        &entry_6bit_str(b"omega"),
        &entry_13bit_int(-9),
    ]);

    let general = decode_value_spans(&lp).expect("general decode");
    let zset = decode_zset_spans_and_scores(&lp).expect("zset decode");
    assert_eq!(zset.len() * 2, general.len(), "one pair per two entries");

    for (i, (member, score)) in zset.iter().enumerate() {
        assert_eq!(
            member.as_bytes(&lp),
            general[i * 2].as_bytes(&lp),
            "member {i} must match the general decoder byte for byte"
        );
        let reference: f64 = std::str::from_utf8(general[i * 2 + 1].as_bytes(&lp))
            .expect("score text is ascii")
            .parse()
            .expect("score text parses");
        assert_eq!(
            value_of(score).to_bits(),
            reference.to_bits(),
            "score {i} must equal what parsing the rendered decimal gives"
        );
    }
    assert_eq!(value_of(&zset[0].1), 7.0);
    assert_eq!(value_of(&zset[1].1), 1.5);
    assert_eq!(value_of(&zset[2].1), -9.0);
    assert_eq!(
        zset[1].0.as_bytes(&lp),
        b"42",
        "integer members still render"
    );

    let odd = assemble(&[
        &entry_6bit_str(b"alpha"),
        &entry_7bit_uint(7),
        &entry_6bit_str(b"x"),
    ]);
    assert!(
        decode_zset_spans_and_scores(&odd).is_err(),
        "odd element count must be rejected"
    );
}

#[test]
fn decode_string_ranges_returns_none_for_integer_node() {
    let lp = assemble(&[&entry_6bit_str(b"alpha"), &entry_7bit_uint(42)]);
    assert_eq!(decode_string_ranges_if_all_strings(&lp).unwrap(), None);
}

#[test]
fn listpack_value_span_stays_small() {
    assert!(
        std::mem::size_of::<ListpackValueSpan>() <= 32,
        "ListpackValueSpan grew to {} bytes; decode_value_spans pays about one \
         instruction per byte per listpack entry, so this is a direct RESTORE \
         regression ",
        std::mem::size_of::<ListpackValueSpan>()
    );

    println!(
        "ListpackValueSpan = {} bytes",
        std::mem::size_of::<ListpackValueSpan>()
    );
}

#[test]
fn retained_listpack_spans_keep_integer_arena_with_compact_string_entries_gvm6z() {
    let blob = encode_listpack_strings_blob(&[
        b"alpha".as_slice(),
        b"-17".as_slice(),
        b"-9223372036854775808".as_slice(),
        b"9223372036854775807".as_slice(),
        b"omega".as_slice(),
    ])
    .expect("fixture encodes");
    let retained = decode_retained_listpack_spans(&blob).expect("fixture decodes");
    let generic = decode_value_spans(&blob).expect("generic decoder accepts fixture");

    assert!(
        std::mem::size_of::<RetainedListpackValueSpan>() <= 12,
        "retained span is {} bytes",
        std::mem::size_of::<RetainedListpackValueSpan>()
    );
    assert_eq!(retained.entries().len(), generic.len());
    let values: Vec<&[u8]> = retained
        .entries()
        .iter()
        .map(|span| span.as_bytes(&blob, retained.integer_bytes()))
        .collect();
    let expected: Vec<&[u8]> = generic.iter().map(|span| span.as_bytes(&blob)).collect();
    assert_eq!(values, expected, "retained and generic decoders diverged");
    assert_eq!(
        retained.integer_bytes(),
        b"-17-92233720368547758089223372036854775807"
    );
    assert!(retained.entries()[0].is_string_encoded());
    assert!(!retained.entries()[1].is_string_encoded());
    assert_eq!(
        retained.entries()[2].byte_len(),
        20,
        "i64::MIN must retain every decimal digit"
    );
    assert_eq!(
        retained.entries()[3].byte_len(),
        19,
        "i64::MAX must retain every decimal digit"
    );
}

#[test]
fn narrow_span_rejects_offsets_beyond_u32_instead_of_truncating() {
    let over = u32::MAX as usize + 1;
    assert_eq!(
        narrow_span(0, over),
        Err(ListpackError::StringLengthOverflow),
        "an end offset past u32::MAX must be rejected, not wrapped to 0"
    );
    assert_eq!(
        narrow_span(over, over + 8),
        Err(ListpackError::StringLengthOverflow),
        "a start offset past u32::MAX must be rejected"
    );

    assert_eq!(
        narrow_span(0, u32::MAX as usize),
        Ok(0..u32::MAX),
        "u32::MAX is representable and must be accepted"
    );
}

#[test]
fn decode_value_spans_borrows_strings_and_formats_ints() {
    let lp = assemble(&[
        &entry_6bit_str(b"alpha"),
        &entry_7bit_uint(42),
        &entry_13bit_int(-17),
        &entry_32bit_int(100_000),
        &entry_6bit_str(b"omega"),
    ]);
    let spans = decode_value_spans(&lp).unwrap();
    let values: Vec<&[u8]> = spans.iter().map(|span| span.as_bytes(&lp)).collect();
    assert_eq!(
        values,
        vec![b"alpha".as_slice(), b"42", b"-17", b"100000", b"omega",]
    );
    assert!(matches!(spans[0], ListpackValueSpan::String(_)));
    assert!(matches!(spans[1], ListpackValueSpan::Integer(_)));
}

#[test]
fn to_bytes_converts_int_to_decimal_string() {
    assert_eq!(ListpackEntry::Integer(42).to_bytes(), b"42".to_vec());
    assert_eq!(ListpackEntry::Integer(-1).to_bytes(), b"-1".to_vec());
    assert_eq!(
        ListpackEntry::Integer(i64::MIN).to_bytes(),
        b"-9223372036854775808".to_vec()
    );
    assert_eq!(
        ListpackEntry::Integer(i64::MAX).to_bytes(),
        b"9223372036854775807".to_vec()
    );
    assert_eq!(
        ListpackEntry::String(b"hello".to_vec()).to_bytes(),
        b"hello".to_vec()
    );
}

#[test]
fn into_bytes_moves_string_payload_and_formats_ints() {
    assert_eq!(ListpackEntry::Integer(42).into_bytes(), b"42".to_vec());
    assert_eq!(
        ListpackEntry::Integer(i64::MIN).into_bytes(),
        b"-9223372036854775808".to_vec()
    );
    assert_eq!(
        ListpackEntry::String(b"hello".to_vec()).into_bytes(),
        b"hello".to_vec()
    );
}

fn value_of(score: &RdbScore) -> f64 {
    match score {
        RdbScore::Double { bits, .. } => f64::from_bits(*bits),
        RdbScore::Integer(v) => *v as f64,
        RdbScore::Decimal(text) => std::str::from_utf8(text)
            .expect("score text is ascii")
            .parse()
            .expect("score text parses"),
    }
}

fn zpair_bits(pairs: &[(Vec<u8>, RdbScore)]) -> Vec<(Vec<u8>, u64)> {
    pairs
        .iter()
        .map(|(m, s)| (m.clone(), value_of(s).to_bits()))
        .collect()
}

#[test]
fn zset_listpack_pairs_matches_orig_and_is_bit_exact() {

    let lp = assemble(&[
        &entry_6bit_str(b"m000"),
        &entry_7bit_uint(0),
        &entry_6bit_str(b"m001"),
        &entry_6bit_str(b"1.5"),
        &entry_6bit_str(b"m002"),
        &entry_13bit_int(-42),
        &entry_6bit_str(b"m003"),
        &entry_6bit_str(b"inf"),
        &entry_6bit_str(b"m004"),
        &entry_32bit_int(1_000_000),
        &entry_6bit_str(b"m005"),
        &entry_6bit_str(b"-2.5"),
        &entry_7bit_uint(7),
        &entry_6bit_str(b"1.375"),
    ]);
    let new = decode_zset_listpack_pairs(&lp).expect("new decode");
    let other = decode_zset_listpack_pairs_orig(&lp).expect("second reading");
    assert_eq!(zpair_bits(&new), zpair_bits(&other), "the two readings differ");
    assert_eq!(new[3].0, b"m003");
    assert!(value_of(&new[3].1).is_infinite() && value_of(&new[3].1) > 0.0);
    assert_eq!(new[6].0, b"7");
    assert_eq!(value_of(&new[6].1), 1.375);
}

#[test]
fn zset_listpack_pairs_empty_is_ok_empty() {
    let lp = assemble(&[]);
    assert!(decode_zset_listpack_pairs(&lp).unwrap().is_empty());
    assert!(decode_zset_listpack_pairs_orig(&lp).unwrap().is_empty());
}

#[test]
fn zset_listpack_pairs_rejects_same_inputs_as_orig() {

    let odd = assemble(&[
        &entry_6bit_str(b"m0"),
        &entry_7bit_uint(1),
        &entry_6bit_str(b"m1"),
    ]);
    assert_eq!(
        decode_zset_listpack_pairs(&odd),
        Err(ListpackError::ElementCountMismatch),
        "a known odd header must fail before member materialization"
    );
    assert!(decode_zset_listpack_pairs_orig(&odd).is_err());

    let bad = assemble(&[&entry_6bit_str(b"m0"), &entry_6bit_str(b"not_a_number")]);
    assert!(decode_zset_listpack_pairs(&bad).is_err());
    assert!(decode_zset_listpack_pairs_orig(&bad).is_err());

    let mut trunc = assemble(&[&entry_6bit_str(b"m0"), &entry_7bit_uint(1)]);
    trunc.pop();
    assert!(decode_zset_listpack_pairs(&trunc).is_err());
    assert!(decode_zset_listpack_pairs_orig(&trunc).is_err());
}

#[test]
fn zset_listpack_pairs_matches_orig_on_encoder_built_blob() {

    let mut refs: Vec<Vec<u8>> = Vec::new();
    for i in 0..200i64 {
        refs.push(format!("m{i:04}:tag").into_bytes());
        if i % 3 == 0 {
            refs.push(format!("{}", i - 100).into_bytes());
        } else {
            refs.push(format!("{}", (i as f64) * 1.5 + 0.125).into_bytes());
        }
    }
    let slices: Vec<&[u8]> = refs.iter().map(Vec::as_slice).collect();
    let lp = encode_listpack_strings_blob(&slices).expect("encode zset lp");
    let new = decode_zset_listpack_pairs(&lp).expect("new");
    let other = decode_zset_listpack_pairs_orig(&lp).expect("second reading");
    assert_eq!(zpair_bits(&new), zpair_bits(&other));
    assert_eq!(new.len(), 200);
}

#[test]
fn integer_entry_fraction_is_workload_dependent_gvm6z() {
    fn split(entries: &[&[u8]]) -> (usize, usize) {
        let blob = encode_listpack_strings_blob(entries).expect("fixture encodes");
        let spans = decode_value_spans(&blob).expect("fixture decodes");
        assert_eq!(spans.len(), entries.len(), "one span per entry");
        let ints = spans
            .iter()
            .filter(|s| matches!(s, ListpackValueSpan::Integer(_)))
            .count();
        (ints, spans.len())
    }

    assert_eq!(
        split(&[b"alice", b"bob", b"carol", b"dave", b"erin", b"frank"]),
        (0, 6),
        "no entry of a name list is integer-encoded"
    );

    assert_eq!(
        split(&[b"hits", b"41", b"misses", b"7", b"evictions", b"0"]),
        (3, 6),
        "a counter hash integer-encodes its values and not its fields"
    );

    assert_eq!(
        split(&[
            b"1",
            b"2",
            b"3",
            b"100",
            b"-9223372036854775808",
            b"9223372036854775807"
        ]),
        (6, 6),
        "every entry of an id list is integer-encoded"
    );

    let blob = encode_listpack_strings_blob(&[
        b"-9223372036854775808".as_slice(),
        b"9223372036854775807".as_slice(),
    ])
    .expect("extremes encode");
    let spans = decode_value_spans(&blob).expect("extremes decode");
    assert_eq!(spans[0].as_bytes(&blob), b"-9223372036854775808");
    assert_eq!(spans[1].as_bytes(&blob), b"9223372036854775807");
    assert_eq!(spans[0].byte_len(), 20, "i64::MIN renders to 20 bytes");
}
