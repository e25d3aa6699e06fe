//! What is rejected, and why.

use fr_persist::aof::{decode_aof_stream, decode_aof_stream_with_offsets};
use fr_persist::listpack::{
    bench_decode_value_spans, decode_listpack, decode_retained_listpack_spans, decode_value_spans,
    ListpackError,
};
use fr_persist::listpack_encode::encode_listpack_strings_blob;
use fr_persist::listpack_members::{
    decode_zset_listpack_pairs, decode_zset_spans_and_scores, member_could_be_int,
    set_listpack_shape, zset_listpack_shape, SetListpackShape, ZsetListpackShape,
};
use fr_persist::manifest::{is_aof_manifest_basename, parse_aof_manifest};
use fr_persist::persist_error::PersistError;
use fr_persist::rdb_compact::{
    encode_quicklist2_packed_payload, listpack_blob_header_matches, quicklist2_node_count,
};
use fr_persist::rdb_load::decode_rdb;
use fr_persist::rdb_stream::{
    decode_upstream_stream_skeleton, UpstreamStreamError, UpstreamStreamSkeleton,
    UPSTREAM_RDB_TYPE_STREAM_LISTPACKS,
};
use fr_persist::rdb_types::{RdbEntry, RdbValue};
use fr_persist::rdb_values::rdb_load_legacy_double;
use fr_persist::rdb_wire::{rdb_encode_length, rdb_encode_string};
use fr_persist::resp::RespParseError;
use fr_persist::score::RdbScore;
use fr_persist::ziplist::{decode_ziplist, decode_zipmap};

fn parse_error(data: &[u8]) -> RespParseError {
    match decode_aof_stream(data) {
        Err(PersistError::Parse(e)) => e,
        other => panic!("expected a parse error, got {other:?}"),
    }
}

#[test]
fn frames_are_rejected_for_their_reasons() {
    assert_eq!(parse_error(b"*1\r\n$3\r\nab"), RespParseError::Incomplete);
    assert_eq!(parse_error(b"hello\r\n"), RespParseError::InvalidPrefix(b'h'));
    assert_eq!(parse_error(b"*x\r\n"), RespParseError::InvalidInteger);
    assert_eq!(parse_error(b"*1\r\n+\xff\r\n"), RespParseError::InvalidUtf8);
    assert_eq!(parse_error(b"*1\r\n$-2\r\n"), RespParseError::InvalidBulkLength);
    assert_eq!(parse_error(b"*-2\r\n"), RespParseError::InvalidMultibulkLength);
    assert_eq!(parse_error(b"*1\r\n$1073741825\r\n"), RespParseError::BulkLengthTooLarge);
    assert_eq!(parse_error(b"*10485761\r\n"), RespParseError::MultibulkLengthTooLarge);
    assert_eq!(parse_error(b"*1\r\n$1\r\nabc"), RespParseError::InvalidTerminator);
    let deep = b"*1\r\n".repeat(70);
    assert_eq!(parse_error(&deep), RespParseError::RecursionLimitExceeded);
}

#[test]
fn frames_that_are_no_records_are_rejected() {
    for data in [
        b"*0\r\n".as_slice(),
        b"*-1\r\n",
        b"+PING\r\n",
        b":3\r\n",
        b"*1\r\n$-1\r\n",
        b"*1\r\n-ERR\r\n",
        b"*1\r\n*0\r\n",
    ] {
        assert_eq!(decode_aof_stream(data), Err(PersistError::InvalidFrame), "{data:?}");
    }
    let records = decode_aof_stream_with_offsets(b"*3\r\n+SET\r\n:-12\r\n$0\r\n\r\n").expect("ok");
    assert_eq!(
        records[0].record.argv,
        vec![b"SET".to_vec(), b"-12".to_vec(), b"".to_vec()]
    );
}

fn pack(entries: &[&[u8]], count: u16) -> Vec<u8> {
    let body: Vec<u8> = entries.concat();
    let mut out = ((body.len() + 7) as u32).to_le_bytes().to_vec();
    out.extend_from_slice(&count.to_le_bytes());
    out.extend_from_slice(&body);
    out.push(0xFF);
    out
}

#[test]
fn packs_are_rejected_for_their_reasons() {
    let cases: Vec<(Vec<u8>, ListpackError)> = vec![
        (vec![0; 5], ListpackError::ShortHeader),
        (pack(&[&[0x90]], 1), ListpackError::TruncatedEntry),
        (pack(&[&[0xF5, 1]], 1), ListpackError::InvalidEncoding(0xF5)),
        (pack(&[&[5, 2]], 1), ListpackError::InvalidBacklen),
        (pack(&[&[5, 1]], 2), ListpackError::ElementCountMismatch),
    ];
    for (data, error) in cases {
        assert_eq!(decode_listpack(&data), Err(error));
        assert_eq!(decode_value_spans(&data), Err(error));
        assert_eq!(decode_retained_listpack_spans(&data), Err(error));
        assert_eq!(bench_decode_value_spans::<true>(&data), Err(error));
        assert_eq!(bench_decode_value_spans::<false>(&data), Err(error));
    }
}

#[test]
fn pack_errors_have_texts() {
    assert_eq!(ListpackError::ShortHeader.message(), "listpack shorter than 6-byte header");
    assert_eq!(
        ListpackError::InvalidEncoding(0xF5).message(),
        "listpack invalid encoding byte 0xf5"
    );
    assert_eq!(
        ListpackError::InvalidScore.message(),
        "listpack zset score entry is not a valid f64"
    );
}

#[test]
fn scores_are_rejected_for_their_reasons() {
    let word = encode_listpack_strings_blob(&[b"m".as_slice(), b"word"]).expect("pack");
    assert_eq!(decode_zset_listpack_pairs(&word), Err(ListpackError::InvalidScore));
    assert_eq!(decode_zset_spans_and_scores(&word), Err(ListpackError::TruncatedEntry));
    let nan = encode_listpack_strings_blob(&[b"m".as_slice(), b"nan"]).expect("pack");
    assert_eq!(
        decode_zset_listpack_pairs(&nan),
        Ok(vec![(b"m".to_vec(), RdbScore::Decimal(b"nan".to_vec()))])
    );
    assert_eq!(decode_zset_spans_and_scores(&nan), Err(ListpackError::TruncatedEntry));
}

#[test]
fn shapes_say_what_packs_look_like() {
    let zset = encode_listpack_strings_blob(&[b"aa".as_slice(), b"1", b"bbbb", b"2.5"])
        .expect("pack");
    assert_eq!(
        zset_listpack_shape(&zset),
        Ok(ZsetListpackShape { pair_count: 2, max_member_len: 4, has_duplicate_member: false })
    );
    let twice = encode_listpack_strings_blob(&[b"aa".as_slice(), b"1", b"aa", b"2"]).expect("pack");
    assert!(zset_listpack_shape(&twice).expect("shape").has_duplicate_member);
    let set = encode_listpack_strings_blob(&[b"x".as_slice(), b"yyy", b"x"]).expect("pack");
    assert_eq!(
        set_listpack_shape(&set),
        Ok(SetListpackShape {
            member_count: 3,
            max_member_len: 3,
            has_duplicate_member: true,
            has_possible_int_member: false,
        })
    );
    let number = encode_listpack_strings_blob(&[b"x".as_slice(), b"7"]).expect("pack");
    assert!(set_listpack_shape(&number).expect("shape").has_possible_int_member);
    assert!(member_could_be_int(b"-17"));
    assert!(!member_could_be_int(b"x"));
}

#[test]
fn retained_spans_come_apart() {
    let blob = encode_listpack_strings_blob(&[b"a".as_slice(), b"12", b""]).expect("pack");
    let spans = decode_retained_listpack_spans(&blob).expect("decode");
    assert!(!spans.is_empty());
    let firsts: Vec<Option<u8>> = spans
        .entries()
        .iter()
        .map(|span| span.first_byte(&blob, spans.integer_bytes()))
        .collect();
    assert_eq!(firsts, vec![Some(b'a'), Some(b'1'), None]);
    let (entries, integers) = spans.into_parts();
    assert_eq!(entries.len(), 3);
    assert_eq!(integers, b"12");
}

fn stream_error(data: &[u8]) -> UpstreamStreamError {
    decode_upstream_stream_skeleton(UPSTREAM_RDB_TYPE_STREAM_LISTPACKS, data)
        .expect_err("the stream is wrong")
}

fn one_node(pack: &[u8]) -> Vec<u8> {
    let mut buf = Vec::new();
    rdb_encode_length(&mut buf, 1);
    rdb_encode_string(&mut buf, &[0; 16]);
    rdb_encode_string(&mut buf, pack);
    for _ in 0..4 {
        rdb_encode_length(&mut buf, 0);
    }
    buf
}

fn ints(values: &[&[u8]]) -> Vec<u8> {
    encode_listpack_strings_blob(values).expect("pack")
}

#[test]
fn streams_are_rejected_for_their_reasons() {
    assert_eq!(stream_error(&[]), UpstreamStreamError::InvalidLength);
    assert_eq!(stream_error(&[1, 5]), UpstreamStreamError::InvalidString);
    assert_eq!(stream_error(&[1, 1, 9]), UpstreamStreamError::InvalidNodekeyLength);
    assert_eq!(
        stream_error(&one_node(b"junk")),
        UpstreamStreamError::InvalidListpack(ListpackError::ShortHeader)
    );
    assert_eq!(stream_error(&one_node(&ints(&[b"1"]))), UpstreamStreamError::ShortListpackEntries);
    assert_eq!(
        stream_error(&one_node(&ints(&[b"word"]))),
        UpstreamStreamError::ExpectedListpackInteger
    );
    assert_eq!(
        stream_error(&one_node(&ints(&[b"-1"]))),
        UpstreamStreamError::InvalidFieldCount
    );
    assert_eq!(
        stream_error(&one_node(&ints(&[b"1", b"0", b"0", b"0"]))),
        UpstreamStreamError::InconsistentEntryCount
    );
    assert_eq!(
        stream_error(&one_node(&ints(&[b"0", b"0", b"0", b"1"]))),
        UpstreamStreamError::InconsistentEntryTrailer
    );
    assert_eq!(
        UpstreamStreamSkeleton::decode(14, &[]).err(),
        Some(UpstreamStreamError::UnsupportedTypeByte(14))
    );
}

#[test]
fn manifests_are_rejected_for_their_reasons() {
    let reason = |text: &str| match parse_aof_manifest(text) {
        Err(PersistError::ManifestParseViolation { line, reason }) => (line, reason),
        other => panic!("expected a violation, got {other:?}"),
    };
    assert_eq!(reason("# only a comment\n").1, "empty manifest");
    assert_eq!(reason("file a seq 1 type b\nfile a seq 1 type x\n").0, 2);
    assert_eq!(reason("file a file b seq 1 type b\n"), (1, "duplicate file field"));
    assert_eq!(reason("file a seq 1 seq 2 type b\n"), (1, "duplicate seq field"));
    assert_eq!(
        parse_aof_manifest("file a/b seq 1 type b\n"),
        Err(PersistError::ManifestPathViolation { line: 1, file_name: "a/b".to_string() })
    );
    assert!(is_aof_manifest_basename("a.aof"));
    assert!(!is_aof_manifest_basename("a\\b"));
}

#[test]
fn older_scores_are_read() {
    let bare = |bits: u64| RdbScore::Double { bits, text: Vec::new() };
    assert_eq!(
        rdb_load_legacy_double(&[255], 0),
        Some((bare(f64::NEG_INFINITY.to_bits()), 1))
    );
    assert_eq!(rdb_load_legacy_double(&[254], 0), Some((bare(f64::INFINITY.to_bits()), 1)));
    assert_eq!(rdb_load_legacy_double(&[253], 0), Some((bare(f64::NAN.to_bits()), 1)));
    assert_eq!(
        rdb_load_legacy_double(b"\x04 1.5", 0),
        Some((RdbScore::Decimal(b"1.5".to_vec()), 5))
    );
    assert_eq!(rdb_load_legacy_double(b"\x03abc", 0), None);
    assert_eq!(rdb_load_legacy_double(b"\x05abc", 0), None);
    assert_eq!(rdb_load_legacy_double(&[], 0), None);
}

#[test]
fn older_packs_are_read() {
    let ziplist = [13u8, 0, 0, 0, 10, 0, 0, 0, 1, 0, 0, 0xF8, 0xFF];
    assert_eq!(decode_ziplist(&ziplist), Some(vec![b"7".to_vec()]));
    assert_eq!(decode_ziplist(&ziplist[..12]), None);
    let zipmap = [1u8, 1, b'k', 1, 0, b'v', 0xFF];
    assert_eq!(decode_zipmap(&zipmap), Some(vec![b"k".to_vec(), b"v".to_vec()]));
    assert_eq!(decode_zipmap(&zipmap[..6]), None);
}

#[test]
fn nodes_of_lists_are_counted() {
    let items: Vec<Vec<u8>> = (0..10).map(|_| vec![b'x'; 10]).collect();
    assert_eq!(quicklist2_node_count(&items, 8192), 1);
    assert_eq!(quicklist2_node_count(&items, 7 + 24), 5);
    assert_eq!(quicklist2_node_count(&[], 8192), 0);
    let blob = encode_listpack_strings_blob(&[b"a".as_slice()]).expect("pack");
    assert!(listpack_blob_header_matches(&blob));
    assert!(!listpack_blob_header_matches(&blob[1..]));
    let payload = encode_quicklist2_packed_payload(&[blob.clone()]);
    assert_eq!(payload[0], 1);
    assert_eq!(payload[1], 2);
    assert_eq!(payload[2] as usize, blob.len());
    assert_eq!(payload[3..], blob[..]);
}

#[test]
fn an_entry_that_cannot_be_read_fails_the_snapshot() {
    let mut data = b"REDIS0003".to_vec();
    data.extend_from_slice(&[0xFE, 2, 0xFD, 1, 0, 0, 0, 3]);
    rdb_encode_string(&mut data, b"z");
    rdb_encode_length(&mut data, 1);
    rdb_encode_string(&mut data, b"m");
    data.extend_from_slice(b"\x032.5");
    data.push(0xFF);
    let (entries, aux) = decode_rdb(&data).expect("an old snapshot has no checksum");
    assert!(aux.is_empty());
    assert_eq!(
        entries,
        vec![RdbEntry {
            db: 2,
            key: b"z".to_vec(),
            value: RdbValue::SortedSet(vec![(
                b"m".to_vec(),
                RdbScore::Decimal(b"2.5".to_vec())
            )]),
            expire_ms: Some(1000),
        }]
    );
    let mut cut = data.clone();
    cut.truncate(data.len() - 3);
    cut.push(0xFF);
    assert_eq!(decode_rdb(&cut), Err(PersistError::InvalidFrame));
}
