use chunkstore::codec::{codec_round_trip, decode, decode_bytes, decode_twice, encode, join, split, Chunk, EncodedChunk, MAX_RAW_CHUNK_SIZE};
use chunkstore::naming::{fmt_u64, make_chunk_name, parse_chunk_index, parse_u64};
use chunkstore::StoreError;

fn sample_bytes(n: usize) -> Vec<u8> {
    let mut v = Vec::with_capacity(n);
    for i in 0..n {
        v.push((i % 251) as u8);
    }
    v
}

#[test]
fn round_trip_small() {
    let bytes = sample_bytes(1000);
    let back = codec_round_trip(&bytes, 7);
    assert_eq!(back, bytes);
}

#[test]
fn round_trip_empty() {
    let bytes: Vec<u8> = Vec::new();
    let back = codec_round_trip(&bytes, 5);
    assert_eq!(back, bytes);
}

#[test]
fn round_trip_bound_larger_than_input() {
    let bytes = sample_bytes(10);
    let back = codec_round_trip(&bytes, 1000);
    assert_eq!(back, bytes);
}

#[test]
fn round_trip_pipeline_by_hand() {
    let bytes = sample_bytes(100);
    let chunks = split(&bytes, 9);
    let mut rebuilt: Vec<Chunk> = Vec::new();
    for c in &chunks {
        let e = encode(c);
        let back = decode(&e).expect("well-formed encoding must decode");
        assert_eq!(back.payload, c.payload);
        rebuilt.push(back);
    }
    let joined = join(&rebuilt).expect("contiguous indices must join");
    assert_eq!(joined, bytes);
}

#[test]
fn chunk_count_matches_ceiling() {
    assert_eq!(split(&sample_bytes(10), 3).len(), 4);
    assert_eq!(split(&sample_bytes(9), 3).len(), 3);
    assert_eq!(split(&sample_bytes(1), 3).len(), 1);
    assert_eq!(split(&sample_bytes(3), 3).len(), 1);
    assert_eq!(split(&sample_bytes(4), 3).len(), 2);
    assert_eq!(split(&Vec::new(), 3).len(), 0);
}

#[test]
fn chunk_sizes_full_then_remainder() {
    let chunks = split(&sample_bytes(10), 4);
    assert_eq!(chunks.len(), 3);
    assert_eq!(chunks[0].payload.len(), 4);
    assert_eq!(chunks[1].payload.len(), 4);
    assert_eq!(chunks[2].payload.len(), 2);
    assert_eq!(chunks[0].index, 0);
    assert_eq!(chunks[1].index, 1);
    assert_eq!(chunks[2].index, 2);
}

#[test]
fn join_rejects_missing_index() {
    let chunks = vec![
        Chunk { index: 0, payload: vec![1] },
        Chunk { index: 1, payload: vec![2] },
        Chunk { index: 3, payload: vec![3] },
    ];
    assert_eq!(join(&chunks), Err(StoreError::OrderError));
}

#[test]
fn join_rejects_duplicate_index() {
    let chunks = vec![
        Chunk { index: 0, payload: vec![1] },
        Chunk { index: 1, payload: vec![2] },
        Chunk { index: 1, payload: vec![2] },
    ];
    assert_eq!(join(&chunks), Err(StoreError::OrderError));
}

#[test]
fn join_of_nothing_is_empty() {
    let joined = join(&Vec::new()).expect("empty object joins to empty bytes");
    assert_eq!(joined, Vec::<u8>::new());
}

#[test]
fn decode_twice_is_identical() {
    let chunk = Chunk { index: 5, payload: b"some chunk payload".to_vec() };
    let e = encode(&chunk);
    let (first, second) = decode_twice(&e);
    let first = first.expect("decode");
    let second = second.expect("decode");
    assert_eq!(first.payload, second.payload);
    assert_eq!(first.payload, chunk.payload);
    assert_eq!(first.index, 5);
}

#[test]
fn decode_rejects_non_alphabet() {
    let e = EncodedChunk { index: 0, body: b"%%%%".to_vec() };
    assert!(matches!(decode(&e), Err(StoreError::CodecError)));
}

#[test]
fn decode_rejects_bad_padding() {
    assert!(matches!(decode_bytes(&b"A".to_vec()), Err(StoreError::CodecError)));
    assert!(matches!(decode_bytes(&b"AAAA=".to_vec()), Err(StoreError::CodecError)));
}

#[test]
fn encoded_size_is_four_thirds() {
    let chunk = Chunk { index: 0, payload: sample_bytes(9) };
    assert_eq!(encode(&chunk).body.len(), 12);
    let chunk = Chunk { index: 0, payload: sample_bytes(10) };
    assert_eq!(encode(&chunk).body.len(), 16);
}

#[test]
fn raw_chunk_bound_encodes_within_attachment_limit() {
    assert_eq!(MAX_RAW_CHUNK_SIZE, 18_874_368);
    assert_eq!(MAX_RAW_CHUNK_SIZE / 3 * 4, 25_165_824);
}

#[test]
fn fmt_u64_writes_decimal() {
    assert_eq!(fmt_u64(0), b"0".to_vec());
    assert_eq!(fmt_u64(7), b"7".to_vec());
    assert_eq!(fmt_u64(105), b"105".to_vec());
    assert_eq!(fmt_u64(u64::MAX), b"18446744073709551615".to_vec());
}

#[test]
fn parse_u64_reads_decimal() {
    assert_eq!(parse_u64(&b"0".to_vec()), Some(0));
    assert_eq!(parse_u64(&b"105".to_vec()), Some(105));
    assert_eq!(parse_u64(&b"00123".to_vec()), Some(123));
    assert_eq!(parse_u64(&b"18446744073709551615".to_vec()), Some(u64::MAX));
    assert_eq!(parse_u64(&b"18446744073709551616".to_vec()), None);
    assert_eq!(parse_u64(&b"".to_vec()), None);
    assert_eq!(parse_u64(&b"12a".to_vec()), None);
    assert_eq!(parse_u64(&b"-1".to_vec()), None);
}

#[test]
fn chunk_names_follow_pattern() {
    assert_eq!(make_chunk_name(&b"file".to_vec(), 0), b"file_0.txt".to_vec());
    assert_eq!(make_chunk_name(&b"video.mp4".to_vec(), 12), b"video.mp4_12.txt".to_vec());
    assert_eq!(make_chunk_name(&b"my_file_7".to_vec(), 3), b"my_file_7_3.txt".to_vec());
}

#[test]
fn chunk_index_recovered_from_name() {
    assert_eq!(parse_chunk_index(&b"file_12.txt".to_vec()), Some(12));
    assert_eq!(parse_chunk_index(&b"my_file_007.txt".to_vec()), Some(7));
    assert_eq!(parse_chunk_index(&make_chunk_name(&b"a_b_9".to_vec(), 31)), Some(31));
    assert_eq!(parse_chunk_index(&make_chunk_name(&b"".to_vec(), u64::MAX)), Some(u64::MAX));
}

#[test]
fn chunk_index_rejects_malformed_names() {
    assert_eq!(parse_chunk_index(&b"file.txt".to_vec()), None);
    assert_eq!(parse_chunk_index(&b"file_.txt".to_vec()), None);
    assert_eq!(parse_chunk_index(&b"file_12.bin".to_vec()), None);
    assert_eq!(parse_chunk_index(&b"file_12".to_vec()), None);
    assert_eq!(parse_chunk_index(&b"file_1x2.txt".to_vec()), None);
    assert_eq!(parse_chunk_index(&b"x_99999999999999999999999.txt".to_vec()), None);
    assert_eq!(parse_chunk_index(&b"".to_vec()), None);
}
