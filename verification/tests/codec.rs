use starcode_align::codec::{parse_count, split_bytes, split_ws_tokens};
use starcode_align::{decode_output, encode_set, split_line, AlignError, WeightedSequenceSet};

#[test]
fn encode_single_entry_exact_bytes() {
    let mut set = WeightedSequenceSet::new();
    set.insert(b"AB".to_vec(), 3);
    assert_eq!(encode_set(&set), b"AB\t3\n".to_vec());
}

#[test]
fn encode_empty_set_is_empty_stream() {
    let set = WeightedSequenceSet::new();
    assert_eq!(encode_set(&set), Vec::<u8>::new());
}

#[test]
fn encode_multi_digit_weight() {
    let mut set = WeightedSequenceSet::new();
    set.insert(b"ACGT".to_vec(), 120);
    assert_eq!(encode_set(&set), b"ACGT\t120\n".to_vec());
}

#[test]
fn round_trip_preserves_mapping() {
    let mut set = WeightedSequenceSet::new();
    set.insert(b"ACGT".to_vec(), 2);
    set.insert(b"TTTT".to_vec(), 7);
    let encoded = encode_set(&set);
    let alignment = decode_output(&encoded).unwrap();
    assert_eq!(alignment.cluster_centers, vec![b"ACGT".to_vec(), b"TTTT".to_vec()]);
    assert_eq!(alignment.cluster_count, vec![2, 7]);
    assert_eq!(alignment.cluster_members, vec![Vec::<Vec<u8>>::new(), Vec::<Vec<u8>>::new()]);
}

#[test]
fn decode_empty_stream_yields_zero_clusters() {
    let alignment = decode_output(b"").unwrap();
    assert_eq!(alignment.cluster_centers.len(), 0);
    assert_eq!(alignment.cluster_count.len(), 0);
    assert_eq!(alignment.cluster_members.len(), 0);
}

#[test]
fn decode_missing_count_token_fails() {
    assert!(matches!(decode_output(b"AAAA\n"), Err(AlignError::FormatError)));
}

#[test]
fn decode_empty_center_fails() {
    assert!(matches!(decode_output(b" \n"), Err(AlignError::FormatError)));
    assert!(matches!(decode_output(b"\nAAAA 1\n"), Err(AlignError::FormatError)));
}

#[test]
fn decode_present_but_empty_member_pieces() {
    let alignment = decode_output(b"AAAA 5 ,\n").unwrap();
    assert_eq!(alignment.cluster_members, vec![vec![Vec::<u8>::new(), Vec::<u8>::new()]]);
}

#[test]
fn decode_member_list_splits_on_commas() {
    let alignment = decode_output(b"XYZ 2 ab,cd\n").unwrap();
    assert_eq!(alignment.cluster_centers, vec![b"XYZ".to_vec()]);
    assert_eq!(alignment.cluster_count, vec![2]);
    assert_eq!(alignment.cluster_members, vec![vec![b"ab".to_vec(), b"cd".to_vec()]]);
}

#[test]
fn decode_count_must_be_numeric() {
    assert!(matches!(decode_output(b"A x\n"), Err(AlignError::FormatError)));
    assert!(matches!(decode_output(b"A -1\n"), Err(AlignError::FormatError)));
    assert!(matches!(decode_output(b"A 1x\n"), Err(AlignError::FormatError)));
}

#[test]
fn decode_count_accepts_leading_plus() {
    let alignment = decode_output(b"A +7\n").unwrap();
    assert_eq!(alignment.cluster_count, vec![7]);
}

#[test]
fn decode_count_overflow_fails() {
    assert!(matches!(
        decode_output(b"A 18446744073709551616\n"),
        Err(AlignError::FormatError)
    ));
    let alignment = decode_output(b"A 18446744073709551615\n").unwrap();
    assert_eq!(alignment.cluster_count, vec![usize::MAX]);
}

#[test]
fn decode_final_line_may_lack_newline() {
    let alignment = decode_output(b"A 1").unwrap();
    assert_eq!(alignment.cluster_centers, vec![b"A".to_vec()]);
}

#[test]
fn decode_merged_cluster_output_shape() {
    // The shape the engine produces when two near-identical sequences
    // merge: three clusters out of four inputs, the merged one carrying
    // its absorbed member and the summed count.
    let stream = b"AAAAAAAAAA\t2\tAAAAAAAAAC\nGGGGGGGGGG\t1\nTTTTTTTTTT\t1\n";
    let alignment = decode_output(stream).unwrap();
    assert_eq!(alignment.cluster_centers.len(), 3);
    assert_eq!(alignment.cluster_count, vec![2, 1, 1]);
    assert_eq!(alignment.cluster_members[0], vec![b"AAAAAAAAAC".to_vec()]);
    assert_eq!(alignment.cluster_members[1], Vec::<Vec<u8>>::new());
}

#[test]
fn decode_unmerged_cluster_output_shape() {
    // The shape the engine produces when all four inputs stay apart.
    let stream = b"AAAAAAAAAA\t1\nCCCCCCCCCC\t1\nGGGGGGGGGG\t1\nTTTTTTTTTT\t1\n";
    let alignment = decode_output(stream).unwrap();
    assert_eq!(alignment.cluster_centers.len(), 4);
    assert_eq!(alignment.cluster_count, vec![1, 1, 1, 1]);
}

#[test]
fn split_line_extracts_three_fields() {
    let (center, count, members) = split_line(b"AAA 2 B,C");
    assert_eq!(center, b"AAA".to_vec());
    assert_eq!(count, b"2".to_vec());
    assert_eq!(members, Some(vec![b"B".to_vec(), b"C".to_vec()]));
}

#[test]
fn split_line_without_members() {
    let (center, count, members) = split_line(b"AAA\t2");
    assert_eq!(center, b"AAA".to_vec());
    assert_eq!(count, b"2".to_vec());
    assert_eq!(members, None);
}

#[test]
fn split_line_collapses_whitespace_runs() {
    let (center, count, members) = split_line(b"  AAA \t 2  ");
    assert_eq!(center, b"AAA".to_vec());
    assert_eq!(count, b"2".to_vec());
    assert_eq!(members, None);
}

#[test]
fn split_line_of_empty_line() {
    let (center, count, members) = split_line(b"");
    assert_eq!(center, Vec::<u8>::new());
    assert_eq!(count, Vec::<u8>::new());
    assert_eq!(members, None);
}

#[test]
fn split_bytes_keeps_empty_pieces() {
    assert_eq!(
        split_bytes(b"a,,b", 44),
        vec![b"a".to_vec(), Vec::<u8>::new(), b"b".to_vec()]
    );
    assert_eq!(split_bytes(b"", 44), vec![Vec::<u8>::new()]);
}

#[test]
fn split_ws_tokens_drops_empty_tokens() {
    assert_eq!(
        split_ws_tokens(b" a\tbb  c "),
        vec![b"a".to_vec(), b"bb".to_vec(), b"c".to_vec()]
    );
    assert_eq!(split_ws_tokens(b" \t "), Vec::<Vec<u8>>::new());
}

#[test]
fn parse_count_strictness() {
    assert_eq!(parse_count(b"0"), Some(0));
    assert_eq!(parse_count(b"42"), Some(42));
    assert_eq!(parse_count(b"+9"), Some(9));
    assert_eq!(parse_count(b""), None);
    assert_eq!(parse_count(b"+"), None);
    assert_eq!(parse_count(b"4 2"), None);
    assert_eq!(parse_count(b"12a"), None);
}
