use starcode_align::{
    check_path_encodable, complete_invocation, interpret_engine_status, prepare_invocation,
    validate_max_distance, AlignError, StarcodeContext, WeightedSequenceSet,
};

#[test]
fn prepare_invocation_validates_and_encodes() {
    let mut set = WeightedSequenceSet::new();
    set.insert(b"ACGT".to_vec(), 2);
    assert_eq!(prepare_invocation(&set, 2).unwrap(), b"ACGT\t2\n".to_vec());
    assert!(matches!(
        prepare_invocation(&set, -1),
        Err(AlignError::InvalidArgument)
    ));
}

#[test]
fn empty_set_aligns_to_zero_clusters() {
    let set = WeightedSequenceSet::new();
    let encoded = prepare_invocation(&set, 2).unwrap();
    assert_eq!(encoded, Vec::<u8>::new());
    // For empty input the engine writes an empty output file.
    let alignment = complete_invocation(0, &encoded).unwrap();
    assert_eq!(alignment.cluster_centers.len(), 0);
    assert_eq!(alignment.cluster_count.len(), 0);
    assert_eq!(alignment.cluster_members.len(), 0);
}

#[test]
fn engine_failure_wins_over_output() {
    assert!(matches!(
        complete_invocation(9, b"AAAA 1\n"),
        Err(AlignError::EngineError(9))
    ));
}

#[test]
fn complete_invocation_decodes_valid_output() {
    let alignment = complete_invocation(0, b"ACGT 3 ACGA\n").unwrap();
    assert_eq!(alignment.cluster_centers, vec![b"ACGT".to_vec()]);
    assert_eq!(alignment.cluster_count, vec![3]);
    assert_eq!(alignment.cluster_members, vec![vec![b"ACGA".to_vec()]]);
}

#[test]
fn negative_distance_is_rejected() {
    assert!(matches!(
        validate_max_distance(-1),
        Err(AlignError::InvalidArgument)
    ));
    assert!(validate_max_distance(0).is_ok());
    assert!(validate_max_distance(2).is_ok());
}

#[test]
fn nonzero_engine_status_is_typed() {
    assert!(interpret_engine_status(0).is_ok());
    assert!(matches!(
        interpret_engine_status(7),
        Err(AlignError::EngineError(7))
    ));
    assert!(matches!(
        interpret_engine_status(-3),
        Err(AlignError::EngineError(-3))
    ));
}

#[test]
fn embedded_null_byte_is_not_encodable() {
    assert!(check_path_encodable(b"/tmp/starcode-in").is_ok());
    assert!(matches!(
        check_path_encodable(b"/tmp/a\0b"),
        Err(AlignError::EncodingError)
    ));
}

#[test]
fn acquire_then_release_is_balanced() {
    let context = StarcodeContext::new();
    assert_eq!(context.release(), 0);
}

#[test]
fn paired_tracking_returns_to_zero() {
    let mut context = StarcodeContext::new();
    context.track_allocation();
    context.track_allocation();
    assert_eq!(context.residual_allocations(), 2);
    context.track_deallocation();
    context.track_deallocation();
    assert_eq!(context.release(), 0);
}

#[test]
fn unbalanced_tracking_reports_residue() {
    let mut context = StarcodeContext::new();
    context.track_allocation();
    assert_eq!(context.release(), 1);
}

#[test]
fn sequence_set_insert_and_lookup() {
    let mut set = WeightedSequenceSet::new();
    assert_eq!(set.len(), 0);
    assert!(!set.contains_key(b"ACGT"));
    set.insert(b"ACGT".to_vec(), 1);
    set.insert(b"TTTT".to_vec(), 5);
    assert_eq!(set.len(), 2);
    assert!(set.contains_key(b"ACGT"));
    assert!(set.contains_key(b"TTTT"));
    assert!(!set.contains_key(b"ACG"));
    let (key, weight) = set.entry_at(1);
    assert_eq!(key, &b"TTTT".to_vec());
    assert_eq!(weight, 5);
}
