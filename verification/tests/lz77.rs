use inflate::error::InflateError;
use inflate::lz77::{History, Instruction};

#[test]
fn test_eviction() {
    let mut history = History::new(3);

    history.append(0);
    assert_eq!(history.len(), 1);
    assert_eq!(history.get(0), 0);

    history.append(1);
    assert_eq!(history.len(), 2);
    assert_eq!(history.get(0), 0);
    assert_eq!(history.get(1), 1);

    history.append(2);
    assert_eq!(history.len(), 3);
    assert_eq!(history.get(0), 0);
    assert_eq!(history.get(1), 1);
    assert_eq!(history.get(2), 2);

    history.append(3);
    assert_eq!(history.len(), 3);
    assert_eq!(history.get(0), 1);
    assert_eq!(history.get(1), 2);
    assert_eq!(history.get(2), 3);
}

#[test]
fn test_negative_index() {
    let mut history = History::new(3);
    history.extend(&[0, 1, 2]);

    assert_eq!(history.get(-1), 2);
    assert_eq!(history.get(-2), 1);
    assert_eq!(history.get(-3), 0);
}

#[test]
fn test_negative_index_underfull() {
    // One slot is not yet filled.
    let mut history = History::new(3);
    history.extend(&[0, 1]);

    assert_eq!(history.get(-1), 1);
    assert_eq!(history.get(-2), 0);
}

#[test]
fn test_overlapping_back_reference() {
    // With only the byte `a` in history, a length-8 distance-1 copy
    // replicates it eight times.
    let mut history = History::new(32);
    let mut out: Vec<u8> = Vec::new();
    history
        .apply_instruction(Instruction::Literal(b'a'), &mut out)
        .unwrap();
    history
        .apply_instruction(
            Instruction::BackReference { length: 8, distance: 1 },
            &mut out,
        )
        .unwrap();
    assert_eq!(out, vec![b'a'; 9]);
    assert_eq!(history.len(), 9);
    assert_eq!(history.get(-1), b'a');
}

#[test]
fn test_alternating_back_reference() {
    // A distance-2 copy longer than its distance repeats the last two
    // bytes as a pattern.
    let mut history = History::new(32);
    let mut out: Vec<u8> = Vec::new();
    history
        .apply_instruction(Instruction::Literal(b'x'), &mut out)
        .unwrap();
    history
        .apply_instruction(Instruction::Literal(b'y'), &mut out)
        .unwrap();
    history
        .apply_instruction(
            Instruction::BackReference { length: 5, distance: 2 },
            &mut out,
        )
        .unwrap();
    assert_eq!(out, b"xyxyxyx".to_vec());
}

#[test]
fn test_distance_too_far() {
    // A back-reference past the bytes emitted so far fails and emits
    // nothing.
    let mut history = History::new(32);
    let mut out: Vec<u8> = Vec::new();
    history
        .apply_instruction(Instruction::Literal(b'a'), &mut out)
        .unwrap();
    let r = history.apply_instruction(
        Instruction::BackReference { length: 3, distance: 2 },
        &mut out,
    );
    assert!(matches!(r, Err(InflateError::DistanceTooFar(2))));
    assert_eq!(out, vec![b'a']);
    assert_eq!(history.len(), 1);
}

#[test]
fn test_end_of_block_emits_nothing() {
    let mut history = History::new(4);
    let mut out: Vec<u8> = Vec::new();
    history
        .apply_instruction(Instruction::EndOfBlock, &mut out)
        .unwrap();
    assert_eq!(out, Vec::<u8>::new());
    assert_eq!(history.len(), 0);
}
