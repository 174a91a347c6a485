use window_delta::delta::{
    sliding_window_analyze, sliding_window_restore, Operation, OperationType,
};
use window_delta::DeltaError;

fn analyze(old: &[u8], new: &[u8], w: usize) -> Vec<Operation> {
    sliding_window_analyze(&old.to_vec(), &new.to_vec(), w).unwrap()
}

fn restore(old: &[u8], ops: Vec<Operation>) -> Vec<u8> {
    sliding_window_restore(&old.to_vec(), ops).unwrap()
}

fn round_trip(old: &[u8], new: &[u8], w: usize) -> Vec<u8> {
    restore(old, analyze(old, new, w))
}

#[test]
fn string_window_size_test_1() {
    assert_eq!(round_trip(b"guilllero", b"guillermo", 1), b"guillermo");
}

#[test]
fn string_window_size_test_2() {
    assert_eq!(round_trip(b"guilllero", b"guillermo", 2), b"guillermo");
}

#[test]
fn string_window_size_test_3() {
    assert_eq!(round_trip(b"guilllero", b"guillermo", 3), b"guillermo");
}

#[test]
fn string_window_size_test_4() {
    assert_eq!(round_trip(b"guilllero", b"guillermo", 4), b"guillermo");
}

#[test]
fn string_window_size_test_5() {
    assert_eq!(round_trip(b"guilllero", b"guillermo", 5), b"guillermo");
}

#[test]
fn string_window_size_test_6() {
    assert_eq!(round_trip(b"guilllero", b"guillermo", 6), b"guillermo");
}

#[test]
fn concrete_scenario_instructions() {
    // old windows of size 2 hold "gu", "il" (last at 2) and "le" (at 5);
    // "rm" diverges and the odd trailing byte rides a short TRANSFER.
    let ops = analyze(b"guilllero", b"guillermo", 2);
    assert_eq!(ops.len(), 5);

    assert_eq!(ops[0].operation_type, OperationType::COPY);
    assert_eq!(ops[0].start, 0);
    assert_eq!(ops[0].bytes, 2);
    assert!(ops[0].payload.is_empty());

    assert_eq!(ops[1].operation_type, OperationType::COPY);
    assert_eq!(ops[1].start, 2);
    assert_eq!(ops[1].bytes, 2);

    assert_eq!(ops[2].operation_type, OperationType::COPY);
    assert_eq!(ops[2].start, 5);
    assert_eq!(ops[2].bytes, 2);

    assert_eq!(ops[3].operation_type, OperationType::TRANSFER);
    assert_eq!(ops[3].start, 6);
    assert_eq!(ops[3].bytes, 2);
    assert_eq!(ops[3].payload, b"rm");

    assert_eq!(ops[4].operation_type, OperationType::TRANSFER);
    assert_eq!(ops[4].start, 8);
    assert_eq!(ops[4].bytes, 1);
    assert_eq!(ops[4].payload, b"o");
}

#[test]
fn round_trip_various_pairs() {
    let cases: Vec<(&[u8], &[u8])> = vec![
        (b"", b""),
        (b"", b"hello"),
        (b"hello", b""),
        (b"hello world", b"hello brave world"),
        (b"aaaaaaaa", b"aaaabaaaa"),
        (b"the quick brown fox", b"the quick red fox jumps"),
    ];
    for (old, new) in cases {
        for w in 1..=8 {
            assert_eq!(round_trip(old, new, w), new, "old={:?} new={:?} w={}", old, new, w);
        }
    }
}

#[test]
fn identical_buffers_yield_copies() {
    let buf = b"abcdefgh";
    let ops = analyze(buf, buf, 3);
    // every full window is a COPY; only the short tail may be a TRANSFER
    for op in &ops {
        if op.operation_type == OperationType::TRANSFER {
            assert!(op.bytes < 3);
        }
    }
    assert_eq!(ops[0].operation_type, OperationType::COPY);
    assert_eq!(restore(buf, ops), buf);
}

#[test]
fn total_coverage() {
    let cases: Vec<(&[u8], &[u8], usize)> = vec![
        (b"guilllero", b"guillermo", 2),
        (b"", b"abc", 2),
        (b"xyz", b"abcdefg", 3),
        (b"abc", b"abc", 5),
    ];
    for (old, new, w) in cases {
        let ops = analyze(old, new, w);
        let total: usize = ops.iter().map(|op| op.bytes).sum();
        assert_eq!(total, new.len());
    }
}

#[test]
fn degenerate_window_single_transfer() {
    let old = b"abc";
    let new = b"wxyz";
    let ops = analyze(old, new, 5);
    assert_eq!(ops.len(), 1);
    assert_eq!(ops[0].operation_type, OperationType::TRANSFER);
    assert_eq!(ops[0].start, 0);
    assert_eq!(ops[0].bytes, 4);
    assert_eq!(ops[0].payload, new);
    assert_eq!(restore(old, ops), new);
}

#[test]
fn empty_new_buffer_yields_empty_delta() {
    let ops = analyze(b"some old content", b"", 4);
    assert!(ops.is_empty());
    assert_eq!(restore(b"some old content", ops), b"");
}

#[test]
fn zero_window_size_is_invalid() {
    let r = sliding_window_analyze(&b"abc".to_vec(), &b"abcd".to_vec(), 0);
    assert_eq!(r.unwrap_err(), DeltaError::InvalidWindowSize);
}

#[test]
fn out_of_range_copy_is_reported() {
    let old: Vec<u8> = b"123456789".to_vec();
    let ops = vec![Operation {
        operation_type: OperationType::COPY,
        start: 5,
        bytes: 10,
        payload: Vec::new(),
    }];
    assert_eq!(sliding_window_restore(&old, ops).unwrap_err(), DeltaError::OutOfRangeCopy);
}

#[test]
fn copy_up_to_the_end_is_in_range() {
    let old: Vec<u8> = b"123456789".to_vec();
    let ops = vec![Operation {
        operation_type: OperationType::COPY,
        start: 4,
        bytes: 5,
        payload: Vec::new(),
    }];
    assert_eq!(sliding_window_restore(&old, ops).unwrap(), b"56789");
}

#[test]
fn transfer_payload_is_emitted_literally() {
    let old: Vec<u8> = b"irrelevant".to_vec();
    let ops = vec![
        Operation {
            operation_type: OperationType::TRANSFER,
            start: 0,
            bytes: 3,
            payload: b"abc".to_vec(),
        },
        Operation {
            operation_type: OperationType::COPY,
            start: 2,
            bytes: 4,
            payload: Vec::new(),
        },
    ];
    assert_eq!(sliding_window_restore(&old, ops).unwrap(), b"abcrele");
}

#[test]
fn disjoint_buffers_transfer_everything() {
    let old = b"aaaaaa";
    let new = b"zzzzzz";
    let ops = analyze(old, new, 2);
    for op in &ops {
        assert_eq!(op.operation_type, OperationType::TRANSFER);
    }
    let payload: Vec<u8> = ops.iter().flat_map(|op| op.payload.iter().copied()).collect();
    assert_eq!(payload, new);
}
