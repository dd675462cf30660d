use ferrite::wal::{decode_frames, encode_frame, FrameError, WalProgress, CHECKPOINT_INTERVAL};

#[test]
fn frame_starts_with_little_endian_length() {
    assert_eq!(encode_frame(&[7, 8, 9]), vec![3, 0, 0, 0, 7, 8, 9]);
    let long = vec![1u8; 300];
    let framed = encode_frame(&long);
    assert_eq!(&framed[..4], &[44, 1, 0, 0]);
    assert_eq!(framed.len(), 304);
    assert_eq!(encode_frame(&[]), vec![0, 0, 0, 0]);
}

#[test]
fn frames_read_back() {
    let payloads: Vec<Vec<u8>> = vec![vec![1, 2, 3], vec![], vec![9; 70000]];
    let mut log = Vec::new();
    for p in &payloads {
        log.extend(encode_frame(p));
    }
    assert_eq!(decode_frames(&log), Ok(payloads));
    assert_eq!(decode_frames(&[]), Ok(vec![]));
}

#[test]
fn short_header_ends_the_log_and_short_payload_is_an_error() {
    let mut log = encode_frame(&[5, 6]);
    log.extend([1, 0]);
    assert_eq!(decode_frames(&log), Ok(vec![vec![5, 6]]));
    let cut = vec![4, 0, 0, 0, 1, 2];
    assert_eq!(decode_frames(&cut), Err(FrameError::Truncated { expected: 4, available: 2 }));
}

#[test]
fn checkpoint_due_after_interval_appends() {
    let mut progress = WalProgress::new(3);
    assert!(!progress.should_checkpoint());
    progress.record_append();
    progress.record_append();
    assert!(!progress.should_checkpoint());
    progress.record_append();
    assert!(progress.should_checkpoint());
    progress.reset();
    assert!(!progress.should_checkpoint());
    assert!(WalProgress::new(0).should_checkpoint());
}

#[test]
fn checkpoints_come_every_hundred_changes() {
    let mut p = WalProgress::new(CHECKPOINT_INTERVAL);
    for _ in 0..99 {
        p.record_append();
        assert!(!p.should_checkpoint());
    }
    p.record_append();
    assert!(p.should_checkpoint());
    p.reset();
    assert!(!p.should_checkpoint());
}
