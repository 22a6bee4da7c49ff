use zero_rle::encoder::Encoder;

fn encode_by_feeding(raw: &[u8]) -> Vec<u8> {
    let mut encoder = Encoder::new();
    for &byte in raw {
        encoder.feed(byte);
    }
    encoder.output()
}

#[test]
fn test_encode() {
    let mut encoder = Encoder::new();
    encoder.feed(0);
    encoder.feed(0);
    encoder.feed(0xFF);
    encoder.feed(0);
    encoder.feed(0);
    encoder.feed(0);
    encoder.feed(0xFF);
    encoder.feed(0);

    let encoded = encoder.output();
    assert_eq!(encoded, vec![0, 0, 0xFF, 1, 0xFF, 3, 0xFF, 1, 00]);
}

#[test]
fn test_encode_no_zeros() {
    let mut encoder = Encoder::new();
    encoder.feed(1);
    encoder.feed(2);
    encoder.feed(3);
    encoder.feed(4);
    encoder.feed(5);

    let encoded = encoder.output();
    assert_eq!(encoded, vec![1, 2, 3, 4, 5]);
}

#[test]
fn test_encode_all_ff() {
    let mut encoder = Encoder::new();
    encoder.feed(0xFF);
    encoder.feed(0xFF);
    encoder.feed(0xFF);
    encoder.feed(0xFF);
    encoder.feed(0xFF);

    let encoded = encoder.output();
    assert_eq!(encoded, vec![0xFF, 2, 0xFF, 2, 0xFF, 1]);
}

#[test]
fn test_encode_only_zeros() {
    let mut encoder = Encoder::new();
    encoder.feed(0);
    encoder.feed(0);
    encoder.feed(0);
    encoder.feed(0);

    let encoded = encoder.output();
    assert_eq!(encoded, vec![0xFF, 4]);
}

#[test]
fn test_encode_only_ff() {
    let mut encoder = Encoder::new();
    encoder.feed(0xFF);
    encoder.feed(0xFF);
    encoder.feed(0xFF);

    let encoded = encoder.output();
    assert_eq!(encoded, vec![0xFF, 2, 0xFF, 1]);
}

#[test]
fn test_encode_empty() {
    let mut encoder = Encoder::new();
    let encoded = encoder.output();
    assert_eq!(encoded, vec![]);
}

#[test]
fn test_encode_mixed() {
    let mut encoder = Encoder::new();
    encoder.feed(0);
    encoder.feed(0xFF);
    encoder.feed(1);
    encoder.feed(2);
    encoder.feed(0);
    encoder.feed(0);
    encoder.feed(0xFF);
    encoder.feed(3);

    let encoded = encoder.output();
    assert_eq!(encoded, vec![0, 0xFF, 1, 1, 2, 0, 0, 0xFF, 1, 3]);
}

#[test]
fn test_encode_mixed_zeros() {
    let mut encoder = Encoder::new();
    encoder.feed(0);
    encoder.feed(0xFF);
    encoder.feed(1);
    encoder.feed(0);
    encoder.feed(0);
    encoder.feed(0);
    encoder.feed(0);
    encoder.feed(0);
    encoder.feed(0);
    encoder.feed(2);
    encoder.feed(0);
    encoder.feed(0);
    encoder.feed(0);
    encoder.feed(0);
    encoder.feed(0xFF);
    encoder.feed(3);

    let encoded = encoder.output();
    assert_eq!(
        encoded,
        vec![0, 0xFF, 1, 1, 0xFF, 6, 2, 0xFF, 4, 0xFF, 1, 3]
    );
}

#[test]
fn test_encode_mixed_ff() {
    let mut encoder = Encoder::new();
    encoder.feed(0);
    encoder.feed(0xFF);
    encoder.feed(1);
    encoder.feed(0xFF);
    encoder.feed(0xFF);
    encoder.feed(0xFF);
    encoder.feed(2);
    encoder.feed(0xFF);
    encoder.feed(3);

    let encoded = encoder.output();
    assert_eq!(
        encoded,
        vec![0, 0xFF, 1, 1, 0xFF, 2, 0xFF, 1, 2, 0xFF, 1, 3]
    );
}

#[test]
fn short_zero_runs_stay_literal() {
    assert_eq!(encode_by_feeding(&[0]), vec![0x00]);
    assert_eq!(encode_by_feeding(&[0, 0]), vec![0x00, 0x00]);
    assert_eq!(encode_by_feeding(&[0, 0, 0]), vec![0xFF, 3]);
}

#[test]
fn marker_runs_are_escaped_in_pairs() {
    assert_eq!(encode_by_feeding(&[0xFF]), vec![0xFF, 1]);
    assert_eq!(encode_by_feeding(&[0xFF, 0xFF]), vec![0xFF, 2]);
    assert_eq!(encode_by_feeding(&[0xFF, 0xFF, 0xFF]), vec![0xFF, 2, 0xFF, 1]);
    assert_eq!(
        encode_by_feeding(&[0xFF, 0xFF, 0xFF, 0xFF]),
        vec![0xFF, 2, 0xFF, 2]
    );
}

#[test]
fn zero_run_is_written_when_it_reaches_255() {
    let mut encoder = Encoder::new();
    for _ in 0..254 {
        encoder.feed(0);
    }
    // 254 zeros are still pending: nothing has been written yet
    let mut early = Encoder::new();
    for _ in 0..254 {
        early.feed(0);
    }
    assert_eq!(early.output(), vec![0xFF, 254]);

    encoder.feed(0);
    assert_eq!(encoder.output(), vec![0xFF, 255]);
}

#[test]
fn zero_runs_around_the_full_length() {
    assert_eq!(encode_by_feeding(&vec![0; 254]), vec![0xFF, 254]);
    assert_eq!(encode_by_feeding(&vec![0; 255]), vec![0xFF, 255]);
    assert_eq!(encode_by_feeding(&vec![0; 256]), vec![0xFF, 255, 0x00]);
    assert_eq!(encode_by_feeding(&vec![0; 257]), vec![0xFF, 255, 0x00, 0x00]);
    assert_eq!(encode_by_feeding(&vec![0; 258]), vec![0xFF, 255, 0xFF, 3]);
    assert_eq!(encode_by_feeding(&vec![0; 510]), vec![0xFF, 255, 0xFF, 255]);
}

#[test]
fn other_bytes_pass_through_unchanged() {
    for byte in 1..=254u8 {
        assert_eq!(encode_by_feeding(&[byte]), vec![byte]);
    }
}

#[test]
fn other_byte_ends_a_pending_run() {
    assert_eq!(encode_by_feeding(&[0, 0, 0, 7]), vec![0xFF, 3, 7]);
    assert_eq!(encode_by_feeding(&[0xFF, 7]), vec![0xFF, 1, 7]);
    assert_eq!(encode_by_feeding(&[0, 7, 0]), vec![0, 7, 0]);
}

#[test]
fn output_twice_gives_the_same_bytes() {
    let mut encoder = Encoder::new();
    encoder.feed(0);
    encoder.feed(0);
    encoder.feed(0);
    encoder.feed(9);
    encoder.feed(0xFF);
    let first = encoder.output();
    let second = encoder.output();
    assert_eq!(first, vec![0xFF, 3, 9, 0xFF, 1]);
    assert_eq!(first, second);
}

#[test]
fn output_closes_the_pending_run() {
    let mut encoder = Encoder::new();
    encoder.feed(0);
    encoder.feed(0);
    assert_eq!(encoder.output(), vec![0, 0]);
    // the two zeros were written; a third one starts a new run
    encoder.feed(0);
    assert_eq!(encoder.output(), vec![0, 0, 0]);
}

#[test]
fn feeding_is_repeatable() {
    let raw = [3, 0, 0, 0, 0, 0xFF, 0xFF, 0xFF, 0, 8];
    assert_eq!(encode_by_feeding(&raw), encode_by_feeding(&raw));
    assert_eq!(
        encode_by_feeding(&raw),
        vec![3, 0xFF, 4, 0xFF, 2, 0xFF, 1, 0, 8]
    );
}
