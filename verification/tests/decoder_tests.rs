use zero_rle::decoder::{DecodeError, Decoder};

#[test]
fn test_decoder() {
    let mut decoder = Decoder::new();
    let input = vec![0xFF, 0x01, 0xFF, 0x02, 0x03];
    for byte in input {
        decoder.feed(byte).unwrap();
    }
    let output = decoder.output().unwrap();
    assert_eq!(output, vec![0xFF, 0xFF, 0xFF, 0x03]);
}

#[test]
fn test_decoder_empty() {
    let mut decoder = Decoder::new();
    let input: Vec<u8> = vec![];
    for byte in input {
        decoder.feed(byte).unwrap();
    }
    assert_eq!(decoder.output().unwrap(), vec![]);
}

#[test]
fn test_decoder_no_zeros() {
    let mut decoder = Decoder::new();
    let input = vec![1, 2, 3, 4, 5];
    for byte in input {
        decoder.feed(byte).unwrap();
    }
    assert_eq!(decoder.output().unwrap(), vec![1, 2, 3, 4, 5]);
}

#[test]
fn test_decoder_only_zeros() {
    let mut decoder = Decoder::new();
    let input = vec![0xFF, 0x04];
    for byte in input {
        decoder.feed(byte).unwrap();
    }
    assert_eq!(decoder.output().unwrap(), vec![0, 0, 0, 0]);
}

#[test]
fn test_decoder_only_ff() {
    let mut decoder = Decoder::new();
    let input = vec![0xFF, 0x02, 0xFF, 0x01];
    for byte in input {
        decoder.feed(byte).unwrap();
    }
    assert_eq!(decoder.output().unwrap(), vec![0xFF, 0xFF, 0xFF]);
}

#[test]
fn test_decoder_mixed() {
    let mut decoder = Decoder::new();
    let input = vec![0xFF, 0x01, 0xFF, 0x05, 2, 0xFF, 1, 0x03];
    for byte in input {
        decoder.feed(byte).unwrap();
    }
    assert_eq!(
        decoder.output().unwrap(),
        vec![0xFF, 0, 0, 0, 0, 0, 2, 0xFF, 0x03]
    );
}

#[test]
fn test_decoder_unexpected_eof() {
    let mut decoder = Decoder::new();
    let input = vec![1, 2, 3, 4, 5, 0xFF];
    for byte in input {
        decoder.feed(byte).unwrap();
    }
    assert_eq!(decoder.output(), Err(DecodeError::UnexpectedEOF));
}

#[test]
fn test_decoder_reserved_sequence() {
    let mut decoder = Decoder::new();
    decoder.feed(0xFF).unwrap();
    assert_eq!(decoder.feed(0x00), Err(DecodeError::ReservedSequence));
}

#[test]
fn count_bytes_expand_to_runs() {
    for count in 3..=255u8 {
        let mut decoder = Decoder::new();
        decoder.feed(0xFF).unwrap();
        decoder.feed(count).unwrap();
        assert_eq!(decoder.output().unwrap(), vec![0u8; count as usize]);
    }
}

#[test]
fn marker_as_count_stands_for_255_zeros() {
    let mut decoder = Decoder::new();
    decoder.feed(0xFF).unwrap();
    decoder.feed(0xFF).unwrap();
    assert_eq!(decoder.len(), 255);
    // the count byte closed the escape sequence: a zero is now a plain byte
    decoder.feed(0x00).unwrap();
    let mut expected = vec![0u8; 255];
    expected.push(0);
    assert_eq!(decoder.output().unwrap(), expected);
}

#[test]
fn zero_outside_an_escape_is_a_plain_byte() {
    let mut decoder = Decoder::new();
    decoder.feed(0).unwrap();
    decoder.feed(0).unwrap();
    decoder.feed(7).unwrap();
    assert_eq!(decoder.output().unwrap(), vec![0, 0, 7]);
}

#[test]
fn len_counts_recovered_bytes() {
    let mut decoder = Decoder::new();
    assert_eq!(decoder.len(), 0);
    decoder.feed(9).unwrap();
    assert_eq!(decoder.len(), 1);
    decoder.feed(0xFF).unwrap();
    assert_eq!(decoder.len(), 1);
    decoder.feed(40).unwrap();
    assert_eq!(decoder.len(), 41);
    decoder.feed(0xFF).unwrap();
    decoder.feed(2).unwrap();
    assert_eq!(decoder.len(), 43);
}

#[test]
fn failed_feed_leaves_the_decoder_as_it_was() {
    let mut decoder = Decoder::new();
    decoder.feed(5).unwrap();
    decoder.feed(0xFF).unwrap();
    assert_eq!(decoder.feed(0x00), Err(DecodeError::ReservedSequence));
    assert_eq!(decoder.len(), 1);
    // still waiting for a count byte
    assert_eq!(decoder.feed(0x00), Err(DecodeError::ReservedSequence));
    decoder.feed(1).unwrap();
    assert_eq!(decoder.output().unwrap(), vec![5, 0xFF]);
}

#[test]
fn lone_marker_at_the_end_is_a_fault() {
    let mut decoder = Decoder::new();
    decoder.feed(0xFF).unwrap();
    assert_eq!(decoder.output(), Err(DecodeError::UnexpectedEOF));
}
