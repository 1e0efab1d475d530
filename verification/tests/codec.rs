use actionkv::codec::{decode, encode, push_bytes, RecordError, HEADER_LEN};

fn frame_a1() -> Vec<u8> {
    vec![35, 72, 225, 108, 1, 0, 0, 0, 1, 0, 0, 0, 97, 49]
}

#[test]
fn encode_lays_out_checksum_lengths_and_payload() {
    assert_eq!(encode(b"a", b"1"), frame_a1());
    assert_eq!(
        encode(b"key", b"value"),
        vec![230, 243, 85, 198, 3, 0, 0, 0, 5, 0, 0, 0, 107, 101, 121, 118, 97, 108, 117, 101]
    );
}

#[test]
fn encode_of_empty_key_and_value_is_a_bare_header() {
    assert_eq!(encode(b"", b""), vec![0u8; 12]);
    assert_eq!(HEADER_LEN, 12);
}

#[test]
fn encode_length_is_header_plus_key_plus_value() {
    let key: Vec<u8> = vec![7u8; 300];
    let value: Vec<u8> = vec![9u8; 70000];
    let frame = encode(&key, &value);
    assert_eq!(frame.len(), 12 + 300 + 70000);
    assert_eq!(&frame[4..8], &[44u8, 1, 0, 0]);
    assert_eq!(&frame[8..12], &[112u8, 17, 1, 0]);
}

#[test]
fn encode_checksum_is_crc32_ieee() {
    let frame = encode(b"12345", b"6789");
    assert_eq!(&frame[0..4], &[0x26u8, 0x39, 0xF4, 0xCB]);
    assert_eq!(
        u32::from_le_bytes([frame[0], frame[1], frame[2], frame[3]]),
        crc::crc32::checksum_ieee(b"123456789")
    );
}

#[test]
fn decode_gives_back_what_was_encoded() {
    let cases: Vec<(Vec<u8>, Vec<u8>)> = vec![
        (b"a".to_vec(), b"1".to_vec()),
        (b"".to_vec(), b"".to_vec()),
        (b"k".to_vec(), b"".to_vec()),
        (b"".to_vec(), b"v".to_vec()),
        (vec![0u8, 255, 10, 13, 0], vec![0u8; 1000]),
        ((0..=255u8).collect(), (0..=255u8).rev().collect()),
    ];
    for (key, value) in cases {
        let frame = encode(&key, &value);
        let kv = decode(&frame, 0).unwrap();
        assert_eq!(kv.key, key);
        assert_eq!(kv.value, value);
    }
}

#[test]
fn decode_reads_a_frame_in_the_middle_of_a_log() {
    let mut log: Vec<u8> = Vec::new();
    push_bytes(&mut log, &encode(b"a", b"1"));
    push_bytes(&mut log, &encode(b"key", b"value"));
    push_bytes(&mut log, &encode(b"b", b"2"));
    let kv = decode(&log, 14).unwrap();
    assert_eq!(kv.key, b"key".to_vec());
    assert_eq!(kv.value, b"value".to_vec());
    let last = decode(&log, 34).unwrap();
    assert_eq!(last.key, b"b".to_vec());
    assert_eq!(last.value, b"2".to_vec());
}

#[test]
fn decode_of_too_few_bytes_for_a_header_is_end_of_log() {
    assert_eq!(decode(&[], 0).unwrap_err(), RecordError::EndOfLog);
    assert_eq!(decode(&[0u8; 11], 0).unwrap_err(), RecordError::EndOfLog);
    let frame = frame_a1();
    assert_eq!(decode(&frame, 14).unwrap_err(), RecordError::EndOfLog);
    assert_eq!(decode(&frame, 3).unwrap_err(), RecordError::EndOfLog);
    assert_eq!(decode(&frame, 15).unwrap_err(), RecordError::EndOfLog);
    assert_eq!(decode(&frame, usize::MAX).unwrap_err(), RecordError::EndOfLog);
}

#[test]
fn decode_of_a_short_payload_is_truncated_record() {
    let frame = frame_a1();
    assert_eq!(decode(&frame[..13], 0).unwrap_err(), RecordError::TruncatedRecord);
    assert_eq!(decode(&frame[..12], 0).unwrap_err(), RecordError::TruncatedRecord);
    let huge: Vec<u8> = vec![0, 0, 0, 0, 255, 255, 255, 255, 255, 255, 255, 255, 1, 2, 3];
    assert_eq!(decode(&huge, 0).unwrap_err(), RecordError::TruncatedRecord);
}

#[test]
fn decode_of_a_wrong_checksum_is_corrupt_record_with_both_sums() {
    let mut frame = frame_a1();
    frame[13] = 51;
    assert_eq!(
        decode(&frame, 0).unwrap_err(),
        RecordError::CorruptRecord { expected: 0x6ce14823, computed: 0x82ef290f }
    );
    let mut header = frame_a1();
    header[0] ^= 1;
    assert_eq!(
        decode(&header, 0).unwrap_err(),
        RecordError::CorruptRecord { expected: 0x6ce14822, computed: 0x6ce14823 }
    );
}

#[test]
fn every_single_bit_flip_in_the_payload_is_detected() {
    let frame = encode(b"some key", b"some value, a little longer");
    for at in 12..frame.len() {
        for bit in 0..8u32 {
            let mut damaged = frame.clone();
            damaged[at] ^= 1u8 << bit;
            let expected: u32 = crc::crc32::checksum_ieee(&frame[12..]);
            let computed: u32 = crc::crc32::checksum_ieee(&damaged[12..]);
            assert_ne!(expected, computed);
            assert_eq!(
                decode(&damaged, 0).unwrap_err(),
                RecordError::CorruptRecord { expected, computed }
            );
        }
    }
}

#[test]
fn push_bytes_appends_in_order() {
    let mut out: Vec<u8> = vec![1, 2];
    push_bytes(&mut out, &[3, 4, 5]);
    push_bytes(&mut out, &[]);
    assert_eq!(out, vec![1, 2, 3, 4, 5]);
}
