use bytes::Bytes;
use ledger_wal::entry::{LogEntry, LogError};

fn create_test_entry(index: u64, term: u64, command: &[u8]) -> LogEntry {
    LogEntry {
        index,
        term,
        command: Bytes::from(command.to_vec()),
    }
}

#[test]
fn test_log_entry_encode_decode_roundtrip() {
    let entry = create_test_entry(42, 3, b"test command");
    let encoded = entry.encode();

    let (decoded, used) = LogEntry::decode(&encoded).unwrap();

    assert_eq!(entry.index, decoded.index);
    assert_eq!(entry.term, decoded.term);
    assert_eq!(entry.command, decoded.command);
    assert_eq!(used, encoded.len());
}

#[test]
fn test_log_entry_encode_decode_empty_command() {
    let entry = create_test_entry(1, 1, b"");
    let encoded = entry.encode();

    let (decoded, used) = LogEntry::decode(&encoded).unwrap();

    assert_eq!(entry.index, decoded.index);
    assert_eq!(entry.term, decoded.term);
    assert_eq!(entry.command, decoded.command);
    assert!(decoded.command.is_empty());
    assert_eq!(used, 24);
}

#[test]
fn test_log_entry_encode_decode_large_command() {
    let large_command = vec![42u8; 10000];
    let entry = create_test_entry(100, 5, &large_command);
    let encoded = entry.encode();

    let (decoded, _) = LogEntry::decode(&encoded).unwrap();

    assert_eq!(entry.index, decoded.index);
    assert_eq!(entry.term, decoded.term);
    assert_eq!(entry.command, decoded.command);
    assert_eq!(decoded.command.len(), 10000);
}

#[test]
fn test_log_entry_decode_incomplete_data() {
    let entry = create_test_entry(1, 1, b"test");
    let encoded = entry.encode();

    let truncated = &encoded[..8];
    let result = LogEntry::decode(truncated);
    assert!(result.is_err());
}

#[test]
fn test_log_entry_decode_no_data() {
    let result = LogEntry::decode(&[]);
    assert!(result.is_err());
    assert_eq!(result.unwrap_err(), LogError::UnexpectedEof);
}

#[test]
fn test_log_entry_encoding_format() {
    let entry = create_test_entry(0x1234567890ABCDEF, 0xFEDCBA0987654321, b"test");
    let encoded = entry.encode();

    assert_eq!(&encoded[0..8], &0x1234567890ABCDEFu64.to_le_bytes());
    assert_eq!(&encoded[8..16], &0xFEDCBA0987654321u64.to_le_bytes());
    assert_eq!(&encoded[16..24], &4u64.to_le_bytes());
    assert_eq!(&encoded[24..28], b"test");
}

#[test]
fn encoding_is_bit_exact() {
    let entry = create_test_entry(1, 2, b"ab");
    let expected: Vec<u8> = vec![
        1, 0, 0, 0, 0, 0, 0, 0, 2, 0, 0, 0, 0, 0, 0, 0, 2, 0, 0, 0, 0, 0, 0, 0, b'a', b'b',
    ];
    assert_eq!(entry.encode().to_vec(), expected);
}

#[test]
fn decode_reads_hand_written_record() {
    let mut data: Vec<u8> = Vec::new();
    data.extend_from_slice(&0x0102u64.to_le_bytes());
    data.extend_from_slice(&7u64.to_le_bytes());
    data.extend_from_slice(&3u64.to_le_bytes());
    data.extend_from_slice(b"xyz");
    data.extend_from_slice(b"trailing");
    let (entry, used) = LogEntry::decode(&data).unwrap();
    assert_eq!(entry.index, 0x0102);
    assert_eq!(entry.term, 7);
    assert_eq!(entry.command, Bytes::from("xyz"));
    assert_eq!(used, 27);
}

#[test]
fn round_trip_extreme_values() {
    for (index, term, command) in [
        (u64::MAX, u64::MAX, &b""[..]),
        (0, 0, &b"\x00\xff"[..]),
        (u64::MAX, 0, &b"payload"[..]),
    ] {
        let entry = create_test_entry(index, term, command);
        let (decoded, used) = LogEntry::decode(&entry.encode()).unwrap();
        assert_eq!(decoded.index, index);
        assert_eq!(decoded.term, term);
        assert_eq!(decoded.command, Bytes::from(command.to_vec()));
        assert_eq!(used, 24 + command.len());
    }
}

#[test]
fn short_header_is_clean_end() {
    let encoded = create_test_entry(5, 6, b"abc").encode();
    for cut in [0usize, 1, 8, 16, 23] {
        assert_eq!(LogEntry::decode(&encoded[..cut]).unwrap_err(), LogError::UnexpectedEof);
    }
}

#[test]
fn truncated_payload_is_corruption() {
    let encoded = create_test_entry(5, 6, b"abcd").encode();
    for cut in [24usize, 25, 27] {
        assert_eq!(LogEntry::decode(&encoded[..cut]).unwrap_err(), LogError::Corrupt);
    }
    assert!(LogEntry::decode(&encoded[..28]).is_ok());
}

#[test]
fn huge_declared_length_is_corruption() {
    let mut data: Vec<u8> = Vec::new();
    data.extend_from_slice(&1u64.to_le_bytes());
    data.extend_from_slice(&1u64.to_le_bytes());
    data.extend_from_slice(&u64::MAX.to_le_bytes());
    data.extend_from_slice(b"abc");
    assert_eq!(LogEntry::decode(&data).unwrap_err(), LogError::Corrupt);
}

#[test]
fn cloned_entry_keeps_fields() {
    let entry = create_test_entry(9, 4, b"copy me");
    let copy = entry.clone();
    assert_eq!(copy.index, 9);
    assert_eq!(copy.term, 4);
    assert_eq!(copy.command, entry.command);
}
