use mini_lsm::error::Error;
use mini_lsm::log_record::{LogRecord, RecordType, DEFAULT_BLOCK_SIZE, LOG_RECORD_HEADER_SIZE};
use mini_lsm::log_writer::LogWriter;
use rand::RngCore;

/// Walks the bytes of a log that starts at a block boundary and returns the
/// records in it, each with the number of padding bytes before it.
fn records_of(log: &[u8]) -> Vec<(usize, RecordType, Vec<u8>)> {
    let mut records = Vec::new();
    let mut pos = 0;
    while pos < log.len() {
        let room = DEFAULT_BLOCK_SIZE - pos % DEFAULT_BLOCK_SIZE;
        let mut padding = 0;
        if room < 8 {
            assert!(log[pos..pos + room].iter().all(|b| *b == 0));
            padding = room;
            pos += room;
        }
        let record = LogRecord::from_serialized_bytes(&log[pos..]).unwrap();
        assert!(record.validate_crc().is_ok());
        let start = pos % DEFAULT_BLOCK_SIZE;
        assert!(start + record.len() <= DEFAULT_BLOCK_SIZE);
        records.push((padding, record.rtype, record.payload.to_vec()));
        pos += record.len();
    }
    records
}

#[test]
fn test_append_small_payload() {
    let mut payload: Vec<u8> = vec![0; 256];
    rand::thread_rng().fill_bytes(&mut payload);
    let mut writer = LogWriter::new(0);
    let log = writer.append(&payload).expect("Failed writing the payload");

    // validate the contents of the log
    let record = LogRecord::from_serialized_bytes(&log).unwrap();
    assert_eq!(record.payload, payload);
}

#[test]
fn test_append_empty_payload() {
    let payload: Vec<u8> = vec![];
    let mut writer = LogWriter::new(0);
    writer
        .append(&payload)
        .expect_err("Expected an error when appending an empty payload");
}

#[test]
fn test_append_multiple_payloads() {
    let payload1: Vec<u8> = vec![1, 2, 3];
    let payload2: Vec<u8> = vec![4, 5, 6];
    let mut writer = LogWriter::new(0);
    writer
        .append(&payload1)
        .expect("Failed writing the first payload");
    writer
        .append(&payload2)
        .expect("Failed writing the second payload");
}

#[test]
fn test_append_payload_exceeding_block_capacity() {
    let mut payload: Vec<u8> = vec![0; 2 * DEFAULT_BLOCK_SIZE];
    rand::thread_rng().fill_bytes(&mut payload);
    let mut writer = LogWriter::new(0);
    writer.append(&payload).expect("Failed writing the payload");
    // The payload should spill over to the third block
    // The first block should contain DEFAULT_BLOCK_SIZE - LOG_RECORD_HEADER_SIZE bytes of the payload
    // The second block should contain DEFAULT_BLOCK_SIZE - LOG_RECORD_HEADER_SIZE bytes of the payload
    // The third block should contain 2 * LOG_RECORD_HEADER_SIZE bytes of the payload + LOG_RECORD_HEADER_SIZE bytes of the header
    assert_eq!(writer.block_pos(), 3 * LOG_RECORD_HEADER_SIZE);
}

#[test]
fn test_append_large_payloads_with_padding() {
    let payload_size = DEFAULT_BLOCK_SIZE - LOG_RECORD_HEADER_SIZE - 1;
    let mut payload: Vec<u8> = vec![0; payload_size];
    rand::thread_rng().fill_bytes(&mut payload);
    let mut writer = LogWriter::new(0);
    writer.append(&payload).expect("Failed writing the payload");
    assert_eq!(writer.block_pos(), payload_size + LOG_RECORD_HEADER_SIZE);

    let payload_size = 1;
    let mut payload: Vec<u8> = vec![0; payload_size];
    rand::thread_rng().fill_bytes(&mut payload);
    writer.append(&payload).expect("Failed writing the payload");
    // This payload should be written to the next block
    assert_eq!(writer.block_pos(), payload_size + LOG_RECORD_HEADER_SIZE);
}

#[test]
fn empty_payload_is_refused_and_changes_nothing() {
    let mut writer = LogWriter::new(0);
    writer.append(&[1, 2, 3]).unwrap();
    let before = (writer.block_pos(), writer.record_count());
    match writer.append(&[]) {
        Err(Error::ValueError(message)) => assert_eq!(message, "Payload is empty"),
        _ => panic!("Expected a value error"),
    }
    assert_eq!((writer.block_pos(), writer.record_count()), before);
}

#[test]
fn small_payload_is_one_full_record() {
    let mut writer = LogWriter::new(0);
    let log = writer.append(b"hello").unwrap();
    let crc = crc32c::crc32c(b"hello");
    let mut expected = crc.to_be_bytes().to_vec();
    expected.extend_from_slice(&[0, 5, 4]);
    expected.extend_from_slice(b"hello");
    assert_eq!(log, expected);
    assert_eq!(writer.block_pos(), 12);
    assert_eq!(writer.record_count(), 1);
}

#[test]
fn block_position_adds_up_over_appends() {
    let mut writer = LogWriter::new(0);
    let mut log = writer.append(&[1, 2, 3]).unwrap();
    assert_eq!(writer.block_pos(), 10);
    log.extend(writer.append(&[4, 5, 6]).unwrap());
    assert_eq!(writer.block_pos(), 20);
    assert_eq!(log.len(), 20);
    assert_eq!(
        records_of(&log),
        vec![
            (0, RecordType::Full, vec![1, 2, 3]),
            (0, RecordType::Full, vec![4, 5, 6]),
        ]
    );
    assert_eq!(writer.record_count(), 2);
}

#[test]
fn two_blocks_of_payload_are_three_records() {
    let mut payload: Vec<u8> = vec![0; 2 * 32768];
    rand::thread_rng().fill_bytes(&mut payload);
    let mut writer = LogWriter::new(0);
    let log = writer.append(&payload).unwrap();
    let records = records_of(&log);
    assert_eq!(records.len(), 3);
    assert_eq!(records[0].1, RecordType::First);
    assert_eq!(records[0].2.len(), 32761);
    assert_eq!(records[1].1, RecordType::Middle);
    assert_eq!(records[1].2.len(), 32761);
    assert_eq!(records[2].1, RecordType::Last);
    assert_eq!(records[2].2.len(), 14);
    assert!(records.iter().all(|r| r.0 == 0));
    let joined: Vec<u8> = records.iter().flat_map(|r| r.2.clone()).collect();
    assert_eq!(joined, payload);
    assert_eq!(writer.block_pos(), 21);
    assert_eq!(writer.record_count(), 3);
    assert_eq!(log.len(), 2 * 32768 + 21);
}

#[test]
fn short_block_tail_is_padded_with_zeros() {
    let mut payload: Vec<u8> = vec![0; 32760];
    rand::thread_rng().fill_bytes(&mut payload);
    let mut writer = LogWriter::new(0);
    let mut log = writer.append(&payload).unwrap();
    assert_eq!(writer.block_pos(), 32767);
    assert_eq!(log.len(), 32767);

    let second = writer.append(&[0x5A]).unwrap();
    assert_eq!(second.len(), 1 + 8);
    assert_eq!(second[0], 0);
    assert_eq!(writer.block_pos(), 8);
    log.extend(second);
    assert_eq!(
        records_of(&log),
        vec![
            (0, RecordType::Full, payload.clone()),
            (1, RecordType::Full, vec![0x5A]),
        ]
    );
}

#[test]
fn padding_has_every_length_below_a_record() {
    for tail in 0..=8usize {
        let first_len = 32768 - 7 - tail;
        let payload = vec![0xC3u8; first_len];
        let mut writer = LogWriter::new(0);
        let mut log = writer.append(&payload).unwrap();
        assert_eq!(writer.block_pos(), 32768 - tail);
        let second = writer.append(&[1, 2]).unwrap();
        if tail < 8 {
            assert_eq!(second.len(), tail + 9);
            assert!(second[..tail].iter().all(|b| *b == 0));
            assert_eq!(writer.block_pos(), 9);
        } else {
            // Eight bytes hold a header and the first payload byte.
            assert_eq!(second.len(), 8 + 8);
            assert_eq!(writer.block_pos(), 8);
        }
        log.extend(second);
        let records = records_of(&log);
        if tail < 8 {
            assert_eq!(records.len(), 2);
            assert_eq!(records[1], (tail, RecordType::Full, vec![1, 2]));
        } else {
            assert_eq!(records.len(), 3);
            assert_eq!(records[1], (0, RecordType::First, vec![1]));
            assert_eq!(records[2], (0, RecordType::Last, vec![2]));
        }
    }
}

#[test]
fn payload_that_fills_the_block_exactly() {
    let payload = vec![7u8; 32761];
    let mut writer = LogWriter::new(0);
    let mut log = writer.append(&payload).unwrap();
    assert_eq!(log.len(), 32768);
    assert_eq!(writer.block_pos(), 32768);
    log.extend(writer.append(&[9]).unwrap());
    assert_eq!(writer.block_pos(), 8);
    assert_eq!(
        records_of(&log),
        vec![(0, RecordType::Full, payload), (0, RecordType::Full, vec![9])]
    );
}

#[test]
fn writer_goes_on_in_the_last_block_of_a_log() {
    let writer = LogWriter::new(0);
    assert_eq!(writer.block_pos(), 0);
    let writer = LogWriter::new(10);
    assert_eq!(writer.block_pos(), 10);
    let writer = LogWriter::new(32768);
    assert_eq!(writer.block_pos(), 0);
    let mut writer = LogWriter::new(3 * 32768 + 32765);
    assert_eq!(writer.block_pos(), 32765);
    let bytes = writer.append(&[1]).unwrap();
    assert_eq!(bytes.len(), 3 + 8);
    assert_eq!(&bytes[..3], &[0, 0, 0]);
    assert_eq!(writer.block_pos(), 8);
}

#[test]
fn long_payload_has_many_middle_records() {
    let payload: Vec<u8> = (0..5 * 32768 + 100).map(|i| (i % 251) as u8).collect();
    let mut writer = LogWriter::new(100);
    let mut log = vec![0xEEu8; 0];
    // Stand at byte 100 of a block: the walk below needs the bytes before.
    let mut first = LogWriter::new(0);
    log.extend(first.append(&[0u8; 93]).unwrap());
    assert_eq!(first.block_pos(), 100);
    log.extend(writer.append(&payload).unwrap());
    let records = records_of(&log);
    let types: Vec<RecordType> = records.iter().skip(1).map(|r| r.1).collect();
    assert_eq!(types.first(), Some(&RecordType::First));
    assert_eq!(types.last(), Some(&RecordType::Last));
    assert!(types[1..types.len() - 1]
        .iter()
        .all(|t| *t == RecordType::Middle));
    assert_eq!(types.len(), 6);
    let joined: Vec<u8> = records.iter().skip(1).flat_map(|r| r.2.clone()).collect();
    assert_eq!(joined, payload);
    assert_eq!(writer.record_count(), 6);
}
