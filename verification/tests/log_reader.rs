use mini_lsm::error::Error;
use mini_lsm::lending_iterator::LendingIterator;
use mini_lsm::log_reader::{Iter, LogReader};
use mini_lsm::log_record::RecordType;
use mini_lsm::log_writer::LogWriter;
use mini_lsm::write_batch::{WriteBatch, WriteBatchBuilder};
use rand::rngs::StdRng;
use rand::{Rng, RngCore, SeedableRng};

/// Reads a whole log that is handed to the reader in pieces of `piece`
/// bytes, and returns the records with their types.
fn read_all(log: &[u8], piece: usize) -> Result<Vec<(RecordType, Vec<u8>)>, Error> {
    let mut iter = LogReader::new("/tmp/file.log")
        .unwrap()
        .to_iter()
        .unwrap();
    let mut records = Vec::new();
    let mut pos = 0;
    loop {
        while iter.wants_data() {
            let n = piece.min(log.len() - pos);
            iter.fill_buffer(&log[pos..pos + n]);
            pos += n;
        }
        match iter.next() {
            None => return Ok(records),
            Some(Err(e)) => return Err(e),
            Some(Ok(record)) => records.push((record.rtype, record.payload.to_vec())),
        }
    }
}

#[test]
fn test_new_log_reader() {
    let file_path = "/tmp/file.log";
    let log_reader = LogReader::new(file_path).unwrap();
    assert_eq!(log_reader.file_path(), file_path);
}

#[test]
fn test_log_reader_to_iter() {
    let file_path = "/tmp/file.log";
    let log_reader = LogReader::new(file_path).unwrap();
    let mut iter = log_reader.to_iter().unwrap();
    assert_eq!(iter.curr_idx(), 0);
    assert_eq!(iter.bytes_remaining(), 0);
    // The log is empty: the reader is told so by an empty piece.
    iter.fill_buffer(&[]);
    assert_eq!(iter.next().is_none(), true);
}

#[test]
fn test_iter_next() {
    // Write a bunch of key-value pairs to the log
    let mut data = Vec::new();
    let mut wb = WriteBatch::new();
    let count: i32 = 100000;
    for i in 1..count {
        wb.insert_or_update(i.to_be_bytes().as_ref(), i.to_be_bytes().as_ref());
        data.push((i.to_be_bytes(), i.to_be_bytes()));
    }
    let mut log_writer = LogWriter::new(0);
    let log = log_writer.append(wb.as_bytes()).unwrap();

    // Read the log and construct a write batch
    let mut builder = WriteBatchBuilder::new();
    let log_reader = LogReader::new("/tmp/file.log").unwrap();
    let mut log_iter = log_reader.to_iter().unwrap();
    let mut pos = 0;
    loop {
        while log_iter.wants_data() {
            let n = (4 * 32768).min(log.len() - pos);
            log_iter.fill_buffer(&log[pos..pos + n]);
            pos += n;
        }
        match log_iter.next() {
            None => break,
            Some(record) => {
                let record = record.unwrap();
                builder.accumulate_record(&record).unwrap();
            }
        }
    }
    assert!(builder.is_ready());
    let wb = builder.get_write_batch();

    // Verify the data in the WriteBatch read from the log.
    assert_eq!(wb.count(), data.len().try_into().unwrap());
    let mut it = wb.iter();
    let mut idx = 0;
    while let Some((key, value)) = it.next() {
        assert_eq!(data[idx].0, key);
        assert_eq!(data[idx].1, value.unwrap());
        idx += 1;
    }
    assert_eq!(idx, data.len());
    builder.consume();
}

#[test]
fn fresh_reader_wants_data() {
    let mut iter = Iter::new();
    assert!(iter.wants_data());
    assert!(iter.next().is_none());
    assert!(iter.wants_data());
    iter.fill_buffer(&[]);
    assert!(!iter.wants_data());
    assert!(iter.next().is_none());
}

#[test]
fn records_come_out_whatever_the_pieces() {
    let payloads: Vec<Vec<u8>> = vec![
        vec![1, 2, 3],
        (0..70000).map(|i| (i % 253) as u8).collect(),
        vec![9],
        vec![0x11; 32754],
        vec![0x22; 10],
    ];
    let mut writer = LogWriter::new(0);
    let mut log = Vec::new();
    for p in payloads.iter() {
        log.extend(writer.append(p).unwrap());
    }
    let whole = read_all(&log, log.len().max(1)).unwrap();
    let types: Vec<RecordType> = whole.iter().map(|r| r.0).collect();
    assert_eq!(
        types,
        vec![
            RecordType::Full,
            RecordType::First,
            RecordType::Middle,
            RecordType::Last,
            RecordType::Full,
            RecordType::First,
            RecordType::Last,
            RecordType::Full,
        ]
    );
    for piece in [1usize, 2, 5, 7, 8, 9, 100, 4096, 32767, 32768, 32769, 131072] {
        assert_eq!(read_all(&log, piece).unwrap(), whole);
    }
}

#[test]
fn padding_at_the_end_of_a_block_is_passed_over() {
    for tail in 1..8usize {
        let mut writer = LogWriter::new(0);
        let mut log = writer.append(&vec![0xABu8; 32768 - 7 - tail]).unwrap();
        log.extend(writer.append(&[1, 2, 3]).unwrap());
        let records = read_all(&log, 1000).unwrap();
        assert_eq!(records.len(), 2);
        assert_eq!(records[0].1.len(), 32768 - 7 - tail);
        assert_eq!(records[1], (RecordType::Full, vec![1, 2, 3]));
    }
}

#[test]
fn reader_follows_its_cursor() {
    let mut writer = LogWriter::new(0);
    let log = writer.append(b"abc").unwrap();
    let mut iter = Iter::new();
    iter.fill_buffer(&log[..4]);
    assert_eq!(iter.bytes_remaining(), 4);
    assert!(iter.wants_data());
    assert!(iter.next().is_none());
    iter.fill_buffer(&log[4..9]);
    // The header is there, the payload is not.
    assert!(iter.wants_data());
    assert!(iter.next().is_none());
    assert_eq!(iter.bytes_remaining(), 9);
    iter.fill_buffer(&log[9..]);
    assert!(!iter.wants_data());
    let record = iter.next().unwrap().unwrap();
    assert_eq!(record.payload, b"abc");
    assert_eq!(record.rtype, RecordType::Full);
    assert_eq!(iter.bytes_remaining(), 0);
    assert_eq!(iter.curr_idx(), 10);
    assert!(iter.wants_data());
    iter.fill_buffer(&[]);
    assert_eq!(iter.curr_idx(), 0);
    assert!(iter.next().is_none());
}

#[test]
fn short_tail_is_a_clean_end() {
    let mut writer = LogWriter::new(0);
    let mut log = writer.append(b"abc").unwrap();
    log.extend_from_slice(&[1, 2, 3, 4, 5, 6, 7]);
    let records = read_all(&log, 64).unwrap();
    assert_eq!(records, vec![(RecordType::Full, b"abc".to_vec())]);
}

#[test]
fn cut_record_at_the_end_is_a_failure() {
    let mut writer = LogWriter::new(0);
    let log = writer.append(&[5u8; 100]).unwrap();
    match read_all(&log[..50], 16) {
        Err(Error::WalRecordTooSmall(actual, needed)) => {
            assert_eq!(actual, 50);
            assert_eq!(needed, 107);
        }
        _ => panic!("Expected WalRecordTooSmall error"),
    }
}

#[test]
fn unknown_type_is_a_failure_before_the_payload_comes() {
    let mut iter = Iter::new();
    iter.fill_buffer(&[0, 0, 0, 0, 0xFF, 0xFF, 77, 1]);
    assert!(!iter.wants_data());
    match iter.next() {
        Some(Err(Error::InvalidRecordType(b))) => assert_eq!(b, 77),
        _ => panic!("Expected InvalidRecordType error"),
    }
    // The failure stays where it is.
    assert_eq!(iter.bytes_remaining(), 8);
    match iter.next() {
        Some(Err(Error::InvalidRecordType(b))) => assert_eq!(b, 77),
        _ => panic!("Expected InvalidRecordType error"),
    }
}

#[test]
fn reader_does_not_validate_checksums() {
    let mut writer = LogWriter::new(0);
    let mut log = writer.append(b"abcdef").unwrap();
    log[8] ^= 0x40;
    let records = read_all(&log, 64).unwrap();
    assert_eq!(records.len(), 1);
    assert_ne!(records[0].1, b"abcdef".to_vec());
}

#[test]
fn log_round_trip_of_payloads() {
    let mut payloads: Vec<Vec<u8>> = Vec::new();
    let lengths = [
        1usize, 2, 7, 8, 100, 32753, 32754, 32760, 32761, 32762, 65522, 65523, 100000, 1, 3,
    ];
    for (i, len) in lengths.iter().enumerate() {
        payloads.push((0..*len).map(|j| (i * 37 + j * 11) as u8).collect());
    }
    let mut writer = LogWriter::new(0);
    let mut log = Vec::new();
    for p in payloads.iter() {
        log.extend(writer.append(p).unwrap());
    }
    assert_eq!(writer.block_pos(), log.len() % 32768);

    for piece in [3usize, 4096, 131072] {
        let mut iter = Iter::new();
        let mut builder = WriteBatchBuilder::new();
        let mut read: Vec<Vec<u8>> = Vec::new();
        let mut pos = 0;
        loop {
            while iter.wants_data() {
                let n = piece.min(log.len() - pos);
                iter.fill_buffer(&log[pos..pos + n]);
                pos += n;
            }
            match iter.next() {
                None => break,
                Some(record) => {
                    builder.accumulate_record(&record.unwrap()).unwrap();
                    if builder.is_ready() {
                        read.push(builder.get_write_batch().as_bytes().to_vec());
                        builder.consume();
                    }
                }
            }
        }
        assert_eq!(read, payloads);
        assert_eq!(iter.bytes_remaining(), 0);
        assert!(!builder.is_ready());
    }
}

#[test]
fn random_payloads_come_back_through_random_pieces() {
    let mut rng = StdRng::seed_from_u64(0x5EED_0001);
    for _ in 0..20 {
        let mut payloads: Vec<Vec<u8>> = Vec::new();
        let mut writer = LogWriter::new(0);
        let mut log = Vec::new();
        for _ in 0..rng.gen_range(1..30usize) {
            let len = match rng.gen_range(0..4u8) {
                0 => rng.gen_range(1..20usize),
                1 => rng.gen_range(32700..32800usize),
                2 => rng.gen_range(1..100000usize),
                _ => (32768 - (writer.block_pos() % 32768))
                    .saturating_sub(rng.gen_range(0..16usize)),
            }
            .max(1);
            let mut payload = vec![0u8; len];
            rng.fill_bytes(&mut payload);
            log.extend(writer.append(&payload).unwrap());
            assert_eq!(writer.block_pos() % 32768, log.len() % 32768);
            payloads.push(payload);
        }

        let mut iter = Iter::new();
        let mut builder = WriteBatchBuilder::new();
        let mut read: Vec<Vec<u8>> = Vec::new();
        let mut pos = 0;
        loop {
            while iter.wants_data() {
                let n = rng.gen_range(0..70000usize).min(log.len() - pos);
                let n = if n == 0 && pos < log.len() { 1 } else { n };
                iter.fill_buffer(&log[pos..pos + n]);
                pos += n;
            }
            match iter.next() {
                None => break,
                Some(record) => {
                    builder.accumulate_record(&record.unwrap()).unwrap();
                    if builder.is_ready() {
                        read.push(builder.get_write_batch().as_bytes().to_vec());
                        builder.consume();
                    }
                }
            }
        }
        assert_eq!(read, payloads);
    }
}
