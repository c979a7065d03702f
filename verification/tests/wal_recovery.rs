use mini_lsm::error::Error;
use mini_lsm::log_reader::Iter;
use mini_lsm::log_writer::LogWriter;
use mini_lsm::memtable::Memtable;
use mini_lsm::wal_recovery::{consume_write_batch, load, replay};
use mini_lsm::write_batch::{WriteBatch, WriteBatchBuilder};

fn dump(memtable: &Memtable) -> Vec<(Vec<u8>, Vec<u8>)> {
    let mut found = Vec::new();
    let mut it = memtable.scan(&[], &[0xFF; 64]);
    while let Some((key, value)) = it.next() {
        found.push((key.to_vec(), value.to_vec()));
    }
    found
}

#[test]
fn batch_is_applied_in_order() {
    let mut wb = WriteBatch::new();
    wb.insert_or_update(b"a", b"1");
    wb.insert_or_update(b"b", b"2");
    wb.insert_or_update(b"a", b"3");
    wb.delete(b"b");
    wb.delete(b"c");
    wb.insert_or_update(b"c", b"4");
    let mut memtable = Memtable::new();
    memtable.insert_or_update(b"z", b"26");
    consume_write_batch(&mut memtable, &wb);
    assert_eq!(
        dump(&memtable),
        vec![
            (b"a".to_vec(), b"3".to_vec()),
            (b"c".to_vec(), b"4".to_vec()),
            (b"z".to_vec(), b"26".to_vec()),
        ]
    );
}

#[test]
fn empty_log_recovers_nothing() {
    let mut memtable = Memtable::new();
    load(&[], &mut memtable).unwrap();
    assert!(dump(&memtable).is_empty());
}

#[test]
fn log_of_batches_is_recovered() {
    let mut writer = LogWriter::new(0);
    let mut log = Vec::new();
    let mut expected = Vec::new();
    for round in 0..3u32 {
        let mut wb = WriteBatch::new();
        for i in 0..3000u32 {
            let value = vec![(round + 1) as u8; 60];
            wb.insert_or_update(&i.to_be_bytes(), &value);
        }
        log.extend(writer.append(wb.as_bytes()).unwrap());
    }
    let mut wb = WriteBatch::new();
    for i in (0..3000u32).step_by(2) {
        wb.delete(&i.to_be_bytes());
    }
    log.extend(writer.append(wb.as_bytes()).unwrap());
    for i in (1..3000u32).step_by(2) {
        expected.push((i.to_be_bytes().to_vec(), vec![3u8; 60]));
    }
    assert!(log.len() > 4 * 131072);

    let mut memtable = Memtable::new();
    load(&log, &mut memtable).unwrap();
    assert_eq!(dump(&memtable), expected);
}

#[test]
fn recovery_twice_gives_the_same_table() {
    let mut writer = LogWriter::new(0);
    let mut log = Vec::new();
    let mut wb = WriteBatch::new();
    wb.insert_or_update(b"a", b"1");
    wb.insert_or_update(b"b", b"2");
    log.extend(writer.append(wb.as_bytes()).unwrap());
    let mut wb = WriteBatch::new();
    wb.delete(b"a");
    wb.insert_or_update(b"c", b"3");
    log.extend(writer.append(wb.as_bytes()).unwrap());

    let mut once = Memtable::new();
    load(&log, &mut once).unwrap();
    let mut twice = Memtable::new();
    load(&log, &mut twice).unwrap();
    load(&log, &mut twice).unwrap();
    let mut other = Memtable::new();
    load(&log, &mut other).unwrap();
    assert_eq!(dump(&once), dump(&twice));
    assert_eq!(dump(&once), dump(&other));
    assert_eq!(
        dump(&once),
        vec![(b"b".to_vec(), b"2".to_vec()), (b"c".to_vec(), b"3".to_vec())]
    );
}

#[test]
fn insert_then_delete_recovers_absent() {
    let mut writer = LogWriter::new(0);
    let mut log = Vec::new();
    let mut wb = WriteBatch::new();
    wb.insert_or_update(b"k", b"v");
    log.extend(writer.append(wb.as_bytes()).unwrap());
    let mut wb = WriteBatch::new();
    wb.delete(b"k");
    log.extend(writer.append(wb.as_bytes()).unwrap());
    let mut memtable = Memtable::new();
    load(&log, &mut memtable).unwrap();
    assert_eq!(memtable.get(b"k"), None);
}

#[test]
fn damaged_payload_stops_recovery() {
    let mut writer = LogWriter::new(0);
    let mut log = Vec::new();
    let mut wb = WriteBatch::new();
    wb.insert_or_update(b"first", b"1");
    log.extend(writer.append(wb.as_bytes()).unwrap());
    let second_at = log.len();
    let mut wb = WriteBatch::new();
    wb.insert_or_update(b"second", b"2");
    log.extend(writer.append(wb.as_bytes()).unwrap());
    let mut wb = WriteBatch::new();
    wb.insert_or_update(b"third", b"3");
    log.extend(writer.append(wb.as_bytes()).unwrap());

    let expected = u32::from_be_bytes(log[second_at..second_at + 4].try_into().unwrap());
    log[second_at + 7 + 20] ^= 0x01;
    let mut memtable = Memtable::new();
    match load(&log, &mut memtable) {
        Err(Error::InvalidCrc(e, a)) => {
            assert_eq!(e, expected);
            assert_ne!(a, expected);
        }
        _ => panic!("Expected InvalidCrc error"),
    }
    // What came before the damage stays applied.
    assert_eq!(dump(&memtable), vec![(b"first".to_vec(), b"1".to_vec())]);
}

#[test]
fn record_without_a_type_stops_recovery() {
    let mut log = vec![0u8; 8];
    log[5] = 1;
    log[0..4].copy_from_slice(&crc32c::crc32c(&[0]).to_be_bytes());
    let mut memtable = Memtable::new();
    match load(&log, &mut memtable) {
        Err(Error::InvalidRecordType(b)) => assert_eq!(b, 0),
        _ => panic!("Expected InvalidRecordType error"),
    }
}

#[test]
fn unknown_type_stops_recovery() {
    let mut writer = LogWriter::new(0);
    let mut wb = WriteBatch::new();
    wb.insert_or_update(b"k", b"v");
    let mut log = writer.append(wb.as_bytes()).unwrap();
    log[6] = 9;
    let mut memtable = Memtable::new();
    match load(&log, &mut memtable) {
        Err(Error::InvalidRecordType(b)) => assert_eq!(b, 9),
        _ => panic!("Expected InvalidRecordType error"),
    }
    assert!(dump(&memtable).is_empty());
}

#[test]
fn cut_record_stops_recovery() {
    let mut writer = LogWriter::new(0);
    let mut wb = WriteBatch::new();
    wb.insert_or_update(b"k", b"v");
    let log = writer.append(wb.as_bytes()).unwrap();
    let mut memtable = Memtable::new();
    match load(&log[..log.len() - 1], &mut memtable) {
        Err(Error::WalRecordTooSmall(actual, needed)) => {
            assert_eq!(actual, log.len() - 1);
            assert_eq!(needed, log.len());
        }
        _ => panic!("Expected WalRecordTooSmall error"),
    }
}

#[test]
fn unfinished_payload_is_not_applied() {
    let mut wb = WriteBatch::new();
    for i in 0..4000u32 {
        wb.insert_or_update(&i.to_be_bytes(), &[1u8; 20]);
    }
    let mut writer = LogWriter::new(0);
    let log = writer.append(wb.as_bytes()).unwrap();
    assert!(log.len() > 2 * 32768);
    // Only the first two blocks: a First and a Middle record.
    let mut memtable = Memtable::new();
    load(&log[..2 * 32768], &mut memtable).unwrap();
    assert!(dump(&memtable).is_empty());
}

#[test]
fn replay_goes_on_where_the_bytes_ended() {
    let mut writer = LogWriter::new(0);
    let mut log = Vec::new();
    for i in 0..50u32 {
        let mut wb = WriteBatch::new();
        wb.insert_or_update(&i.to_be_bytes(), &vec![i as u8; 3000]);
        log.extend(writer.append(wb.as_bytes()).unwrap());
    }
    let mut expected = Memtable::new();
    load(&log, &mut expected).unwrap();

    for piece in [1usize, 13, 3000, 32768, 40000] {
        let mut memtable = Memtable::new();
        let mut iter = Iter::new();
        let mut builder = WriteBatchBuilder::new();
        let mut pos = 0;
        loop {
            replay(&mut iter, &mut builder, &mut memtable).unwrap();
            if !iter.wants_data() {
                break;
            }
            let n = piece.min(log.len() - pos);
            iter.fill_buffer(&log[pos..pos + n]);
            pos += n;
        }
        assert_eq!(dump(&memtable), dump(&expected));
        assert_eq!(dump(&memtable).len(), 50);
    }
}
