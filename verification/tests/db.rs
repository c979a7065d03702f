use mini_lsm::error::Error;
use mini_lsm::write_batch::WriteBatch;
use mini_lsm::log_writer::LogWriter;
use mini_lsm::{Recovery, DB};
use std::collections::HashSet;

/// A store together with the bytes of its log, which stand for the file.
struct Store {
    db: DB,
    log: Vec<u8>,
}

impl Store {
    fn open(log: Vec<u8>) -> Store {
        let db = DB::new(&log).expect("Failed to create a new DB");
        Store { db, log }
    }

    fn insert_or_update(&mut self, key: &[u8], value: &[u8]) -> Result<(), Error> {
        let bytes = self.db.insert_or_update(key, value)?;
        self.log.extend(bytes);
        Ok(())
    }

    fn delete(&mut self, key: &[u8]) -> Result<(), Error> {
        let bytes = self.db.delete(key)?;
        self.log.extend(bytes);
        Ok(())
    }

    fn get(&self, key: &[u8]) -> Result<Option<&[u8]>, Error> {
        self.db.get(key)
    }
}

fn populate(count: i32, kvstore: &mut Store) -> Vec<(i32, i32)> {
    let mut data: Vec<(i32, i32)> = vec![];
    for i in 0..count {
        data.push((i, i));
    }

    for (key, value) in data.iter() {
        kvstore
            .insert_or_update(&key.to_be_bytes(), &value.to_be_bytes())
            .expect("Insert failed");
    }

    data
}

fn update(data: &mut Vec<(i32, i32)>, kvstore: &mut Store) {
    for (_, value) in data.iter_mut() {
        *value = 2 * (*value);
    }

    for (key, value) in data.iter() {
        kvstore
            .insert_or_update(&key.to_be_bytes(), &value.to_be_bytes())
            .expect("Update failed");
    }
}

fn validate_key_values(
    data: &Vec<(i32, i32)>,
    deleted_keys: Option<&HashSet<i32>>,
    kvstore: &Store,
) {
    for (key, value) in data {
        if deleted_keys.is_some() && deleted_keys.unwrap().get(key).is_some() {
            assert!(
                kvstore
                    .get(key.to_be_bytes().as_ref())
                    .expect("Get failed")
                    .is_none(),
                "Expected key {} to be deleted",
                key
            );
        } else {
            assert_eq!(
                kvstore
                    .get(key.to_be_bytes().as_ref())
                    .expect("Get failed")
                    .expect(&format!("Expected a non-empty value for key {}", key)),
                value.to_be_bytes()
            );
        }
    }
}

fn delete_keys(keys: &HashSet<i32>, kvstore: &mut Store) {
    for key in keys {
        kvstore
            .delete(key.to_be_bytes().as_ref())
            .expect("Delete failed");
    }
}

#[test]
fn lib_insert_or_update() {
    let mut kvstore = Store::open(Vec::new());
    let count = 1000;

    // Test inserts
    let mut data: Vec<(i32, i32)> = populate(count, &mut kvstore);

    // Test updates
    update(&mut data, &mut kvstore)
}

#[test]
fn get() {
    let mut kvstore = Store::open(Vec::new());
    let count = 1000;

    // Check that a non-exisitent key returns an empty value
    assert!(kvstore
        .get((1 as i32).to_be_bytes().as_ref())
        .expect("Get failed")
        .is_none());

    // Populate the KVStore and validate the data
    let mut data = populate(count, &mut kvstore);
    validate_key_values(&data, None, &kvstore);

    // Update all the values and validate the data
    update(&mut data, &mut kvstore);
    validate_key_values(&data, None, &kvstore);
}

#[test]
fn lib_delete() {
    let mut kvstore = Store::open(Vec::new());
    let count = 1000;

    // Populate the KVStore and validate the data
    let data = populate(count, &mut kvstore);
    validate_key_values(&data, None, &kvstore);

    // Delete half the keys and validate that they are deleted
    let mut keys_to_delete = HashSet::new();
    for (idx, (key, _)) in data.iter().enumerate() {
        if idx % 2 == 0 {
            keys_to_delete.insert(*key);
        }
    }
    delete_keys(&keys_to_delete, &mut kvstore);
    validate_key_values(&data, Some(&keys_to_delete), &kvstore);
}

#[test]
fn scan() {
    let mut kvstore = Store::open(Vec::new());
    let count = 1000;

    let mut data = populate(count, &mut kvstore);
    data.sort();

    let start_idx = data.len() / 2;
    let end_idx = data.len() - 1;

    let mut result = Vec::new();
    let mut it = kvstore
        .db
        .scan(
            data[start_idx].0.to_be_bytes().as_ref(),
            data[end_idx].0.to_be_bytes().as_ref(),
        )
        .expect("range query returned an error");
    while let Some((key, value)) = it.next() {
        let key = i32::from_be_bytes(key.try_into().unwrap());
        let value = i32::from_be_bytes(value.try_into().unwrap());
        result.push((key, value));
    }
    assert_eq!(result, &data[start_idx..end_idx]);
}

#[test]
fn recovery() {
    let mut kvstore = Store::open(Vec::new());
    let count = 1000;

    // Insert initial set of values into the database
    let mut data = populate(count, &mut kvstore);
    validate_key_values(&data, None, &kvstore);

    // Update certain values in the database
    update(&mut data, &mut kvstore);
    validate_key_values(&data, None, &kvstore);

    // Delete every second key from the database
    let mut keys_to_delete = HashSet::new();
    for (idx, (key, _)) in data.iter().enumerate() {
        if idx % 2 == 0 {
            keys_to_delete.insert(*key);
        }
    }
    delete_keys(&keys_to_delete, &mut kvstore);
    validate_key_values(&data, Some(&keys_to_delete), &kvstore);

    // Re-instantiate the database to simulate recovery and validate the integrity of data post-recovery
    let kvstore = Store::open(kvstore.log);
    validate_key_values(&data, Some(&keys_to_delete), &kvstore);
}

#[test]
fn store_goes_on_writing_after_reopen() {
    let mut kvstore = Store::open(Vec::new());
    for round in 0..3 {
        for i in 0..700i32 {
            let value = vec![(round * 50 + i % 50) as u8; 97];
            kvstore.insert_or_update(&i.to_be_bytes(), &value).unwrap();
        }
        for i in (round * 100)..(round * 100 + 50) {
            kvstore.delete(&(i as i32).to_be_bytes()).unwrap();
        }
        // The log does not end at a block boundary.
        assert_ne!(kvstore.log.len() % 32768, 0);
        let reopened = Store::open(kvstore.log.clone());
        for i in 0..700i32 {
            assert_eq!(
                reopened.get(&i.to_be_bytes()).unwrap(),
                kvstore.get(&i.to_be_bytes()).unwrap()
            );
        }
        kvstore = reopened;
    }
    assert!(kvstore.log.len() > 3 * 32768);
    assert_eq!(
        kvstore.get(&0i32.to_be_bytes()).unwrap(),
        Some(&vec![(2 * 50) as u8; 97][..])
    );
    assert_eq!(kvstore.get(&200i32.to_be_bytes()).unwrap(), None);
    assert_eq!(kvstore.get(&249i32.to_be_bytes()).unwrap(), None);
    assert_eq!(
        kvstore.get(&699i32.to_be_bytes()).unwrap(),
        Some(&vec![(2 * 50 + 699 % 50) as u8; 97][..])
    );
}

#[test]
fn write_applies_a_batch_in_order() {
    let mut kvstore = Store::open(Vec::new());
    let mut wb = WriteBatch::new();
    wb.insert_or_update(b"a", b"1");
    wb.insert_or_update(b"b", b"2");
    wb.delete(b"a");
    wb.insert_or_update(b"b", b"3");
    let bytes = kvstore.db.write(&wb).unwrap();
    assert_eq!(bytes.len(), 7 + wb.len());
    assert_eq!(&bytes[7..], wb.as_bytes());
    kvstore.log.extend(bytes);
    assert_eq!(kvstore.get(b"a").unwrap(), None);
    assert_eq!(kvstore.get(b"b").unwrap(), Some(&b"3"[..]));
    let reopened = Store::open(kvstore.log);
    assert_eq!(reopened.get(b"a").unwrap(), None);
    assert_eq!(reopened.get(b"b").unwrap(), Some(&b"3"[..]));
}

#[test]
fn delete_makes_a_key_absent() {
    let mut kvstore = Store::open(Vec::new());
    kvstore.delete(b"never there").unwrap();
    assert_eq!(kvstore.get(b"never there").unwrap(), None);
    kvstore.insert_or_update(b"k", b"v").unwrap();
    assert_eq!(kvstore.get(b"k").unwrap(), Some(&b"v"[..]));
    kvstore.delete(b"k").unwrap();
    assert_eq!(kvstore.get(b"k").unwrap(), None);
    let reopened = Store::open(kvstore.log);
    assert_eq!(reopened.get(b"k").unwrap(), None);
}

#[test]
fn empty_value_is_a_delete() {
    let mut kvstore = Store::open(Vec::new());
    kvstore.insert_or_update(b"k", b"v").unwrap();
    kvstore.insert_or_update(b"k", b"").unwrap();
    assert_eq!(kvstore.get(b"k").unwrap(), None);
}

#[test]
fn open_fails_where_recovery_fails() {
    let mut kvstore = Store::open(Vec::new());
    kvstore.insert_or_update(b"k", b"v").unwrap();
    let mut log = kvstore.log.clone();
    let last = log.len() - 1;
    log[last] ^= 0xFF;
    match DB::new(&log) {
        Err(Error::InvalidCrc(_, _)) => {}
        _ => panic!("Expected InvalidCrc error"),
    }
}

#[test]
fn write_in_two_steps() {
    let mut db = DB::new(&[]).unwrap();
    let mut wb = WriteBatch::new();
    wb.insert_or_update(b"k", b"v");
    let bytes = db.stage(&wb).unwrap();
    // The log has the batch; the memtable has yet to take it in.
    assert_eq!(bytes.len(), 7 + wb.len());
    assert_eq!(db.get(b"k").unwrap(), None);
    db.commit(&wb);
    assert_eq!(db.get(b"k").unwrap(), Some(&b"v"[..]));

    let mut other = DB::new(&[]).unwrap();
    assert_eq!(other.write(&wb).unwrap(), bytes);
    assert_eq!(other.get(b"k").unwrap(), Some(&b"v"[..]));
}

#[test]
fn store_opens_on_a_log_that_comes_in_pieces() {
    let mut kvstore = Store::open(Vec::new());
    for i in 0..2000i32 {
        kvstore
            .insert_or_update(&i.to_be_bytes(), &vec![(i % 251) as u8; 50])
            .unwrap();
    }
    for i in (0..2000i32).step_by(5) {
        kvstore.delete(&i.to_be_bytes()).unwrap();
    }
    let log = kvstore.log.clone();
    assert!(log.len() > 3 * 32768);
    for piece in [1usize, 1000, 32768, 131072, log.len()] {
        let mut recovery = Recovery::new();
        for part in log.chunks(piece) {
            recovery = recovery.feed(part).unwrap();
        }
        // An empty piece changes nothing.
        recovery = recovery.feed(&[]).unwrap();
        let mut db = recovery.finish().unwrap();
        for i in 0..2000i32 {
            assert_eq!(
                db.get(&i.to_be_bytes()).unwrap(),
                kvstore.get(&i.to_be_bytes()).unwrap()
            );
        }
        // The writer goes on where the log ends.
        let mut writer = LogWriter::new(log.len() as u64);
        let mut wb = WriteBatch::new();
        wb.insert_or_update(b"next", b"one");
        assert_eq!(
            db.write(&wb).unwrap(),
            writer.append(wb.as_bytes()).unwrap()
        );
    }
}

#[test]
fn recovery_in_pieces_fails_where_a_record_is_refused() {
    let mut kvstore = Store::open(Vec::new());
    kvstore.insert_or_update(b"a", b"1").unwrap();
    let first_len = kvstore.log.len();
    kvstore.insert_or_update(b"b", b"2").unwrap();
    let mut log = kvstore.log.clone();
    log[first_len + 10] ^= 0x80;
    let recovery = Recovery::new().feed(&log[..first_len + 3]).unwrap();
    match recovery.feed(&log[first_len + 3..]) {
        Err(Error::InvalidCrc(_, _)) => {}
        _ => panic!("Expected InvalidCrc error"),
    }
    // A log that ends within a record.
    let recovery = Recovery::new().feed(&kvstore.log[..first_len + 20]).unwrap();
    match recovery.finish() {
        Err(Error::WalRecordTooSmall(actual, needed)) => {
            assert_eq!(actual, 20);
            assert_eq!(needed, kvstore.log.len() - first_len);
        }
        _ => panic!("Expected WalRecordTooSmall error"),
    }
}
