//! The write batch: a byte buffer that groups inserts and deletes so that
//! they reach the log as one payload.
//!
//! ```text
//! Header (16B): Count (4B) | Reserved (12B, zero)
//! Entry:        KeyLen (4B) | Key | ValueLen (4B) | Value
//! ```
//!
//! All integers are big-endian. A value length of zero marks a delete.
use crate::big_endian::{be32, be32_at, lemma_be32_round_trip, push_be32, read_be32};
use crate::error::Error;
use crate::log_record::{crc32c_checksum, crc_matches, LogRecord, LogRecordView, RecordType};
use vstd::prelude::*;

verus! {

pub const HEADER_SIZE: usize = 16;

pub const COUNT_OFFSET: usize = 0;

/// One operation of a batch: a key and the value to store under it, or no
/// value where the key is deleted.
pub type BatchEntry = (Seq<u8>, Option<Seq<u8>>);

/// The operation that `insert_or_update(key, value)` records: an empty
/// value cannot be told from a delete.
pub open spec fn entry_of(key: Seq<u8>, value: Seq<u8>) -> BatchEntry {
    (
        key,
        if value.len() == 0 {
            None
        } else {
            Some(value)
        },
    )
}

/// Whether an operation can be written down: both lengths fit in four bytes,
/// and a stored value is not empty.
pub open spec fn entry_encodable(entry: BatchEntry) -> bool {
    &&& entry.0.len() <= u32::MAX
    &&& entry.1 matches Some(value) ==> 1 <= value.len() <= u32::MAX
}

/// Whether every operation of `entries` can be written down.
pub open spec fn entries_encodable(entries: Seq<BatchEntry>) -> bool {
    forall|i: int| 0 <= i < entries.len() ==> entry_encodable(#[trigger] entries[i])
}

/// The bytes of one operation.
pub open spec fn entry_image(entry: BatchEntry) -> Seq<u8> {
    be32(entry.0.len() as u32) + entry.0 + match entry.1 {
        None => be32(0),
        Some(value) => be32(value.len() as u32) + value,
    }
}

/// The bytes of a sequence of operations, one after the other.
pub open spec fn entries_image(entries: Seq<BatchEntry>) -> Seq<u8>
    decreases entries.len(),
{
    if entries.len() == 0 {
        Seq::empty()
    } else {
        entries_image(entries.drop_last()) + entry_image(entries.last())
    }
}

/// The header of a batch of `count` operations.
pub open spec fn header_image(count: u32) -> Seq<u8> {
    be32(count) + Seq::new(12, |i: int| 0u8)
}

/// The bytes of a whole batch: the header and then the operations.
pub open spec fn batch_image(entries: Seq<BatchEntry>) -> Seq<u8> {
    header_image(entries.len() as u32) + entries_image(entries)
}

/// The operation that stands at `bytes[pos..]` and the position behind it,
/// if a complete one stands there.
pub open spec fn entry_at(bytes: Seq<u8>, pos: int) -> Option<(BatchEntry, int)> {
    if pos < 0 || pos + 4 > bytes.len() {
        None
    } else {
        let key_len = be32_at(bytes, pos);
        let key_end = pos + 4 + key_len;
        if key_end + 4 > bytes.len() {
            None
        } else {
            let key = bytes.subrange(pos + 4, key_end);
            let value_len = be32_at(bytes, key_end);
            let value_end = key_end + 4 + value_len;
            if value_len == 0 {
                Some(((key, None), key_end + 4))
            } else if value_end > bytes.len() {
                None
            } else {
                Some(((key, Some(bytes.subrange(key_end + 4, value_end))), value_end))
            }
        }
    }
}

/// The operations that stand in `bytes` from `pos` on, up to the end or to
/// the first place where no complete operation stands.
pub open spec fn entries_from(bytes: Seq<u8>, pos: int) -> Seq<BatchEntry>
    decreases bytes.len() - pos,
{
    match entry_at(bytes, pos) {
        None => Seq::empty(),
        Some((entry, next)) => seq![entry] + entries_from(bytes, next),
    }
}

/// Where reading operations from `pos` on stops.
pub open spec fn entries_end(bytes: Seq<u8>, pos: int) -> int
    decreases bytes.len() - pos,
{
    match entry_at(bytes, pos) {
        None => pos,
        Some((entry, next)) => entries_end(bytes, next),
    }
}

/// The operations of the batch whose bytes are `bytes`: those that stand
/// behind the header.
pub open spec fn batch_entries(bytes: Seq<u8>) -> Seq<BatchEntry> {
    entries_from(bytes, HEADER_SIZE as int)
}

/// An operation that was written down is read back, whatever stands before
/// and behind it.
pub proof fn lemma_entry_at_image(before: Seq<u8>, entry: BatchEntry, after: Seq<u8>)
    requires
        entry_encodable(entry),
    ensures
        entry_at(before + entry_image(entry) + after, before.len() as int) == Some(
            (entry, (before.len() + entry_image(entry).len()) as int),
        ),
        entry_image(entry).len() >= 8,
{
    let image = entry_image(entry);
    let bytes = before + image + after;
    let pos = before.len() as int;
    let key_len = entry.0.len() as u32;
    assert(bytes.subrange(pos, pos + 4) =~= be32(key_len));
    lemma_be32_round_trip(key_len, bytes, pos);
    let key_end = pos + 4 + key_len;
    assert(bytes.subrange(pos + 4, key_end) =~= entry.0);
    match entry.1 {
        None => {
            assert(bytes.subrange(key_end, key_end + 4) =~= be32(0));
            lemma_be32_round_trip(0, bytes, key_end);
        },
        Some(value) => {
            let value_len = value.len() as u32;
            assert(bytes.subrange(key_end, key_end + 4) =~= be32(value_len));
            lemma_be32_round_trip(value_len, bytes, key_end);
            assert(bytes.subrange(key_end + 4, key_end + 4 + value_len) =~= value);
        },
    }
}

/// An operation that stands complete in `bytes` stands there whatever is
/// appended.
pub proof fn lemma_entry_at_extended(bytes: Seq<u8>, pos: int, more: Seq<u8>)
    requires
        entry_at(bytes, pos) is Some,
    ensures
        entry_at(bytes + more, pos) == entry_at(bytes, pos),
{
    let longer = bytes + more;
    let key_len = be32_at(bytes, pos);
    let key_end = pos + 4 + key_len;
    assert(be32_at(longer, pos) == key_len);
    assert(longer.subrange(pos + 4, key_end) =~= bytes.subrange(pos + 4, key_end));
    let value_len = be32_at(bytes, key_end);
    assert(be32_at(longer, key_end) == value_len);
    if value_len != 0 {
        let value_end = key_end + 4 + value_len;
        assert(longer.subrange(key_end + 4, value_end) =~= bytes.subrange(key_end + 4, value_end));
    }
}

/// Where the operations of `bytes` are read up to its end, those of
/// `bytes` with one more operation appended are the same and that one.
pub proof fn lemma_entries_from_appended(bytes: Seq<u8>, pos: int, entry: BatchEntry)
    requires
        0 <= pos <= bytes.len(),
        entries_end(bytes, pos) == bytes.len(),
        entry_encodable(entry),
    ensures
        entries_from(bytes + entry_image(entry), pos) == entries_from(bytes, pos).push(entry),
        entries_end(bytes + entry_image(entry), pos) == bytes.len() + entry_image(entry).len(),
    decreases bytes.len() - pos,
{
    let image = entry_image(entry);
    let longer = bytes + image;
    match entry_at(bytes, pos) {
        None => {
            assert(pos == bytes.len());
            assert(bytes.subrange(0, pos) =~= bytes);
            assert(longer =~= bytes + image + Seq::<u8>::empty());
            lemma_entry_at_image(bytes, entry, Seq::empty());
            let next: int = (bytes.len() + image.len()) as int;
            assert(entry_at(longer, next) is None);
            assert(entries_end(longer, next) == next);
            assert(entries_end(longer, pos) == entries_end(longer, next));
            assert(entries_from(longer, next) =~= Seq::<BatchEntry>::empty());
            assert(entries_from(longer, pos) =~= seq![entry] + entries_from(longer, next));
            assert(entries_from(bytes, pos) =~= Seq::<BatchEntry>::empty());
            assert(entries_from(longer, pos) =~= entries_from(bytes, pos).push(entry));
        },
        Some((first, next)) => {
            lemma_entry_at_extended(bytes, pos, image);
            lemma_entries_from_appended(bytes, next, entry);
            assert(entries_end(longer, pos) == entries_end(longer, next));
            assert(entries_from(longer, pos) =~= seq![first] + entries_from(longer, next));
            assert(entries_from(longer, pos) =~= entries_from(bytes, pos).push(entry));
        },
    }
}

/// The operations that were written down behind any header are read back,
/// all of them and in order.
pub proof fn lemma_entries_round_trip(header: Seq<u8>, entries: Seq<BatchEntry>)
    requires
        entries_encodable(entries),
    ensures
        entries_from(header + entries_image(entries), header.len() as int) == entries,
        entries_end(header + entries_image(entries), header.len() as int) == header.len()
            + entries_image(entries).len(),
    decreases entries.len(),
{
    let pos = header.len() as int;
    if entries.len() == 0 {
        assert(header + entries_image(entries) =~= header);
        assert(entry_at(header, pos) is None);
        assert(entries_from(header, pos) =~= entries);
    } else {
        let front = entries.drop_last();
        let last = entries.last();
        lemma_entries_round_trip(header, front);
        let bytes = header + entries_image(front);
        lemma_entries_from_appended(bytes, pos, last);
        assert(bytes + entry_image(last) =~= header + entries_image(entries));
        assert(front.push(last) =~= entries);
    }
}

/// Round trip of a write batch: reading the bytes of a batch gives the
/// operations that it was made of, in order, and the count in its header is
/// their number.
pub proof fn lemma_batch_round_trip(entries: Seq<BatchEntry>)
    requires
        entries_encodable(entries),
        entries.len() <= u32::MAX,
    ensures
        batch_entries(batch_image(entries)) == entries,
        be32_at(batch_image(entries), COUNT_OFFSET as int) == entries.len(),
        batch_image(entries).len() >= HEADER_SIZE,
{
    let header = header_image(entries.len() as u32);
    lemma_entries_round_trip(header, entries);
    let bytes = batch_image(entries);
    assert(bytes.subrange(0, 4) =~= be32(entries.len() as u32));
    lemma_be32_round_trip(entries.len() as u32, bytes, 0);
}

/// The bytes of a batch with one more operation: those of the batch, with
/// the operation's bytes appended and the count in the header raised by one.
pub proof fn lemma_batch_image_push(entries: Seq<BatchEntry>, entry: BatchEntry)
    requires
        entries_encodable(entries),
        entries.len() < u32::MAX,
        entry_encodable(entry),
    ensures
        batch_image(entries.push(entry)) == be32(
            (be32_at(batch_image(entries), COUNT_OFFSET as int) + 1) as u32,
        ) + (batch_image(entries) + entry_image(entry)).skip(4),
        entries_encodable(entries.push(entry)),
        batch_entries(batch_image(entries.push(entry))) == entries.push(entry),
{
    let after = entries.push(entry);
    lemma_batch_round_trip(entries);
    assert(after.drop_last() =~= entries);
    assert(after.last() == entry);
    assert(entries_image(after) == entries_image(entries) + entry_image(entry));
    assert(batch_image(after) =~= be32(after.len() as u32) + (batch_image(entries) + entry_image(
        entry,
    )).skip(4));
    assert forall|i: int| 0 <= i < after.len() implies entry_encodable(#[trigger] after[i]) by {
        if i < entries.len() {
            assert(after[i] == entries[i]);
        }
    }
    lemma_batch_round_trip(after);
}

/// A cursor over the operations of a batch's bytes.
pub struct WriteBatchIterator<'a> {
    payload: &'a [u8],
    pos: usize,
}

impl<'a> WriteBatchIterator<'a> {
    /// The bytes that the cursor runs over.
    pub closed spec fn payload(self) -> Seq<u8> {
        self.payload@
    }

    /// Where in the bytes the cursor stands.
    pub closed spec fn position(self) -> int {
        self.pos as int
    }

    /// The operations that the cursor has yet to yield.
    pub open spec fn remaining(self) -> Seq<BatchEntry> {
        entries_from(self.payload(), self.position())
    }

    /// A cursor over the operations of the batch whose bytes are `bytes`.
    pub fn from_payload(bytes: &'a [u8]) -> (it: WriteBatchIterator<'a>)
        ensures
            it.payload() == bytes@,
            it.position() == HEADER_SIZE,
            it.remaining() == batch_entries(bytes@),
    {
        WriteBatchIterator { payload: bytes, pos: HEADER_SIZE }
    }

    /// Yields the next operation: the key, and the value unless the key is
    /// deleted. Yields nothing at the end of the bytes, and at a place where
    /// no complete operation stands.
    pub fn next(&mut self) -> (r: Option<(&'a [u8], Option<&'a [u8]>)>)
        ensures
            final(self).payload() == old(self).payload(),
            match entry_at(old(self).payload(), old(self).position()) {
                None => r is None && final(self).position() == old(self).position(),
                Some((entry, next)) => {
                    &&& r matches Some((key, value))
                    &&& key@ == entry.0
                    &&& match value {
                        None => entry.1 is None,
                        Some(v) => entry.1 == Some(v@),
                    }
                    &&& final(self).position() == next
                    &&& old(self).remaining() == seq![entry] + final(self).remaining()
                },
            },
            r is None ==> old(self).remaining() == Seq::<BatchEntry>::empty(),
    {
        let payload = self.payload;
        let len = payload.len();
        let pos = self.pos;
        if pos > len || len - pos < 4 {
            return None;
        }
        let key_len = read_be32(payload, pos) as usize;
        let key_start = pos + 4;
        if len - key_start < key_len || len - key_start - key_len < 4 {
            return None;
        }
        let key_end = key_start + key_len;
        let key = &payload[key_start..key_end];
        let value_len = read_be32(payload, key_end) as usize;
        let value_start = key_end + 4;
        if value_len == 0 {
            self.pos = value_start;
            return Some((key, None));
        }
        if len - value_start < value_len {
            return None;
        }
        let value = &payload[value_start..value_start + value_len];
        self.pos = value_start + value_len;
        Some((key, Some(value)))
    }
}

/// A group of inserts and deletes, kept as the bytes that go to the log.
pub struct WriteBatch {
    entries: Vec<u8>,
}

impl View for WriteBatch {
    type V = Seq<BatchEntry>;

    /// The operations of the batch, in the order in which they were added.
    open spec fn view(&self) -> Seq<BatchEntry> {
        batch_entries(self.bytes())
    }
}

impl Default for WriteBatch {
    fn default() -> (wb: Self)
        ensures
            wb.well_formed(),
            wb@ == Seq::<BatchEntry>::empty(),
    {
        Self::new()
    }
}

impl WriteBatch {
    /// The bytes of the batch.
    pub closed spec fn bytes(self) -> Seq<u8> {
        self.entries@
    }

    /// Whether the bytes are long enough to hold the count of the header.
    pub open spec fn has_count(self) -> bool {
        self.bytes().len() >= COUNT_OFFSET + 4
    }

    /// The bytes are exactly those of the operations that can be read from
    /// them, under a header that counts them. Every batch that was built by
    /// `new`, `insert_or_update`, `delete` and `clear` is of this kind.
    pub open spec fn well_formed(self) -> bool {
        &&& self.bytes() == batch_image(self@)
        &&& entries_encodable(self@)
        &&& self@.len() <= u32::MAX
    }

    /// A batch without operations.
    pub fn new() -> (wb: WriteBatch)
        ensures
            wb.well_formed(),
            wb@ == Seq::<BatchEntry>::empty(),
            wb.bytes() == batch_image(Seq::empty()),
    {
        let mut entries: Vec<u8> = Vec::new();
        let mut i: usize = 0;
        while i < HEADER_SIZE
            invariant
                i <= HEADER_SIZE,
                entries@ == Seq::new(i as nat, |j: int| 0u8),
            decreases HEADER_SIZE - i,
        {
            entries.push(0);
            i = i + 1;
            assert(entries@ =~= Seq::new(i as nat, |j: int| 0u8));
        }
        proof {
            let none = Seq::<BatchEntry>::empty();
            assert(entries@ =~= batch_image(none));
            lemma_batch_round_trip(none);
        }
        WriteBatch { entries }
    }

    /// The number of operations that the header counts.
    pub fn count(&self) -> (n: u32)
        requires
            self.has_count(),
        ensures
            n == be32_at(self.bytes(), COUNT_OFFSET as int),
            self.well_formed() ==> n == self@.len(),
    {
        proof {
            if self.well_formed() {
                lemma_batch_round_trip(self@);
            }
        }
        read_be32(self.entries.as_slice(), COUNT_OFFSET)
    }

    /// Writes `count` into the header.
    fn set_count(&mut self, count: u32)
        requires
            old(self).has_count(),
        ensures
            final(self).bytes() == be32(count) + old(self).bytes().skip(4),
    {
        self.entries[0] = (count / 16777216) as u8;
        self.entries[1] = ((count / 65536) % 256) as u8;
        self.entries[2] = ((count / 256) % 256) as u8;
        self.entries[3] = (count % 256) as u8;
        assert(self.entries@ =~= be32(count) + old(self).bytes().skip(4));
    }

    /// Adds one to the count in the header.
    fn increment_count(&mut self)
        requires
            old(self).has_count(),
            be32_at(old(self).bytes(), COUNT_OFFSET as int) < u32::MAX,
        ensures
            final(self).bytes() == be32(
                (be32_at(old(self).bytes(), COUNT_OFFSET as int) + 1) as u32,
            ) + old(self).bytes().skip(4),
    {
        let count = self.count() + 1;
        self.set_count(count);
    }

    /// Records that `key` is deleted.
    pub fn delete(&mut self, key: &[u8])
        requires
            old(self).well_formed(),
            old(self)@.len() < u32::MAX,
            key@.len() <= u32::MAX,
        ensures
            final(self).well_formed(),
            final(self)@ == old(self)@.push((key@, None)),
    {
        let value: Vec<u8> = Vec::new();
        self.insert_or_update(key, value.as_slice());
    }

    /// Records that `value` is stored under `key`. An empty value records a
    /// delete.
    pub fn insert_or_update(&mut self, key: &[u8], value: &[u8])
        requires
            old(self).well_formed(),
            old(self)@.len() < u32::MAX,
            key@.len() <= u32::MAX,
            value@.len() <= u32::MAX,
        ensures
            final(self).well_formed(),
            final(self)@ == old(self)@.push(entry_of(key@, value@)),
    {
        self.push_entry(key, value);
        proof {
            lemma_batch_round_trip(old(self)@);
        }
        self.increment_count();
        proof {
            lemma_batch_image_push(old(self)@, entry_of(key@, value@));
        }
    }

    /// Appends the bytes of one operation.
    fn push_entry(&mut self, key: &[u8], value: &[u8])
        requires
            key@.len() <= u32::MAX,
            value@.len() <= u32::MAX,
        ensures
            final(self).bytes() == old(self).bytes() + entry_image(entry_of(key@, value@)),
    {
        push_be32(&mut self.entries, key.len() as u32);
        self.entries.extend_from_slice(key);
        let ghost with_key = self.entries@;
        assert(with_key =~= old(self).bytes() + be32(key@.len() as u32) + key@);
        push_be32(&mut self.entries, value.len() as u32);
        if value.len() > 0 {
            self.entries.extend_from_slice(value);
            assert(self.entries@ =~= with_key + be32(value@.len() as u32) + value@);
        }
        assert(self.entries@ =~= old(self).bytes() + entry_image(entry_of(key@, value@)));
    }

    /// The number of bytes of the batch.
    pub fn len(&self) -> (n: usize)
        ensures
            n == self.bytes().len(),
    {
        self.entries.len()
    }

    /// Whether the header counts no operation.
    pub fn is_empty(&self) -> (b: bool)
        requires
            self.has_count(),
        ensures
            b == (be32_at(self.bytes(), COUNT_OFFSET as int) == 0),
            self.well_formed() ==> b == (self@.len() == 0),
    {
        self.count() == 0
    }

    /// Drops every operation: the batch is as new.
    pub fn clear(&mut self)
        ensures
            final(self).well_formed(),
            final(self)@ == Seq::<BatchEntry>::empty(),
            final(self).bytes() == batch_image(Seq::empty()),
    {
        *self = WriteBatch::new();
    }

    /// The bytes of the batch, as they go to the log.
    pub fn as_bytes(&self) -> (bytes: &[u8])
        ensures
            bytes@ == self.bytes(),
    {
        self.entries.as_slice()
    }

    /// A cursor over the operations of the batch.
    pub fn iter(&self) -> (it: WriteBatchIterator<'_>)
        ensures
            it.payload() == self.bytes(),
            it.position() == HEADER_SIZE,
            it.remaining() == self@,
    {
        WriteBatchIterator { payload: self.entries.as_slice(), pos: HEADER_SIZE }
    }
}

/// What taking in one record does to the bytes gathered so far: the new
/// bytes and whether they are a whole payload now, or the error with which
/// the record is refused. A record whose checksum does not match is refused,
/// and so is one without a type.
pub open spec fn accumulated(buffer: Seq<u8>, record: LogRecordView) -> core::result::Result<
    (Seq<u8>, bool),
    Error,
> {
    if !crc_matches(record) {
        Err(Error::InvalidCrc(record.crc, crc32c_checksum(record.payload)))
    } else {
        match record.rtype {
            RecordType::First | RecordType::Middle => Ok((buffer + record.payload, false)),
            RecordType::Last | RecordType::Full => Ok((buffer + record.payload, true)),
            RecordType::Zero => Err(Error::InvalidRecordType(0)),
        }
    }
}

/// Puts the payload of a write batch together again from the records that
/// it was split over.
pub struct WriteBatchBuilder {
    wb: WriteBatch,
    ready: bool,
}

impl WriteBatchBuilder {
    /// The bytes gathered so far.
    pub closed spec fn buffer(self) -> Seq<u8> {
        self.wb.bytes()
    }

    /// Whether the bytes gathered are a whole payload.
    pub closed spec fn ready(self) -> bool {
        self.ready
    }

    /// A builder that has gathered nothing.
    pub fn new() -> (builder: WriteBatchBuilder)
        ensures
            builder.buffer() == Seq::<u8>::empty(),
            !builder.ready(),
    {
        let mut wb = WriteBatch::new();
        wb.entries.clear();
        WriteBatchBuilder { wb, ready: false }
    }

    /// Validates the checksum of `record` and appends its payload. The
    /// payload is whole once a `Last` or `Full` record has been taken in. A
    /// refused record changes nothing.
    pub fn accumulate_record(&mut self, record: &LogRecord) -> (r: core::result::Result<(), Error>)
        ensures
            match accumulated(old(self).buffer(), record@) {
                Ok((buffer, ready)) => {
                    &&& r == Ok::<(), Error>(())
                    &&& final(self).buffer() == buffer
                    &&& final(self).ready() == ready
                },
                Err(e) => {
                    &&& r == Err::<(), Error>(e)
                    &&& final(self).buffer() == old(self).buffer()
                    &&& final(self).ready() == old(self).ready()
                },
            },
    {
        match record.validate_crc() {
            Ok(()) => {},
            Err(e) => {
                return Err(e);
            },
        }
        match record.rtype {
            RecordType::First | RecordType::Middle => {
                self.wb.entries.extend_from_slice(record.payload);
                self.ready = false;
            },
            RecordType::Full | RecordType::Last => {
                self.wb.entries.extend_from_slice(record.payload);
                self.ready = true;
            },
            RecordType::Zero => {
                return Err(Error::InvalidRecordType(0));
            },
        }
        assert(self.wb.entries@ =~= old(self).buffer() + record.payload@);
        Ok(())
    }

    /// Forgets the bytes gathered, for the next payload.
    pub fn consume(&mut self)
        ensures
            final(self).buffer() == Seq::<u8>::empty(),
            !final(self).ready(),
    {
        self.wb.entries.clear();
        self.ready = false;
    }

    /// Whether the bytes gathered are a whole payload.
    pub fn is_ready(&self) -> (b: bool)
        ensures
            b == self.ready(),
    {
        self.ready
    }

    /// The batch whose bytes have been gathered.
    pub fn get_write_batch(&self) -> (wb: &WriteBatch)
        requires
            self.ready(),
        ensures
            wb.bytes() == self.buffer(),
    {
        &self.wb
    }
}

} // verus!
