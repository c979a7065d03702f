//! An ordered key-value store that keeps its data in memory and makes it
//! durable through a write-ahead log.
//!
//! The library computes; it does not touch files. A store is opened on the
//! bytes of its log, and every mutation returns the bytes that go to the end
//! of the log.
pub mod big_endian;
pub mod buffer_consumer;
pub mod error;
pub mod lending_iterator;
pub mod log_reader;
pub mod log_record;
pub mod log_writer;
pub mod memtable;
pub mod round_trip;
pub mod wal_recovery;
pub mod write_batch;

use crate::error::Error;
use crate::log_record::DEFAULT_BLOCK_SIZE;
use crate::log_writer::{appended_image, position_after, LogWriter};
use crate::memtable::{is_scan_of, Memtable};
use crate::round_trip::{lemma_clean_log_extended, lemma_log_end_position, log_is_clean};
use crate::wal_recovery::{
    applied, applied_payloads, apply_entry, lemma_applied_payloads_concat,
    lemma_replayed_in_pieces, log_contents, recovered, replayed,
};
use crate::write_batch::{
    batch_entries, batch_image, entry_of, BatchEntry, WriteBatch, WriteBatchBuilder,
};
use vstd::prelude::*;

verus! {

/// The store: the memtable, the writer of the log, and the bytes of the log
/// as far as the store has been told of them or has produced them.
pub struct DB {
    memtable: Memtable,
    log_writer: LogWriter,
    log: Ghost<Seq<u8>>,
}

/// A cursor over the entries that a scan of the store found.
pub struct Iter<'a> {
    it: memtable::Iter<'a>,
}

impl<'a> View for Iter<'a> {
    type V = Seq<(Seq<u8>, Seq<u8>)>;

    /// The entries that the cursor has yet to yield.
    closed spec fn view(&self) -> Seq<(Seq<u8>, Seq<u8>)> {
        self.it@
    }
}

impl<'a> Iter<'a> {
    /// Yields the next entry: its key and its value.
    pub fn next(&mut self) -> (item: Option<(&'a [u8], &'a [u8])>)
        ensures
            match item {
                Some((key, value)) => {
                    &&& old(self)@.len() > 0
                    &&& (key@, value@) == old(self)@.first()
                    &&& final(self)@ == old(self)@.drop_first()
                },
                None => old(self)@.len() == 0 && final(self)@ == old(self)@,
            },
    {
        self.it.next()
    }
}

impl View for DB {
    type V = Map<Seq<u8>, Seq<u8>>;

    /// The mapping from keys to values that the store holds.
    closed spec fn view(&self) -> Map<Seq<u8>, Seq<u8>> {
        self.memtable@
    }
}

impl DB {
    /// The bytes of the log: those that the store was opened on and those
    /// that its mutations have returned since.
    pub closed spec fn log(self) -> Seq<u8> {
        self.log@
    }

    /// The number of bytes that the writer counts in the last block of the
    /// log.
    pub closed spec fn writer_position(self) -> nat {
        self.log_writer.position()
    }

    /// The log is read to its last byte without a failure, the writer
    /// stands where the log ends, and recovery from the log gives the
    /// mapping that the store holds.
    pub open spec fn consistent(self) -> bool {
        &&& log_is_clean(self.log())
        &&& self.writer_position() <= DEFAULT_BLOCK_SIZE
        &&& self.writer_position() % (DEFAULT_BLOCK_SIZE as nat) == self.log().len() % (
        DEFAULT_BLOCK_SIZE as nat)
        &&& recovered(Map::empty(), self.log()) == self@
    }

    /// The store is as `consistent` says but for one payload, the bytes of a
    /// write batch: the log holds it as its last, and the memtable has yet to
    /// take it in.
    pub open spec fn behind_by(self, payload: Seq<u8>) -> bool {
        &&& log_is_clean(self.log())
        &&& self.writer_position() <= DEFAULT_BLOCK_SIZE
        &&& self.writer_position() % (DEFAULT_BLOCK_SIZE as nat) == self.log().len() % (
        DEFAULT_BLOCK_SIZE as nat)
        &&& recovered(Map::empty(), self.log()) == applied(self@, batch_entries(payload))
    }

    /// Opens the store on the bytes of its log: the memtable is recovered
    /// from them, and the writer goes on where they end. Fails where
    /// recovery fails.
    pub fn new(log: &[u8]) -> (r: core::result::Result<DB, Error>)
        ensures
            match log_contents(log@).error {
                Some(e) => r == Err::<DB, Error>(e),
                None => {
                    &&& r matches Ok(db)
                    &&& db@ == recovered(Map::empty(), log@)
                    &&& db.log() == log@
                    &&& db.writer_position() == log@.len() % (DEFAULT_BLOCK_SIZE as nat)
                    &&& log_is_clean(log@) ==> db.consistent()
                },
            },
            log@.len() == 0 ==> (r matches Ok(db) && db.consistent()),
    {
        let mut memtable = Memtable::new();
        if log.len() > 0 {
            match wal_recovery::load(log, &mut memtable) {
                Ok(()) => {},
                Err(e) => {
                    return Err(e);
                },
            }
        } else {
            proof {
                wal_recovery::lemma_replayed_step(log@, 0, true, Seq::empty());
            }
        }
        let log_writer = LogWriter::new(log.len() as u64);
        Ok(DB { memtable, log_writer, log: Ghost(log@) })
    }

    /// Records that `value` is stored under `key`, and stores it. Returns
    /// the bytes that go to the end of the log. An empty value deletes the
    /// key.
    pub fn insert_or_update(&mut self, key: &[u8], value: &[u8]) -> (r: core::result::Result<
        Vec<u8>,
        Error,
    >)
        requires
            key@.len() <= u32::MAX,
            value@.len() <= u32::MAX,
        ensures
            r matches Ok(bytes),
            r->Ok_0@ == appended_image(
                old(self).writer_position(),
                batch_image(seq![entry_of(key@, value@)]),
            ),
            final(self)@ == apply_entry(old(self)@, entry_of(key@, value@)),
            final(self).log() == old(self).log() + r->Ok_0@,
            old(self).consistent() ==> final(self).consistent(),
    {
        let mut wb = WriteBatch::new();
        wb.insert_or_update(key, value);
        proof {
            let entry = entry_of(key@, value@);
            assert(applied(self@, wb@) == apply_entry(self@, entry)) by {
                reveal_with_fuel(applied, 2);
            }
        }
        self.write(&wb)
    }

    /// The first half of a write: returns the bytes of `wb` as records for
    /// the end of the log. The memtable is not touched: the caller appends
    /// the bytes to the log and then calls `commit`. A batch without bytes is
    /// refused and changes nothing.
    pub fn stage(&mut self, wb: &WriteBatch) -> (r: core::result::Result<Vec<u8>, Error>)
        ensures
            final(self)@ == old(self)@,
            wb.bytes().len() == 0 ==> {
                &&& r matches Err(Error::ValueError(msg))
                &&& msg@ == "Payload is empty"@
                &&& final(self).log() == old(self).log()
                &&& final(self).writer_position() == old(self).writer_position()
            },
            wb.bytes().len() > 0 ==> {
                &&& r matches Ok(bytes)
                &&& bytes@ == appended_image(old(self).writer_position(), wb.bytes())
                &&& final(self).log() == old(self).log() + bytes@
                &&& final(self).writer_position() == position_after(
                    old(self).writer_position(),
                    wb.bytes().len(),
                )
                &&& old(self).consistent() ==> final(self).behind_by(wb.bytes())
            },
    {
        let bytes = match self.log_writer.append(wb.as_bytes()) {
            Ok(bytes) => bytes,
            Err(e) => {
                return Err(e);
            },
        };
        proof {
            if old(self).consistent() {
                let log = old(self).log();
                lemma_clean_log_extended(log, old(self).writer_position(), wb.bytes());
                lemma_applied_payloads_concat(
                    Map::empty(),
                    log_contents(log).payloads,
                    seq![wb.bytes()],
                );
                let one = seq![wb.bytes()];
                assert(log_contents(log).payloads + one =~= log_contents(log).payloads.push(
                    wb.bytes(),
                ));
                assert(applied_payloads(old(self)@, one) == applied(old(self)@, wb@)) by {
                    reveal_with_fuel(applied_payloads, 2);
                }
            }
        }
        self.log = Ghost(self.log@ + bytes@);
        Ok(bytes)
    }

    /// The second half of a write: applies the operations of `wb` to the
    /// memtable, in order.
    pub fn commit(&mut self, wb: &WriteBatch)
        ensures
            final(self)@ == applied(old(self)@, wb@),
            final(self).log() == old(self).log(),
            final(self).writer_position() == old(self).writer_position(),
            old(self).behind_by(wb.bytes()) ==> final(self).consistent(),
    {
        wal_recovery::consume_write_batch(&mut self.memtable, wb);
    }

    /// A write in one step, for a caller that keeps the log in memory:
    /// returns the bytes of `wb` as records for the end of the log, and
    /// applies the operations of `wb` in order. A batch without bytes is
    /// refused and changes nothing.
    pub fn write(&mut self, wb: &WriteBatch) -> (r: core::result::Result<Vec<u8>, Error>)
        ensures
            wb.bytes().len() == 0 ==> {
                &&& r matches Err(Error::ValueError(msg))
                &&& msg@ == "Payload is empty"@
                &&& final(self)@ == old(self)@
                &&& final(self).log() == old(self).log()
                &&& final(self).writer_position() == old(self).writer_position()
            },
            wb.bytes().len() > 0 ==> {
                &&& r matches Ok(bytes)
                &&& bytes@ == appended_image(old(self).writer_position(), wb.bytes())
                &&& final(self)@ == applied(old(self)@, wb@)
                &&& final(self).log() == old(self).log() + bytes@
                &&& final(self).writer_position() == position_after(
                    old(self).writer_position(),
                    wb.bytes().len(),
                )
                &&& old(self).consistent() ==> final(self).consistent()
            },
    {
        let bytes = match self.stage(wb) {
            Ok(bytes) => bytes,
            Err(e) => {
                return Err(e);
            },
        };
        self.commit(wb);
        Ok(bytes)
    }

    /// The value stored under `key`, if there is one.
    pub fn get(&self, key: &[u8]) -> (r: core::result::Result<Option<&[u8]>, Error>)
        ensures
            r matches Ok(value),
            match r->Ok_0 {
                Some(v) => self@.contains_key(key@) && self@[key@] == v@,
                None => !self@.contains_key(key@),
            },
    {
        Ok(self.memtable.get(key))
    }

    /// Records that `key` is deleted, and takes it out of the store.
    /// Returns the bytes that go to the end of the log.
    pub fn delete(&mut self, key: &[u8]) -> (r: core::result::Result<Vec<u8>, Error>)
        requires
            key@.len() <= u32::MAX,
        ensures
            r matches Ok(bytes),
            r->Ok_0@ == appended_image(
                old(self).writer_position(),
                batch_image(seq![(key@, None::<Seq<u8>>)]),
            ),
            final(self)@ == old(self)@.remove(key@),
            !final(self)@.contains_key(key@),
            final(self).log() == old(self).log() + r->Ok_0@,
            old(self).consistent() ==> final(self).consistent(),
    {
        let mut wb = WriteBatch::new();
        wb.delete(key);
        proof {
            let entry: BatchEntry = (key@, None::<Seq<u8>>);
            assert(applied(self@, wb@) == apply_entry(self@, entry)) by {
                reveal_with_fuel(applied, 2);
            }
        }
        self.write(&wb)
    }

    /// The entries whose keys lie in the half-open interval from `start` to
    /// `end`, in ascending order of their keys.
    pub fn scan(&self, start: &[u8], end: &[u8]) -> (r: core::result::Result<Iter<'_>, Error>)
        ensures
            r matches Ok(it) && is_scan_of(it@, self@, start@, end@),
    {
        let iter = self.memtable.scan(start, end);
        Ok(Iter { it: iter })
    }
}

/// A store that is being opened: the bytes of its log are handed in piece
/// by piece, as the caller reads them from the file, and applied as they
/// come.
pub struct Recovery {
    memtable: Memtable,
    iter: log_reader::Iter,
    builder: WriteBatchBuilder,
    log: Ghost<Seq<u8>>,
}

impl Recovery {
    /// What was read from the bytes handed in so far has been applied, and
    /// the reader and the builder hold what the reading left.
    #[verifier::type_invariant]
    spec fn inv(self) -> bool {
        let now = replayed(self.log@, 0, false, Seq::empty());
        &&& now.error is None
        &&& self.iter.pending() == now.rest
        &&& self.iter.block_position() == now.block_pos
        &&& !self.iter.at_end()
        &&& self.builder.buffer() == now.partial
        &&& self.memtable@ == applied_payloads(Map::empty(), now.payloads)
    }

    /// The bytes of the log that were handed in so far.
    pub closed spec fn log(self) -> Seq<u8> {
        self.log@
    }

    /// The start of a recovery: no bytes have been handed in.
    pub fn new() -> (recovery: Recovery)
        ensures
            recovery.log() == Seq::<u8>::empty(),
    {
        let memtable = Memtable::new();
        let iter = log_reader::Iter::new();
        let builder = WriteBatchBuilder::new();
        proof {
            wal_recovery::lemma_replayed_step(Seq::empty(), 0, false, Seq::empty());
        }
        Recovery { memtable, iter, builder, log: Ghost(Seq::empty()) }
    }

    /// Takes in the next piece of the log and applies the write batches
    /// that are whole with it. Fails where a record cannot be decoded or is
    /// refused.
    pub fn feed(self, piece: &[u8]) -> (r: core::result::Result<Recovery, Error>)
        ensures
            match replayed(self.log() + piece@, 0, false, Seq::empty()).error {
                Some(e) => r == Err::<Recovery, Error>(e),
                None => r matches Ok(next) && next.log() == self.log() + piece@,
            },
    {
        proof {
            use_type_invariant(&self);
        }
        if piece.len() == 0 {
            return Ok(self);
        }
        let ghost log = self.log@;
        let ghost longer = log + piece@;
        let Recovery { mut memtable, mut iter, mut builder, log: _ } = self;
        proof {
            lemma_replayed_in_pieces(log, 0, Seq::empty(), piece@, false);
        }
        let ghost now = replayed(log, 0, false, Seq::empty());
        iter.fill_buffer(piece);
        let ghost later = replayed(now.rest + piece@, now.block_pos, false, now.partial);
        proof {
            lemma_applied_payloads_concat(Map::empty(), now.payloads, later.payloads);
        }
        match wal_recovery::replay(&mut iter, &mut builder, &mut memtable) {
            Ok(()) => {},
            Err(e) => {
                return Err(e);
            },
        }
        Ok(Recovery { memtable, iter, builder, log: Ghost(longer) })
    }

    /// Ends the recovery: the log holds no more bytes. Returns the store,
    /// whose writer goes on where the log ends. Fails where the log ends
    /// within a record.
    pub fn finish(self) -> (r: core::result::Result<DB, Error>)
        ensures
            match log_contents(self.log()).error {
                Some(e) => r == Err::<DB, Error>(e),
                None => {
                    &&& r matches Ok(db)
                    &&& db@ == recovered(Map::empty(), self.log())
                    &&& db.log() == self.log()
                    &&& db.writer_position() == self.log().len() % (DEFAULT_BLOCK_SIZE as nat)
                    &&& log_is_clean(self.log()) ==> db.consistent()
                },
            },
    {
        proof {
            use_type_invariant(&self);
        }
        let ghost log = self.log@;
        let Recovery { mut memtable, mut iter, mut builder, log: _ } = self;
        let ghost now = replayed(log, 0, false, Seq::empty());
        let empty: Vec<u8> = Vec::new();
        proof {
            lemma_replayed_in_pieces(log, 0, Seq::empty(), empty@, true);
        }
        let ghost later = replayed(now.rest, now.block_pos, true, now.partial);
        iter.fill_buffer(empty.as_slice());
        proof {
            lemma_applied_payloads_concat(Map::empty(), now.payloads, later.payloads);
            lemma_log_end_position(log);
        }
        match wal_recovery::replay(&mut iter, &mut builder, &mut memtable) {
            Ok(()) => {},
            Err(e) => {
                return Err(e);
            },
        }
        let left = iter.bytes_remaining() % DEFAULT_BLOCK_SIZE;
        let block_pos = (iter.block_pos() + left) % DEFAULT_BLOCK_SIZE;
        let log_writer = LogWriter::new(block_pos as u64);
        Ok(DB { memtable, log_writer, log: Ghost(log) })
    }
}

} // verus!
