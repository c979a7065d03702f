//! The reader of the log: it takes the bytes of the log in pieces, as the
//! caller reads them from the file, and yields the records one by one.
//!
//! The reader keeps the bytes that it has not yet yielded in a buffer. It
//! follows the blocks of the log: where fewer than eight bytes are left in a
//! block, they are padding and the reader passes over them.
use crate::error::Error;
use crate::lending_iterator::LendingIterator;
use crate::log_record::{
    decoded, LogRecord, LogRecordView, DEFAULT_BLOCK_SIZE, LOG_RECORD_HEADER_SIZE,
    MIN_RECORD_SIZE,
};
use crate::log_writer::padding_at;
use vstd::prelude::*;

verus! {

/// Names the log file that is to be read.
pub struct LogReader {
    file_path: String,
}

impl LogReader {
    /// The path of the log file.
    pub closed spec fn path(self) -> Seq<char> {
        self.file_path@
    }

    /// A reader for the log file at `file_path`. The file is not touched.
    pub fn new(file_path: &str) -> (r: core::result::Result<LogReader, Error>)
        ensures
            r matches Ok(reader) && reader.path() == file_path@,
    {
        Ok(LogReader { file_path: file_path.to_owned() })
    }

    /// The path of the log file.
    pub fn file_path(&self) -> (path: &str)
        ensures
            path@ == self.path(),
    {
        self.file_path.as_str()
    }

    /// A cursor at the start of the log, which has been given no bytes yet.
    pub fn to_iter(&self) -> (r: core::result::Result<Iter, Error>)
        ensures
            r matches Ok(it) && it.pending() == Seq::<u8>::empty() && it.block_position() == 0
                && it.passed() == 0 && !it.at_end(),
    {
        Ok(Iter::new())
    }
}

/// What a reader finds at its cursor.
pub enum Fetched {
    /// The bytes at hand do not hold a whole record, and more may come.
    NeedData,
    /// The log ends here: fewer bytes are left than a record takes.
    End,
    /// No record can be decoded here.
    Bad(Error),
    /// A record, behind `skip` bytes of padding.
    Record { skip: nat, record: LogRecordView },
}

/// What a reader finds whose cursor stands at `block_pos` in its block and
/// that has the bytes `pending` before it; `at_end` says that the log holds
/// no bytes behind them.
pub open spec fn fetched(pending: Seq<u8>, block_pos: nat, at_end: bool) -> Fetched {
    let skip = padding_at(block_pos);
    if pending.len() < skip + MIN_RECORD_SIZE {
        if at_end {
            Fetched::End
        } else {
            Fetched::NeedData
        }
    } else {
        match decoded(pending.skip(skip as int)) {
            Ok(record) => Fetched::Record { skip, record },
            Err(Error::WalRecordTooSmall(actual, needed)) => {
                if at_end {
                    Fetched::Bad(Error::WalRecordTooSmall(actual, needed))
                } else {
                    Fetched::NeedData
                }
            },
            Err(e) => Fetched::Bad(e),
        }
    }
}

/// The number of bytes that a record takes in the log, the padding before
/// it included.
pub open spec fn fetched_len(skip: nat, record: LogRecordView) -> nat {
    skip + LOG_RECORD_HEADER_SIZE as nat + record.payload.len()
}

/// Where in its block the cursor stands after it has passed `len` bytes.
pub open spec fn position_past(block_pos: nat, len: nat) -> nat {
    (block_pos + len) % (DEFAULT_BLOCK_SIZE as nat)
}

/// What a reader has found stays found when more bytes come: a record or a
/// failure that was read from the bytes at hand does not depend on the
/// bytes behind them.
pub proof fn lemma_fetched_stable(
    pending: Seq<u8>,
    block_pos: nat,
    at_end: bool,
    more: Seq<u8>,
    later_at_end: bool,
)
    requires
        fetched(pending, block_pos, at_end) is Record || (fetched(pending, block_pos, at_end) is Bad
            && !at_end),
    ensures
        fetched(pending + more, block_pos, later_at_end) == fetched(pending, block_pos, at_end),
{
    let skip = padding_at(block_pos);
    let body = pending.skip(skip as int);
    let longer = (pending + more).skip(skip as int);
    if decoded(body) is Ok {
        let record = decoded(body)->Ok_0;
        assert(longer.subrange(7, 7 + record.size) =~= body.subrange(7, 7 + record.size));
    }
}

/// A cursor over the records of a log. The caller hands it the bytes of the
/// log piece by piece; the records that it yields borrow from its buffer.
pub struct Iter {
    buffer: Vec<u8>,
    curr_idx: usize,
    block_pos: usize,
    at_end: bool,
}

impl Iter {
    #[verifier::type_invariant]
    spec fn inv(self) -> bool {
        &&& self.curr_idx <= self.buffer@.len()
        &&& self.block_pos < DEFAULT_BLOCK_SIZE
    }

    /// The bytes that were handed in and not yet passed.
    pub closed spec fn pending(self) -> Seq<u8> {
        self.buffer@.skip(self.curr_idx as int)
    }

    /// Where in its block the cursor stands.
    pub closed spec fn block_position(self) -> nat {
        self.block_pos as nat
    }

    /// Whether the log holds no bytes behind those that were handed in.
    pub closed spec fn at_end(self) -> bool {
        self.at_end
    }

    /// The number of bytes that the cursor has passed since bytes were last
    /// handed in.
    pub closed spec fn passed(self) -> nat {
        self.curr_idx as nat
    }

    /// What the reader finds at its cursor.
    pub open spec fn found(self) -> Fetched {
        fetched(self.pending(), self.block_position(), self.at_end())
    }

    /// A cursor at the start of a log, which has been given no bytes yet.
    pub fn new() -> (it: Iter)
        ensures
            it.pending() == Seq::<u8>::empty(),
            it.block_position() == 0,
            it.passed() == 0,
            !it.at_end(),
    {
        let it = Iter { buffer: Vec::new(), curr_idx: 0, block_pos: 0, at_end: false };
        it
    }

    /// The number of bytes that were handed in and not yet passed.
    pub fn bytes_remaining(&self) -> (n: usize)
        ensures
            n == self.pending().len(),
    {
        proof {
            use_type_invariant(self);
        }
        self.buffer.len() - self.curr_idx
    }

    /// Where in its block the cursor stands.
    pub fn block_pos(&self) -> (n: usize)
        ensures
            n == self.block_position(),
            n < DEFAULT_BLOCK_SIZE,
    {
        proof {
            use_type_invariant(self);
        }
        self.block_pos
    }

    /// Where in the buffer the cursor stands: the number of bytes that it
    /// has passed since bytes were last handed in.
    pub fn curr_idx(&self) -> (n: usize)
        ensures
            n == self.passed(),
    {
        self.curr_idx
    }

    /// The number of padding bytes that lie before the next record.
    fn padding_ahead(&self) -> (skip: usize)
        ensures
            skip == padding_at(self.block_position()),
            skip < MIN_RECORD_SIZE,
    {
        proof {
            use_type_invariant(self);
        }
        let room = DEFAULT_BLOCK_SIZE - self.block_pos;
        if room < MIN_RECORD_SIZE {
            room
        } else {
            0
        }
    }

    /// Whether the bytes at hand hold the padding that lies ahead and a
    /// record of the least size behind it.
    fn min_record_size_bytes_remaining(&self) -> (b: bool)
        ensures
            b == (self.pending().len() >= padding_at(self.block_position()) + MIN_RECORD_SIZE),
    {
        self.bytes_remaining() >= self.padding_ahead() + MIN_RECORD_SIZE
    }

    /// Whether the reader needs more bytes before it can say what comes
    /// next: a record, a failure or the end of the log.
    pub fn wants_data(&self) -> (b: bool)
        ensures
            b == (self.found() is NeedData),
    {
        proof {
            use_type_invariant(self);
        }
        if self.at_end {
            return false;
        }
        if !self.min_record_size_bytes_remaining() {
            return true;
        }
        let total = self.buffer.len();
        let start = self.curr_idx + self.padding_ahead();
        let body = &self.buffer[start..total];
        match LogRecord::from_serialized_bytes(body) {
            Err(Error::WalRecordTooSmall(_, _)) => true,
            _ => false,
        }
    }

    /// Takes in the next piece of the log: the bytes passed so far are
    /// dropped from the buffer and `data` is put behind the rest. An empty
    /// piece says that the log has ended.
    pub fn fill_buffer(&mut self, data: &[u8])
        ensures
            final(self).pending() == old(self).pending() + data@,
            final(self).block_position() == old(self).block_position(),
            final(self).at_end() == (data@.len() == 0),
            final(self).passed() == 0,
    {
        proof {
            use_type_invariant(&*self);
        }
        let mut buffer: Vec<u8> = Vec::new();
        buffer.extend_from_slice(&self.buffer[self.curr_idx..self.buffer.len()]);
        buffer.extend_from_slice(data);
        *self = Iter { buffer, curr_idx: 0, block_pos: self.block_pos, at_end: data.len() == 0 };
    }
}

impl LendingIterator for Iter {
    type Item<'b> = core::result::Result<LogRecord<'b>, Error>;

    /// Yields the record at the cursor and passes it, or the failure to
    /// decode one. Yields nothing where the log ends and where more bytes
    /// are needed first: `wants_data` tells the two apart. The checksum of
    /// the record is not validated.
    fn next<'b>(&'b mut self) -> (r: Option<core::result::Result<LogRecord<'b>, Error>>)
        ensures
            final(self).at_end() == old(self).at_end(),
            match old(self).found() {
                Fetched::Record { skip, record } => {
                    &&& r matches Some(Ok(yielded))
                    &&& yielded@ == record
                    &&& final(self).pending() == old(self).pending().skip(
                        fetched_len(skip, record) as int,
                    )
                    &&& final(self).block_position() == position_past(
                        old(self).block_position(),
                        fetched_len(skip, record),
                    )
                    &&& final(self).passed() == old(self).passed() + fetched_len(skip, record)
                },
                Fetched::Bad(e) => {
                    &&& r == Some(Err::<LogRecord<'b>, Error>(e))
                    &&& final(self).pending() == old(self).pending()
                    &&& final(self).block_position() == old(self).block_position()
                    &&& final(self).passed() == old(self).passed()
                },
                _ => {
                    &&& r is None
                    &&& final(self).pending() == old(self).pending()
                    &&& final(self).block_position() == old(self).block_position()
                    &&& final(self).passed() == old(self).passed()
                },
            },
    {
        proof {
            use_type_invariant(&*self);
        }
        if !self.min_record_size_bytes_remaining() {
            return None;
        }
        let skip = self.padding_ahead();
        let total = self.buffer.len();
        let start = self.curr_idx + skip;
        let body = &self.buffer[start..total];
        assert(body@ =~= old(self).pending().skip(skip as int));
        match LogRecord::from_serialized_bytes(body) {
            Ok(record) => {
                let len = skip + record.len();
                self.curr_idx = self.curr_idx + len;
                self.block_pos = (self.block_pos + len) % DEFAULT_BLOCK_SIZE;
                Some(Ok(record))
            },
            Err(Error::WalRecordTooSmall(actual, needed)) => {
                if self.at_end {
                    Some(Err(Error::WalRecordTooSmall(actual, needed)))
                } else {
                    None
                }
            },
            Err(e) => Some(Err(e)),
        }
    }
}

} // verus!
