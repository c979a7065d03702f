//! The writer of the log: it splits a payload into records that fit the
//! blocks of the log, and pads the tail of a block that is too short for a
//! record.
//!
//! The writer computes the bytes; appending them to the file is left to the
//! caller.
use crate::buffer_consumer::BufferConsumer;
use crate::error::Error;
use crate::log_record::{
    record_image, record_of, LogRecord, RecordType, DEFAULT_BLOCK_SIZE, LOG_RECORD_HEADER_SIZE,
    MIN_RECORD_SIZE,
};
use vstd::prelude::*;

verus! {

/// Counts the records that a writer has emitted.
pub struct Stats {
    record_count: usize,
}

impl Stats {
    /// The number of records counted; the count stops at `usize::MAX`.
    pub closed spec fn count(self) -> nat {
        self.record_count as nat
    }

    /// A count of no records.
    fn new() -> (stats: Stats)
        ensures
            stats.count() == 0,
    {
        Stats { record_count: 0 }
    }

    /// Counts one record.
    fn consume_record(&mut self, _record: &LogRecord)
        ensures
            final(self).count() == counted(old(self).count(), 1),
        no_unwind
    {
        if self.record_count < usize::MAX {
            self.record_count += 1;
        }
    }

    /// The number of records counted.
    pub fn record_count(&self) -> (n: usize)
        ensures
            n == self.count(),
    {
        self.record_count
    }
}

/// The count after `more` records, which stops at `usize::MAX`.
pub open spec fn counted(count: nat, more: nat) -> nat {
    if count + more <= usize::MAX {
        count + more
    } else {
        usize::MAX as nat
    }
}

/// One record that an append emits, and the padding that goes before it.
pub struct Fragment {
    /// The number of zero bytes that fill the tail of the block before.
    pub padding: nat,
    /// Where in its block the record starts.
    pub start: nat,
    pub rtype: RecordType,
    pub payload: Seq<u8>,
}

/// The number of zero bytes that fill up a block in which `block_pos` bytes
/// are written: the whole tail, where it is too short for a record.
pub open spec fn padding_at(block_pos: nat) -> nat {
    if DEFAULT_BLOCK_SIZE - block_pos < MIN_RECORD_SIZE {
        (DEFAULT_BLOCK_SIZE - block_pos) as nat
    } else {
        0
    }
}

/// Where in its block the next record starts: at `block_pos`, or at the
/// start of the next block where the tail is too short.
pub open spec fn start_at(block_pos: nat) -> nat {
    if DEFAULT_BLOCK_SIZE - block_pos < MIN_RECORD_SIZE {
        0
    } else {
        block_pos
    }
}

/// The number of payload bytes that the next record takes: all that remain,
/// or as many as its block has room for behind the header.
pub open spec fn fragment_len(block_pos: nat, remaining: nat) -> nat {
    let room = (DEFAULT_BLOCK_SIZE - start_at(block_pos) - LOG_RECORD_HEADER_SIZE) as nat;
    if remaining <= room {
        remaining
    } else {
        room
    }
}

/// How many bytes the block holds once the next record, of `n` payload
/// bytes, is written.
pub open spec fn position_behind(block_pos: nat, n: nat) -> nat {
    start_at(block_pos) + LOG_RECORD_HEADER_SIZE as nat + n
}

/// The type of a record by its place in the payload.
pub open spec fn fragment_type(first: bool, last: bool) -> RecordType {
    if last {
        if first {
            RecordType::Full
        } else {
            RecordType::Last
        }
    } else if first {
        RecordType::First
    } else {
        RecordType::Middle
    }
}

/// The records that carry `payload` when the block holds `block_pos` bytes;
/// `first` says whether the payload starts here.
#[verifier::opaque]
pub open spec fn fragments(block_pos: nat, payload: Seq<u8>, first: bool) -> Seq<Fragment>
    decreases payload.len(),
{
    if payload.len() == 0 || block_pos > DEFAULT_BLOCK_SIZE {
        Seq::empty()
    } else {
        let n = fragment_len(block_pos, payload.len());
        let fragment = Fragment {
            padding: padding_at(block_pos),
            start: start_at(block_pos),
            rtype: fragment_type(first, n == payload.len()),
            payload: payload.take(n as int),
        };
        seq![fragment] + fragments(
            position_behind(block_pos, n),
            payload.skip(n as int),
            false,
        )
    }
}

/// How many bytes the block holds after `remaining` payload bytes were
/// written from `block_pos` on.
#[verifier::opaque]
pub open spec fn position_after(block_pos: nat, remaining: nat) -> nat
    decreases remaining,
{
    if remaining == 0 || block_pos > DEFAULT_BLOCK_SIZE {
        block_pos
    } else {
        let n = fragment_len(block_pos, remaining);
        position_after(position_behind(block_pos, n), (remaining - n) as nat)
    }
}

/// `n` zero bytes.
pub open spec fn zeros(n: nat) -> Seq<u8> {
    Seq::new(n, |i: int| 0u8)
}

/// The bytes of one fragment: its padding and then its record.
pub open spec fn fragment_image(fragment: Fragment) -> Seq<u8> {
    zeros(fragment.padding) + record_image(record_of(fragment.rtype, fragment.payload))
}

/// The bytes of a sequence of fragments, one after the other.
#[verifier::opaque]
pub open spec fn fragments_image(fragments: Seq<Fragment>) -> Seq<u8>
    decreases fragments.len(),
{
    if fragments.len() == 0 {
        Seq::empty()
    } else {
        fragment_image(fragments.first()) + fragments_image(fragments.drop_first())
    }
}

/// The bytes that appending `payload` adds to a log whose last block holds
/// `block_pos` bytes.
pub open spec fn appended_image(block_pos: nat, payload: Seq<u8>) -> Seq<u8> {
    fragments_image(fragments(block_pos, payload, true))
}

/// The first fragment takes at least one byte and fits its block.
pub proof fn lemma_fragment_len(block_pos: nat, remaining: nat)
    requires
        block_pos <= DEFAULT_BLOCK_SIZE,
        remaining > 0,
    ensures
        1 <= fragment_len(block_pos, remaining) <= remaining,
        start_at(block_pos) + LOG_RECORD_HEADER_SIZE + fragment_len(block_pos, remaining)
            <= DEFAULT_BLOCK_SIZE,
        fragment_len(block_pos, remaining) <= 65535,
        padding_at(block_pos) < MIN_RECORD_SIZE,
{
}

/// What the first record of a payload leaves to the rest: the fragments of
/// a payload are the first one and those of the bytes that it did not take.
pub proof fn lemma_fragments_step(block_pos: nat, payload: Seq<u8>, first: bool)
    requires
        block_pos <= DEFAULT_BLOCK_SIZE,
        payload.len() > 0,
    ensures
        ({
            let n = fragment_len(block_pos, payload.len());
            let head = Fragment {
                padding: padding_at(block_pos),
                start: start_at(block_pos),
                rtype: fragment_type(first, n == payload.len()),
                payload: payload.take(n as int),
            };
            let rest = fragments(position_behind(block_pos, n), payload.skip(n as int), false);
            &&& fragments(block_pos, payload, first) == seq![head] + rest
            &&& fragments_image(fragments(block_pos, payload, first)) == fragment_image(head)
                + fragments_image(rest)
            &&& position_after(block_pos, payload.len()) == position_after(
                position_behind(block_pos, n),
                (payload.len() - n) as nat,
            )
            &&& payload.skip(n as int).len() == payload.len() - n
        }),
{
    let n = fragment_len(block_pos, payload.len());
    let head = Fragment {
        padding: padding_at(block_pos),
        start: start_at(block_pos),
        rtype: fragment_type(first, n == payload.len()),
        payload: payload.take(n as int),
    };
    let rest = fragments(position_behind(block_pos, n), payload.skip(n as int), false);
    let all = seq![head] + rest;
    reveal_with_fuel(fragments, 2);
    reveal_with_fuel(fragments_image, 2);
    reveal_with_fuel(position_after, 2);
    assert(fragments(block_pos, payload, first) == all);
    assert(all.first() == head);
    assert(all.drop_first() =~= rest);
}

/// Nothing is written for an empty payload.
pub proof fn lemma_fragments_done(block_pos: nat, first: bool)
    ensures
        fragments(block_pos, Seq::empty(), first) == Seq::<Fragment>::empty(),
        fragments_image(Seq::empty()) == Seq::<u8>::empty(),
        position_after(block_pos, 0) == block_pos,
{
    reveal_with_fuel(fragments, 1);
    reveal_with_fuel(fragments_image, 1);
    reveal_with_fuel(position_after, 1);
}

/// Whether `types` are the types of the records of one payload: a single
/// `Full`, or a `First`, any number of `Middle` and a `Last`.
pub open spec fn is_fragment_chain(types: Seq<RecordType>) -> bool {
    ||| types == seq![RecordType::Full]
    ||| {
        &&& types.len() >= 2
        &&& types.first() == RecordType::First
        &&& is_chain_tail(types.drop_first())
    }
}

/// Whether `types` are any number of `Middle` and then a `Last`.
pub open spec fn is_chain_tail(types: Seq<RecordType>) -> bool {
    &&& types.len() >= 1
    &&& types.last() == RecordType::Last
    &&& forall|i: int| 0 <= i < types.len() - 1 ==> types[i] == RecordType::Middle
}

/// The types of a sequence of fragments.
pub open spec fn fragment_types(fragments: Seq<Fragment>) -> Seq<RecordType> {
    Seq::new(fragments.len(), |i: int| fragments[i].rtype)
}

/// The payload bytes of a sequence of fragments, one after the other.
pub open spec fn joined(fragments: Seq<Fragment>) -> Seq<u8>
    decreases fragments.len(),
{
    if fragments.len() == 0 {
        Seq::empty()
    } else {
        fragments.first().payload + joined(fragments.drop_first())
    }
}

/// The records that go on with a payload are `Middle` records and a `Last`
/// one at the end.
pub proof fn lemma_fragment_types_tail(block_pos: nat, payload: Seq<u8>)
    requires
        block_pos <= DEFAULT_BLOCK_SIZE,
        payload.len() > 0,
    ensures
        is_chain_tail(fragment_types(fragments(block_pos, payload, false))),
    decreases payload.len(),
{
    let n = fragment_len(block_pos, payload.len());
    let all = fragments(block_pos, payload, false);
    let rest = fragments(position_behind(block_pos, n), payload.skip(n as int), false);
    lemma_fragment_len(block_pos, payload.len());
    lemma_fragments_step(block_pos, payload, false);
    assert(all[0].rtype == fragment_type(false, n == payload.len()));
    if n == payload.len() {
        assert(payload.skip(n as int) =~= Seq::<u8>::empty());
        lemma_fragments_done(position_behind(block_pos, n), false);
        assert(all.len() == 1);
    } else {
        lemma_fragment_types_tail(position_behind(block_pos, n), payload.skip(n as int));
        let types = fragment_types(all);
        let rest_types = fragment_types(rest);
        assert forall|i: int| 0 <= i < types.len() - 1 implies types[i]
            == RecordType::Middle by {
            if i > 0 {
                assert(all[i] == rest[i - 1]);
                assert(types[i] == rest_types[i - 1]);
            }
        }
        assert(all[all.len() - 1] == rest[rest.len() - 1]);
        assert(types.last() == rest_types.last());
    }
}

/// Fragmentation: the records that carry one payload are a single `Full`
/// record, or a `First` record, any number of `Middle` records and a `Last`
/// record, in this order.
pub proof fn lemma_fragment_types(block_pos: nat, payload: Seq<u8>)
    requires
        block_pos <= DEFAULT_BLOCK_SIZE,
        payload.len() > 0,
    ensures
        is_fragment_chain(fragment_types(fragments(block_pos, payload, true))),
{
    let n = fragment_len(block_pos, payload.len());
    let all = fragments(block_pos, payload, true);
    let rest = fragments(position_behind(block_pos, n), payload.skip(n as int), false);
    lemma_fragment_len(block_pos, payload.len());
    lemma_fragments_step(block_pos, payload, true);
    let types = fragment_types(all);
    assert(all[0].rtype == fragment_type(true, n == payload.len()));
    if n == payload.len() {
        assert(payload.skip(n as int) =~= Seq::<u8>::empty());
        lemma_fragments_done(position_behind(block_pos, n), false);
        assert(types =~= seq![RecordType::Full]);
    } else {
        lemma_fragment_types_tail(position_behind(block_pos, n), payload.skip(n as int));
        assert(types.drop_first() =~= fragment_types(rest)) by {
            assert forall|i: int| 0 <= i < rest.len() implies types.drop_first()[i]
                == fragment_types(rest)[i] by {
                assert(all[i + 1] == rest[i]);
            }
        }
    }
}

/// The records of a payload carry the payload: their payload bytes, one
/// after the other, are the bytes of the payload.
pub proof fn lemma_fragments_carry_payload(block_pos: nat, payload: Seq<u8>, first: bool)
    requires
        block_pos <= DEFAULT_BLOCK_SIZE,
    ensures
        joined(fragments(block_pos, payload, first)) == payload,
    decreases payload.len(),
{
    if payload.len() == 0 {
        assert(payload =~= Seq::<u8>::empty());
        lemma_fragments_done(block_pos, first);
    } else {
        let n = fragment_len(block_pos, payload.len());
        let all = fragments(block_pos, payload, first);
        let rest = fragments(position_behind(block_pos, n), payload.skip(n as int), false);
        lemma_fragment_len(block_pos, payload.len());
        lemma_fragments_step(block_pos, payload, first);
        lemma_fragments_carry_payload(position_behind(block_pos, n), payload.skip(n as int), false);
        assert(all.first().payload == payload.take(n as int));
        assert(all.drop_first() =~= rest);
        assert(payload.take(n as int) + payload.skip(n as int) =~= payload);
    }
}

/// The number of bytes that lie before the record of the fragment `i`,
/// counted from the first byte of the fragments.
pub open spec fn record_offset(fragments: Seq<Fragment>, i: int) -> nat
    decreases fragments.len(),
{
    if fragments.len() == 0 {
        0
    } else if i <= 0 {
        fragments.first().padding
    } else {
        fragments.first().padding + LOG_RECORD_HEADER_SIZE as nat
            + fragments.first().payload.len() + record_offset(fragments.drop_first(), i - 1)
    }
}

/// Block alignment: every record that an append emits lies within one
/// block. Before it lie fewer zero bytes than a record takes, and only
/// where the block before could not hold a record; the record then starts
/// its block.
pub proof fn lemma_fragment_in_block(block_pos: nat, payload: Seq<u8>, first: bool, i: int)
    requires
        block_pos <= DEFAULT_BLOCK_SIZE,
        0 <= i < fragments(block_pos, payload, first).len(),
    ensures
        ({
            let all = fragments(block_pos, payload, first);
            let fragment = all[i];
            let len = LOG_RECORD_HEADER_SIZE + fragment.payload.len();
            &&& fragment.padding < MIN_RECORD_SIZE
            &&& fragment.padding > 0 ==> fragment.start == 0
            &&& 1 <= fragment.payload.len()
            &&& fragment.start + len <= DEFAULT_BLOCK_SIZE
            &&& (block_pos + record_offset(all, i)) % (DEFAULT_BLOCK_SIZE as nat)
                == fragment.start
        }),
    decreases payload.len(),
{
    if payload.len() == 0 {
        assert(payload =~= Seq::<u8>::empty());
        lemma_fragments_done(block_pos, first);
    } else {
        let n = fragment_len(block_pos, payload.len());
        let all = fragments(block_pos, payload, first);
        let behind = position_behind(block_pos, n);
        let rest = fragments(behind, payload.skip(n as int), false);
        lemma_fragment_len(block_pos, payload.len());
        lemma_fragments_step(block_pos, payload, first);
        assert(all.drop_first() =~= rest);
        if i > 0 {
            lemma_fragment_in_block(behind, payload.skip(n as int), false, i - 1);
            assert(all[i] == rest[i - 1]);
            let inner = record_offset(rest, i - 1) as int;
            assert(block_pos + record_offset(all, i) == block_pos + padding_at(block_pos) + (
            LOG_RECORD_HEADER_SIZE + n) + inner);
            assert(block_pos + padding_at(block_pos) == start_at(block_pos) || block_pos
                + padding_at(block_pos) == start_at(block_pos) + DEFAULT_BLOCK_SIZE);
        }
    }
}

/// In the bytes that an append returns, the padding and the record of each
/// fragment stand where the layout says: the padding is zero bytes, and the
/// record is the header and the payload.
pub proof fn lemma_fragment_bytes(block_pos: nat, payload: Seq<u8>, first: bool, i: int)
    requires
        block_pos <= DEFAULT_BLOCK_SIZE,
        0 <= i < fragments(block_pos, payload, first).len(),
    ensures
        ({
            let all = fragments(block_pos, payload, first);
            let image = fragments_image(all);
            let fragment = all[i];
            let offset = record_offset(all, i) as int;
            let len = LOG_RECORD_HEADER_SIZE + fragment.payload.len();
            &&& fragment.padding <= offset
            &&& offset + len <= image.len()
            &&& image.subrange(offset - fragment.padding, offset) == zeros(fragment.padding)
            &&& image.subrange(offset, offset + len) == record_image(
                record_of(fragment.rtype, fragment.payload),
            )
        }),
    decreases payload.len(),
{
    if payload.len() == 0 {
        assert(payload =~= Seq::<u8>::empty());
        lemma_fragments_done(block_pos, first);
    } else {
        let n = fragment_len(block_pos, payload.len());
        let all = fragments(block_pos, payload, first);
        let image = fragments_image(all);
        let behind = position_behind(block_pos, n);
        let rest = fragments(behind, payload.skip(n as int), false);
        lemma_fragments_step(block_pos, payload, first);
        let head = all[0];
        let head_image = fragment_image(head);
        let rest_image = fragments_image(rest);
        assert(all.drop_first() =~= rest);
        assert(image == head_image + rest_image);
        if i == 0 {
            let head_record = record_image(record_of(head.rtype, head.payload));
            assert(head_record.len() == LOG_RECORD_HEADER_SIZE + head.payload.len());
            assert(image.subrange(0, head.padding as int) =~= zeros(head.padding));
            assert(image.subrange(head.padding as int, head.padding + head_record.len() as int)
                =~= head_record);
        } else {
            lemma_fragment_bytes(behind, payload.skip(n as int), false, i - 1);
            let shift = head_image.len() as int;
            let inner = record_offset(rest, i - 1) as int;
            let fragment = rest[i - 1];
            let len = LOG_RECORD_HEADER_SIZE + fragment.payload.len();
            assert(all[i] == fragment);
            assert(shift == head.padding + LOG_RECORD_HEADER_SIZE + head.payload.len());
            assert(record_offset(all, i) == shift + inner);
            lemma_subrange_behind(head_image, rest_image, inner - fragment.padding, inner);
            lemma_subrange_behind(head_image, rest_image, inner, inner + len);
        }
    }
}

/// A range of bytes of the second of two sequences stands in their
/// concatenation behind the first.
pub proof fn lemma_subrange_behind(first: Seq<u8>, second: Seq<u8>, from: int, to: int)
    requires
        0 <= from <= to <= second.len(),
    ensures
        (first + second).subrange(first.len() + from, first.len() + to) == second.subrange(
            from,
            to,
        ),
{
    assert((first + second).subrange(first.len() + from, first.len() + to) =~= second.subrange(
        from,
        to,
    ));
}

/// Appends records to a log. `block_pos` is the number of bytes that the
/// current block of the log holds.
pub struct LogWriter {
    block_pos: usize,
    stats: Stats,
}

impl LogWriter {
    #[verifier::type_invariant]
    spec fn inv(self) -> bool {
        self.block_pos <= DEFAULT_BLOCK_SIZE
    }

    /// The number of bytes that the current block holds.
    pub closed spec fn position(self) -> nat {
        self.block_pos as nat
    }

    /// The number of records emitted so far.
    pub closed spec fn records(self) -> nat {
        self.stats.count()
    }

    /// A writer for a log that holds `log_len` bytes already: it goes on in
    /// the last block of the log. For a new or truncated log, `log_len` is 0.
    pub fn new(log_len: u64) -> (writer: LogWriter)
        ensures
            writer.position() == log_len % (DEFAULT_BLOCK_SIZE as u64),
            writer.records() == 0,
    {
        LogWriter {
            block_pos: (log_len % (DEFAULT_BLOCK_SIZE as u64)) as usize,
            stats: Stats::new(),
        }
    }

    /// The number of bytes that the current block holds.
    pub fn block_pos(&self) -> (n: usize)
        ensures
            n == self.position(),
            n <= DEFAULT_BLOCK_SIZE,
    {
        proof {
            use_type_invariant(self);
        }
        self.block_pos
    }

    /// The number of records emitted so far.
    pub fn record_count(&self) -> (n: usize)
        ensures
            n == self.records(),
    {
        self.stats.record_count()
    }

    /// The room that is left in the current block.
    fn remaining_block_capacity(&self) -> (n: usize)
        ensures
            n == DEFAULT_BLOCK_SIZE - self.position(),
    {
        proof {
            use_type_invariant(self);
        }
        DEFAULT_BLOCK_SIZE - self.block_pos
    }

    /// Fills the tail of the current block with zero bytes, where it is too
    /// short for a record, and starts the next block.
    fn add_block_padding(&mut self, out: &mut Vec<u8>)
        ensures
            final(out)@ == old(out)@ + zeros(padding_at(old(self).position())),
            final(self).position() == start_at(old(self).position()),
            final(self).records() == old(self).records(),
    {
        proof {
            use_type_invariant(&*self);
        }
        let remaining_block_size = DEFAULT_BLOCK_SIZE - self.block_pos;
        if remaining_block_size < MIN_RECORD_SIZE {
            let mut i: usize = 0;
            while i < remaining_block_size
                invariant
                    i <= remaining_block_size,
                    out@ == old(out)@ + zeros(i as nat),
                decreases remaining_block_size - i,
            {
                out.push(0);
                i = i + 1;
                assert(out@ =~= old(out)@ + zeros(i as nat));
            }
            self.block_pos = 0;
        }
        assert(out@ =~= old(out)@ + zeros(padding_at(old(self).position())));
    }

    /// Appends the bytes of `record` to `out`.
    fn append_record(&mut self, record: &LogRecord, out: &mut Vec<u8>)
        ensures
            final(out)@ == old(out)@ + record_image(record@),
            final(self).position() == old(self).position(),
            final(self).records() == old(self).records(),
    {
        record.serialize_into(out);
    }

    /// Splits `payload` into records and returns their bytes, padding
    /// included, for the caller to append to the log. An empty payload is
    /// refused and changes nothing.
    pub fn append(&mut self, payload: &[u8]) -> (r: core::result::Result<Vec<u8>, Error>)
        ensures
            payload@.len() == 0 ==> {
                &&& r matches Err(Error::ValueError(msg))
                &&& msg@ == "Payload is empty"@
                &&& final(self).position() == old(self).position()
                &&& final(self).records() == old(self).records()
            },
            payload@.len() > 0 ==> {
                &&& r matches Ok(bytes)
                &&& bytes@ == appended_image(old(self).position(), payload@)
                &&& final(self).position() == position_after(
                    old(self).position(),
                    payload@.len(),
                )
                &&& final(self).records() == counted(
                    old(self).records(),
                    fragments(old(self).position(), payload@, true).len(),
                )
            },
    {
        if payload.len() == 0 {
            return Err(Error::ValueError("Payload is empty".to_owned()));
        }
        proof {
            use_type_invariant(&*self);
        }
        let mut out: Vec<u8> = Vec::new();
        let mut record_count: usize = 0;
        let mut pconsumer = BufferConsumer::new(payload);
        let ghost total = appended_image(old(self).position(), payload@);
        let ghost total_count = fragments(old(self).position(), payload@, true).len();
        let ghost end = position_after(old(self).position(), payload@.len());
        assert(pconsumer.rest() =~= payload@);
        assert(out@ + total =~= total);
        while !pconsumer.done()
            invariant
                payload@.len() <= usize::MAX,
                pconsumer.buffer() == payload@,
                pconsumer.consumed() <= payload@.len(),
                self.position() <= DEFAULT_BLOCK_SIZE,
                (record_count == 0) == (pconsumer.consumed() == 0),
                record_count <= pconsumer.consumed(),
                out@ + fragments_image(
                    fragments(self.position(), pconsumer.rest(), record_count == 0),
                ) == total,
                position_after(self.position(), pconsumer.rest().len()) == end,
                record_count + fragments(
                    self.position(),
                    pconsumer.rest(),
                    record_count == 0,
                ).len() == total_count,
                self.records() == counted(old(self).records(), record_count as nat),
            decreases payload@.len() - pconsumer.consumed(),
        {
            let ghost block_pos = self.position();
            let ghost rest = pconsumer.rest();
            let ghost first = record_count == 0;
            let ghost out_before = out@;
            let ghost n = fragment_len(block_pos, rest.len());
            let ghost head = Fragment {
                padding: padding_at(block_pos),
                start: start_at(block_pos),
                rtype: fragment_type(first, n == rest.len()),
                payload: rest.take(n as int),
            };
            let ghost tail = fragments(position_behind(block_pos, n), rest.skip(n as int), false);
            proof {
                lemma_fragment_len(block_pos, rest.len());
                lemma_fragments_step(block_pos, rest, first);
            }
            self.add_block_padding(&mut out);

            let room = self.remaining_block_capacity() - LOG_RECORD_HEADER_SIZE;
            let remaining = pconsumer.remaining();
            let consume_count = if remaining < room {
                remaining
            } else {
                room
            };
            assert(consume_count == n);
            let chunk = pconsumer.consume(consume_count);
            assert(chunk@ =~= rest.take(n as int));
            assert(pconsumer.rest() =~= rest.skip(n as int));
            let rtype = {
                if pconsumer.done() {
                    if record_count == 0 {
                        RecordType::Full
                    } else {
                        RecordType::Last
                    }
                } else if record_count == 0 {
                    RecordType::First
                } else {
                    RecordType::Middle
                }
            };
            assert(rtype == head.rtype);

            let record = LogRecord::new(rtype, chunk);
            record_count += 1;
            self.append_record(&record, &mut out);
            self.stats.consume_record(&record);
            let record_len = record.len();
            proof {
                use_type_invariant(&*self);
            }
            self.block_pos += record_len;
            assert(self.position() == position_behind(block_pos, n));
            assert(out@ + fragments_image(tail) == total) by {
                assert(out@ =~= out_before + fragment_image(head));
                assert(out_before + fragment_image(head) + fragments_image(tail) =~= out_before + (
                fragment_image(head) + fragments_image(tail)));
            }
        }
        proof {
            assert(pconsumer.rest() =~= Seq::<u8>::empty());
            lemma_fragments_done(self.position(), record_count == 0);
            assert(out@ + Seq::<u8>::empty() =~= out@);
        }
        Ok(out)
    }
}

} // verus!
