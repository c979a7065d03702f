//! Recovery: the log is read from its start, the payloads of its records
//! are put together again, and each payload, a write batch, is applied to
//! the memtable.
use crate::error::Error;
use crate::lending_iterator::LendingIterator;
use crate::log_reader::{fetched, fetched_len, lemma_fetched_stable, position_past, Fetched, Iter};
use crate::log_record::LOG_RECORD_HEADER_SIZE;
use crate::memtable::Memtable;
use crate::write_batch::{accumulated, batch_entries, BatchEntry, WriteBatch, WriteBatchBuilder};
use vstd::prelude::*;

verus! {

/// The mapping after one operation: the value is stored under the key, or
/// the key is taken out.
pub open spec fn apply_entry(map: Map<Seq<u8>, Seq<u8>>, entry: BatchEntry) -> Map<
    Seq<u8>,
    Seq<u8>,
> {
    match entry.1 {
        Some(value) => map.insert(entry.0, value),
        None => map.remove(entry.0),
    }
}

/// The mapping after a sequence of operations, applied in order.
pub open spec fn applied(map: Map<Seq<u8>, Seq<u8>>, entries: Seq<BatchEntry>) -> Map<
    Seq<u8>,
    Seq<u8>,
>
    decreases entries.len(),
{
    if entries.len() == 0 {
        map
    } else {
        applied(apply_entry(map, entries.first()), entries.drop_first())
    }
}

/// The mapping after a sequence of payloads, each the bytes of a write
/// batch, applied in order.
pub open spec fn applied_payloads(map: Map<Seq<u8>, Seq<u8>>, payloads: Seq<Seq<u8>>) -> Map<
    Seq<u8>,
    Seq<u8>,
>
    decreases payloads.len(),
{
    if payloads.len() == 0 {
        map
    } else {
        applied_payloads(
            applied(map, batch_entries(payloads.first())),
            payloads.drop_first(),
        )
    }
}

/// What reading the records of a log gives.
pub struct Replay {
    /// The payloads that were put together, in order.
    pub payloads: Seq<Seq<u8>>,
    /// The failure that stopped the reading, if one did.
    pub error: Option<Error>,
    /// The bytes that were not read.
    pub rest: Seq<u8>,
    /// Where in its block the reading stopped.
    pub block_pos: nat,
    /// The bytes of the payload that was not whole when the reading stopped.
    pub partial: Seq<u8>,
}

/// A reading that stops at once and leaves everything where it is.
pub open spec fn stopped(
    error: Option<Error>,
    pending: Seq<u8>,
    block_pos: nat,
    partial: Seq<u8>,
) -> Replay {
    Replay { payloads: Seq::empty(), error, rest: pending, block_pos, partial }
}

/// A reading with one more payload in front of what it gave.
pub open spec fn preceded_by(payload: Seq<u8>, read: Replay) -> Replay {
    Replay {
        payloads: seq![payload] + read.payloads,
        error: read.error,
        rest: read.rest,
        block_pos: read.block_pos,
        partial: read.partial,
    }
}

/// The reading that goes on as `next` behind a record that was taken in:
/// where the record made the payload `buffer` whole, the payload comes
/// first.
pub open spec fn continued(buffer: Seq<u8>, ready: bool, next: Replay) -> Replay {
    if ready {
        preceded_by(buffer, next)
    } else {
        next
    }
}

/// The bytes of the unfinished payload with which the reading goes on
/// behind a record.
pub open spec fn carried(buffer: Seq<u8>, ready: bool) -> Seq<u8> {
    if ready {
        Seq::empty()
    } else {
        buffer
    }
}

/// What reading gives from a place `block_pos` in a block, with `pending`
/// the bytes from there on and `partial` the bytes of the payload gathered
/// so far; `at_end` says that the log holds no bytes behind `pending`.
///
/// Record after record is read and taken into the payload. The reading
/// stops at the end of the bytes, where a whole record is not at hand, at a
/// record that cannot be decoded, and at one whose checksum or type is
/// refused.
#[verifier::opaque]
pub open spec fn replayed(pending: Seq<u8>, block_pos: nat, at_end: bool, partial: Seq<u8>) -> Replay
    decreases pending.len(),
{
    match fetched(pending, block_pos, at_end) {
        Fetched::Record { skip, record } => {
            match accumulated(partial, record) {
                Err(e) => stopped(Some(e), pending, block_pos, partial),
                Ok((buffer, ready)) => {
                    let len = fetched_len(skip, record);
                    if len <= pending.len() {
                        continued(
                            buffer,
                            ready,
                            replayed(
                                pending.skip(len as int),
                                position_past(block_pos, len),
                                at_end,
                                carried(buffer, ready),
                            ),
                        )
                    } else {
                        stopped(None, pending, block_pos, partial)
                    }
                },
            }
        },
        Fetched::Bad(e) => stopped(Some(e), pending, block_pos, partial),
        _ => stopped(None, pending, block_pos, partial),
    }
}

/// One step of the reading: what is found at the cursor decides how the
/// reading goes on.
pub proof fn lemma_replayed_step(pending: Seq<u8>, block_pos: nat, at_end: bool, partial: Seq<u8>)
    ensures
        replayed(pending, block_pos, at_end, partial) == match fetched(
            pending,
            block_pos,
            at_end,
        ) {
            Fetched::Record { skip, record } => {
                match accumulated(partial, record) {
                    Err(e) => stopped(Some(e), pending, block_pos, partial),
                    Ok((buffer, ready)) => continued(
                        buffer,
                        ready,
                        replayed(
                            pending.skip(fetched_len(skip, record) as int),
                            position_past(block_pos, fetched_len(skip, record)),
                            at_end,
                            carried(buffer, ready),
                        ),
                    ),
                }
            },
            Fetched::Bad(e) => stopped(Some(e), pending, block_pos, partial),
            _ => stopped(None, pending, block_pos, partial),
        },
        fetched(pending, block_pos, at_end) matches Fetched::Record { skip, record }
            ==> LOG_RECORD_HEADER_SIZE <= fetched_len(skip, record) <= pending.len(),
{
    reveal_with_fuel(replayed, 1);
}

/// The payloads that a whole log holds, and the failure that stops the
/// reading of it, if one does.
pub open spec fn log_contents(log: Seq<u8>) -> Replay {
    replayed(log, 0, true, Seq::empty())
}

/// The mapping that recovery from `log` leaves in a table that held `map`.
pub open spec fn recovered(map: Map<Seq<u8>, Seq<u8>>, log: Seq<u8>) -> Map<Seq<u8>, Seq<u8>> {
    applied_payloads(map, log_contents(log).payloads)
}

/// Applying payloads one sequence after the other is applying them all.
pub proof fn lemma_applied_payloads_concat(
    map: Map<Seq<u8>, Seq<u8>>,
    first: Seq<Seq<u8>>,
    second: Seq<Seq<u8>>,
)
    ensures
        applied_payloads(map, first + second) == applied_payloads(
            applied_payloads(map, first),
            second,
        ),
    decreases first.len(),
{
    if first.len() == 0 {
        assert(first + second =~= second);
    } else {
        let all = first + second;
        assert(all.first() == first.first());
        assert(all.drop_first() =~= first.drop_first() + second);
        lemma_applied_payloads_concat(
            applied(map, batch_entries(first.first())),
            first.drop_first(),
            second,
        );
    }
}

/// Reading does not depend on how the log comes in: what is read from the
/// bytes at hand, and then from what they left together with the bytes that
/// come later, is what is read from all of them at once.
pub proof fn lemma_replayed_in_pieces(
    pending: Seq<u8>,
    block_pos: nat,
    partial: Seq<u8>,
    more: Seq<u8>,
    at_end: bool,
)
    ensures
        ({
            let now = replayed(pending, block_pos, false, partial);
            let whole = replayed(pending + more, block_pos, at_end, partial);
            let later = replayed(now.rest + more, now.block_pos, at_end, now.partial);
            &&& now.error is Some ==> whole.payloads == now.payloads && whole.error == now.error
            &&& now.error is None ==> {
                &&& whole.payloads == now.payloads + later.payloads
                &&& whole.error == later.error
                &&& whole.rest == later.rest
                &&& whole.block_pos == later.block_pos
                &&& whole.partial == later.partial
            }
        }),
    decreases pending.len(),
{
    let now = replayed(pending, block_pos, false, partial);
    let whole = replayed(pending + more, block_pos, at_end, partial);
    let later = replayed(now.rest + more, now.block_pos, at_end, now.partial);
    lemma_replayed_step(pending, block_pos, false, partial);
    lemma_replayed_step(pending + more, block_pos, at_end, partial);
    match fetched(pending, block_pos, false) {
        Fetched::Record { skip, record } => {
            lemma_fetched_stable(pending, block_pos, false, more, at_end);
            match accumulated(partial, record) {
                Err(e) => {},
                Ok((buffer, ready)) => {
                    let len = fetched_len(skip, record);
                    let next_partial = carried(buffer, ready);
                    assert((pending + more).skip(len as int) =~= pending.skip(len as int) + more);
                    lemma_replayed_in_pieces(
                        pending.skip(len as int),
                        position_past(block_pos, len),
                        next_partial,
                        more,
                        at_end,
                    );
                    let next_now = replayed(
                        pending.skip(len as int),
                        position_past(block_pos, len),
                        false,
                        next_partial,
                    );
                    let next_whole = replayed(
                        pending.skip(len as int) + more,
                        position_past(block_pos, len),
                        at_end,
                        next_partial,
                    );
                    if ready && now.error is None {
                        assert(seq![buffer] + (next_now.payloads + later.payloads) =~= (seq![
                            buffer,
                        ] + next_now.payloads) + later.payloads);
                    }
                },
            }
        },
        Fetched::Bad(e) => {
            lemma_fetched_stable(pending, block_pos, false, more, at_end);
        },
        _ => {
            assert(now.payloads + later.payloads =~= later.payloads);
        },
    }
}

/// Applying operations one sequence after the other is applying them all.
pub proof fn lemma_applied_concat(
    map: Map<Seq<u8>, Seq<u8>>,
    first: Seq<BatchEntry>,
    second: Seq<BatchEntry>,
)
    ensures
        applied(map, first + second) == applied(applied(map, first), second),
    decreases first.len(),
{
    if first.len() == 0 {
        assert(first + second =~= second);
    } else {
        let all = first + second;
        assert(all.first() == first.first());
        assert(all.drop_first() =~= first.drop_first() + second);
        lemma_applied_concat(apply_entry(map, first.first()), first.drop_first(), second);
    }
}

/// The last operation of a sequence is applied to what the others gave.
pub proof fn lemma_applied_push(
    map: Map<Seq<u8>, Seq<u8>>,
    entries: Seq<BatchEntry>,
    entry: BatchEntry,
)
    ensures
        applied(map, entries.push(entry)) == apply_entry(applied(map, entries), entry),
{
    let one = seq![entry];
    lemma_applied_concat(map, entries, one);
    assert(entries + one =~= entries.push(entry));
    assert(one.first() == entry);
    assert(one.drop_first() =~= Seq::<BatchEntry>::empty());
    reveal_with_fuel(applied, 2);
}

/// What the last operation on `key` in `entries` does: it stores a value,
/// or it deletes the key. There is none where no operation names the key.
pub open spec fn last_write(entries: Seq<BatchEntry>, key: Seq<u8>) -> Option<Option<Seq<u8>>>
    decreases entries.len(),
{
    if entries.len() == 0 {
        None
    } else if entries.last().0 == key {
        Some(entries.last().1)
    } else {
        last_write(entries.drop_last(), key)
    }
}

/// After a sequence of operations a key holds what the last operation on it
/// stored, is absent where that operation deleted it, and is as before
/// where no operation names it.
pub proof fn lemma_applied_per_key(
    map: Map<Seq<u8>, Seq<u8>>,
    entries: Seq<BatchEntry>,
    key: Seq<u8>,
)
    ensures
        match last_write(entries, key) {
            Some(Some(value)) => applied(map, entries).contains_key(key) && applied(
                map,
                entries,
            )[key] == value,
            Some(None) => !applied(map, entries).contains_key(key),
            None => {
                &&& applied(map, entries).contains_key(key) == map.contains_key(key)
                &&& map.contains_key(key) ==> applied(map, entries)[key] == map[key]
            },
        },
    decreases entries.len(),
{
    if entries.len() > 0 {
        let front = entries.drop_last();
        let last = entries.last();
        assert(front.push(last) =~= entries);
        lemma_applied_push(map, front, last);
        lemma_applied_per_key(map, front, key);
    }
}

/// Tombstone: after a sequence of operations that ends with the delete of
/// a key, the key is absent, whatever was stored under it before.
pub proof fn lemma_delete_wins(
    map: Map<Seq<u8>, Seq<u8>>,
    entries: Seq<BatchEntry>,
    key: Seq<u8>,
)
    ensures
        !applied(map, entries.push((key, None))).contains_key(key),
{
    lemma_applied_push(map, entries, (key, None));
}

/// Applying a sequence of operations a second time changes nothing.
pub proof fn lemma_applied_idempotent(map: Map<Seq<u8>, Seq<u8>>, entries: Seq<BatchEntry>)
    ensures
        applied(applied(map, entries), entries) == applied(map, entries),
{
    let once = applied(map, entries);
    let twice = applied(once, entries);
    assert forall|key: Seq<u8>| #[trigger]
        twice.dom().contains(key) == once.dom().contains(key) by {
        lemma_applied_per_key(map, entries, key);
        lemma_applied_per_key(once, entries, key);
    }
    assert forall|key: Seq<u8>| #[trigger] once.dom().contains(key) implies twice[key]
        == once[key] by {
        lemma_applied_per_key(map, entries, key);
        lemma_applied_per_key(once, entries, key);
    }
    assert(twice =~= once);
}

/// The operations of a sequence of payloads, each the bytes of a write
/// batch, one after the other.
pub open spec fn all_entries(payloads: Seq<Seq<u8>>) -> Seq<BatchEntry>
    decreases payloads.len(),
{
    if payloads.len() == 0 {
        Seq::empty()
    } else {
        batch_entries(payloads.first()) + all_entries(payloads.drop_first())
    }
}

/// Applying payloads is applying their operations.
pub proof fn lemma_applied_payloads_flat(map: Map<Seq<u8>, Seq<u8>>, payloads: Seq<Seq<u8>>)
    ensures
        applied_payloads(map, payloads) == applied(map, all_entries(payloads)),
    decreases payloads.len(),
{
    if payloads.len() > 0 {
        let head = batch_entries(payloads.first());
        lemma_applied_payloads_flat(applied(map, head), payloads.drop_first());
        lemma_applied_concat(map, head, all_entries(payloads.drop_first()));
    }
}

/// Recovery is idempotent: recovering from a log into a table that was
/// recovered from the same log leaves the table as it is. So a table holds
/// the same after recovery has run twice as after it has run once.
pub proof fn lemma_recovery_idempotent(map: Map<Seq<u8>, Seq<u8>>, log: Seq<u8>)
    ensures
        recovered(recovered(map, log), log) == recovered(map, log),
{
    let payloads = log_contents(log).payloads;
    lemma_applied_payloads_flat(map, payloads);
    lemma_applied_payloads_flat(recovered(map, log), payloads);
    lemma_applied_idempotent(map, all_entries(payloads));
}

/// Applies the operations of `wb` to the memtable, in order.
pub fn consume_write_batch(memtable: &mut Memtable, wb: &WriteBatch)
    ensures
        final(memtable)@ == applied(old(memtable)@, wb@),
{
    let mut it = wb.iter();
    loop
        invariant
            applied(memtable@, it.remaining()) == applied(old(memtable)@, wb@),
        ensures
            memtable@ == applied(old(memtable)@, wb@),
        decreases it.remaining().len(),
    {
        let ghost before = it.remaining();
        match it.next() {
            None => {
                break ;
            },
            Some((key, value)) => {
                assert(before.drop_first() =~= it.remaining());
                match value {
                    Some(value) => memtable.insert_or_update(key, value),
                    None => {
                        memtable.delete(key);
                    },
                }
            },
        }
    }
}

/// Reads every record that the reader can yield from the bytes at hand,
/// gathers the payloads and applies each one that is whole to the
/// memtable. Stops with the failure where the reader or the builder
/// refuses a record.
pub fn replay(iter: &mut Iter, builder: &mut WriteBatchBuilder, memtable: &mut Memtable) -> (r:
    core::result::Result<(), Error>)
    ensures
        ({
            let read = replayed(
                old(iter).pending(),
                old(iter).block_position(),
                old(iter).at_end(),
                old(builder).buffer(),
            );
            &&& final(memtable)@ == applied_payloads(old(memtable)@, read.payloads)
            &&& final(iter).at_end() == old(iter).at_end()
            &&& match read.error {
                Some(e) => r == Err::<(), Error>(e),
                None => {
                    &&& r == Ok::<(), Error>(())
                    &&& final(iter).pending() == read.rest
                    &&& final(iter).block_position() == read.block_pos
                    &&& final(builder).buffer() == read.partial
                    &&& !(final(iter).found() is Record)
                    &&& !(final(iter).found() is Bad)
                },
            }
        }),
{
    let ghost total = replayed(
        iter.pending(),
        iter.block_position(),
        iter.at_end(),
        builder.buffer(),
    );
    loop
        invariant
            total == replayed(
                old(iter).pending(),
                old(iter).block_position(),
                old(iter).at_end(),
                old(builder).buffer(),
            ),
            iter.at_end() == old(iter).at_end(),
            ({
                let read = replayed(
                    iter.pending(),
                    iter.block_position(),
                    iter.at_end(),
                    builder.buffer(),
                );
                &&& applied_payloads(memtable@, read.payloads) == applied_payloads(
                    old(memtable)@,
                    total.payloads,
                )
                &&& read.error == total.error
                &&& read.rest == total.rest
                &&& read.block_pos == total.block_pos
                &&& read.partial == total.partial
            }),
        decreases iter.pending().len(),
    {
        let ghost pending = iter.pending();
        let ghost block_pos = iter.block_position();
        let ghost at_end = iter.at_end();
        let ghost partial = builder.buffer();
        proof {
            lemma_replayed_step(pending, block_pos, at_end, partial);
        }
        match iter.next() {
            None => {
                return Ok(());
            },
            Some(Err(e)) => {
                return Err(e);
            },
            Some(Ok(record)) => {
                match builder.accumulate_record(&record) {
                    Ok(()) => {},
                    Err(e) => {
                        return Err(e);
                    },
                }
                if builder.is_ready() {
                    let ghost payload = builder.buffer();
                    consume_write_batch(memtable, builder.get_write_batch());
                    builder.consume();
                    proof {
                        let next = replayed(
                            iter.pending(),
                            iter.block_position(),
                            at_end,
                            Seq::empty(),
                        );
                        let all = seq![payload] + next.payloads;
                        assert(all.first() == payload);
                        assert(all.drop_first() =~= next.payloads);
                    }
                }
            },
        }
    }
}

/// The number of bytes that `load` hands to the reader at a time.
pub const LOAD_BUFFER_CAPACITY: usize = 131072;

/// Recovers the memtable from the bytes of a log: every write batch that
/// the log holds whole is applied, in order. A record that cannot be
/// decoded, or whose checksum or type is refused, stops the recovery with
/// its error; what was applied before stays applied.
pub fn load(log: &[u8], memtable: &mut Memtable) -> (r: core::result::Result<(), Error>)
    ensures
        final(memtable)@ == recovered(old(memtable)@, log@),
        r == match log_contents(log@).error {
            Some(e) => Err::<(), Error>(e),
            None => Ok::<(), Error>(()),
        },
{
    let mut iter = Iter::new();
    let mut builder = WriteBatchBuilder::new();
    let mut pos: usize = 0;
    let ghost total = log_contents(log@);
    assert(iter.pending() + log@.skip(0) =~= log@);
    loop
        invariant
            total == log_contents(log@),
            pos <= log@.len(),
            iter.at_end() ==> pos == log@.len(),
            ({
                let read = replayed(
                    iter.pending() + log@.skip(pos as int),
                    iter.block_position(),
                    true,
                    builder.buffer(),
                );
                &&& applied_payloads(memtable@, read.payloads) == applied_payloads(
                    old(memtable)@,
                    total.payloads,
                )
                &&& read.error == total.error
            }),
        decreases
                log@.len() - pos,
                if iter.at_end() {
                    0int
                } else {
                    1int
                },
    {
        let ghost unfed = log@.skip(pos as int);
        let ghost map = memtable@;
        let ghost now = replayed(
            iter.pending(),
            iter.block_position(),
            iter.at_end(),
            builder.buffer(),
        );
        proof {
            if iter.at_end() {
                assert(iter.pending() + unfed =~= iter.pending());
            } else {
                lemma_replayed_in_pieces(
                    iter.pending(),
                    iter.block_position(),
                    builder.buffer(),
                    unfed,
                    true,
                );
            }
            if now.error is None {
                let later = replayed(now.rest + unfed, now.block_pos, true, now.partial);
                if !iter.at_end() {
                    lemma_applied_payloads_concat(map, now.payloads, later.payloads);
                }
            }
        }
        match replay(&mut iter, &mut builder, memtable) {
            Ok(()) => {},
            Err(e) => {
                return Err(e);
            },
        }
        if !iter.wants_data() {
            proof {
                assert(iter.found() is End);
                assert(iter.pending() + unfed =~= iter.pending());
            }
            return Ok(());
        }
        let left = log.len() - pos;
        let n = if left < LOAD_BUFFER_CAPACITY {
            left
        } else {
            LOAD_BUFFER_CAPACITY
        };
        let ghost before = iter.pending();
        iter.fill_buffer(&log[pos..pos + n]);
        pos = pos + n;
        proof {
            assert(iter.pending() + log@.skip(pos as int) =~= before + unfed);
        }
    }
}

} // verus!
