//! What is written to the log is read back: the reader finds the records
//! that the writer laid out, and the payloads come out of them whole and in
//! order.
use crate::error::Error;
use crate::log_reader::{fetched, fetched_len, position_past, Fetched};
use crate::log_record::{
    crc_matches, lemma_decode_encoded, record_image, record_of, RecordType, DEFAULT_BLOCK_SIZE,
    LOG_RECORD_HEADER_SIZE,
};
use crate::log_writer::{
    appended_image, fragment_len, fragment_type, fragments, fragments_image, lemma_fragment_len,
    lemma_fragments_done, lemma_fragments_step, padding_at, position_after, position_behind,
    zeros,
};
use crate::wal_recovery::{
    carried, continued, lemma_replayed_in_pieces, lemma_replayed_step, log_contents,
    preceded_by, replayed, Replay,
};
use crate::write_batch::accumulated;
use vstd::prelude::*;

verus! {

/// The bytes of a log to which `payloads` were appended one after the other,
/// from a place `block_pos` in a block on.
pub open spec fn log_image(block_pos: nat, payloads: Seq<Seq<u8>>) -> Seq<u8>
    decreases payloads.len(),
{
    if payloads.len() == 0 {
        Seq::empty()
    } else {
        appended_image(block_pos, payloads.first()) + log_image(
            position_after(block_pos, payloads.first().len()),
            payloads.drop_first(),
        )
    }
}

/// How many bytes the block holds after `payloads` were appended from
/// `block_pos` on.
pub open spec fn position_after_all(block_pos: nat, payloads: Seq<Seq<u8>>) -> nat
    decreases payloads.len(),
{
    if payloads.len() == 0 {
        block_pos
    } else {
        position_after_all(
            position_after(block_pos, payloads.first().len()),
            payloads.drop_first(),
        )
    }
}

/// A reading with some payloads in front of what it gave.
pub open spec fn preceded_by_all(payloads: Seq<Seq<u8>>, read: Replay) -> Replay {
    Replay {
        payloads: payloads + read.payloads,
        error: read.error,
        rest: read.rest,
        block_pos: read.block_pos,
        partial: read.partial,
    }
}

/// Whether every payload holds at least one byte.
pub open spec fn all_nonempty(payloads: Seq<Seq<u8>>) -> bool {
    forall|i: int| 0 <= i < payloads.len() ==> (#[trigger] payloads[i]).len() > 0
}

/// The writer stays within its block.
pub proof fn lemma_position_after_bounded(block_pos: nat, remaining: nat)
    requires
        block_pos <= DEFAULT_BLOCK_SIZE,
    ensures
        position_after(block_pos, remaining) <= DEFAULT_BLOCK_SIZE,
    decreases remaining,
{
    if remaining == 0 {
        lemma_fragments_done(block_pos, true);
    } else {
        let payload = Seq::new(remaining, |i: int| 0u8);
        lemma_fragment_len(block_pos, remaining);
        lemma_fragments_step(block_pos, payload, true);
        let n = fragment_len(block_pos, remaining);
        lemma_position_after_bounded(position_behind(block_pos, n), (remaining - n) as nat);
    }
}

/// The reader that has passed a record and its padding stands where the
/// writer stood when it had written them.
pub proof fn lemma_reader_follows_writer(block_pos: nat, n: nat)
    requires
        block_pos <= DEFAULT_BLOCK_SIZE,
        position_behind(block_pos, n) <= DEFAULT_BLOCK_SIZE,
    ensures
        padding_at(block_pos % (DEFAULT_BLOCK_SIZE as nat)) == padding_at(block_pos),
        position_past(
            block_pos % (DEFAULT_BLOCK_SIZE as nat),
            padding_at(block_pos) + LOG_RECORD_HEADER_SIZE as nat + n,
        ) == position_behind(block_pos, n) % (DEFAULT_BLOCK_SIZE as nat),
{
}

/// A record that the writer laid out in its block, behind the padding of
/// the block before, is what the reader finds there, whatever follows.
pub proof fn lemma_fragment_is_fetched(
    block_pos: nat,
    rtype: RecordType,
    chunk: Seq<u8>,
    after: Seq<u8>,
)
    requires
        block_pos <= DEFAULT_BLOCK_SIZE,
        1 <= chunk.len(),
        position_behind(block_pos, chunk.len()) <= DEFAULT_BLOCK_SIZE,
    ensures
        ({
            let skip = padding_at(block_pos);
            let record = record_of(rtype, chunk);
            let pending = zeros(skip) + record_image(record) + after;
            let reader_pos = block_pos % (DEFAULT_BLOCK_SIZE as nat);
            &&& fetched(pending, reader_pos, true) == Fetched::Record { skip, record }
            &&& fetched_len(skip, record) <= pending.len()
            &&& pending.skip(fetched_len(skip, record) as int) == after
            &&& position_past(reader_pos, fetched_len(skip, record)) == position_behind(
                block_pos,
                chunk.len(),
            ) % (DEFAULT_BLOCK_SIZE as nat)
            &&& crc_matches(record)
        }),
{
    let skip = padding_at(block_pos);
    let record = record_of(rtype, chunk);
    let image = record_image(record);
    let pending = zeros(skip) + image + after;
    lemma_reader_follows_writer(block_pos, chunk.len());
    lemma_decode_encoded(rtype, chunk, after);
    assert(pending.skip(skip as int) =~= image + after);
    let len = fetched_len(skip, record);
    assert(len == skip + image.len());
    assert(pending.skip(len as int) =~= after);
}

/// A record that the writer laid out is read and taken into the payload,
/// and the reading goes on behind it.
pub proof fn lemma_fragment_is_replayed(
    block_pos: nat,
    first: bool,
    last: bool,
    chunk: Seq<u8>,
    partial: Seq<u8>,
    after: Seq<u8>,
)
    requires
        block_pos <= DEFAULT_BLOCK_SIZE,
        1 <= chunk.len(),
        position_behind(block_pos, chunk.len()) <= DEFAULT_BLOCK_SIZE,
    ensures
        replayed(
            zeros(padding_at(block_pos)) + record_image(
                record_of(fragment_type(first, last), chunk),
            ) + after,
            block_pos % (DEFAULT_BLOCK_SIZE as nat),
            true,
            partial,
        ) == continued(
            partial + chunk,
            last,
            replayed(
                after,
                position_behind(block_pos, chunk.len()) % (DEFAULT_BLOCK_SIZE as nat),
                true,
                carried(partial + chunk, last),
            ),
        ),
{
    let rtype = fragment_type(first, last);
    let skip = padding_at(block_pos);
    let record = record_of(rtype, chunk);
    let pending = zeros(skip) + record_image(record) + after;
    let reader_pos = block_pos % (DEFAULT_BLOCK_SIZE as nat);
    lemma_fragment_is_fetched(block_pos, rtype, chunk, after);
    lemma_replayed_step(pending, reader_pos, true, partial);
    assert(accumulated(partial, record) == Ok::<(Seq<u8>, bool), Error>((partial + chunk, last)));
}

/// The bytes that the writer lays out for the rest of a payload are read
/// back as records that complete the payload, whatever follows them in the
/// log: the reading gives the payload and then what the bytes that follow
/// hold.
pub proof fn lemma_appended_is_replayed(
    block_pos: nat,
    data: Seq<u8>,
    first: bool,
    partial: Seq<u8>,
    rest: Seq<u8>,
)
    requires
        block_pos <= DEFAULT_BLOCK_SIZE,
        data.len() > 0,
    ensures
        replayed(
            fragments_image(fragments(block_pos, data, first)) + rest,
            block_pos % (DEFAULT_BLOCK_SIZE as nat),
            true,
            partial,
        ) == preceded_by(
            partial + data,
            replayed(
                rest,
                position_after(block_pos, data.len()) % (DEFAULT_BLOCK_SIZE as nat),
                true,
                Seq::empty(),
            ),
        ),
    decreases data.len(),
{
    let n = fragment_len(block_pos, data.len());
    let last = n == data.len();
    let chunk = data.take(n as int);
    let behind = position_behind(block_pos, n);
    let tail = fragments(behind, data.skip(n as int), false);
    lemma_fragment_len(block_pos, data.len());
    lemma_fragments_step(block_pos, data, first);
    let record = record_of(fragment_type(first, last), chunk);
    let after = fragments_image(tail) + rest;
    let pending = fragments_image(fragments(block_pos, data, first)) + rest;
    assert(pending =~= zeros(padding_at(block_pos)) + record_image(record) + after);
    lemma_fragment_is_replayed(block_pos, first, last, chunk, partial, after);
    if last {
        assert(chunk =~= data);
        assert(data.skip(n as int) =~= Seq::<u8>::empty());
        lemma_fragments_done(behind, false);
        assert(after =~= rest);
    } else {
        lemma_appended_is_replayed(behind, data.skip(n as int), false, partial + chunk, rest);
        assert((partial + chunk) + data.skip(n as int) =~= partial + data);
    }
}

/// Log round trip: the log that holds a sequence of payloads, none of them
/// empty, is read back as these payloads, whole and in order, whatever
/// follows them in the log.
pub proof fn lemma_log_image_is_replayed(block_pos: nat, payloads: Seq<Seq<u8>>, rest: Seq<u8>)
    requires
        block_pos <= DEFAULT_BLOCK_SIZE,
        all_nonempty(payloads),
    ensures
        replayed(
            log_image(block_pos, payloads) + rest,
            block_pos % (DEFAULT_BLOCK_SIZE as nat),
            true,
            Seq::empty(),
        ) == preceded_by_all(
            payloads,
            replayed(
                rest,
                position_after_all(block_pos, payloads) % (DEFAULT_BLOCK_SIZE as nat),
                true,
                Seq::empty(),
            ),
        ),
        position_after_all(block_pos, payloads) <= DEFAULT_BLOCK_SIZE,
    decreases payloads.len(),
{
    let end = replayed(
        rest,
        position_after_all(block_pos, payloads) % (DEFAULT_BLOCK_SIZE as nat),
        true,
        Seq::empty(),
    );
    if payloads.len() == 0 {
        assert(log_image(block_pos, payloads) + rest =~= rest);
        assert(payloads + end.payloads =~= end.payloads);
        assert(block_pos == position_after_all(block_pos, payloads));
    } else {
        let head = payloads.first();
        let others = payloads.drop_first();
        let behind = position_after(block_pos, head.len());
        assert(head.len() > 0);
        assert(all_nonempty(others)) by {
            assert forall|i: int| 0 <= i < others.len() implies (#[trigger] others[i]).len()
                > 0 by {
                assert(others[i] == payloads[i + 1]);
            }
        }
        lemma_position_after_bounded(block_pos, head.len());
        lemma_log_image_is_replayed(behind, others, rest);
        let after = log_image(behind, others) + rest;
        lemma_appended_is_replayed(block_pos, head, true, Seq::empty(), after);
        assert(log_image(block_pos, payloads) + rest =~= appended_image(block_pos, head) + after);
        assert(Seq::<u8>::empty() + head =~= head);
        assert(seq![head] + (others + end.payloads) =~= payloads + end.payloads);
    }
}

/// Log round trip: a log that was written from its start and holds a
/// sequence of payloads, none of them empty, is read back as exactly these
/// payloads, in order and without a failure.
pub proof fn lemma_log_round_trip(payloads: Seq<Seq<u8>>)
    requires
        all_nonempty(payloads),
    ensures
        log_contents(log_image(0, payloads)).payloads == payloads,
        log_contents(log_image(0, payloads)).error is None,
        log_contents(log_image(0, payloads)).rest == Seq::<u8>::empty(),
        log_contents(log_image(0, payloads)).partial == Seq::<u8>::empty(),
{
    let log = log_image(0, payloads);
    lemma_log_image_is_replayed(0, payloads, Seq::empty());
    lemma_replayed_step(
        Seq::empty(),
        position_after_all(0, payloads) % (DEFAULT_BLOCK_SIZE as nat),
        true,
        Seq::empty(),
    );
    assert(log + Seq::<u8>::empty() =~= log);
    let end = replayed(
        Seq::empty(),
        position_after_all(0, payloads) % (DEFAULT_BLOCK_SIZE as nat),
        true,
        Seq::empty(),
    );
    assert(payloads + end.payloads =~= payloads);
}

/// Passing bytes in two steps leads to the same place in the block as
/// passing them at once.
pub proof fn lemma_position_past_twice(block_pos: nat, len: nat, more: nat)
    ensures
        position_past(position_past(block_pos, len), more) == position_past(
            block_pos,
            len + more,
        ),
{
    let m = DEFAULT_BLOCK_SIZE as int;
    let first = (block_pos + len) as int;
    let second = more as int;
    vstd::arithmetic::div_mod::lemma_add_mod_noop(first, second, m);
    vstd::arithmetic::div_mod::lemma_add_mod_noop(first % m, second, m);
    vstd::arithmetic::div_mod::lemma_mod_twice(first, m);
}

/// Where the reading of a log stops it has passed all bytes but those that
/// it left, and it stands in its block accordingly.
pub proof fn lemma_replayed_position(
    pending: Seq<u8>,
    block_pos: nat,
    at_end: bool,
    partial: Seq<u8>,
)
    requires
        block_pos < DEFAULT_BLOCK_SIZE,
    ensures
        replayed(pending, block_pos, at_end, partial).rest.len() <= pending.len(),
        replayed(pending, block_pos, at_end, partial).block_pos == (block_pos + pending.len()
            - replayed(pending, block_pos, at_end, partial).rest.len()) % (
        DEFAULT_BLOCK_SIZE as int),
    decreases pending.len(),
{
    lemma_replayed_step(pending, block_pos, at_end, partial);
    match fetched(pending, block_pos, at_end) {
        Fetched::Record { skip, record } => {
            match accumulated(partial, record) {
                Err(e) => {},
                Ok((buffer, ready)) => {
                    let len = fetched_len(skip, record);
                    let next = replayed(
                        pending.skip(len as int),
                        position_past(block_pos, len),
                        at_end,
                        carried(buffer, ready),
                    );
                    lemma_replayed_position(
                        pending.skip(len as int),
                        position_past(block_pos, len),
                        at_end,
                        carried(buffer, ready),
                    );
                    let passed = (pending.len() - len - next.rest.len()) as nat;
                    lemma_position_past_twice(block_pos, len, passed);
                },
            }
        },
        _ => {},
    }
}

/// Where a log ends in its last block can be told from where the reading
/// of it stopped and from the number of bytes that the reading left.
pub proof fn lemma_log_end_position(log: Seq<u8>)
    ensures
        log_contents(log).block_pos < DEFAULT_BLOCK_SIZE,
        (log_contents(log).block_pos + log_contents(log).rest.len() % (
        DEFAULT_BLOCK_SIZE as nat)) % (DEFAULT_BLOCK_SIZE as nat) == log.len() % (
        DEFAULT_BLOCK_SIZE as nat),
{
    lemma_replayed_position(log, 0, true, Seq::empty());
    let passed = log.len() - log_contents(log).rest.len();
    let left = log_contents(log).rest.len() as int;
    assert((passed % 32768 + left % 32768) % 32768 == (passed + left) % 32768) by {
        vstd::arithmetic::div_mod::lemma_add_mod_noop(passed, left, 32768);
    }
}

/// A reading that ends without a failure where the log ends is the reading
/// of the same bytes while more may come.
pub proof fn lemma_replayed_before_end(pending: Seq<u8>, block_pos: nat, partial: Seq<u8>)
    requires
        replayed(pending, block_pos, true, partial).error is None,
    ensures
        replayed(pending, block_pos, false, partial) == replayed(pending, block_pos, true, partial),
    decreases pending.len(),
{
    lemma_replayed_step(pending, block_pos, true, partial);
    lemma_replayed_step(pending, block_pos, false, partial);
    match fetched(pending, block_pos, true) {
        Fetched::Record { skip, record } => {
            match accumulated(partial, record) {
                Err(e) => {},
                Ok((buffer, ready)) => {
                    let len = fetched_len(skip, record);
                    lemma_replayed_before_end(
                        pending.skip(len as int),
                        position_past(block_pos, len),
                        carried(buffer, ready),
                    );
                },
            }
        },
        _ => {},
    }
}

/// Whether a log is read to its last byte, without a failure and without a
/// payload left unfinished. A log that was written from its start by
/// appending payloads is of this kind.
pub open spec fn log_is_clean(log: Seq<u8>) -> bool {
    &&& log_contents(log).error is None
    &&& log_contents(log).rest.len() == 0
    &&& log_contents(log).partial.len() == 0
}

/// Appending a payload to a clean log, from the place in its last block
/// where the log ends, gives a clean log that holds the payloads of the old
/// one and then the new payload.
pub proof fn lemma_clean_log_extended(log: Seq<u8>, block_pos: nat, payload: Seq<u8>)
    requires
        log_is_clean(log),
        block_pos <= DEFAULT_BLOCK_SIZE,
        block_pos % (DEFAULT_BLOCK_SIZE as nat) == log.len() % (DEFAULT_BLOCK_SIZE as nat),
        payload.len() > 0,
    ensures
        log_is_clean(log + appended_image(block_pos, payload)),
        log_contents(log + appended_image(block_pos, payload)).payloads == log_contents(
            log,
        ).payloads.push(payload),
        position_after(block_pos, payload.len()) <= DEFAULT_BLOCK_SIZE,
        position_after(block_pos, payload.len()) % (DEFAULT_BLOCK_SIZE as nat) == (log
            + appended_image(block_pos, payload)).len() % (DEFAULT_BLOCK_SIZE as nat),
{
    let empty = Seq::<u8>::empty();
    let added = appended_image(block_pos, payload);
    let old_read = log_contents(log);
    let reader_pos = block_pos % (DEFAULT_BLOCK_SIZE as nat);
    lemma_replayed_before_end(log, 0, empty);
    lemma_replayed_in_pieces(log, 0, empty, added, true);
    lemma_replayed_position(log, 0, true, empty);
    assert(old_read.rest =~= empty);
    assert(old_read.partial =~= empty);
    assert(old_read.rest + added =~= added);
    assert(old_read.block_pos == reader_pos);
    lemma_appended_is_replayed(block_pos, payload, true, empty, empty);
    lemma_position_after_bounded(block_pos, payload.len());
    assert(added + empty =~= added);
    assert(empty + payload =~= payload);
    let end_pos = position_after(block_pos, payload.len()) % (DEFAULT_BLOCK_SIZE as nat);
    let end = replayed(empty, end_pos, true, empty);
    lemma_replayed_step(empty, end_pos, true, empty);
    let later = replayed(added, reader_pos, true, empty);
    assert(later == preceded_by(payload, end));
    assert(seq![payload] + end.payloads =~= seq![payload]);
    assert(old_read.payloads + seq![payload] =~= old_read.payloads.push(payload));
    lemma_replayed_position(added, reader_pos, true, empty);
}

} // verus!
