//! The framing of one record of the write-ahead log: a header of seven
//! bytes (checksum, payload length, record type) and then the payload.
//!
//! ```text
//! +---------+-----------+-----------+--- ... ---+
//! |CRC (4B) | Size (2B) | Type (1B) | Payload   |
//! +---------+-----------+-----------+--- ... ---+
//! ```
//!
//! All integers are big-endian. The checksum covers the payload only.
use crate::big_endian::{
    be16, be16_at, be32, be32_at, lemma_be16_round_trip, lemma_be32_round_trip, push_be16,
    push_be32, read_be16, read_be32,
};
use crate::error::Error;
use vstd::prelude::*;

verus! {

/// The size of a block of the log. It is at most 65535, since a payload's
/// length is written in two bytes.
pub const DEFAULT_BLOCK_SIZE: usize = 32768;

/// CRC (4B) + Size (2B) + Type (1B).
pub const LOG_RECORD_HEADER_SIZE: usize = 7;

/// A header and one byte of payload.
pub const MIN_RECORD_SIZE: usize = 8;

/// The capacity that buffered readers and writers of the log use.
pub const DEFAULT_BUFFER_CAPACITY: usize = 131072;

/// What part of a logical payload a record carries.
#[derive(Clone, Copy, PartialEq, Eq, Debug, Structural)]
pub enum RecordType {
    Zero,
    First,
    Middle,
    Last,
    Full,
}

impl RecordType {
    /// The byte that stands for this type on disk.
    pub open spec fn spec_value(self) -> u8 {
        match self {
            RecordType::Zero => 0,
            RecordType::First => 1,
            RecordType::Middle => 2,
            RecordType::Last => 3,
            RecordType::Full => 4,
        }
    }

    /// The type that the byte `b` stands for, if any.
    pub open spec fn spec_from_u8(b: u8) -> Option<RecordType> {
        if b == 0 {
            Some(RecordType::Zero)
        } else if b == 1 {
            Some(RecordType::First)
        } else if b == 2 {
            Some(RecordType::Middle)
        } else if b == 3 {
            Some(RecordType::Last)
        } else if b == 4 {
            Some(RecordType::Full)
        } else {
            None
        }
    }

    /// The byte that stands for this type on disk.
    pub fn value(&self) -> (b: u8)
        ensures
            b == self.spec_value(),
            b <= 4,
    {
        match self {
            RecordType::Zero => 0,
            RecordType::First => 1,
            RecordType::Middle => 2,
            RecordType::Last => 3,
            RecordType::Full => 4,
        }
    }

    /// The type that the byte `b` stands for, if any.
    pub fn from_u8(b: u8) -> (t: Option<RecordType>)
        ensures
            t == Self::spec_from_u8(b),
            t is Some <==> b <= 4,
            t matches Some(rtype) ==> rtype.spec_value() == b,
    {
        if b == 0 {
            Some(RecordType::Zero)
        } else if b == 1 {
            Some(RecordType::First)
        } else if b == 2 {
            Some(RecordType::Middle)
        } else if b == 3 {
            Some(RecordType::Last)
        } else if b == 4 {
            Some(RecordType::Full)
        } else {
            None
        }
    }
}

/// A record of the log. The payload is borrowed from the buffer that the
/// record was read from, or from the caller's data.
#[derive(Debug, PartialEq)]
pub struct LogRecord<'a> {
    pub crc: u32,
    pub size: u16,
    pub rtype: RecordType,
    pub payload: &'a [u8],
}

/// A record as a mathematical value.
pub struct LogRecordView {
    pub crc: u32,
    pub size: u16,
    pub rtype: RecordType,
    pub payload: Seq<u8>,
}

impl<'a> View for LogRecord<'a> {
    type V = LogRecordView;

    open spec fn view(&self) -> LogRecordView {
        LogRecordView { crc: self.crc, size: self.size, rtype: self.rtype, payload: self.payload@ }
    }
}

/// The CRC-32C (Castagnoli) checksum of `data`: what `crc32c::crc32c`
/// returns for these bytes.
pub uninterp spec fn crc32c_checksum(data: Seq<u8>) -> u32;

/// Calls `crc32c::crc32c`. The checksum is a function of the bytes alone;
/// the contract gives it its name and claims nothing else of it.
#[verifier::external_body]
fn checksum(data: &[u8]) -> (crc: u32)
    ensures
        crc == crc32c_checksum(data@),
{
    crc32c::crc32c(data)
}

/// The record that carries `payload` under the type `rtype`.
pub open spec fn record_of(rtype: RecordType, payload: Seq<u8>) -> LogRecordView {
    LogRecordView { crc: crc32c_checksum(payload), size: payload.len() as u16, rtype, payload }
}

/// The bytes of a record on disk: the header and then the payload.
pub open spec fn record_image(record: LogRecordView) -> Seq<u8> {
    be32(record.crc) + be16(record.size) + seq![record.rtype.spec_value()] + record.payload
}

/// What decoding the start of `bytes` gives: the record that stands there,
/// or the reason why none does.
pub open spec fn decoded(bytes: Seq<u8>) -> core::result::Result<LogRecordView, Error> {
    if bytes.len() < MIN_RECORD_SIZE {
        Err(Error::WalRecordTooSmall(bytes.len() as usize, MIN_RECORD_SIZE))
    } else {
        let size = be16_at(bytes, 4);
        match RecordType::spec_from_u8(bytes[6]) {
            None => Err(Error::InvalidRecordType(bytes[6])),
            Some(rtype) => {
                if bytes.len() < LOG_RECORD_HEADER_SIZE + size {
                    Err(
                        Error::WalRecordTooSmall(
                            bytes.len() as usize,
                            (LOG_RECORD_HEADER_SIZE + size) as usize,
                        ),
                    )
                } else {
                    Ok(
                        LogRecordView {
                            crc: be32_at(bytes, 0),
                            size,
                            rtype,
                            payload: bytes.subrange(
                                LOG_RECORD_HEADER_SIZE as int,
                                LOG_RECORD_HEADER_SIZE + size,
                            ),
                        },
                    )
                }
            },
        }
    }
}

/// Whether the checksum that a record carries is that of its payload.
pub open spec fn crc_matches(record: LogRecordView) -> bool {
    record.crc == crc32c_checksum(record.payload)
}

impl<'a> LogRecord<'a> {
    /// Recomputes the checksum of the payload and compares it with the one
    /// that the record carries.
    pub fn validate_crc(&self) -> (r: core::result::Result<(), Error>)
        ensures
            crc_matches(self@) ==> r == Ok::<(), Error>(()),
            !crc_matches(self@) ==> r == Err::<(), Error>(
                Error::InvalidCrc(self.crc, crc32c_checksum(self.payload@)),
            ),
    {
        let actual_crc = checksum(self.payload);
        if self.crc == actual_crc {
            return Ok(());
        }
        Err(Error::InvalidCrc(self.crc, actual_crc))
    }

    /// Decodes the record at the start of `bytes`. The checksum is not
    /// validated here.
    pub fn from_serialized_bytes(bytes: &'a [u8]) -> (r: core::result::Result<LogRecord<'a>, Error>)
        ensures
            match r {
                Ok(record) => decoded(bytes@) == Ok::<LogRecordView, Error>(record@),
                Err(e) => decoded(bytes@) == Err::<LogRecordView, Error>(e),
            },
    {
        if bytes.len() < MIN_RECORD_SIZE {
            return Err(Error::WalRecordTooSmall(bytes.len(), MIN_RECORD_SIZE));
        }
        let payload_size = read_be16(bytes, 4);
        let record_type = bytes[6];
        let rtype = match RecordType::from_u8(record_type) {
            Some(rtype) => rtype,
            None => {
                return Err(Error::InvalidRecordType(record_type));
            },
        };
        let end: usize = LOG_RECORD_HEADER_SIZE + payload_size as usize;
        if bytes.len() < end {
            return Err(Error::WalRecordTooSmall(bytes.len(), end));
        }
        Ok(
            LogRecord {
                crc: read_be32(bytes, 0),
                size: payload_size,
                rtype,
                payload: &bytes[LOG_RECORD_HEADER_SIZE..end],
            },
        )
    }

    /// The record that carries `payload` under the type `rtype`.
    pub fn new(rtype: RecordType, payload: &'a [u8]) -> (record: LogRecord<'a>)
        requires
            payload@.len() <= 65535,
        ensures
            record@ == record_of(rtype, payload@),
            record.payload == payload,
    {
        LogRecord { crc: checksum(payload), rtype, size: payload.len() as u16, payload }
    }

    /// The number of bytes that the record takes on disk.
    pub fn len(&self) -> (n: usize)
        requires
            self.payload@.len() + LOG_RECORD_HEADER_SIZE <= usize::MAX,
        ensures
            n == LOG_RECORD_HEADER_SIZE + self.payload@.len(),
    {
        LOG_RECORD_HEADER_SIZE + self.payload.len()
    }

    /// Appends the bytes of the record, as they stand on disk, to `out`.
    pub fn serialize_into(&self, out: &mut Vec<u8>)
        ensures
            final(out)@ == old(out)@ + record_image(self@),
    {
        push_be32(out, self.crc);
        push_be16(out, self.size);
        out.push(self.rtype.value());
        out.extend_from_slice(self.payload);
    }

    /// The bytes of the record as they stand on disk.
    pub fn to_serialized_bytes(&self) -> (bytes: Vec<u8>)
        ensures
            bytes@ == record_image(self@),
    {
        let mut bytes: Vec<u8> = Vec::new();
        self.serialize_into(&mut bytes);
        bytes
    }
}

/// A record of at least one and at most 65535 payload bytes is read back
/// from its bytes on disk, whatever follows them, and its checksum is
/// found valid.
pub proof fn lemma_decode_encoded(rtype: RecordType, payload: Seq<u8>, rest: Seq<u8>)
    requires
        1 <= payload.len() <= 65535,
    ensures
        decoded(record_image(record_of(rtype, payload)) + rest) == Ok::<LogRecordView, Error>(
            record_of(rtype, payload),
        ),
        crc_matches(record_of(rtype, payload)),
        record_image(record_of(rtype, payload)).len() == LOG_RECORD_HEADER_SIZE + payload.len(),
{
    let record = record_of(rtype, payload);
    let bytes = record_image(record) + rest;
    assert(bytes.subrange(0, 4) =~= be32(record.crc));
    assert(bytes.subrange(4, 6) =~= be16(record.size));
    lemma_be32_round_trip(record.crc, bytes, 0);
    lemma_be16_round_trip(record.size, bytes, 4);
    assert(bytes.subrange(7, 7 + payload.len() as int) =~= payload);
}

} // verus!
