//! The record batch: a fixed header, then the records, compressed as the
//! attributes say, with a CRC-32C over everything from the attributes on.
use vstd::prelude::*;
use crate::codec::{Deserializer, Serializer};
use crate::compression::{compress, compression_of, decompress, gunzip_of, gzip_of};
use crate::crc32c::{crc32c, crc32c_spec};
use crate::error::{Compression, Context, Error, ErrorKind, Limit};
use crate::primitives::{BYTES_MAX, get_i64, get_int, get_raw, get_uint, put_int, put_raw, rest};
use crate::record::{
    Record, RecordModel, all_of_kind, encoded, get_records, lemma_records_round_trip,
    parse_records, put_records, records_view, records_wire,
};
use crate::wire::{
    be_bytes, be_value, int_bytes, lemma_be_bytes_len, lemma_be_round_trip, lemma_int_round_trip,
    lemma_pow256_values, pow256, put_be, to_signed,
};

verus! {

/// Bytes before the batch length counts: the base offset and the batch length.
pub const HEADING_SIZE: usize = 12;

/// Header bytes that the batch length counts: from the partition leader
/// epoch through the record count.
pub const INNER_SIZE: usize = 49;

/// All header bytes before the records.
pub const HEADER_SIZE: usize = 61;

/// Where the CRC field starts.
pub const CRC_OFFSET: usize = 17;

/// Where the bytes that the CRC covers start: the attributes field.
pub const CRC_START: usize = 21;

/// The records of a batch.
#[derive(Debug, Clone, PartialEq, Eq, PartialOrd, Ord, Hash)]
pub struct Records(pub Vec<Record>);

/// Which clock a batch's timestamps come from.
#[derive(Debug, Clone, Copy, PartialEq, Eq, PartialOrd, Ord, Hash, Structural)]
pub enum TimestampType {
    CreateTime,
    LogAppendTime,
}

/// A record batch. `batch_length` and `crc` are computed when the batch is
/// encoded; `records_len` is the record count, written as it stands.
#[derive(Debug, Clone, PartialEq, Eq, PartialOrd, Ord, Hash)]
pub struct RecordBatch {
    pub base_offset: i64,
    pub batch_length: i32,
    pub partition_leader_epoch: i32,
    pub magic: i8,
    pub crc: u32,
    pub attributes: i16,
    pub last_offset_delta: i32,
    pub first_timestamp: i64,
    pub max_timestamp: i64,
    pub producer_id: i64,
    pub producer_epoch: i16,
    pub base_sequence: i32,
    pub records_len: i32,
    pub records: Records,
}

/// The header fields of a batch.
pub struct BatchHead {
    pub base_offset: i64,
    pub batch_length: i32,
    pub partition_leader_epoch: i32,
    pub magic: i8,
    pub crc: u32,
    pub attributes: i16,
    pub last_offset_delta: i32,
    pub first_timestamp: i64,
    pub max_timestamp: i64,
    pub producer_id: i64,
    pub producer_epoch: i16,
    pub base_sequence: i32,
    pub records_len: i32,
}

pub struct RecordBatchModel {
    pub head: BatchHead,
    pub records: Seq<RecordModel>,
}

impl View for RecordBatch {
    type V = RecordBatchModel;

    open spec fn view(&self) -> RecordBatchModel {
        RecordBatchModel {
            head: BatchHead {
                base_offset: self.base_offset,
                batch_length: self.batch_length,
                partition_leader_epoch: self.partition_leader_epoch,
                magic: self.magic,
                crc: self.crc,
                attributes: self.attributes,
                last_offset_delta: self.last_offset_delta,
                first_timestamp: self.first_timestamp,
                max_timestamp: self.max_timestamp,
                producer_id: self.producer_id,
                producer_epoch: self.producer_epoch,
                base_sequence: self.base_sequence,
                records_len: self.records_len,
            },
            records: records_view(self.records.0@),
        }
    }
}

/// Bit 5 of the attributes: the batch holds control records.
pub open spec fn control_bit(attributes: i16) -> bool {
    (attributes >> 5) & 1 != 0
}

/// The bytes the CRC covers: the attributes through the record count, then
/// the payload.
pub open spec fn tail_bytes(h: BatchHead, payload: Seq<u8>) -> Seq<u8> {
    int_bytes(h.attributes as int, 2) + int_bytes(h.last_offset_delta as int, 4)
        + int_bytes(h.first_timestamp as int, 8) + int_bytes(h.max_timestamp as int, 8)
        + int_bytes(h.producer_id as int, 8) + int_bytes(h.producer_epoch as int, 2)
        + int_bytes(h.base_sequence as int, 4) + int_bytes(h.records_len as int, 4) + payload
}

/// The batch length that the encoder writes for a payload.
pub open spec fn batch_length_for(payload: Seq<u8>) -> int {
    INNER_SIZE + payload.len()
}

/// The header as the encoder writes it: batch length and CRC computed.
pub open spec fn sealed(h: BatchHead, payload: Seq<u8>) -> BatchHead {
    BatchHead {
        batch_length: batch_length_for(payload) as i32,
        crc: crc32c_spec(tail_bytes(h, payload)),
        ..h
    }
}

/// A batch around an already compressed payload.
pub open spec fn batch_bytes(h: BatchHead, payload: Seq<u8>) -> Seq<u8> {
    int_bytes(h.base_offset as int, 8) + int_bytes(batch_length_for(payload), 4)
        + int_bytes(h.partition_leader_epoch as int, 4) + int_bytes(h.magic as int, 1)
        + be_bytes(crc32c_spec(tail_bytes(h, payload)) as nat, 4) + tail_bytes(h, payload)
}

pub open spec fn frame_spec(h: BatchHead, payload: Seq<u8>) -> Result<Seq<u8>, ErrorKind> {
    if batch_length_for(payload) > BYTES_MAX {
        Err(ErrorKind::TooLong(Limit::Batch, payload.len() as usize, (BYTES_MAX - INNER_SIZE) as usize))
    } else {
        Ok(batch_bytes(h, payload))
    }
}

/// The signed big-endian field of `w` bytes at offset `o`.
pub open spec fn field(b: Seq<u8>, o: int, w: nat) -> int {
    to_signed(be_value(b.subrange(o, o + w)), w)
}

/// The header fields read from the first bytes of `b`.
pub open spec fn head_of(b: Seq<u8>) -> BatchHead {
    BatchHead {
        base_offset: field(b, 0, 8) as i64,
        batch_length: field(b, 8, 4) as i32,
        partition_leader_epoch: field(b, 12, 4) as i32,
        magic: field(b, 16, 1) as i8,
        crc: be_value(b.subrange(17, 21)) as u32,
        attributes: field(b, 21, 2) as i16,
        last_offset_delta: field(b, 23, 4) as i32,
        first_timestamp: field(b, 27, 8) as i64,
        max_timestamp: field(b, 35, 8) as i64,
        producer_id: field(b, 43, 8) as i64,
        producer_epoch: field(b, 51, 2) as i16,
        base_sequence: field(b, 53, 4) as i32,
        records_len: field(b, 57, 4) as i32,
    }
}

pub open spec fn count_of(n: i32) -> nat {
    if n < 0 {
        0
    } else {
        n as nat
    }
}

/// The records after a batch header `h` at the front of `b`: their kind from
/// attributes bit 5, their compression from bits 0-2, as many as the record
/// count says; and the bytes they took after the header.
pub open spec fn parse_batch_records(b: Seq<u8>, h: BatchHead) -> Result<(Seq<RecordModel>, nat), ErrorKind> {
    let control = control_bit(h.attributes);
    let n = count_of(h.records_len);
    match compression_of(h.attributes) {
        Compression::Uncompressed => parse_records(b.skip(HEADER_SIZE as int), n, control),
        Compression::Gzip => {
            let plen = h.batch_length - INNER_SIZE;
            if plen < 0 || b.len() - HEADER_SIZE < plen {
                Err(ErrorKind::InsufficientBytes(Context::Payload, plen as i64))
            } else {
                match gunzip_of(b.subrange(HEADER_SIZE as int, HEADER_SIZE + plen)) {
                    None => Err(ErrorKind::CompressionFailed),
                    Some(raw) => match parse_records(raw, n, control) {
                        Ok((rs, _)) => Ok((rs, plen as nat)),
                        Err(e) => Err(e),
                    },
                }
            }
        },
        c => Err(ErrorKind::UnsupportedCompression(c)),
    }
}

/// Decodes a batch from the front of `b`: the header first, then the
/// records as the attributes say.
pub open spec fn parse_record_batch(b: Seq<u8>) -> Result<(RecordBatchModel, nat), ErrorKind> {
    if b.len() < HEADER_SIZE {
        Err(ErrorKind::InsufficientBytes(Context::BatchHeader, HEADER_SIZE as i64))
    } else {
        match parse_batch_records(b, head_of(b)) {
            Ok((rs, m)) => Ok((RecordBatchModel { head: head_of(b), records: rs }, (HEADER_SIZE + m) as nat)),
            Err(e) => Err(e),
        }
    }
}

proof fn lemma_field(whole: Seq<u8>, o: int, x: int, w: nat)
    requires
        1 <= w <= 8,
        -(pow256(w) / 2) <= x < pow256(w) / 2,
        0 <= o,
        o + w <= whole.len(),
        whole.subrange(o, o + w) == int_bytes(x, w),
    ensures
        field(whole, o, w) == x,
{
    lemma_int_round_trip(x, w);
}

/// The header reads back from a batch's bytes as the encoder sealed it, and
/// the payload starts right after it.
#[verifier::rlimit(100)]
pub proof fn lemma_head_round_trip(h: BatchHead, p: Seq<u8>, rest: Seq<u8>)
    requires
        batch_length_for(p) <= BYTES_MAX,
    ensures
        head_of(batch_bytes(h, p) + rest) == sealed(h, p),
        (batch_bytes(h, p) + rest).skip(HEADER_SIZE as int) == p + rest,
        batch_bytes(h, p).len() == HEADER_SIZE + p.len(),
        (batch_bytes(h, p) + rest).subrange(CRC_START as int, (HEADER_SIZE + p.len()) as int) == tail_bytes(h, p),
{
    lemma_pow256_values();
    let t = tail_bytes(h, p);
    let crc = crc32c_spec(t);
    let b0 = int_bytes(h.base_offset as int, 8);
    let b1 = int_bytes(batch_length_for(p), 4);
    let b2 = int_bytes(h.partition_leader_epoch as int, 4);
    let b3 = int_bytes(h.magic as int, 1);
    let b4 = be_bytes(crc as nat, 4);
    let a0 = int_bytes(h.attributes as int, 2);
    let a1 = int_bytes(h.last_offset_delta as int, 4);
    let a2 = int_bytes(h.first_timestamp as int, 8);
    let a3 = int_bytes(h.max_timestamp as int, 8);
    let a4 = int_bytes(h.producer_id as int, 8);
    let a5 = int_bytes(h.producer_epoch as int, 2);
    let a6 = int_bytes(h.base_sequence as int, 4);
    let a7 = int_bytes(h.records_len as int, 4);
    lemma_int_round_trip(h.base_offset as int, 8);
    lemma_int_round_trip(batch_length_for(p), 4);
    lemma_int_round_trip(h.partition_leader_epoch as int, 2 + 2);
    lemma_int_round_trip(h.magic as int, 1);
    lemma_be_bytes_len(crc as nat, 4);
    lemma_be_round_trip(crc as nat, 4);
    lemma_int_round_trip(h.attributes as int, 2);
    lemma_int_round_trip(h.last_offset_delta as int, 4);
    lemma_int_round_trip(h.first_timestamp as int, 8);
    lemma_int_round_trip(h.max_timestamp as int, 8);
    lemma_int_round_trip(h.producer_id as int, 8);
    lemma_int_round_trip(h.producer_epoch as int, 2);
    lemma_int_round_trip(h.base_sequence as int, 4);
    lemma_int_round_trip(h.records_len as int, 4);
    let hd = b0 + b1 + b2 + b3 + b4;
    let ta = a0 + a1 + a2 + a3 + a4 + a5 + a6 + a7;
    assert(t == ta + p);
    let whole = batch_bytes(h, p) + rest;
    assert(whole =~= hd + (ta + (p + rest)));
    assert(hd.len() == 21);
    assert(ta.len() == 40);
    assert(whole.subrange(0, 8) =~= b0);
    assert(whole.subrange(8, 12) =~= b1);
    assert(whole.subrange(12, 16) =~= b2);
    assert(whole.subrange(16, 17) =~= b3);
    assert(whole.subrange(17, 21) =~= b4);
    assert(whole.subrange(21, 23) =~= a0);
    assert(whole.subrange(23, 27) =~= a1);
    assert(whole.subrange(27, 35) =~= a2);
    assert(whole.subrange(35, 43) =~= a3);
    assert(whole.subrange(43, 51) =~= a4);
    assert(whole.subrange(51, 53) =~= a5);
    assert(whole.subrange(53, 57) =~= a6);
    assert(whole.subrange(57, 61) =~= a7);
    assert(whole.skip(61) =~= p + rest);
    assert(whole.subrange(21, (61 + p.len()) as int) =~= t);
    lemma_field(whole, 0, h.base_offset as int, 8);
    lemma_field(whole, 8, batch_length_for(p), 4);
    lemma_field(whole, 12, h.partition_leader_epoch as int, 4);
    lemma_field(whole, 16, h.magic as int, 1);
    lemma_field(whole, 21, h.attributes as int, 2);
    lemma_field(whole, 23, h.last_offset_delta as int, 4);
    lemma_field(whole, 27, h.first_timestamp as int, 8);
    lemma_field(whole, 35, h.max_timestamp as int, 8);
    lemma_field(whole, 43, h.producer_id as int, 8);
    lemma_field(whole, 51, h.producer_epoch as int, 2);
    lemma_field(whole, 53, h.base_sequence as int, 4);
    lemma_field(whole, 57, h.records_len as int, 4);
}

/// The bytes a batch encodes to, or the first failure: its records one
/// after another, compressed as the attributes say, framed with the
/// computed batch length and CRC.
pub open spec fn batch_wire(b: RecordBatchModel) -> Result<Seq<u8>, ErrorKind> {
    match records_wire(b.records, 0) {
        Err(e) => Err(e),
        Ok(raw) => match compression_of(b.head.attributes) {
            Compression::Uncompressed => frame_spec(b.head, raw),
            Compression::Gzip => frame_spec(b.head, gzip_of(raw)),
            c => Err(ErrorKind::UnsupportedCompression(c)),
        },
    }
}

/// A batch read back from its bytes: an uncompressed batch whose records
/// all have the kind that attributes bit 5 names, and whose record count is
/// their number, decodes to its own records under the header the encoder
/// sealed, taking exactly its bytes.
pub proof fn lemma_record_batch_round_trip(b: RecordBatchModel, rest: Seq<u8>)
    requires
        compression_of(b.head.attributes) == Compression::Uncompressed,
        all_of_kind(b.records, control_bit(b.head.attributes)),
        b.head.records_len == b.records.len(),
        batch_wire(b) is Ok,
    ensures
        parse_record_batch(batch_wire(b)->Ok_0 + rest) == Ok::<(RecordBatchModel, nat), ErrorKind>((
            RecordBatchModel { head: sealed(b.head, records_wire(b.records, 0)->Ok_0), records: b.records },
            batch_wire(b)->Ok_0.len(),
        )),
{
    let raw = records_wire(b.records, 0)->Ok_0;
    assert(batch_wire(b)->Ok_0 == batch_bytes(b.head, raw));
    lemma_head_round_trip(b.head, raw, rest);
    lemma_records_round_trip(b.records, 0, control_bit(b.head.attributes), rest);
    assert(b.records.skip(0) == b.records);
}

impl RecordBatch {
    pub fn timestamp_type(&self) -> (t: TimestampType)
        ensures
            t == (if (self.attributes >> 3) & 1 == 0 {
                TimestampType::CreateTime
            } else {
                TimestampType::LogAppendTime
            }),
    {
        if (self.attributes >> 3) & 1 == 0 {
            TimestampType::CreateTime
        } else {
            TimestampType::LogAppendTime
        }
    }

    /// Bit 4 of the attributes.
    pub fn is_transactional(&self) -> (b: bool)
        ensures
            b == ((self.attributes >> 4) & 1 != 0),
    {
        (self.attributes >> 4) & 1 != 0
    }

    /// Bit 5 of the attributes.
    pub fn is_control(&self) -> (b: bool)
        ensures
            b == control_bit(self.attributes),
    {
        (self.attributes >> 5) & 1 != 0
    }

    /// Bits 0-2 of the attributes.
    pub fn compression(&self) -> (c: Compression)
        ensures
            c == compression_of(self.attributes),
    {
        let c = self.attributes & 7;
        if c == 0 {
            Compression::Uncompressed
        } else if c == 1 {
            Compression::Gzip
        } else if c == 2 {
            Compression::Snappy
        } else if c == 3 {
            Compression::Lz4
        } else if c == 4 {
            Compression::Zstd
        } else {
            Compression::Unknown
        }
    }

    /// This batch's header around an already compressed payload: the batch
    /// length and the CRC are computed, the other fields written as they
    /// stand.
    pub fn frame(&self, payload: &[u8]) -> (r: Result<Vec<u8>, Error>)
        ensures
            match frame_spec(self@.head, payload@) {
                Ok(w) => r matches Ok(v) && v@ == w,
                Err(k) => r matches Err(e) && e.kind == k,
            },
    {
        if payload.len() > BYTES_MAX - INNER_SIZE {
            return Err(Error::new(ErrorKind::TooLong(Limit::Batch, payload.len(), BYTES_MAX - INNER_SIZE)));
        }
        proof {
            lemma_pow256_values();
        }
        let mut tail: Vec<u8> = Vec::new();
        put_int(&mut tail, self.attributes as i64, 2);
        put_int(&mut tail, self.last_offset_delta as i64, 4);
        put_int(&mut tail, self.first_timestamp, 8);
        put_int(&mut tail, self.max_timestamp, 8);
        put_int(&mut tail, self.producer_id, 8);
        put_int(&mut tail, self.producer_epoch as i64, 2);
        put_int(&mut tail, self.base_sequence as i64, 4);
        put_int(&mut tail, self.records_len as i64, 4);
        put_raw(&mut tail, payload);
        assert(tail@ == tail_bytes(self@.head, payload@));
        let crc = crc32c(tail.as_slice());
        let mut out: Vec<u8> = Vec::new();
        put_int(&mut out, self.base_offset, 8);
        put_int(&mut out, (payload.len() + INNER_SIZE) as i64, 4);
        put_int(&mut out, self.partition_leader_epoch as i64, 4);
        put_int(&mut out, self.magic as i64, 1);
        put_be(&mut out, crc as u64, 4);
        put_raw(&mut out, tail.as_slice());
        assert(out@ == batch_bytes(self@.head, payload@));
        Ok(out)
    }

    /// Appends the wire form of this batch. On failure nothing is written.
    pub fn serialize(&self, ser: &mut Serializer) -> (r: Result<(), Error>)
        ensures
            encoded(r, old(ser)@, final(ser)@, batch_wire(self@)),
            r is Err ==> final(ser)@ == old(ser)@,
    {
        let mut raw: Vec<u8> = Vec::new();
        put_records(&mut raw, &self.records.0)?;
        let payload = match self.compression() {
            Compression::Uncompressed => raw,
            Compression::Gzip => match compress(raw.as_slice()) {
                Ok(v) => v,
                Err(e) => {
                    return Err(e);
                },
            },
            c => {
                return Err(Error::new(ErrorKind::UnsupportedCompression(c)));
            },
        };
        let bytes = self.frame(payload.as_slice())?;
        put_raw(ser.buf_mut(), bytes.as_slice());
        Ok(())
    }
}

/// Reads the signed field of `w` bytes at offset `o` of `input[pos..]`.
fn read_field(input: &[u8], pos: usize, o: usize, w: usize, ctx: Context) -> (r: Result<i64, Error>)
    requires
        1 <= w <= 4 || w == 8,
        pos + HEADER_SIZE <= input@.len(),
        o + w <= HEADER_SIZE,
    ensures
        r == Ok::<i64, Error>(field(rest(input@, pos as int), o as int, w as nat) as i64),
        field(rest(input@, pos as int), o as int, w as nat) == field(rest(input@, pos as int), o as int, w as nat) as i64,
{
    let len = input.len();
    assert(rest(input@, pos + o).take(w as int) == rest(input@, pos as int).subrange(o as int, o + w));
    if w == 8 {
        get_i64(input, pos + o)
    } else {
        let x = get_int(input, pos + o, w, ctx)?;
        Ok(x as i64)
    }
}

/// Reads the header fields at `input[pos..]`; the records are left empty.
#[verifier::rlimit(100)]
fn read_head(input: &[u8], pos: usize) -> (r: Result<RecordBatch, Error>)
    requires
        pos + HEADER_SIZE <= input@.len(),
    ensures
        r matches Ok(x) && x@.head == head_of(rest(input@, pos as int)) && x.records.0@.len() == 0,
{
    let ghost b = rest(input@, pos as int);
    let len = input.len();
    proof {
        lemma_pow256_values();
    }
    let base_offset = read_field(input, pos, 0, 8, Context::I64)?;
    let batch_length = read_field(input, pos, 8, 4, Context::I32)?;
    let partition_leader_epoch = read_field(input, pos, 12, 4, Context::I32)?;
    let magic = read_field(input, pos, 16, 1, Context::I8)?;
    assert(rest(input@, pos + 17).take(4) == b.subrange(17, 21));
    let crc = get_uint(input, pos + 17, 4, Context::U32)?;
    let attributes = read_field(input, pos, 21, 2, Context::I16)?;
    let last_offset_delta = read_field(input, pos, 23, 4, Context::I32)?;
    let first_timestamp = read_field(input, pos, 27, 8, Context::I64)?;
    let max_timestamp = read_field(input, pos, 35, 8, Context::I64)?;
    let producer_id = read_field(input, pos, 43, 8, Context::I64)?;
    let producer_epoch = read_field(input, pos, 51, 2, Context::I16)?;
    let base_sequence = read_field(input, pos, 53, 4, Context::I32)?;
    let records_len = read_field(input, pos, 57, 4, Context::I32)?;
    let batch = RecordBatch {
        base_offset,
        batch_length: batch_length as i32,
        partition_leader_epoch: partition_leader_epoch as i32,
        magic: magic as i8,
        crc: crc as u32,
        attributes: attributes as i16,
        last_offset_delta: last_offset_delta as i32,
        first_timestamp,
        max_timestamp,
        producer_id,
        producer_epoch: producer_epoch as i16,
        base_sequence: base_sequence as i32,
        records_len: records_len as i32,
        records: Records(Vec::new()),
    };
    assert(batch@.head == head_of(b));
    Ok(batch)
}

impl RecordBatch {
    /// Decodes a batch: its header first, then its records as the attributes
    /// say. The CRC is read and not checked.
    pub fn deserialize(de: &mut Deserializer) -> (r: Result<RecordBatch, Error>)
        requires
            old(de).wf(),
        ensures
            final(de).wf(),
            final(de).version_spec() == old(de).version_spec(),
            match parse_record_batch(old(de).remaining()) {
                Ok((m, n)) => r matches Ok(x) && x@ == m
                    && final(de).remaining() == old(de).remaining().skip(n as int),
                Err(k) => r matches Err(e) && e.kind == k,
            },
            r is Err ==> final(de).remaining() == old(de).remaining(),
    {
        let (input, pos) = de.parts();
        let ghost b = rest(input@, pos as int);
        if input.len() - pos < HEADER_SIZE {
            return Err(Error::new(ErrorKind::InsufficientBytes(Context::BatchHeader, HEADER_SIZE as i64)));
        }
        let mut batch = read_head(input, pos)?;
        assert(batch@.head == head_of(b));
        let (rs, m) = read_records(input, pos, &batch)?;
        batch.records = Records(rs);
        de.advance(HEADER_SIZE + m);
        Ok(batch)
    }
}

/// Reads the records that follow the header of `batch` at `input[pos..]`.
fn read_records(input: &[u8], pos: usize, batch: &RecordBatch) -> (r: Result<(Vec<Record>, usize), Error>)
    requires
        pos + HEADER_SIZE <= input@.len(),
    ensures
        match parse_batch_records(rest(input@, pos as int), batch@.head) {
            Ok((rs, m)) => r matches Ok((x, k)) && records_view(x@) == rs && k == m
                && pos + HEADER_SIZE + k <= input@.len(),
            Err(e) => r matches Err(err) && err.kind == e,
        },
{
    let ghost b = rest(input@, pos as int);
    let control = batch.is_control();
    let count: usize = if batch.records_len < 0 {
        0
    } else {
        batch.records_len as usize
    };
    let len = input.len();
    assert(b.skip(HEADER_SIZE as int) == rest(input@, pos + HEADER_SIZE));
    match batch.compression() {
        Compression::Uncompressed => get_records(input, pos + HEADER_SIZE, count, control),
        Compression::Gzip => {
            let plen: i64 = batch.batch_length as i64 - INNER_SIZE as i64;
            if plen < 0 || input.len() - pos - HEADER_SIZE < plen as usize {
                return Err(Error::new(ErrorKind::InsufficientBytes(Context::Payload, plen)));
            }
            let payload = get_raw(input, pos, plen as i32, HEADER_SIZE, Context::Payload)?;
            let raw = decompress(payload.as_slice())?;
            assert(rest(raw@, 0) == raw@);
            let (rs, _) = get_records(raw.as_slice(), 0, count, control)?;
            Ok((rs, plen as usize))
        },
        c => Err(Error::new(ErrorKind::UnsupportedCompression(c))),
    }
}


/// In every framed batch, the four bytes at the CRC offset hold the CRC-32C
/// of everything from the attributes field to the end.
pub proof fn lemma_batch_crc(h: BatchHead, p: Seq<u8>)
    requires
        batch_length_for(p) <= BYTES_MAX,
    ensures
        be_value(batch_bytes(h, p).subrange(CRC_OFFSET as int, CRC_START as int))
            == crc32c_spec(batch_bytes(h, p).skip(CRC_START as int)),
{
    lemma_head_round_trip(h, p, Seq::empty());
    let w = batch_bytes(h, p);
    assert(w + Seq::<u8>::empty() == w);
    assert(w.skip(CRC_START as int) == w.subrange(CRC_START as int, (HEADER_SIZE + p.len()) as int));
    let crc = crc32c_spec(tail_bytes(h, p));
    lemma_pow256_values();
    lemma_be_round_trip(crc as nat, 4);
    lemma_be_bytes_len(crc as nat, 4);
    assert(w.subrange(17, 21) =~= be_bytes(crc as nat, 4));
}

} // verus!
