//! The records inside a record batch: data records, each prefixed with its
//! varint length, and fixed-shape control records.
use vstd::prelude::*;
use vstd::utf8::{decode_utf8, encode_utf8, encode_utf8_decode_utf8, encode_utf8_valid_utf8, valid_utf8};
use crate::error::{Context, Error, ErrorKind, Limit};
use crate::primitives::{BYTES_MAX, bytes_option_view, string_from_utf8, get_int, get_raw, parse_int, parse_raw, put_int, put_raw, rest};
use crate::schema::prepend;
use crate::types::Varint;
use crate::varint::{lemma_varint_round_trip, parse_varint, varint_spec, zag_i32, zig_i32};
use crate::wire::{int_bytes, lemma_pow256_values};

verus! {

/// A data record.
#[derive(Debug, Clone, PartialEq, Eq, PartialOrd, Ord, Hash, Default)]
pub struct Batch {
    pub attributes: i8,
    pub timestamp_delta: Varint,
    pub offset_delta: Varint,
    /// `None` is sent as the key length -1.
    pub key: Option<Vec<u8>>,
    pub value: Vec<u8>,
    pub headers: Vec<HeaderRecord>,
}

/// A header of a data record.
#[derive(Debug, Clone, PartialEq, Eq, PartialOrd, Ord, Hash, Default)]
pub struct HeaderRecord {
    pub key: String,
    pub value: Vec<u8>,
}

/// A control record: a fixed-shape marker.
#[derive(Debug, Clone, Copy, PartialEq, Eq, PartialOrd, Ord, Hash, Default, Structural)]
pub struct Control {
    pub version: i16,
    pub control_type: i16,
}

/// One record of a batch.
#[derive(Debug, Clone, PartialEq, Eq, PartialOrd, Ord, Hash)]
pub enum Record {
    Batch(Batch),
    Control(Control),
}

/// The content of a data record.
pub struct BatchModel {
    pub attributes: i8,
    pub timestamp_delta: i32,
    pub offset_delta: i32,
    pub key: Option<Seq<u8>>,
    pub value: Seq<u8>,
    pub headers: Seq<(Seq<char>, Seq<u8>)>,
}

pub enum RecordModel {
    Batch(BatchModel),
    Control(Control),
}

impl View for HeaderRecord {
    type V = (Seq<char>, Seq<u8>);

    open spec fn view(&self) -> (Seq<char>, Seq<u8>) {
        (self.key@, self.value@)
    }
}

impl View for Batch {
    type V = BatchModel;

    open spec fn view(&self) -> BatchModel {
        BatchModel {
            attributes: self.attributes,
            timestamp_delta: self.timestamp_delta.0,
            offset_delta: self.offset_delta.0,
            key: match self.key {
                Some(k) => Some(k@),
                None => None,
            },
            value: self.value@,
            headers: Seq::new(self.headers.len() as nat, |i: int| self.headers[i]@),
        }
    }
}

impl View for Record {
    type V = RecordModel;

    open spec fn view(&self) -> RecordModel {
        match self {
            Record::Batch(b) => RecordModel::Batch(b@),
            Record::Control(c) => RecordModel::Control(*c),
        }
    }
}

/// Both parts in order, or the first failure.
pub open spec fn then(a: Result<Seq<u8>, ErrorKind>, b: Result<Seq<u8>, ErrorKind>) -> Result<Seq<u8>, ErrorKind> {
    match a {
        Ok(x) => match b {
            Ok(y) => Ok(x + y),
            Err(e) => Err(e),
        },
        Err(e) => Err(e),
    }
}

/// A varint length, then the bytes.
#[verifier::opaque]
pub open spec fn var_raw_wire(u: Seq<u8>, lim: Limit) -> Result<Seq<u8>, ErrorKind> {
    if u.len() > BYTES_MAX {
        Err(ErrorKind::TooLong(lim, u.len() as usize, BYTES_MAX))
    } else {
        Ok(varint_spec(u.len() as i32) + u)
    }
}

#[verifier::opaque]
pub open spec fn key_wire(k: Option<Seq<u8>>) -> Result<Seq<u8>, ErrorKind> {
    match k {
        None => Ok(varint_spec(-1i32)),
        Some(u) => var_raw_wire(u, Limit::Bytes),
    }
}

#[verifier::opaque]
pub open spec fn header_wire(h: (Seq<char>, Seq<u8>)) -> Result<Seq<u8>, ErrorKind> {
    then(var_raw_wire(encode_utf8(h.0), Limit::Str), var_raw_wire(h.1, Limit::Bytes))
}

/// The headers `hs[i..]`, one after another.
#[verifier::opaque]
pub open spec fn headers_wire(hs: Seq<(Seq<char>, Seq<u8>)>, i: int) -> Result<Seq<u8>, ErrorKind>
    decreases hs.len() - i,
{
    if i < 0 || i >= hs.len() {
        Ok(Seq::empty())
    } else {
        then(header_wire(hs[i]), headers_wire(hs, i + 1))
    }
}

/// A data record after its length prefix.
#[verifier::opaque]
pub open spec fn batch_body(b: BatchModel) -> Result<Seq<u8>, ErrorKind> {
    then(
        Ok(int_bytes(b.attributes as int, 1) + varint_spec(b.timestamp_delta) + varint_spec(b.offset_delta)),
        payload_wire(b),
    )
}

/// The wire form of one record.
#[verifier::opaque]
pub open spec fn record_wire(r: RecordModel) -> Result<Seq<u8>, ErrorKind> {
    match r {
        RecordModel::Batch(b) => match batch_body(b) {
            Ok(w) => if w.len() > BYTES_MAX {
                Err(ErrorKind::TooLong(Limit::Batch, w.len() as usize, BYTES_MAX))
            } else {
                Ok(varint_spec(w.len() as i32) + w)
            },
            Err(e) => Err(e),
        },
        RecordModel::Control(c) => Ok(int_bytes(c.version as int, 2) + int_bytes(c.control_type as int, 2)),
    }
}

/// The records `rs[i..]`, one after another.
pub open spec fn records_wire(rs: Seq<RecordModel>, i: int) -> Result<Seq<u8>, ErrorKind>
    decreases rs.len() - i,
{
    if i < 0 || i >= rs.len() {
        Ok(Seq::empty())
    } else {
        then(record_wire(rs[i]), records_wire(rs, i + 1))
    }
}

/// A varint length, then that many bytes.
#[verifier::opaque]
pub open spec fn parse_var_raw(b: Seq<u8>, ctx: Context) -> Result<(Seq<u8>, nat), ErrorKind> {
    match parse_varint(b) {
        Ok((n, k)) => parse_raw(b, n as int, k, ctx),
        Err(e) => Err(e),
    }
}

#[verifier::opaque]
pub open spec fn parse_key(b: Seq<u8>) -> Result<(Option<Seq<u8>>, nat), ErrorKind> {
    match parse_varint(b) {
        Ok((n, k)) => if n == -1 {
            Ok((None, k))
        } else {
            match parse_raw(b, n as int, k, Context::RecordKey) {
                Ok((u, m)) => Ok((Some(u), m)),
                Err(e) => Err(e),
            }
        },
        Err(e) => Err(e),
    }
}

#[verifier::opaque]
pub open spec fn parse_header(b: Seq<u8>) -> Result<((Seq<char>, Seq<u8>), nat), ErrorKind> {
    match parse_var_raw(b, Context::HeaderKey) {
        Ok((u, k)) => if !valid_utf8(u) {
            Err(ErrorKind::InvalidUtf8)
        } else {
            match parse_var_raw(b.skip(k as int), Context::HeaderValue) {
                Ok((v, m)) => Ok(((decode_utf8(u), v), k + m)),
                Err(e) => Err(e),
            }
        },
        Err(e) => Err(e),
    }
}

/// `n` headers from the front of `b`.
#[verifier::opaque]
pub open spec fn parse_headers(b: Seq<u8>, n: nat) -> Result<(Seq<(Seq<char>, Seq<u8>)>, nat), ErrorKind>
    decreases n,
{
    if n == 0 {
        Ok((Seq::empty(), 0))
    } else {
        match parse_header(b) {
            Ok((h, k)) => match parse_headers(b.skip(k as int), (n - 1) as nat) {
                Ok((hs, m)) => Ok((seq![h] + hs, k + m)),
                Err(e) => Err(e),
            },
            Err(e) => Err(e),
        }
    }
}

/// The key, value and headers of a data record, from the front of `b`.
#[verifier::opaque]
pub open spec fn parse_payload(b: Seq<u8>) -> Result<((Option<Seq<u8>>, Seq<u8>, Seq<(Seq<char>, Seq<u8>)>), nat), ErrorKind> {
    match parse_key(b) {
        Err(e) => Err(e),
        Ok((key, k4)) => match parse_var_raw(b.skip(k4 as int), Context::RecordValue) {
            Err(e) => Err(e),
            Ok((value, k5)) => match parse_varint(b.skip((k4 + k5) as int)) {
                Err(e) => Err(e),
                Ok((cnt, k6)) => match parse_headers(b.skip((k4 + k5 + k6) as int), if cnt < 0 { 0 } else { cnt as nat }) {
                    Err(e) => Err(e),
                    Ok((hs, k7)) => Ok(((key, value, hs), (k4 + k5 + k6 + k7) as nat)),
                },
            },
        },
    }
}

/// The fields of a data record after its length prefix, from the front of `b`.
#[verifier::opaque]
pub open spec fn parse_batch_body(b: Seq<u8>) -> Result<(BatchModel, nat), ErrorKind> {
    match parse_int(b, 1, Context::I8) {
        Err(e) => Err(e),
        Ok((attr, k1)) => match parse_varint(b.skip(k1 as int)) {
            Err(e) => Err(e),
            Ok((ts, k2)) => match parse_varint(b.skip((k1 + k2) as int)) {
                Err(e) => Err(e),
                Ok((off, k3)) => match parse_payload(b.skip((k1 + k2 + k3) as int)) {
                    Err(e) => Err(e),
                    Ok((p, m)) => Ok((
                        BatchModel {
                            attributes: attr as i8,
                            timestamp_delta: ts,
                            offset_delta: off,
                            key: p.0,
                            value: p.1,
                            headers: p.2,
                        },
                        (k1 + k2 + k3 + m) as nat,
                    )),
                },
            },
        },
    }
}

/// One record of the given kind from the front of `b`. The length prefix of
/// a data record is read and not checked against what follows.
#[verifier::opaque]
pub open spec fn parse_record(b: Seq<u8>, control: bool) -> Result<(RecordModel, nat), ErrorKind> {
    if control {
        match parse_int(b, 2, Context::I16) {
            Ok((v, k)) => match parse_int(b.skip(k as int), 2, Context::I16) {
                Ok((t, m)) => Ok((RecordModel::Control(Control { version: v as i16, control_type: t as i16 }), k + m)),
                Err(e) => Err(e),
            },
            Err(e) => Err(e),
        }
    } else {
        match parse_varint(b) {
            Ok((_, k)) => match parse_batch_body(b.skip(k as int)) {
                Ok((r, m)) => Ok((RecordModel::Batch(r), k + m)),
                Err(e) => Err(e),
            },
            Err(e) => Err(e),
        }
    }
}

/// `n` records of the given kind from the front of `b`.
pub open spec fn parse_records(b: Seq<u8>, n: nat, control: bool) -> Result<(Seq<RecordModel>, nat), ErrorKind>
    decreases n,
{
    if n == 0 {
        Ok((Seq::empty(), 0))
    } else {
        match parse_record(b, control) {
            Ok((r, k)) => match parse_records(b.skip(k as int), (n - 1) as nat, control) {
                Ok((rs, m)) => Ok((seq![r] + rs, k + m)),
                Err(e) => Err(e),
            },
            Err(e) => Err(e),
        }
    }
}

proof fn lemma_varint_prefix(n: i32, tail: Seq<u8>)
    ensures
        parse_varint(varint_spec(n) + tail) == Ok::<(i32, nat), ErrorKind>((n, varint_spec(n).len())),
        1 <= varint_spec(n).len() <= 5,
{
    lemma_varint_round_trip(n, tail);
}

proof fn lemma_var_raw_round_trip(u: Seq<u8>, lim: Limit, ctx: Context, rest: Seq<u8>)
    requires
        var_raw_wire(u, lim) is Ok,
    ensures
        parse_var_raw(var_raw_wire(u, lim)->Ok_0 + rest, ctx) == Ok::<(Seq<u8>, nat), ErrorKind>(
            (u, var_raw_wire(u, lim)->Ok_0.len()),
        ),
{
    reveal(var_raw_wire);
    reveal(parse_var_raw);
    let h = varint_spec(u.len() as i32);
    lemma_varint_prefix(u.len() as i32, u + rest);
    assert(h + u + rest == h + (u + rest));
    assert((h + u + rest).subrange(h.len() as int, (h.len() + u.len()) as int) == u);
}

proof fn lemma_key_round_trip(k: Option<Seq<u8>>, rest: Seq<u8>)
    requires
        key_wire(k) is Ok,
    ensures
        parse_key(key_wire(k)->Ok_0 + rest) == Ok::<(Option<Seq<u8>>, nat), ErrorKind>(
            (k, key_wire(k)->Ok_0.len()),
        ),
{
    reveal(key_wire);
    reveal(parse_key);
    reveal(var_raw_wire);
    match k {
        None => {
            lemma_varint_prefix(-1i32, rest);
        },
        Some(u) => {
            let h = varint_spec(u.len() as i32);
            lemma_varint_prefix(u.len() as i32, u + rest);
            assert(h + u + rest == h + (u + rest));
            assert((h + u + rest).subrange(h.len() as int, (h.len() + u.len()) as int) == u);
        },
    }
}

proof fn lemma_header_round_trip(h: (Seq<char>, Seq<u8>), rest: Seq<u8>)
    requires
        header_wire(h) is Ok,
    ensures
        parse_header(header_wire(h)->Ok_0 + rest) == Ok::<((Seq<char>, Seq<u8>), nat), ErrorKind>(
            (h, header_wire(h)->Ok_0.len()),
        ),
{
    reveal(header_wire);
    reveal(parse_header);
    let a = var_raw_wire(encode_utf8(h.0), Limit::Str)->Ok_0;
    let c = var_raw_wire(h.1, Limit::Bytes)->Ok_0;
    lemma_var_raw_round_trip(encode_utf8(h.0), Limit::Str, Context::HeaderKey, c + rest);
    lemma_var_raw_round_trip(h.1, Limit::Bytes, Context::HeaderValue, rest);
    assert(a + c + rest == a + (c + rest));
    assert((a + (c + rest)).skip(a.len() as int) == c + rest);
    encode_utf8_valid_utf8(h.0);
    encode_utf8_decode_utf8(h.0);
}

proof fn lemma_headers_round_trip(hs: Seq<(Seq<char>, Seq<u8>)>, i: int, rest: Seq<u8>)
    requires
        0 <= i <= hs.len(),
        headers_wire(hs, i) is Ok,
    ensures
        parse_headers(headers_wire(hs, i)->Ok_0 + rest, (hs.len() - i) as nat)
            == Ok::<(Seq<(Seq<char>, Seq<u8>)>, nat), ErrorKind>((hs.skip(i), headers_wire(hs, i)->Ok_0.len())),
    decreases hs.len() - i,
{
    reveal(headers_wire);
    reveal(parse_headers);
    if i < hs.len() {
        let a = header_wire(hs[i])->Ok_0;
        let w = headers_wire(hs, i + 1)->Ok_0;
        lemma_header_round_trip(hs[i], w + rest);
        assert(a + w + rest == a + (w + rest));
        assert((a + (w + rest)).skip(a.len() as int) == w + rest);
        lemma_headers_round_trip(hs, i + 1, rest);
        assert(seq![hs[i]] + hs.skip(i + 1) == hs.skip(i));
    } else {
        assert(hs.skip(i) == Seq::<(Seq<char>, Seq<u8>)>::empty());
    }
}

proof fn lemma_skip_concat(a: Seq<u8>, t: Seq<u8>, k: int)
    requires
        0 <= k <= t.len(),
    ensures
        (a + t).skip(a.len() + k) == t.skip(k),
{
    assert((a + t).skip(a.len() + k) =~= t.skip(k));
}

#[verifier::opaque]
pub open spec fn payload_wire(b: BatchModel) -> Result<Seq<u8>, ErrorKind> {
    then(
        key_wire(b.key),
        then(
            var_raw_wire(b.value, Limit::Bytes),
            if b.headers.len() > BYTES_MAX {
                Err(ErrorKind::TooLong(Limit::Array, b.headers.len() as usize, BYTES_MAX))
            } else {
                then(Ok(varint_spec(b.headers.len() as i32)), headers_wire(b.headers, 0))
            },
        ),
    )
}

proof fn lemma_payload_round_trip(b: BatchModel, rest: Seq<u8>)
    requires
        payload_wire(b) is Ok,
    ensures
        parse_payload(payload_wire(b)->Ok_0 + rest)
            == Ok::<((Option<Seq<u8>>, Seq<u8>, Seq<(Seq<char>, Seq<u8>)>), nat), ErrorKind>(
            ((b.key, b.value, b.headers), payload_wire(b)->Ok_0.len()),
        ),
{
    reveal(payload_wire);
    reveal(parse_payload);
    let p4 = key_wire(b.key)->Ok_0;
    let p5 = var_raw_wire(b.value, Limit::Bytes)->Ok_0;
    let p6 = varint_spec(b.headers.len() as i32);
    let p7 = headers_wire(b.headers, 0)->Ok_0;
    let t7 = p7 + rest;
    let t6 = p6 + t7;
    let t5 = p5 + t6;
    let t4 = p4 + t5;
    assert(payload_wire(b)->Ok_0 + rest =~= t4);
    lemma_skip_concat(p4, t5, 0);
    lemma_skip_concat(p4, t5, p5.len() as int);
    lemma_skip_concat(p5, t6, 0);
    lemma_skip_concat(p4, t5, (p5.len() + p6.len()) as int);
    lemma_skip_concat(p5, t6, p6.len() as int);
    lemma_skip_concat(p6, t7, 0);
    assert(t4.skip(p4.len() as int) == t5);
    assert(t4.skip((p4.len() + p5.len()) as int) == t6);
    assert(t4.skip((p4.len() + p5.len() + p6.len()) as int) == t7);
    lemma_key_round_trip(b.key, t5);
    lemma_var_raw_round_trip(b.value, Limit::Bytes, Context::RecordValue, t6);
    lemma_varint_prefix(b.headers.len() as i32, t7);
    lemma_headers_round_trip(b.headers, 0, rest);
    assert(b.headers.skip(0) == b.headers);
}

proof fn lemma_batch_body_round_trip(b: BatchModel, rest: Seq<u8>)
    requires
        batch_body(b) is Ok,
    ensures
        parse_batch_body(batch_body(b)->Ok_0 + rest) == Ok::<(BatchModel, nat), ErrorKind>(
            (b, batch_body(b)->Ok_0.len()),
        ),
{
    reveal(batch_body);
    reveal(parse_batch_body);
    lemma_pow256_values();
    let p1 = int_bytes(b.attributes as int, 1);
    let p2 = varint_spec(b.timestamp_delta);
    let p3 = varint_spec(b.offset_delta);
    let p4 = payload_wire(b)->Ok_0;
    let t4 = p4 + rest;
    let t3 = p3 + t4;
    let t2 = p2 + t3;
    let t1 = p1 + t2;
    assert(batch_body(b)->Ok_0 + rest =~= t1);
    crate::wire::lemma_int_round_trip(b.attributes as int, 1);
    assert(t1.take(1) == p1);
    lemma_skip_concat(p1, t2, 0);
    lemma_skip_concat(p1, t2, p2.len() as int);
    lemma_skip_concat(p2, t3, 0);
    lemma_skip_concat(p1, t2, (p2.len() + p3.len()) as int);
    lemma_skip_concat(p2, t3, p3.len() as int);
    lemma_skip_concat(p3, t4, 0);
    assert(t1.skip(1) == t2);
    assert(t1.skip((1 + p2.len()) as int) == t3);
    assert(t1.skip((1 + p2.len() + p3.len()) as int) == t4);
    lemma_varint_prefix(b.timestamp_delta, t3);
    lemma_varint_prefix(b.offset_delta, t4);
    lemma_payload_round_trip(b, rest);
    assert(parse_int(t1, 1, Context::I8) == Ok::<(int, nat), ErrorKind>((b.attributes as int, 1)));
}

proof fn lemma_record_round_trip(r: RecordModel, rest: Seq<u8>)
    requires
        record_wire(r) is Ok,
    ensures
        parse_record(record_wire(r)->Ok_0 + rest, r is Control) == Ok::<(RecordModel, nat), ErrorKind>(
            (r, record_wire(r)->Ok_0.len()),
        ),
{
    reveal(record_wire);
    reveal(parse_record);
    lemma_pow256_values();
    match r {
        RecordModel::Batch(b) => {
            let w = batch_body(b)->Ok_0;
            let h = varint_spec(w.len() as i32);
            lemma_varint_prefix(w.len() as i32, w + rest);
            assert(h + w + rest == h + (w + rest));
            assert((h + (w + rest)).skip(h.len() as int) == w + rest);
            lemma_batch_body_round_trip(b, rest);
        },
        RecordModel::Control(c) => {
            let a = int_bytes(c.version as int, 2);
            let t = int_bytes(c.control_type as int, 2);
            crate::wire::lemma_int_round_trip(c.version as int, 2);
            crate::wire::lemma_int_round_trip(c.control_type as int, 2);
            assert((a + t + rest).take(2) == a);
            assert((a + t + rest).skip(2) == t + rest);
            assert((t + rest).take(2) == t);
        },
    }
}

/// Every record is of the kind that `control` names.
pub open spec fn all_of_kind(rs: Seq<RecordModel>, control: bool) -> bool {
    forall|i: int| 0 <= i < rs.len() ==> (#[trigger] rs[i] is Control) == control
}

/// Records of one kind read back from their wire form as that kind.
pub proof fn lemma_records_round_trip(rs: Seq<RecordModel>, i: int, control: bool, rest: Seq<u8>)
    requires
        0 <= i <= rs.len(),
        all_of_kind(rs, control),
        records_wire(rs, i) is Ok,
    ensures
        parse_records(records_wire(rs, i)->Ok_0 + rest, (rs.len() - i) as nat, control)
            == Ok::<(Seq<RecordModel>, nat), ErrorKind>((rs.skip(i), records_wire(rs, i)->Ok_0.len())),
    decreases rs.len() - i,
{
    if i < rs.len() {
        assert((rs[i] is Control) == control);
        let a = record_wire(rs[i])->Ok_0;
        let w = records_wire(rs, i + 1)->Ok_0;
        lemma_record_round_trip(rs[i], w + rest);
        assert(a + w + rest == a + (w + rest));
        assert((a + (w + rest)).skip(a.len() as int) == w + rest);
        lemma_records_round_trip(rs, i + 1, control, rest);
        assert(seq![rs[i]] + rs.skip(i + 1) == rs.skip(i));
    } else {
        assert(rs.skip(i) == Seq::<RecordModel>::empty());
    }
}

/// `r` is what an encoder returns that appended `after - before`, against
/// the wire form or failure `w` that it owes.
pub open spec fn encoded(r: Result<(), Error>, before: Seq<u8>, after: Seq<u8>, w: Result<Seq<u8>, ErrorKind>) -> bool {
    match w {
        Ok(x) => r is Ok && after == before + x,
        Err(k) => r matches Err(e) && e.kind == k,
    }
}

fn put_var_raw(out: &mut Vec<u8>, u: &[u8], lim: Limit) -> (r: Result<(), Error>)
    ensures
        encoded(r, old(out)@, final(out)@, var_raw_wire(u@, lim)),
{
    reveal(var_raw_wire);
    if u.len() > BYTES_MAX {
        return Err(Error::new(ErrorKind::TooLong(lim, u.len(), BYTES_MAX)));
    }
    zig_i32(u.len() as i32, out);
    put_raw(out, u);
    assert(final(out)@ == old(out)@ + var_raw_wire(u@, lim)->Ok_0);
    Ok(())
}

fn put_header(out: &mut Vec<u8>, h: &HeaderRecord) -> (r: Result<(), Error>)
    ensures
        encoded(r, old(out)@, final(out)@, header_wire(h@)),
{
    reveal(header_wire);
    put_var_raw(out, h.key.as_str().as_bytes(), Limit::Str)?;
    put_var_raw(out, h.value.as_slice(), Limit::Bytes)?;
    assert(final(out)@ == old(out)@ + header_wire(h@)->Ok_0);
    Ok(())
}

/// Appends the key, value and headers of a data record.
fn put_payload(out: &mut Vec<u8>, b: &Batch) -> (r: Result<(), Error>)
    ensures
        encoded(r, old(out)@, final(out)@, payload_wire(b@)),
{
    reveal(key_wire);
    reveal(payload_wire);
    match &b.key {
        None => {
            zig_i32(-1, out);
        },
        Some(k) => {
            put_var_raw(out, k.as_slice(), Limit::Bytes)?;
        },
    }
    let ghost p4 = key_wire(b@.key)->Ok_0;
    assert(key_wire(b@.key) is Ok);
    assert(out@ == old(out)@ + p4);
    let ghost mid = out@;
    put_var_raw(out, b.value.as_slice(), Limit::Bytes)?;
    let ghost p5 = var_raw_wire(b@.value, Limit::Bytes)->Ok_0;
    assert(out@ == old(out)@ + p4 + p5);
    if b.headers.len() > BYTES_MAX {
        return Err(Error::new(ErrorKind::TooLong(Limit::Array, b.headers.len(), BYTES_MAX)));
    }
    zig_i32(b.headers.len() as i32, out);
    let ghost start = out@;
    let ghost hs = b@.headers;
    let mut i: usize = 0;
    while i < b.headers.len()
        invariant
            i <= b.headers.len() == hs.len(),
            hs == b@.headers,
            key_wire(b@.key) is Ok,
            var_raw_wire(b@.value, Limit::Bytes) is Ok,
            b.headers.len() <= BYTES_MAX,
            out@.len() >= start.len(),
            out@.subrange(0, start.len() as int) == start,
            headers_wire(hs, 0) == prepend(
                out@.subrange(start.len() as int, out@.len() as int),
                headers_wire(hs, i as int),
            ),
        decreases b.headers.len() - i,
    {
        reveal(headers_wire);
        let ghost before = out@;
        match put_header(out, &b.headers[i]) {
            Ok(()) => {},
            Err(e) => {
                assert(hs[i as int] == b.headers@[i as int]@);
                assert(headers_wire(hs, i as int) == Err::<Seq<u8>, ErrorKind>(e.kind));
                assert(headers_wire(hs, 0) == Err::<Seq<u8>, ErrorKind>(e.kind));
                reveal(payload_wire);
                assert(payload_wire(b@) == Err::<Seq<u8>, ErrorKind>(e.kind));
                return Err(e);
            },
        }
        proof {
            assert(hs[i as int] == b.headers@[i as int]@);
            let a = header_wire(hs[i as int])->Ok_0;
            let w0 = before.subrange(start.len() as int, before.len() as int);
            assert(out@.subrange(start.len() as int, out@.len() as int) == w0 + a);
            assert(out@.subrange(0, start.len() as int) == start);
            match headers_wire(hs, i + 1) {
                Ok(w) => {
                    assert(w0 + (a + w) == (w0 + a) + w);
                },
                Err(_) => {},
            }
        }
        i = i + 1;
    }
    proof {
        let hw = out@.subrange(start.len() as int, out@.len() as int);
        assert(out@ == start + hw);
        assert(headers_wire(hs, hs.len() as int) == Ok::<Seq<u8>, ErrorKind>(Seq::empty())) by {
            reveal(headers_wire);
        }
        assert(hw + Seq::<u8>::empty() == hw);
        assert(headers_wire(hs, 0) == Ok::<Seq<u8>, ErrorKind>(hw));
        let p6 = varint_spec(hs.len() as i32);
        assert(start == old(out)@ + p4 + p5 + p6);
        assert(final(out)@ == old(out)@ + (p4 + (p5 + (p6 + hw))));
    }
    Ok(())
}

/// Appends the rest of a data record after its length prefix.
fn put_batch_body(out: &mut Vec<u8>, b: &Batch) -> (r: Result<(), Error>)
    ensures
        encoded(r, old(out)@, final(out)@, batch_body(b@)),
{
    reveal(batch_body);
    proof {
        lemma_pow256_values();
    }
    put_int(out, b.attributes as i64, 1);
    zig_i32(b.timestamp_delta.0, out);
    zig_i32(b.offset_delta.0, out);
    let ghost mid = out@;
    let ghost fixed = int_bytes(b.attributes as int, 1) + varint_spec(b.timestamp_delta.0)
        + varint_spec(b.offset_delta.0);
    assert(mid == old(out)@ + fixed);
    put_payload(out, b)?;
    assert(final(out)@ == old(out)@ + (fixed + payload_wire(b@)->Ok_0));
    Ok(())
}

/// Appends the wire form of one record.
pub fn put_record(out: &mut Vec<u8>, r: &Record) -> (res: Result<(), Error>)
    ensures
        encoded(res, old(out)@, final(out)@, record_wire(r@)),
{
    reveal(record_wire);
    match r {
        Record::Batch(b) => {
            let mut body: Vec<u8> = Vec::new();
            put_batch_body(&mut body, b)?;
            assert(body@ == batch_body(b@)->Ok_0);
            if body.len() > BYTES_MAX {
                return Err(Error::new(ErrorKind::TooLong(Limit::Batch, body.len(), BYTES_MAX)));
            }
            zig_i32(body.len() as i32, out);
            put_raw(out, body.as_slice());
            assert(final(out)@ == old(out)@ + record_wire(r@)->Ok_0);
            Ok(())
        },
        Record::Control(c) => {
            proof {
                lemma_pow256_values();
            }
            put_int(out, c.version as i64, 2);
            put_int(out, c.control_type as i64, 2);
            assert(final(out)@ == old(out)@ + record_wire(r@)->Ok_0);
            Ok(())
        },
    }
}

/// The content of a list of records.
pub open spec fn records_view(rs: Seq<Record>) -> Seq<RecordModel> {
    Seq::new(rs.len(), |i: int| rs[i]@)
}

/// Appends the records one after another.
pub fn put_records(out: &mut Vec<u8>, rs: &Vec<Record>) -> (res: Result<(), Error>)
    ensures
        encoded(res, old(out)@, final(out)@, records_wire(records_view(rs@), 0)),
{
    let ghost m = records_view(rs@);
    let ghost start = out@;
    let mut i: usize = 0;
    while i < rs.len()
        invariant
            i <= rs.len() == m.len(),
            m == records_view(rs@),
            start == old(out)@,
            out@.len() >= start.len(),
            out@.subrange(0, start.len() as int) == start,
            records_wire(m, 0) == prepend(
                out@.subrange(start.len() as int, out@.len() as int),
                records_wire(m, i as int),
            ),
        decreases rs.len() - i,
    {
        let ghost before = out@;
        match put_record(out, &rs[i]) {
            Ok(()) => {},
            Err(e) => {
                assert(records_wire(m, i as int) == Err::<Seq<u8>, ErrorKind>(e.kind));
                return Err(e);
            },
        }
        proof {
            let a = record_wire(m[i as int])->Ok_0;
            let w0 = before.subrange(start.len() as int, before.len() as int);
            assert(out@.subrange(start.len() as int, out@.len() as int) == w0 + a);
            assert(out@.subrange(0, start.len() as int) == start);
            match records_wire(m, i + 1) {
                Ok(w) => {
                    assert(w0 + (a + w) == (w0 + a) + w);
                },
                Err(_) => {},
            }
        }
        i = i + 1;
    }
    proof {
        let w = out@.subrange(start.len() as int, out@.len() as int);
        assert(out@ == start + w);
        assert(w + Seq::<u8>::empty() == w);
    }
    Ok(())
}

fn get_var_raw(input: &[u8], pos: usize, ctx: Context) -> (r: Result<(Vec<u8>, usize), Error>)
    requires
        pos <= input@.len(),
    ensures
        match parse_var_raw(rest(input@, pos as int), ctx) {
            Ok((v, n)) => r matches Ok((x, m)) && x@ == v && m == n && pos + m <= input@.len(),
            Err(k) => r matches Err(e) && e.kind == k,
        },
{
    reveal(parse_var_raw);
    let len = input.len();
    let (n, k) = zag_i32(input, pos)?;
    let u = match get_raw(input, pos, n, k, ctx) {
        Ok(u) => u,
        Err(e) => {
            return Err(e);
        },
    };
    Ok((u, k + n as usize))
}

fn get_key(input: &[u8], pos: usize) -> (r: Result<(Option<Vec<u8>>, usize), Error>)
    requires
        pos <= input@.len(),
    ensures
        match parse_key(rest(input@, pos as int)) {
            Ok((v, n)) => r matches Ok((x, m)) && bytes_option_view(x) == v && m == n
                && pos + m <= input@.len(),
            Err(k) => r matches Err(e) && e.kind == k,
        },
{
    reveal(parse_key);
    let len = input.len();
    let (n, k) = zag_i32(input, pos)?;
    if n == -1 {
        return Ok((None, k));
    }
    let u = get_raw(input, pos, n, k, Context::RecordKey)?;
    Ok((Some(u), k + n as usize))
}

fn get_header(input: &[u8], pos: usize) -> (r: Result<(HeaderRecord, usize), Error>)
    requires
        pos <= input@.len(),
    ensures
        match parse_header(rest(input@, pos as int)) {
            Ok((v, n)) => r matches Ok((x, m)) && x@ == v && m == n && pos + m <= input@.len(),
            Err(k) => r matches Err(e) && e.kind == k,
        },
{
    reveal(parse_header);
    let len = input.len();
    let (kb, k) = get_var_raw(input, pos, Context::HeaderKey)?;
    let key = match string_from_utf8(kb) {
        Some(s) => s,
        None => {
            return Err(Error::new(ErrorKind::InvalidUtf8));
        },
    };
    assert(rest(input@, pos as int).skip(k as int) == rest(input@, pos + k));
    let (value, m) = get_var_raw(input, pos + k, Context::HeaderValue)?;
    Ok((HeaderRecord { key, value }, k + m))
}

/// The content of a list of headers.
pub open spec fn headers_view(hs: Seq<HeaderRecord>) -> Seq<(Seq<char>, Seq<u8>)> {
    Seq::new(hs.len(), |i: int| hs[i]@)
}

/// Reads `count` headers from `input[pos..]`.
fn get_headers(input: &[u8], pos: usize, count: usize) -> (r: Result<(Vec<HeaderRecord>, usize), Error>)
    requires
        pos <= input@.len(),
    ensures
        match parse_headers(rest(input@, pos as int), count as nat) {
            Ok((v, n)) => r matches Ok((x, m)) && headers_view(x@) == v && m == n
                && pos + m <= input@.len(),
            Err(k) => r matches Err(e) && e.kind == k,
        },
{
    let len = input.len();
    let ghost total = parse_headers(rest(input@, pos as int), count as nat);
    let mut xs: Vec<HeaderRecord> = Vec::new();
    let mut p: usize = pos;
    let mut i: usize = 0;
    while i < count
        invariant
            pos <= p <= input@.len(),
            len == input@.len(),
            i <= count,
            xs@.len() == i,
            total == parse_headers(rest(input@, pos as int), count as nat),
            total == match parse_headers(rest(input@, p as int), (count - i) as nat) {
                Ok((ys, m)) => Ok((headers_view(xs@) + ys, (p - pos + m) as nat)),
                Err(e) => Err::<(Seq<(Seq<char>, Seq<u8>)>, nat), ErrorKind>(e),
            },
        decreases count - i,
    {
        reveal(parse_headers);
        let (h, n) = match get_header(input, p) {
            Ok(pair) => pair,
            Err(e) => {
                return Err(e);
            },
        };
        proof {
            assert(rest(input@, p as int).skip(n as int) == rest(input@, p + n));
            let tail = parse_headers(rest(input@, p + n), (count - i - 1) as nat);
            assert(headers_view(xs@.push(h)) == headers_view(xs@).push(h@));
            match tail {
                Ok((ys, k)) => {
                    assert(headers_view(xs@) + (seq![h@] + ys) == headers_view(xs@).push(h@) + ys);
                },
                Err(_) => {},
            }
        }
        xs.push(h);
        p = p + n;
        i = i + 1;
    }
    proof {
        reveal(parse_headers);
        assert(headers_view(xs@) + Seq::<(Seq<char>, Seq<u8>)>::empty() == headers_view(xs@));
    }
    Ok((xs, p - pos))
}

fn get_payload(input: &[u8], pos: usize) -> (r: Result<(Option<Vec<u8>>, Vec<u8>, Vec<HeaderRecord>, usize), Error>)
    requires
        pos <= input@.len(),
    ensures
        match parse_payload(rest(input@, pos as int)) {
            Ok((v, n)) => r matches Ok((k, x, hs, m)) && bytes_option_view(k) == v.0 && x@ == v.1
                && headers_view(hs@) == v.2 && m == n && pos + m <= input@.len(),
            Err(k) => r matches Err(e) && e.kind == k,
        },
{
    reveal(parse_payload);
    let len = input.len();
    let ghost b = rest(input@, pos as int);
    let (key, k4) = get_key(input, pos)?;
    assert(b.skip(k4 as int) == rest(input@, pos + k4));
    let (value, k5) = get_var_raw(input, pos + k4, Context::RecordValue)?;
    assert(b.skip((k4 + k5) as int) == rest(input@, pos + k4 + k5));
    let (cnt, k6) = zag_i32(input, pos + k4 + k5)?;
    assert(b.skip((k4 + k5 + k6) as int) == rest(input@, pos + k4 + k5 + k6));
    let count: usize = if cnt < 0 {
        0
    } else {
        cnt as usize
    };
    let (headers, k7) = get_headers(input, pos + k4 + k5 + k6, count)?;
    Ok((key, value, headers, k4 + k5 + k6 + k7))
}

fn get_batch_body(input: &[u8], pos: usize) -> (r: Result<(Batch, usize), Error>)
    requires
        pos <= input@.len(),
    ensures
        match parse_batch_body(rest(input@, pos as int)) {
            Ok((v, n)) => r matches Ok((x, m)) && x@ == v && m == n && pos + m <= input@.len(),
            Err(k) => r matches Err(e) && e.kind == k,
        },
{
    reveal(parse_batch_body);
    let ghost b = rest(input@, pos as int);
    let attributes = get_int(input, pos, 1, Context::I8)?;
    let len = input.len();
    assert(b.skip(1) == rest(input@, pos + 1));
    let (ts, k2) = zag_i32(input, pos + 1)?;
    assert(b.skip((1 + k2) as int) == rest(input@, pos + 1 + k2));
    let (off, k3) = zag_i32(input, pos + 1 + k2)?;
    assert(b.skip((1 + k2 + k3) as int) == rest(input@, pos + 1 + k2 + k3));
    let (key, value, headers, m) = get_payload(input, pos + 1 + k2 + k3)?;
    let x = Batch {
        attributes: attributes as i8,
        timestamp_delta: Varint(ts),
        offset_delta: Varint(off),
        key,
        value,
        headers,
    };
    proof {
        assert(x@.headers == headers_view(headers@));
    }
    Ok((x, 1 + k2 + k3 + m))
}

/// Reads one record of the given kind from `input[pos..]`.
pub fn get_record(input: &[u8], pos: usize, control: bool) -> (r: Result<(Record, usize), Error>)
    requires
        pos <= input@.len(),
    ensures
        match parse_record(rest(input@, pos as int), control) {
            Ok((v, n)) => r matches Ok((x, m)) && x@ == v && m == n && pos + m <= input@.len(),
            Err(k) => r matches Err(e) && e.kind == k,
        },
{
    reveal(parse_record);
    let ghost b = rest(input@, pos as int);
    let len = input.len();
    if control {
        let version = get_int(input, pos, 2, Context::I16)?;
        assert(b.skip(2) == rest(input@, pos + 2));
        let control_type = get_int(input, pos + 2, 2, Context::I16)?;
        Ok((Record::Control(Control { version: version as i16, control_type: control_type as i16 }), 4))
    } else {
        let (_, k) = zag_i32(input, pos)?;
        assert(b.skip(k as int) == rest(input@, pos + k));
        let (x, m) = get_batch_body(input, pos + k)?;
        Ok((Record::Batch(x), k + m))
    }
}

/// Reads `count` records of the given kind from `input[pos..]`.
pub fn get_records(input: &[u8], pos: usize, count: usize, control: bool) -> (r: Result<(Vec<Record>, usize), Error>)
    requires
        pos <= input@.len(),
    ensures
        match parse_records(rest(input@, pos as int), count as nat, control) {
            Ok((v, n)) => r matches Ok((x, m)) && records_view(x@) == v && m == n
                && pos + m <= input@.len(),
            Err(k) => r matches Err(e) && e.kind == k,
        },
{
    let len = input.len();
    let ghost total = parse_records(rest(input@, pos as int), count as nat, control);
    let mut xs: Vec<Record> = Vec::new();
    let mut p: usize = pos;
    let mut i: usize = 0;
    while i < count
        invariant
            pos <= p <= input@.len(),
            len == input@.len(),
            i <= count,
            xs@.len() == i,
            total == parse_records(rest(input@, pos as int), count as nat, control),
            total == match parse_records(rest(input@, p as int), (count - i) as nat, control) {
                Ok((ys, m)) => Ok((records_view(xs@) + ys, (p - pos + m) as nat)),
                Err(e) => Err::<(Seq<RecordModel>, nat), ErrorKind>(e),
            },
        decreases count - i,
    {
        let (x, n) = match get_record(input, p, control) {
            Ok(pair) => pair,
            Err(e) => {
                return Err(e);
            },
        };
        proof {
            assert(rest(input@, p as int).skip(n as int) == rest(input@, p + n));
            let tail = parse_records(rest(input@, p + n), (count - i - 1) as nat, control);
            assert(records_view(xs@.push(x)) == records_view(xs@).push(x@));
            match tail {
                Ok((ys, k)) => {
                    assert(records_view(xs@) + (seq![x@] + ys) == records_view(xs@).push(x@) + ys);
                },
                Err(_) => {},
            }
        }
        xs.push(x);
        p = p + n;
        i = i + 1;
    }
    proof {
        assert(records_view(xs@) + Seq::<RecordModel>::empty() == records_view(xs@));
    }
    Ok((xs, p - pos))
}

} // verus!
