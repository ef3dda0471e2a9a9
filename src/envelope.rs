//! The envelope: a 32-bit length, then a header, then a body laid out by a
//! schema at the protocol version in use.
use vstd::prelude::*;
use crate::error::{Context, Error, ErrorKind, Limit};
use crate::primitives::{
    BYTES_MAX, get_int, get_nullable_str, nullable_str_wire, option_view, parse_int,
    parse_nullable_str, put_int, put_nullable_str, rest,
};
use crate::schema::{
    Schema, Val, Value, dec, decode_value, enc, encode_value, lemma_int_prefix,
    lemma_nullable_str_round_trip, lemma_round_trip,
};
use crate::types::NullableString;
use crate::wire::{int_bytes, lemma_int_round_trip, lemma_pow256_values};

verus! {

/// The header of a request.
#[derive(Debug, Clone, PartialEq, Eq)]
pub struct HeaderRequest {
    pub api_key: i16,
    /// The protocol version; it selects the layout of the body.
    pub api_version: i16,
    pub correlation_id: i32,
    pub client_id: NullableString,
}

/// The header of a response.
#[derive(Debug, Clone, Copy, PartialEq, Eq, Structural)]
pub struct HeaderResponse {
    pub correlation: i32,
}

pub struct HeaderRequestModel {
    pub api_key: i16,
    pub api_version: i16,
    pub correlation_id: i32,
    pub client_id: Option<Seq<char>>,
}

impl View for HeaderRequest {
    type V = HeaderRequestModel;

    open spec fn view(&self) -> HeaderRequestModel {
        HeaderRequestModel {
            api_key: self.api_key,
            api_version: self.api_version,
            correlation_id: self.correlation_id,
            client_id: option_view(self.client_id.0),
        }
    }
}

pub open spec fn request_header_wire(h: HeaderRequestModel) -> Result<Seq<u8>, ErrorKind> {
    match nullable_str_wire(h.client_id) {
        Ok(c) => Ok(int_bytes(h.api_key as int, 2) + int_bytes(h.api_version as int, 2)
            + int_bytes(h.correlation_id as int, 4) + c),
        Err(e) => Err(e),
    }
}

/// What follows the length prefix of a request: the header, then the body
/// at the header's version.
pub open spec fn request_content(h: HeaderRequestModel, s: Schema, v: Val) -> Result<Seq<u8>, ErrorKind> {
    match request_header_wire(h) {
        Err(e) => Err(e),
        Ok(hb) => if h.api_version < 0 {
            Err(ErrorKind::Unsupported)
        } else {
            match enc(s, h.api_version as nat, v) {
                Ok(bb) => Ok(hb + bb),
                Err(e) => Err(e),
            }
        },
    }
}

/// A whole request: the length of the content, then the content.
pub open spec fn request_wire(h: HeaderRequestModel, s: Schema, v: Val) -> Result<Seq<u8>, ErrorKind> {
    match request_content(h, s, v) {
        Ok(c) => if c.len() > BYTES_MAX {
            Err(ErrorKind::TooLong(Limit::Frame, c.len() as usize, BYTES_MAX))
        } else {
            Ok(int_bytes(c.len() as int, 4) + c)
        },
        Err(e) => Err(e),
    }
}

/// A request header from the front of `b`.
pub open spec fn parse_request_header(b: Seq<u8>) -> Result<(HeaderRequestModel, nat), ErrorKind> {
    match parse_int(b, 2, Context::I16) {
        Err(e) => Err(e),
        Ok((k, _)) => match parse_int(b.skip(2), 2, Context::I16) {
            Err(e) => Err(e),
            Ok((v, _)) => match parse_int(b.skip(4), 4, Context::I32) {
                Err(e) => Err(e),
                Ok((c, _)) => match parse_nullable_str(b.skip(8)) {
                    Err(e) => Err(e),
                    Ok((id, m)) => Ok((
                        HeaderRequestModel {
                            api_key: k as i16,
                            api_version: v as i16,
                            correlation_id: c as i32,
                            client_id: id,
                        },
                        8 + m,
                    )),
                },
            },
        },
    }
}

/// Decodes the content of a request frame: the header, then the body at
/// the header's version; every byte must be used.
pub open spec fn parse_request(b: Seq<u8>, s: Schema) -> Result<(HeaderRequestModel, Val), ErrorKind> {
    match parse_request_header(b) {
        Err(e) => Err(e),
        Ok((h, k)) => if h.api_version < 0 {
            Err(ErrorKind::Unsupported)
        } else {
            match dec(s, h.api_version as nat, b.skip(k as int)) {
                Err(e) => Err(e),
                Ok((v, m)) => if k + m < b.len() {
                    Err(ErrorKind::TrailingBytes((b.len() - k - m) as usize))
                } else {
                    Ok((h, v))
                },
            }
        },
    }
}

/// Decodes the content of a response frame: the header, then the body at
/// `ver`; every byte must be used.
pub open spec fn parse_response(b: Seq<u8>, ver: nat, s: Schema) -> Result<(HeaderResponse, Val), ErrorKind> {
    match parse_int(b, 4, Context::I32) {
        Err(e) => Err(e),
        Ok((c, k)) => match dec(s, ver, b.skip(k as int)) {
            Err(e) => Err(e),
            Ok((v, m)) => if k + m < b.len() {
                Err(ErrorKind::TrailingBytes((b.len() - k - m) as usize))
            } else {
                Ok((HeaderResponse { correlation: c as i32 }, v))
            },
        },
    }
}

/// Encodes a request: the header, then `body` under `schema` at the
/// header's version, behind their length.
pub fn encode_req(header: &HeaderRequest, schema: &Schema, body: &Value) -> (r: Result<Vec<u8>, Error>)
    ensures
        match request_wire(header@, *schema, body.model()) {
            Ok(w) => r matches Ok(x) && x@ == w,
            Err(k) => r matches Err(e) && e.kind == k,
        },
{
    proof {
        lemma_pow256_values();
    }
    let mut content: Vec<u8> = Vec::new();
    put_int(&mut content, header.api_key as i64, 2);
    put_int(&mut content, header.api_version as i64, 2);
    put_int(&mut content, header.correlation_id as i64, 4);
    put_nullable_str(&mut content, &header.client_id.0)?;
    let ghost hb = content@;
    if header.api_version < 0 {
        return Err(Error::new(ErrorKind::Unsupported));
    }
    encode_value(schema, header.api_version as usize, body, &mut content)?;
    if content.len() > BYTES_MAX {
        return Err(Error::new(ErrorKind::TooLong(Limit::Frame, content.len(), BYTES_MAX)));
    }
    let mut out: Vec<u8> = Vec::new();
    put_int(&mut out, content.len() as i64, 4);
    crate::primitives::put_raw(&mut out, content.as_slice());
    Ok(out)
}

/// Decodes the content of a request frame (what follows its length): the
/// header, then the body under `schema` at the header's version. Bytes
/// left over fail with their count.
pub fn decode_req(input: &[u8], schema: &Schema) -> (r: Result<(HeaderRequest, Value), Error>)
    ensures
        match parse_request(input@, *schema) {
            Ok((h, v)) => r matches Ok((x, y)) && x@ == h && y.model() == v,
            Err(k) => r matches Err(e) && e.kind == k,
        },
{
    let ghost b = input@;
    let len = input.len();
    assert(rest(input@, 0) == b);
    let api_key = get_int(input, 0, 2, Context::I16)?;
    assert(rest(input@, 2) == b.skip(2));
    let api_version = get_int(input, 2, 2, Context::I16)?;
    assert(rest(input@, 4) == b.skip(4));
    let correlation_id = get_int(input, 4, 4, Context::I32)?;
    assert(rest(input@, 8) == b.skip(8));
    let (client_id, m) = get_nullable_str(input, 8)?;
    let header = HeaderRequest {
        api_key: api_key as i16,
        api_version: api_version as i16,
        correlation_id,
        client_id: NullableString(client_id),
    };
    if header.api_version < 0 {
        return Err(Error::new(ErrorKind::Unsupported));
    }
    assert(rest(input@, 8 + m) == b.skip(8 + m));
    let (body, n) = decode_value(schema, header.api_version as usize, input, 8 + m)?;
    if 8 + m + n < input.len() {
        return Err(Error::new(ErrorKind::TrailingBytes(input.len() - 8 - m - n)));
    }
    Ok((header, body))
}

/// Decodes the content of a response frame (what follows its length): the
/// header, then the body under `schema` at `version`. Bytes left over fail
/// with their count.
pub fn decode_resp(input: &[u8], version: usize, schema: &Schema) -> (r: Result<(HeaderResponse, Value), Error>)
    ensures
        match parse_response(input@, version as nat, *schema) {
            Ok((h, v)) => r matches Ok((x, y)) && x == h && y.model() == v,
            Err(k) => r matches Err(e) && e.kind == k,
        },
{
    let ghost b = input@;
    let len = input.len();
    assert(rest(input@, 0) == b);
    let correlation = get_int(input, 0, 4, Context::I32)?;
    assert(rest(input@, 4) == b.skip(4));
    let (body, n) = decode_value(schema, version, input, 4)?;
    if 4 + n < input.len() {
        return Err(Error::new(ErrorKind::TrailingBytes(input.len() - 4 - n)));
    }
    Ok((HeaderResponse { correlation }, body))
}

proof fn lemma_request_header_round_trip(h: HeaderRequestModel, rest: Seq<u8>)
    requires
        request_header_wire(h) is Ok,
    ensures
        parse_request_header(request_header_wire(h)->Ok_0 + rest) == Ok::<(HeaderRequestModel, nat), ErrorKind>(
            (h, request_header_wire(h)->Ok_0.len()),
        ),
{
    lemma_pow256_values();
    let a = int_bytes(h.api_key as int, 2);
    let b = int_bytes(h.api_version as int, 2);
    let c = int_bytes(h.correlation_id as int, 4);
    let d = nullable_str_wire(h.client_id)->Ok_0;
    let t = a + (b + (c + (d + rest)));
    assert(request_header_wire(h)->Ok_0 + rest =~= t);
    lemma_int_prefix(h.api_key as int, 2, Context::I16, b + (c + (d + rest)));
    lemma_int_prefix(h.api_version as int, 2, Context::I16, c + (d + rest));
    lemma_int_prefix(h.correlation_id as int, 4, Context::I32, d + rest);
    assert(t.skip(2) =~= b + (c + (d + rest)));
    assert(t.skip(4) =~= c + (d + rest));
    assert(t.skip(8) =~= d + rest);
    lemma_nullable_str_round_trip(h.client_id, rest);
}

/// A request reads back from its frame. The frame starts with the length of
/// what follows; what follows decodes to the same header and body; and with
/// `extra` bytes after it, the decoder fails with their count.
pub proof fn lemma_request_round_trip(h: HeaderRequestModel, s: Schema, v: Val, extra: Seq<u8>)
    requires
        request_wire(h, s, v) is Ok,
    ensures
        request_wire(h, s, v)->Ok_0.take(4) == int_bytes(request_wire(h, s, v)->Ok_0.len() - 4, 4),
        parse_request(request_wire(h, s, v)->Ok_0.skip(4) + extra, s) == (if extra.len() == 0 {
            Ok::<(HeaderRequestModel, Val), ErrorKind>((h, v))
        } else {
            Err(ErrorKind::TrailingBytes(extra.len() as usize))
        }),
{
    lemma_pow256_values();
    let hb = request_header_wire(h)->Ok_0;
    let bb = enc(s, h.api_version as nat, v)->Ok_0;
    let content = hb + bb;
    let w = request_wire(h, s, v)->Ok_0;
    lemma_int_round_trip(content.len() as int, 4);
    assert(w.take(4) =~= int_bytes(content.len() as int, 4));
    assert(w.skip(4) =~= content);
    let b = content + extra;
    assert(b =~= hb + (bb + extra));
    lemma_request_header_round_trip(h, bb + extra);
    assert(b.skip(hb.len() as int) =~= bb + extra);
    lemma_round_trip(s, h.api_version as nat, v, extra);
}

} // verus!
