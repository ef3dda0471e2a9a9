use kafka_protocol::crc32c::crc32c;
use kafka_protocol::message_set::{v0, v1};
use kafka_protocol::MessageSet;
use kafka_protocol::varint::{zag_i32, zag_i64, zig_i32, zig_i64};
use kafka_protocol::{
    compress, decode_req, decode_resp, decompress, encode_req, Batch, Compression, Context,
    Control, Deserializer, Error, ErrorKind, Field, HeaderRecord, HeaderRequest, Limit,
    NullableBytes, NullableString, Record, RecordBatch, Records, Schema, Serializer,
    TimestampType, Value, Varint,
};

fn enc(schema: &Schema, version: usize, v: &Value) -> Result<Vec<u8>, Error> {
    let mut s = Serializer::new();
    s.serialize_value(schema, version, v)?;
    Ok(s.bytes())
}

fn dec(input: &[u8], schema: &Schema, version: usize) -> Result<Value, Error> {
    let mut d = Deserializer::from_bytes(input, version);
    let v = d.deserialize_value(schema)?;
    d.end()?;
    Ok(v)
}

fn kind(r: Result<Value, Error>) -> ErrorKind {
    r.unwrap_err().kind
}

fn field(name: &str, ty: Schema) -> Field {
    Field { name: name.to_string(), ty }
}

fn batch(attributes: i16, records: Vec<Record>) -> RecordBatch {
    RecordBatch {
        base_offset: 7,
        batch_length: 0,
        partition_leader_epoch: 2,
        magic: 2,
        crc: 0,
        attributes,
        last_offset_delta: 1,
        first_timestamp: 1000,
        max_timestamp: 2000,
        producer_id: -1,
        producer_epoch: -1,
        base_sequence: -1,
        records_len: records.len() as i32,
        records: Records(records),
    }
}

fn data(value: &[u8]) -> Record {
    Record::Batch(Batch {
        attributes: 0,
        timestamp_delta: Varint(5),
        offset_delta: Varint(-1),
        key: None,
        value: value.to_vec(),
        headers: vec![HeaderRecord { key: "h".to_string(), value: vec![9, 9] }],
    })
}

fn encode_batch(b: &RecordBatch) -> Result<Vec<u8>, Error> {
    let mut s = Serializer::new();
    b.serialize(&mut s)?;
    Ok(s.bytes())
}

fn decode_batch(input: &[u8]) -> Result<RecordBatch, Error> {
    let mut d = Deserializer::from_bytes(input, 0);
    let b = RecordBatch::deserialize(&mut d)?;
    d.end()?;
    Ok(b)
}

#[test]
fn varint_boundaries_round_trip() {
    for n in [0i32, -1, 1, i32::MIN, i32::MAX] {
        let mut b = vec![];
        zig_i32(n, &mut b);
        assert!(b.len() <= 5);
        assert_eq!(zag_i32(&b, 0).unwrap(), (n, b.len()));
    }
    for n in [0i64, -1, 1, i32::MIN as i64, i32::MAX as i64, i64::MIN, i64::MAX] {
        let mut b = vec![];
        zig_i64(n, &mut b);
        assert!(b.len() <= 10);
        assert_eq!(zag_i64(&b, 0).unwrap(), (n, b.len()));
    }
}

#[test]
fn varint_exact_bytes() {
    let mut b = vec![];
    zig_i32(3, &mut b);
    assert_eq!(b, vec![6]);
    let mut b = vec![];
    zig_i32(-3, &mut b);
    assert_eq!(b, vec![5]);
    let mut b = vec![];
    zig_i64(64, &mut b);
    assert_eq!(b, vec![0x80, 0x01]);
    let mut b = vec![];
    zig_i32(i32::MIN, &mut b);
    assert_eq!(b, vec![0xff, 0xff, 0xff, 0xff, 0x0f]);
}

#[test]
fn varint_overflow_and_shortage() {
    // six groups are more than a 32-bit varint may take
    assert_eq!(zag_i32(&[0x80, 0x80, 0x80, 0x80, 0x80, 0x00], 0).unwrap_err().kind, ErrorKind::VarintOverflow);
    // five groups, but past the 32-bit range
    assert_eq!(zag_i32(&[0xff, 0xff, 0xff, 0xff, 0x1f], 0).unwrap_err().kind, ErrorKind::VarintOverflow);
    assert_eq!(
        zag_i32(&[0x80], 0).unwrap_err().kind,
        ErrorKind::InsufficientBytes(Context::Varint, 1)
    );
    assert_eq!(
        zag_i64(&[0x80; 10], 0).unwrap_err().kind,
        ErrorKind::VarintOverflow
    );
}

#[test]
fn nullable_none_is_the_marker_alone() {
    let mut s = Serializer::new();
    NullableString(None).serialize(&mut s).unwrap();
    assert_eq!(s.bytes(), vec![255, 255]);
    let mut s = Serializer::new();
    NullableBytes(None).serialize(&mut s).unwrap();
    assert_eq!(s.bytes(), vec![255, 255, 255, 255]);
    let mut d = Deserializer::from_bytes(&[255, 255], 0);
    assert_eq!(NullableString::deserialize(&mut d).unwrap(), NullableString(None));
    let mut d = Deserializer::from_bytes(&[255, 255, 255, 255], 0);
    assert_eq!(NullableBytes::deserialize(&mut d).unwrap(), NullableBytes(None));
}

#[test]
fn fixed_width_big_endian() {
    assert_eq!(enc(&Schema::I16, 0, &Value::I16(-2)).unwrap(), vec![0xff, 0xfe]);
    assert_eq!(enc(&Schema::I32, 0, &Value::I32(258)).unwrap(), vec![0, 0, 1, 2]);
    assert_eq!(enc(&Schema::U16, 0, &Value::U16(0xabcd)).unwrap(), vec![0xab, 0xcd]);
    assert_eq!(
        enc(&Schema::I64, 0, &Value::I64(i64::MIN)).unwrap(),
        vec![0x80, 0, 0, 0, 0, 0, 0, 0]
    );
    assert_eq!(enc(&Schema::Bool, 0, &Value::Bool(false)).unwrap(), vec![0]);
    assert_eq!(
        enc(&Schema::Str, 0, &Value::Str("hé".to_string())).unwrap(),
        vec![0, 3, b'h', 0xc3, 0xa9]
    );
    assert_eq!(
        enc(&Schema::Bytes, 0, &Value::Bytes(vec![7])).unwrap(),
        vec![0, 0, 0, 1, 7]
    );
}

#[test]
fn primitive_errors() {
    assert_eq!(kind(dec(&[2], &Schema::Bool, 0)), ErrorKind::InvalidBoolean);
    assert_eq!(kind(dec(&[0, 2, 0xff, 0xfe], &Schema::Str, 0)), ErrorKind::InvalidUtf8);
    assert_eq!(
        kind(dec(&[0, 1], &Schema::I32, 0)),
        ErrorKind::InsufficientBytes(Context::I32, 4)
    );
    assert_eq!(
        kind(dec(&[0, 5, b'a'], &Schema::Str, 0)),
        ErrorKind::InsufficientBytes(Context::Str, 5)
    );
    assert_eq!(
        kind(dec(&[0, 0, 0, 3, 1], &Schema::Bytes, 0)),
        ErrorKind::InsufficientBytes(Context::Bytes, 3)
    );
    assert_eq!(kind(dec(&[0, 0, 0], &Schema::I16, 0)), ErrorKind::TrailingBytes(1));
    let long = "x".repeat(32768);
    assert_eq!(
        enc(&Schema::Str, 0, &Value::Str(long)).unwrap_err().kind,
        ErrorKind::TooLong(Limit::Str, 32768, 32767)
    );
    assert_eq!(
        enc(&Schema::I8, 0, &Value::Bool(true)).unwrap_err().kind,
        ErrorKind::Unsupported
    );
}

#[test]
fn arrays_and_structs() {
    let s = Schema::Array(Box::new(Schema::I16));
    let v = Value::Array(vec![Value::I16(1), Value::I16(-1)]);
    let b = enc(&s, 0, &v).unwrap();
    assert_eq!(b, vec![0, 0, 0, 2, 0, 1, 0xff, 0xff]);
    assert_eq!(dec(&b, &s, 0).unwrap(), v);
    // a negative count reads as no elements
    assert_eq!(dec(&[0xff, 0xff, 0xff, 0xff], &s, 0).unwrap(), Value::Array(vec![]));

    let st = Schema::Struct(vec![field("a", Schema::I8), field("b", Schema::Str)]);
    let e = enc(&st, 0, &Value::Struct(vec![Value::I8(1)])).unwrap_err();
    assert_eq!(e.kind, ErrorKind::MissingField);
    let e = dec(&[1, 0], &st, 0).unwrap_err();
    assert_eq!(e.kind, ErrorKind::InsufficientBytes(Context::StrSize, 2));
    assert_eq!(e.path, vec!["b".to_string()]);
}

#[test]
fn version_dispatch() {
    let s = Schema::Versioned(vec![
        Schema::Struct(vec![field("a", Schema::I8)]),
        Schema::Struct(vec![field("a", Schema::I8), field("b", Schema::I32)]),
    ]);
    let v0 = Value::Struct(vec![Value::I8(5)]);
    let b = enc(&s, 0, &v0).unwrap();
    assert_eq!(b, vec![5]);
    assert_eq!(dec(&b, &s, 0).unwrap(), v0);
    let v1 = Value::Struct(vec![Value::I8(5), Value::I32(1)]);
    let b = enc(&s, 1, &v1).unwrap();
    assert_eq!(b, vec![5, 0, 0, 0, 1]);
    assert_eq!(dec(&b, &s, 1).unwrap(), v1);
    assert_eq!(enc(&s, 2, &v0).unwrap_err().kind, ErrorKind::UnknownVariant(2, 2));
    assert_eq!(kind(dec(&[5], &s, 2)), ErrorKind::UnknownVariant(2, 2));
}

#[test]
fn request_round_trip_and_trailing() {
    let h = HeaderRequest {
        api_key: 3,
        api_version: 1,
        correlation_id: 9,
        client_id: NullableString::from("me"),
    };
    let s = Schema::Versioned(vec![
        Schema::Struct(vec![]),
        Schema::Struct(vec![field("topics", Schema::Array(Box::new(Schema::Str)))]),
    ]);
    let body = Value::Struct(vec![Value::Array(vec![Value::Str("t".to_string())])]);
    let framed = encode_req(&h, &s, &body).unwrap();
    let n = i32::from_be_bytes([framed[0], framed[1], framed[2], framed[3]]) as usize;
    assert_eq!(n, framed.len() - 4);
    let (h2, body2) = decode_req(&framed[4..], &s).unwrap();
    assert_eq!(h2, h);
    assert_eq!(body2, body);
    let mut extra = framed[4..].to_vec();
    extra.extend_from_slice(&[1, 2, 3]);
    assert_eq!(decode_req(&extra, &s).unwrap_err().kind, ErrorKind::TrailingBytes(3));
}

#[test]
fn response_trailing_bytes() {
    let s = Schema::Struct(vec![field("error_code", Schema::I16)]);
    let (h, v) = decode_resp(&[0, 0, 0, 7, 0, 0], 0, &s).unwrap();
    assert_eq!(h.correlation, 7);
    assert_eq!(v, Value::Struct(vec![Value::I16(0)]));
    assert_eq!(decode_resp(&[0, 0, 0, 7, 0, 0, 1, 1], 0, &s).unwrap_err().kind, ErrorKind::TrailingBytes(2));
}

#[test]
fn sized_serializer_writes_length() {
    let mut s = Serializer::new_sized();
    s.serialize_value(&Schema::I16, 0, &Value::I16(1)).unwrap();
    assert_eq!(s.bytes_sized().unwrap(), vec![0, 0, 0, 2, 0, 1]);
}

#[test]
fn crc32c_check_value() {
    assert_eq!(crc32c(b"123456789"), 0xE306_9283);
    assert_eq!(crc32c(b""), 0);
}

#[test]
fn batch_crc_covers_attributes_to_end() {
    let b = batch(0, vec![data(&[1, 2, 3]), data(&[])]);
    let bytes = encode_batch(&b).unwrap();
    let stored = u32::from_be_bytes([bytes[17], bytes[18], bytes[19], bytes[20]]);
    assert_eq!(crc32c(&bytes[21..]), stored);
    let len = i32::from_be_bytes([bytes[8], bytes[9], bytes[10], bytes[11]]);
    assert_eq!(len as usize, bytes.len() - 12);
}

#[test]
fn batch_round_trips_when_sealed() {
    let b = batch(0, vec![data(&[1, 2, 3]), data(&[])]);
    let bytes = encode_batch(&b).unwrap();
    let d = decode_batch(&bytes).unwrap();
    // re-encoding the decoded batch gives the same bytes, and it decodes to itself
    assert_eq!(encode_batch(&d).unwrap(), bytes);
    assert_eq!(decode_batch(&bytes).unwrap(), d);
    assert_eq!(d.records, b.records);
}

#[test]
fn control_batch_round_trips() {
    let b = batch(32 | 16 | 8, vec![Record::Control(Control { version: 0, control_type: 1 })]);
    assert!(b.is_control());
    assert!(b.is_transactional());
    assert_eq!(b.timestamp_type(), TimestampType::LogAppendTime);
    let bytes = encode_batch(&b).unwrap();
    assert_eq!(bytes.len(), 61 + 4);
    let d = decode_batch(&bytes).unwrap();
    assert_eq!(d.records, b.records);
}

#[test]
fn gzip_batch_round_trips() {
    let b = batch(1, vec![data(&[5; 100]), data(&[6; 100])]);
    assert_eq!(b.compression(), Compression::Gzip);
    let bytes = encode_batch(&b).unwrap();
    let d = decode_batch(&bytes).unwrap();
    assert_eq!(d.records, b.records);
    assert_eq!(crc32c(&bytes[21..]), d.crc);
}

#[test]
fn unsupported_compression() {
    let b = batch(2, vec![data(&[1])]);
    assert_eq!(b.compression(), Compression::Snappy);
    assert_eq!(
        encode_batch(&b).unwrap_err().kind,
        ErrorKind::UnsupportedCompression(Compression::Snappy)
    );
    let mut bytes = encode_batch(&batch(0, vec![data(&[1])])).unwrap();
    bytes[22] = 4;
    assert_eq!(
        decode_batch(&bytes).unwrap_err().kind,
        ErrorKind::UnsupportedCompression(Compression::Zstd)
    );
}

#[test]
fn short_batch_header() {
    assert_eq!(
        decode_batch(&[0; 60]).unwrap_err().kind,
        ErrorKind::InsufficientBytes(Context::BatchHeader, 61)
    );
}

#[test]
fn gzip_functions() {
    let raw = vec![7u8; 64];
    let packed = compress(&raw).unwrap();
    assert_ne!(packed, raw);
    assert_eq!(decompress(&packed).unwrap(), raw);
    assert_eq!(decompress(&[1, 2, 3]).unwrap_err().kind, ErrorKind::CompressionFailed);
}

#[test]
fn ser_req_scenario_bytes() {
    let header = HeaderRequest {
        api_key: 18,
        api_version: 0,
        correlation_id: 42,
        client_id: NullableString(None),
    };
    let s = Schema::Versioned(vec![Schema::Struct(vec![]), Schema::Struct(vec![])]);
    let bytes = encode_req(&header, &s, &Value::Struct(vec![])).unwrap();
    assert_eq!(bytes, vec![0, 0, 0, 10, 0, 18, 0, 0, 0, 0, 0, 42, 255, 255]);
    assert_eq!(bytes.len(), 14);
}

#[test]
fn message_set_revisions_round_trip() {
    let m0 = MessageSet::V0 {
        offset: 1,
        message_size: 2,
        message: v0::Message {
            crc: 3,
            magic_byte: 0,
            attributes: 0,
            key: NullableBytes(None),
            value: NullableBytes::from(vec![1, 2]),
        },
    };
    let mut s = Serializer::new();
    m0.serialize(&mut s).unwrap();
    let bytes = s.bytes();
    assert_eq!(bytes.len(), 18 + 4 + 6);
    let mut d = Deserializer::from_bytes(&bytes, 0);
    assert_eq!(MessageSet::deserialize(&mut d).unwrap(), m0);
    d.end().unwrap();

    let m1 = MessageSet::V1 {
        offset: -1,
        message_size: 0,
        message: v1::Message {
            crc: 0xdead_beef,
            magic_byte: 1,
            attributes: 1,
            timestamp: 99,
            key: NullableBytes::from(vec![]),
            value: NullableBytes(None),
        },
    };
    let mut s = Serializer::new();
    m1.serialize(&mut s).unwrap();
    let bytes = s.bytes();
    let mut d = Deserializer::from_bytes(&bytes, 1);
    assert_eq!(MessageSet::deserialize(&mut d).unwrap(), m1);
    d.end().unwrap();

    let mut d = Deserializer::from_bytes(&bytes, 2);
    assert_eq!(MessageSet::deserialize(&mut d).unwrap_err().kind, ErrorKind::UnknownVariant(2, 2));
}

#[test]
fn utf8_text_decodes_to_its_characters() {
    let v = dec(&[0, 3, b'h', 0xc3, 0xa9], &Schema::Str, 0).unwrap();
    assert_eq!(v, Value::Str("hé".to_string()));
    let v = dec(&[0, 2, 0xc3, 0xa9], &Schema::NullableStr, 0).unwrap();
    assert_eq!(v, Value::NullableStr(Some("é".to_string())));
}

#[test]
fn error_path_names_nested_fields() {
    let s = Schema::Struct(vec![
        field("a", Schema::I8),
        field(
            "items",
            Schema::Array(Box::new(Schema::Struct(vec![field("name", Schema::Str)]))),
        ),
    ]);
    let v = Value::Struct(vec![
        Value::I8(1),
        Value::Array(vec![Value::Struct(vec![Value::Bool(true)])]),
    ]);
    let e = enc(&s, 0, &v).unwrap_err();
    assert_eq!(e.kind, ErrorKind::Unsupported);
    assert_eq!(e.path, vec!["items".to_string(), "name".to_string()]);
    // one element whose string length runs past the input
    let e = dec(&[1, 0, 0, 0, 1, 0, 9], &s, 0).unwrap_err();
    assert_eq!(e.kind, ErrorKind::InsufficientBytes(Context::Str, 9));
    assert_eq!(e.path, vec!["items".to_string(), "name".to_string()]);
}

#[test]
fn failed_encodes_leave_the_buffer_unchanged() {
    let mut s = Serializer::new();
    NullableString(None).serialize(&mut s).unwrap();
    let long = NullableString(Some("x".repeat(40000)));
    assert!(long.serialize(&mut s).is_err());
    let b = batch(5, vec![data(&[1])]);
    assert_eq!(
        b.serialize(&mut s).unwrap_err().kind,
        ErrorKind::UnsupportedCompression(Compression::Unknown)
    );
    assert_eq!(s.bytes(), vec![255, 255]);
}

#[test]
fn failed_decode_keeps_the_position() {
    let input = [0u8, 1, 0, 2];
    let mut d = Deserializer::from_bytes(&input, 0);
    assert!(d.deserialize_value(&Schema::I64).is_err());
    assert_eq!(d.deserialize_value(&Schema::I16).unwrap(), Value::I16(1));
    assert_eq!(d.remaining_len(), 2);
}
