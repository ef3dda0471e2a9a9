use kafka_protocol::varint::{zag_i32, zig_i32};
use kafka_protocol::{
    decode_resp, encode_req, Batch, Bytes, Control, Deserializer, Error, Field, HeaderRecord,
    HeaderRequest, NullableBytes, NullableString, Record, RecordBatch, Records, Schema, Serializer,
    Value, Varint, Varlong,
};

fn encode_single(schema: &Schema, val: &Value) -> Result<Vec<u8>, Error> {
    let mut serializer = Serializer::new();
    serializer.serialize_value(schema, 0, val)?;
    Ok(serializer.bytes())
}

fn decode_single(input: &[u8], schema: &Schema, version: Option<usize>) -> Result<Value, Error> {
    let mut deserializer = Deserializer::from_bytes(input, version.unwrap_or(0));
    let v = deserializer.deserialize_value(schema)?;
    deserializer.end()?;
    Ok(v)
}

fn field(name: &str, ty: Schema) -> Field {
    Field { name: name.to_string(), ty }
}

fn encode_batch(batch: &RecordBatch) -> Vec<u8> {
    let mut serializer = Serializer::new();
    batch.serialize(&mut serializer).unwrap();
    serializer.bytes()
}

fn decode_batch(input: &[u8]) -> Result<RecordBatch, Error> {
    let mut deserializer = Deserializer::from_bytes(input, 0);
    let batch = RecordBatch::deserialize(&mut deserializer)?;
    deserializer.end()?;
    Ok(batch)
}

/// The batch as the encoder sealed it: the batch length and CRC it wrote.
fn sealed(batch: &RecordBatch, bytes: &[u8]) -> RecordBatch {
    let mut b = batch.clone();
    b.batch_length = (bytes.len() - 12) as i32;
    b.crc = u32::from_be_bytes([bytes[17], bytes[18], bytes[19], bytes[20]]);
    b
}

fn data_record() -> Record {
    Record::Batch(Batch {
        attributes: 0,
        timestamp_delta: Varint(0),
        offset_delta: Varint(0),
        key: Some(vec![0]),
        value: vec![0],
        headers: vec![HeaderRecord { key: String::from(""), value: vec![0] }],
    })
}

fn batch_with(attributes: i16, records: Vec<Record>) -> RecordBatch {
    RecordBatch {
        base_offset: 256 + 1,
        batch_length: 1,
        partition_leader_epoch: 1,
        magic: 1,
        crc: 1,
        attributes,
        last_offset_delta: 0,
        first_timestamp: 0,
        max_timestamp: 0,
        producer_id: 0,
        producer_epoch: 0,
        base_sequence: 0,
        records_len: records.len() as i32,
        records: Records(records),
    }
}

#[test]
fn serde_bool() {
    let v1 = Value::Bool(true);
    let bytes = encode_single(&Schema::Bool, &v1).unwrap();
    let v2 = decode_single(&bytes, &Schema::Bool, None).unwrap();
    assert_eq!(v1, v2);
}

#[test]
fn serde_integers() {
    let cases = vec![
        (Schema::I8, Value::I8(13)),
        (Schema::I16, Value::I16(13)),
        (Schema::I32, Value::I32(13)),
        (Schema::I64, Value::I64(13)),
        (Schema::U32, Value::U32(13)),
    ];
    for (schema, v1) in cases {
        let bytes = encode_single(&schema, &v1).unwrap();
        let v2 = decode_single(&bytes, &schema, None).unwrap();
        assert_eq!(v1, v2);
    }
}

#[test]
fn serde_varint_varlong() {
    let i: i32 = 3;
    let mut bytes = vec![];
    zig_i32(i, &mut bytes);
    let (j, varint_size) = zag_i32(&bytes, 0).unwrap();
    assert_eq!(i, j);
    assert_eq!(1, varint_size);

    let i = Varint(3);
    let mut ser = Serializer::new();
    i.serialize(&mut ser);
    let bytes = ser.bytes();
    let mut de = Deserializer::from_bytes(&bytes, 0);
    let j = Varint::deserialize(&mut de).unwrap();
    de.end().unwrap();
    assert_eq!(i, j);

    let i = Varlong(-3);
    let mut ser = Serializer::new();
    i.serialize(&mut ser);
    let bytes = ser.bytes();
    let mut de = Deserializer::from_bytes(&bytes, 0);
    let j = Varlong::deserialize(&mut de).unwrap();
    de.end().unwrap();
    assert_eq!(i, j);
}

#[test]
fn serde_strings() {
    let s1 = Value::Str(String::from("yes"));
    let bytes = encode_single(&Schema::Str, &s1).unwrap();
    let s2 = decode_single(&bytes, &Schema::Str, None).unwrap();
    assert_eq!(s1, s2);

    let s1 = NullableString::from("yes");
    let mut ser = Serializer::new();
    s1.serialize(&mut ser).unwrap();
    let bytes = ser.bytes();
    let mut de = Deserializer::from_bytes(&bytes, 0);
    let s2 = NullableString::deserialize(&mut de).unwrap();
    de.end().unwrap();
    assert_eq!(s1, s2);

    let s1 = NullableString(None);
    let mut ser = Serializer::new();
    s1.serialize(&mut ser).unwrap();
    let bytes = ser.bytes();
    let mut de = Deserializer::from_bytes(&bytes, 0);
    let s2 = NullableString::deserialize(&mut de).unwrap();
    de.end().unwrap();
    assert_eq!(s1, s2);
}

#[test]
fn serde_bytes() {
    let b1 = Bytes(vec![1, 2, 3]);
    let mut ser = Serializer::new();
    b1.serialize(&mut ser).unwrap();
    let bytes = ser.bytes();
    let mut de = Deserializer::from_bytes(&bytes, 0);
    let b2 = Bytes::deserialize(&mut de).unwrap();
    de.end().unwrap();
    assert_eq!(b1, b2);

    let b1 = NullableBytes::from(vec![1, 2, 3]);
    let mut ser = Serializer::new();
    b1.serialize(&mut ser).unwrap();
    let bytes = ser.bytes();
    let mut de = Deserializer::from_bytes(&bytes, 0);
    let b2 = NullableBytes::deserialize(&mut de).unwrap();
    de.end().unwrap();
    assert_eq!(b1, b2);

    let b1 = NullableBytes(None);
    let mut ser = Serializer::new();
    b1.serialize(&mut ser).unwrap();
    let bytes = ser.bytes();
    let mut de = Deserializer::from_bytes(&bytes, 0);
    let b2 = NullableBytes::deserialize(&mut de).unwrap();
    de.end().unwrap();
    assert_eq!(b1, b2);
}

#[test]
fn ser_req() {
    let header = HeaderRequest {
        api_key: 18,
        api_version: 0,
        correlation_id: 42,
        client_id: NullableString(None),
    };
    let api_versions_request = Schema::Versioned(vec![Schema::Struct(vec![])]);
    let bytes = encode_req(&header, &api_versions_request, &Value::Struct(vec![])).unwrap();
    assert_eq!(vec![0, 0, 0, 10, 0, 18, 0, 0, 0, 0, 0, 42, 255, 255], bytes);
}

#[test]
fn de_resp() {
    let bytes = vec![
        0, 0, 1, 12, 0, 0, 0, 42, 0, 0, 0, 0, 0, 43, 0, 0, 0, 0, 0, 7, 0, 1, 0, 0, 0, 10, 0, 2,
        0, 0, 0, 4, 0, 3, 0, 0, 0, 7, 0, 4, 0, 0, 0, 1, 0, 5, 0, 0, 0, 0, 0, 6, 0, 0, 0, 4, 0,
        7, 0, 0, 0, 1, 0, 8, 0, 0, 0, 6, 0, 9, 0, 0, 0, 5, 0, 10, 0, 0, 0, 2, 0, 11, 0, 0, 0,
        3, 0, 12, 0, 0, 0, 2, 0, 13, 0, 0, 0, 2, 0, 14, 0, 0, 0, 2, 0, 15, 0, 0, 0, 2, 0, 16,
        0, 0, 0, 2, 0, 17, 0, 0, 0, 1, 0, 18, 0, 0, 0, 2, 0, 19, 0, 0, 0, 3, 0, 20, 0, 0, 0, 3,
        0, 21, 0, 0, 0, 1, 0, 22, 0, 0, 0, 1, 0, 23, 0, 0, 0, 2, 0, 24, 0, 0, 0, 1, 0, 25, 0,
        0, 0, 1, 0, 26, 0, 0, 0, 1, 0, 27, 0, 0, 0, 0, 0, 28, 0, 0, 0, 2, 0, 29, 0, 0, 0, 1, 0,
        30, 0, 0, 0, 1, 0, 31, 0, 0, 0, 1, 0, 32, 0, 0, 0, 2, 0, 33, 0, 0, 0, 1, 0, 34, 0, 0,
        0, 1, 0, 35, 0, 0, 0, 1, 0, 36, 0, 0, 0, 0, 0, 37, 0, 0, 0, 1, 0, 38, 0, 0, 0, 1, 0,
        39, 0, 0, 0, 1, 0, 40, 0, 0, 0, 1, 0, 41, 0, 0, 0, 1, 0, 42, 0, 0, 0, 1,
    ];
    let api_versions_response = Schema::Versioned(vec![Schema::Struct(vec![
        field("error_code", Schema::I16),
        field(
            "api_versions",
            Schema::Array(Box::new(Schema::Struct(vec![
                field("api_key", Schema::I16),
                field("min_version", Schema::I16),
                field("max_version", Schema::I16),
            ]))),
        ),
    ])]);
    // what a reader of the frame does: the length, then exactly that many bytes
    let size = i32::from_be_bytes([bytes[0], bytes[1], bytes[2], bytes[3]]) as usize;
    let content = &bytes[4..4 + size];
    let (header, resp) = decode_resp(content, 0, &api_versions_response).unwrap();
    assert_eq!(42, header.correlation);
    assert!(if let Value::Struct(ref fields) = resp {
        fields[0] == Value::I16(0)
            && match fields[1] {
                Value::Array(ref api_versions) => api_versions.len() == 43,
                _ => false,
            }
    } else {
        false
    });
}

#[test]
fn serede_req_resp() {
    let create_topics_request = Schema::Versioned(vec![Schema::Struct(vec![
        field(
            "create_topic_requests",
            Schema::Array(Box::new(Schema::Struct(vec![
                field("topic", Schema::Str),
                field("num_partitions", Schema::I32),
                field("replication_factor", Schema::I16),
                field(
                    "replica_assignment",
                    Schema::Array(Box::new(Schema::Struct(vec![
                        field("partition", Schema::I32),
                        field("replicas", Schema::Array(Box::new(Schema::I32))),
                    ]))),
                ),
                field(
                    "config_entries",
                    Schema::Array(Box::new(Schema::Struct(vec![
                        field("config_name", Schema::Str),
                        field("config_value", Schema::NullableStr),
                    ]))),
                ),
            ]))),
        ),
        field("timeout", Schema::I32),
    ])]);
    let val1 = Value::Struct(vec![
        Value::Array(vec![Value::Struct(vec![
            Value::Str("topic".to_owned()),
            Value::I32(32),
            Value::I16(16),
            Value::Array(vec![Value::Struct(vec![
                Value::I32(12),
                Value::Array(vec![Value::I32(1)]),
            ])]),
            Value::Array(vec![Value::Struct(vec![
                Value::Str("default".to_owned()),
                Value::NullableStr(None),
            ])]),
        ])]),
        Value::I32(0),
    ]);

    let bytes = encode_single(&create_topics_request, &val1).unwrap();
    let val2 = decode_single(&bytes, &create_topics_request, Some(0)).unwrap();
    assert_eq!(val1, val2);
}

#[test]
fn serde_record_batch_control_batch_variant() {
    let r1 = batch_with(32, vec![Record::Control(Control { version: 0, control_type: 0 })]);
    let bytes = encode_batch(&r1);
    let r2 = decode_batch(&bytes).unwrap();
    assert_eq!(sealed(&r1, &bytes), r2);
}

#[test]
fn serde_record_batch_record_variant() {
    let r1 = batch_with(0, vec![data_record()]);
    let bytes = encode_batch(&r1);
    let r2 = decode_batch(&bytes).unwrap();
    assert_eq!(sealed(&r1, &bytes), r2);
}

#[test]
fn serde_record_batch_control_batch_variant_with_wrong_version() {
    // attributes say data records, the payload holds a control record
    let r1 = batch_with(0, vec![Record::Control(Control { version: 0, control_type: 0 })]);
    let bytes = encode_batch(&r1);
    let r2 = decode_batch(&bytes);
    assert!(matches!(
        r2,
        Err(Error { kind: kafka_protocol::ErrorKind::InsufficientBytes(kafka_protocol::Context::Varint, _), .. })
    ));
}

#[test]
fn serde_record_batch_record_variant_with_wrong_version() {
    // attributes say control records, the payload holds a data record
    let r1 = batch_with(32, vec![data_record()]);
    let bytes = encode_batch(&r1);
    let r2 = decode_batch(&bytes);
    assert!(matches!(
        r2,
        Err(Error { kind: kafka_protocol::ErrorKind::TrailingBytes(8), .. })
    ));
}
