//! Binary codec for a broker wire protocol: primitives, a schema-driven
//! encode/decode engine, the compressed and checksummed record container,
//! and the length-prefixed request/response envelope.
pub mod codec;
pub mod compression;
pub mod crc32c;
pub mod envelope;
pub mod error;
pub mod message_set;
pub mod primitives;
pub mod record;
pub mod record_batch;
pub mod schema;
pub mod types;
pub mod varint;
pub mod wire;

pub use codec::{Deserializer, Serializer};
pub use compression::{compress, decompress};
pub use envelope::{HeaderRequest, HeaderResponse, decode_req, decode_resp, encode_req};
pub use error::{Compression, Context, Error, ErrorKind, Limit};
pub use record::{Batch, Control, HeaderRecord, Record};
pub use record_batch::{RecordBatch, Records, TimestampType};
pub use schema::{Field, Schema, Value};
pub use types::{Bytes, NullableBytes, NullableString, Varint, Varlong};
pub use message_set::MessageSet;
