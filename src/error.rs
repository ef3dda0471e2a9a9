use vstd::prelude::*;

verus! {

/// What was being read when the input ran short.
#[derive(Clone, Copy, Debug, PartialEq, Eq, Structural)]
pub enum Context {
    Bool,
    I8,
    I16,
    I32,
    I64,
    U8,
    U16,
    U32,
    Varint,
    Varlong,
    StrSize,
    Str,
    BytesSize,
    Bytes,
    ArraySize,
    RecordKey,
    RecordValue,
    HeaderKey,
    HeaderValue,
    Payload,
    BatchHeader,
}

/// Which length limit was exceeded on encode.
#[derive(Clone, Copy, Debug, PartialEq, Eq, Structural)]
pub enum Limit {
    Str,
    Bytes,
    Array,
    Frame,
    Batch,
}

/// Compression codec named by the three low bits of a batch's attributes.
#[derive(Clone, Copy, Debug, PartialEq, Eq, Structural)]
pub enum Compression {
    Uncompressed,
    Gzip,
    Snappy,
    Lz4,
    Zstd,
    Unknown,
}

/// The kind of a codec failure.
#[derive(Clone, Copy, Debug, PartialEq, Eq, Structural)]
pub enum ErrorKind {
    /// The input ended before the item was complete: what was read, and the
    /// byte count (or declared length) the item asked for.
    InsufficientBytes(Context, i64),
    InvalidUtf8,
    InvalidBoolean,
    /// The item is longer than its length prefix can express.
    TooLong(Limit, usize, usize),
    /// A struct value holds fewer values than its schema has fields.
    MissingField,
    /// The requested variant index, and how many variants there are.
    UnknownVariant(usize, usize),
    /// A complete decode left this many bytes unread.
    TrailingBytes(usize),
    UnsupportedCompression(Compression),
    /// A variable-length integer ran past its group cap or its range.
    VarintOverflow,
    /// The value does not have the shape its schema asks for.
    Unsupported,
    /// The compression codec failed on the payload.
    CompressionFailed,
}

/// A codec failure: its kind, and the names of the fields being processed
/// when it happened, outermost first.
#[derive(Clone, Debug, PartialEq)]
pub struct Error {
    pub kind: ErrorKind,
    pub path: Vec<String>,
}

impl Error {
    pub fn new(kind: ErrorKind) -> (e: Error)
        ensures
            e.kind == kind,
            e.path@.len() == 0,
    {
        Error { kind, path: Vec::new() }
    }

    /// Records that the failure happened inside the field `name`.
    pub fn within(self, name: &String) -> (e: Error)
        ensures
            e.kind == self.kind,
            e.path@ == seq![*name] + self.path@,
    {
        let mut path = Vec::new();
        path.push(name.clone());
        let mut i: usize = 0;
        while i < self.path.len()
            invariant
                i <= self.path@.len(),
                path@ == seq![*name] + self.path@.take(i as int),
            decreases self.path.len() - i,
        {
            path.push(self.path[i].clone());
            assert(self.path@.take(i + 1) == self.path@.take(i as int).push(self.path@[i as int]));
            i = i + 1;
        }
        assert(self.path@.take(self.path@.len() as int) == self.path@);
        Error { kind: self.kind, path }
    }
}

} // verus!
