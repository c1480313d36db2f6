//! A record as a batch carries it, and the byte strings it is made of.

use bytes::Bytes;
use kafka_protocol::indexmap::IndexMap;
use kafka_protocol::protocol::StrBytes;
use vstd::prelude::*;

verus! {

/// A byte string of the `bytes` crate.
#[verifier::external_type_specification]
#[verifier::external_body]
pub struct ExBytes(bytes::Bytes);

/// A text of the `kafka_protocol` crate.
#[verifier::external_type_specification]
#[verifier::external_body]
pub struct ExStrBytes(kafka_protocol::protocol::StrBytes);

/// An insertion-ordered map of the `indexmap` crate.
#[verifier::external_type_specification]
#[verifier::external_body]
#[verifier::reject_recursive_types(K)]
#[verifier::reject_recursive_types(V)]
#[verifier::reject_recursive_types(S)]
pub struct ExIndexMap<K, V, S>(kafka_protocol::indexmap::IndexMap<K, V, S>);

/// The headers of a record as a batch carries them: one value per name.
pub type HeaderMap = IndexMap<StrBytes, Option<Bytes>>;

/// The bytes a byte string holds.
pub uninterp spec fn bytes_in(bytes: Bytes) -> Seq<u8>;

/// The headers a header map holds, in order.
pub uninterp spec fn headers_in(headers: HeaderMap) -> Seq<HeaderView>;

/// The name and value of a record header, as plain sequences.
pub type HeaderView = (Seq<char>, Option<Seq<u8>>);

/// An optional byte string, as a plain sequence.
pub open spec fn bytes_of(bytes: Option<Vec<u8>>) -> Option<Seq<u8>> {
    match bytes {
        Some(bytes) => Some(bytes@),
        None => None,
    }
}

/// The bytes an optional byte string holds.
pub open spec fn content_of(bytes: Option<Bytes>) -> Option<Seq<u8>> {
    match bytes {
        Some(bytes) => Some(bytes_in(bytes)),
        None => None,
    }
}

/// One header, as plain sequences.
pub open spec fn header_view(header: (String, Option<Vec<u8>>)) -> HeaderView {
    (header.0@, bytes_of(header.1))
}

/// Headers, as plain sequences.
pub open spec fn headers_of(headers: Seq<(String, Option<Vec<u8>>)>) -> Seq<HeaderView> {
    headers.map_values(|header: (String, Option<Vec<u8>>)| header_view(header))
}

/// What a call that yields bytes or an explanation came back with.
pub open spec fn outcome_of(result: Result<Vec<u8>, String>) -> Result<Seq<u8>, Seq<char>> {
    match result {
        Ok(bytes) => Ok(bytes@),
        Err(reason) => Err(reason@),
    }
}

/// Whether a record's timestamp was set by its producer or by the broker.
#[derive(Debug, Clone, Copy, PartialEq, Eq, Structural)]
pub enum TimestampType {
    /// Set by the producer.
    Creation,
    /// Set by the broker on append.
    LogAppend,
}

impl TimestampType {
    /// The source that the timestamp bit of a batch's attributes stands for.
    pub fn from_wire(bit: u8) -> (source: Self)
        ensures
            source == if bit == 0 {
                TimestampType::Creation
            } else {
                TimestampType::LogAppend
            },
    {
        if bit == 0 {
            TimestampType::Creation
        } else {
            TimestampType::LogAppend
        }
    }
}

/// A record as a batch carries it.
#[derive(Debug)]
pub struct WireRecord {
    /// Whether the record belongs to a transaction.
    pub transactional: bool,
    /// Whether the record is a transaction marker.
    pub control: bool,
    /// Leader epoch of the batch.
    pub partition_leader_epoch: i32,
    /// The producer that wrote it.
    pub producer_id: i64,
    /// That producer's epoch.
    pub producer_epoch: i16,
    /// Where the timestamp came from.
    pub timestamp_type: TimestampType,
    /// Offset.
    pub offset: i64,
    /// Sequence number.
    pub sequence: i32,
    /// Timestamp, in epoch milliseconds.
    pub timestamp: i64,
    /// Key.
    pub key: Option<Bytes>,
    /// Value.
    pub value: Option<Bytes>,
    /// Headers, in order.
    pub headers: HeaderMap,
}

/// A [`WireRecord`], as plain sequences.
pub struct WireRecordView {
    pub transactional: bool,
    pub control: bool,
    pub partition_leader_epoch: i32,
    pub producer_id: i64,
    pub producer_epoch: i16,
    pub timestamp_type: TimestampType,
    pub offset: i64,
    pub sequence: i32,
    pub timestamp: i64,
    pub key: Option<Seq<u8>>,
    pub value: Option<Seq<u8>>,
    pub headers: Seq<HeaderView>,
}

impl View for WireRecord {
    type V = WireRecordView;

    open spec fn view(&self) -> WireRecordView {
        WireRecordView {
            transactional: self.transactional,
            control: self.control,
            partition_leader_epoch: self.partition_leader_epoch,
            producer_id: self.producer_id,
            producer_epoch: self.producer_epoch,
            timestamp_type: self.timestamp_type,
            offset: self.offset,
            sequence: self.sequence,
            timestamp: self.timestamp,
            key: content_of(self.key),
            value: content_of(self.value),
            headers: headers_in(self.headers),
        }
    }
}

/// Records, as plain sequences.
pub open spec fn wire_views(records: Seq<WireRecord>) -> Seq<WireRecordView> {
    records.map_values(|record: WireRecord| record@)
}

/// Where a header name first occurs.
pub open spec fn name_position(headers: Seq<HeaderView>, name: Seq<char>) -> Option<int>
    decreases headers.len(),
{
    if headers.len() == 0 {
        None
    } else {
        match name_position(headers.drop_last(), name) {
            Some(at) => Some(at),
            None => if headers.last().0 == name {
                Some(headers.len() - 1)
            } else {
                None
            },
        }
    }
}

/// Headers with one more: in the place of the one with its name, or last.
pub open spec fn with_header(headers: Seq<HeaderView>, header: HeaderView) -> Seq<HeaderView> {
    match name_position(headers, header.0) {
        Some(at) => headers.update(at, header),
        None => headers.push(header),
    }
}

/// Copies bytes into a byte string with `bytes::Bytes::copy_from_slice`.
///
/// The contract claims that the byte string holds the same bytes.
#[verifier::external_body]
fn byte_string(content: &Vec<u8>) -> (bytes: Bytes)
    ensures
        bytes_in(bytes) == content@,
{
    Bytes::copy_from_slice(content)
}

/// Copies a byte string's bytes out with `bytes::Bytes::to_vec`.
///
/// The contract claims that they are the bytes it holds.
#[verifier::external_body]
fn byte_content(bytes: &Bytes) -> (content: Vec<u8>)
    ensures
        content@ == bytes_in(*bytes),
{
    bytes.to_vec()
}

/// Makes an empty header map with `indexmap::IndexMap::default`.
///
/// The contract claims that it holds no headers.
#[verifier::external_body]
pub(crate) fn no_headers() -> (headers: HeaderMap)
    ensures
        headers_in(headers) == Seq::<HeaderView>::empty(),
{
    HeaderMap::default()
}

/// Adds a header with `indexmap::IndexMap::insert`.
///
/// The contract claims that a name the map holds keeps its place and takes the
/// new value, and that a name it does not hold is added last.
#[verifier::external_body]
pub(crate) fn put_header(headers: &mut HeaderMap, name: &String, value: Option<Bytes>)
    ensures
        headers_in(*final(headers)) == with_header(
            headers_in(*old(headers)),
            (name@, content_of(value)),
        ),
{
    headers.insert(StrBytes::from_string(name.clone()), value);
}

/// Lists a header map's entries with `indexmap::IndexMap::into_iter`.
///
/// The contract claims that they are the headers it holds, in order.
#[verifier::external_body]
pub(crate) fn list_headers(headers: HeaderMap) -> (list: Vec<(String, Option<Vec<u8>>)>)
    ensures
        headers_of(list@) == headers_in(headers),
{
    headers.into_iter().map(|(name, value)| (name.to_string(), value.map(Vec::from))).collect()
}

/// An optional byte string with the given bytes.
pub fn to_wire(bytes: &Option<Vec<u8>>) -> (wire: Option<Bytes>)
    ensures
        content_of(wire) == bytes_of(*bytes),
{
    match bytes {
        Some(bytes) => Some(byte_string(bytes)),
        None => None,
    }
}

/// The bytes of an optional byte string.
pub fn from_wire(wire: &Option<Bytes>) -> (bytes: Option<Vec<u8>>)
    ensures
        bytes_of(bytes) == content_of(*wire),
{
    match wire {
        Some(wire) => Some(byte_content(wire)),
        None => None,
    }
}

/// How a request names a topic.
#[derive(Debug)]
pub enum TopicRef {
    /// By name.
    Name(String),
    /// By id.
    Id(u128),
}

/// A [`TopicRef`], as plain values.
pub enum TopicRefView {
    Name(Seq<char>),
    Id(u128),
}

impl View for TopicRef {
    type V = TopicRefView;

    open spec fn view(&self) -> TopicRefView {
        match self {
            TopicRef::Name(name) => TopicRefView::Name(name@),
            TopicRef::Id(id) => TopicRefView::Id(*id),
        }
    }
}

} // verus!
