//! Chunk packets on their way to clients: keys, contents, failures, and the cells
//! in which a preparation is shared by everyone who waits for it.
use bytes::Bytes;
use std::sync::Arc;
use vstd::prelude::*;

verus! {

/// Which snapshot of a chunk is meant.
#[derive(Clone, Copy, Debug, PartialEq, Eq, Structural, Hash)]
pub struct ChunkSnapshotIdentity {
    pub instance_id: u64,
    pub revision: u64,
}

/// What a serialized chunk packet is known by.
#[derive(Clone, Copy, Debug, PartialEq, Eq, Structural, Hash)]
pub struct SerializationKey {
    pub instance_id: u64,
    pub revision: u64,
    pub protocol_version: i32,
}

impl SerializationKey {
    /// The key of a snapshot for a protocol version.
    pub open spec fn of(identity: ChunkSnapshotIdentity, protocol_version: i32) -> SerializationKey {
        SerializationKey {
            instance_id: identity.instance_id,
            revision: identity.revision,
            protocol_version,
        }
    }

    /// The key of a snapshot for a protocol version.
    pub fn new(identity: ChunkSnapshotIdentity, protocol_version: i32) -> (key: SerializationKey)
        ensures
            key == SerializationKey::of(identity, protocol_version),
            key.instance_id == identity.instance_id,
            key.revision == identity.revision,
            key.protocol_version == protocol_version,
    {
        SerializationKey {
            instance_id: identity.instance_id,
            revision: identity.revision,
            protocol_version,
        }
    }
}

/// How packets are compressed for a connection.
#[derive(Clone, Copy, Debug, PartialEq, Eq, Structural, Hash)]
pub struct CompressionProfile {
    pub threshold: usize,
    pub level: u32,
}

/// The bytes that a byte string holds.
pub uninterp spec fn content_of(bytes: Bytes) -> Seq<u8>;

/// `<bytes::Bytes as From<Vec<u8>>>::from`: the byte string holds the bytes of the
/// vector.
#[verifier::external_body]
fn bytes_from_vec(bytes: Vec<u8>) -> (r: Bytes)
    ensures
        content_of(r) == bytes@,
{
    Bytes::from(bytes)
}

/// `bytes::Bytes::len`: the number of bytes held.
#[verifier::external_body]
fn bytes_len(bytes: &Bytes) -> (n: usize)
    ensures
        n == content_of(*bytes).len(),
{
    bytes.len()
}

/// A chunk packet in the layout of one protocol version.
pub struct SerializedPacket {
    bytes: Bytes,
}

impl View for SerializedPacket {
    type V = Seq<u8>;

    closed spec fn view(&self) -> Seq<u8> {
        content_of(self.bytes)
    }
}

impl SerializedPacket {
    /// A packet of these bytes.
    pub fn from_bytes(bytes: Vec<u8>) -> (packet: SerializedPacket)
        ensures
            packet@ == bytes@,
    {
        SerializedPacket { bytes: bytes_from_vec(bytes) }
    }

    /// The bytes of the packet.
    pub fn bytes(&self) -> (bytes: &Bytes)
        ensures
            content_of(*bytes) == self@,
    {
        &self.bytes
    }

    /// The size of the packet.
    pub fn len(&self) -> (n: usize)
        ensures
            n == self@.len(),
    {
        bytes_len(&self.bytes)
    }

    /// Whether the packet has no bytes.
    pub fn is_empty(&self) -> (r: bool)
        ensures
            r == (self@.len() == 0),
    {
        bytes_len(&self.bytes) == 0
    }
}

/// A chunk packet framed, and compressed where a profile asks for it.
pub struct PreparedPacket {
    bytes: Bytes,
}

impl View for PreparedPacket {
    type V = Seq<u8>;

    closed spec fn view(&self) -> Seq<u8> {
        content_of(self.bytes)
    }
}

impl PreparedPacket {
    /// A packet of these bytes.
    pub fn from_bytes(bytes: Vec<u8>) -> (packet: PreparedPacket)
        ensures
            packet@ == bytes@,
    {
        PreparedPacket { bytes: bytes_from_vec(bytes) }
    }

    /// The bytes of the packet.
    pub fn bytes(&self) -> (bytes: &Bytes)
        ensures
            content_of(*bytes) == self@,
    {
        &self.bytes
    }

    /// The size of the packet.
    pub fn len(&self) -> (n: usize)
        ensures
            n == self@.len(),
    {
        bytes_len(&self.bytes)
    }

    /// Whether the packet has no bytes.
    pub fn is_empty(&self) -> (r: bool)
        ensures
            r == (self@.len() == 0),
    {
        bytes_len(&self.bytes) == 0
    }
}

/// Why a packet could not be encoded.
#[derive(Debug)]
pub enum PacketEncodeError {
    Message(String),
}

impl PacketEncodeError {
    /// What went wrong.
    pub open spec fn text(&self) -> Seq<char> {
        match self {
            PacketEncodeError::Message(text) => text@,
        }
    }

    /// An error with this text.
    pub fn new(text: &str) -> (error: PacketEncodeError)
        ensures
            error.text() == text@,
    {
        PacketEncodeError::Message(text.to_string())
    }

    /// What went wrong.
    pub fn message(&self) -> (text: &str)
        ensures
            text@ == self.text(),
    {
        match self {
            PacketEncodeError::Message(text) => text.as_str(),
        }
    }
}

/// The bytes of a chunk packet: the packet's number, then its data. The first part that
/// could not be written gives the error.
pub fn write_snapshot(id: Result<Vec<u8>, String>, data: Result<Vec<u8>, String>) -> (r: Result<
    Vec<u8>,
    PacketEncodeError,
>)
    ensures
        match (id, data) {
            (Ok(id), Ok(data)) => r matches Ok(bytes) && bytes@ == id@ + data@,
            (Err(text), _) => r matches Err(error) && error.text() == text@,
            (Ok(_), Err(text)) => r matches Err(error) && error.text() == text@,
        },
{
    match id {
        Err(text) => Err(PacketEncodeError::Message(text)),
        Ok(id) => match data {
            Err(text) => Err(PacketEncodeError::Message(text)),
            Ok(data) => {
                let mut bytes = id;
                let mut data = data;
                bytes.append(&mut data);
                Ok(bytes)
            },
        },
    }
}

/// The serialized chunk packet of written bytes. `verdict` is what the wire format says
/// of the bytes: it can refuse them. The error of the writing comes first.
pub fn serialize_snapshot(
    written: Result<Vec<u8>, PacketEncodeError>,
    verdict: Result<(), PacketEncodeError>,
) -> (r: Result<SerializedPacket, PacketEncodeError>)
    ensures
        match (written, verdict) {
            (Ok(bytes), Ok(_)) => r matches Ok(packet) && packet@ == bytes@,
            (Err(error), _) => r == Err::<SerializedPacket, _>(error),
            (Ok(_), Err(error)) => r == Err::<SerializedPacket, _>(error),
        },
{
    match written {
        Err(error) => Err(error),
        Ok(bytes) => match verdict {
            Err(error) => Err(error),
            Ok(_) => Ok(SerializedPacket::from_bytes(bytes)),
        },
    }
}

/// Why a preparation has no packet to give.
pub enum PreparationFailure {
    /// The packet could not be encoded.
    Encode(Arc<PacketEncodeError>),
    /// The chunk changed before its snapshot was taken.
    Obsolete,
}

impl Clone for PreparationFailure {
    fn clone(&self) -> (r: PreparationFailure)
        ensures
            r == *self,
    {
        match self {
            PreparationFailure::Encode(error) => PreparationFailure::Encode(error.clone()),
            PreparationFailure::Obsolete => PreparationFailure::Obsolete,
        }
    }
}

/// A serialized packet and what it is known by.
pub struct CachedSerializedPacket {
    pub key: SerializationKey,
    pub packet: Arc<SerializedPacket>,
}

impl Clone for CachedSerializedPacket {
    fn clone(&self) -> (r: CachedSerializedPacket)
        ensures
            r == *self,
    {
        CachedSerializedPacket { key: self.key, packet: self.packet.clone() }
    }
}

/// A prepared packet and the serialized packet that it was made from.
pub struct PreparedChunkPacket {
    pub serialized: CachedSerializedPacket,
    pub prepared: Arc<PreparedPacket>,
}

impl Clone for PreparedChunkPacket {
    fn clone(&self) -> (r: PreparedChunkPacket)
        ensures
            r == *self,
    {
        PreparedChunkPacket { serialized: self.serialized.clone(), prepared: self.prepared.clone() }
    }
}

/// A preparation in progress: who starts it does the work, everyone else waits for
/// the result.
pub struct PreparationCell<T> {
    pub started: bool,
    pub result: Option<Result<Arc<T>, PreparationFailure>>,
}

impl<T> Default for PreparationCell<T> {
    fn default() -> (cell: PreparationCell<T>)
        ensures
            !cell.started,
            cell.result is None,
    {
        PreparationCell { started: false, result: None }
    }
}

impl<T> PreparationCell<T> {
    /// Whether the preparation has a result.
    pub fn is_finished(&self) -> (r: bool)
        ensures
            r == (self.result is Some),
    {
        match self.result {
            Some(_) => true,
            None => false,
        }
    }

    /// Start the preparation; `false` where somebody else has.
    pub fn try_start(&mut self) -> (won: bool)
        ensures
            won == !old(self).started,
            *final(self) == old(self).after(CellEvent::Start),
            final(self).started,
            final(self).result == old(self).result,
    {
        if self.started {
            false
        } else {
            self.started = true;
            true
        }
    }

    /// The result, or `None` while the caller has to wait for it.
    pub fn wait(&self) -> (result: Option<Result<Arc<T>, PreparationFailure>>)
        ensures
            result == self.result,
    {
        match &self.result {
            Some(Ok(packet)) => Some(Ok(packet.clone())),
            Some(Err(failure)) => Some(Err(failure.clone())),
            None => None,
        }
    }

    /// Publish the result. The first one stays.
    pub fn finish(&mut self, result: Result<Arc<T>, PreparationFailure>)
        ensures
            *final(self) == old(self).after(CellEvent::Finish(result)),
            final(self).started == old(self).started,
            old(self).result is Some ==> final(self).result == old(self).result,
            old(self).result is None ==> final(self).result == Some(result),
    {
        if !self.is_finished() {
            self.result = Some(result);
        }
    }
}

/// What can happen to a cell.
pub enum CellEvent<T> {
    Start,
    Finish(Result<Arc<T>, PreparationFailure>),
}

impl<T> PreparationCell<T> {
    /// The cell after an event.
    pub open spec fn after(self, event: CellEvent<T>) -> PreparationCell<T> {
        match event {
            CellEvent::Start => PreparationCell { started: true, ..self },
            CellEvent::Finish(result) => PreparationCell {
                result: if self.result is Some {
                    self.result
                } else {
                    Some(result)
                },
                ..self
            },
        }
    }

    /// The cell after several events.
    pub open spec fn after_all(self, events: Seq<CellEvent<T>>) -> PreparationCell<T>
        decreases events.len(),
    {
        if events.len() == 0 {
            self
        } else {
            self.after_all(events.drop_last()).after(events.last())
        }
    }

    /// Event `i` starts the preparation: its caller has to do the work.
    pub open spec fn wins(self, events: Seq<CellEvent<T>>, i: int) -> bool {
        &&& 0 <= i < events.len()
        &&& events[i] is Start
        &&& !self.after_all(events.take(i)).started
    }
}

/// At most one of all who visit a cell does the work.
pub proof fn law_one_winner<T>(
    cell: PreparationCell<T>,
    events: Seq<CellEvent<T>>,
    i: int,
    j: int,
)
    requires
        cell.wins(events, i),
        cell.wins(events, j),
    ensures
        i == j,
    decreases events.len(),
{
    if i < j {
        lemma_started_stays(cell, events, i, j);
    } else if j < i {
        lemma_started_stays(cell, events, j, i);
    }
}

proof fn lemma_started_stays<T>(
    cell: PreparationCell<T>,
    events: Seq<CellEvent<T>>,
    i: int,
    j: int,
)
    requires
        0 <= i < j <= events.len(),
        events[i] is Start,
    ensures
        cell.after_all(events.take(j)).started,
    decreases j,
{
    assert(events.take(j).drop_last() =~= events.take(j - 1));
    if i < j - 1 {
        lemma_started_stays(cell, events, i, j - 1);
    }
}

/// The first result of a cell is what everyone gets, whatever is published later.
pub proof fn law_first_result_stays<T>(cell: PreparationCell<T>, events: Seq<CellEvent<T>>)
    requires
        cell.result is Some,
    ensures
        cell.after_all(events).result == cell.result,
    decreases events.len(),
{
    if events.len() > 0 {
        law_first_result_stays(cell, events.drop_last());
    }
}

/// A key tells the chunk, the revision and the version: keys are equal only where all
/// three are.
pub proof fn law_key_tells_snapshot_and_version(
    a: ChunkSnapshotIdentity,
    v: i32,
    b: ChunkSnapshotIdentity,
    w: i32,
)
    ensures
        SerializationKey::of(a, v) == SerializationKey::of(b, w) <==> a == b && v == w,
        SerializationKey::of(a, v).instance_id == a.instance_id,
        SerializationKey::of(a, v).revision == a.revision,
        SerializationKey::of(a, v).protocol_version == v,
{
}

} // verus!
