use crate::error::StoreError;
use crate::key::Serializable;
use crate::time_based_id_generator::wall_clock_seconds;
use vstd::bytes::{
    lemma_auto_spec_u32_to_from_le_bytes, spec_u32_from_le_bytes, spec_u32_to_le_bytes,
    u32_from_le_bytes, u32_to_le_bytes,
};
use vstd::prelude::*;

verus! {

/// Bytes taken by the tombstone flag at the end of a frame.
pub const TOMBSTONE_MARKER_SIZE: usize = 1;

/// Bytes taken by each of the three little-endian header fields.
pub const HEADER_FIELD_SIZE: usize = 4;

/// Bytes taken by the whole header: timestamp, key length, value length.
pub const HEADER_SIZE: usize = 12;

/// Tombstone byte of a live entry.
pub const LIVE: u8 = 0;

/// Tombstone byte of a deleted entry.
pub const DELETED: u8 = 1;

/// The value half of an entry: its bytes and its tombstone flag.
pub struct ValueReference {
    pub value: Vec<u8>,
    pub tombstone: u8,
}

/// One record of the log.
pub struct Entry<T> {
    pub key: T,
    pub value: ValueReference,
    /// Seconds since the epoch; 0 means "stamp with the clock when encoded".
    pub timestamp: u32,
}

/// The frame of one entry: the three header fields, then key, value and
/// tombstone byte. The value length field counts the tombstone byte.
pub open spec fn frame(timestamp: u32, key: Seq<u8>, value: Seq<u8>, tombstone: u8) -> Seq<u8> {
    spec_u32_to_le_bytes(timestamp) + spec_u32_to_le_bytes(key.len() as u32)
        + spec_u32_to_le_bytes((value.len() + 1) as u32) + key + value + seq![tombstone]
}

/// Length of a frame for a key and a value of the given lengths.
pub open spec fn frame_len(key_len: nat, value_len: nat) -> nat {
    (HEADER_SIZE + key_len + value_len + TOMBSTONE_MARKER_SIZE) as nat
}

/// Whether a frame with these lengths fits the 32-bit length fields.
pub open spec fn frame_len_ok(key_len: nat, value_len: nat) -> bool {
    frame_len(key_len, value_len) <= u32::MAX
}

/// The header field that starts at `at`.
pub open spec fn field_at(content: Seq<u8>, at: int) -> u32 {
    spec_u32_from_le_bytes(content.subrange(at, at + 4))
}

pub open spec fn frame_timestamp(content: Seq<u8>, off: int) -> u32 {
    field_at(content, off)
}

pub open spec fn frame_key_len(content: Seq<u8>, off: int) -> int {
    field_at(content, off + 4) as int
}

/// The value length field: value bytes plus the tombstone byte.
pub open spec fn frame_value_field(content: Seq<u8>, off: int) -> int {
    field_at(content, off + 8) as int
}

/// Where the key of the frame at `off` starts.
pub open spec fn frame_key_start(off: int) -> int {
    off + HEADER_SIZE
}

/// Where the value of the frame at `off` starts.
pub open spec fn frame_value_start(content: Seq<u8>, off: int) -> int {
    frame_key_start(off) + frame_key_len(content, off)
}

/// Where the tombstone byte of the frame at `off` stands.
pub open spec fn frame_tombstone_at(content: Seq<u8>, off: int) -> int {
    frame_value_start(content, off) + frame_value_field(content, off) - 1
}

/// Whether `content` holds a whole, well-formed frame at `off`: the header
/// fits, the value length field counts at least the tombstone byte, key,
/// value and tombstone byte stay inside the buffer, and the tombstone byte
/// is 0 or 1.
pub open spec fn frame_fits(content: Seq<u8>, off: int) -> bool {
    &&& 0 <= off
    &&& off + HEADER_SIZE <= content.len()
    &&& frame_value_field(content, off) >= 1
    &&& frame_tombstone_at(content, off) < content.len()
    &&& content[frame_tombstone_at(content, off)] <= DELETED
}

/// Total length of the frame at `off`.
pub open spec fn frame_total_len(content: Seq<u8>, off: int) -> int {
    frame_tombstone_at(content, off) + 1 - off
}

pub open spec fn frame_key(content: Seq<u8>, off: int) -> Seq<u8> {
    content.subrange(frame_key_start(off), frame_value_start(content, off))
}

pub open spec fn frame_value(content: Seq<u8>, off: int) -> Seq<u8> {
    content.subrange(frame_value_start(content, off), frame_tombstone_at(content, off))
}

pub open spec fn frame_tombstone(content: Seq<u8>, off: int) -> u8 {
    content[frame_tombstone_at(content, off)]
}

/// Decoding a frame gives back the timestamp, key bytes, value bytes and
/// tombstone byte that it was built from, and the frame is exactly as long
/// as its fields say.
pub proof fn lemma_frame_decodes(timestamp: u32, key: Seq<u8>, value: Seq<u8>, tombstone: u8)
    requires
        frame_len_ok(key.len(), value.len()),
    ensures
        tombstone <= DELETED <==> frame_fits(frame(timestamp, key, value, tombstone), 0),
        frame_total_len(frame(timestamp, key, value, tombstone), 0) == frame(
            timestamp,
            key,
            value,
            tombstone,
        ).len(),
        frame(timestamp, key, value, tombstone).len() == frame_len(key.len(), value.len()),
        frame_timestamp(frame(timestamp, key, value, tombstone), 0) == timestamp,
        frame_key(frame(timestamp, key, value, tombstone), 0) == key,
        frame_value(frame(timestamp, key, value, tombstone), 0) == value,
        frame_tombstone(frame(timestamp, key, value, tombstone), 0) == tombstone,
{
    lemma_auto_spec_u32_to_from_le_bytes();
    let f = frame(timestamp, key, value, tombstone);
    let t = spec_u32_to_le_bytes(timestamp);
    let k = spec_u32_to_le_bytes(key.len() as u32);
    let v = spec_u32_to_le_bytes((value.len() + 1) as u32);
    assert(f.subrange(0, 4) =~= t);
    assert(f.subrange(4, 8) =~= k);
    assert(f.subrange(8, 12) =~= v);
    assert(frame_key_len(f, 0) == key.len());
    assert(frame_value_field(f, 0) == value.len() + 1);
    assert(frame_key(f, 0) =~= key);
    assert(frame_value(f, 0) =~= value);
}

/// Any entry whose key has a byte form and whose frame fits survives an
/// encode and a decode: the frame is whole, its key bytes read back as the
/// key, and every decoded entry has the encoded key, value, tombstone and
/// the timestamp that was written.
pub proof fn lemma_entry_round_trip<T: Serializable>(e: Entry<T>, timestamp: u32, d: Entry<T>)
    requires
        e.value.tombstone <= DELETED,
        e.spec_encode_at(timestamp) is Ok,
    ensures
        frame_fits(e.spec_encode_at(timestamp)->Ok_0, 0),
        frame_total_len(e.spec_encode_at(timestamp)->Ok_0, 0) == e.spec_encode_at(
            timestamp,
        )->Ok_0.len(),
        T::spec_deserialize(frame_key(e.spec_encode_at(timestamp)->Ok_0, 0)) is Some,
        Entry::<T>::decodes_to(d, e.spec_encode_at(timestamp)->Ok_0, 0) ==> {
            &&& d.key@ == e.key@
            &&& d.value.value@ == e.value.value@
            &&& d.value.tombstone == e.value.tombstone
            &&& d.timestamp == timestamp
        },
{
    let kb = T::spec_serialize(e.key@).unwrap();
    lemma_frame_decodes(timestamp, kb, e.value.value@, e.value.tombstone);
    T::lemma_serialize_round_trip(e.key@);
}

/// A live entry, as `Entry::new` makes it, decodes to its own key and
/// value and is not marked deleted.
pub proof fn lemma_live_round_trip<T: Serializable>(e: Entry<T>, timestamp: u32, d: Entry<T>)
    requires
        e.value.tombstone == LIVE,
        e.spec_encode_at(timestamp) is Ok,
    ensures
        frame_fits(e.spec_encode_at(timestamp)->Ok_0, 0),
        T::spec_deserialize(frame_key(e.spec_encode_at(timestamp)->Ok_0, 0)) is Some,
        Entry::<T>::decodes_to(d, e.spec_encode_at(timestamp)->Ok_0, 0) ==> {
            &&& d.key@ == e.key@
            &&& d.value.value@ == e.value.value@
            &&& d.value.tombstone == LIVE
        },
{
    lemma_entry_round_trip(e, timestamp, d);
}

/// A tombstone, as `Entry::new_deleted_entry` makes it, decodes as deleted
/// with an empty value.
pub proof fn lemma_tombstone_round_trip<T: Serializable>(e: Entry<T>, timestamp: u32, d: Entry<T>)
    requires
        e.value.tombstone == DELETED,
        e.value.value@.len() == 0,
        e.spec_encode_at(timestamp) is Ok,
    ensures
        frame_fits(e.spec_encode_at(timestamp)->Ok_0, 0),
        T::spec_deserialize(frame_key(e.spec_encode_at(timestamp)->Ok_0, 0)) is Some,
        Entry::<T>::decodes_to(d, e.spec_encode_at(timestamp)->Ok_0, 0) ==> {
            &&& d.key@ == e.key@
            &&& d.value.value@.len() == 0
            &&& d.value.tombstone == DELETED
        },
{
    lemma_entry_round_trip(e, timestamp, d);
}

/// A buffer too short for the header past `off` never holds a frame there,
/// so decoding it fails with `CorruptFrame`.
pub proof fn lemma_short_buffer_is_corrupt(content: Seq<u8>, off: int)
    requires
        content.len() < off + HEADER_SIZE,
    ensures
        !frame_fits(content, off),
{
}

/// Appends the bytes of `src` to `dst`.
fn push_all(dst: &mut Vec<u8>, src: &[u8])
    ensures
        final(dst)@ == old(dst)@ + src@,
{
    let mut i: usize = 0;
    while i < src.len()
        invariant
            i <= src@.len(),
            dst@ == old(dst)@ + src@.subrange(0, i as int),
        decreases src@.len() - i,
    {
        dst.push(src[i]);
        i = i + 1;
        assert(dst@ =~= old(dst)@ + src@.subrange(0, i as int));
    }
    assert(src@.subrange(0, i as int) =~= src@);
}

/// Copies `content[start..end]` into a new vector.
fn copy_range(content: &Vec<u8>, start: usize, end: usize) -> (r: Vec<u8>)
    requires
        start <= end <= content@.len(),
    ensures
        r@ == content@.subrange(start as int, end as int),
{
    let mut r: Vec<u8> = Vec::with_capacity(end - start);
    let mut i: usize = start;
    while i < end
        invariant
            start <= i <= end <= content@.len(),
            r@ == content@.subrange(start as int, i as int),
        decreases end - i,
    {
        r.push(content[i]);
        i = i + 1;
        assert(r@ =~= content@.subrange(start as int, i as int));
    }
    r
}

/// The total length of the frame at `off`.
pub fn frame_length_at(content: &Vec<u8>, off: usize) -> (r: u64)
    requires
        frame_fits(content@, off as int),
    ensures
        r == frame_total_len(content@, off as int),
{
    let _len = content.len();
    let key_size = read_field(content, off + HEADER_FIELD_SIZE) as u64;
    let value_field = read_field(content, off + 2 * HEADER_FIELD_SIZE) as u64;
    HEADER_SIZE as u64 + key_size + value_field
}

/// Reads the header field that starts at `at`.
fn read_field(content: &Vec<u8>, at: usize) -> (r: u32)
    requires
        at + 4 <= content@.len(),
    ensures
        r == field_at(content@, at as int),
{
    let s = content.as_slice();
    let _len = s.len();
    u32_from_le_bytes(&s[at..at + 4])
}

impl<T: Serializable> Entry<T> {
    /// A live entry, stamped with the clock when encoded.
    pub fn new(key: T, value: Vec<u8>) -> (r: Entry<T>)
        ensures
            r.key == key,
            r.value.value == value,
            r.value.tombstone == LIVE,
            r.timestamp == 0,
    {
        Entry { key, value: ValueReference { value, tombstone: LIVE }, timestamp: 0 }
    }

    /// A live entry that keeps the given timestamp.
    pub fn new_preserving_timestamp(key: T, value: Vec<u8>, timestamp: u32) -> (r: Entry<T>)
        ensures
            r.key == key,
            r.value.value == value,
            r.value.tombstone == LIVE,
            r.timestamp == timestamp,
    {
        Entry { key, value: ValueReference { value, tombstone: LIVE }, timestamp }
    }

    /// A tombstone for `key`: deleted, with an empty value.
    pub fn new_deleted_entry(key: T) -> (r: Entry<T>)
        ensures
            r.key == key,
            r.value.value@.len() == 0,
            r.value.tombstone == DELETED,
            r.timestamp == 0,
    {
        Entry { key, value: ValueReference { value: Vec::new(), tombstone: DELETED }, timestamp: 0 }
    }

    /// Whether this entry records a deletion.
    pub fn is_deleted(&self) -> (r: bool)
        ensures
            r == (self.value.tombstone != LIVE),
    {
        self.value.tombstone != LIVE
    }

    /// The frame of this entry with the given timestamp, when the key has a
    /// byte form and the frame fits the length fields.
    pub open spec fn spec_encode_at(&self, timestamp: u32) -> Result<Seq<u8>, StoreError> {
        match T::spec_serialize(self.key@) {
            None => Err(StoreError::KeySerializationFailure),
            Some(kb) => if frame_len_ok(kb.len(), self.value.value@.len()) {
                Ok(frame(timestamp, kb, self.value.value@, self.value.tombstone))
            } else {
                Err(StoreError::EntryTooLarge)
            },
        }
    }

    /// Encodes this entry with the given timestamp.
    pub fn encode_at(&self, timestamp: u32) -> (r: Result<Vec<u8>, StoreError>)
        ensures
            r is Ok <==> self.spec_encode_at(timestamp) is Ok,
            r is Ok ==> r->Ok_0@ == self.spec_encode_at(timestamp)->Ok_0,
            r is Err ==> r->Err_0 == self.spec_encode_at(timestamp)->Err_0,
    {
        let serialized_key = self.key.serialize()?;
        let key_size = serialized_key.len();
        let value_size = self.value.value.len();
        if key_size > u32::MAX as usize - HEADER_SIZE - TOMBSTONE_MARKER_SIZE
            || value_size > u32::MAX as usize - HEADER_SIZE - TOMBSTONE_MARKER_SIZE - key_size {
            return Err(StoreError::EntryTooLarge);
        }
        let mut encoded: Vec<u8> = Vec::with_capacity(
            HEADER_SIZE + key_size + value_size + TOMBSTONE_MARKER_SIZE,
        );
        let ts = u32_to_le_bytes(timestamp);
        let ks = u32_to_le_bytes(key_size as u32);
        let vs = u32_to_le_bytes((value_size + TOMBSTONE_MARKER_SIZE) as u32);
        push_all(&mut encoded, ts.as_slice());
        push_all(&mut encoded, ks.as_slice());
        push_all(&mut encoded, vs.as_slice());
        push_all(&mut encoded, serialized_key.as_slice());
        push_all(&mut encoded, self.value.value.as_slice());
        encoded.push(self.value.tombstone);
        assert(encoded@ =~= frame(
            timestamp,
            serialized_key@,
            self.value.value@,
            self.value.tombstone,
        ));
        Ok(encoded)
    }

    /// Encodes this entry. A timestamp of 0 is replaced by the wall-clock
    /// time in the frame (the entry itself is left as it is; a clock that
    /// reads before the epoch gives 0); any other timestamp is written as it
    /// stands.
    pub fn encode(&mut self) -> (r: Result<Vec<u8>, StoreError>)
        ensures
            *final(self) == *old(self),
            r is Ok <==> old(self).spec_encode_at(0) is Ok,
            r is Err ==> r->Err_0 == old(self).spec_encode_at(0)->Err_0,
            r is Ok ==> r->Ok_0@ == old(self).spec_encode_at(frame_timestamp(r->Ok_0@, 0))->Ok_0,
            r is Ok && old(self).timestamp != 0 ==> r->Ok_0@ == old(self).spec_encode_at(
                old(self).timestamp,
            )->Ok_0,
    {
        let timestamp = if self.timestamp == 0 {
            match wall_clock_seconds() {
                Some(seconds) => #[verifier::truncate]
                (seconds as u32),
                None => 0,
            }
        } else {
            self.timestamp
        };
        let r = self.encode_at(timestamp);
        proof {
            if r is Ok {
                let kb = T::spec_serialize(self.key@).unwrap();
                lemma_frame_decodes(timestamp, kb, self.value.value@, self.value.tombstone);
            }
        }
        r
    }

    /// Whether `e` is what the frame at `off` of `content` holds.
    pub open spec fn decodes_to(e: Entry<T>, content: Seq<u8>, off: int) -> bool {
        &&& T::spec_deserialize(frame_key(content, off)) == Some(e.key@)
        &&& e.value.value@ == frame_value(content, off)
        &&& e.value.tombstone == frame_tombstone(content, off)
        &&& e.timestamp == frame_timestamp(content, off)
    }

    /// Decodes the frame that starts at `offset` of `content`. Fails with
    /// `CorruptFrame` when no whole frame stands there, and with the key's
    /// own error when its bytes do not read back as a key.
    pub fn decode(content: Vec<u8>, offset: u32) -> (r: Result<Entry<T>, StoreError>)
        ensures
            !frame_fits(content@, offset as int) <==> r == Err::<Entry<T>, StoreError>(
                StoreError::CorruptFrame,
            ),
            frame_fits(content@, offset as int) ==> {
                &&& r is Ok <==> T::spec_deserialize(frame_key(content@, offset as int)) is Some
                &&& r is Ok ==> Self::decodes_to(r->Ok_0, content@, offset as int)
                &&& r is Err ==> r->Err_0 == StoreError::KeySerializationFailure
            },
    {
        Self::decode_at(&content, offset as usize)
    }

    /// As `decode`, on a borrowed buffer and a `usize` offset.
    pub fn decode_at(content: &Vec<u8>, off: usize) -> (r: Result<Entry<T>, StoreError>)
        ensures
            !frame_fits(content@, off as int) <==> r == Err::<Entry<T>, StoreError>(
                StoreError::CorruptFrame,
            ),
            frame_fits(content@, off as int) ==> {
                &&& r is Ok <==> T::spec_deserialize(frame_key(content@, off as int)) is Some
                &&& r is Ok ==> Self::decodes_to(r->Ok_0, content@, off as int)
                &&& r is Err ==> r->Err_0 == StoreError::KeySerializationFailure
            },
    {
        let len = content.len();
        if off > len || len - off < HEADER_SIZE {
            return Err(StoreError::CorruptFrame);
        }
        let timestamp = read_field(content, off);
        let key_size = read_field(content, off + HEADER_FIELD_SIZE) as usize;
        let value_field = read_field(content, off + 2 * HEADER_FIELD_SIZE) as usize;
        if value_field < TOMBSTONE_MARKER_SIZE {
            return Err(StoreError::CorruptFrame);
        }
        let key_start = off + HEADER_SIZE;
        if key_size > len - key_start {
            return Err(StoreError::CorruptFrame);
        }
        let value_start = key_start + key_size;
        if value_field > len - value_start {
            return Err(StoreError::CorruptFrame);
        }
        let tombstone_at = value_start + value_field - TOMBSTONE_MARKER_SIZE;
        let tombstone = content[tombstone_at];
        if tombstone > DELETED {
            return Err(StoreError::CorruptFrame);
        }
        let key_bytes = copy_range(content, key_start, value_start);
        let value = copy_range(content, value_start, tombstone_at);
        let key = T::deserialize(key_bytes)?;
        Ok(Entry { key, value: ValueReference { value, tombstone }, timestamp })
    }
}

} // verus!
