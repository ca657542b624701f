use crate::entry::{
    frame_fits, frame_key, frame_length_at, frame_tombstone, frame_total_len, frame_value,
    lemma_frame_decodes, Entry, ValueReference, DELETED, LIVE,
};
use crate::error::StoreError;
use crate::key::{key_model_ok, Serializable};
use crate::key_directory::KeyDirectory;
use crate::replay::{
    apply_frame, apply_location, frame_location, frames_ok, lemma_frame_moves,
    lemma_locations_agree, lemma_locations_append, lemma_replay_append, replay_all,
    replay_all_locations, replay_locations, replay_segment,
};
use crate::segment::AppendEntryResponse;
use crate::segments::Segments;
use vstd::prelude::*;

verus! {

/// The bytes that a read of `loc` returns from the segment files `logs`.
pub open spec fn stored(logs: Map<u64, Seq<u8>>, loc: AppendEntryResponse) -> Seq<u8> {
    logs[loc.file_id].subrange(loc.start(), loc.end())
}

/// Whether `loc` covers, in `logs`, exactly one whole live frame of key `k`
/// with value `v`.
pub open spec fn located<K: Serializable>(
    logs: Map<u64, Seq<u8>>,
    loc: AppendEntryResponse,
    k: K::V,
    v: Seq<u8>,
) -> bool {
    &&& logs.contains_key(loc.file_id)
    &&& 0 <= loc.start()
    &&& loc.end() <= logs[loc.file_id].len()
    &&& frame_fits(stored(logs, loc), 0)
    &&& frame_total_len(stored(logs, loc), 0) == loc.entry_length
    &&& K::spec_deserialize(frame_key(stored(logs, loc), 0)) == Some(k)
    &&& frame_value(stored(logs, loc), 0) == v
    &&& frame_tombstone(stored(logs, loc), 0) == LIVE
}

pub open spec fn strictly_increasing(s: Seq<u64>) -> bool {
    forall|i: int, j: int| 0 <= i < j < s.len() ==> s[i] < s[j]
}

/// The value a get of `k` returns from a store whose contents are `m`.
pub open spec fn lookup<A>(m: Map<A, Seq<u8>>, k: A) -> Option<Seq<u8>> {
    if m.contains_key(k) {
        Some(m[k])
    } else {
        None
    }
}

/// The distinct ids of `ids`, in increasing order.
pub fn sorted_ids(ids: &Vec<u64>) -> (r: Vec<u64>)
    ensures
        strictly_increasing(r@),
        forall|x: u64| r@.contains(x) <==> ids@.contains(x),
{
    let mut r: Vec<u64> = Vec::new();
    let mut i: usize = 0;
    while i < ids.len()
        invariant
            i <= ids@.len(),
            strictly_increasing(r@),
            forall|x: u64| r@.contains(x) <==> ids@.subrange(0, i as int).contains(x),
        decreases ids@.len() - i,
    {
        let x = ids[i];
        let mut j: usize = 0;
        while j < r.len() && r[j] < x
            invariant
                j <= r@.len(),
                forall|k: int| 0 <= k < j ==> r@[k] < x,
            decreases r@.len() - j,
        {
            j = j + 1;
        }
        let ghost before = r@;
        if j < r.len() && r[j] == x {
        } else {
            r.insert(j, x);
            proof {
                assert(r@ == before.insert(j as int, x));
                assert forall|a: int, b: int| 0 <= a < b < r@.len() implies r@[a] < r@[b] by {
                    if j < before.len() {
                        assert(before[j as int] > x);
                    }
                }
            }
        }
        proof {
            let prefix = ids@.subrange(0, i + 1);
            assert(prefix == ids@.subrange(0, i as int).push(x));
            assert forall|y: u64| r@.contains(y) <==> prefix.contains(y) by {
                if r@.contains(y) {
                    let k = choose|k: int| 0 <= k < r@.len() && r@[k] == y;
                    if y != x {
                        if j < before.len() && before[j as int] == x {
                            assert(before.contains(y));
                        } else {
                            if k < j {
                                assert(before[k] == y);
                            } else {
                                assert(before[k - 1] == y);
                            }
                            assert(before.contains(y));
                        }
                        assert(ids@.subrange(0, i as int).contains(y));
                        let m = choose|m: int| 0 <= m < i && ids@.subrange(0, i as int)[m] == y;
                        assert(prefix[m] == y);
                    } else {
                        assert(prefix[i as int] == y);
                    }
                }
                if prefix.contains(y) {
                    let m = choose|m: int| 0 <= m < prefix.len() && prefix[m] == y;
                    if m < i {
                        assert(ids@.subrange(0, i as int)[m] == y);
                        assert(before.contains(y));
                        let k = choose|k: int| 0 <= k < before.len() && before[k] == y;
                        if j < before.len() && before[j as int] == x {
                            assert(r@[k] == y);
                        } else if k < j {
                            assert(r@[k] == y);
                        } else {
                            assert(r@[k + 1] == y);
                        }
                    } else {
                        if j < before.len() && before[j as int] == x {
                            assert(r@[j as int] == y);
                        } else {
                            assert(r@[j as int] == y);
                        }
                    }
                }
            }
        }
        i = i + 1;
    }
    assert(ids@.subrange(0, i as int) =~= ids@);
    r
}

/// The first index of `found` whose id is `id`.
fn position_of(found: &Vec<(u64, Vec<u8>)>, id: u64) -> (r: usize)
    requires
        exists|i: int| 0 <= i < found@.len() && found@[i].0 == id,
    ensures
        r < found@.len(),
        found@[r as int].0 == id,
{
    let mut i: usize = 0;
    while i < found.len()
        invariant
            i <= found@.len(),
            forall|k: int| 0 <= k < i ==> found@[k].0 != id,
            exists|k: int| 0 <= k < found@.len() && found@[k].0 == id,
        decreases found@.len() - i,
    {
        if found[i].0 == id {
            return i;
        }
        i = i + 1;
    }
    proof {
        let k = choose|k: int| 0 <= k < found@.len() && found@[k].0 == id;
        assert(found@[k].0 != id);
    }
    0
}

/// Whether no two of the found segment files share an id.
pub open spec fn ids_unique(found: Seq<(u64, Vec<u8>)>) -> bool {
    forall|i: int, j: int| 0 <= i < j < found.len() ==> found[i].0 != found[j].0
}

/// The found segment files as a map from id to bytes.
pub open spec fn found_logs(found: Seq<(u64, Vec<u8>)>) -> Map<u64, Seq<u8>> {
    Map::new(
        |id: u64| exists|i: int| 0 <= i < found.len() && found[i].0 == id,
        |id: u64| found[choose|i: int| 0 <= i < found.len() && found[i].0 == id].1@,
    )
}

/// Each found file stands in `found_logs` under its own id.
pub proof fn lemma_found_logs_at(found: Seq<(u64, Vec<u8>)>, at: int)
    requires
        ids_unique(found),
        0 <= at < found.len(),
    ensures
        found_logs(found).contains_key(found[at].0),
        found_logs(found)[found[at].0] == found[at].1@,
{
    let id = found[at].0;
    assert(exists|i: int| 0 <= i < found.len() && found[i].0 == id);
    let c = choose|i: int| 0 <= i < found.len() && found[i].0 == id;
    if c < at {
        assert(found[c].0 != found[at].0);
    } else if c > at {
        assert(found[at].0 != found[c].0);
    }
}

/// Whether a found segment file can be taken up: it fits a segment and
/// is a run of whole frames.
pub open spec fn recoverable<K: Serializable>(bytes: Seq<u8>) -> bool {
    bytes.len() <= i64::MAX && frames_ok::<K>(bytes, 0)
}

/// A write that has been decided on and framed, and waits for its bytes to
/// be appended to the file of segment `segment_id`.
pub struct PendingWrite<K> {
    pub segment_id: u64,
    pub bytes: Vec<u8>,
    pub key: K,
    pub deleted: bool,
    pub value: Ghost<Seq<u8>>,
}

impl<K: Serializable> PendingWrite<K> {
    /// The bytes are one whole frame of this key and value, live or a
    /// tombstone as `deleted` says.
    pub open spec fn wf(&self) -> bool {
        &&& self.bytes@.len() <= u32::MAX
        &&& frame_fits(self.bytes@, 0)
        &&& frame_total_len(self.bytes@, 0) == self.bytes@.len()
        &&& K::spec_deserialize(frame_key(self.bytes@, 0)) == Some(self.key@)
        &&& frame_value(self.bytes@, 0) == self.value@
        &&& frame_tombstone(self.bytes@, 0) == if self.deleted {
            DELETED
        } else {
            LIVE
        }
    }

    /// The bytes to append.
    pub fn bytes(&self) -> (r: &Vec<u8>)
        ensures
            r == &self.bytes,
    {
        &self.bytes
    }

    /// The segment whose file the bytes go to.
    pub fn segment_id(&self) -> (r: u64)
        ensures
            r == self.segment_id,
    {
        self.segment_id
    }
}

/// The store: the segment manager, the key directory, and, as ghost state,
/// the contents of the store and the ids of its segments, oldest first.
#[verifier::reject_recursive_types(K)]
pub struct KVStore<K: Serializable> {
    pub segments: Segments,
    pub directory: KeyDirectory<K>,
    pub values: Ghost<Map<K::V, Seq<u8>>>,
    pub order: Ghost<Seq<u64>>,
}

impl<K: Serializable> View for KVStore<K> {
    type V = Map<K::V, Seq<u8>>;

    open spec fn view(&self) -> Map<K::V, Seq<u8>> {
        self.values@
    }
}

impl<K: Serializable> KVStore<K> {
    /// The segment files' bytes, oldest segment first.
    pub open spec fn ordered_logs(&self) -> Seq<Seq<u8>> {
        self.order@.map_values(|id: u64| self.segments.logs()[id])
    }

    /// The segments are listed oldest first, the active one last; every
    /// file is a run of whole frames; the contents are what replaying the
    /// files in that order gives; the directory is what replaying their
    /// locations gives, so it points every live key at its most recent
    /// frame; and that frame holds the key's current value.
    pub open spec fn wf(&self) -> bool {
        &&& key_model_ok::<K>()
        &&& self.segments.wf()
        &&& self.order@.len() > 0
        &&& strictly_increasing(self.order@)
        &&& self.order@.last() == self.segments.active_id()
        &&& forall|id: u64| #[trigger]
            self.segments.logs().contains_key(id) <==> self.order@.contains(id)
        &&& forall|id: u64| #[trigger]
            self.segments.logs().contains_key(id) ==> frames_ok::<K>(self.segments.logs()[id], 0)
        &&& self.values@ == replay_all::<K>(self.ordered_logs())
        &&& self.directory@ == replay_all_locations::<K>(self.order@, self.segments.logs())
        &&& self.directory@.dom() == self.values@.dom()
        &&& forall|k: K::V| #[trigger]
            self.directory@.contains_key(k) ==> located::<K>(
                self.segments.logs(),
                self.directory@[k],
                k,
                self.values@[k],
            )
    }

    /// An empty store with one new, empty segment.
    pub fn new(max_segment_size: u32) -> (r: KVStore<K>)
        requires
            key_model_ok::<K>(),
        ensures
            r.wf(),
            r@ == Map::<K::V, Seq<u8>>::empty(),
            r.segments.max_segment_size == max_segment_size,
            r.segments.sealed() == Map::<u64, crate::segment::Segment>::empty(),
            r.segments.id_generator.last_issued() <= i64::MAX,
            r.segments.logs() == Map::<u64, Seq<u8>>::empty().insert(
                r.segments.active_id(),
                Seq::<u8>::empty(),
            ),
    {
        let segments = Segments::new(max_segment_size);
        let ghost first = segments.active_id();
        let r = KVStore {
            segments,
            directory: KeyDirectory::new(),
            values: Ghost(Map::empty()),
            order: Ghost(Seq::<u64>::empty().push(first)),
        };
        proof {
            let logs = r.ordered_logs();
            assert(logs.drop_last() =~= Seq::<Seq<u8>>::empty());
            assert(logs.last() == Seq::<u8>::empty());
            assert(replay_all::<K>(logs.drop_last()) == Map::<K::V, Seq<u8>>::empty());
            assert(!frame_fits(Seq::<u8>::empty(), 0));
            assert(replay_all::<K>(logs) == replay_segment::<K>(
                Map::empty(),
                Seq::<u8>::empty(),
                0,
            ));
            assert(r.directory@.dom() =~= r.values@.dom());
            assert(r.order@.drop_last() =~= Seq::<u64>::empty());
            assert(replay_all_locations::<K>(r.order@.drop_last(), r.segments.logs())
                == Map::<K::V, AppendEntryResponse>::empty());
            assert(!frame_fits(r.segments.logs()[first], 0));
            assert(replay_locations::<K>(
                Map::<K::V, AppendEntryResponse>::empty(),
                first,
                r.segments.logs()[first],
                0,
            ) == Map::<K::V, AppendEntryResponse>::empty());
            assert forall|id: u64| #[trigger]
                r.segments.logs().contains_key(id) implies frames_ok::<K>(
                r.segments.logs()[id],
                0,
            ) by {}
            assert forall|id: u64| r.order@.contains(id) implies #[trigger]
                r.segments.logs().contains_key(id) by {
                assert(r.order@[0] == id);
            }
        }
        r
    }

    /// The rollover check before a write, keeping the store's contents:
    /// fails with `IdsExhausted`, changing nothing, exactly when the active
    /// segment must be sealed and no id is left; otherwise it is
    /// `Segments::roll_step`.
    pub fn roll_over_if_needed(&mut self) -> (r: Result<(), StoreError>)
        requires
            old(self).wf(),
        ensures
            final(self).wf(),
            final(self)@ == old(self)@,
            final(self).directory@ == old(self).directory@,
            r is Err <==> old(self).segments.should_roll() && old(self).segments.ids_exhausted(),
            r is Err ==> r->Err_0 == StoreError::IdsExhausted && *final(self) == *old(self),
            r is Ok ==> Segments::roll_step(old(self).segments, final(self).segments),
    {
        let rolls = self.segments.active_segment.write_offset()
            >= self.segments.max_segment_size as u64;
        let r = self.segments.maybe_roll_over_active_segment();
        if r.is_err() {
            return r;
        }
        if rolls {
            let ghost old_logs = old(self).ordered_logs();
            let ghost new_id = self.segments.active_id();
            self.order = Ghost(self.order@.push(new_id));
            proof {
                let logs = self.segments.logs();
                let ol = old(self).segments.logs();
                assert(self.ordered_logs().drop_last() =~= old_logs) by {
                    assert forall|i: int| 0 <= i < old_logs.len() implies
                        self.ordered_logs().drop_last()[i] == old_logs[i] by {
                        assert(old(self).order@.contains(old(self).order@[i]));
                    }
                }
                assert(self.ordered_logs().last() == Seq::<u8>::empty());
                assert forall|i: int| 0 <= i < old(self).order@.len() implies logs[
                    #[trigger] old(self).order@[i]] == ol[old(self).order@[i]] by {
                    assert(old(self).order@.contains(old(self).order@[i]));
                }
                lemma_locations_agree::<K>(old(self).order@, logs, ol);
                assert(self.order@.drop_last() =~= old(self).order@);
                assert(replay_locations::<K>(
                    self.directory@,
                    new_id,
                    Seq::<u8>::empty(),
                    0,
                ) == self.directory@);
                assert(!frame_fits(Seq::<u8>::empty(), 0));
                assert(replay_segment::<K>(self.values@, Seq::<u8>::empty(), 0) == self.values@);
                assert forall|id: u64| #[trigger] logs.contains_key(id) <==> self.order@.contains(id) by {
                    if self.order@.contains(id) && id != new_id {
                        let i = choose|i: int| 0 <= i < self.order@.len() && self.order@[i] == id;
                        assert(i < old(self).order@.len());
                        assert(old(self).order@.contains(id));
                    }
                    if logs.contains_key(id) && id != new_id {
                        assert(old(self).order@.contains(id));
                        let i = choose|i: int| 0 <= i < old(self).order@.len() && old(self).order@[i] == id;
                        assert(self.order@[i] == id);
                    }
                }
                assert forall|id: u64| #[trigger] logs.contains_key(id) implies frames_ok::<K>(logs[id], 0) by {
                    if id != new_id {
                        assert(ol.contains_key(id));
                    }
                }
                assert forall|k: K::V| #[trigger] self.directory@.contains_key(k) implies located::<K>(
                    logs,
                    self.directory@[k],
                    k,
                    self.values@[k],
                ) by {
                    assert(located::<K>(ol, self.directory@[k], k, self.values@[k]));
                }
            }
        }
        Ok(())
    }

    /// Whether an entry of this key and a value of this length has a frame:
    /// the key has a byte form and the frame fits the length fields.
    pub open spec fn frame_ok(key: K::V, value_len: nat) -> bool {
        &&& K::spec_serialize(key) is Some
        &&& crate::entry::frame_len_ok(K::spec_serialize(key).unwrap().len(), value_len)
    }

    /// The error of an entry that has no frame.
    pub open spec fn frame_error(key: K::V) -> StoreError {
        if K::spec_serialize(key) is None {
            StoreError::KeySerializationFailure
        } else {
            StoreError::EntryTooLarge
        }
    }

    /// What the first half of a write does: the rollover check, then the
    /// framing of the entry for the active segment.
    pub open spec fn staged(
        old: KVStore<K>,
        new: KVStore<K>,
        key: K::V,
        value: Seq<u8>,
        deleted: bool,
        r: Result<PendingWrite<K>, StoreError>,
    ) -> bool {
        &&& new.wf()
        &&& new@ == old@
        &&& new.directory@ == old.directory@
        &&& if old.segments.should_roll() && old.segments.ids_exhausted() {
            &&& r == Err::<PendingWrite<K>, StoreError>(StoreError::IdsExhausted)
            &&& new == old
        } else {
            &&& Segments::roll_step(old.segments, new.segments)
            &&& r is Ok <==> Self::frame_ok(key, value.len())
            &&& r is Err ==> r->Err_0 == Self::frame_error(key)
            &&& r is Ok ==> {
                &&& r->Ok_0.wf()
                &&& r->Ok_0.bytes@ == crate::entry::frame(
                    crate::entry::frame_timestamp(r->Ok_0.bytes@, 0),
                    K::spec_serialize(key).unwrap(),
                    value,
                    if deleted {
                        DELETED
                    } else {
                        LIVE
                    },
                )
                &&& r->Ok_0.key@ == key
                &&& r->Ok_0.value@ == value
                &&& r->Ok_0.deleted == deleted
                &&& r->Ok_0.segment_id == new.segments.active_id()
            }
        }
    }

    fn stage(&mut self, entry: Entry<K>) -> (r: Result<PendingWrite<K>, StoreError>)
        requires
            old(self).wf(),
            entry.timestamp == 0,
            entry.value.tombstone <= DELETED,
        ensures
            Self::staged(
                *old(self),
                *final(self),
                entry.key@,
                entry.value.value@,
                entry.value.tombstone == DELETED,
                r,
            ),
    {
        match self.roll_over_if_needed() {
            Ok(()) => {},
            Err(e) => return Err(e),
        }
        let mut entry = entry;
        let bytes = match entry.encode() {
            Ok(b) => b,
            Err(e) => return Err(e),
        };
        let Entry { key, value: ValueReference { value, tombstone }, timestamp: _ } = entry;
        proof {
            let kb = K::spec_serialize(key@).unwrap();
            lemma_frame_decodes(crate::entry::frame_timestamp(bytes@, 0), kb, value@, tombstone);
            K::lemma_serialize_round_trip(key@);
        }
        Ok(PendingWrite {
            segment_id: self.segments.active_segment_id(),
            bytes,
            key,
            deleted: tombstone == DELETED,
            value: Ghost(value@),
        })
    }

    /// First half of a put: runs the rollover check and frames a live entry
    /// of `key` and `value` for the active segment. The bytes are then to be
    /// appended to that segment's file, and the outcome handed to
    /// `commit_write`.
    pub fn prepare_put(&mut self, key: K, value: Vec<u8>) -> (r: Result<PendingWrite<K>, StoreError>)
        requires
            old(self).wf(),
        ensures
            Self::staged(*old(self), *final(self), key@, value@, false, r),
    {
        self.stage(Entry::new(key, value))
    }

    /// First half of a delete: as `prepare_put`, for a tombstone of `key`
    /// with an empty value.
    pub fn prepare_delete(&mut self, key: K) -> (r: Result<PendingWrite<K>, StoreError>)
        requires
            old(self).wf(),
        ensures
            Self::staged(*old(self), *final(self), key@, Seq::<u8>::empty(), true, r),
    {
        let entry = Entry::new_deleted_entry(key);
        proof {
            assert(entry.value.value@ =~= Seq::<u8>::empty());
        }
        self.stage(entry)
    }

    /// What a write does to the contents: a put sets the key, a delete
    /// removes it.
    pub open spec fn after_write(m: Map<K::V, Seq<u8>>, p: PendingWrite<K>) -> Map<K::V, Seq<u8>> {
        if p.deleted {
            m.remove(p.key@)
        } else {
            m.insert(p.key@, p.value@)
        }
    }

    /// Second half of a write: the file of segment `pending.segment_id` took
    /// `written` of the pending bytes. A write to a segment other than the
    /// active one fails with `UnknownSegment`, a short write with
    /// `ShortWrite`, a segment past `i64::MAX` bytes with `EntryTooLarge`;
    /// each failure changes nothing. Otherwise the frame joins the active
    /// segment, the key directory points a put's key at it or drops a
    /// deleted key, and the location is returned.
    pub fn commit_write(&mut self, pending: PendingWrite<K>, written: usize) -> (r: Result<
        AppendEntryResponse,
        StoreError,
    >)
        requires
            old(self).wf(),
            pending.wf(),
        ensures
            final(self).wf(),
            pending.segment_id != old(self).segments.active_id() ==> r == Err::<
                AppendEntryResponse,
                StoreError,
            >(StoreError::UnknownSegment),
            pending.segment_id == old(self).segments.active_id() && written
                < pending.bytes@.len() ==> r == Err::<AppendEntryResponse, StoreError>(
                StoreError::ShortWrite,
            ),
            pending.segment_id == old(self).segments.active_id() && written
                >= pending.bytes@.len() && old(self).segments.logs()[pending.segment_id].len()
                + pending.bytes@.len() > i64::MAX ==> r == Err::<AppendEntryResponse, StoreError>(
                StoreError::EntryTooLarge,
            ),
            r is Err ==> *final(self) == *old(self),
            r is Err ==> pending.segment_id != old(self).segments.active_id() || written
                < pending.bytes@.len() || old(self).segments.logs()[pending.segment_id].len()
                + pending.bytes@.len() > i64::MAX,
            r is Ok ==> {
                &&& final(self)@ == Self::after_write(old(self)@, pending)
                &&& final(self).directory@ == if pending.deleted {
                    old(self).directory@.remove(pending.key@)
                } else {
                    old(self).directory@.insert(pending.key@, r->Ok_0)
                }
                &&& Segments::append_step(old(self).segments, final(self).segments, pending.bytes@)
                &&& r->Ok_0.file_id == pending.segment_id
                &&& r->Ok_0.offset == old(self).segments.logs()[pending.segment_id].len()
                &&& r->Ok_0.entry_length == pending.bytes@.len()
                &&& stored(final(self).segments.logs(), r->Ok_0) == pending.bytes@
            },
    {
        let PendingWrite { segment_id, bytes, key, deleted, value } = pending;
        let loc = match self.segments.record_append(segment_id, &bytes, written) {
            Ok(loc) => loc,
            Err(e) => return Err(e),
        };
        let ghost ol = old(self).segments.logs();
        let ghost a = segment_id;
        let ghost old_values = self.values@;
        let ghost old_dir = self.directory@;
        proof {
            let logs = self.segments.logs();
            let old_ordered = old(self).ordered_logs();
            assert(stored(logs, loc) =~= bytes@);
            assert(ol.contains_key(a));
            assert(frames_ok::<K>(ol[a], 0));
            lemma_replay_append::<K>(
                replay_all::<K>(old_ordered.drop_last()),
                ol[a],
                0,
                bytes@,
            );
            assert(self.ordered_logs().drop_last() =~= old_ordered.drop_last()) by {
                assert forall|i: int| 0 <= i < old_ordered.len() - 1 implies
                    self.ordered_logs()[i] == old_ordered[i] by {
                    assert(self.order@[i] < self.order@[self.order@.len() - 1]);
                }
            }
            assert(self.ordered_logs().last() == ol[a] + bytes@);
            let rest = self.order@.drop_last();
            assert forall|i: int| 0 <= i < rest.len() implies logs[#[trigger] rest[i]] == ol[rest[i]] by {
                assert(self.order@[i] < self.order@[self.order@.len() - 1]);
                assert(self.order@.contains(rest[i]));
            }
            lemma_locations_agree::<K>(rest, logs, ol);
            let d0 = replay_all_locations::<K>(rest, ol);
            lemma_locations_append::<K>(d0, a, ol[a], 0, bytes@);
            let whole = ol[a] + bytes@;
            assert(whole.subrange(ol[a].len() as int, (ol[a].len() + bytes@.len()) as int) =~= bytes@.subrange(
                0,
                bytes@.len() as int,
            ));
            lemma_frame_moves(bytes@, 0, whole, ol[a].len() as int);
            assert(frame_location(a, whole, ol[a].len() as int) == loc);
            assert(replay_all_locations::<K>(self.order@, logs) == apply_location::<K>(
                old_dir,
                a,
                whole,
                ol[a].len() as int,
            ));
            assert forall|id: u64| #[trigger] logs.contains_key(id) implies frames_ok::<K>(logs[id], 0) by {
                assert(ol.contains_key(id));
            }
            assert forall|id: u64| #[trigger] logs.contains_key(id) <==> self.order@.contains(id) by {
                assert(logs.contains_key(id) == ol.contains_key(id));
            }
        }
        if deleted {
            self.directory.remove(key);
        } else {
            self.directory.put(key, loc);
        }
        self.values = Ghost(
            if deleted {
                old_values.remove(key@)
            } else {
                old_values.insert(key@, value@)
            },
        );
        proof {
            let logs = self.segments.logs();
            assert(self.directory@.dom() =~= self.values@.dom());
            assert(self.directory@ == replay_all_locations::<K>(self.order@, logs));
            assert forall|k: K::V| #[trigger] self.directory@.contains_key(k) implies located::<K>(
                logs,
                self.directory@[k],
                k,
                self.values@[k],
            ) by {
                if deleted || k != key@ {
                    let l = self.directory@[k];
                    assert(located::<K>(ol, l, k, self.values@[k]));
                    assert(stored(logs, l) =~= stored(ol, l));
                }
            }
        }
        Ok(loc)
    }

    /// Where the latest entry of `key` stands, if `key` is live.
    pub fn locate(&self, key: K) -> (r: Option<AppendEntryResponse>)
        requires
            self.wf(),
        ensures
            r is Some <==> lookup(self@, key@) is Some,
            r is Some ==> r.unwrap() == self.directory@[key@],
            r is Some ==> located::<K>(self.segments.logs(), r.unwrap(), key@, self@[key@]),
    {
        match self.directory.get(key) {
            Some(loc) => Some(*loc),
            None => None,
        }
    }

    /// Second half of a get: decodes the bytes that a read of `loc` returned
    /// and hands back the value. A location in no segment fails with
    /// `UnknownSegment`; a short read, bytes that hold no frame, or a
    /// tombstone fail with `CorruptFrame`. When `loc` is where the directory
    /// points a key and the read returned the bytes stored there, the result
    /// is that key's value.
    pub fn read_value(&self, loc: AppendEntryResponse, bytes: Vec<u8>) -> (r: Result<
        Vec<u8>,
        StoreError,
    >)
        requires
            self.wf(),
        ensures
            !self.segments.logs().contains_key(loc.file_id) ==> r == Err::<Vec<u8>, StoreError>(
                StoreError::UnknownSegment,
            ),
            self.segments.logs().contains_key(loc.file_id) && bytes@.len() != loc.entry_length
                ==> r == Err::<Vec<u8>, StoreError>(StoreError::CorruptFrame),
            r is Ok ==> frame_fits(bytes@, 0) && r->Ok_0@ == frame_value(bytes@, 0)
                && frame_tombstone(bytes@, 0) == LIVE,
            forall|k: K::V|
                #![trigger self.directory@[k]]
                self.directory@.contains_key(k) && self.directory@[k] == loc && bytes@ == stored(
                    self.segments.logs(),
                    loc,
                ) ==> r is Ok && r->Ok_0@ == self@[k],
    {
        let entry: Entry<K> = match self.segments.read(
            loc.file_id,
            loc.entry_length as usize,
            bytes,
        ) {
            Ok(e) => e,
            Err(e) => return Err(e),
        };
        if entry.is_deleted() {
            return Err(StoreError::CorruptFrame);
        }
        Ok(entry.value.value)
    }

    /// The bytes of the active segment.
    pub open spec fn active_log(&self) -> Seq<u8> {
        self.segments.logs()[self.segments.active_id()]
    }

    /// A store part way through replaying its active segment: the frames
    /// before `off` have been applied, and replaying the rest gives what
    /// replaying every segment in order gives.
    pub open spec fn replaying(&self, off: int) -> bool {
        &&& key_model_ok::<K>()
        &&& self.segments.wf()
        &&& self.order@.len() > 0
        &&& strictly_increasing(self.order@)
        &&& self.order@.last() == self.segments.active_id()
        &&& forall|id: u64| #[trigger]
            self.segments.logs().contains_key(id) <==> self.order@.contains(id)
        &&& forall|id: u64| #[trigger]
            self.segments.logs().contains_key(id) && id != self.segments.active_id()
                ==> frames_ok::<K>(self.segments.logs()[id], 0)
        &&& 0 <= off <= self.active_log().len()
        &&& frames_ok::<K>(self.active_log(), 0) == frames_ok::<K>(self.active_log(), off)
        &&& replay_segment::<K>(self.values@, self.active_log(), off) == replay_all::<K>(
            self.ordered_logs(),
        )
        &&& replay_locations::<K>(
            self.directory@,
            self.segments.active_id(),
            self.active_log(),
            off,
        ) == replay_all_locations::<K>(self.order@, self.segments.logs())
        &&& self.directory@.dom() == self.values@.dom()
        &&& forall|k: K::V| #[trigger]
            self.directory@.contains_key(k) ==> located::<K>(
                self.segments.logs(),
                self.directory@[k],
                k,
                self.values@[k],
            )
    }

    /// Applies the frames of the active segment, whose bytes are `bytes`,
    /// in order: a live frame points its key at itself, a tombstone drops
    /// its key. Succeeds exactly when the bytes are a run of whole frames;
    /// otherwise fails with `CorruptFrame` or the key's error.
    fn replay_active(&mut self, bytes: &Vec<u8>) -> (r: Result<(), StoreError>)
        requires
            old(self).replaying(0),
            bytes@ == old(self).active_log(),
        ensures
            r is Ok <==> frames_ok::<K>(bytes@, 0),
            r is Err ==> r->Err_0 == StoreError::CorruptFrame || r->Err_0
                == StoreError::KeySerializationFailure,
            r is Ok ==> final(self).wf(),
            final(self).segments == old(self).segments,
            final(self).order == old(self).order,
    {
        let file_id = self.segments.active_segment_id();
        let len = bytes.len();
        let mut off: usize = 0;
        while off < len
            invariant
                len == bytes@.len(),
                bytes@ == self.active_log(),
                file_id == self.segments.active_id(),
                self.replaying(off as int),
                self.segments == old(self).segments,
                self.order == old(self).order,
            decreases len - off,
        {
            let entry: Entry<K> = match Entry::decode_at(bytes, off) {
                Ok(e) => e,
                Err(e) => return Err(e),
            };
            let n = frame_length_at(bytes, off);
            if n > u32::MAX as u64 {
                return Err(StoreError::CorruptFrame);
            }
            let loc = AppendEntryResponse {
                file_id,
                offset: off as i64,
                entry_length: n as u32,
            };
            let ghost old_values = self.values@;
            let ghost logs = self.segments.logs();
            proof {
                let w = bytes@.subrange(off as int, off + n);
                assert(stored(logs, loc) == w);
                assert(w.subrange(0, n as int) =~= w);
                lemma_frame_moves(bytes@, off as int, w, 0);
            }
            let Entry { key, value: ValueReference { value, tombstone }, timestamp: _ } = entry;
            if tombstone == LIVE {
                self.directory.put(key, loc);
                self.values = Ghost(old_values.insert(key@, value@));
            } else {
                self.directory.remove(key);
                self.values = Ghost(old_values.remove(key@));
            }
            proof {
                assert(self.values@ == apply_frame::<K>(old_values, bytes@, off as int));
                assert(self.directory@.dom() =~= self.values@.dom());
                assert forall|k: K::V| #[trigger] self.directory@.contains_key(k) implies located::<K>(
                    logs,
                    self.directory@[k],
                    k,
                    self.values@[k],
                ) by {
                    if tombstone != LIVE || k != key@ {
                        assert(old_values.contains_key(k));
                    }
                }
            }
            off = off + n as usize;
        }
        proof {
            assert(!frame_fits(bytes@, len as int));
        }
        Ok(())
    }

    /// Makes the existing, newer file of segment `file_id`, holding `bytes`,
    /// the active segment, its frames not yet replayed.
    fn push_segment(&mut self, file_id: u64, bytes: &Vec<u8>) -> (r: Result<(), StoreError>)
        requires
            old(self).wf(),
            file_id > old(self).segments.active_id(),
        ensures
            r is Ok <==> bytes@.len() <= i64::MAX,
            r is Err ==> r->Err_0 == StoreError::EntryTooLarge,
            r is Ok ==> {
                &&& final(self).replaying(0)
                &&& final(self).segments.max_segment_size == old(self).segments.max_segment_size
                &&& final(self).segments.active_id() == file_id
                &&& final(self).segments.logs() == old(self).segments.logs().insert(file_id, bytes@)
                &&& final(self).order@ == old(self).order@.push(file_id)
            },
    {
        match self.segments.push_recovered(file_id, bytes) {
            Ok(()) => {},
            Err(e) => return Err(e),
        }
        let ghost old_ordered = old(self).ordered_logs();
        self.order = Ghost(self.order@.push(file_id));
        proof {
            let logs = self.segments.logs();
            let ol = old(self).segments.logs();
            assert(!ol.contains_key(file_id));
            assert(self.ordered_logs().drop_last() =~= old_ordered) by {
                assert forall|i: int| 0 <= i < old_ordered.len() implies
                    self.ordered_logs().drop_last()[i] == old_ordered[i] by {
                    assert(old(self).order@.contains(old(self).order@[i]));
                }
            }
            assert(self.ordered_logs().last() == bytes@);
            assert forall|i: int| 0 <= i < old(self).order@.len() implies logs[
                #[trigger] old(self).order@[i]] == ol[old(self).order@[i]] by {
                assert(old(self).order@.contains(old(self).order@[i]));
            }
            lemma_locations_agree::<K>(old(self).order@, logs, ol);
            assert(self.order@.drop_last() =~= old(self).order@);
            assert forall|a: int, b: int| 0 <= a < b < self.order@.len() implies self.order@[a]
                < self.order@[b] by {
                if b == self.order@.len() - 1 && a < b {
                    assert(ol.contains_key(self.order@[a]));
                }
            }
            assert forall|id: u64| #[trigger] logs.contains_key(id) <==> self.order@.contains(id) by {
                if self.order@.contains(id) && id != file_id {
                    let i = choose|i: int| 0 <= i < self.order@.len() && self.order@[i] == id;
                    assert(old(self).order@[i] == id);
                }
                if logs.contains_key(id) && id != file_id {
                    assert(old(self).order@.contains(id));
                    let i = choose|i: int| 0 <= i < old(self).order@.len() && old(self).order@[i] == id;
                    assert(self.order@[i] == id);
                }
            }
            assert forall|k: K::V| #[trigger] self.directory@.contains_key(k) implies located::<K>(
                logs,
                self.directory@[k],
                k,
                self.values@[k],
            ) by {
                assert(located::<K>(ol, self.directory@[k], k, self.values@[k]));
            }
        }
        Ok(())
    }

    /// Reopens a store from the segment files found in its directory, as
    /// pairs of id and bytes: the segment with the largest id becomes the
    /// active one, the others are sealed, and every segment's frames are
    /// replayed in increasing id order, and within a segment in file order,
    /// into the key directory. With no files, the store is new and empty.
    /// Succeeds exactly when every file can be taken up.
    pub fn recover(max_segment_size: u32, found: Vec<(u64, Vec<u8>)>) -> (r: Result<
        KVStore<K>,
        StoreError,
    >)
        requires
            key_model_ok::<K>(),
            ids_unique(found@),
        ensures
            r is Ok <==> forall|i: int|
                0 <= i < found@.len() ==> #[trigger] recoverable::<K>(found@[i].1@),
            r is Err ==> r->Err_0 == StoreError::CorruptFrame || r->Err_0
                == StoreError::KeySerializationFailure || r->Err_0 == StoreError::EntryTooLarge,
            r is Ok ==> r->Ok_0.wf() && r->Ok_0.segments.max_segment_size == max_segment_size,
            r is Ok && found@.len() > 0 ==> r->Ok_0.segments.logs() == found_logs(found@),
            r is Ok && found@.len() == 0 ==> {
                &&& r->Ok_0@ == Map::<K::V, Seq<u8>>::empty()
                &&& r->Ok_0.segments.sealed() == Map::<u64, crate::segment::Segment>::empty()
                &&& r->Ok_0.segments.logs() == Map::<u64, Seq<u8>>::empty().insert(
                    r->Ok_0.segments.active_id(),
                    Seq::<u8>::empty(),
                )
                &&& r->Ok_0.segments.id_generator.last_issued() <= i64::MAX
            },
    {
        let mut ids: Vec<u64> = Vec::new();
        let mut i: usize = 0;
        while i < found.len()
            invariant
                i <= found@.len(),
                ids@.len() == i,
                forall|k: int| 0 <= k < i ==> ids@[k] == found@[k].0,
            decreases found@.len() - i,
        {
            ids.push(found[i].0);
            i = i + 1;
        }
        let order = sorted_ids(&ids);
        proof {
            assert forall|x: u64| order@.contains(x) <==> found_logs(found@).contains_key(x) by {
                if order@.contains(x) {
                    let k = choose|k: int| 0 <= k < ids@.len() && ids@[k] == x;
                    assert(found@[k].0 == x);
                }
                if found_logs(found@).contains_key(x) {
                    let k = choose|k: int| 0 <= k < found@.len() && found@[k].0 == x;
                    assert(ids@[k] == x);
                }
            }
        }
        if order.len() == 0 {
            proof {
                if found@.len() > 0 {
                    assert(order@.contains(found@[0].0));
                }
            }
            return Ok(Self::new(max_segment_size));
        }
        let first = order[0];
        proof {
            assert(order@.contains(first));
            assert(found_logs(found@).contains_key(first));
        }
        let at = position_of(&found, first);
        proof {
            lemma_found_logs_at(found@, at as int);
        }
        let segments = match Segments::recovered(max_segment_size, first, &found[at].1) {
            Ok(s) => s,
            Err(e) => {
                proof {
                    assert(!recoverable::<K>(found@[at as int].1@));
                }
                return Err(e);
            },
        };
        let mut store = KVStore {
            segments,
            directory: KeyDirectory::new(),
            values: Ghost(Map::empty()),
            order: Ghost(Seq::<u64>::empty().push(first)),
        };
        proof {
            let logs = store.ordered_logs();
            assert(logs.drop_last() =~= Seq::<Seq<u8>>::empty());
            assert(replay_all::<K>(logs.drop_last()) == Map::<K::V, Seq<u8>>::empty());
            assert(store.directory@.dom() =~= store.values@.dom());
            assert(store.order@.drop_last() =~= Seq::<u64>::empty());
            assert(replay_all_locations::<K>(store.order@.drop_last(), store.segments.logs())
                == Map::<K::V, AppendEntryResponse>::empty());
            assert forall|id: u64| #[trigger]
                store.segments.logs().contains_key(id) <==> store.order@.contains(id) by {
                if store.order@.contains(id) {
                    assert(store.order@[0] == id);
                }
                if store.segments.logs().contains_key(id) {
                    assert(store.order@[0] == id);
                }
            }
        }
        match store.replay_active(&found[at].1) {
            Ok(()) => {},
            Err(e) => {
                proof {
                    assert(!recoverable::<K>(found@[at as int].1@));
                }
                return Err(e);
            },
        }
        proof {
            assert(recoverable::<K>(found_logs(found@)[order@[0]]));
            assert(store.order@ =~= order@.subrange(0, 1));
        }
        let mut j: usize = 1;
        while j < order.len()
            invariant
                1 <= j <= order@.len(),
                strictly_increasing(order@),
                forall|x: u64| order@.contains(x) <==> found_logs(found@).contains_key(x),
                ids_unique(found@),
                store.wf(),
                store.segments.max_segment_size == max_segment_size,
                store.order@ == order@.subrange(0, j as int),
                forall|id: u64| #[trigger]
                    store.segments.logs().contains_key(id) ==> store.segments.logs()[id]
                        == found_logs(found@)[id],
                forall|k: int| 0 <= k < j ==> #[trigger] recoverable::<K>(
                    found_logs(found@)[order@[k]],
                ),
            decreases order@.len() - j,
        {
            let id = order[j];
            proof {
                assert(order@.contains(id));
                assert(store.order@.last() == order@[j - 1]);
            }
            let at = position_of(&found, id);
            proof {
                lemma_found_logs_at(found@, at as int);
            }
            match store.push_segment(id, &found[at].1) {
                Ok(()) => {},
                Err(e) => {
                    proof {
                        assert(!recoverable::<K>(found@[at as int].1@));
                    }
                    return Err(e);
                },
            }
            match store.replay_active(&found[at].1) {
                Ok(()) => {},
                Err(e) => {
                    proof {
                        assert(!recoverable::<K>(found@[at as int].1@));
                    }
                    return Err(e);
                },
            }
            proof {
                assert(store.order@ =~= order@.subrange(0, j + 1));
                assert(recoverable::<K>(found_logs(found@)[order@[j as int]]));
            }
            j = j + 1;
        }
        proof {
            assert(store.segments.logs() =~= found_logs(found@)) by {
                assert forall|id: u64| store.segments.logs().contains_key(id) <==> found_logs(
                    found@,
                ).contains_key(id) by {
                    assert(order@.subrange(0, j as int) =~= order@);
                }
            }
            assert forall|i: int| 0 <= i < found@.len() implies #[trigger] recoverable::<K>(
                found@[i].1@,
            ) by {
                lemma_found_logs_at(found@, i);
                let id = found@[i].0;
                assert(order@.contains(id));
                let k = choose|k: int| 0 <= k < order@.len() && order@[k] == id;
                assert(recoverable::<K>(found_logs(found@)[order@[k]]));
            }
        }
        Ok(store)
    }
}

/// A put of a value under a key is what a later get of that key returns:
/// the key is live with that value, and the directory points it at a frame
/// that holds exactly that value, which `read_value` hands back.
pub proof fn lemma_put_then_get<K: Serializable>(
    before: KVStore<K>,
    after: KVStore<K>,
    put: PendingWrite<K>,
)
    requires
        before.wf(),
        after.wf(),
        !put.deleted,
        after@ == KVStore::<K>::after_write(before@, put),
    ensures
        lookup(after@, put.key@) == Some(put.value@),
        after.directory@.contains_key(put.key@),
        located::<K>(
            after.segments.logs(),
            after.directory@[put.key@],
            put.key@,
            put.value@,
        ),
{
    assert(after@.contains_key(put.key@));
}

/// Of two puts to the same key, a later get returns the second value.
pub proof fn lemma_overwrite<K: Serializable>(
    m: Map<K::V, Seq<u8>>,
    first: PendingWrite<K>,
    second: PendingWrite<K>,
)
    requires
        !first.deleted,
        !second.deleted,
        first.key@ == second.key@,
    ensures
        lookup(
            KVStore::<K>::after_write(KVStore::<K>::after_write(m, first), second),
            first.key@,
        ) == Some(second.value@),
{
}

/// A delete after a put of the same key leaves the key missing.
pub proof fn lemma_put_then_delete<K: Serializable>(
    m: Map<K::V, Seq<u8>>,
    put: PendingWrite<K>,
    delete: PendingWrite<K>,
)
    requires
        !put.deleted,
        delete.deleted,
        put.key@ == delete.key@,
    ensures
        lookup(KVStore::<K>::after_write(KVStore::<K>::after_write(m, put), delete), put.key@)
            is None,
{
}

/// A new, empty store has no key.
pub proof fn lemma_fresh_store_misses<K: Serializable>(s: KVStore<K>, k: K::V)
    requires
        s@ == Map::<K::V, Seq<u8>>::empty(),
    ensures
        lookup(s@, k) is None,
{
}

/// Two strictly increasing sequences with the same elements are equal.
proof fn lemma_sorted_unique(a: Seq<u64>, b: Seq<u64>)
    requires
        strictly_increasing(a),
        strictly_increasing(b),
        forall|x: u64| a.contains(x) <==> b.contains(x),
    ensures
        a == b,
    decreases a.len(),
{
    if a.len() == 0 {
        if b.len() > 0 {
            assert(b.contains(b[0]));
        }
        assert(a =~= b);
    } else {
        assert(a.contains(a[0]));
        assert(b.len() > 0);
        assert(b.contains(b[0]));
        let k = choose|k: int| 0 <= k < b.len() && b[k] == a[0];
        let m = choose|m: int| 0 <= m < a.len() && a[m] == b[0];
        if k > 0 {
            assert(b[0] < b[k]);
            if m > 0 {
                assert(a[0] < a[m]);
            }
        }
        assert(a[0] == b[0]);
        let a1 = a.drop_first();
        let b1 = b.drop_first();
        assert forall|x: u64| a1.contains(x) <==> b1.contains(x) by {
            if a1.contains(x) {
                let i = choose|i: int| 0 <= i < a1.len() && a1[i] == x;
                assert(a[i + 1] == x);
                assert(a.contains(x));
                let j = choose|j: int| 0 <= j < b.len() && b[j] == x;
                assert(a[0] < a[i + 1]);
                assert(j != 0);
                assert(b1[j - 1] == x);
            }
            if b1.contains(x) {
                let i = choose|i: int| 0 <= i < b1.len() && b1[i] == x;
                assert(b[i + 1] == x);
                assert(b.contains(x));
                let j = choose|j: int| 0 <= j < a.len() && a[j] == x;
                assert(b[0] < b[i + 1]);
                assert(j != 0);
                assert(a1[j - 1] == x);
            }
        }
        lemma_sorted_unique(a1, b1);
        assert(a.len() == b.len());
        assert forall|i: int| 0 <= i < a.len() implies a[i] == b[i] by {
            if i > 0 {
                assert(a[i] == a1[i - 1]);
                assert(b[i] == b1[i - 1]);
            }
        }
        assert(a =~= b);
    }
}

/// Recovery: the files a store leaves behind can all be taken up again,
/// and a store reopened from the same files has the same contents and the
/// same key directory, so every live key returns its last-written value
/// and every deleted key stays missing.
pub proof fn lemma_recovery_restores<K: Serializable>(before: KVStore<K>, after: KVStore<K>)
    requires
        before.wf(),
        after.wf(),
        after.segments.logs() == before.segments.logs(),
    ensures
        forall|id: u64| #[trigger]
            before.segments.logs().contains_key(id) ==> recoverable::<K>(
                before.segments.logs()[id],
            ),
        after@ == before@,
        after.directory@ == before.directory@,
{
    assert forall|id: u64| #[trigger] before.segments.logs().contains_key(id) implies recoverable::<K>(
        before.segments.logs()[id],
    ) by {
        if id == before.segments.active_id() {
        } else {
            assert(before.segments.sealed().contains_key(id));
            assert(before.segments.sealed()[id].wf());
        }
    }
    assert forall|x: u64| before.order@.contains(x) <==> after.order@.contains(x) by {
        assert(before.segments.logs().contains_key(x) <==> before.order@.contains(x));
        assert(after.segments.logs().contains_key(x) <==> after.order@.contains(x));
    }
    lemma_sorted_unique(before.order@, after.order@);
    assert(before.ordered_logs() =~= after.ordered_logs());
}

/// A rollover keeps every entry readable: the directory is unchanged, and
/// each location still covers the same bytes, a live frame of its key
/// holding the key's value, whether its segment is now sealed or not.
pub proof fn lemma_rollover_keeps_entries_readable<K: Serializable>(
    before: KVStore<K>,
    after: KVStore<K>,
)
    requires
        before.wf(),
        after.wf(),
        after@ == before@,
        after.directory@ == before.directory@,
        Segments::roll_step(before.segments, after.segments),
    ensures
        forall|k: K::V| #[trigger]
            after.directory@.contains_key(k) ==> {
                &&& located::<K>(after.segments.logs(), after.directory@[k], k, after@[k])
                &&& stored(after.segments.logs(), after.directory@[k]) == stored(
                    before.segments.logs(),
                    before.directory@[k],
                )
            },
{
    assert forall|k: K::V| #[trigger] after.directory@.contains_key(k) implies stored(
        after.segments.logs(),
        after.directory@[k],
    ) == stored(before.segments.logs(), before.directory@[k]) by {
        assert(located::<K>(before.segments.logs(), before.directory@[k], k, before@[k]));
    }
}

} // verus!
