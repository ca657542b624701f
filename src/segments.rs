use crate::entry::{frame_fits, frame_key, Entry};
use crate::error::StoreError;
use crate::key::Serializable;
use crate::segment::{AppendEntryResponse, Segment};
use crate::time_based_id_generator::TimeBasedIdGenerator;
use vstd::hash_map::HashMapWithView;
use vstd::prelude::*;

verus! {

broadcast use vstd::std_specs::hash::group_hash_axioms;

/// The segment manager: one active segment that takes appends, the sealed
/// segments by id, the size at which the active one is sealed, and the
/// source of new segment ids.
pub struct Segments {
    pub active_segment: Segment,
    pub inactive_segments: HashMapWithView<u64, Segment>,
    pub max_segment_size: u32,
    pub id_generator: TimeBasedIdGenerator,
}

impl Segments {
    pub open spec fn active_id(&self) -> u64 {
        self.active_segment.file_id
    }

    pub open spec fn sealed(&self) -> Map<u64, Segment> {
        self.inactive_segments@
    }

    /// The bytes of every segment file, active and sealed, by id.
    pub open spec fn logs(&self) -> Map<u64, Seq<u8>> {
        Map::new(
            |id: u64| id == self.active_id() || self.sealed().contains_key(id),
            |id: u64|
                if id == self.active_id() {
                    self.active_segment.contents()
                } else {
                    self.sealed()[id].contents()
                },
        )
    }

    /// Whether the next append first seals the active segment.
    pub open spec fn should_roll(&self) -> bool {
        self.active_segment.contents().len() >= self.max_segment_size
    }

    /// Whether no fresh id is left for a new segment.
    pub open spec fn ids_exhausted(&self) -> bool {
        self.id_generator.last_issued() == u64::MAX
    }

    /// Sealed segments are well formed, filed under their own ids, and older
    /// than the active one; the id generator has passed every id in use.
    pub open spec fn wf(&self) -> bool {
        &&& self.active_segment.wf()
        &&& self.sealed().dom().finite()
        &&& forall|id: u64| #[trigger]
            self.sealed().contains_key(id) ==> {
                &&& self.sealed()[id].wf()
                &&& self.sealed()[id].file_id == id
                &&& id < self.active_id()
            }
        &&& self.active_id() <= self.id_generator.last_issued()
    }

    /// What the rollover check before an append does: below the threshold
    /// nothing changes; at or past it the active segment is sealed with its
    /// bytes and a new, empty one with a larger, unused id becomes active.
    pub open spec fn roll_step(old: Segments, new: Segments) -> bool {
        &&& new.max_segment_size == old.max_segment_size
        &&& if old.should_roll() {
            &&& new.id_generator.last_issued() == new.active_id()
            &&& new.active_id() <= i64::MAX || new.active_id() == old.id_generator.last_issued() + 1
            &&& !old.logs().contains_key(new.active_id())
            &&& new.active_id() > old.active_id()
            &&& new.logs() == old.logs().insert(new.active_id(), Seq::<u8>::empty())
            &&& new.sealed() == old.sealed().insert(old.active_id(), old.active_segment)
        } else {
            new == old
        }
    }

    /// What a recorded append does: the bytes join the end of the active
    /// segment, and nothing else changes.
    pub open spec fn append_step(old: Segments, new: Segments, bytes: Seq<u8>) -> bool {
        &&& new.active_id() == old.active_id()
        &&& new.id_generator == old.id_generator
        &&& new.sealed() == old.sealed()
        &&& new.max_segment_size == old.max_segment_size
        &&& new.active_segment.contents() == old.active_segment.contents() + bytes
        &&& new.logs() == old.logs().insert(old.active_id(), old.logs()[old.active_id()] + bytes)
    }

    /// A manager with one new, empty, active segment.
    pub fn new(max_segment_size: u32) -> (r: Segments)
        ensures
            r.wf(),
            r.max_segment_size == max_segment_size,
            r.sealed() == Map::<u64, Segment>::empty(),
            r.logs() == Map::<u64, Seq<u8>>::empty().insert(r.active_id(), Seq::<u8>::empty()),
            r.id_generator.last_issued() <= i64::MAX,
    {
        let mut id_generator = TimeBasedIdGenerator::new();
        let id = id_generator.next().unwrap();
        let r = Segments {
            active_segment: Segment::new_segment(id),
            inactive_segments: HashMapWithView::new(),
            max_segment_size,
            id_generator,
        };
        assert(r.logs() =~= Map::<u64, Seq<u8>>::empty().insert(r.active_id(), Seq::<u8>::empty()));
        r
    }

    /// The id of the active segment.
    pub fn active_segment_id(&self) -> (r: u64)
        ensures
            r == self.active_id(),
    {
        self.active_segment.file_id
    }

    /// How many segments are sealed.
    pub fn sealed_count(&self) -> (r: usize)
        ensures
            r == self.sealed().len(),
    {
        self.inactive_segments.len()
    }

    /// Seals the active segment and opens a new one when the active one has
    /// reached `max_segment_size`; otherwise changes nothing. The new
    /// segment's id is larger than every id in use, and the sealed segment
    /// keeps its bytes.
    pub fn maybe_roll_over_active_segment(&mut self) -> (r: Result<(), StoreError>)
        requires
            old(self).wf(),
        ensures
            final(self).wf(),
            final(self).max_segment_size == old(self).max_segment_size,
            r is Err <==> old(self).should_roll() && old(self).ids_exhausted(),
            r is Err ==> r->Err_0 == StoreError::IdsExhausted,
            !(old(self).should_roll() && r is Ok) ==> *final(self) == *old(self),
            old(self).should_roll() && r is Ok ==> {
                &&& final(self).id_generator.last_issued() == final(self).active_id()
                &&& final(self).active_id() <= i64::MAX || final(self).active_id()
                    == old(self).id_generator.last_issued() + 1
                &&& !old(self).logs().contains_key(final(self).active_id())
                &&& final(self).active_id() > old(self).active_id()
                &&& final(self).logs() == old(self).logs().insert(
                    final(self).active_id(),
                    Seq::<u8>::empty(),
                )
                &&& final(self).sealed() == old(self).sealed().insert(
                    old(self).active_id(),
                    old(self).active_segment,
                )
                &&& !final(self).should_roll() || final(self).max_segment_size == 0
            },
    {
        if self.active_segment.write_offset() < self.max_segment_size as u64 {
            return Ok(());
        }
        let id = match self.id_generator.next() {
            Some(id) => id,
            None => return Err(StoreError::IdsExhausted),
        };
        let old_id = self.active_segment.file_id;
        let old_segment = Segment {
            file_id: old_id,
            current_write_offset: self.active_segment.current_write_offset,
            contents: Ghost(self.active_segment.contents@),
        };
        self.active_segment = Segment::new_segment(id);
        self.inactive_segments.insert(old_id, old_segment);
        proof {
            assert(self.sealed().dom().finite());
            assert(self.logs() =~= old(self).logs().insert(id, Seq::<u8>::empty()));
        }
        Ok(())
    }

    /// Records an append of `bytes` to the file of segment `file_id`, of
    /// which the file took `written`. Only the active segment takes
    /// appends: another id fails with `UnknownSegment`. The other failures
    /// are those of `Segment::append`; every failure changes nothing.
    pub fn record_append(&mut self, file_id: u64, bytes: &Vec<u8>, written: usize) -> (r: Result<
        AppendEntryResponse,
        StoreError,
    >)
        requires
            old(self).wf(),
            bytes@.len() <= u32::MAX,
        ensures
            final(self).wf(),
            file_id != old(self).active_id() ==> r == Err::<AppendEntryResponse, StoreError>(
                StoreError::UnknownSegment,
            ),
            file_id == old(self).active_id() && written < bytes@.len() ==> r == Err::<
                AppendEntryResponse,
                StoreError,
            >(StoreError::ShortWrite),
            file_id == old(self).active_id() && written >= bytes@.len()
                && old(self).active_segment.contents().len() + bytes@.len() > i64::MAX ==> r
                == Err::<AppendEntryResponse, StoreError>(StoreError::EntryTooLarge),
            r is Err ==> *final(self) == *old(self),
            r is Err ==> file_id != old(self).active_id() || written < bytes@.len()
                || old(self).active_segment.contents().len() + bytes@.len() > i64::MAX,
            r is Ok ==> {
                &&& file_id == old(self).active_id()
                &&& written >= bytes@.len()
                &&& Segments::append_step(*old(self), *final(self), bytes@)
                &&& r->Ok_0 == (AppendEntryResponse {
                    file_id,
                    offset: old(self).logs()[file_id].len() as i64,
                    entry_length: bytes@.len() as u32,
                })
            },
    {
        if file_id != self.active_segment.file_id {
            return Err(StoreError::UnknownSegment);
        }
        let r = self.active_segment.append(bytes, written);
        proof {
            if r is Ok {
                assert(self.logs() =~= old(self).logs().insert(
                    file_id,
                    old(self).logs()[file_id] + bytes@,
                ));
            }
        }
        r
    }

    /// Routes a read of `size` bytes of segment `file_id`, and decodes what
    /// the read returned. An id that is neither the active
    /// segment nor a sealed one fails with `UnknownSegment`; otherwise the
    /// result is that of `Segment::read`.
    pub fn read<T: Serializable>(&self, file_id: u64, size: usize, bytes: Vec<u8>) -> (r:
        Result<Entry<T>, StoreError>)
        ensures
            !self.logs().contains_key(file_id) ==> r == Err::<Entry<T>, StoreError>(
                StoreError::UnknownSegment,
            ),
            self.logs().contains_key(file_id) ==> {
                &&& bytes@.len() != size ==> r == Err::<Entry<T>, StoreError>(
                    StoreError::CorruptFrame,
                )
                &&& bytes@.len() == size && !frame_fits(bytes@, 0) ==> r == Err::<
                    Entry<T>,
                    StoreError,
                >(StoreError::CorruptFrame)
                &&& bytes@.len() == size && frame_fits(bytes@, 0) ==> {
                    &&& r is Ok <==> T::spec_deserialize(frame_key(bytes@, 0)) is Some
                    &&& r is Ok ==> Entry::<T>::decodes_to(r->Ok_0, bytes@, 0)
                    &&& r is Err ==> r->Err_0 == StoreError::KeySerializationFailure
                }
            },
    {
        if self.active_segment.file_id == file_id {
            return self.active_segment.read(size, bytes);
        }
        match self.inactive_segments.get(&file_id) {
            Some(segment) => segment.read(size, bytes),
            None => Err(StoreError::UnknownSegment),
        }
    }

    /// A manager whose only segment, active, is the existing file of
    /// segment `file_id` holding `bytes`. New ids start after `file_id`.
    pub fn recovered(max_segment_size: u32, file_id: u64, bytes: &Vec<u8>) -> (r: Result<
        Segments,
        StoreError,
    >)
        ensures
            r is Ok <==> bytes@.len() <= i64::MAX,
            r is Err ==> r->Err_0 == StoreError::EntryTooLarge,
            r is Ok ==> {
                &&& r->Ok_0.wf()
                &&& r->Ok_0.max_segment_size == max_segment_size
                &&& r->Ok_0.active_id() == file_id
                &&& r->Ok_0.sealed() == Map::<u64, Segment>::empty()
                &&& r->Ok_0.logs() == Map::<u64, Seq<u8>>::empty().insert(file_id, bytes@)
            },
    {
        let active_segment = match Segment::holding(file_id, bytes) {
            Ok(s) => s,
            Err(e) => return Err(e),
        };
        let r = Segments {
            active_segment,
            inactive_segments: HashMapWithView::new(),
            max_segment_size,
            id_generator: TimeBasedIdGenerator::starting_after(file_id),
        };
        assert(r.logs() =~= Map::<u64, Seq<u8>>::empty().insert(file_id, bytes@));
        Ok(r)
    }

    /// Seals the active segment and makes the existing, newer file of
    /// segment `file_id`, holding `bytes`, the active one. New ids start
    /// after `file_id`.
    pub fn push_recovered(&mut self, file_id: u64, bytes: &Vec<u8>) -> (r: Result<(), StoreError>)
        requires
            old(self).wf(),
            file_id > old(self).active_id(),
        ensures
            r is Ok <==> bytes@.len() <= i64::MAX,
            r is Err ==> r->Err_0 == StoreError::EntryTooLarge && *final(self) == *old(self),
            r is Ok ==> {
                &&& final(self).wf()
                &&& final(self).max_segment_size == old(self).max_segment_size
                &&& final(self).active_id() == file_id
                &&& final(self).logs() == old(self).logs().insert(file_id, bytes@)
            },
    {
        let segment = match Segment::holding(file_id, bytes) {
            Ok(s) => s,
            Err(e) => return Err(e),
        };
        let old_id = self.active_segment.file_id;
        let old_segment = Segment {
            file_id: old_id,
            current_write_offset: self.active_segment.current_write_offset,
            contents: Ghost(self.active_segment.contents@),
        };
        self.active_segment = segment;
        self.inactive_segments.insert(old_id, old_segment);
        self.id_generator = TimeBasedIdGenerator::starting_after(file_id);
        proof {
            assert(self.sealed().dom().finite());
            assert(self.logs() =~= old(self).logs().insert(file_id, bytes@));
        }
        Ok(())
    }
}

/// The rollover boundary. An append to an active segment below the
/// threshold lands whole in that segment, however long the frame; once the
/// segment has reached the threshold, the rollover check before the next
/// append seals it, keeping its bytes readable under its id, and opens a
/// new, empty active segment.
pub proof fn lemma_rollover_boundary(s0: Segments, s1: Segments, s2: Segments, bytes: Seq<u8>)
    requires
        s0.wf(),
        !s0.should_roll(),
        Segments::append_step(s0, s1, bytes),
        s0.active_segment.contents().len() + bytes.len() >= s0.max_segment_size,
        Segments::roll_step(s1, s2),
    ensures
        s1.active_id() == s0.active_id(),
        s1.logs()[s0.active_id()] == s0.logs()[s0.active_id()] + bytes,
        s1.should_roll(),
        s2.active_id() != s0.active_id(),
        s2.sealed().contains_key(s0.active_id()),
        s2.logs().contains_key(s0.active_id()),
        s2.logs()[s0.active_id()] == s0.logs()[s0.active_id()] + bytes,
        s2.logs()[s2.active_id()] == Seq::<u8>::empty(),
{
    assert(s1.logs().contains_key(s0.active_id()));
}

} // verus!
