use crate::entry::{
    frame_fits, frame_key, frame_key_len, frame_tombstone, frame_tombstone_at, frame_total_len,
    frame_value, frame_value_field, frame_timestamp, field_at, LIVE,
};
use crate::key::Serializable;
use crate::segment::AppendEntryResponse;
use vstd::prelude::*;

verus! {

/// A frame that sits whole inside a window of `a` reads the same wherever
/// the same window of bytes stands in `b`.
pub proof fn lemma_frame_moves(a: Seq<u8>, off: int, b: Seq<u8>, boff: int)
    requires
        frame_fits(a, off),
        0 <= boff,
        boff + frame_total_len(a, off) <= b.len(),
        b.subrange(boff, boff + frame_total_len(a, off)) == a.subrange(
            off,
            off + frame_total_len(a, off),
        ),
    ensures
        frame_fits(b, boff),
        frame_total_len(b, boff) == frame_total_len(a, off),
        frame_timestamp(b, boff) == frame_timestamp(a, off),
        frame_key(b, boff) == frame_key(a, off),
        frame_value(b, boff) == frame_value(a, off),
        frame_tombstone(b, boff) == frame_tombstone(a, off),
{
    let n = frame_total_len(a, off);
    let w = a.subrange(off, off + n);
    assert(b.subrange(boff, boff + 4) =~= w.subrange(0, 4));
    assert(a.subrange(off, off + 4) =~= w.subrange(0, 4));
    assert(b.subrange(boff + 4, boff + 8) =~= w.subrange(4, 8));
    assert(a.subrange(off + 4, off + 8) =~= w.subrange(4, 8));
    assert(b.subrange(boff + 8, boff + 12) =~= w.subrange(8, 12));
    assert(a.subrange(off + 8, off + 12) =~= w.subrange(8, 12));
    assert(field_at(b, boff + 4) == field_at(a, off + 4));
    assert(field_at(b, boff + 8) == field_at(a, off + 8));
    assert(frame_key_len(b, boff) == frame_key_len(a, off));
    assert(frame_value_field(b, boff) == frame_value_field(a, off));
    assert(frame_tombstone_at(b, boff) - boff == frame_tombstone_at(a, off) - off);
    let ks = frame_key_len(a, off);
    let ts = frame_tombstone_at(a, off) - off;
    assert(frame_key(b, boff) =~= w.subrange(12, 12 + ks));
    assert(frame_key(a, off) =~= w.subrange(12, 12 + ks));
    assert(frame_value(b, boff) =~= w.subrange(12 + ks, ts));
    assert(frame_value(a, off) =~= w.subrange(12 + ks, ts));
    assert(b[boff + ts] == w[ts]);
    assert(a[off + ts] == w[ts]);
}

/// What one frame does to the store's contents: a live frame sets its
/// key to its value, a tombstone removes its key.
pub open spec fn apply_frame<K: Serializable>(m: Map<K::V, Seq<u8>>, log: Seq<u8>, off: int) -> Map<
    K::V,
    Seq<u8>,
> {
    match K::spec_deserialize(frame_key(log, off)) {
        None => m,
        Some(k) => if frame_tombstone(log, off) == LIVE {
            m.insert(k, frame_value(log, off))
        } else {
            m.remove(k)
        },
    }
}

/// Applies, in order, the frames of `log` from `off` on to `m`, stopping at
/// the first place that holds no frame.
pub open spec fn replay_segment<K: Serializable>(m: Map<K::V, Seq<u8>>, log: Seq<u8>, off: int) -> Map<
    K::V,
    Seq<u8>,
>
    decreases log.len() - off,
{
    if frame_fits(log, off) {
        replay_segment::<K>(apply_frame::<K>(m, log, off), log, off + frame_total_len(log, off))
    } else {
        m
    }
}

/// Whether `log` from `off` on is a run of whole frames, each short enough
/// for a location's length field and with a key that reads back, ending
/// exactly at the end of `log`.
pub open spec fn frames_ok<K: Serializable>(log: Seq<u8>, off: int) -> bool
    decreases log.len() - off,
{
    if off == log.len() {
        true
    } else {
        &&& frame_fits(log, off)
        &&& frame_total_len(log, off) <= u32::MAX
        &&& K::spec_deserialize(frame_key(log, off)) is Some
        &&& frames_ok::<K>(log, off + frame_total_len(log, off))
    }
}

/// The store's contents after replaying the segments of `logs` in order.
pub open spec fn replay_all<K: Serializable>(logs: Seq<Seq<u8>>) -> Map<K::V, Seq<u8>>
    decreases logs.len(),
{
    if logs.len() == 0 {
        Map::empty()
    } else {
        replay_segment::<K>(replay_all::<K>(logs.drop_last()), logs.last(), 0)
    }
}

/// Appending one whole frame to a run of whole frames: the run stays whole,
/// and replaying it applies that frame last.
pub proof fn lemma_replay_append<K: Serializable>(
    m: Map<K::V, Seq<u8>>,
    log: Seq<u8>,
    off: int,
    bytes: Seq<u8>,
)
    requires
        0 <= off <= log.len(),
        frames_ok::<K>(log, off),
        frame_fits(bytes, 0),
        frame_total_len(bytes, 0) == bytes.len(),
        bytes.len() <= u32::MAX,
        K::spec_deserialize(frame_key(bytes, 0)) is Some,
    ensures
        frames_ok::<K>(log + bytes, off),
        replay_segment::<K>(m, log + bytes, off) == apply_frame::<K>(
            replay_segment::<K>(m, log, off),
            bytes,
            0,
        ),
    decreases log.len() - off,
{
    let whole = log + bytes;
    if off == log.len() {
        assert(whole.subrange(off, off + bytes.len()) =~= bytes.subrange(0, bytes.len() as int));
        lemma_frame_moves(bytes, 0, whole, off);
        assert(off + frame_total_len(whole, off) == whole.len());
        assert(!frame_fits(whole, whole.len() as int));
        assert(frames_ok::<K>(whole, whole.len() as int));
        assert(!frame_fits(log, off));
        assert(apply_frame::<K>(m, whole, off) == apply_frame::<K>(m, bytes, 0));
        let m1 = apply_frame::<K>(m, whole, off);
        assert(replay_segment::<K>(m1, whole, whole.len() as int) == m1);
        assert(replay_segment::<K>(m, log, off) == m);
    } else {
        let n = frame_total_len(log, off);
        assert(whole.subrange(off, off + n) =~= log.subrange(off, off + n));
        lemma_frame_moves(log, off, whole, off);
        assert(apply_frame::<K>(m, whole, off) == apply_frame::<K>(m, log, off));
        lemma_replay_append::<K>(apply_frame::<K>(m, log, off), log, off + n, bytes);
        assert(replay_segment::<K>(m, log, off) == replay_segment::<K>(
            apply_frame::<K>(m, log, off),
            log,
            off + n,
        ));
        assert(replay_segment::<K>(m, whole, off) == replay_segment::<K>(
            apply_frame::<K>(m, whole, off),
            whole,
            off + n,
        ));
    }
}

/// The location of the frame at `off` of segment `id`, whose bytes are `log`.
pub open spec fn frame_location(id: u64, log: Seq<u8>, off: int) -> AppendEntryResponse {
    AppendEntryResponse {
        file_id: id,
        offset: off as i64,
        entry_length: frame_total_len(log, off) as u32,
    }
}

/// What one frame does to the key directory: a live frame points its key
/// at itself, a tombstone drops its key.
pub open spec fn apply_location<K: Serializable>(
    d: Map<K::V, AppendEntryResponse>,
    id: u64,
    log: Seq<u8>,
    off: int,
) -> Map<K::V, AppendEntryResponse> {
    match K::spec_deserialize(frame_key(log, off)) {
        None => d,
        Some(k) => if frame_tombstone(log, off) == LIVE {
            d.insert(k, frame_location(id, log, off))
        } else {
            d.remove(k)
        },
    }
}

/// Applies, in order, the frames of segment `id` from `off` on to the key
/// directory `d`, stopping at the first place that holds no frame.
pub open spec fn replay_locations<K: Serializable>(
    d: Map<K::V, AppendEntryResponse>,
    id: u64,
    log: Seq<u8>,
    off: int,
) -> Map<K::V, AppendEntryResponse>
    decreases log.len() - off,
{
    if frame_fits(log, off) {
        replay_locations::<K>(
            apply_location::<K>(d, id, log, off),
            id,
            log,
            off + frame_total_len(log, off),
        )
    } else {
        d
    }
}

/// The key directory after replaying the segments `ids`, in that order,
/// whose bytes are given by `logs`: every live key points at its most
/// recent frame.
pub open spec fn replay_all_locations<K: Serializable>(
    ids: Seq<u64>,
    logs: Map<u64, Seq<u8>>,
) -> Map<K::V, AppendEntryResponse>
    decreases ids.len(),
{
    if ids.len() == 0 {
        Map::empty()
    } else {
        replay_locations::<K>(
            replay_all_locations::<K>(ids.drop_last(), logs),
            ids.last(),
            logs[ids.last()],
            0,
        )
    }
}

/// Replaying the same segments over files that agree on them gives the
/// same directory.
pub proof fn lemma_locations_agree<K: Serializable>(
    ids: Seq<u64>,
    logs1: Map<u64, Seq<u8>>,
    logs2: Map<u64, Seq<u8>>,
)
    requires
        forall|i: int| 0 <= i < ids.len() ==> logs1[#[trigger] ids[i]] == logs2[ids[i]],
    ensures
        replay_all_locations::<K>(ids, logs1) == replay_all_locations::<K>(ids, logs2),
    decreases ids.len(),
{
    if ids.len() > 0 {
        let rest = ids.drop_last();
        assert forall|i: int| 0 <= i < rest.len() implies logs1[#[trigger] rest[i]] == logs2[rest[i]] by {
            assert(rest[i] == ids[i]);
        }
        lemma_locations_agree::<K>(rest, logs1, logs2);
        assert(logs1[ids.last()] == logs2[ids[ids.len() - 1]]);
    }
}

/// Appending one whole frame to a run of whole frames: replaying the
/// locations applies that frame last, at the old end of the file.
pub proof fn lemma_locations_append<K: Serializable>(
    d: Map<K::V, AppendEntryResponse>,
    id: u64,
    log: Seq<u8>,
    off: int,
    bytes: Seq<u8>,
)
    requires
        0 <= off <= log.len(),
        frames_ok::<K>(log, off),
        frame_fits(bytes, 0),
        frame_total_len(bytes, 0) == bytes.len(),
    ensures
        replay_locations::<K>(d, id, log + bytes, off) == apply_location::<K>(
            replay_locations::<K>(d, id, log, off),
            id,
            log + bytes,
            log.len() as int,
        ),
    decreases log.len() - off,
{
    let whole = log + bytes;
    if off == log.len() {
        assert(whole.subrange(off, off + bytes.len()) =~= bytes.subrange(0, bytes.len() as int));
        lemma_frame_moves(bytes, 0, whole, off);
        let d1 = apply_location::<K>(d, id, whole, off);
        assert(!frame_fits(whole, whole.len() as int));
        assert(replay_locations::<K>(d1, id, whole, whole.len() as int) == d1);
        assert(!frame_fits(log, off));
        assert(replay_locations::<K>(d, id, log, off) == d);
    } else {
        let n = frame_total_len(log, off);
        assert(whole.subrange(off, off + n) =~= log.subrange(off, off + n));
        lemma_frame_moves(log, off, whole, off);
        assert(apply_location::<K>(d, id, whole, off) == apply_location::<K>(d, id, log, off));
        lemma_locations_append::<K>(apply_location::<K>(d, id, log, off), id, log, off + n, bytes);
        assert(replay_locations::<K>(d, id, log, off) == replay_locations::<K>(
            apply_location::<K>(d, id, log, off),
            id,
            log,
            off + n,
        ));
        assert(replay_locations::<K>(d, id, whole, off) == replay_locations::<K>(
            apply_location::<K>(d, id, whole, off),
            id,
            whole,
            off + n,
        ));
    }
}

} // verus!
