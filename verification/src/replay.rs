//! What a directory of log segments means.
//!
//! Replaying the records of all segments, oldest generation first, yields
//! the index and the count of bytes that no index entry needs any more.
//! This module defines that replay over plain values and proves how it
//! changes when a record is appended or a segment is added.

use vstd::prelude::*;
use vstd::bytes::spec_u32_from_le_bytes;
use crate::index::CommandPos;
use crate::record::{
    framed, lemma_payload_at_end, lemma_payload_at_stable, record_at, record_of, Record,
};

verus! {

/// One log segment as a plain value: its generation and its bytes.
pub struct SegmentView {
    pub gen: u64,
    pub data: Seq<u8>,
}

/// What replay has built so far.
pub struct LogState {
    pub index: Map<Seq<char>, CommandPos>,
    pub uncompacted: int,
}

/// The state before any record.
pub open spec fn empty_state() -> LogState {
    LogState { index: Map::empty(), uncompacted: 0 }
}

/// The length of the record that a key's entry points at, or nothing where
/// the key has no entry.
pub open spec fn displaced_len(index: Map<Seq<char>, CommandPos>, key: Seq<char>) -> int {
    if index.contains_key(key) {
        index[key].len as int
    } else {
        0
    }
}

/// The effect of one record that lies at `cmd`.
///
/// A `Put` points its key at the record and gives up the record the key
/// pointed at before. A `Rm` drops the key, gives up the record it pointed
/// at, and gives up itself.
pub open spec fn apply(state: LogState, record: Record, cmd: CommandPos) -> LogState {
    match record {
        Record::Put { key, .. } => LogState {
            index: state.index.insert(key, cmd),
            uncompacted: state.uncompacted + displaced_len(state.index, key),
        },
        Record::Rm { key } => LogState {
            index: state.index.remove(key),
            uncompacted: state.uncompacted + displaced_len(state.index, key) + cmd.len,
        },
    }
}

/// The offset at which reading frames from `pos` on stops: the end of the
/// last record that can be read.
pub open spec fn frames_end(data: Seq<u8>, pos: int) -> int
    decreases data.len() - pos,
{
    match record_at(data, pos) {
        Some(found) => frames_end(data, pos + found.1),
        None => pos,
    }
}

/// The state after the records of one segment from `pos` on.
pub open spec fn replay_from(state: LogState, gen: u64, data: Seq<u8>, pos: int) -> LogState
    decreases data.len() - pos,
{
    match record_at(data, pos) {
        Some(found) => replay_from(
            apply(state, found.0, CommandPos { gen, pos: pos as u64, len: found.1 as u64 }),
            gen,
            data,
            pos + found.1,
        ),
        None => state,
    }
}

/// The state after all records of all segments, in the order given.
pub open spec fn replay_all(segments: Seq<SegmentView>) -> LogState
    decreases segments.len(),
{
    if segments.len() == 0 {
        empty_state()
    } else {
        replay_from(replay_all(segments.drop_last()), segments.last().gen, segments.last().data, 0)
    }
}

/// Generations grow strictly from one segment to the next.
pub open spec fn ascending(segments: Seq<SegmentView>) -> bool {
    forall|i: int, j: int|
        0 <= i < j < segments.len() ==> (#[trigger] segments[i]).gen < (#[trigger] segments[j]).gen
}

/// The bytes of the segment with the given generation.
pub open spec fn segment_data(segments: Seq<SegmentView>, gen: u64) -> Option<Seq<u8>>
    decreases segments.len(),
{
    if segments.len() == 0 {
        None
    } else if segments.last().gen == gen {
        Some(segments.last().data)
    } else {
        segment_data(segments.drop_last(), gen)
    }
}

/// The bytes of all segments together.
pub open spec fn total_len(segments: Seq<SegmentView>) -> int
    decreases segments.len(),
{
    if segments.len() == 0 {
        0
    } else {
        total_len(segments.drop_last()) + segments.last().data.len()
    }
}

/// The entry of `key` points at a whole frame of the stated length that
/// holds a `Put` of that key.
pub open spec fn points_at_put(segments: Seq<SegmentView>, key: Seq<char>, cmd: CommandPos) -> bool {
    &&& segment_data(segments, cmd.gen) matches Some(data)
    &&& record_at(data, cmd.pos as int) matches Some(found)
    &&& found.1 == cmd.len
    &&& found.0 matches Record::Put { key: k, .. }
    &&& k == key
}

/// The value of the record at `cmd`.
pub open spec fn value_at(segments: Seq<SegmentView>, cmd: CommandPos) -> Seq<char> {
    match segment_data(segments, cmd.gen) {
        Some(data) => match record_at(data, cmd.pos as int) {
            Some(found) => match found.0 {
                Record::Put { value, .. } => value,
                Record::Rm { .. } => Seq::empty(),
            },
            None => Seq::empty(),
        },
        None => Seq::empty(),
    }
}

/// The mapping from keys to values that an index over some segments
/// stands for.
pub open spec fn model(segments: Seq<SegmentView>, index: Map<Seq<char>, CommandPos>) -> Map<
    Seq<char>,
    Seq<char>,
> {
    Map::new(|key: Seq<char>| index.contains_key(key), |key: Seq<char>| value_at(segments, index[key]))
}

/// Every segment is made of whole records from its first byte to its last.
pub open spec fn all_whole(segments: Seq<SegmentView>) -> bool {
    forall|i: int|
        0 <= i < segments.len() ==> frames_end((#[trigger] segments[i]).data, 0)
            == segments[i].data.len()
}

/// Every entry of the index points at a `Put` of its key.
pub open spec fn all_point_at_puts(
    segments: Seq<SegmentView>,
    index: Map<Seq<char>, CommandPos>,
) -> bool {
    forall|key: Seq<char>| #[trigger]
        index.contains_key(key) ==> points_at_put(segments, key, index[key])
}

/// The index and the count are what replaying the segments yields, and
/// every entry leads to its record.
pub open spec fn consistent(
    segments: Seq<SegmentView>,
    index: Map<Seq<char>, CommandPos>,
    uncompacted: int,
) -> bool {
    &&& ascending(segments)
    &&& all_whole(segments)
    &&& replay_all(segments) == (LogState { index, uncompacted })
    &&& all_point_at_puts(segments, index)
}

/// The segments with `more` appended to the bytes of the last one.
pub open spec fn with_appended(segments: Seq<SegmentView>, more: Seq<u8>) -> Seq<SegmentView>
    recommends
        segments.len() > 0,
{
    segments.drop_last().push(
        SegmentView { gen: segments.last().gen, data: segments.last().data + more },
    )
}

/// Replay never lowers the uncompacted count.
pub proof fn lemma_uncompacted_grows(state: LogState, gen: u64, data: Seq<u8>, pos: int)
    ensures
        replay_from(state, gen, data, pos).uncompacted >= state.uncompacted,
    decreases data.len() - pos,
{
    match record_at(data, pos) {
        Some(found) => {
            let cmd = CommandPos { gen, pos: pos as u64, len: found.1 as u64 };
            lemma_uncompacted_grows(apply(state, found.0, cmd), gen, data, pos + found.1);
        },
        None => {},
    }
}

/// Reading stops at or behind where it starts, and within the bytes.
pub proof fn lemma_frames_end_bounds(data: Seq<u8>, pos: int)
    requires
        0 <= pos <= data.len(),
    ensures
        pos <= frames_end(data, pos) <= data.len(),
    decreases data.len() - pos,
{
    match record_at(data, pos) {
        Some(found) => {
            lemma_frames_end_bounds(data, pos + found.1);
        },
        None => {},
    }
}

/// A record that lies within some bytes is still read after more bytes
/// are appended.
pub proof fn lemma_record_at_stable(data: Seq<u8>, more: Seq<u8>, pos: int)
    requires
        record_at(data, pos) is Some,
    ensures
        record_at(data + more, pos) == record_at(data, pos),
{
    lemma_payload_at_stable(data, more, pos);
}

/// Appending one frame to a segment of whole records adds the effect of
/// its record to the replay, and the segment is again made of whole
/// records.
pub proof fn lemma_replay_append(
    state: LogState,
    gen: u64,
    data: Seq<u8>,
    pos: int,
    payload: Seq<u8>,
    record: Record,
)
    requires
        0 <= pos <= data.len(),
        frames_end(data, pos) == data.len(),
        payload.len() <= u32::MAX,
        record_of(payload) == Some(record),
    ensures
        frames_end(data + framed(payload), pos) == data.len() + 4 + payload.len(),
        replay_from(state, gen, data + framed(payload), pos) == apply(
            replay_from(state, gen, data, pos),
            record,
            CommandPos { gen, pos: data.len() as u64, len: (4 + payload.len()) as u64 },
        ),
    decreases data.len() - pos,
{
    let all = data + framed(payload);
    let added = CommandPos { gen, pos: data.len() as u64, len: (4 + payload.len()) as u64 };
    match record_at(data, pos) {
        Some(found) => {
            lemma_record_at_stable(data, framed(payload), pos);
            let cmd = CommandPos { gen, pos: pos as u64, len: found.1 as u64 };
            let next = pos + found.1;
            assert(frames_end(data, pos) == frames_end(data, next));
            lemma_replay_append(apply(state, found.0, cmd), gen, data, next, payload, record);
            assert(frames_end(all, pos) == frames_end(all, next));
            assert(replay_from(state, gen, all, pos) == replay_from(
                apply(state, found.0, cmd),
                gen,
                all,
                next,
            ));
            assert(replay_from(state, gen, data, pos) == replay_from(
                apply(state, found.0, cmd),
                gen,
                data,
                next,
            ));
        },
        None => {
            lemma_payload_at_end(data, payload);
            assert(frames_end(data, pos) == pos);
            assert(pos == data.len());
            assert(replay_from(state, gen, data, pos) == state);
            assert(record_at(all, pos) == Some((record, 4 + payload.len() as int)));
            let end = pos + 4 + payload.len();
            assert(all.len() == end);
            assert(record_at(all, end) is None);
            assert(frames_end(all, end) == end);
            assert(frames_end(all, pos) == frames_end(all, end));
            assert(replay_from(apply(state, record, added), gen, all, end) == apply(
                state,
                record,
                added,
            ));
            assert(replay_from(state, gen, all, pos) == replay_from(
                apply(state, record, added),
                gen,
                all,
                end,
            ));
        },
    }
}

/// Bytes behind the last whole record make no difference to the replay.
pub proof fn lemma_replay_truncated(state: LogState, gen: u64, data: Seq<u8>, pos: int)
    requires
        0 <= pos <= data.len(),
    ensures
        ({
            let end = frames_end(data, pos);
            let cut = data.subrange(0, end);
            &&& frames_end(cut, pos) == end
            &&& replay_from(state, gen, cut, pos) == replay_from(state, gen, data, pos)
        }),
    decreases data.len() - pos,
{
    lemma_frames_end_bounds(data, pos);
    let end = frames_end(data, pos);
    let cut = data.subrange(0, end);
    match record_at(data, pos) {
        Some(found) => {
            let next = pos + found.1;
            lemma_frames_end_bounds(data, next);
            lemma_replay_truncated(
                apply(state, found.0, CommandPos { gen, pos: pos as u64, len: found.1 as u64 }),
                gen,
                data,
                next,
            );
            assert(cut.subrange(pos, pos + 4) =~= data.subrange(pos, pos + 4));
            assert(cut.subrange(pos + 4, next) =~= data.subrange(pos + 4, next));
            assert(record_at(cut, pos) == record_at(data, pos));
        },
        None => {
            assert(end == pos);
            assert(cut.len() == pos);
            assert(record_at(cut, pos) is None);
        },
    }
}

/// Looking up a generation is not disturbed by a further segment of
/// another generation.
pub proof fn lemma_segment_data_push(segments: Seq<SegmentView>, last: SegmentView, gen: u64)
    ensures
        segment_data(segments.push(last), gen) == if last.gen == gen {
            Some(last.data)
        } else {
            segment_data(segments, gen)
        },
{
    assert(segments.push(last).drop_last() =~= segments);
}

/// Among ascending segments, each generation leads to its own bytes.
pub proof fn lemma_segment_data_found(segments: Seq<SegmentView>, i: int)
    requires
        ascending(segments),
        0 <= i < segments.len(),
    ensures
        segment_data(segments, segments[i].gen) == Some(segments[i].data),
    decreases segments.len(),
{
    if i < segments.len() - 1 {
        let init = segments.drop_last();
        assert(ascending(init)) by {
            assert forall|a: int, b: int| 0 <= a < b < init.len() implies (#[trigger] init[a]).gen < (
            #[trigger] init[b]).gen by {
                assert(segments[a].gen < segments[b].gen);
            }
        }
        assert(init[i] == segments[i]);
        assert(segments[i].gen < segments[segments.len() - 1].gen);
        lemma_segment_data_found(init, i);
    }
}

/// A generation that is found belongs to one of the segments.
pub proof fn lemma_segment_data_some(segments: Seq<SegmentView>, gen: u64) -> (i: int)
    requires
        segment_data(segments, gen) is Some,
    ensures
        0 <= i < segments.len(),
        segments[i].gen == gen,
        segment_data(segments, gen) == Some(segments[i].data),
    decreases segments.len(),
{
    if segments.last().gen == gen {
        segments.len() - 1
    } else {
        let i = lemma_segment_data_some(segments.drop_last(), gen);
        assert(segments.drop_last()[i] == segments[i]);
        i
    }
}

/// Appending a frame to the last segment keeps everything consistent,
/// with the index and the count moved on by the frame's record.
pub proof fn lemma_consistent_append(
    segments: Seq<SegmentView>,
    index: Map<Seq<char>, CommandPos>,
    uncompacted: int,
    payload: Seq<u8>,
    record: Record,
)
    requires
        segments.len() > 0,
        consistent(segments, index, uncompacted),
        payload.len() <= u32::MAX,
        record_of(payload) == Some(record),
        segments.last().data.len() + 4 + payload.len() <= u64::MAX,
    ensures
        ({
            let cmd = CommandPos {
                gen: segments.last().gen,
                pos: segments.last().data.len() as u64,
                len: (4 + payload.len()) as u64,
            };
            let after = apply(LogState { index, uncompacted }, record, cmd);
            let grown = with_appended(segments, framed(payload));
            &&& consistent(grown, after.index, after.uncompacted)
            &&& total_len(grown) == total_len(segments) + 4 + payload.len()
            &&& forall|key: Seq<char>|
                index.contains_key(key) && key != record.key() ==> value_at(grown, index[key])
                    == value_at(segments, #[trigger] index[key])
            &&& record matches Record::Put { value, .. } ==> value_at(grown, cmd) == value
        }),
{
    let last = segments.last();
    let init = segments.drop_last();
    let frame = framed(payload);
    let cmd = CommandPos {
        gen: last.gen,
        pos: last.data.len() as u64,
        len: (4 + payload.len()) as u64,
    };
    let after = apply(LogState { index, uncompacted }, record, cmd);
    let grown_last = SegmentView { gen: last.gen, data: last.data + frame };
    let grown = with_appended(segments, frame);
    assert(grown.drop_last() =~= init);
    assert(grown.last() == grown_last);
    assert(segments[segments.len() - 1] == last);
    assert(frames_end(last.data, 0) == last.data.len());
    lemma_replay_append(replay_all(init), last.gen, last.data, 0, payload, record);
    lemma_payload_at_end(last.data, payload);
    assert(ascending(grown)) by {
        assert forall|a: int, b: int| 0 <= a < b < grown.len() implies (#[trigger] grown[a]).gen < (
        #[trigger] grown[b]).gen by {
            assert(segments[a].gen < segments[b].gen);
        }
    }
    assert(all_whole(grown)) by {
        assert forall|i: int| 0 <= i < grown.len() implies frames_end((#[trigger] grown[i]).data, 0)
            == grown[i].data.len() by {
            if i < grown.len() - 1 {
                assert(grown[i] == segments[i]);
            }
        }
    }
    lemma_segment_data_push(init, grown_last, last.gen);
    assert(segments =~= init.push(last));
    assert forall|key: Seq<char>| #[trigger]
        index.contains_key(key) implies points_at_put(grown, key, index[key]) && value_at(
        grown,
        index[key],
    ) == value_at(segments, index[key]) by {
        let at = index[key];
        assert(points_at_put(segments, key, at));
        lemma_segment_data_push(init, grown_last, at.gen);
        lemma_segment_data_push(init, last, at.gen);
        if at.gen == last.gen {
            lemma_record_at_stable(last.data, frame, at.pos as int);
        }
    }
    assert(record_at(last.data + frame, last.data.len() as int) == Some(
        (record, 4 + payload.len() as int),
    ));
    assert(all_point_at_puts(grown, after.index)) by {
        assert forall|key: Seq<char>| #[trigger]
            after.index.contains_key(key) implies points_at_put(grown, key, after.index[key]) by {
            if key == record.key() {
            } else {
                assert(index.contains_key(key));
            }
        }
    }
}

/// A further, empty segment of a larger generation changes neither the
/// replay nor what any entry leads to.
pub proof fn lemma_consistent_push_empty(
    segments: Seq<SegmentView>,
    index: Map<Seq<char>, CommandPos>,
    uncompacted: int,
    gen: u64,
)
    requires
        consistent(segments, index, uncompacted),
        forall|i: int| 0 <= i < segments.len() ==> (#[trigger] segments[i]).gen < gen,
    ensures
        ({
            let grown = segments.push(SegmentView { gen, data: Seq::empty() });
            &&& consistent(grown, index, uncompacted)
            &&& total_len(grown) == total_len(segments)
            &&& model(grown, index) == model(segments, index)
        }),
{
    let added = SegmentView { gen, data: Seq::<u8>::empty() };
    let grown = segments.push(added);
    assert(grown.drop_last() =~= segments);
    assert(record_at(added.data, 0) is None);
    assert forall|key: Seq<char>| #[trigger]
        index.contains_key(key) implies points_at_put(grown, key, index[key]) && value_at(
        grown,
        index[key],
    ) == value_at(segments, index[key]) by {
        let at = index[key];
        assert(points_at_put(segments, key, at));
        lemma_segment_data_push(segments, added, at.gen);
        let i = lemma_segment_data_some(segments, at.gen);
    }
    assert(model(grown, index) =~= model(segments, index));
}

/// The entry of `key` points into the segment `gen`, at a whole frame of
/// the stated length that holds a `Put` of that key and ends where the
/// whole records of the segment end, or before.
pub open spec fn entry_within(gen: u64, data: Seq<u8>, key: Seq<char>, cmd: CommandPos) -> bool {
    &&& cmd.gen == gen
    &&& record_at(data, cmd.pos as int) matches Some(found)
    &&& found.1 == cmd.len
    &&& found.0 matches Record::Put { key: k, .. }
    &&& k == key
    &&& cmd.pos + cmd.len <= frames_end(data, 0)
}

/// The part of a segment that is made of whole records.
pub open spec fn whole_part(segment: SegmentView) -> SegmentView {
    SegmentView { gen: segment.gen, data: segment.data.subrange(0, frames_end(segment.data, 0)) }
}

/// Every segment cut back to its whole records.
pub open spec fn whole_parts(segments: Seq<SegmentView>) -> Seq<SegmentView> {
    Seq::new(segments.len(), |i: int| whole_part(segments[i]))
}

/// A count that replay starts with is carried through unchanged.
pub proof fn lemma_replay_shift(state: LogState, gen: u64, data: Seq<u8>, pos: int, extra: int)
    ensures
        replay_from(
            LogState { index: state.index, uncompacted: state.uncompacted + extra },
            gen,
            data,
            pos,
        ) == (LogState {
            index: replay_from(state, gen, data, pos).index,
            uncompacted: replay_from(state, gen, data, pos).uncompacted + extra,
        }),
    decreases data.len() - pos,
{
    let shifted = LogState { index: state.index, uncompacted: state.uncompacted + extra };
    match record_at(data, pos) {
        Some(found) => {
            let cmd = CommandPos { gen, pos: pos as u64, len: found.1 as u64 };
            let next = apply(state, found.0, cmd);
            assert(apply(shifted, found.0, cmd) == (LogState {
                index: next.index,
                uncompacted: next.uncompacted + extra,
            }));
            lemma_replay_shift(next, gen, data, pos + found.1, extra);
        },
        None => {},
    }
}

/// A record that ends within the first `end` bytes is read from those
/// bytes alone.
pub proof fn lemma_record_at_cut(data: Seq<u8>, end: int, pos: int)
    requires
        record_at(data, pos) matches Some(found) && pos + found.1 <= end,
        end <= data.len(),
    ensures
        record_at(data.subrange(0, end), pos) == record_at(data, pos),
{
    let cut = data.subrange(0, end);
    assert(cut.subrange(pos, pos + 4) =~= data.subrange(pos, pos + 4));
    let n = spec_u32_from_le_bytes(data.subrange(pos, pos + 4)) as int;
    assert(cut.subrange(pos + 4, pos + 4 + n) =~= data.subrange(pos + 4, pos + 4 + n));
}

/// A further segment of a larger generation, made of whole records, keeps
/// everything consistent once the index and the count are moved on by the
/// replay of that segment.
pub proof fn lemma_consistent_push_segment(
    segments: Seq<SegmentView>,
    index: Map<Seq<char>, CommandPos>,
    uncompacted: int,
    added: SegmentView,
    after: LogState,
)
    requires
        consistent(segments, index, uncompacted),
        forall|i: int| 0 <= i < segments.len() ==> (#[trigger] segments[i]).gen < added.gen,
        frames_end(added.data, 0) == added.data.len(),
        after == replay_from(LogState { index, uncompacted }, added.gen, added.data, 0),
        forall|key: Seq<char>| #[trigger]
            after.index.contains_key(key) ==> (index.contains_key(key) && after.index[key]
                == index[key]) || entry_within(added.gen, added.data, key, after.index[key]),
    ensures
        consistent(segments.push(added), after.index, after.uncompacted),
        total_len(segments.push(added)) == total_len(segments) + added.data.len(),
{
    let grown = segments.push(added);
    assert(grown.drop_last() =~= segments);
    assert(grown.last() == added);
    assert(ascending(grown)) by {
        assert forall|a: int, b: int| 0 <= a < b < grown.len() implies (#[trigger] grown[a]).gen < (
        #[trigger] grown[b]).gen by {
            if b < segments.len() {
                assert(segments[a].gen < segments[b].gen);
            } else {
                assert(segments[a].gen < added.gen);
            }
        }
    }
    assert(all_whole(grown)) by {
        assert forall|i: int| 0 <= i < grown.len() implies frames_end((#[trigger] grown[i]).data, 0)
            == grown[i].data.len() by {
            if i < segments.len() {
                assert(grown[i] == segments[i]);
            }
        }
    }
    assert(all_point_at_puts(grown, after.index)) by {
        assert forall|key: Seq<char>| #[trigger]
            after.index.contains_key(key) implies points_at_put(grown, key, after.index[key]) by {
            let at = after.index[key];
            lemma_segment_data_push(segments, added, at.gen);
            if index.contains_key(key) && at == index[key] {
                assert(points_at_put(segments, key, at));
                let i = lemma_segment_data_some(segments, at.gen);
                assert(segments[i].gen < added.gen);
            } else {
                assert(entry_within(added.gen, added.data, key, at));
            }
        }
    }
}

/// No segment but the last has anything behind its whole records except
/// the start of a length prefix.
pub open spec fn tails_clean(segments: Seq<SegmentView>) -> bool {
    forall|i: int|
        0 <= i < segments.len() - 1 ==> (#[trigger] segments[i]).data.len() - frames_end(
            segments[i].data,
            0,
        ) < 4
}

/// The generation that the active segment gets when these segments are
/// opened: one more than the largest, or 1 where there is none.
pub open spec fn next_gen(segments: Seq<SegmentView>) -> int {
    if segments.len() == 0 {
        1
    } else {
        segments.last().gen + 1
    }
}

/// These segments can be opened as a store: they come oldest first, only
/// the last may end in a damaged record, and their sizes and the next
/// generation fit in 64 bits.
pub open spec fn can_open(segments: Seq<SegmentView>) -> bool {
    &&& total_len(segments) <= u64::MAX
    &&& ascending(segments)
    &&& tails_clean(segments)
    &&& next_gen(segments) <= u64::MAX
}

/// The segments of the store that opening yields: the whole records of
/// each, and a new, empty active segment.
pub open spec fn opened(segments: Seq<SegmentView>) -> Seq<SegmentView> {
    whole_parts(segments).push(SegmentView { gen: next_gen(segments) as u64, data: Seq::empty() })
}

/// The bytes of the first `k` segments grow with `k`.
pub proof fn lemma_total_len_prefix(segments: Seq<SegmentView>, k: int)
    requires
        0 <= k <= segments.len(),
    ensures
        0 <= total_len(segments.subrange(0, k)) <= total_len(segments),
        k < segments.len() ==> total_len(segments.subrange(0, k + 1)) == total_len(
            segments.subrange(0, k),
        ) + segments[k].data.len(),
    decreases segments.len() - k,
{
    if k < segments.len() {
        assert(segments.subrange(0, k + 1).drop_last() =~= segments.subrange(0, k));
        lemma_total_len_prefix(segments, k + 1);
        lemma_total_len_nonneg(segments.subrange(0, k));
    } else {
        assert(segments.subrange(0, k) =~= segments);
        lemma_total_len_nonneg(segments);
    }
}

/// Segments never have fewer than no bytes.
pub proof fn lemma_total_len_nonneg(segments: Seq<SegmentView>)
    ensures
        0 <= total_len(segments),
    decreases segments.len(),
{
    if segments.len() > 0 {
        lemma_total_len_nonneg(segments.drop_last());
    }
}

/// What a record does to the mapping from keys to values.
pub open spec fn effect(map: Map<Seq<char>, Seq<char>>, record: Record) -> Map<Seq<char>, Seq<char>> {
    match record {
        Record::Put { key, value } => map.insert(key, value),
        Record::Rm { key } => map.remove(key),
    }
}

/// The mapping after a sequence of records took effect in order.
pub open spec fn after_all(map: Map<Seq<char>, Seq<char>>, records: Seq<Record>) -> Map<
    Seq<char>,
    Seq<char>,
>
    decreases records.len(),
{
    if records.len() == 0 {
        map
    } else {
        effect(after_all(map, records.drop_last()), records.last())
    }
}

/// After any sequence of sets and removes, a key holds the value of the
/// last set of that key, provided no later record speaks of the key.
pub proof fn lemma_last_put_wins(
    map: Map<Seq<char>, Seq<char>>,
    records: Seq<Record>,
    i: int,
    key: Seq<char>,
    value: Seq<char>,
)
    requires
        0 <= i < records.len(),
        records[i] == (Record::Put { key, value }),
        forall|j: int| i < j < records.len() ==> (#[trigger] records[j]).key() != key,
    ensures
        after_all(map, records).contains_key(key),
        after_all(map, records)[key] == value,
    decreases records.len(),
{
    if i < records.len() - 1 {
        let init = records.drop_last();
        assert(init[i] == records[i]);
        assert forall|j: int| i < j < init.len() implies (#[trigger] init[j]).key() != key by {
            assert(init[j] == records[j]);
        }
        lemma_last_put_wins(map, init, i, key, value);
        assert(records[records.len() - 1].key() != key);
    }
}

/// After any sequence of sets and removes, a key that was removed is not
/// there, provided no later record sets it.
pub proof fn lemma_removed_stays_away(
    map: Map<Seq<char>, Seq<char>>,
    records: Seq<Record>,
    i: int,
    key: Seq<char>,
)
    requires
        0 <= i < records.len(),
        records[i] == (Record::Rm { key }),
        forall|j: int|
            i < j < records.len() ==> !((#[trigger] records[j]) is Put && records[j].key() == key),
    ensures
        !after_all(map, records).contains_key(key),
    decreases records.len(),
{
    if i < records.len() - 1 {
        let init = records.drop_last();
        assert(init[i] == records[i]);
        assert forall|j: int| i < j < init.len() implies !((#[trigger] init[j]) is Put
            && init[j].key() == key) by {
            assert(init[j] == records[j]);
        }
        lemma_removed_stays_away(map, init, i, key);
        let last = records[records.len() - 1];
        assert(!(last is Put && last.key() == key));
    }
}

/// Segments that are consistent with an index are made of whole records,
/// so cutting them back to their whole records changes nothing.
pub proof fn lemma_whole_parts_of_whole(segments: Seq<SegmentView>)
    requires
        all_whole(segments),
    ensures
        whole_parts(segments) == segments,
        tails_clean(segments),
{
    assert forall|i: int| 0 <= i < segments.len() implies whole_part(segments[i])
        == segments[i] by {
        let data = segments[i].data;
        assert(frames_end(data, 0) == data.len());
        assert(data.subrange(0, data.len() as int) =~= data);
    }
    assert(whole_parts(segments) =~= segments);
}

} // verus!
