//! What a store finds when it is opened after a crash.
//!
//! The host carries out the steps of `persist::sync_plan` one by one, and a
//! crash can stop it anywhere, even in the middle of an append. This module
//! proves that whatever files are left then open to a store that holds
//! either what the store held before the call or what it held after it.

use vstd::prelude::*;
use vstd::bytes::{lemma_auto_spec_u32_to_from_le_bytes, spec_u32_to_le_bytes};
use crate::index::CommandPos;
use crate::kvs::{
    compacted, lemma_reopen_preserves, lemma_store_invariant, COMPACTION_THRESHOLD, KvStore,
};
use crate::persist::{
    lemma_file_len_found, lemma_file_len_missing, remove_ops, sync_ops, write_op, write_ops, DiskOp,
    FileLen,
};
use crate::record::{
    frame_of, framed, lemma_frame_bytes, lemma_payload_at_end, payload_of, record_at, Record,
};
use crate::replay::{
    apply, ascending, consistent, displaced_len, empty_state, frames_end,
    lemma_consistent_push_empty, lemma_frames_end_bounds, lemma_record_at_cut,
    lemma_record_at_stable, lemma_replay_truncated, lemma_segment_data_found,
    lemma_total_len_prefix, lemma_uncompacted_grows, model, next_gen, opened, points_at_put, replay_all, replay_from,
    segment_data, tails_clean, value_at, whole_part, whole_parts, with_appended, LogState,
    SegmentView,
};

verus! {

/// Every entry of the first mapping is an entry of the second.
pub open spec fn submap(a: Map<Seq<char>, CommandPos>, b: Map<Seq<char>, CommandPos>) -> bool {
    forall|key: Seq<char>| #[trigger] a.contains_key(key) ==> b.contains_key(key) && a[key] == b[key]
}

/// Replay keeps one index within another: what holds of the smaller one
/// before the records holds of it after them.
pub proof fn lemma_replay_submap(a: LogState, b: LogState, gen: u64, data: Seq<u8>, pos: int)
    requires
        submap(a.index, b.index),
    ensures
        submap(replay_from(a, gen, data, pos).index, replay_from(b, gen, data, pos).index),
    decreases data.len() - pos,
{
    match record_at(data, pos) {
        Some(found) => {
            let cmd = CommandPos { gen, pos: pos as u64, len: found.1 as u64 };
            let a1 = apply(a, found.0, cmd);
            let b1 = apply(b, found.0, cmd);
            assert(submap(a1.index, b1.index)) by {
                assert forall|key: Seq<char>| #[trigger]
                    a1.index.contains_key(key) implies b1.index.contains_key(key) && a1.index[key]
                    == b1.index[key] by {
                    if key != found.0.key() {
                        assert(a.index.contains_key(key));
                    }
                }
            }
            lemma_replay_submap(a1, b1, gen, data, pos + found.1);
        },
        None => {},
    }
}

/// The index that the later segments alone yield lies within the index
/// that all segments yield.
pub proof fn lemma_suffix_submap(segments: Seq<SegmentView>, from: int)
    requires
        0 <= from <= segments.len(),
    ensures
        submap(
            replay_all(segments.subrange(from, segments.len() as int)).index,
            replay_all(segments).index,
        ),
    decreases segments.len(),
{
    let n = segments.len() as int;
    let later = segments.subrange(from, n);
    if from < n {
        let init = segments.drop_last();
        assert(later.drop_last() =~= init.subrange(from, n - 1));
        assert(later.last() == segments.last());
        lemma_suffix_submap(init, from);
        lemma_replay_submap(
            replay_all(init.subrange(from, n - 1)),
            replay_all(init),
            segments.last().gen,
            segments.last().data,
            0,
        );
    } else {
        assert(later =~= Seq::<SegmentView>::empty());
    }
}

/// Every entry that replay leaves was there before or points into the
/// segment that was replayed.
pub proof fn lemma_replay_gens(state: LogState, gen: u64, data: Seq<u8>, pos: int)
    ensures
        forall|key: Seq<char>| #[trigger]
            replay_from(state, gen, data, pos).index.contains_key(key) ==> (state.index.contains_key(
                key,
            ) && replay_from(state, gen, data, pos).index[key] == state.index[key]) || replay_from(
                state,
                gen,
                data,
                pos,
            ).index[key].gen == gen,
    decreases data.len() - pos,
{
    match record_at(data, pos) {
        Some(found) => {
            let cmd = CommandPos { gen, pos: pos as u64, len: found.1 as u64 };
            let next = apply(state, found.0, cmd);
            lemma_replay_gens(next, gen, data, pos + found.1);
            let after = replay_from(state, gen, data, pos);
            assert(after == replay_from(next, gen, data, pos + found.1));
            assert forall|key: Seq<char>| #[trigger] after.index.contains_key(key) implies (
            state.index.contains_key(key) && after.index[key] == state.index[key])
                || after.index[key].gen == gen by {
                if next.index.contains_key(key) && after.index[key] == next.index[key] {
                    if key != found.0.key() {
                        assert(state.index.contains_key(key));
                        assert(next.index[key] == state.index[key]);
                    } else {
                        assert(next.index[key] == cmd);
                    }
                }
            }
        },
        None => {},
    }
}

/// Every entry that a replay of some segments leaves points into one of
/// them.
pub proof fn lemma_replay_all_gens(segments: Seq<SegmentView>)
    ensures
        forall|key: Seq<char>| #[trigger]
            replay_all(segments).index.contains_key(key) ==> exists|i: int|
                0 <= i < segments.len() && (#[trigger] segments[i]).gen == replay_all(
                    segments,
                ).index[key].gen,
    decreases segments.len(),
{
    if segments.len() > 0 {
        let init = segments.drop_last();
        let last = segments.last();
        lemma_replay_all_gens(init);
        lemma_replay_gens(replay_all(init), last.gen, last.data, 0);
        let after = replay_all(segments).index;
        assert forall|key: Seq<char>| #[trigger] after.contains_key(key) implies exists|i: int|
            0 <= i < segments.len() && (#[trigger] segments[i]).gen == after[key].gen by {
            if replay_all(init).index.contains_key(key) && after[key] == replay_all(init).index[key] {
                let i = choose|i: int|
                    0 <= i < init.len() && (#[trigger] init[i]).gen == replay_all(init).index[key].gen;
                assert(segments[i] == init[i]);
            } else {
                assert(segments[segments.len() - 1].gen == after[key].gen);
            }
        }
    }
}

/// From `pos` on, every record is a `Put` that the index points at.
pub open spec fn all_live(index: Map<Seq<char>, CommandPos>, gen: u64, data: Seq<u8>, pos: int) -> bool
    decreases data.len() - pos,
{
    match record_at(data, pos) {
        Some(found) => {
            &&& found.0 is Put
            &&& index.contains_key(found.0.key())
            &&& index[found.0.key()] == (CommandPos { gen, pos: pos as u64, len: found.1 as u64 })
            &&& all_live(index, gen, data, pos + found.1)
        },
        None => true,
    }
}

/// Every entry has a length.
pub open spec fn lengths_positive(index: Map<Seq<char>, CommandPos>) -> bool {
    forall|key: Seq<char>| #[trigger] index.contains_key(key) ==> index[key].len > 0
}

/// A record's frame has between four bytes and four more than a prefix
/// can announce.
pub proof fn lemma_record_len(data: Seq<u8>, pos: int)
    requires
        record_at(data, pos) is Some,
    ensures
        record_at(data, pos) matches Some(found) && 4 <= found.1 <= 4 + u32::MAX && pos + found.1
            <= data.len(),
        0 <= pos,
{
    lemma_frame_bytes(data, pos);
}

/// A replay that leaves the uncompacted count as it was has met only
/// `Put`s of keys that were not there, and the index it leaves points at
/// every one of them and holds all that was there before.
pub proof fn lemma_clean_replay(state: LogState, gen: u64, data: Seq<u8>, pos: int)
    requires
        replay_from(state, gen, data, pos).uncompacted == state.uncompacted,
        lengths_positive(state.index),
    ensures
        submap(state.index, replay_from(state, gen, data, pos).index),
        all_live(replay_from(state, gen, data, pos).index, gen, data, pos),
    decreases data.len() - pos,
{
    match record_at(data, pos) {
        Some(found) => {
            lemma_record_len(data, pos);
            let cmd = CommandPos { gen, pos: pos as u64, len: found.1 as u64 };
            let next = apply(state, found.0, cmd);
            let after = replay_from(state, gen, data, pos);
            assert(after == replay_from(next, gen, data, pos + found.1));
            lemma_uncompacted_grows(next, gen, data, pos + found.1);
            assert(cmd.len == found.1);
            assert(displaced_len(state.index, found.0.key()) >= 0);
            assert(next.uncompacted == state.uncompacted);
            assert(found.0 is Put);
            assert(!state.index.contains_key(found.0.key()));
            assert(lengths_positive(next.index));
            lemma_clean_replay(next, gen, data, pos + found.1);
            assert(next.index.contains_key(found.0.key()) && next.index[found.0.key()] == cmd);
            assert(after.index.contains_key(found.0.key()) && after.index[found.0.key()] == cmd);
            assert(all_live(after.index, gen, data, pos + found.1));
            assert(submap(state.index, after.index)) by {
                assert forall|key: Seq<char>| #[trigger]
                    state.index.contains_key(key) implies after.index.contains_key(key)
                    && state.index[key] == after.index[key] by {
                    assert(next.index.contains_key(key));
                }
            }
        },
        None => {},
    }
}

/// Where only live `Put`s follow, replaying them onto an index gives that
/// index overridden by what replaying them onto nothing gives.
pub proof fn lemma_replay_union(
    onto: LogState,
    alone: LogState,
    under: Map<Seq<char>, CommandPos>,
    live: Map<Seq<char>, CommandPos>,
    gen: u64,
    data: Seq<u8>,
    pos: int,
)
    requires
        onto.index == under.union_prefer_right(alone.index),
        all_live(live, gen, data, pos),
    ensures
        replay_from(onto, gen, data, pos).index == under.union_prefer_right(
            replay_from(alone, gen, data, pos).index,
        ),
    decreases data.len() - pos,
{
    match record_at(data, pos) {
        Some(found) => {
            let cmd = CommandPos { gen, pos: pos as u64, len: found.1 as u64 };
            let onto1 = apply(onto, found.0, cmd);
            let alone1 = apply(alone, found.0, cmd);
            assert(onto1.index =~= under.union_prefer_right(alone1.index));
            lemma_replay_union(onto1, alone1, under, live, gen, data, pos + found.1);
        },
        None => {},
    }
}

/// Records that are live in some bytes are live in any start of them.
pub proof fn lemma_all_live_cut(
    live: Map<Seq<char>, CommandPos>,
    gen: u64,
    data: Seq<u8>,
    end: int,
    pos: int,
)
    requires
        all_live(live, gen, data, pos),
        0 <= end <= data.len(),
    ensures
        all_live(live, gen, data.subrange(0, end), pos),
    decreases end - pos,
{
    let cut = data.subrange(0, end);
    match record_at(cut, pos) {
        Some(found) => {
            lemma_record_len(cut, pos);
            assert(cut + data.subrange(end, data.len() as int) =~= data);
            lemma_record_at_stable(cut, data.subrange(end, data.len() as int), pos);
            lemma_all_live_cut(live, gen, data, end, pos + found.1);
        },
        None => {},
    }
}

/// Replaying live `Put`s onto entries of the index they are live in gives
/// entries of that index again.
pub proof fn lemma_live_replay_submap(
    state: LogState,
    live: Map<Seq<char>, CommandPos>,
    gen: u64,
    data: Seq<u8>,
    pos: int,
)
    requires
        submap(state.index, live),
        all_live(live, gen, data, pos),
    ensures
        submap(replay_from(state, gen, data, pos).index, live),
    decreases data.len() - pos,
{
    match record_at(data, pos) {
        Some(found) => {
            let cmd = CommandPos { gen, pos: pos as u64, len: found.1 as u64 };
            let next = apply(state, found.0, cmd);
            assert(submap(next.index, live)) by {
                assert forall|key: Seq<char>| #[trigger]
                    next.index.contains_key(key) implies live.contains_key(key) && next.index[key]
                    == live[key] by {
                    if key != found.0.key() {
                        assert(state.index.contains_key(key));
                    }
                }
            }
            lemma_live_replay_submap(next, live, gen, data, pos + found.1);
        },
        None => {},
    }
}

/// Every entry that replay leaves was there before or points at a record
/// of the segment that ends where the whole records end, or before.
pub proof fn lemma_replay_within(state: LogState, gen: u64, data: Seq<u8>, pos: int)
    requires
        0 <= pos,
        data.len() <= u64::MAX,
    ensures
        forall|key: Seq<char>| #[trigger]
            replay_from(state, gen, data, pos).index.contains_key(key) ==> (state.index.contains_key(
                key,
            ) && replay_from(state, gen, data, pos).index[key] == state.index[key]) || ({
                let at = replay_from(state, gen, data, pos).index[key];
                &&& at.gen == gen
                &&& pos <= at.pos
                &&& at.pos + at.len <= frames_end(data, pos)
            }),
    decreases data.len() - pos,
{
    match record_at(data, pos) {
        Some(found) => {
            lemma_record_len(data, pos);
            let cmd = CommandPos { gen, pos: pos as u64, len: found.1 as u64 };
            let next = apply(state, found.0, cmd);
            let after = replay_from(state, gen, data, pos);
            assert(after == replay_from(next, gen, data, pos + found.1));
            lemma_replay_within(next, gen, data, pos + found.1);
            lemma_frames_end_bounds(data, pos + found.1);
            assert forall|key: Seq<char>| #[trigger] after.index.contains_key(key) implies (
            state.index.contains_key(key) && after.index[key] == state.index[key]) || ({
                let at = after.index[key];
                &&& at.gen == gen
                &&& pos <= at.pos
                &&& at.pos + at.len <= frames_end(data, pos)
            }) by {
                if next.index.contains_key(key) && after.index[key] == next.index[key] {
                    if key != found.0.key() {
                        assert(state.index.contains_key(key));
                        assert(next.index[key] == state.index[key]);
                    } else {
                        assert(next.index[key] == cmd);
                    }
                }
            }
        },
        None => {},
    }
}

/// Two mappings hold the same for every key but one.
pub open spec fn agree_except(
    a: Map<Seq<char>, Seq<char>>,
    b: Map<Seq<char>, Seq<char>>,
    key: Seq<char>,
) -> bool {
    forall|other: Seq<char>|
        other != key ==> (#[trigger] a.contains_key(other) <==> b.contains_key(other)) && (
        a.contains_key(other) ==> a[other] == b[other])
}

/// The segments that a crash leaves while a compacted store takes the
/// place of an older one: the older segments from `from` on, the first
/// `written` bytes of the segment of live records, and, where
/// `with_active` says so, the new active segment.
pub open spec fn interrupted(
    old: Seq<SegmentView>,
    fresh: SegmentView,
    active: SegmentView,
    from: int,
    written: int,
    with_active: bool,
) -> Seq<SegmentView> {
    let kept = old.subrange(from, old.len() as int).push(
        SegmentView { gen: fresh.gen, data: fresh.data.subrange(0, written) },
    );
    if with_active {
        kept.push(active)
    } else {
        kept
    }
}

/// The replay of some segments and one more is the replay of the one more
/// onto the replay of the others.
pub proof fn lemma_replay_all_push(segments: Seq<SegmentView>, last: SegmentView)
    ensures
        replay_all(segments.push(last)) == replay_from(replay_all(segments), last.gen, last.data, 0),
{
    assert(segments.push(last).drop_last() =~= segments);
}

/// A prefix of whole records is made of whole records.
pub proof fn lemma_whole_part_is_whole(data: Seq<u8>)
    ensures
        frames_end(data.subrange(0, frames_end(data, 0)), 0) == frames_end(data, 0),
        0 <= frames_end(data, 0) <= data.len(),
{
    lemma_replay_truncated(empty_state(), 0, data, 0);
    lemma_frames_end_bounds(data, 0);
}

/// Whatever a crash leaves while a compacted log takes the place of an
/// older one opens to what the older log held or to what the compacted
/// one holds, provided the two differ in one key at most.
///
/// The older segments leave oldest first, and none leaves before the
/// segment of live records is written in full.
pub proof fn lemma_interrupted_model(
    old: Seq<SegmentView>,
    index: Map<Seq<char>, CommandPos>,
    uncompacted: int,
    fresh: SegmentView,
    active: SegmentView,
    live: Map<Seq<char>, CommandPos>,
    key: Seq<char>,
    from: int,
    written: int,
    with_active: bool,
)
    requires
        consistent(old, index, uncompacted),
        consistent(seq![fresh, active], live, 0),
        active.data.len() == 0,
        active.gen < u64::MAX,
        fresh.data.len() <= u64::MAX,
        forall|i: int| 0 <= i < old.len() ==> (#[trigger] old[i]).gen < fresh.gen,
        0 <= from <= old.len(),
        0 <= written <= fresh.data.len(),
        from > 0 || with_active ==> written == fresh.data.len(),
        agree_except(model(old, index), model(seq![fresh, active], live), key),
    ensures
        ({
            let left = interrupted(old, fresh, active, from, written, with_active);
            let found = model(opened(left), replay_all(whole_parts(left)).index);
            &&& ascending(left)
            &&& tails_clean(left)
            &&& (found == model(old, index) || found == model(seq![fresh, active], live))
        }),
{
    let n = old.len() as int;
    let kept = old.subrange(from, n);
    let partial = SegmentView { gen: fresh.gen, data: fresh.data.subrange(0, written) };
    let left = interrupted(old, fresh, active, from, written, with_active);
    let end = frames_end(partial.data, 0);
    let cut = whole_part(partial);
    let both = seq![fresh, active];
    lemma_whole_part_is_whole(partial.data);
    assert(cut.data =~= fresh.data.subrange(0, end));
    assert(both[0] == fresh && both[1] == active);
    assert(fresh.gen < active.gen);
    assert(record_at(active.data, 0) is None);
    assert(frames_end(active.data, 0) == 0);
    assert(whole_part(active) == active) by {
        assert(active.data.subrange(0, 0) =~= active.data);
    }
    assert forall|i: int| 0 <= i < kept.len() implies whole_part(#[trigger] kept[i]) == kept[i] by {
        assert(kept[i] == old[from + i]);
        assert(frames_end(old[from + i].data, 0) == old[from + i].data.len());
        assert(kept[i].data.subrange(0, kept[i].data.len() as int) =~= kept[i].data);
    }
    let wholes = whole_parts(left);
    let expected = if with_active {
        kept.push(cut).push(active)
    } else {
        kept.push(cut)
    };
    assert(wholes =~= expected) by {
        assert forall|i: int| 0 <= i < left.len() implies whole_part(#[trigger] left[i])
            == expected[i] by {
            if i < kept.len() {
                assert(left[i] == kept[i]);
            }
        }
    }
    assert(ascending(left) && ascending(expected)) by {
        assert forall|a: int, b: int| 0 <= a < b < left.len() implies (#[trigger] left[a]).gen < (
        #[trigger] left[b]).gen && expected[a].gen < expected[b].gen by {
            if a < kept.len() {
                assert(left[a] == old[from + a] && expected[a] == old[from + a]);
                assert(old[from + a].gen < fresh.gen);
                if b < kept.len() {
                    assert(left[b] == old[from + b] && expected[b] == old[from + b]);
                    assert(old[from + a].gen < old[from + b].gen);
                }
            }
        }
    }
    assert(tails_clean(left)) by {
        assert forall|i: int| 0 <= i < left.len() - 1 implies (#[trigger] left[i]).data.len()
            - frames_end(left[i].data, 0) < 4 by {
            if i < kept.len() {
                assert(left[i] == old[from + i]);
                assert(frames_end(old[from + i].data, 0) == old[from + i].data.len());
            } else {
                assert(with_active && left[i] == partial);
                assert(partial.data =~= fresh.data);
                assert(frames_end(both[0].data, 0) == both[0].data.len());
            }
        }
    }
    // What the replay of the segments that are left yields.
    let base = replay_all(kept);
    let state = replay_from(base, fresh.gen, cut.data, 0);
    lemma_replay_all_push(kept, cut);
    if with_active {
        lemma_replay_all_push(kept.push(cut), active);
    }
    assert(replay_all(wholes) == state);
    // The segment of live records holds nothing but them.
    let none = Seq::<SegmentView>::empty();
    assert(both =~= none.push(fresh).push(active));
    lemma_replay_all_push(none.push(fresh), active);
    lemma_replay_all_push(none, fresh);
    assert(replay_all(none) == empty_state());
    let alone_all = replay_from(empty_state(), fresh.gen, fresh.data, 0);
    assert(alone_all == (LogState { index: live, uncompacted: 0 }));
    lemma_clean_replay(empty_state(), fresh.gen, fresh.data, 0);
    lemma_all_live_cut(live, fresh.gen, fresh.data, end, 0);
    let alone = replay_from(empty_state(), fresh.gen, cut.data, 0);
    assert(base.index =~= base.index.union_prefer_right(empty_state().index));
    lemma_replay_union(base, empty_state(), base.index, live, fresh.gen, cut.data, 0);
    lemma_live_replay_submap(empty_state(), live, fresh.gen, cut.data, 0);
    lemma_replay_within(empty_state(), fresh.gen, cut.data, 0);
    lemma_suffix_submap(old, from);
    lemma_replay_all_gens(kept);
    if written == fresh.data.len() {
        assert(partial.data =~= fresh.data);
        assert(frames_end(both[0].data, 0) == both[0].data.len());
        assert(cut.data =~= fresh.data);
    }
    if from == 0 {
        assert(kept =~= old);
    }
    // What the segments that are left hold for each key.
    let reopened = opened(left);
    let last = SegmentView { gen: next_gen(left) as u64, data: Seq::<u8>::empty() };
    assert(reopened == expected.push(last));
    assert(ascending(reopened)) by {
        assert forall|a: int, b: int| 0 <= a < b < reopened.len() implies (
        #[trigger] reopened[a]).gen < (#[trigger] reopened[b]).gen by {
            if b < expected.len() {
                assert(expected[a].gen < expected[b].gen);
            } else {
                assert(left[left.len() - 1].gen == expected[expected.len() - 1].gen);
                if a < expected.len() - 1 {
                    assert(expected[a].gen < expected[expected.len() - 1].gen);
                }
            }
        }
    }
    let found = model(reopened, state.index);
    let before = model(old, index);
    let after = model(both, live);
    lemma_segment_data_found(reopened, kept.len() as int);
    lemma_segment_data_found(both, 0);
    assert forall|k: Seq<char>| #[trigger]
        alone.index.contains_key(k) implies live.contains_key(k) && value_at(reopened, state.index[k])
        == value_at(both, live[k]) by {
        let at = live[k];
        assert(state.index[k] == at);
        assert(points_at_put(both, k, at));
        lemma_record_at_cut(fresh.data, end, at.pos as int);
    }
    assert forall|k: Seq<char>| #[trigger]
        base.index.contains_key(k) && !alone.index.contains_key(k) implies index.contains_key(k)
        && value_at(reopened, state.index[k]) == value_at(old, index[k]) by {
        let at = index[k];
        assert(state.index[k] == at);
        let i = choose|i: int| 0 <= i < kept.len() && (#[trigger] kept[i]).gen == base.index[k].gen;
        assert(kept[i] == old[from + i]);
        assert(reopened[i] == kept[i]);
        lemma_segment_data_found(reopened, i);
        lemma_segment_data_found(old, from + i);
    }
    assert forall|k: Seq<char>| index.contains_key(k) && live.contains_key(k) implies #[trigger]
        state.index.contains_key(k) by {
        if from == 0 {
            assert(base.index.contains_key(k));
        } else {
            assert(alone.index.contains_key(k));
        }
    }
    if alone.index.contains_key(key) || (!base.index.contains_key(key) && !live.contains_key(key)) {
        assert forall|k: Seq<char>|
            (#[trigger] found.contains_key(k) <==> after.contains_key(k)) && (found.contains_key(k)
                ==> found[k] == after[k]) by {
            if k != key {
                assert(before.contains_key(k) <==> after.contains_key(k));
            }
        }
        assert(found =~= after);
    } else {
        assert forall|k: Seq<char>|
            (#[trigger] found.contains_key(k) <==> before.contains_key(k)) && (found.contains_key(
                k,
            ) ==> found[k] == before[k]) by {
            if k != key {
                assert(before.contains_key(k) <==> after.contains_key(k));
            }
        }
        assert(found =~= before);
    }
}

/// The start of a frame, short of the whole, is no record.
pub proof fn lemma_torn_frame(data: Seq<u8>, payload: Seq<u8>, written: int)
    requires
        payload.len() <= u32::MAX,
        0 <= written < 4 + payload.len(),
    ensures
        record_at(data + framed(payload).subrange(0, written), data.len() as int) is None,
{
    lemma_auto_spec_u32_to_from_le_bytes();
    let torn = framed(payload).subrange(0, written);
    let all = data + torn;
    let pos = data.len() as int;
    if written >= 4 {
        assert(all.subrange(pos, pos + 4) =~= spec_u32_to_le_bytes(payload.len() as u32));
    }
}

/// Whole records followed by the start of a frame end where the whole
/// records end.
pub proof fn lemma_torn_tail(data: Seq<u8>, payload: Seq<u8>, written: int, pos: int)
    requires
        payload.len() <= u32::MAX,
        0 <= written < 4 + payload.len(),
        0 <= pos <= data.len(),
        frames_end(data, pos) == data.len(),
    ensures
        frames_end(data + framed(payload).subrange(0, written), pos) == data.len(),
    decreases data.len() - pos,
{
    let torn = framed(payload).subrange(0, written);
    match record_at(data, pos) {
        Some(found) => {
            lemma_record_at_stable(data, torn, pos);
            lemma_record_len(data, pos);
            lemma_torn_tail(data, payload, written, pos + found.1);
        },
        None => {
            lemma_torn_frame(data, payload, written);
        },
    }
}

/// A crash in the middle of an append loses the record and nothing else:
/// the segments with the start of a frame behind the last of them open to
/// a store that holds what the store held before the append.
pub proof fn lemma_torn_append_recovers(
    before: KvStore,
    payload: Seq<u8>,
    written: int,
    reopened: KvStore,
)
    requires
        before.wf(),
        before.current_gen() < u64::MAX,
        payload.len() <= u32::MAX,
        0 <= written < 4 + payload.len(),
        reopened.opened_from(
            with_appended(before.segments(), framed(payload).subrange(0, written)),
        ),
    ensures
        reopened@ == before@,
        tails_clean(with_appended(before.segments(), framed(payload).subrange(0, written))),
        ascending(with_appended(before.segments(), framed(payload).subrange(0, written))),
{
    lemma_store_invariant(before);
    let segments = before.segments();
    let torn = framed(payload).subrange(0, written);
    let left = with_appended(segments, torn);
    let last = segments.last();
    assert(segments[segments.len() - 1] == last);
    assert(frames_end(last.data, 0) == last.data.len());
    lemma_torn_tail(last.data, payload, written, 0);
    assert((last.data + torn).subrange(0, last.data.len() as int) =~= last.data);
    assert(whole_parts(left) =~= segments) by {
        assert forall|i: int| 0 <= i < left.len() implies whole_part(#[trigger] left[i])
            == segments[i] by {
            if i < left.len() - 1 {
                assert(left[i] == segments[i]);
                assert(frames_end(segments[i].data, 0) == segments[i].data.len());
                assert(segments[i].data.subrange(0, segments[i].data.len() as int)
                    =~= segments[i].data);
            }
        }
    }
    assert(ascending(left)) by {
        assert forall|a: int, b: int| 0 <= a < b < left.len() implies (#[trigger] left[a]).gen < (
        #[trigger] left[b]).gen by {
            assert(segments[a].gen < segments[b].gen);
        }
    }
    assert(tails_clean(left)) by {
        assert forall|i: int| 0 <= i < left.len() - 1 implies (#[trigger] left[i]).data.len()
            - frames_end(left[i].data, 0) < 4 by {
            assert(left[i] == segments[i]);
            assert(frames_end(segments[i].data, 0) == segments[i].data.len());
        }
    }
    assert forall|i: int| 0 <= i < segments.len() implies (#[trigger] segments[i]).gen < next_gen(
        left,
    ) by {
        if i < segments.len() - 1 {
            assert(segments[i].gen < segments[segments.len() - 1].gen);
        }
    }
    lemma_consistent_push_empty(
        segments,
        before.index_map(),
        before.uncompacted() as int,
        next_gen(left) as u64,
    );
}

/// A crash while a compacted log takes the place of the log on disk loses
/// nothing: whatever is left opens to a store that holds what the store
/// held before the call or what it holds after it.
///
/// This is the case after `compaction`, and after a `set` or a `remove`
/// that set off a compaction, for the key of that call. The host writes
/// the segment of live records, then the new active segment, and then
/// removes the old segments, oldest first: what a crash leaves is a start
/// of that.
pub proof fn lemma_interrupted_compaction_recovers(
    before: KvStore,
    after: KvStore,
    key: Seq<char>,
    from: int,
    written: int,
    with_active: bool,
    reopened: KvStore,
)
    requires
        before.wf(),
        after.wf(),
        after.segments().len() == 2,
        after.segments()[1].data.len() == 0,
        after.uncompacted() == 0,
        before.current_gen() < after.segments()[0].gen,
        after.current_gen() < u64::MAX,
        agree_except(before@, after@, key),
        0 <= from <= before.segments().len(),
        0 <= written <= after.segments()[0].data.len(),
        from > 0 || with_active ==> written == after.segments()[0].data.len(),
        reopened.opened_from(
            interrupted(
                before.segments(),
                after.segments()[0],
                after.segments()[1],
                from,
                written,
                with_active,
            ),
        ),
    ensures
        reopened@ == before@ || reopened@ == after@,
{
    lemma_store_invariant(before);
    lemma_store_invariant(after);
    let old = before.segments();
    let fresh = after.segments()[0];
    let active = after.segments()[1];
    assert(after.segments() =~= seq![fresh, active]);
    assert forall|i: int| 0 <= i < old.len() implies (#[trigger] old[i]).gen < fresh.gen by {
        if i < old.len() - 1 {
            assert(old[i].gen < old[old.len() - 1].gen);
        }
    }
    lemma_total_len_prefix(after.segments(), 0);
    lemma_total_len_prefix(after.segments(), 1);
    assert(after.segments().subrange(0, 1).drop_last() =~= Seq::<SegmentView>::empty());
    lemma_interrupted_model(
        old,
        before.index_map(),
        before.uncompacted() as int,
        fresh,
        active,
        after.index_map(),
        key,
        from,
        written,
        with_active,
    );
}

/// Whether an append of `record` sets off a compaction.
pub open spec fn compacts(before: KvStore, record: Record) -> bool {
    let frame = frame_of(record)->0;
    apply(
        LogState { index: before.index_map(), uncompacted: before.uncompacted() as int },
        record,
        before.next_cmd(frame),
    ).uncompacted > COMPACTION_THRESHOLD
}

/// The segments that a crash can leave while the host brings the files in
/// line after an append of `record`.
///
/// Where the append set off no compaction, the host appends the frame to
/// the active file: left are the segments as they were, with the first
/// `written` bytes of the frame. Where it set off a compaction, left is
/// what `interrupted` describes.
pub open spec fn left_by_crash(
    before: KvStore,
    after: KvStore,
    record: Record,
    from: int,
    written: int,
    with_active: bool,
) -> Seq<SegmentView> {
    if compacts(before, record) {
        interrupted(
            before.segments(),
            after.segments()[0],
            after.segments()[1],
            from,
            written,
            with_active,
        )
    } else {
        with_appended(before.segments(), frame_of(record)->0.subrange(0, written))
    }
}

/// Whether `from`, `written` and `with_active` describe a point at which
/// the host can be interrupted.
pub open spec fn can_be_left(
    before: KvStore,
    after: KvStore,
    record: Record,
    from: int,
    written: int,
    with_active: bool,
) -> bool {
    if compacts(before, record) {
        &&& 0 <= from <= before.segments().len()
        &&& 0 <= written <= after.segments()[0].data.len()
        &&& from > 0 || with_active ==> written == after.segments()[0].data.len()
    } else {
        0 <= written <= frame_of(record)->0.len()
    }
}

/// A crash at any point after a `set` or a `remove`, while the host brings
/// the files in line, loses at most that call: the files that are left
/// open to a store that holds what the store held before the call or what
/// it held after it.
pub proof fn lemma_crash_after_append(
    before: KvStore,
    after: KvStore,
    record: Record,
    from: int,
    written: int,
    with_active: bool,
    reopened: KvStore,
)
    requires
        before.wf(),
        after.wf(),
        before.can_append(record),
        before.appended(after, record),
        after.current_gen() < u64::MAX,
        can_be_left(before, after, record, from, written, with_active),
        reopened.opened_from(left_by_crash(before, after, record, from, written, with_active)),
    ensures
        reopened@ == before@ || reopened@ == after@,
{
    let frame = frame_of(record)->0;
    let payload = payload_of(record)->0;
    if compacts(before, record) {
        assert(after.segments()[1].data =~= Seq::<u8>::empty());
        assert(agree_except(before@, after@, record.key()));
        lemma_interrupted_compaction_recovers(
            before,
            after,
            record.key(),
            from,
            written,
            with_active,
            reopened,
        );
    } else {
        lemma_payload_at_end(Seq::<u8>::empty(), payload);
        if written < frame.len() {
            lemma_torn_append_recovers(before, payload, written, reopened);
        } else {
            assert(frame.subrange(0, written) =~= frame);
            lemma_reopen_preserves(after, reopened);
        }
    }
}

/// A crash at any point after a `compaction`, while the host brings the
/// files in line, loses nothing: the files that are left open to a store
/// that holds what the store held.
pub proof fn lemma_crash_after_compaction(
    before: KvStore,
    after: KvStore,
    from: int,
    written: int,
    with_active: bool,
    reopened: KvStore,
)
    requires
        before.wf(),
        after.wf(),
        after@ == before@,
        after.uncompacted() == 0,
        after.segments() == compacted(
            before.segments(),
            before.index_entries(),
            before.current_gen(),
        ),
        before.current_gen() < u64::MAX - 2,
        after.current_gen() == before.current_gen() + 2,
        0 <= from <= before.segments().len(),
        0 <= written <= after.segments()[0].data.len(),
        from > 0 || with_active ==> written == after.segments()[0].data.len(),
        reopened.opened_from(
            interrupted(
                before.segments(),
                after.segments()[0],
                after.segments()[1],
                from,
                written,
                with_active,
            ),
        ),
    ensures
        reopened@ == before@,
{
    assert(after.segments()[1].data =~= Seq::<u8>::empty());
    let key = Seq::<char>::empty();
    assert(agree_except(before@, after@, key));
    lemma_interrupted_compaction_recovers(before, after, key, from, written, with_active, reopened);
}

/// The list holds the segments in their order, each with its length.
pub open spec fn lists(files: Seq<FileLen>, segments: Seq<SegmentView>) -> bool {
    &&& files.len() == segments.len()
    &&& forall|i: int|
        0 <= i < files.len() ==> (#[trigger] files[i]).gen == segments[i].gen && files[i].len
            == segments[i].data.len()
}

/// The removal of each of the files, in their order.
pub open spec fn removals(files: Seq<FileLen>) -> Seq<DiskOp> {
    Seq::new(files.len(), |i: int| DiskOp::Remove { gen: files[i].gen })
}

/// Where no file belongs to a segment, every file is removed.
proof fn lemma_all_removed(files: Seq<FileLen>, segments: Seq<SegmentView>, m: int)
    requires
        0 <= m <= files.len(),
        forall|i: int|
            0 <= i < files.len() ==> segment_data(segments, (#[trigger] files[i]).gen) is None,
    ensures
        remove_ops(files.subrange(0, m), segments) == removals(files.subrange(0, m)),
    decreases m,
{
    let upto = files.subrange(0, m);
    if m > 0 {
        lemma_all_removed(files, segments, m - 1);
        assert(upto.drop_last() =~= files.subrange(0, m - 1));
        assert(upto.last() == files[m - 1]);
        assert(removals(upto) =~= removals(files.subrange(0, m - 1)).push(
            DiskOp::Remove { gen: files[m - 1].gen },
        ));
    } else {
        assert(remove_ops(upto, segments) =~= removals(upto));
    }
}

/// Where every file belongs to a segment, no file is removed.
proof fn lemma_none_removed(files: Seq<FileLen>, segments: Seq<SegmentView>, m: int)
    requires
        0 <= m <= files.len(),
        forall|i: int|
            0 <= i < files.len() ==> segment_data(segments, (#[trigger] files[i]).gen) is Some,
    ensures
        remove_ops(files.subrange(0, m), segments) == Seq::<DiskOp>::empty(),
    decreases m,
{
    let upto = files.subrange(0, m);
    if m > 0 {
        lemma_none_removed(files, segments, m - 1);
        assert(upto.drop_last() =~= files.subrange(0, m - 1));
        assert(upto.last() == files[m - 1]);
    }
}

/// Where the files hold the segments up to the last bytes of the last
/// one, nothing is written for any segment but the last.
proof fn lemma_only_last_written(
    files: Seq<FileLen>,
    old: Seq<SegmentView>,
    grown: Seq<SegmentView>,
    k: int,
)
    requires
        lists(files, old),
        ascending(old),
        grown.len() == old.len(),
        0 <= k < old.len(),
        forall|i: int| 0 <= i < old.len() - 1 ==> #[trigger] grown[i] == old[i],
    ensures
        write_ops(files, grown.subrange(0, k)) == Seq::<DiskOp>::empty(),
    decreases k,
{
    let upto = grown.subrange(0, k);
    if k > 0 {
        lemma_only_last_written(files, old, grown, k - 1);
        assert(upto.drop_last() =~= grown.subrange(0, k - 1));
        assert(upto.last() == old[k - 1]);
        assert forall|a: int, b: int| 0 <= a < b < files.len() implies (#[trigger] files[a]).gen != (
        #[trigger] files[b]).gen by {
            assert(old[a].gen < old[b].gen);
        }
        lemma_file_len_found(files, k - 1);
    }
}

/// After a compaction the plan is: write the segment of live records,
/// write the new active segment, and remove every file there was, in the
/// order of the list.
pub proof fn lemma_plan_after_compaction(
    files: Seq<FileLen>,
    old: Seq<SegmentView>,
    fresh: SegmentView,
    active: SegmentView,
)
    requires
        lists(files, old),
        forall|i: int| 0 <= i < old.len() ==> (#[trigger] old[i]).gen < fresh.gen,
        fresh.gen < active.gen,
    ensures
        sync_ops(files, seq![fresh, active]) == seq![
            DiskOp::Append { gen: fresh.gen, from: 0 },
            DiskOp::Append { gen: active.gen, from: 0 },
        ] + removals(files),
{
    let both = seq![fresh, active];
    let none = Seq::<SegmentView>::empty();
    assert(both.drop_last() =~= none.push(fresh));
    assert(none.push(fresh).drop_last() =~= none);
    assert forall|i: int| 0 <= i < files.len() implies (#[trigger] files[i]).gen != fresh.gen
        && files[i].gen != active.gen by {
        assert(old[i].gen < fresh.gen);
    }
    lemma_file_len_missing(files, fresh.gen);
    lemma_file_len_missing(files, active.gen);
    assert(write_ops(files, none) =~= Seq::<DiskOp>::empty());
    assert(none.push(fresh).last() == fresh);
    assert(write_op(files, fresh) == Some(DiskOp::Append { gen: fresh.gen, from: 0 }));
    assert(write_ops(files, none.push(fresh)) =~= seq![DiskOp::Append { gen: fresh.gen, from: 0 }]);
    assert(both.last() == active);
    assert(write_op(files, active) == Some(DiskOp::Append { gen: active.gen, from: 0 }));
    assert(write_ops(files, both) =~= seq![
        DiskOp::Append { gen: fresh.gen, from: 0 },
        DiskOp::Append { gen: active.gen, from: 0 },
    ]);
    assert forall|i: int| 0 <= i < files.len() implies segment_data(both, (#[trigger] files[i]).gen)
        is None by {
        assert(segment_data(none, files[i].gen) is None);
        assert(segment_data(none.push(fresh), files[i].gen) is None);
    }
    lemma_all_removed(files, both, files.len() as int);
    assert(files.subrange(0, files.len() as int) =~= files);
}

/// After an append that set off no compaction the plan is the one step
/// that appends what is new to the active file.
pub proof fn lemma_plan_after_append(files: Seq<FileLen>, old: Seq<SegmentView>, more: Seq<u8>)
    requires
        lists(files, old),
        ascending(old),
        old.len() > 0,
        more.len() > 0,
        old.last().data.len() + more.len() <= u64::MAX,
    ensures
        sync_ops(files, with_appended(old, more)) == seq![
            DiskOp::Append { gen: old.last().gen, from: old.last().data.len() as u64 },
        ],
{
    let n = old.len() as int;
    let grown = with_appended(old, more);
    assert(grown.drop_last() =~= grown.subrange(0, n - 1));
    lemma_only_last_written(files, old, grown, n - 1);
    assert forall|a: int, b: int| 0 <= a < b < files.len() implies (#[trigger] files[a]).gen != (
    #[trigger] files[b]).gen by {
        assert(old[a].gen < old[b].gen);
    }
    lemma_file_len_found(files, n - 1);
    assert(ascending(grown)) by {
        assert forall|a: int, b: int| 0 <= a < b < grown.len() implies (#[trigger] grown[a]).gen < (
        #[trigger] grown[b]).gen by {
            assert(old[a].gen < old[b].gen);
        }
    }
    assert forall|i: int| 0 <= i < files.len() implies segment_data(grown, (#[trigger] files[i]).gen)
        is Some by {
        lemma_segment_data_found(grown, i);
    }
    lemma_none_removed(files, grown, files.len() as int);
    assert(files.subrange(0, files.len() as int) =~= files);
    assert(write_op(files, grown.last()) == Some(
        DiskOp::Append { gen: old.last().gen, from: old.last().data.len() as u64 },
    ));
    assert(sync_ops(files, grown) =~= seq![
        DiskOp::Append { gen: old.last().gen, from: old.last().data.len() as u64 },
    ]);
}

} // verus!
