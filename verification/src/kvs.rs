//! The store: log segments, an index over their live records, and
//! compaction.
//!
//! The store works on the bytes of its segments and leaves it to its host
//! to keep files in line with them: the host hands the bytes of the
//! segment files to `open`, and after every call it carries out what
//! `persist::sync_plan` lists.

use vstd::prelude::*;
use vstd::slice::slice_subrange;
use crate::bufio::{BufReaderWithPos, BufWriterWithPos};
use crate::engine::{engine_choice, resolve_engine, text_of, EngineFailure};
use crate::error::KvsError;
use crate::flex::reports_unencodable;
use crate::index::{
    bytes_of, lemma_bytes_of_bounds, lemma_map_of_dom, lemma_map_of_entry, map_of, removed,
    upserted, CommandPos, Index,
};
use crate::record::{
    deserialize_from_log, encode_record, frame_of, framed, lemma_frame_bytes, lemma_payload_at_end,
    lemma_payload_roundtrip, payload_at, payload_of, record_at, record_fields, record_of,
    KvsLogLine, Record,
};
use crate::replay::{
    after_all, apply, ascending, can_open, consistent, displaced_len, effect, empty_state,
    entry_within, frames_end, lemma_consistent_append, lemma_consistent_push_empty,
    lemma_consistent_push_segment, lemma_frames_end_bounds, lemma_last_put_wins,
    lemma_record_at_cut, lemma_record_at_stable, lemma_removed_stays_away, lemma_replay_append,
    lemma_replay_shift, lemma_replay_truncated, lemma_segment_data_push, lemma_total_len_nonneg,
    lemma_total_len_prefix, lemma_uncompacted_grows, lemma_whole_parts_of_whole, model, next_gen, opened, points_at_put,
    replay_all, replay_from, segment_data, tails_clean, total_len, value_at, whole_part,
    whole_parts, with_appended, LogState, SegmentView,
};

verus! {

/// Once more bytes than this belong to records that nothing points at, the
/// store compacts.
pub const COMPACTION_THRESHOLD: u64 = 1024 * 1024;

/// The bytes of one log segment.
#[derive(Debug, PartialEq, Eq)]
pub struct Segment {
    pub gen: u64,
    pub data: Vec<u8>,
}

impl View for Segment {
    type V = SegmentView;

    open spec fn view(&self) -> SegmentView {
        SegmentView { gen: self.gen, data: self.data@ }
    }
}

/// The bytes of the record at `cmd`.
pub open spec fn record_bytes(segments: Seq<SegmentView>, cmd: CommandPos) -> Seq<u8> {
    match segment_data(segments, cmd.gen) {
        Some(data) => data.subrange(cmd.pos as int, cmd.pos + cmd.len),
        None => Seq::empty(),
    }
}

/// The records that the entries point at, one after the other.
pub open spec fn live_records(
    segments: Seq<SegmentView>,
    entries: Seq<(Seq<char>, CommandPos)>,
) -> Seq<u8>
    decreases entries.len(),
{
    if entries.len() == 0 {
        Seq::empty()
    } else {
        live_records(segments, entries.drop_last()) + record_bytes(segments, entries.last().1)
    }
}

/// The entries after their records were written one after the other into
/// the segment `gen`.
pub open spec fn relocated(entries: Seq<(Seq<char>, CommandPos)>, gen: u64) -> Seq<
    (Seq<char>, CommandPos),
> {
    Seq::new(
        entries.len(),
        |i: int|
            (
                entries[i].0,
                CommandPos {
                    gen,
                    pos: bytes_of(entries.subrange(0, i)) as u64,
                    len: entries[i].1.len,
                },
            ),
    )
}

/// The entries after a record that lies at `cmd` took effect.
pub open spec fn entries_after(
    entries: Seq<(Seq<char>, CommandPos)>,
    record: Record,
    cmd: CommandPos,
) -> Seq<(Seq<char>, CommandPos)> {
    match record {
        Record::Put { key, .. } => upserted(entries, key, cmd),
        Record::Rm { key } => removed(entries, key),
    }
}

/// The two segments that compaction leaves when the active segment has
/// generation `gen`: one that holds the live records, and an empty one.
pub open spec fn compacted(
    segments: Seq<SegmentView>,
    entries: Seq<(Seq<char>, CommandPos)>,
    gen: u64,
) -> Seq<SegmentView> {
    seq![
        SegmentView { gen: (gen + 1) as u64, data: live_records(segments, entries) },
        SegmentView { gen: (gen + 2) as u64, data: Seq::empty() },
    ]
}

/// The segments as plain values.
pub open spec fn views_of(segments: Seq<Segment>) -> Seq<SegmentView> {
    Seq::new(segments.len(), |i: int| segments[i]@)
}

/// A key/value store kept as an append-only log in numbered segments.
///
/// `readers` holds the segments that are no longer written, oldest first;
/// `writer` holds the bytes of the active segment, whose generation is
/// `current_gen`, the largest of all.
pub struct KvStore {
    readers: Vec<Segment>,
    writer: BufWriterWithPos,
    current_gen: u64,
    index: Index,
    uncompacted: u64,
    log_bytes: u64,
    engine: String,
}

impl View for KvStore {
    type V = Map<Seq<char>, Seq<char>>;

    /// The mapping from keys to values that the store holds.
    open spec fn view(&self) -> Map<Seq<char>, Seq<char>> {
        model(self.segments(), self.index_map())
    }
}

impl KvStore {
    /// All segments, oldest first; the last one is the active segment.
    pub closed spec fn segments(&self) -> Seq<SegmentView> {
        views_of(self.readers@).push(SegmentView { gen: self.current_gen, data: self.writer@ })
    }

    /// The live keys with the places of their records, in the order in
    /// which compaction writes the records.
    pub closed spec fn index_entries(&self) -> Seq<(Seq<char>, CommandPos)> {
        self.index.entries()
    }

    /// The index: for every live key, where its record lies.
    pub open spec fn index_map(&self) -> Map<Seq<char>, CommandPos> {
        map_of(self.index_entries())
    }

    /// The bytes of records that no entry of the index points at.
    pub closed spec fn uncompacted(&self) -> u64 {
        self.uncompacted
    }

    /// The generation of the active segment.
    pub closed spec fn current_gen(&self) -> u64 {
        self.current_gen
    }

    /// The name of the engine that the directory is marked with.
    pub closed spec fn engine(&self) -> Seq<char> {
        self.engine@
    }

    /// The invariant of the store.
    ///
    /// The index and the uncompacted count are exactly what a replay of the
    /// segments yields; every entry of the index points at a `Put` of its
    /// key; and every byte of every segment belongs either to a record that
    /// the index points at or to the uncompacted count.
    pub closed spec fn wf(&self) -> bool {
        &&& self.writer.wf()
        &&& self.index.wf()
        &&& consistent(self.segments(), self.index@, self.uncompacted as int)
        &&& self.log_bytes == total_len(self.segments())
        &&& self.index.live_bytes() + self.uncompacted == self.log_bytes
    }

    /// Whether the store is what opening the given segments yields: it
    /// has their whole records and a new, empty active segment, and its
    /// index and uncompacted count are what a replay of those records
    /// gives.
    pub open spec fn opened_from(&self, segments: Seq<SegmentView>) -> bool {
        &&& self.segments() == opened(segments)
        &&& self.current_gen() == next_gen(segments)
        &&& self.index_map() == replay_all(whole_parts(segments)).index
        &&& self.uncompacted() == replay_all(whole_parts(segments)).uncompacted
    }

    /// Opens the store of a directory: chooses the engine that owns it and
    /// replays its segments, which come oldest first.
    ///
    /// The engine is chosen from the one that is asked for and the one that
    /// the directory's marker records, before any segment is looked at; the
    /// chosen name is returned beside the store, and `sync_plan` has it
    /// written to the marker where none is recorded. Every segment is
    /// replayed up to the end of its last whole record and cut back to
    /// there; the store then starts a new, empty active segment with the
    /// next generation. A damaged record is accepted at the end of the
    /// last segment only, as a write that was cut short.
    ///
    /// Fails with `WrongEngineType` where another engine is asked for than
    /// is recorded, and with `UnknownEngineType` where the engine asked for
    /// is not known. Fails with `CorruptRecord` where the generations do
    /// not grow or an earlier segment ends in a damaged record, and with
    /// `TryFromInt` where the sizes or the next generation exceed 64 bits.
    pub fn open(segments: Vec<Segment>, requested: Option<String>, recorded: Option<String>) -> (r:
        Result<(KvStore, String), KvsError>)
        ensures
            match r {
                Ok((store, engine)) => {
                    &&& engine_choice(text_of(requested), text_of(recorded)) == Ok::<
                        _,
                        EngineFailure,
                    >(engine@)
                    &&& can_open(views_of(segments@))
                    &&& store.wf()
                    &&& store.opened_from(views_of(segments@))
                    &&& store.engine() == engine@
                },
                Err(KvsError::WrongEngineType(name)) => engine_choice(
                    text_of(requested),
                    text_of(recorded),
                ) == Err::<Seq<char>, _>(EngineFailure::Wrong) && Some(name@) == text_of(requested),
                Err(KvsError::UnknownEngineType(name)) => engine_choice(
                    text_of(requested),
                    text_of(recorded),
                ) == Err::<Seq<char>, _>(EngineFailure::Unknown) && Some(name@) == text_of(
                    requested,
                ),
                Err(err) => {
                    &&& engine_choice(text_of(requested), text_of(recorded)) is Ok
                    &&& !can_open(views_of(segments@))
                    &&& if total_len(views_of(segments@)) > u64::MAX || (ascending(
                        views_of(segments@),
                    ) && tails_clean(views_of(segments@))) {
                        err is TryFromInt
                    } else {
                        err is CorruptRecord
                    }
                },
            },
    {
        let engine = match resolve_engine(requested, recorded) {
            Ok(engine) => engine,
            Err(err) => {
                return Err(err);
            },
        };
        match KvStore::open_log(segments, engine.clone()) {
            Ok(store) => Ok((store, engine)),
            Err(err) => Err(err),
        }
    }

    /// Replays the segments of a directory into a store for the engine
    /// that was chosen.
    fn open_log(segments: Vec<Segment>, engine: String) -> (r: Result<KvStore, KvsError>)
        ensures
            match r {
                Ok(store) => {
                    &&& can_open(views_of(segments@))
                    &&& store.wf()
                    &&& store.opened_from(views_of(segments@))
                    &&& store.engine() == engine@
                },
                Err(err) => {
                    &&& !can_open(views_of(segments@))
                    &&& !(err is WrongEngineType) && !(err is UnknownEngineType)
                    &&& if total_len(views_of(segments@)) > u64::MAX || (ascending(
                        views_of(segments@),
                    ) && tails_clean(views_of(segments@))) {
                        err is TryFromInt
                    } else {
                        err is CorruptRecord
                    }
                },
            },
    {
        let ghost input = views_of(segments@);
        let n = segments.len();
        let mut total: u64 = 0;
        let mut k: usize = 0;
        assert(input.subrange(0, 0) =~= Seq::<SegmentView>::empty());
        while k < n
            invariant
                k <= n,
                n == segments@.len(),
                input == views_of(segments@),
                total == total_len(input.subrange(0, k as int)),
            decreases n - k,
        {
            proof {
                lemma_total_len_prefix(input, k as int);
                lemma_total_len_prefix(input, k + 1);
            }
            match total.checked_add(segments[k].data.len() as u64) {
                Some(sum) => {
                    total = sum;
                },
                None => {
                    return Err(KvsError::TryFromInt);
                },
            }
            k = k + 1;
        }
        assert(input.subrange(0, n as int) =~= input);

        let mut rest = segments;
        let mut readers: Vec<Segment> = Vec::new();
        let mut index = Index::new();
        let mut uncompacted: u64 = 0;
        let mut log_bytes: u64 = 0;
        let mut last_gen: u64 = 0;
        let mut i: usize = 0;
        assert(whole_parts(input.subrange(0, 0)) =~= views_of(readers@));
        assert(rest@ =~= segments@.subrange(0, n as int));
        while i < n
            invariant
                i <= n,
                n == segments@.len(),
                input == views_of(segments@),
                total_len(input) <= u64::MAX,
                rest@ == segments@.subrange(i as int, n as int),
                views_of(readers@) == whole_parts(input.subrange(0, i as int)),
                index.wf(),
                consistent(views_of(readers@), index@, uncompacted as int),
                log_bytes == total_len(views_of(readers@)),
                log_bytes <= total_len(input.subrange(0, i as int)),
                index.live_bytes() + uncompacted == log_bytes,
                ascending(input.subrange(0, i as int)),
                forall|j: int| 0 <= j < i ==> (#[trigger] input[j]).gen <= last_gen,
                i > 0 ==> last_gen == input[i - 1].gen,
                forall|j: int|
                    0 <= j < i && j < n - 1 ==> (#[trigger] input[j]).data.len() - frames_end(
                        input[j].data,
                        0,
                    ) < 4,
            decreases n - i,
        {
            let mut segment = rest.remove(0);
            assert(segment == segments@[i as int]);
            assert(rest@ =~= segments@.subrange(i + 1, n as int));
            let ghost seen = input.subrange(0, i as int);
            let ghost grown = input.subrange(0, i + 1);
            let ghost whole = segment@;
            assert(whole == input[i as int]);
            assert(grown.drop_last() =~= seen);
            if i > 0 && segment.gen <= last_gen {
                proof {
                    let j = choose|j: int| 0 <= j < i && (#[trigger] input[j]).gen >= segment.gen;
                    if ascending(input) {
                        assert(input[j].gen < input[i as int].gen);
                    }
                }
                return Err(KvsError::CorruptRecord);
            }
            proof {
                lemma_total_len_prefix(input, i as int);
                lemma_total_len_prefix(input, i + 1);
                lemma_frames_end_bounds(whole.data, 0);
                lemma_bytes_of_bounds(index.entries(), 0);
            }
            let ghost before = LogState { index: index@, uncompacted: uncompacted as int };
            let ghost before_index = index@;
            let mut reader = BufReaderWithPos::new(segment.data.as_slice());
            let added = match load(segment.gen, &mut reader, &mut index, i + 1 == n) {
                Ok(added) => added,
                Err(err) => {
                    assert(!tails_clean(input));
                    return Err(err);
                },
            };
            let end = reader.pos;
            segment.data.truncate(end as usize);
            proof {
                lemma_bytes_of_bounds(index.entries(), 0);
                let cut = whole_part(whole);
                assert(segment@ == cut);
                lemma_replay_truncated(
                    LogState { index: before_index, uncompacted: 0 },
                    whole.gen,
                    whole.data,
                    0,
                );
                lemma_replay_shift(
                    LogState { index: before_index, uncompacted: 0 },
                    cut.gen,
                    cut.data,
                    0,
                    uncompacted as int,
                );
                let after = LogState { index: index@, uncompacted: uncompacted + added };
                assert(after == replay_from(before, cut.gen, cut.data, 0));
                assert forall|key: Seq<char>| #[trigger]
                    after.index.contains_key(key) implies (before_index.contains_key(key)
                    && after.index[key] == before_index[key]) || entry_within(
                    cut.gen,
                    cut.data,
                    key,
                    after.index[key],
                ) by {
                    let at = after.index[key];
                    if !(before_index.contains_key(key) && at == before_index[key]) {
                        assert(entry_within(whole.gen, whole.data, key, at));
                        lemma_record_at_cut(whole.data, end as int, at.pos as int);
                    }
                }
                assert forall|j: int| 0 <= j < views_of(readers@).len() implies (
                #[trigger] views_of(readers@)[j]).gen < cut.gen by {
                    assert(views_of(readers@)[j] == whole_part(seen[j]));
                    assert(seen[j] == input[j]);
                }
                lemma_consistent_push_segment(
                    views_of(readers@),
                    before_index,
                    uncompacted as int,
                    cut,
                    after,
                );
                assert(ascending(grown)) by {
                    assert forall|a: int, b: int| 0 <= a < b < grown.len() implies (
                    #[trigger] grown[a]).gen < (#[trigger] grown[b]).gen by {
                        if b < i {
                            assert(seen[a].gen < seen[b].gen);
                        } else {
                            assert(input[a].gen <= last_gen);
                        }
                    }
                }
            }
            let ghost sealed = views_of(readers@);
            uncompacted = uncompacted + added;
            log_bytes = log_bytes + end;
            last_gen = segment.gen;
            readers.push(segment);
            i = i + 1;
            assert(views_of(readers@) =~= sealed.push(whole_part(whole)));
            assert(whole_parts(grown) =~= whole_parts(seen).push(whole_part(whole)));
        }
        assert(input.subrange(0, n as int) =~= input);
        assert(tails_clean(input));
        let current_gen = if n == 0 {
            1
        } else {
            if last_gen == u64::MAX {
                return Err(KvsError::TryFromInt);
            }
            last_gen + 1
        };
        proof {
            lemma_consistent_push_empty(
                views_of(readers@),
                index@,
                uncompacted as int,
                current_gen,
            );
        }
        Ok(
            KvStore {
                readers,
                writer: BufWriterWithPos::new(Vec::new()),
                current_gen,
                index,
                uncompacted,
                log_bytes,
                engine,
            },
        )
    }

    /// The name of the engine that the directory is marked with.
    pub fn engine_name(&self) -> (name: &String)
        ensures
            name@ == self.engine(),
    {
        &self.engine
    }

    /// The bytes of the segment with the given generation, if there is one.
    pub fn segment_bytes(&self, gen: u64) -> (r: Option<&[u8]>)
        ensures
            match r {
                Some(bytes) => segment_data(self.segments(), gen) == Some(bytes@),
                None => segment_data(self.segments(), gen) is None,
            },
    {
        let ghost sealed = views_of(self.readers@);
        let ghost active = SegmentView { gen: self.current_gen, data: self.writer@ };
        proof {
            lemma_segment_data_push(sealed, active, gen);
        }
        if gen == self.current_gen {
            return Some(self.writer.bytes());
        }
        let mut i: usize = self.readers.len();
        assert(sealed.subrange(0, i as int) =~= sealed);
        assert(segment_data(self.segments(), gen) == segment_data(sealed, gen));
        while i > 0
            invariant
                i <= self.readers.len(),
                sealed == views_of(self.readers@),
                segment_data(self.segments(), gen) == segment_data(sealed, gen),
                segment_data(sealed, gen) == segment_data(sealed.subrange(0, i as int), gen),
            decreases i,
        {
            i = i - 1;
            let ghost upto = sealed.subrange(0, i + 1);
            assert(upto.drop_last() =~= sealed.subrange(0, i as int));
            assert(upto.last() == self.readers@[i as int]@);
            assert(segment_data(upto, gen) == if upto.last().gen == gen {
                Some(upto.last().data)
            } else {
                segment_data(upto.drop_last(), gen)
            });
            if self.readers[i].gen == gen {
                return Some(self.readers[i].data.as_slice());
            }
        }
        None
    }

    /// The generations of all segments, oldest first.
    pub fn generations(&self) -> (gens: Vec<u64>)
        ensures
            gens@.len() == self.segments().len(),
            forall|i: int| 0 <= i < gens@.len() ==> gens@[i] == (#[trigger] self.segments()[i]).gen,
    {
        let mut gens: Vec<u64> = Vec::new();
        let mut i: usize = 0;
        while i < self.readers.len()
            invariant
                i <= self.readers.len(),
                gens@.len() == i,
                forall|j: int| 0 <= j < i ==> gens@[j] == (#[trigger] self.readers@[j]).gen,
            decreases self.readers.len() - i,
        {
            gens.push(self.readers[i].gen);
            i = i + 1;
        }
        gens.push(self.current_gen);
        gens
    }

    /// The bytes of records that no entry of the index points at.
    pub fn uncompacted_bytes(&self) -> (bytes: u64)
        ensures
            bytes == self.uncompacted(),
    {
        self.uncompacted
    }

    /// Gets the value of a key, or `None` where the key is not in the
    /// store. It reads the record that the index points at, and never
    /// fails.
    pub fn get(&self, key: String) -> (r: Result<Option<String>, KvsError>)
        requires
            self.wf(),
        ensures
            r matches Ok(found) && match found {
                Some(value) => self@.contains_key(key@) && self@[key@] == value@,
                None => !self@.contains_key(key@),
            },
    {
        let cmd = match self.index.get(&key) {
            Some(cmd) => cmd,
            None => {
                return Ok(None);
            },
        };
        assert(self.index_map().contains_key(key@));
        assert(points_at_put(self.segments(), key@, cmd));
        let data = self.segment_bytes(cmd.gen).unwrap();
        let mut reader = BufReaderWithPos::new(data);
        reader.seek(cmd.pos);
        // The invariant says that a `Put` of this key lies there, so none
        // of the failures below ever comes about.
        match deserialize_from_log(&mut reader)? {
            KvsLogLine::Put { key: found, value } => {
                if found == key {
                    Ok(Some(value))
                } else {
                    Err(KvsError::UnexpectedCommandType)
                }
            },
            KvsLogLine::Rm { .. } => Err(KvsError::UnexpectedCommandType),
        }
    }

    /// The bytes of all segments together.
    pub open spec fn log_len(&self) -> int {
        total_len(self.segments())
    }

    /// Whether a record can be appended: generations are left for a
    /// compaction, the record can be framed, and the log stays within
    /// 64 bits.
    pub open spec fn can_append(&self, record: Record) -> bool {
        &&& self.current_gen() <= u64::MAX - 2
        &&& frame_of(record) matches Some(frame)
        &&& self.log_len() + frame.len() <= u64::MAX
    }

    /// Whether an error is the one that an append of `record` fails with.
    pub open spec fn reports_no_append(&self, err: KvsError, record: Record) -> bool {
        if self.current_gen() > u64::MAX - 2 {
            err is TryFromInt
        } else {
            match payload_of(record) {
                None => reports_unencodable(err, record_fields(record)),
                Some(_) => err is TryFromInt,
            }
        }
    }

    /// The location that the next record gets.
    pub open spec fn next_cmd(&self, frame: Seq<u8>) -> CommandPos {
        CommandPos {
            gen: self.current_gen(),
            pos: self.segments().last().data.len() as u64,
            len: frame.len() as u64,
        }
    }

    /// What an append of `record` leaves behind where it succeeds.
    ///
    /// The store then holds what the record says. The frame is appended to
    /// the active segment, and the index and the uncompacted count are
    /// moved on by the record. Where the count then exceeds the threshold,
    /// the store is compacted at once.
    pub open spec fn appended(&self, after: KvStore, record: Record) -> bool {
        let frame = frame_of(record)->0;
        let cmd = self.next_cmd(frame);
        let state = apply(
            LogState { index: self.index_map(), uncompacted: self.uncompacted() as int },
            record,
            cmd,
        );
        let grown = with_appended(self.segments(), frame);
        let entries = entries_after(self.index_entries(), record, cmd);
        &&& after@ == effect(self@, record)
        &&& after.engine() == self.engine()
        &&& after.uncompacted() <= COMPACTION_THRESHOLD
        &&& if state.uncompacted > COMPACTION_THRESHOLD {
            &&& after.uncompacted() == 0
            &&& after.current_gen() == self.current_gen() + 2
            &&& after.segments() == compacted(grown, entries, self.current_gen())
            &&& after.index_entries() == relocated(entries, (self.current_gen() + 1) as u64)
            &&& after.log_len() <= self.log_len() + frame.len()
        } else {
            &&& after.segments() == grown
            &&& after.index_entries() == entries
            &&& after.uncompacted() == state.uncompacted
            &&& after.current_gen() == self.current_gen()
        }
    }

    /// Appends a record to the active segment, applies it to the index and
    /// compacts where the uncompacted count then exceeds the threshold.
    fn commit(&mut self, line: KvsLogLine) -> (r: Result<(), KvsError>)
        requires
            old(self).wf(),
        ensures
            final(self).wf(),
            match r {
                Ok(()) => old(self).can_append(line@) && old(self).appended(*final(self), line@),
                Err(err) => {
                    &&& !old(self).can_append(line@)
                    &&& old(self).reports_no_append(err, line@)
                    &&& *final(self) == *old(self)
                },
            },
    {
        if self.current_gen > u64::MAX - 2 {
            return Err(KvsError::TryFromInt);
        }
        let frame = encode_record(&line)?;
        let len = frame.len() as u64;
        let log_bytes = match self.log_bytes.checked_add(len) {
            Some(log_bytes) => log_bytes,
            None => {
                return Err(KvsError::TryFromInt);
            },
        };
        let ghost segments = self.segments();
        let ghost payload = payload_of(line@)->0;
        let ghost before = LogState { index: self.index@, uncompacted: self.uncompacted as int };
        let ghost old_view = self@;
        let ghost grown = with_appended(segments, frame@);
        proof {
            lemma_payload_roundtrip(line@);
            lemma_payload_at_end(self.writer@, payload);
            lemma_total_len_nonneg(segments.drop_last());
            lemma_consistent_append(segments, self.index@, self.uncompacted as int, payload, line@);
            lemma_bytes_of_bounds(self.index.entries(), 0);
        }
        let start = self.writer.position();
        let cmd = CommandPos { gen: self.current_gen, pos: start, len };
        assert(cmd == old(self).next_cmd(frame@));
        let ghost after = apply(before, line@, cmd);
        self.writer.write(frame.as_slice());
        match line {
            KvsLogLine::Put { key, value } => {
                if let Some(old_cmd) = self.index.insert(key, cmd) {
                    self.uncompacted = self.uncompacted + old_cmd.len;
                }
                assert(model(grown, after.index) =~= old_view.insert(key@, value@));
            },
            KvsLogLine::Rm { key } => {
                if let Some(old_cmd) = self.index.remove(&key) {
                    self.uncompacted = self.uncompacted + old_cmd.len;
                }
                self.uncompacted = self.uncompacted + len;
                assert(model(grown, after.index) =~= old_view.remove(key@));
            },
        }
        self.log_bytes = log_bytes;
        assert(self.segments() =~= grown);
        assert(self.wf());
        if self.uncompacted > COMPACTION_THRESHOLD {
            match self.compaction() {
                Ok(()) => {},
                Err(err) => {
                    return Err(err);
                },
            }
        }
        Ok(())
    }

    /// Sets the value of a key. A value that the key had before is
    /// overwritten.
    ///
    /// Fails, changing nothing, where the record cannot be framed or the
    /// log has no room for it.
    pub fn set(&mut self, key: String, value: String) -> (r: Result<(), KvsError>)
        requires
            old(self).wf(),
        ensures
            final(self).wf(),
            match r {
                Ok(()) => {
                    &&& old(self).can_append(Record::Put { key: key@, value: value@ })
                    &&& old(self).appended(*final(self), Record::Put { key: key@, value: value@ })
                    &&& final(self)@ == old(self)@.insert(key@, value@)
                },
                Err(err) => {
                    &&& !old(self).can_append(Record::Put { key: key@, value: value@ })
                    &&& old(self).reports_no_append(err, Record::Put { key: key@, value: value@ })
                    &&& *final(self) == *old(self)
                },
            },
    {
        self.commit(KvsLogLine::Put { key, value })
    }

    /// Removes a key.
    ///
    /// Fails with `KeyDoesNotExist` where the key is not in the store, and
    /// otherwise where the record cannot be framed or the log has no room
    /// for it; a failure changes nothing.
    pub fn remove(&mut self, key: String) -> (r: Result<(), KvsError>)
        requires
            old(self).wf(),
        ensures
            final(self).wf(),
            match r {
                Ok(()) => {
                    &&& old(self)@.contains_key(key@)
                    &&& old(self).can_append(Record::Rm { key: key@ })
                    &&& old(self).appended(*final(self), Record::Rm { key: key@ })
                    &&& final(self)@ == old(self)@.remove(key@)
                },
                Err(err) => {
                    &&& *final(self) == *old(self)
                    &&& if !old(self)@.contains_key(key@) {
                        err is KeyDoesNotExist
                    } else {
                        &&& !old(self).can_append(Record::Rm { key: key@ })
                        &&& old(self).reports_no_append(err, Record::Rm { key: key@ })
                    }
                },
            },
    {
        if !self.index.contains_key(&key) {
            return Err(KvsError::KeyDoesNotExist);
        }
        self.commit(KvsLogLine::Rm { key })
    }

    /// Rewrites the live records into a new segment and drops all others.
    ///
    /// The records are copied byte for byte, in the order of the index,
    /// into the segment of the next generation; the generation after that
    /// becomes the new, empty active segment. What the store holds does not
    /// change, and the log does not grow.
    ///
    /// Fails with `TryFromInt`, changing nothing, where no two generations
    /// are left.
    pub fn compaction(&mut self) -> (r: Result<(), KvsError>)
        requires
            old(self).wf(),
        ensures
            final(self).wf(),
            match r {
                Ok(()) => {
                    &&& old(self).current_gen() <= u64::MAX - 2
                    &&& final(self)@ == old(self)@
                    &&& final(self).engine() == old(self).engine()
                    &&& final(self).uncompacted() == 0
                    &&& final(self).current_gen() == old(self).current_gen() + 2
                    &&& final(self).segments() == compacted(
                        old(self).segments(),
                        old(self).index_entries(),
                        old(self).current_gen(),
                    )
                    &&& final(self).index_entries() == relocated(
                        old(self).index_entries(),
                        (old(self).current_gen() + 1) as u64,
                    )
                    &&& final(self).log_len() <= old(self).log_len()
                },
                Err(err) => {
                    &&& old(self).current_gen() > u64::MAX - 2
                    &&& err is TryFromInt
                    &&& *final(self) == *old(self)
                },
            },
    {
        if self.current_gen > u64::MAX - 2 {
            return Err(KvsError::TryFromInt);
        }
        let compaction_gen = self.current_gen + 1;
        let ghost segments = self.segments();
        let ghost entries = self.index.entries();
        let ghost moved = relocated(entries, compaction_gen);
        let mut out = BufWriterWithPos::new(Vec::new());
        let mut new_index = Index::new();
        let n = self.index.len();
        let mut i: usize = 0;
        assert(entries.subrange(0, 0) =~= Seq::<(Seq<char>, CommandPos)>::empty());
        assert(moved.subrange(0, 0) =~= new_index.entries());
        assert(record_at(out@, 0) is None);
        proof {
            lemma_bytes_of_bounds(entries, 0);
        }
        while i < n
            invariant
                i <= n,
                n == entries.len(),
                self.wf(),
                segments == self.segments(),
                entries == self.index.entries(),
                moved == relocated(entries, compaction_gen),
                out.wf(),
                out@ == live_records(segments, entries.subrange(0, i as int)),
                out@.len() == bytes_of(entries.subrange(0, i as int)),
                out@.len() <= bytes_of(entries) <= u64::MAX,
                new_index.wf(),
                new_index.entries() == moved.subrange(0, i as int),
                new_index.live_bytes() == out@.len(),
                frames_end(out@, 0) == out@.len(),
                replay_from(empty_state(), compaction_gen, out@, 0) == (LogState {
                    index: new_index@,
                    uncompacted: 0,
                }),
                forall|key: Seq<char>| #[trigger]
                    new_index@.contains_key(key) ==> {
                        &&& self.index@.contains_key(key)
                        &&& new_index@[key].gen == compaction_gen
                        &&& record_at(out@, new_index@[key].pos as int) matches Some(found)
                        &&& found.1 == new_index@[key].len
                        &&& found.0 matches Record::Put { key: k, value }
                        &&& k == key
                        &&& value == value_at(segments, self.index@[key])
                    },
            decreases n - i,
        {
            let key = self.index.key_at(i);
            let cmd = self.index.cmd_at(i);
            let ghost upto = entries.subrange(0, i as int);
            let ghost next = entries.subrange(0, i + 1);
            proof {
                lemma_map_of_entry(entries, i as int);
                assert(self.index@.contains_key(key@) && self.index@[key@] == cmd);
                assert(points_at_put(segments, key@, cmd));
                assert(next.drop_last() =~= upto);
                assert(next.last() == entries[i as int]);
                lemma_bytes_of_bounds(entries, i as int);
                lemma_bytes_prefix(entries, i + 1);
            }
            let data = self.segment_bytes(cmd.gen).unwrap();
            let ghost payload = payload_at(data@, cmd.pos as int)->0;
            let ghost record = record_of(payload)->0;
            let data_len = data.len();
            proof {
                lemma_frame_bytes(data@, cmd.pos as int);
                assert(record_at(data@, cmd.pos as int) matches Some(found) && found.1 == cmd.len);
                assert(cmd.len == 4 + payload.len());
                assert(cmd.pos + cmd.len <= data_len);
            }
            let bytes = slice_subrange(data, cmd.pos as usize, (cmd.pos + cmd.len) as usize);
            assert(bytes@ == framed(payload));
            assert(bytes@ == record_bytes(segments, cmd));
            let start = out.position();
            let ghost before = out@;
            let ghost before_index = new_index@;
            proof {
                lemma_replay_append(empty_state(), compaction_gen, before, 0, payload, record);
                lemma_payload_at_end(before, payload);
                lemma_map_of_dom(new_index.entries(), key@);
                if new_index@.contains_key(key@) {
                    let j = choose|j: int|
                        0 <= j < new_index.entries().len() && (#[trigger] new_index.entries()[j]).0
                            == key@;
                    assert(moved[j].0 == entries[j].0);
                    assert(entries[j].0 != entries[i as int].0);
                }
            }
            out.write(bytes);
            let moved_cmd = CommandPos { gen: compaction_gen, pos: start, len: cmd.len };
            new_index.insert(key.clone(), moved_cmd);
            i = i + 1;
            proof {
                assert(moved.subrange(0, i as int) =~= moved.subrange(0, i - 1).push(
                    (key@, moved_cmd),
                ));
                assert forall|other: Seq<char>| #[trigger]
                    new_index@.contains_key(other) implies {
                    &&& self.index@.contains_key(other)
                    &&& new_index@[other].gen == compaction_gen
                    &&& record_at(out@, new_index@[other].pos as int) matches Some(found)
                    &&& found.1 == new_index@[other].len
                    &&& found.0 matches Record::Put { key: k, value }
                    &&& k == other
                    &&& value == value_at(segments, self.index@[other])
                } by {
                    if other != key@ {
                        assert(before_index.contains_key(other));
                        lemma_record_at_stable(before, framed(payload), before_index[other].pos as int);
                    }
                }
            }
        }
        assert(entries.subrange(0, n as int) =~= entries);
        assert(moved.subrange(0, n as int) =~= moved);
        let ghost sealed = SegmentView { gen: compaction_gen, data: out@ };
        let ghost old_view = self@;
        let ghost old_index = self.index@;
        let log_bytes = out.position();
        let mut readers: Vec<Segment> = Vec::new();
        readers.push(Segment { gen: compaction_gen, data: out.into_bytes() });
        proof {
            let one = seq![sealed];
            assert(views_of(readers@) =~= one);
            assert(one.drop_last() =~= Seq::<SegmentView>::empty());
            assert(replay_all(one.drop_last()) == empty_state());
            assert(replay_all(one) == (LogState { index: new_index@, uncompacted: 0 }));
            assert(segment_data(one, compaction_gen) == Some(sealed.data));
            assert(consistent(one, new_index@, 0));
            assert(total_len(one.drop_last()) == 0);
            assert(total_len(one) == sealed.data.len());
            lemma_consistent_push_empty(one, new_index@, 0, (compaction_gen + 1) as u64);
            assert forall|key: Seq<char>| old_index.contains_key(key) implies new_index@.contains_key(
                key,
            ) by {
                lemma_map_of_dom(entries, key);
                let j = choose|j: int| 0 <= j < entries.len() && (#[trigger] entries[j]).0 == key;
                assert(moved[j].0 == key);
                lemma_map_of_dom(moved, key);
            }
            assert(model(one, new_index@) =~= old_view);
        }
        self.readers = readers;
        self.writer = BufWriterWithPos::new(Vec::new());
        self.current_gen = compaction_gen + 1;
        self.index = new_index;
        self.uncompacted = 0;
        self.log_bytes = log_bytes;
        assert(self.segments() =~= compacted(segments, entries, old(self).current_gen));
        Ok(())
    }
}

/// Whether a segment ends in a damaged record: behind its whole records
/// lies more than the start of a length prefix.
pub open spec fn damaged(data: Seq<u8>) -> bool {
    data.len() - frames_end(data, 0) >= 4
}

/// Replays one segment into the index, from its first byte to the end of
/// its last whole record, where it leaves the reader. Returns how many
/// bytes of records this made useless.
///
/// Fails with `TryFromInt` where that count exceeds 64 bits, and else with
/// `CorruptRecord` where the segment ends in a damaged record and is not
/// the last one. The index is then still what the whole records yield.
pub fn load(gen: u64, reader: &mut BufReaderWithPos, index: &mut Index, last: bool) -> (r: Result<
    u64,
    KvsError,
>)
    requires
        old(index).wf(),
    ensures
        final(index).wf(),
        final(reader).data == old(reader).data,
        match r {
            Ok(uncompacted) => {
                &&& last || !damaged(old(reader).data@)
                &&& (LogState { index: final(index)@, uncompacted: uncompacted as int })
                    == replay_from(
                    LogState { index: old(index)@, uncompacted: 0 },
                    gen,
                    old(reader).data@,
                    0,
                )
                &&& final(index).live_bytes() + uncompacted == old(index).live_bytes()
                    + final(reader).pos
            },
            Err(err) => if replay_from(
                LogState { index: old(index)@, uncompacted: 0 },
                gen,
                old(reader).data@,
                0,
            ).uncompacted > u64::MAX {
                err is TryFromInt && old(index).live_bytes() + old(reader).data@.len() > u64::MAX
            } else {
                &&& err is CorruptRecord
                &&& !last && damaged(old(reader).data@)
                &&& final(index)@ == replay_from(
                    LogState { index: old(index)@, uncompacted: 0 },
                    gen,
                    old(reader).data@,
                    0,
                ).index
            },
        },
        !(r matches Err(KvsError::TryFromInt)) ==> final(reader).pos == frames_end(
            old(reader).data@,
            0,
        ) && forall|key: Seq<char>| #[trigger]
            final(index)@.contains_key(key) ==> (old(index)@.contains_key(key) && final(index)@[key]
                == old(index)@[key]) || entry_within(
                gen,
                old(reader).data@,
                key,
                final(index)@[key],
            ),
{
    let ghost data = reader.data@;
    let ghost before = LogState { index: index@, uncompacted: 0 };
    let mut uncompacted: u64 = 0;
    reader.seek(0);
    let mut done = reader.is_empty();
    while !done
        invariant
            index.wf(),
            reader.data == old(reader).data,
            reader.data@ == data,
            before == (LogState { index: old(index)@, uncompacted: 0 }),
            reader.pos <= data.len(),
            done ==> record_at(data, reader.pos as int) is None,
            index.live_bytes() + uncompacted == old(index).live_bytes() + reader.pos,
            frames_end(data, 0) == frames_end(data, reader.pos as int),
            replay_from(before, gen, data, 0) == replay_from(
                LogState { index: index@, uncompacted: uncompacted as int },
                gen,
                data,
                reader.pos as int,
            ),
            forall|key: Seq<char>| #[trigger]
                index@.contains_key(key) ==> (old(index)@.contains_key(key) && index@[key] == old(
                    index,
                )@[key]) || {
                    &&& index@[key].gen == gen
                    &&& record_at(data, index@[key].pos as int) matches Some(found)
                    &&& found.1 == index@[key].len
                    &&& found.0 matches Record::Put { key: k, .. }
                    &&& k == key
                    &&& index@[key].pos + index@[key].len <= reader.pos
                },
        decreases data.len() - reader.pos, if done { 0int } else { 1int },
    {
        let pos = reader.pos;
        let ghost state = LogState { index: index@, uncompacted: uncompacted as int };
        match deserialize_from_log(reader) {
            Ok(line) => {
                let new_pos = reader.pos;
                let cmd = CommandPos::from(gen, pos, new_pos);
                let ghost next = apply(state, line@, cmd);
                proof {
                    assert(next == (match line@ {
                        Record::Put { key, .. } => LogState {
                            index: state.index.insert(key, cmd),
                            uncompacted: state.uncompacted + displaced_len(state.index, key),
                        },
                        Record::Rm { key } => LogState {
                            index: state.index.remove(key),
                            uncompacted: state.uncompacted + displaced_len(state.index, key)
                                + cmd.len,
                        },
                    }));
                    assert(replay_from(before, gen, data, 0) == replay_from(
                        next,
                        gen,
                        data,
                        new_pos as int,
                    ));
                    lemma_uncompacted_grows(next, gen, data, new_pos as int);
                    lemma_bytes_of_bounds(index.entries(), 0);
                    assert(new_pos <= data.len());
                    assert(next.uncompacted >= uncompacted + (match line@ {
                        Record::Put { .. } => 0int,
                        Record::Rm { .. } => new_pos - pos,
                    }));
                }
                let ghost live = index.live_bytes();
                let displaced = match line {
                    KvsLogLine::Put { key, .. } => index.insert(key, cmd),
                    KvsLogLine::Rm { key } => {
                        let displaced = index.remove(&key);
                        match uncompacted.checked_add(new_pos - pos) {
                            Some(sum) => {
                                uncompacted = sum;
                            },
                            None => {
                                return Err(KvsError::TryFromInt);
                            },
                        }
                        displaced
                    },
                };
                if let Some(old_cmd) = displaced {
                    assert(old_cmd.len == displaced_len(state.index, line@.key()));
                    assert(old_cmd.len <= live);
                    match uncompacted.checked_add(old_cmd.len) {
                        Some(sum) => {
                            uncompacted = sum;
                        },
                        None => {
                            return Err(KvsError::TryFromInt);
                        },
                    }
                }
                done = reader.is_empty();
            },
            Err(_) => {
                done = true;
            },
        }
    }
    proof {
        lemma_frames_end_bounds(data, 0);
    }
    if !last && reader.remaining() >= 4 {
        return Err(KvsError::CorruptRecord);
    }
    Ok(uncompacted)
}

/// What holds of a store between any two calls.
///
/// The generations grow from segment to segment and the active segment is
/// the last; every segment is made of whole records; the index and the
/// uncompacted count are what a replay of the segments yields; every entry
/// of the index points at a `Put` of its key; and the bytes of the live
/// records and the uncompacted count together are the bytes of the log.
pub proof fn lemma_store_invariant(store: KvStore)
    requires
        store.wf(),
    ensures
        consistent(store.segments(), store.index_map(), store.uncompacted() as int),
        store.segments().len() > 0,
        store.segments().last().gen == store.current_gen(),
        bytes_of(store.index_entries()) + store.uncompacted() == store.log_len(),
        store.log_len() <= u64::MAX,
{
}

/// Whether appending the records one after the other leads from one store
/// to the other.
pub open spec fn leads_to(before: KvStore, records: Seq<Record>, after: KvStore) -> bool
    decreases records.len(),
{
    if records.len() == 0 {
        after == before
    } else {
        exists|between: KvStore|
            leads_to(before, records.drop_last(), between) && #[trigger] between.appended(
                after,
                records.last(),
            )
    }
}

/// After any sequence of sets and removes that succeeded, the store holds
/// what the records say, one after the other.
pub proof fn lemma_store_follows_records(before: KvStore, records: Seq<Record>, after: KvStore)
    requires
        leads_to(before, records, after),
    ensures
        after@ == after_all(before@, records),
    decreases records.len(),
{
    if records.len() > 0 {
        let between = choose|between: KvStore|
            leads_to(before, records.drop_last(), between) && #[trigger] between.appended(
                after,
                records.last(),
            );
        lemma_store_follows_records(before, records.drop_last(), between);
    }
}

/// After any sequence of sets and removes that succeeded, a key holds the
/// value of the last set of that key, provided no later record speaks of
/// the key: `get` then returns that value.
pub proof fn lemma_get_after_set(
    before: KvStore,
    records: Seq<Record>,
    after: KvStore,
    i: int,
    key: Seq<char>,
    value: Seq<char>,
)
    requires
        leads_to(before, records, after),
        0 <= i < records.len(),
        records[i] == (Record::Put { key, value }),
        forall|j: int| i < j < records.len() ==> (#[trigger] records[j]).key() != key,
    ensures
        after@.contains_key(key),
        after@[key] == value,
{
    lemma_store_follows_records(before, records, after);
    lemma_last_put_wins(before@, records, i, key, value);
}

/// After any sequence of sets and removes that succeeded, a key that was
/// removed is not in the store, provided no later record sets it: `get`
/// then returns `None`.
pub proof fn lemma_get_after_remove(
    before: KvStore,
    records: Seq<Record>,
    after: KvStore,
    i: int,
    key: Seq<char>,
)
    requires
        leads_to(before, records, after),
        0 <= i < records.len(),
        records[i] == (Record::Rm { key }),
        forall|j: int|
            i < j < records.len() ==> !((#[trigger] records[j]) is Put && records[j].key() == key),
    ensures
        !after@.contains_key(key),
{
    lemma_store_follows_records(before, records, after);
    lemma_removed_stays_away(before@, records, i, key);
}

/// The segments of a store can be opened again, unless its generation is
/// the last there is.
pub proof fn lemma_store_can_reopen(store: KvStore)
    requires
        store.wf(),
    ensures
        can_open(store.segments()) <==> store.current_gen() < u64::MAX,
{
    lemma_whole_parts_of_whole(store.segments());
}

/// Closing a store and opening its segments again yields a store that
/// holds the same value for every key.
pub proof fn lemma_reopen_preserves(store: KvStore, reopened: KvStore)
    requires
        store.wf(),
        reopened.opened_from(store.segments()),
    ensures
        reopened@ == store@,
{
    let segments = store.segments();
    lemma_whole_parts_of_whole(segments);
    assert forall|i: int| 0 <= i < segments.len() implies (#[trigger] segments[i]).gen < next_gen(
        segments,
    ) by {
        if i < segments.len() - 1 {
            assert(segments[i].gen < segments[segments.len() - 1].gen);
        }
    }
    lemma_consistent_push_empty(
        segments,
        store.index_map(),
        store.uncompacted() as int,
        next_gen(segments) as u64,
    );
}

/// After an append, and so after every `set` and `remove` that succeeds,
/// the uncompacted bytes are within the threshold, and so within the
/// threshold and the size of any record.
pub proof fn lemma_uncompacted_bound(before: KvStore, after: KvStore, record: Record, largest: nat)
    requires
        before.appended(after, record),
    ensures
        after.uncompacted() <= COMPACTION_THRESHOLD + largest,
{
}

/// The bytes of the first `k` entries grow with `k`.
pub proof fn lemma_bytes_prefix(entries: Seq<(Seq<char>, CommandPos)>, k: int)
    requires
        0 <= k <= entries.len(),
    ensures
        0 <= bytes_of(entries.subrange(0, k)) <= bytes_of(entries),
        0 < k ==> bytes_of(entries.subrange(0, k)) == bytes_of(entries.subrange(0, k - 1))
            + entries[k - 1].1.len,
    decreases entries.len() - k,
{
    lemma_bytes_of_bounds(entries.subrange(0, k), 0);
    if k > 0 {
        assert(entries.subrange(0, k).drop_last() =~= entries.subrange(0, k - 1));
    }
    if k < entries.len() {
        lemma_bytes_prefix(entries, k + 1);
    } else {
        assert(entries.subrange(0, k) =~= entries);
    }
}

} // verus!
