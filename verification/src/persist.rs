//! What the host has to do to its files after a call to the store.
//!
//! The store changes the bytes of its segments in memory. `sync_plan`
//! compares them with the lengths of the segment files and lists the steps
//! that bring the files in line: the marker first, where the directory
//! has none, then everything that writes, then the removals, so that no
//! record is given up before its copy is on disk.
//! The host lists the files oldest first, so that the oldest leave first;
//! `recovery` proves that a crash between any two steps, or within one,
//! then loses nothing but the call that was being written.

use vstd::prelude::*;
use crate::engine::{engine_choice, EngineFailure};
use crate::kvs::{lemma_store_invariant, KvStore};
use crate::replay::{
    ascending, lemma_segment_data_found, lemma_segment_data_some, segment_data, SegmentView,
};

verus! {

/// The length of one segment file.
#[derive(Clone, Copy, Debug, PartialEq, Eq, Structural)]
pub struct FileLen {
    pub gen: u64,
    pub len: u64,
}

/// One step on the files of the directory.
#[derive(Clone, Copy, Debug, PartialEq, Eq, Structural)]
pub enum DiskOp {
    /// Append to the file of `gen`, which is created if it is missing, the
    /// bytes of the segment from offset `from` on, and flush.
    Append { gen: u64, from: u64 },
    /// Cut the file of `gen` back to `len` bytes.
    Truncate { gen: u64, len: u64 },
    /// Remove the file of `gen`.
    Remove { gen: u64 },
    /// Write the name of the store's engine to the marker of the directory.
    WriteMarker,
}

/// The length of the file of a generation, if there is such a file.
pub open spec fn file_len(files: Seq<FileLen>, gen: u64) -> Option<u64>
    decreases files.len(),
{
    if files.len() == 0 {
        None
    } else if files.last().gen == gen {
        Some(files.last().len)
    } else {
        file_len(files.drop_last(), gen)
    }
}

/// The step that makes the file of a segment hold the segment's bytes:
/// none where the lengths agree, an append where the file is shorter or
/// missing, a cut where it is longer.
pub open spec fn write_op(files: Seq<FileLen>, segment: SegmentView) -> Option<DiskOp> {
    match file_len(files, segment.gen) {
        None => Some(DiskOp::Append { gen: segment.gen, from: 0 }),
        Some(len) => if len < segment.data.len() {
            Some(DiskOp::Append { gen: segment.gen, from: len })
        } else if len > segment.data.len() {
            Some(DiskOp::Truncate { gen: segment.gen, len: segment.data.len() as u64 })
        } else {
            None
        },
    }
}

/// The writing steps for some segments, in the order of the segments.
pub open spec fn write_ops(files: Seq<FileLen>, segments: Seq<SegmentView>) -> Seq<DiskOp>
    decreases segments.len(),
{
    if segments.len() == 0 {
        Seq::empty()
    } else {
        let before = write_ops(files, segments.drop_last());
        match write_op(files, segments.last()) {
            Some(op) => before.push(op),
            None => before,
        }
    }
}

/// The removal of every file whose generation no segment has, in the
/// order of the files.
pub open spec fn remove_ops(files: Seq<FileLen>, segments: Seq<SegmentView>) -> Seq<DiskOp>
    decreases files.len(),
{
    if files.len() == 0 {
        Seq::empty()
    } else {
        let before = remove_ops(files.drop_last(), segments);
        if segment_data(segments, files.last().gen) is None {
            before.push(DiskOp::Remove { gen: files.last().gen })
        } else {
            before
        }
    }
}

/// All steps: the writing ones, then the removals.
pub open spec fn sync_ops(files: Seq<FileLen>, segments: Seq<SegmentView>) -> Seq<DiskOp> {
    write_ops(files, segments) + remove_ops(files, segments)
}

/// The step that marks the directory, where it is not marked yet.
pub open spec fn marker_ops(marked: bool) -> Seq<DiskOp> {
    if marked {
        Seq::empty()
    } else {
        seq![DiskOp::WriteMarker]
    }
}

/// The whole plan: the marker, then the steps on the segment files.
pub open spec fn plan_ops(marked: bool, files: Seq<FileLen>, segments: Seq<SegmentView>) -> Seq<
    DiskOp,
> {
    marker_ops(marked) + sync_ops(files, segments)
}

/// What the marker holds after some steps, for a store of the given
/// engine.
pub open spec fn marker_after(marker: Option<Seq<char>>, ops: Seq<DiskOp>, engine: Seq<char>) -> Option<
    Seq<char>,
>
    decreases ops.len(),
{
    if ops.len() == 0 {
        marker
    } else if ops.last() is WriteMarker {
        Some(engine)
    } else {
        marker_after(marker, ops.drop_last(), engine)
    }
}

/// The bytes of a segment, or none for a generation that no segment has.
pub open spec fn image(segments: Seq<SegmentView>, gen: u64) -> Seq<u8> {
    match segment_data(segments, gen) {
        Some(data) => data,
        None => Seq::empty(),
    }
}

/// What one step does to the files of a directory, each file given by its
/// generation.
pub open spec fn apply_op(dir: Map<u64, Seq<u8>>, op: DiskOp, segments: Seq<SegmentView>) -> Map<
    u64,
    Seq<u8>,
> {
    match op {
        DiskOp::Append { gen, from } => {
            let bytes = image(segments, gen);
            let had = if dir.contains_key(gen) {
                dir[gen]
            } else {
                Seq::empty()
            };
            dir.insert(gen, had + bytes.subrange(from as int, bytes.len() as int))
        },
        DiskOp::Truncate { gen, len } => if dir.contains_key(gen) {
            dir.insert(gen, dir[gen].subrange(0, len as int))
        } else {
            dir
        },
        DiskOp::Remove { gen } => dir.remove(gen),
        DiskOp::WriteMarker => dir,
    }
}

/// What some steps do to the files of a directory, one after the other.
pub open spec fn apply_ops(dir: Map<u64, Seq<u8>>, ops: Seq<DiskOp>, segments: Seq<SegmentView>) -> Map<
    u64,
    Seq<u8>,
>
    decreases ops.len(),
{
    if ops.len() == 0 {
        dir
    } else {
        apply_op(apply_ops(dir, ops.drop_last(), segments), ops.last(), segments)
    }
}

/// The files that hold exactly the segments.
pub open spec fn directory_of(segments: Seq<SegmentView>) -> Map<u64, Seq<u8>> {
    Map::new(|gen: u64| segment_data(segments, gen) is Some, |gen: u64| image(segments, gen))
}

/// The list names every file of the directory once, with its length.
pub open spec fn describes(files: Seq<FileLen>, dir: Map<u64, Seq<u8>>) -> bool {
    &&& forall|i: int, j: int|
        0 <= i < j < files.len() ==> (#[trigger] files[i]).gen != (#[trigger] files[j]).gen
    &&& forall|i: int|
        0 <= i < files.len() ==> dir.contains_key((#[trigger] files[i]).gen) && dir[files[i].gen].len()
            == files[i].len
    &&& forall|gen: u64| #[trigger]
        dir.contains_key(gen) ==> exists|i: int|
            0 <= i < files.len() && (#[trigger] files[i]).gen == gen
}

/// Every file of a segment holds the start of the segment's bytes, or the
/// segment's bytes and more.
pub open spec fn in_step(dir: Map<u64, Seq<u8>>, segments: Seq<SegmentView>) -> bool {
    forall|gen: u64| #[trigger]
        dir.contains_key(gen) && segment_data(segments, gen) is Some ==> {
            let bytes = image(segments, gen);
            if dir[gen].len() <= bytes.len() {
                dir[gen] == bytes.subrange(0, dir[gen].len() as int)
            } else {
                bytes == dir[gen].subrange(0, bytes.len() as int)
            }
        }
}

/// The list knows the length of every file and of nothing else.
proof fn lemma_file_len(files: Seq<FileLen>, dir: Map<u64, Seq<u8>>, gen: u64)
    requires
        describes(files, dir),
    ensures
        file_len(files, gen) == if dir.contains_key(gen) {
            Some(dir[gen].len() as u64)
        } else {
            None
        },
{
    if dir.contains_key(gen) {
        let i = choose|i: int| 0 <= i < files.len() && (#[trigger] files[i]).gen == gen;
        lemma_file_len_found(files, i);
    } else {
        lemma_file_len_missing(files, gen);
    }
}

/// A generation that no entry of the list has, has no length.
pub proof fn lemma_file_len_missing(files: Seq<FileLen>, gen: u64)
    requires
        forall|i: int| 0 <= i < files.len() ==> (#[trigger] files[i]).gen != gen,
    ensures
        file_len(files, gen) is None,
    decreases files.len(),
{
    if files.len() > 0 {
        assert(files[files.len() - 1].gen != gen);
        assert forall|i: int| 0 <= i < files.drop_last().len() implies (
        #[trigger] files.drop_last()[i]).gen != gen by {
            assert(files.drop_last()[i] == files[i]);
        }
        lemma_file_len_missing(files.drop_last(), gen);
    }
}

/// Where no generation is listed twice, each has the length listed for it.
pub proof fn lemma_file_len_found(files: Seq<FileLen>, i: int)
    requires
        0 <= i < files.len(),
        forall|a: int, b: int|
            0 <= a < b < files.len() ==> (#[trigger] files[a]).gen != (#[trigger] files[b]).gen,
    ensures
        file_len(files, files[i].gen) == Some(files[i].len),
    decreases files.len(),
{
    if i < files.len() - 1 {
        let init = files.drop_last();
        assert(files[i].gen != files[files.len() - 1].gen);
        assert(init[i] == files[i]);
        assert forall|a: int, b: int| 0 <= a < b < init.len() implies (#[trigger] init[a]).gen != (
        #[trigger] init[b]).gen by {
            assert(init[a] == files[a] && init[b] == files[b]);
        }
        lemma_file_len_found(init, i);
    }
}

/// Steps done one after the other are done in parts.
proof fn lemma_apply_ops_concat(
    dir: Map<u64, Seq<u8>>,
    first: Seq<DiskOp>,
    second: Seq<DiskOp>,
    segments: Seq<SegmentView>,
)
    ensures
        apply_ops(dir, first + second, segments) == apply_ops(
            apply_ops(dir, first, segments),
            second,
            segments,
        ),
    decreases second.len(),
{
    if second.len() == 0 {
        assert(first + second =~= first);
    } else {
        assert((first + second).drop_last() =~= first + second.drop_last());
        assert((first + second).last() == second.last());
        lemma_apply_ops_concat(dir, first, second.drop_last(), segments);
    }
}

/// After the writing steps for the first `k` segments, the file of each of
/// them holds the segment's bytes, and every other file is as before.
proof fn lemma_write_ops(
    dir: Map<u64, Seq<u8>>,
    files: Seq<FileLen>,
    segments: Seq<SegmentView>,
    k: int,
)
    requires
        describes(files, dir),
        in_step(dir, segments),
        ascending(segments),
        0 <= k <= segments.len(),
    ensures
        ({
            let after = apply_ops(dir, write_ops(files, segments.subrange(0, k)), segments);
            &&& forall|i: int|
                0 <= i < k ==> after.contains_key((#[trigger] segments[i]).gen) && after[segments[i].gen]
                    == segments[i].data
            &&& forall|gen: u64|
                (forall|i: int| 0 <= i < k ==> (#[trigger] segments[i]).gen != gen) ==> (
                #[trigger] after.contains_key(gen) <==> dir.contains_key(gen)) && (dir.contains_key(
                    gen,
                ) ==> after[gen] == dir[gen])
        }),
    decreases k,
{
    if k > 0 {
        let upto = segments.subrange(0, k);
        let before_ops = write_ops(files, segments.subrange(0, k - 1));
        let before = apply_ops(dir, before_ops, segments);
        let segment = segments[k - 1];
        assert(upto.drop_last() =~= segments.subrange(0, k - 1));
        assert(upto.last() == segment);
        lemma_write_ops(dir, files, segments, k - 1);
        lemma_file_len(files, dir, segment.gen);
        lemma_segment_data_found(segments, k - 1);
        assert forall|i: int| 0 <= i < k - 1 implies (#[trigger] segments[i]).gen != segment.gen by {
            assert(segments[i].gen < segments[k - 1].gen);
        }
        assert(before.contains_key(segment.gen) <==> dir.contains_key(segment.gen));
        let after = apply_ops(dir, write_ops(files, upto), segments);
        match write_op(files, segment) {
            Some(op) => {
                assert(write_ops(files, upto) == before_ops.push(op));
                assert(before_ops.push(op).drop_last() =~= before_ops);
                assert(after == apply_op(before, op, segments));
                if dir.contains_key(segment.gen) {
                    let had = dir[segment.gen];
                    assert(before[segment.gen] == had);
                    if had.len() < segment.data.len() {
                        assert(had + segment.data.subrange(had.len() as int, segment.data.len() as int)
                            =~= segment.data);
                    }
                } else {
                    assert(Seq::<u8>::empty() + segment.data.subrange(0, segment.data.len() as int)
                        =~= segment.data);
                }
                assert(after[segment.gen] == segment.data);
            },
            None => {
                assert(after == before);
                let had = dir[segment.gen];
                assert(segment.data.subrange(0, had.len() as int) =~= segment.data);
            },
        }
        assert forall|i: int| 0 <= i < k implies after.contains_key((#[trigger] segments[i]).gen)
            && after[segments[i].gen] == segments[i].data by {
            if i < k - 1 {
                assert(segments[i].gen != segment.gen);
            }
        }
    } else {
        assert(segments.subrange(0, 0) =~= Seq::<SegmentView>::empty());
    }
}

/// After the removals for the first `m` files, those of them that no
/// segment has are gone, and every other file is as before.
proof fn lemma_remove_ops(
    dir: Map<u64, Seq<u8>>,
    files: Seq<FileLen>,
    segments: Seq<SegmentView>,
    m: int,
)
    requires
        0 <= m <= files.len(),
    ensures
        ({
            let after = apply_ops(dir, remove_ops(files.subrange(0, m), segments), segments);
            forall|gen: u64|
                (#[trigger] after.contains_key(gen) <==> dir.contains_key(gen) && !(segment_data(
                    segments,
                    gen,
                ) is None && exists|j: int| 0 <= j < m && (#[trigger] files[j]).gen == gen)) && (
                after.contains_key(gen) ==> after[gen] == dir[gen])
        }),
    decreases m,
{
    if m > 0 {
        let upto = files.subrange(0, m);
        let file = files[m - 1];
        assert(upto.drop_last() =~= files.subrange(0, m - 1));
        assert(upto.last() == file);
        lemma_remove_ops(dir, files, segments, m - 1);
        let before_ops = remove_ops(files.subrange(0, m - 1), segments);
        let before = apply_ops(dir, before_ops, segments);
        let after = apply_ops(dir, remove_ops(upto, segments), segments);
        if segment_data(segments, file.gen) is None {
            let op = DiskOp::Remove { gen: file.gen };
            assert(before_ops.push(op).drop_last() =~= before_ops);
            assert(after == before.remove(file.gen));
        } else {
            assert(after == before);
        }
        assert forall|gen: u64|
            (#[trigger] after.contains_key(gen) <==> dir.contains_key(gen) && !(segment_data(
                segments,
                gen,
            ) is None && exists|j: int| 0 <= j < m && (#[trigger] files[j]).gen == gen)) && (
            after.contains_key(gen) ==> after[gen] == dir[gen]) by {
            if exists|j: int| 0 <= j < m && (#[trigger] files[j]).gen == gen {
                let j = choose|j: int| 0 <= j < m && (#[trigger] files[j]).gen == gen;
                if j < m - 1 {
                    assert(files[j].gen == gen);
                }
            }
            if exists|j: int| 0 <= j < m - 1 && (#[trigger] files[j]).gen == gen {
                let j = choose|j: int| 0 <= j < m - 1 && (#[trigger] files[j]).gen == gen;
                assert(0 <= j < m && files[j].gen == gen);
            }
            if file.gen == gen {
                assert(files[m - 1].gen == gen);
            }
        }
    } else {
        assert(files.subrange(0, 0) =~= Seq::<FileLen>::empty());
    }
}

/// Carrying out the steps of the plan leaves exactly the files of the
/// segments, each with the segment's bytes.
///
/// This holds of a directory whose files are those listed, and in which
/// the file of every segment holds the start of the segment's bytes, or
/// the bytes and more.
pub proof fn lemma_sync_brings_in_line(
    dir: Map<u64, Seq<u8>>,
    files: Seq<FileLen>,
    segments: Seq<SegmentView>,
)
    requires
        describes(files, dir),
        in_step(dir, segments),
        ascending(segments),
    ensures
        apply_ops(dir, sync_ops(files, segments), segments) == directory_of(segments),
{
    let writes = write_ops(files, segments);
    let removes = remove_ops(files, segments);
    let written = apply_ops(dir, writes, segments);
    let after = apply_ops(written, removes, segments);
    lemma_apply_ops_concat(dir, writes, removes, segments);
    lemma_write_ops(dir, files, segments, segments.len() as int);
    lemma_remove_ops(written, files, segments, files.len() as int);
    assert(segments.subrange(0, segments.len() as int) =~= segments);
    assert(files.subrange(0, files.len() as int) =~= files);
    assert forall|gen: u64|
        (#[trigger] after.contains_key(gen) <==> directory_of(segments).contains_key(gen)) && (
        after.contains_key(gen) ==> after[gen] == directory_of(segments)[gen]) by {
        if segment_data(segments, gen) is Some {
            let i = lemma_segment_data_some(segments, gen);
            lemma_segment_data_found(segments, i);
            assert(written.contains_key(segments[i].gen));
        } else {
            assert forall|i: int| 0 <= i < segments.len() implies (#[trigger] segments[i]).gen
                != gen by {
                lemma_segment_data_found(segments, i);
            }
            if written.contains_key(gen) {
                assert(dir.contains_key(gen));
            }
        }
    }
    assert(after =~= directory_of(segments));
}

/// The writing steps hold no step on the marker.
proof fn lemma_write_ops_leave_marker(files: Seq<FileLen>, segments: Seq<SegmentView>)
    ensures
        forall|i: int|
            0 <= i < write_ops(files, segments).len() ==> !(#[trigger] write_ops(files, segments)[i]
                is WriteMarker),
    decreases segments.len(),
{
    if segments.len() > 0 {
        lemma_write_ops_leave_marker(files, segments.drop_last());
    }
}

/// The removals hold no step on the marker.
proof fn lemma_remove_ops_leave_marker(files: Seq<FileLen>, segments: Seq<SegmentView>)
    ensures
        forall|i: int|
            0 <= i < remove_ops(files, segments).len() ==> !(#[trigger] remove_ops(
                files,
                segments,
            )[i] is WriteMarker),
    decreases files.len(),
{
    if files.len() > 0 {
        lemma_remove_ops_leave_marker(files.drop_last(), segments);
    }
}

/// Steps that are none on the marker leave the marker as it is.
proof fn lemma_marker_left(
    marker: Option<Seq<char>>,
    first: Seq<DiskOp>,
    ops: Seq<DiskOp>,
    engine: Seq<char>,
)
    requires
        forall|i: int| 0 <= i < ops.len() ==> !(#[trigger] ops[i] is WriteMarker),
    ensures
        marker_after(marker, first + ops, engine) == marker_after(marker, first, engine),
    decreases ops.len(),
{
    if ops.len() == 0 {
        assert(first + ops =~= first);
    } else {
        assert((first + ops).drop_last() =~= first + ops.drop_last());
        assert((first + ops).last() == ops[ops.len() - 1]);
        lemma_marker_left(marker, first, ops.drop_last(), engine);
    }
}

/// A step on the marker leaves the files of the segments as they are.
proof fn lemma_marker_ops_leave_files(
    dir: Map<u64, Seq<u8>>,
    marked: bool,
    segments: Seq<SegmentView>,
)
    ensures
        apply_ops(dir, marker_ops(marked), segments) == dir,
{
    let ops = marker_ops(marked);
    if !marked {
        assert(ops.drop_last() =~= Seq::<DiskOp>::empty());
        assert(ops.last() == DiskOp::WriteMarker);
        assert(apply_ops(dir, ops.drop_last(), segments) == dir);
        assert(apply_ops(dir, ops, segments) == apply_op(dir, ops.last(), segments));
    }
}

/// Carrying out the plan leaves a directory that is marked with the
/// store's engine and holds exactly the files of the segments, each with
/// the segment's bytes.
///
/// This holds of a directory whose files are those listed, in which the
/// file of every segment holds the start of the segment's bytes, or the
/// bytes and more, and whose marker, if it has one, names the store's
/// engine.
pub proof fn lemma_plan_brings_in_line(
    dir: Map<u64, Seq<u8>>,
    marker: Option<Seq<char>>,
    files: Seq<FileLen>,
    segments: Seq<SegmentView>,
    engine: Seq<char>,
)
    requires
        describes(files, dir),
        in_step(dir, segments),
        ascending(segments),
        marker matches Some(owner) ==> owner == engine,
    ensures
        apply_ops(dir, plan_ops(marker is Some, files, segments), segments) == directory_of(
            segments,
        ),
        marker_after(marker, plan_ops(marker is Some, files, segments), engine) == Some(engine),
{
    let first = marker_ops(marker is Some);
    let rest = sync_ops(files, segments);
    lemma_apply_ops_concat(dir, first, rest, segments);
    lemma_marker_ops_leave_files(dir, marker is Some, segments);
    lemma_sync_brings_in_line(dir, files, segments);
    lemma_write_ops_leave_marker(files, segments);
    lemma_remove_ops_leave_marker(files, segments);
    lemma_marker_left(marker, first, rest, engine);
    if marker is None {
        assert(first.last() is WriteMarker);
    }
}

/// After a directory was opened and the plan carried out, its marker
/// names the engine that was chosen, whatever it held before and whatever
/// was asked for.
pub proof fn lemma_marker_after_open(
    requested: Option<Seq<char>>,
    recorded: Option<Seq<char>>,
    files: Seq<FileLen>,
    segments: Seq<SegmentView>,
    engine: Seq<char>,
)
    requires
        engine_choice(requested, recorded) == Ok::<Seq<char>, EngineFailure>(engine),
    ensures
        marker_after(recorded, plan_ops(recorded is Some, files, segments), engine) == Some(engine),
{
    let first = marker_ops(recorded is Some);
    lemma_write_ops_leave_marker(files, segments);
    lemma_remove_ops_leave_marker(files, segments);
    lemma_marker_left(recorded, first, sync_ops(files, segments), engine);
    if recorded is None {
        assert(first.last() is WriteMarker);
    }
}

/// The length of the file of a generation, if it is listed.
fn listed_len(files: &Vec<FileLen>, gen: u64) -> (len: Option<u64>)
    ensures
        len == file_len(files@, gen),
{
    let mut i: usize = files.len();
    assert(files@.subrange(0, i as int) =~= files@);
    while i > 0
        invariant
            i <= files.len(),
            file_len(files@, gen) == file_len(files@.subrange(0, i as int), gen),
        decreases i,
    {
        i = i - 1;
        let ghost upto = files@.subrange(0, i + 1);
        assert(upto.drop_last() =~= files@.subrange(0, i as int));
        assert(upto.last() == files@[i as int]);
        if files[i].gen == gen {
            return Some(files[i].len);
        }
    }
    None
}

/// Lists the steps that bring the directory in line with the store, given
/// whether it is marked and the lengths of the segment files as they are:
/// the writing of the marker where there is none; for every segment,
/// oldest first, the append or cut that its file needs; and then the
/// removal of every file that belongs to no segment, in the order of the
/// list.
pub fn sync_plan(store: &KvStore, files: &Vec<FileLen>, marked: bool) -> (plan: Vec<DiskOp>)
    requires
        store.wf(),
    ensures
        plan@ == plan_ops(marked, files@, store.segments()),
{
    let ghost segments = store.segments();
    proof {
        lemma_store_invariant(*store);
    }
    let gens = store.generations();
    let mut plan: Vec<DiskOp> = Vec::new();
    if !marked {
        plan.push(DiskOp::WriteMarker);
    }
    let ghost first = plan@;
    assert(first =~= marker_ops(marked));
    let mut i: usize = 0;
    assert(segments.subrange(0, 0) =~= Seq::<SegmentView>::empty());
    assert(plan@ =~= first + write_ops(files@, segments.subrange(0, 0)));
    while i < gens.len()
        invariant
            i <= gens.len(),
            first == marker_ops(marked),
            segments == store.segments(),
            ascending(segments),
            gens@.len() == segments.len(),
            forall|j: int| 0 <= j < gens@.len() ==> gens@[j] == (#[trigger] segments[j]).gen,
            plan@ == first + write_ops(files@, segments.subrange(0, i as int)),
        decreases gens.len() - i,
    {
        let gen = gens[i];
        let ghost upto = segments.subrange(0, i + 1);
        proof {
            lemma_segment_data_found(segments, i as int);
            assert(upto.drop_last() =~= segments.subrange(0, i as int));
            assert(upto.last() == segments[i as int]);
        }
        let want = store.segment_bytes(gen).unwrap().len() as u64;
        match listed_len(files, gen) {
            None => {
                plan.push(DiskOp::Append { gen, from: 0 });
            },
            Some(have) => {
                if have < want {
                    plan.push(DiskOp::Append { gen, from: have });
                } else if have > want {
                    plan.push(DiskOp::Truncate { gen, len: want });
                }
            },
        }
        i = i + 1;
    }
    assert(segments.subrange(0, i as int) =~= segments);
    let ghost writes = plan@;
    let mut j: usize = 0;
    assert(files@.subrange(0, 0) =~= Seq::<FileLen>::empty());
    while j < files.len()
        invariant
            j <= files.len(),
            segments == store.segments(),
            plan@ == writes + remove_ops(files@.subrange(0, j as int), segments),
        decreases files.len() - j,
    {
        let ghost upto = files@.subrange(0, j + 1);
        assert(upto.drop_last() =~= files@.subrange(0, j as int));
        assert(upto.last() == files@[j as int]);
        let gen = files[j].gen;
        if store.segment_bytes(gen).is_none() {
            let ghost before = remove_ops(files@.subrange(0, j as int), segments);
            plan.push(DiskOp::Remove { gen });
            assert(plan@ =~= writes + before.push(DiskOp::Remove { gen }));
        }
        j = j + 1;
    }
    assert(files@.subrange(0, j as int) =~= files@);
    plan
}

} // verus!
