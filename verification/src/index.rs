//! Locations of live records and the in-memory index over them.

use vstd::prelude::*;
use vstd::hash_map::StringHashMap;

verus! {

/// Where one framed record lives: the segment's generation, the offset of
/// its length prefix, and the length of the whole frame.
#[derive(Clone, Copy, Debug, PartialEq, Eq, Structural)]
pub struct CommandPos {
    pub gen: u64,
    pub pos: u64,
    pub len: u64,
}

impl CommandPos {
    /// The location of the frame that occupies `[start, end)` of segment `gen`.
    pub fn from(gen: u64, start: u64, end: u64) -> (cmd: CommandPos)
        requires
            start <= end,
        ensures
            cmd == (CommandPos { gen, pos: start, len: (end - start) as u64 }),
    {
        CommandPos { gen, pos: start, len: end - start }
    }
}

/// One key with the location of its live record.
pub struct IndexEntry {
    pub key: String,
    pub cmd: CommandPos,
}

/// The keys of a sequence of entries are pairwise different.
pub open spec fn distinct_keys(entries: Seq<(Seq<char>, CommandPos)>) -> bool {
    forall|i: int, j: int|
        0 <= i < j < entries.len() ==> (#[trigger] entries[i]).0 != (#[trigger] entries[j]).0
}

/// The mapping that a sequence of entries stands for. Later entries win,
/// which never matters while the keys are distinct.
pub open spec fn map_of(entries: Seq<(Seq<char>, CommandPos)>) -> Map<Seq<char>, CommandPos>
    decreases entries.len(),
{
    if entries.len() == 0 {
        Map::empty()
    } else {
        map_of(entries.drop_last()).insert(entries.last().0, entries.last().1)
    }
}

/// The bytes that the records of a sequence of entries occupy together.
pub open spec fn bytes_of(entries: Seq<(Seq<char>, CommandPos)>) -> int
    decreases entries.len(),
{
    if entries.len() == 0 {
        0
    } else {
        bytes_of(entries.drop_last()) + entries.last().1.len
    }
}

/// The bytes of all entries are at least those of any one of them.
pub proof fn lemma_bytes_of_bounds(entries: Seq<(Seq<char>, CommandPos)>, i: int)
    ensures
        0 <= bytes_of(entries),
        0 <= i < entries.len() ==> entries[i].1.len <= bytes_of(entries),
    decreases entries.len(),
{
    if entries.len() > 0 {
        lemma_bytes_of_bounds(entries.drop_last(), i);
        if 0 <= i < entries.len() - 1 {
            assert(entries.drop_last()[i] == entries[i]);
        }
    }
}

/// A key is in the mapping exactly if some entry has it.
pub proof fn lemma_map_of_dom(entries: Seq<(Seq<char>, CommandPos)>, key: Seq<char>)
    ensures
        map_of(entries).contains_key(key) <==> exists|i: int|
            0 <= i < entries.len() && (#[trigger] entries[i]).0 == key,
    decreases entries.len(),
{
    if entries.len() > 0 {
        let init = entries.drop_last();
        lemma_map_of_dom(init, key);
        if map_of(entries).contains_key(key) {
            if entries.last().0 == key {
                assert(entries[entries.len() - 1].0 == key);
            } else {
                let i = choose|i: int| 0 <= i < init.len() && (#[trigger] init[i]).0 == key;
                assert(entries[i].0 == key);
            }
        }
        if exists|i: int| 0 <= i < entries.len() && (#[trigger] entries[i]).0 == key {
            let i = choose|i: int| 0 <= i < entries.len() && (#[trigger] entries[i]).0 == key;
            if i < entries.len() - 1 {
                assert(init[i].0 == key);
            }
        }
    }
}

/// With distinct keys, every entry is what the mapping holds for its key.
pub proof fn lemma_map_of_entry(entries: Seq<(Seq<char>, CommandPos)>, i: int)
    requires
        distinct_keys(entries),
        0 <= i < entries.len(),
    ensures
        map_of(entries).contains_key(entries[i].0),
        map_of(entries)[entries[i].0] == entries[i].1,
    decreases entries.len(),
{
    let init = entries.drop_last();
    if i < entries.len() - 1 {
        assert(distinct_keys(init)) by {
            assert forall|a: int, b: int| 0 <= a < b < init.len() implies (#[trigger] init[a]).0 != (
            #[trigger] init[b]).0 by {
                assert(entries[a].0 != entries[b].0);
            }
        }
        lemma_map_of_entry(init, i);
        assert(init[i] == entries[i]);
        assert(entries[i].0 != entries[entries.len() - 1].0);
    }
}

/// Appending an entry inserts it into the mapping and adds its length.
pub proof fn lemma_push_entry(entries: Seq<(Seq<char>, CommandPos)>, key: Seq<char>, cmd: CommandPos)
    ensures
        map_of(entries.push((key, cmd))) == map_of(entries).insert(key, cmd),
        bytes_of(entries.push((key, cmd))) == bytes_of(entries) + cmd.len,
{
    assert(entries.push((key, cmd)).drop_last() =~= entries);
}

/// Replacing the location of entry `i` replaces it in the mapping and
/// exchanges its length for the new one.
pub proof fn lemma_update_entry(entries: Seq<(Seq<char>, CommandPos)>, i: int, cmd: CommandPos)
    requires
        distinct_keys(entries),
        0 <= i < entries.len(),
    ensures
        distinct_keys(entries.update(i, (entries[i].0, cmd))),
        map_of(entries.update(i, (entries[i].0, cmd))) == map_of(entries).insert(entries[i].0, cmd),
        bytes_of(entries.update(i, (entries[i].0, cmd))) == bytes_of(entries) - entries[i].1.len
            + cmd.len,
    decreases entries.len(),
{
    let key = entries[i].0;
    let updated = entries.update(i, (key, cmd));
    assert(distinct_keys(updated)) by {
        assert forall|a: int, b: int| 0 <= a < b < updated.len() implies (#[trigger] updated[a]).0
            != (#[trigger] updated[b]).0 by {
            assert(entries[a].0 != entries[b].0);
        }
    }
    let init = entries.drop_last();
    if i == entries.len() - 1 {
        assert(updated.drop_last() =~= init);
        assert(map_of(updated) =~= map_of(entries).insert(key, cmd));
    } else {
        assert(distinct_keys(init)) by {
            assert forall|a: int, b: int| 0 <= a < b < init.len() implies (#[trigger] init[a]).0 != (
            #[trigger] init[b]).0 by {
                assert(entries[a].0 != entries[b].0);
            }
        }
        lemma_update_entry(init, i, cmd);
        assert(init[i] == entries[i]);
        assert(updated.drop_last() =~= init.update(i, (key, cmd)));
        assert(updated.last() == entries.last());
        assert(entries[i].0 != entries[entries.len() - 1].0);
        assert(map_of(updated) =~= map_of(entries).insert(key, cmd));
    }
}

/// The position of the entry that has a key.
pub open spec fn position_of(entries: Seq<(Seq<char>, CommandPos)>, key: Seq<char>) -> Option<int> {
    if exists|i: int| 0 <= i < entries.len() && (#[trigger] entries[i]).0 == key {
        Some(choose|i: int| 0 <= i < entries.len() && (#[trigger] entries[i]).0 == key)
    } else {
        None
    }
}

/// The entries with a key pointed at a location: the key's entry keeps
/// its place, and a new key goes to the end.
pub open spec fn upserted(entries: Seq<(Seq<char>, CommandPos)>, key: Seq<char>, cmd: CommandPos) -> Seq<
    (Seq<char>, CommandPos),
> {
    match position_of(entries, key) {
        Some(i) => entries.update(i, (key, cmd)),
        None => entries.push((key, cmd)),
    }
}

/// The entries without a key: the last entry takes the place of the key's
/// entry.
pub open spec fn removed(entries: Seq<(Seq<char>, CommandPos)>, key: Seq<char>) -> Seq<
    (Seq<char>, CommandPos),
> {
    match position_of(entries, key) {
        Some(i) => entries.update(i, entries.last()).drop_last(),
        None => entries,
    }
}

/// With distinct keys, the position of an entry's key is the entry's own.
pub proof fn lemma_position_of(entries: Seq<(Seq<char>, CommandPos)>, i: int)
    requires
        distinct_keys(entries),
        0 <= i < entries.len(),
    ensures
        position_of(entries, entries[i].0) == Some(i),
{
    let key = entries[i].0;
    let j = choose|j: int| 0 <= j < entries.len() && (#[trigger] entries[j]).0 == key;
    if j < i {
        assert(entries[j].0 != entries[i].0);
    } else if i < j {
        assert(entries[i].0 != entries[j].0);
    }
}

/// Replacing entry `i` by any entry exchanges its length for the new one.
pub proof fn lemma_bytes_of_update(
    entries: Seq<(Seq<char>, CommandPos)>,
    i: int,
    entry: (Seq<char>, CommandPos),
)
    requires
        0 <= i < entries.len(),
    ensures
        bytes_of(entries.update(i, entry)) == bytes_of(entries) - entries[i].1.len + entry.1.len,
    decreases entries.len(),
{
    let updated = entries.update(i, entry);
    if i == entries.len() - 1 {
        assert(updated.drop_last() =~= entries.drop_last());
    } else {
        lemma_bytes_of_update(entries.drop_last(), i, entry);
        assert(updated.drop_last() =~= entries.drop_last().update(i, entry));
    }
}

/// Putting the last entry in the place of entry `i` removes the key of
/// entry `i` from the mapping and subtracts its length.
pub proof fn lemma_swap_remove_entry(entries: Seq<(Seq<char>, CommandPos)>, i: int)
    requires
        distinct_keys(entries),
        0 <= i < entries.len(),
    ensures
        distinct_keys(entries.update(i, entries.last()).drop_last()),
        map_of(entries.update(i, entries.last()).drop_last()) == map_of(entries).remove(
            entries[i].0,
        ),
        bytes_of(entries.update(i, entries.last()).drop_last()) == bytes_of(entries)
            - entries[i].1.len,
{
    let n = entries.len() as int;
    let last = entries.last();
    let swapped = entries.update(i, last);
    let left = swapped.drop_last();
    let key = entries[i].0;
    assert forall|j: int| 0 <= j < left.len() implies #[trigger] left[j] == entries[if j == i {
        n - 1
    } else {
        j
    }] by {}
    assert(distinct_keys(left)) by {
        assert forall|a: int, b: int| 0 <= a < b < left.len() implies (#[trigger] left[a]).0 != (
        #[trigger] left[b]).0 by {
            let a0 = if a == i { n - 1 } else { a };
            let b0 = if b == i { n - 1 } else { b };
            assert(left[a] == entries[a0] && left[b] == entries[b0]);
            if a0 < b0 {
                assert(entries[a0].0 != entries[b0].0);
            } else {
                assert(entries[b0].0 != entries[a0].0);
            }
        }
    }
    lemma_bytes_of_update(entries, i, last);
    assert(swapped.last() == last);
    assert forall|k: Seq<char>|
        map_of(left).contains_key(k) <==> map_of(entries).remove(key).contains_key(k) by {
        lemma_map_of_dom(left, k);
        lemma_map_of_dom(entries, k);
        if map_of(left).contains_key(k) {
            let j = choose|j: int| 0 <= j < left.len() && (#[trigger] left[j]).0 == k;
            let j0 = if j == i { n - 1 } else { j };
            assert(entries[j0].0 == k);
            if j0 < i {
                assert(entries[j0].0 != entries[i].0);
            } else {
                assert(entries[i].0 != entries[j0].0);
            }
        }
        if map_of(entries).remove(key).contains_key(k) {
            let j0 = choose|j: int| 0 <= j < n && (#[trigger] entries[j]).0 == k;
            let j = if j0 == n - 1 { i } else { j0 };
            assert(left[j].0 == k);
        }
    }
    assert forall|k: Seq<char>| map_of(left).contains_key(k) implies map_of(left)[k] == map_of(
        entries,
    ).remove(key)[k] by {
        lemma_map_of_dom(left, k);
        let j = choose|j: int| 0 <= j < left.len() && (#[trigger] left[j]).0 == k;
        let j0 = if j == i { n - 1 } else { j };
        lemma_map_of_entry(left, j);
        lemma_map_of_entry(entries, j0);
    }
    assert(map_of(left) =~= map_of(entries).remove(key));
}

/// The in-memory index: for every live key, where its record lives.
///
/// The entries stand in a vector, so that a walk over them is repeatable;
/// a hash map from each key to the place of its entry finds them.
pub struct Index {
    entries: Vec<IndexEntry>,
    slots: StringHashMap<usize>,
}

impl View for Index {
    type V = Map<Seq<char>, CommandPos>;

    open spec fn view(&self) -> Map<Seq<char>, CommandPos> {
        map_of(self.entries())
    }
}

impl Index {
    /// The entries as plain values, in their order.
    pub closed spec fn entries(&self) -> Seq<(Seq<char>, CommandPos)> {
        Seq::new(self.entries@.len(), |i: int| (self.entries@[i].key@, self.entries@[i].cmd))
    }

    /// The hash map leads from every key to the place of its entry, and
    /// from nothing else to anything.
    pub closed spec fn slots_agree(&self) -> bool {
        &&& forall|i: int|
            0 <= i < self.entries@.len() ==> self.slots@.contains_key(
                (#[trigger] self.entries@[i]).key@,
            ) && self.slots@[self.entries@[i].key@] == i
        &&& forall|key: Seq<char>| #[trigger]
            self.slots@.contains_key(key) ==> self.slots@[key] < self.entries@.len()
                && self.entries@[self.slots@[key] as int].key@ == key
    }

    /// No key occurs twice, and the hash map finds every entry.
    pub open spec fn wf(&self) -> bool {
        distinct_keys(self.entries()) && self.slots_agree()
    }

    /// The bytes that all live records occupy together.
    pub open spec fn live_bytes(&self) -> int {
        bytes_of(self.entries())
    }

    /// An index without entries.
    pub fn new() -> (index: Index)
        ensures
            index.wf(),
            index.entries() == Seq::<(Seq<char>, CommandPos)>::empty(),
            index@ == Map::<Seq<char>, CommandPos>::empty(),
            index.live_bytes() == 0,
    {
        let index = Index { entries: Vec::new(), slots: StringHashMap::new() };
        assert(index.entries() =~= Seq::<(Seq<char>, CommandPos)>::empty());
        index
    }

    /// The number of live keys.
    pub fn len(&self) -> (n: usize)
        ensures
            n == self.entries().len(),
    {
        self.entries.len()
    }

    /// The key of entry `i`.
    pub fn key_at(&self, i: usize) -> (key: &String)
        requires
            i < self.entries().len(),
        ensures
            key@ == self.entries()[i as int].0,
    {
        &self.entries[i].key
    }

    /// The location of entry `i`.
    pub fn cmd_at(&self, i: usize) -> (cmd: CommandPos)
        requires
            i < self.entries().len(),
        ensures
            cmd == self.entries()[i as int].1,
    {
        self.entries[i].cmd
    }

    /// The position of a key among the entries, if it is there.
    fn find(&self, key: &String) -> (found: Option<usize>)
        requires
            self.wf(),
        ensures
            found == match position_of(self.entries(), key@) {
                Some(i) => Some(i as usize),
                None => None,
            },
            found matches Some(i) ==> i < self.entries().len() && self.entries()[i as int].0
                == key@,
            found is None ==> forall|j: int|
                0 <= j < self.entries().len() ==> (#[trigger] self.entries()[j]).0 != key@,
    {
        match self.slots.get(key.as_str()) {
            Some(slot) => {
                let i = *slot;
                proof {
                    assert(self.entries()[i as int].0 == key@);
                    lemma_position_of(self.entries(), i as int);
                }
                Some(i)
            },
            None => {
                assert forall|j: int| 0 <= j < self.entries().len() implies (
                #[trigger] self.entries()[j]).0 != key@ by {
                    assert(self.slots@.contains_key(self.entries@[j].key@));
                }
                None
            },
        }
    }

    /// Whether a key is live.
    pub fn contains_key(&self, key: &String) -> (found: bool)
        requires
            self.wf(),
        ensures
            found == self@.contains_key(key@),
    {
        proof {
            lemma_map_of_dom(self.entries(), key@);
        }
        self.find(key).is_some()
    }

    /// The location of a key's live record.
    pub fn get(&self, key: &String) -> (found: Option<CommandPos>)
        requires
            self.wf(),
        ensures
            found == if self@.contains_key(key@) {
                Some(self@[key@])
            } else {
                None
            },
    {
        proof {
            lemma_map_of_dom(self.entries(), key@);
        }
        match self.find(key) {
            Some(i) => {
                proof {
                    lemma_map_of_entry(self.entries(), i as int);
                }
                Some(self.entries[i].cmd)
            },
            None => None,
        }
    }

    /// Points a key at a new location and returns the one it had before.
    /// A key that was live keeps its place among the entries; a new one
    /// goes to the end.
    pub fn insert(&mut self, key: String, cmd: CommandPos) -> (displaced: Option<CommandPos>)
        requires
            old(self).wf(),
        ensures
            final(self).wf(),
            final(self)@ == old(self)@.insert(key@, cmd),
            final(self).entries() == upserted(old(self).entries(), key@, cmd),
            displaced == if old(self)@.contains_key(key@) {
                Some(old(self)@[key@])
            } else {
                None
            },
            final(self).live_bytes() == old(self).live_bytes() + cmd.len - match displaced {
                Some(before) => before.len as int,
                None => 0,
            },
            displaced matches Some(before) ==> before.len <= old(self).live_bytes(),
            0 <= final(self).live_bytes(),
    {
        proof {
            lemma_map_of_dom(self.entries(), key@);
        }
        let ghost before = self.entries();
        match self.find(&key) {
            Some(i) => {
                proof {
                    lemma_map_of_entry(before, i as int);
                    lemma_update_entry(before, i as int, cmd);
                    lemma_bytes_of_bounds(before, i as int);
                    lemma_bytes_of_bounds(before.update(i as int, (key@, cmd)), i as int);
                }
                let displaced = self.entries[i].cmd;
                self.entries.set(i, IndexEntry { key, cmd });
                assert(self.entries() =~= before.update(i as int, (key@, cmd)));
                assert(self.slots_agree()) by {
                    assert forall|j: int| 0 <= j < self.entries@.len() implies self.slots@.contains_key(
                        (#[trigger] self.entries@[j]).key@,
                    ) && self.slots@[self.entries@[j].key@] == j by {
                        assert(self.entries@[j].key@ == old(self).entries@[j].key@);
                    }
                }
                Some(displaced)
            },
            None => {
                proof {
                    lemma_push_entry(before, key@, cmd);
                    lemma_bytes_of_bounds(before, 0);
                }
                let slot = self.entries.len();
                self.slots.insert(key.clone(), slot);
                self.entries.push(IndexEntry { key, cmd });
                assert(self.entries() =~= before.push((key@, cmd)));
                assert(distinct_keys(self.entries())) by {
                    assert forall|a: int, b: int|
                        0 <= a < b < self.entries().len() implies (#[trigger] self.entries()[a]).0 != (
                    #[trigger] self.entries()[b]).0 by {
                        if b < before.len() {
                            assert(before[a].0 != before[b].0);
                        } else {
                            assert(before[a].0 != key@);
                        }
                    }
                }
                assert(self.slots_agree()) by {
                    assert forall|j: int| 0 <= j < self.entries@.len() implies self.slots@.contains_key(
                        (#[trigger] self.entries@[j]).key@,
                    ) && self.slots@[self.entries@[j].key@] == j by {
                        if j < slot {
                            assert(self.entries@[j] == old(self).entries@[j]);
                            assert(before[j].0 != key@);
                        }
                    }
                    assert forall|other: Seq<char>| #[trigger]
                        self.slots@.contains_key(other) implies self.slots@[other]
                        < self.entries@.len() && self.entries@[self.slots@[other] as int].key@
                        == other by {
                        if other != key@ {
                            assert(old(self).slots@.contains_key(other));
                            let at = old(self).slots@[other] as int;
                            assert(self.entries@[at] == old(self).entries@[at]);
                        }
                    }
                }
                None
            },
        }
    }

    /// Takes a key out and returns the location it had. The last entry
    /// takes the place of the one that leaves.
    pub fn remove(&mut self, key: &String) -> (displaced: Option<CommandPos>)
        requires
            old(self).wf(),
        ensures
            final(self).wf(),
            final(self)@ == old(self)@.remove(key@),
            final(self).entries() == removed(old(self).entries(), key@),
            displaced == if old(self)@.contains_key(key@) {
                Some(old(self)@[key@])
            } else {
                None
            },
            final(self).live_bytes() == old(self).live_bytes() - match displaced {
                Some(before) => before.len as int,
                None => 0,
            },
            0 <= final(self).live_bytes(),
    {
        proof {
            lemma_map_of_dom(self.entries(), key@);
        }
        let ghost before = self.entries();
        match self.find(key) {
            Some(i) => {
                proof {
                    lemma_map_of_entry(before, i as int);
                    lemma_swap_remove_entry(before, i as int);
                    lemma_bytes_of_bounds(before.update(i as int, before.last()).drop_last(), 0);
                }
                let last = self.entries.len() - 1;
                let entry = self.entries.swap_remove(i);
                self.slots.remove(key.as_str());
                if i < last {
                    let moved = self.entries[i].key.clone();
                    assert(moved@ == before[last as int].0);
                    assert(before[i as int].0 != before[last as int].0);
                    self.slots.insert(moved, i);
                }
                assert(self.entries() =~= before.update(i as int, before.last()).drop_last());
                assert(self.slots_agree()) by {
                    assert forall|j: int| 0 <= j < self.entries@.len() implies self.slots@.contains_key(
                        (#[trigger] self.entries@[j]).key@,
                    ) && self.slots@[self.entries@[j].key@] == j by {
                        if j != i {
                            assert(self.entries@[j] == old(self).entries@[j]);
                            assert(before[j].0 == old(self).entries@[j].key@);
                            if j < i {
                                assert(before[j].0 != before[i as int].0);
                            } else {
                                assert(before[i as int].0 != before[j].0);
                            }
                            assert(before[j].0 != before[last as int].0);
                        }
                    }
                    assert forall|other: Seq<char>| #[trigger]
                        self.slots@.contains_key(other) implies self.slots@[other]
                        < self.entries@.len() && self.entries@[self.slots@[other] as int].key@
                        == other by {
                        if i < last && other == before[last as int].0 {
                        } else {
                            assert(old(self).slots@.contains_key(other));
                            let at = old(self).slots@[other] as int;
                            assert(old(self).entries@[at].key@ == other);
                            assert(before[at].0 == other);
                            assert(at != i);
                            assert(at != last);
                            assert(self.entries@[at] == old(self).entries@[at]);
                        }
                    }
                }
                Some(entry.cmd)
            },
            None => {
                proof {
                    lemma_bytes_of_bounds(before, 0);
                }
                assert(self@ =~= old(self)@.remove(key@));
                None
            },
        }
    }
}

} // verus!
