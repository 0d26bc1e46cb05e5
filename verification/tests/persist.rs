use kvs::persist::{sync_plan, DiskOp, FileLen};
use kvs::record::encode_record;
use kvs::{KvStore, KvsError, KvsLogLine, Segment};
use std::collections::BTreeMap;

fn s(text: &str) -> String {
    text.to_string()
}

fn open_store(segments: Vec<Segment>) -> Result<KvStore, KvsError> {
    KvStore::open(segments, None, None).map(|(store, _)| store)
}

fn put_frame(key: &str, value: &str) -> Vec<u8> {
    encode_record(&KvsLogLine::Put { key: s(key), value: s(value) }).unwrap()
}

/// A directory held in memory: the bytes of every segment file.
struct Directory {
    files: BTreeMap<u64, Vec<u8>>,
    marker: Option<String>,
}

impl Directory {
    fn lens(&self) -> Vec<FileLen> {
        self.files.iter().map(|(&gen, data)| FileLen { gen, len: data.len() as u64 }).collect()
    }

    fn segments(&self) -> Vec<Segment> {
        self.files.iter().map(|(&gen, data)| Segment { gen, data: data.clone() }).collect()
    }

    /// Carries out the plan and returns it.
    fn sync(&mut self, store: &KvStore) -> Vec<DiskOp> {
        let plan = sync_plan(store, &self.lens(), self.marker.is_some());
        for op in &plan {
            match *op {
                DiskOp::Append { gen, from } => {
                    let bytes = &store.segment_bytes(gen).unwrap()[from as usize..];
                    self.files.entry(gen).or_default().extend_from_slice(bytes);
                }
                DiskOp::Truncate { gen, len } => {
                    self.files.get_mut(&gen).unwrap().truncate(len as usize);
                }
                DiskOp::Remove { gen } => {
                    assert!(self.files.remove(&gen).is_some());
                }
                DiskOp::WriteMarker => {
                    self.marker = Some(store.engine_name().clone());
                }
            }
        }
        plan
    }

    fn holds(&self, store: &KvStore) -> bool {
        let gens = store.generations();
        gens.len() == self.files.len()
            && gens.iter().all(|gen| {
                self.files.get(gen).map(|data| data.as_slice()) == store.segment_bytes(*gen)
            })
    }
}

#[test]
fn a_new_store_gets_its_first_file() {
    let store = open_store(Vec::new()).unwrap();
    let mut dir = Directory { files: BTreeMap::new(), marker: Some(s("kvs")) };
    assert_eq!(dir.sync(&store), vec![DiskOp::Append { gen: 1, from: 0 }]);
    assert_eq!(dir.files.get(&1), Some(&Vec::new()));
    assert_eq!(dir.sync(&store), Vec::new());
}

#[test]
fn every_write_is_appended_to_the_active_file() {
    let mut store = open_store(Vec::new()).unwrap();
    let mut dir = Directory { files: BTreeMap::new(), marker: Some(s("kvs")) };
    dir.sync(&store);
    store.set(s("a"), s("1")).unwrap();
    assert_eq!(dir.sync(&store), vec![DiskOp::Append { gen: 1, from: 0 }]);
    let first = put_frame("a", "1").len() as u64;
    store.set(s("b"), s("2")).unwrap();
    store.remove(s("a")).unwrap();
    assert_eq!(dir.sync(&store), vec![DiskOp::Append { gen: 1, from: first }]);
    assert!(dir.holds(&store));
    assert_eq!(dir.sync(&store), Vec::new());
}

#[test]
fn compaction_writes_the_new_files_before_it_removes_the_old() {
    let mut store = open_store(vec![
        Segment { gen: 1, data: put_frame("a", "1") },
        Segment { gen: 2, data: put_frame("a", "2") },
    ])
    .unwrap();
    let mut dir = Directory { files: BTreeMap::new(), marker: Some(s("kvs")) };
    dir.files.insert(1, put_frame("a", "1"));
    dir.files.insert(2, put_frame("a", "2"));
    assert_eq!(dir.sync(&store), vec![DiskOp::Append { gen: 3, from: 0 }]);
    store.set(s("b"), s("3")).unwrap();
    store.compaction().unwrap();
    assert_eq!(
        dir.sync(&store),
        vec![
            DiskOp::Append { gen: 4, from: 0 },
            DiskOp::Append { gen: 5, from: 0 },
            DiskOp::Remove { gen: 1 },
            DiskOp::Remove { gen: 2 },
            DiskOp::Remove { gen: 3 },
        ]
    );
    assert!(dir.holds(&store));
    let mut expected = put_frame("a", "2");
    expected.extend_from_slice(&put_frame("b", "3"));
    assert_eq!(dir.files.get(&4), Some(&expected));
    assert_eq!(dir.files.get(&5), Some(&Vec::new()));
}

#[test]
fn a_torn_tail_is_cut_off_the_file() {
    let good = put_frame("a", "1");
    let mut torn = good.clone();
    torn.extend_from_slice(&put_frame("b", "2")[..7]);
    let mut dir = Directory { files: BTreeMap::new(), marker: Some(s("kvs")) };
    dir.files.insert(6, torn);
    let store = open_store(dir.segments()).unwrap();
    assert_eq!(
        dir.sync(&store),
        vec![DiskOp::Truncate { gen: 6, len: good.len() as u64 }, DiskOp::Append { gen: 7, from: 0 }]
    );
    assert!(dir.holds(&store));
    let reopened = open_store(dir.segments()).unwrap();
    assert_eq!(reopened.generations(), vec![6, 7, 8]);
    assert_eq!(reopened.get(s("a")).unwrap(), Some(s("1")));
}

#[test]
fn the_directory_follows_the_store_through_reopens_and_compactions() {
    let mut dir = Directory { files: BTreeMap::new(), marker: Some(s("kvs")) };
    let value = "v".repeat(200_000);
    let mut expected: BTreeMap<String, String> = BTreeMap::new();
    for round in 0..4u32 {
        let mut store = open_store(dir.segments()).unwrap();
        dir.sync(&store);
        assert!(dir.holds(&store));
        for i in 0..12u32 {
            let key = format!("k{}", (round + i) % 5);
            if i % 4 == 3 && expected.contains_key(&key) {
                store.remove(key.clone()).unwrap();
                expected.remove(&key);
            } else {
                let text = format!("{}{}", value, i);
                store.set(key.clone(), text.clone()).unwrap();
                expected.insert(key, text);
            }
            let plan = dir.sync(&store);
            let first_remove = plan.iter().position(|op| matches!(op, DiskOp::Remove { .. }));
            if let Some(at) = first_remove {
                assert!(plan[at..].iter().all(|op| matches!(op, DiskOp::Remove { .. })));
            }
            assert!(dir.holds(&store));
        }
        for k in 0..5 {
            let key = format!("k{}", k);
            assert_eq!(store.get(key.clone()).unwrap(), expected.get(&key).cloned());
        }
    }
    let last = open_store(dir.segments()).unwrap();
    for k in 0..5 {
        let key = format!("k{}", k);
        assert_eq!(last.get(key.clone()).unwrap(), expected.get(&key).cloned());
    }
}

#[test]
fn files_of_no_segment_are_removed_in_the_order_given() {
    let store = open_store(vec![Segment { gen: 5, data: Vec::new() }]).unwrap();
    let files = vec![
        FileLen { gen: 9, len: 3 },
        FileLen { gen: 5, len: 0 },
        FileLen { gen: 2, len: 0 },
        FileLen { gen: 6, len: 1 },
    ];
    assert_eq!(
        sync_plan(&store, &files, true),
        vec![
            DiskOp::Truncate { gen: 6, len: 0 },
            DiskOp::Remove { gen: 9 },
            DiskOp::Remove { gen: 2 },
        ]
    );
}

/// What a store holds for the given keys.
fn values(store: &KvStore, keys: &[&str]) -> Vec<Option<String>> {
    keys.iter().map(|key| store.get(s(key)).unwrap()).collect()
}

#[test]
fn a_crash_at_any_step_of_the_plan_loses_nothing_that_was_on_disk() {
    let keys = ["a", "b", "c", "d"];
    let mut first = put_frame("a", "1");
    first.extend_from_slice(&put_frame("b", "1"));
    first.extend_from_slice(&put_frame("d", "1"));
    let mut second =
        encode_record(&KvsLogLine::Rm { key: s("b") }).unwrap();
    second.extend_from_slice(&put_frame("c", "2"));
    let third = encode_record(&KvsLogLine::Rm { key: s("d") }).unwrap();
    let mut dir = Directory { files: BTreeMap::new(), marker: Some(s("kvs")) };
    dir.files.insert(1, first);
    dir.files.insert(2, second);
    dir.files.insert(3, third);
    let mut store = open_store(dir.segments()).unwrap();
    dir.sync(&store);
    let before = values(&store, &keys);
    assert_eq!(before, vec![Some(s("1")), None, Some(s("2")), None]);
    store.set(s("a"), s("5")).unwrap();
    store.compaction().unwrap();
    let after = values(&store, &keys);
    assert_eq!(after, vec![Some(s("5")), None, Some(s("2")), None]);

    let plan = sync_plan(&store, &dir.lens(), true);
    assert_eq!(plan.len(), 6);
    let mut crashes = 0;
    for done in 0..=plan.len() {
        let mut cuts = vec![None];
        if done < plan.len() {
            if let DiskOp::Append { gen, from } = plan[done] {
                let len = store.segment_bytes(gen).unwrap().len() as u64;
                cuts = (from..len).map(Some).collect();
            }
        }
        for cut in cuts {
            let mut crashed = Directory { files: dir.files.clone(), marker: Some(s("kvs")) };
            for op in &plan[..done] {
                match *op {
                    DiskOp::Append { gen, from } => {
                        let bytes = &store.segment_bytes(gen).unwrap()[from as usize..];
                        crashed.files.entry(gen).or_default().extend_from_slice(bytes);
                    }
                    DiskOp::Truncate { gen, len } => {
                        crashed.files.get_mut(&gen).unwrap().truncate(len as usize);
                    }
                    DiskOp::Remove { gen } => {
                        crashed.files.remove(&gen);
                    }
                    DiskOp::WriteMarker => {}
                }
            }
            if let (Some(upto), DiskOp::Append { gen, from }) = (cut, plan[done.min(plan.len() - 1)]) {
                let bytes = &store.segment_bytes(gen).unwrap()[from as usize..upto as usize];
                crashed.files.entry(gen).or_default().extend_from_slice(bytes);
            }
            let recovered = open_store(crashed.segments()).unwrap();
            let found = values(&recovered, &keys);
            assert!(found == before || found == after, "{:?} after {} steps", found, done);
            crashes += 1;
        }
    }
    assert!(crashes > plan.len());
}

#[test]
fn a_crash_within_an_append_loses_that_record_alone() {
    let keys = ["a", "b"];
    let mut store = open_store(Vec::new()).unwrap();
    let mut dir = Directory { files: BTreeMap::new(), marker: Some(s("kvs")) };
    store.set(s("a"), s("1")).unwrap();
    store.set(s("b"), s("2")).unwrap();
    dir.sync(&store);
    let before = values(&store, &keys);
    store.set(s("a"), s("3")).unwrap();
    let after = values(&store, &keys);
    let plan = sync_plan(&store, &dir.lens(), true);
    let have = dir.files.get(&1).unwrap().len() as u64;
    assert_eq!(plan, vec![DiskOp::Append { gen: 1, from: have }]);
    let image = store.segment_bytes(1).unwrap();
    for cut in have as usize..=image.len() {
        let mut crashed = Directory { files: dir.files.clone(), marker: Some(s("kvs")) };
        crashed.files.get_mut(&1).unwrap().extend_from_slice(&image[have as usize..cut]);
        let recovered = open_store(crashed.segments()).unwrap();
        let found = values(&recovered, &keys);
        if cut == image.len() {
            assert_eq!(found, after);
        } else {
            assert_eq!(found, before);
            assert_eq!(recovered.segment_bytes(1).unwrap(), dir.files.get(&1).unwrap().as_slice());
        }
    }
}

#[test]
fn the_first_opening_marks_the_directory_with_the_default_engine() {
    let (store, engine) = KvStore::open(Vec::new(), None, None).unwrap();
    assert_eq!(engine, "kvs");
    assert_eq!(store.engine_name(), "kvs");
    let mut dir = Directory { files: BTreeMap::new(), marker: None };
    assert_eq!(dir.sync(&store), vec![DiskOp::WriteMarker, DiskOp::Append { gen: 1, from: 0 }]);
    assert_eq!(dir.marker, Some(s("kvs")));
    assert_eq!(dir.files.len(), 1);
    assert_eq!(dir.files.get(&1), Some(&Vec::new()));
    assert_eq!(store.uncompacted_bytes(), 0);
    assert_eq!(store.generations(), vec![1]);
    assert_eq!(store.get(s("x")).unwrap(), None);
    assert_eq!(dir.sync(&store), Vec::new());
}

#[test]
fn a_marked_directory_refuses_another_engine_and_keeps_its_values() {
    let (mut store, engine) = KvStore::open(Vec::new(), Some(s("kvs")), None).unwrap();
    assert_eq!(engine, "kvs");
    let mut dir = Directory { files: BTreeMap::new(), marker: None };
    store.set(s("foo"), s("bar")).unwrap();
    dir.sync(&store);
    assert_eq!(dir.marker, Some(s("kvs")));
    let files = dir.files.clone();
    match KvStore::open(dir.segments(), Some(s("sled")), dir.marker.clone()) {
        Err(KvsError::WrongEngineType(name)) => assert_eq!(name, "sled"),
        other => panic!("{:?}", other.map(|(_, engine)| engine)),
    }
    assert_eq!(dir.files, files);
    assert_eq!(dir.marker, Some(s("kvs")));
    let (again, engine) = KvStore::open(dir.segments(), Some(s("kvs")), dir.marker.clone()).unwrap();
    assert_eq!(engine, "kvs");
    assert_eq!(again.get(s("foo")).unwrap(), Some(s("bar")));
    let (unasked, engine) = KvStore::open(dir.segments(), None, dir.marker.clone()).unwrap();
    assert_eq!(engine, "kvs");
    assert_eq!(unasked.engine_name(), "kvs");
}

#[test]
fn an_unknown_engine_opens_nothing() {
    match KvStore::open(Vec::new(), Some(s("rocks")), None) {
        Err(KvsError::UnknownEngineType(name)) => assert_eq!(name, "rocks"),
        other => panic!("{:?}", other.map(|(_, engine)| engine)),
    }
    match KvStore::open(
        vec![Segment { gen: 2, data: Vec::new() }, Segment { gen: 1, data: Vec::new() }],
        Some(s("rocks")),
        Some(s("kvs")),
    ) {
        Err(KvsError::WrongEngineType(name)) => assert_eq!(name, "rocks"),
        other => panic!("{:?}", other.map(|(_, engine)| engine)),
    }
}

#[test]
fn the_other_engine_is_chosen_where_it_is_asked_for_or_recorded() {
    let (store, engine) = KvStore::open(Vec::new(), Some(s("sled")), None).unwrap();
    assert_eq!(engine, "sled");
    assert_eq!(store.engine_name(), "sled");
    assert_eq!(sync_plan(&store, &Vec::new(), false)[0], DiskOp::WriteMarker);
    let (_, engine) = KvStore::open(Vec::new(), None, Some(s("sled"))).unwrap();
    assert_eq!(engine, "sled");
}
