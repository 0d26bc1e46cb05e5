use kvs::kvs::{load, COMPACTION_THRESHOLD};
use kvs::index::Index;
use kvs::record::{deserialize_from_log, encode_record, serialize_to_log};
use kvs::{BufReaderWithPos, BufWriterWithPos, CommandPos, KvStore, KvsError, KvsLogLine, Segment};

fn s(text: &str) -> String {
    text.to_string()
}

fn open_store(segments: Vec<Segment>) -> Result<KvStore, KvsError> {
    KvStore::open(segments, None, None).map(|(store, _)| store)
}

fn empty_store() -> KvStore {
    open_store(Vec::new()).unwrap()
}

fn put_frame(key: &str, value: &str) -> Vec<u8> {
    encode_record(&KvsLogLine::Put { key: s(key), value: s(value) }).unwrap()
}

fn rm_frame(key: &str) -> Vec<u8> {
    encode_record(&KvsLogLine::Rm { key: s(key) }).unwrap()
}

/// The segments of a store as the host would find them in its files.
fn snapshot(store: &KvStore) -> Vec<Segment> {
    store
        .generations()
        .into_iter()
        .map(|gen| Segment { gen, data: store.segment_bytes(gen).unwrap().to_vec() })
        .collect()
}

#[test]
fn get_set_remove_on_an_empty_store() {
    let mut store = empty_store();
    assert_eq!(store.get(s("k")).unwrap(), None);
    store.set(s("k"), s("v")).unwrap();
    assert_eq!(store.get(s("k")).unwrap(), Some(s("v")));
    store.remove(s("k")).unwrap();
    assert_eq!(store.get(s("k")).unwrap(), None);
    assert!(matches!(store.remove(s("k")), Err(KvsError::KeyDoesNotExist)));
}

#[test]
fn hundred_keys_survive_a_reopen() {
    let mut store = empty_store();
    for i in 1..=100 {
        store.set(format!("k{}", i), format!("v{}", i)).unwrap();
    }
    let reopened = open_store(snapshot(&store)).unwrap();
    for i in 1..=100 {
        assert_eq!(reopened.get(format!("k{}", i)).unwrap(), Some(format!("v{}", i)));
    }
}

#[test]
fn overwriting_one_key_compacts_the_log() {
    let mut store = empty_store();
    let mut written: u64 = 0;
    let mut n: u64 = 0;
    let mut compacted = false;
    while written <= COMPACTION_THRESHOLD + 1024 {
        n += 1;
        let value = n.to_string();
        written += put_frame("a", &value).len() as u64;
        let before = store.generations();
        store.set(s("a"), value.clone()).unwrap();
        if store.generations() != before {
            compacted = true;
            assert_eq!(store.generations(), vec![before[before.len() - 1] + 1, before[before.len() - 1] + 2]);
            let sealed = store.generations()[0];
            assert_eq!(store.segment_bytes(sealed).unwrap(), put_frame("a", &value).as_slice());
            assert_eq!(store.segment_bytes(sealed + 1).unwrap().len(), 0);
        }
    }
    assert!(compacted);
    assert_eq!(store.get(s("a")).unwrap(), Some(n.to_string()));
    assert_eq!(store.generations().len(), 2);
}

#[test]
fn last_set_wins() {
    let mut store = empty_store();
    store.set(s("a"), s("1")).unwrap();
    store.set(s("b"), s("x")).unwrap();
    store.remove(s("a")).unwrap();
    store.set(s("a"), s("2")).unwrap();
    store.set(s("b"), s("y")).unwrap();
    store.set(s("a"), s("3")).unwrap();
    store.remove(s("b")).unwrap();
    assert_eq!(store.get(s("a")).unwrap(), Some(s("3")));
    assert_eq!(store.get(s("b")).unwrap(), None);
}

#[test]
fn removed_key_stays_away_until_it_is_set_again() {
    let mut store = empty_store();
    store.set(s("a"), s("1")).unwrap();
    store.remove(s("a")).unwrap();
    assert_eq!(store.get(s("a")).unwrap(), None);
    store.set(s("other"), s("1")).unwrap();
    assert_eq!(store.get(s("a")).unwrap(), None);
    store.set(s("a"), s("again")).unwrap();
    assert_eq!(store.get(s("a")).unwrap(), Some(s("again")));
}

#[test]
fn a_failed_remove_changes_nothing() {
    let mut store = empty_store();
    store.set(s("a"), s("1")).unwrap();
    let before = snapshot(&store);
    assert!(matches!(store.remove(s("missing")), Err(KvsError::KeyDoesNotExist)));
    let after = snapshot(&store);
    assert_eq!(before.len(), after.len());
    for (x, y) in before.iter().zip(after.iter()) {
        assert_eq!(x.gen, y.gen);
        assert_eq!(x.data, y.data);
    }
}

#[test]
fn open_starts_with_generation_one() {
    let store = empty_store();
    assert_eq!(store.generations(), vec![1]);
    assert_eq!(store.segment_bytes(1).unwrap().len(), 0);
    assert!(store.segment_bytes(2).is_none());
}

#[test]
fn open_starts_a_segment_behind_the_largest() {
    let mut data = put_frame("a", "1");
    data.extend_from_slice(&put_frame("b", "2"));
    let store = open_store(vec![
        Segment { gen: 3, data: put_frame("a", "0") },
        Segment { gen: 7, data: data.clone() },
    ])
    .unwrap();
    assert_eq!(store.generations(), vec![3, 7, 8]);
    assert_eq!(store.segment_bytes(7).unwrap(), data.as_slice());
    assert_eq!(store.get(s("a")).unwrap(), Some(s("1")));
    assert_eq!(store.get(s("b")).unwrap(), Some(s("2")));
}

#[test]
fn set_appends_the_frame_to_the_active_segment() {
    let mut store = empty_store();
    store.set(s("key"), s("value")).unwrap();
    store.remove(s("key")).unwrap();
    let mut expected = put_frame("key", "value");
    expected.extend_from_slice(&rm_frame("key"));
    assert_eq!(store.segment_bytes(1).unwrap(), expected.as_slice());
}

#[test]
fn replay_applies_removes_and_overwrites() {
    let mut first = put_frame("a", "1");
    first.extend_from_slice(&put_frame("b", "1"));
    let mut second = rm_frame("a");
    second.extend_from_slice(&put_frame("b", "2"));
    second.extend_from_slice(&put_frame("c", "3"));
    let store =
        open_store(vec![Segment { gen: 1, data: first }, Segment { gen: 2, data: second }])
            .unwrap();
    assert_eq!(store.get(s("a")).unwrap(), None);
    assert_eq!(store.get(s("b")).unwrap(), Some(s("2")));
    assert_eq!(store.get(s("c")).unwrap(), Some(s("3")));
}

#[test]
fn reopening_after_compaction_gives_the_same_values() {
    let mut store = empty_store();
    for i in 0..50 {
        store.set(format!("k{}", i % 7), format!("v{}", i)).unwrap();
    }
    store.remove(s("k3")).unwrap();
    let size_before: usize = snapshot(&store).iter().map(|seg| seg.data.len()).sum();
    store.compaction().unwrap();
    let size_after: usize = snapshot(&store).iter().map(|seg| seg.data.len()).sum();
    assert!(size_after <= size_before);
    assert_eq!(store.generations(), vec![2, 3]);
    let reopened = open_store(snapshot(&store)).unwrap();
    assert_eq!(reopened.generations(), vec![2, 3, 4]);
    for k in 0..7 {
        let expected = if k == 3 { None } else { Some(format!("v{}", 49 - (49 - k) % 7)) };
        assert_eq!(store.get(format!("k{}", k)).unwrap(), expected);
        assert_eq!(reopened.get(format!("k{}", k)).unwrap(), expected);
    }
}

#[test]
fn compaction_copies_the_live_records_in_the_order_of_their_keys_arrival() {
    let mut store = empty_store();
    store.set(s("x"), s("1")).unwrap();
    store.set(s("y"), s("2")).unwrap();
    store.set(s("x"), s("3")).unwrap();
    store.set(s("z"), s("4")).unwrap();
    store.remove(s("y")).unwrap();
    store.compaction().unwrap();
    let mut expected = put_frame("x", "3");
    expected.extend_from_slice(&put_frame("z", "4"));
    assert_eq!(store.segment_bytes(2).unwrap(), expected.as_slice());
    assert_eq!(store.segment_bytes(3).unwrap().len(), 0);
    assert!(store.segment_bytes(1).is_none());
}

#[test]
fn a_torn_tail_of_the_last_segment_is_cut_off() {
    let good = put_frame("a", "1");
    let mut data = good.clone();
    let torn = put_frame("b", "2");
    data.extend_from_slice(&torn[..torn.len() - 3]);
    let store = open_store(vec![Segment { gen: 1, data }]).unwrap();
    assert_eq!(store.segment_bytes(1).unwrap(), good.as_slice());
    assert_eq!(store.get(s("a")).unwrap(), Some(s("1")));
    assert_eq!(store.get(s("b")).unwrap(), None);
}

#[test]
fn an_undecodable_tail_of_the_last_segment_is_cut_off() {
    let good = put_frame("a", "1");
    let mut data = good.clone();
    data.extend_from_slice(&[3, 0, 0, 0, 0, 107, 1]);
    let store = open_store(vec![Segment { gen: 4, data }]).unwrap();
    assert_eq!(store.segment_bytes(4).unwrap(), good.as_slice());
    assert_eq!(store.generations(), vec![4, 5]);
}

#[test]
fn a_torn_tail_of_an_earlier_segment_fails_the_open() {
    let mut data = put_frame("a", "1");
    let torn = put_frame("b", "2");
    data.extend_from_slice(&torn[..torn.len() - 3]);
    let opened =
        open_store(vec![Segment { gen: 1, data }, Segment { gen: 2, data: put_frame("c", "3") }]);
    assert!(matches!(opened, Err(KvsError::CorruptRecord)));
}

#[test]
fn a_short_length_prefix_ends_any_segment_cleanly() {
    let mut data = put_frame("a", "1");
    data.extend_from_slice(&[9, 9, 9]);
    let store =
        open_store(vec![Segment { gen: 1, data }, Segment { gen: 2, data: put_frame("c", "3") }])
            .unwrap();
    assert_eq!(store.segment_bytes(1).unwrap(), put_frame("a", "1").as_slice());
    assert_eq!(store.get(s("a")).unwrap(), Some(s("1")));
    assert_eq!(store.get(s("c")).unwrap(), Some(s("3")));
}

#[test]
fn segments_out_of_order_fail_the_open() {
    let opened = open_store(vec![
        Segment { gen: 2, data: Vec::new() },
        Segment { gen: 1, data: Vec::new() },
    ]);
    assert!(matches!(opened, Err(KvsError::CorruptRecord)));
    let twice = open_store(vec![
        Segment { gen: 2, data: Vec::new() },
        Segment { gen: 2, data: Vec::new() },
    ]);
    assert!(matches!(twice, Err(KvsError::CorruptRecord)));
}

#[test]
fn the_largest_generation_leaves_no_room_to_open() {
    let opened = open_store(vec![Segment { gen: u64::MAX, data: Vec::new() }]);
    assert!(matches!(opened, Err(KvsError::TryFromInt)));
}

#[test]
fn a_store_near_the_last_generation_refuses_writes() {
    let mut store = open_store(vec![Segment { gen: u64::MAX - 2, data: put_frame("a", "1") }])
        .unwrap();
    assert_eq!(store.generations(), vec![u64::MAX - 2, u64::MAX - 1]);
    assert!(matches!(store.set(s("a"), s("2")), Err(KvsError::TryFromInt)));
    assert!(matches!(store.remove(s("a")), Err(KvsError::TryFromInt)));
    assert!(matches!(store.compaction(), Err(KvsError::TryFromInt)));
    assert_eq!(store.get(s("a")).unwrap(), Some(s("1")));
}

#[test]
fn empty_keys_and_values_are_kept() {
    let mut store = empty_store();
    store.set(s(""), s("")).unwrap();
    store.set(s("k"), s("")).unwrap();
    assert_eq!(store.get(s("")).unwrap(), Some(s("")));
    assert_eq!(store.get(s("k")).unwrap(), Some(s("")));
}

#[test]
fn strings_with_zero_bytes_and_other_scripts_are_kept() {
    let mut store = empty_store();
    store.set(s("a\0b"), s("\0")).unwrap();
    store.set(s("ключ"), s("значение ☃")).unwrap();
    let reopened = open_store(snapshot(&store)).unwrap();
    assert_eq!(reopened.get(s("a\0b")).unwrap(), Some(s("\0")));
    assert_eq!(reopened.get(s("ключ")).unwrap(), Some(s("значение ☃")));
}

#[test]
fn command_pos_from_a_range() {
    let cmd = CommandPos::from(3, 10, 25);
    assert_eq!(cmd, CommandPos { gen: 3, pos: 10, len: 15 });
    assert_eq!(CommandPos::from(0, 7, 7).len, 0);
}

#[test]
fn a_frame_is_the_length_and_the_payload() {
    let frame = put_frame("key", "value");
    let announced = u32::from_le_bytes([frame[0], frame[1], frame[2], frame[3]]) as usize;
    assert_eq!(announced + 4, frame.len());
    let mut reader = BufReaderWithPos::new(&frame);
    match deserialize_from_log(&mut reader).unwrap() {
        KvsLogLine::Put { key, value } => {
            assert_eq!(key, "key");
            assert_eq!(value, "value");
        }
        KvsLogLine::Rm { .. } => panic!("a Put was written"),
    }
    assert_eq!(reader.pos, frame.len() as u64);
    assert!(reader.is_empty());
}

#[test]
fn serialize_to_log_appends_and_moves_the_position() {
    let mut writer = BufWriterWithPos::new(vec![1, 2, 3]);
    assert_eq!(writer.position(), 3);
    serialize_to_log(&mut writer, &KvsLogLine::Rm { key: s("gone") }).unwrap();
    let frame = rm_frame("gone");
    assert_eq!(writer.position(), 3 + frame.len() as u64);
    assert_eq!(&writer.bytes()[..3], &[1, 2, 3]);
    assert_eq!(&writer.bytes()[3..], frame.as_slice());
}

#[test]
fn deserialize_from_log_reports_corruption_and_stays() {
    let frame = put_frame("key", "value");
    let cut = &frame[..frame.len() - 1];
    let mut reader = BufReaderWithPos::new(cut);
    assert!(matches!(deserialize_from_log(&mut reader), Err(KvsError::CorruptRecord)));
    assert_eq!(reader.pos, 0);
    let short = [1u8, 0];
    let mut reader = BufReaderWithPos::new(&short);
    assert!(matches!(deserialize_from_log(&mut reader), Err(KvsError::CorruptRecord)));
    let not_a_record = [3u8, 0, 0, 0, 1, 4, 1];
    let mut reader = BufReaderWithPos::new(&not_a_record);
    assert!(matches!(deserialize_from_log(&mut reader), Err(KvsError::CorruptRecord)));
    assert_eq!(reader.pos, 0);
}

#[test]
fn load_counts_the_bytes_that_became_useless() {
    let first = put_frame("a", "1");
    let second = put_frame("a", "22");
    let third = rm_frame("a");
    let fourth = put_frame("b", "3");
    let mut data = first.clone();
    data.extend_from_slice(&second);
    data.extend_from_slice(&third);
    data.extend_from_slice(&fourth);
    let mut reader = BufReaderWithPos::new(&data);
    let mut index = Index::new();
    let uncompacted = load(5, &mut reader, &mut index, true).unwrap();
    assert_eq!(uncompacted, (first.len() + second.len() + third.len()) as u64);
    assert_eq!(reader.pos, data.len() as u64);
    assert_eq!(index.len(), 1);
    assert_eq!(index.get(&s("a")), None);
    assert_eq!(
        index.get(&s("b")),
        Some(CommandPos {
            gen: 5,
            pos: (first.len() + second.len() + third.len()) as u64,
            len: fourth.len() as u64
        })
    );
}

#[test]
fn reader_reads_seeks_and_knows_its_end() {
    let data = [10u8, 20, 30, 40, 50];
    let mut reader = BufReaderWithPos::new(&data);
    assert!(!reader.is_empty());
    assert_eq!(reader.read(2), &[10, 20]);
    assert_eq!(reader.pos, 2);
    assert_eq!(reader.read_exact(2).unwrap(), &[30, 40]);
    assert!(matches!(reader.read_exact(2), Err(KvsError::Io(_))));
    assert_eq!(reader.pos, 4);
    assert_eq!(reader.read(9), &[50]);
    assert!(reader.is_empty());
    assert_eq!(reader.read(1).len(), 0);
    assert_eq!(reader.seek(1), 1);
    assert_eq!(reader.remaining(), 4);
    assert_eq!(reader.seek(77), 77);
    assert!(reader.is_empty());
    assert_eq!(reader.remaining(), 0);
    assert!(BufReaderWithPos::new(&[]).is_empty());
}

#[test]
fn writer_appends_and_knows_its_position() {
    let mut writer = BufWriterWithPos::new(Vec::new());
    assert_eq!(writer.write(&[1, 2, 3]), 3);
    assert_eq!(writer.write(&[]), 0);
    assert_eq!(writer.write(&[4]), 1);
    assert_eq!(writer.position(), 4);
    assert_eq!(writer.bytes(), &[1, 2, 3, 4]);
    assert_eq!(writer.into_bytes(), vec![1, 2, 3, 4]);
}

#[test]
fn uncompacted_counts_displaced_records_and_removes() {
    let mut store = empty_store();
    store.set(s("a"), s("1")).unwrap();
    store.set(s("b"), s("2")).unwrap();
    assert_eq!(store.uncompacted_bytes(), 0);
    store.set(s("a"), s("333")).unwrap();
    let first = put_frame("a", "1").len() as u64;
    assert_eq!(store.uncompacted_bytes(), first);
    store.remove(s("a")).unwrap();
    let second = put_frame("a", "333").len() as u64;
    let third = rm_frame("a").len() as u64;
    assert_eq!(store.uncompacted_bytes(), first + second + third);
    let reopened = open_store(snapshot(&store)).unwrap();
    assert_eq!(reopened.uncompacted_bytes(), first + second + third);
    store.compaction().unwrap();
    assert_eq!(store.uncompacted_bytes(), 0);
    assert_eq!(store.segment_bytes(2).unwrap(), put_frame("b", "2").as_slice());
}

#[test]
fn uncompacted_stays_within_the_threshold() {
    let mut store = empty_store();
    let value = "v".repeat(100_000);
    let mut compactions = 0;
    for i in 0..60u32 {
        let gens = store.generations();
        if i % 7 == 6 {
            store.remove(format!("k{}", (i - 1) % 5)).unwrap();
        } else {
            store.set(format!("k{}", i % 5), value.clone()).unwrap();
        }
        if store.generations() != gens {
            compactions += 1;
            assert_eq!(store.uncompacted_bytes(), 0);
        }
        assert!(store.uncompacted_bytes() <= COMPACTION_THRESHOLD);
        for k in 0..5u32 {
            let expected = match (0..=i).rev().find(|j| {
                if j % 7 == 6 { (j - 1) % 5 == k } else { j % 5 == k }
            }) {
                Some(j) if j % 7 != 6 => Some(value.clone()),
                _ => None,
            };
            assert_eq!(store.get(format!("k{}", k)).unwrap(), expected);
        }
    }
    assert!(compactions >= 2);
}

#[test]
fn opening_does_not_compact_but_the_next_write_does() {
    let mut data = Vec::new();
    let value = "v".repeat(300_000);
    for _ in 0..6 {
        data.extend_from_slice(&put_frame("a", &value));
    }
    let frame = put_frame("a", &value).len() as u64;
    let mut store = open_store(vec![Segment { gen: 1, data }]).unwrap();
    assert_eq!(store.uncompacted_bytes(), 5 * frame);
    assert!(store.uncompacted_bytes() > COMPACTION_THRESHOLD + frame);
    assert_eq!(store.generations(), vec![1, 2]);
    assert_eq!(store.get(s("a")).unwrap(), Some(value.clone()));
    store.set(s("b"), s("1")).unwrap();
    assert_eq!(store.uncompacted_bytes(), 0);
    assert_eq!(store.generations(), vec![3, 4]);
    assert_eq!(store.segment_bytes(3).unwrap().len() as u64, frame + put_frame("b", "1").len() as u64);
    assert_eq!(store.get(s("a")).unwrap(), Some(value));
    assert_eq!(store.get(s("b")).unwrap(), Some(s("1")));
}

#[test]
fn index_keeps_one_entry_per_key() {
    let mut index = Index::new();
    let first = CommandPos { gen: 1, pos: 0, len: 10 };
    let second = CommandPos { gen: 1, pos: 10, len: 12 };
    assert_eq!(index.insert(s("a"), first), None);
    assert_eq!(index.insert(s("b"), second), None);
    assert_eq!(index.insert(s("a"), second), Some(first));
    assert_eq!(index.len(), 2);
    assert_eq!(index.key_at(0), "a");
    assert_eq!(index.cmd_at(0), second);
    assert!(index.contains_key(&s("b")));
    assert_eq!(index.remove(&s("a")), Some(second));
    assert_eq!(index.remove(&s("a")), None);
    assert_eq!(index.get(&s("b")), Some(second));
    assert!(!index.contains_key(&s("a")));
}

#[test]
fn random_sets_and_removes_agree_with_a_map() {
    let mut seed: u64 = 0x1234_5678_9ABC_DEF1;
    let mut next = move |n: u64| {
        seed ^= seed << 13;
        seed ^= seed >> 7;
        seed ^= seed << 17;
        seed % n
    };
    let mut expected = std::collections::BTreeMap::new();
    let mut store = empty_store();
    for step in 0..1500u32 {
        let key = format!("key{}", next(12));
        match next(3) {
            0 => {
                let removed = store.remove(key.clone());
                if expected.remove(&key).is_some() {
                    removed.unwrap();
                } else {
                    assert!(matches!(removed, Err(KvsError::KeyDoesNotExist)));
                }
            }
            _ => {
                let value = "x".repeat(next(4000) as usize) + &step.to_string();
                store.set(key.clone(), value.clone()).unwrap();
                expected.insert(key, value);
            }
        }
        assert!(store.uncompacted_bytes() <= COMPACTION_THRESHOLD);
        if step % 97 == 0 {
            store = open_store(snapshot(&store)).unwrap();
        }
        if step % 50 == 0 {
            for k in 0..12 {
                let key = format!("key{}", k);
                assert_eq!(store.get(key.clone()).unwrap(), expected.get(&key).cloned());
            }
        }
    }
    assert!(store.generations()[0] > 2);
}

#[test]
fn load_fails_on_a_damaged_segment_that_is_not_the_last() {
    let good = put_frame("a", "1");
    let mut data = good.clone();
    let torn = put_frame("b", "2");
    data.extend_from_slice(&torn[..torn.len() - 3]);
    let mut reader = BufReaderWithPos::new(&data);
    let mut index = Index::new();
    assert!(matches!(load(1, &mut reader, &mut index, false), Err(KvsError::CorruptRecord)));
    assert_eq!(reader.pos, good.len() as u64);
    assert_eq!(index.len(), 1);
    assert_eq!(index.get(&s("b")), None);
    let mut reader = BufReaderWithPos::new(&data);
    let mut index = Index::new();
    assert_eq!(load(1, &mut reader, &mut index, true).unwrap(), 0);
    assert_eq!(reader.pos, good.len() as u64);
    let mut undecodable = good.clone();
    undecodable.extend_from_slice(&[3, 0, 0, 0, 0, 107, 1]);
    let mut reader = BufReaderWithPos::new(&undecodable);
    let mut index = Index::new();
    assert!(matches!(load(1, &mut reader, &mut index, false), Err(KvsError::CorruptRecord)));
    let mut short = good.clone();
    short.extend_from_slice(&[9, 9, 9]);
    let mut reader = BufReaderWithPos::new(&short);
    let mut index = Index::new();
    assert_eq!(load(1, &mut reader, &mut index, false).unwrap(), 0);
    assert_eq!(index.get(&s("a")), Some(CommandPos { gen: 1, pos: 0, len: good.len() as u64 }));
}
