use kvs::flex::{decode_fields, encode_fields, same_fields, within_limits, MAX_FIELDS};
use kvs::record::encode_record;
use kvs::{Commands, KvsError, KvsLogLine, NetworkConnection};

fn s(text: &str) -> String {
    text.to_string()
}

fn strings(texts: &[&str]) -> Vec<String> {
    texts.iter().map(|text| text.to_string()).collect()
}

fn roundtrip(message: NetworkConnection) -> NetworkConnection {
    let payload = message.serialize_message().unwrap();
    NetworkConnection::deserialize_message(payload).unwrap()
}

#[test]
fn fields_come_back_as_they_went_in() {
    for fields in [
        strings(&[]),
        strings(&[""]),
        strings(&["one"]),
        strings(&["Set", "key", "value"]),
        strings(&["a\0b", "", "ü", "\n", "日本語"]),
    ] {
        let payload = encode_fields(&fields).unwrap();
        assert_eq!(decode_fields(&payload).unwrap(), fields);
    }
}

#[test]
fn long_fields_come_back_as_they_went_in() {
    let fields = vec!["x".repeat(300), "y".repeat(70_000), s("z")];
    let payload = encode_fields(&fields).unwrap();
    assert!(payload.len() > 70_300);
    assert_eq!(decode_fields(&payload).unwrap(), fields);
}

#[test]
fn many_fields_come_back_as_they_went_in() {
    let fields: Vec<String> = (0..1000).map(|i| format!("field {}", i)).collect();
    let payload = encode_fields(&fields).unwrap();
    assert_eq!(decode_fields(&payload).unwrap(), fields);
}

#[test]
fn the_payload_is_what_flexbuffers_writes() {
    let fields = strings(&["Rm", "key"]);
    assert_eq!(encode_fields(&fields).unwrap(), flexbuffers::to_vec(&fields).unwrap());
    let read: Vec<String> = flexbuffers::from_slice(&encode_fields(&fields).unwrap()).unwrap();
    assert_eq!(read, fields);
}

#[test]
fn same_fields_compares_every_string() {
    assert!(same_fields(&strings(&["a", "b"]), &strings(&["a", "b"])));
    assert!(!same_fields(&strings(&["a", "b"]), &strings(&["a", "c"])));
    assert!(!same_fields(&strings(&["a", "b"]), &strings(&["a"])));
    assert!(same_fields(&strings(&[]), &strings(&[])));
}

#[test]
fn buffers_that_are_no_flexbuffer_are_unreadable() {
    assert!(matches!(decode_fields(&[]), Err(KvsError::Reader(_))));
    assert!(matches!(decode_fields(&[1, 2]), Err(KvsError::Reader(_))));
    assert!(matches!(decode_fields(&[0, 40, 9]), Err(KvsError::Reader(_))));
}

#[test]
fn flexbuffers_of_another_shape_are_refused() {
    let number = flexbuffers::to_vec(7u8).unwrap();
    assert!(matches!(decode_fields(&number), Err(KvsError::Deserializer)));
    let text = flexbuffers::to_vec("text").unwrap();
    assert!(matches!(decode_fields(&text), Err(KvsError::Deserializer)));
    let numbers = flexbuffers::to_vec(vec![1u8, 2, 3]).unwrap();
    assert!(matches!(decode_fields(&numbers), Err(KvsError::Deserializer)));
    let mixed = flexbuffers::to_vec(("text", 7u8)).unwrap();
    assert!(matches!(decode_fields(&mixed), Err(KvsError::Reader(_))));
    let flag = [0u8, 107, 1];
    assert!(matches!(decode_fields(&flag), Err(KvsError::Deserializer)));
}

#[test]
fn a_vector_that_announces_more_than_the_buffer_holds_is_refused() {
    // A root vector of width 1 at address 1 whose length slot says 200.
    let lying = [200u8, 0, 1, 40, 1];
    assert!(matches!(decode_fields(&lying), Err(KvsError::Deserializer)));
    // The same with a length of 2: the type bytes lie outside the buffer.
    let short = [2u8, 0, 1, 40, 1];
    assert!(decode_fields(&short).is_err());
}

#[test]
fn every_single_byte_change_of_a_payload_is_survived() {
    let fields = strings(&["Set", "some key", "some value"]);
    let payload = encode_fields(&fields).unwrap();
    let mut same = 0;
    for at in 0..payload.len() {
        for byte in 0..=255u8 {
            let mut changed = payload.clone();
            changed[at] = byte;
            if let Ok(read) = decode_fields(&changed) {
                if read == fields {
                    same += 1;
                }
            }
        }
    }
    assert!(same >= payload.len());
}

#[test]
fn every_cut_of_a_payload_is_survived() {
    let fields = strings(&["Request", "Set", "key", "value"]);
    let payload = encode_fields(&fields).unwrap();
    for end in 0..payload.len() {
        for start in 0..=end {
            let _ = decode_fields(&payload[start..end]);
        }
    }
    assert_eq!(decode_fields(&payload).unwrap(), fields);
}

#[test]
fn short_buffers_of_every_root_are_survived() {
    let fill = [0u8, 1, 2, 3, 4, 8, 127, 255];
    let mut readable = 0u32;
    for tag in 0..=255u8 {
        for width in [0u8, 1, 2, 3, 4, 8, 255] {
            for a in fill {
                for b in fill {
                    for c in fill {
                        for d in fill {
                            if decode_fields(&[a, b, c, d, tag, width]).is_ok() {
                                readable += 1;
                            }
                            if decode_fields(&[c, d, tag, width]).is_ok() {
                                readable += 1;
                            }
                        }
                    }
                }
            }
        }
    }
    assert!(readable > 0);
}

#[test]
fn buffers_with_a_vector_root_and_any_elements_are_survived() {
    let fill = [0u8, 1, 2, 3, 5, 20, 21, 22, 23, 40, 104, 107, 255];
    let mut readable = 0u32;
    for width in [1u8, 2, 4, 8] {
        for root in [40u8, 41, 42, 43] {
            for offset in 0..8u8 {
                for a in fill {
                    for b in fill {
                        for c in fill {
                            for d in fill {
                                let bytes = [a, b, c, d, a, b, offset, root, width];
                                if decode_fields(&bytes).is_ok() {
                                    readable += 1;
                                }
                            }
                        }
                    }
                }
            }
        }
    }
    assert!(readable > 0);
}

#[test]
fn messages_come_back_as_they_went_in() {
    match roundtrip(NetworkConnection::Request {
        command: Commands::Put { key: s("k"), value: s("v") },
    }) {
        NetworkConnection::Request { command: Commands::Put { key, value } } => {
            assert_eq!(key, "k");
            assert_eq!(value, "v");
        }
        other => panic!("{:?}", other),
    }
    match roundtrip(NetworkConnection::Request { command: Commands::Get { key: s("k") } }) {
        NetworkConnection::Request { command: Commands::Get { key } } => assert_eq!(key, "k"),
        other => panic!("{:?}", other),
    }
    match roundtrip(NetworkConnection::Request { command: Commands::Rm { key: s("Get") } }) {
        NetworkConnection::Request { command: Commands::Rm { key } } => assert_eq!(key, "Get"),
        other => panic!("{:?}", other),
    }
    match roundtrip(NetworkConnection::Response { value: s("Error") }) {
        NetworkConnection::Response { value } => assert_eq!(value, "Error"),
        other => panic!("{:?}", other),
    }
    match roundtrip(NetworkConnection::Error { error: s("Key not found") }) {
        NetworkConnection::Error { error } => assert_eq!(error, "Key not found"),
        other => panic!("{:?}", other),
    }
    assert!(matches!(roundtrip(NetworkConnection::Done), NetworkConnection::Done));
}

#[test]
fn message_fields_name_the_variants() {
    let request =
        NetworkConnection::Request { command: Commands::Put { key: s("k"), value: s("v") } };
    assert_eq!(request.to_fields(), strings(&["Request", "Set", "k", "v"]));
    let get = NetworkConnection::Request { command: Commands::Get { key: s("k") } };
    assert_eq!(get.to_fields(), strings(&["Request", "Get", "k"]));
    let rm = NetworkConnection::Request { command: Commands::Rm { key: s("k") } };
    assert_eq!(rm.to_fields(), strings(&["Request", "Rm", "k"]));
    assert_eq!(NetworkConnection::Response { value: s("v") }.to_fields(), strings(&["Response", "v"]));
    assert_eq!(NetworkConnection::Error { error: s("e") }.to_fields(), strings(&["Error", "e"]));
    assert_eq!(NetworkConnection::Done.to_fields(), strings(&["Ok"]));
}

#[test]
fn fields_that_name_no_message_are_refused() {
    for fields in [
        strings(&[]),
        strings(&["Done"]),
        strings(&["Ok", "more"]),
        strings(&["Request", "Set", "k"]),
        strings(&["Request", "Get", "k", "v"]),
        strings(&["Request", "Put", "k", "v"]),
        strings(&["request", "Get", "k"]),
        strings(&["Response"]),
        strings(&["Set", "k", "v"]),
        strings(&["Request", "Set", "k", "v", "w"]),
    ] {
        assert!(NetworkConnection::from_fields(&fields).is_none(), "{:?}", fields);
        let payload = encode_fields(&fields).unwrap();
        assert!(matches!(
            NetworkConnection::deserialize_message(payload),
            Err(KvsError::Deserializer)
        ));
    }
}

#[test]
fn a_payload_that_is_no_flexbuffer_is_no_message() {
    assert!(matches!(
        NetworkConnection::deserialize_message(vec![1, 2, 3, 4]),
        Err(KvsError::Reader(_))
    ));
    assert!(matches!(
        NetworkConnection::deserialize_message(flexbuffers::to_vec(1.5f64).unwrap()),
        Err(KvsError::Deserializer)
    ));
}

#[test]
fn a_frame_is_length_line_feed_and_payload() {
    let message = NetworkConnection::Response { value: s("value") };
    let payload = message.serialize_message().unwrap();
    let frame = NetworkConnection::send_network_message(message).unwrap();
    assert_eq!(&frame[..8], &(payload.len() as u64).to_le_bytes());
    assert_eq!(frame[8], b'\n');
    assert_eq!(&frame[9..], payload.as_slice());
    assert_eq!(NetworkConnection::frame_payload_len(&frame[..9]).unwrap(), payload.len());
    assert_eq!(NetworkConnection::receive_network_message(&frame).unwrap(), payload);
}

#[test]
fn a_frame_whose_length_holds_a_line_feed_is_read_whole() {
    let message = NetworkConnection::Response { value: "v".repeat(10 + 256 * 10) };
    let payload = message.serialize_message().unwrap();
    let frame = NetworkConnection::send_network_message(message).unwrap();
    assert!(frame[..8].contains(&b'\n') || payload.len() % 256 != 10);
    assert_eq!(NetworkConnection::receive_network_message(&frame).unwrap(), payload);
    let mut frame = vec![10u8, 0, 0, 0, 0, 0, 0, 0, b'\n'];
    frame.extend_from_slice(&[7u8; 10]);
    frame.extend_from_slice(&[9u8; 5]);
    assert_eq!(NetworkConnection::receive_network_message(&frame).unwrap(), vec![7u8; 10]);
}

#[test]
fn broken_frames_are_told_apart() {
    assert!(matches!(NetworkConnection::receive_network_message(&[]), Err(KvsError::Io(_))));
    assert!(matches!(
        NetworkConnection::receive_network_message(&[1, 0, 0, 0, 0, 0, 0, 0]),
        Err(KvsError::Io(_))
    ));
    assert!(matches!(
        NetworkConnection::receive_network_message(&[1, 0, 0, 0, 0, 0, 0, 0, b' ', 5]),
        Err(KvsError::Deserializer)
    ));
    assert!(matches!(
        NetworkConnection::receive_network_message(&[2, 0, 0, 0, 0, 0, 0, 0, b'\n', 5]),
        Err(KvsError::Io(_))
    ));
    assert_eq!(
        NetworkConnection::receive_network_message(&[0, 0, 0, 0, 0, 0, 0, 0, b'\n']).unwrap(),
        Vec::<u8>::new()
    );
    assert!(matches!(
        NetworkConnection::frame_payload_len(&[0, 0, 0, 0, 0, 0, 0, 0, 0]),
        Err(KvsError::Deserializer)
    ));
}

#[test]
fn records_are_tagged_fields() {
    let put = KvsLogLine::Put { key: s("k"), value: s("v") };
    assert_eq!(put.to_fields(), strings(&["Set", "k", "v"]));
    let rm = KvsLogLine::Rm { key: s("k") };
    assert_eq!(rm.to_fields(), strings(&["Rm", "k"]));
    assert!(matches!(
        KvsLogLine::from_fields(&strings(&["Set", "k", "v"])),
        Some(KvsLogLine::Put { .. })
    ));
    assert!(matches!(KvsLogLine::from_fields(&strings(&["Rm", "k"])), Some(KvsLogLine::Rm { .. })));
    assert!(KvsLogLine::from_fields(&strings(&["Rm", "k", "v"])).is_none());
    assert!(KvsLogLine::from_fields(&strings(&["Set", "k"])).is_none());
    assert!(KvsLogLine::from_fields(&strings(&["Get", "k"])).is_none());
    assert!(KvsLogLine::from_fields(&strings(&[])).is_none());
    let frame = encode_record(&put).unwrap();
    assert_eq!(&frame[4..], encode_fields(&strings(&["Set", "k", "v"])).unwrap().as_slice());
}

/// A small generator of repeatable pseudo-random numbers.
struct Rng(u64);

impl Rng {
    fn next(&mut self) -> u64 {
        self.0 ^= self.0 << 13;
        self.0 ^= self.0 >> 7;
        self.0 ^= self.0 << 17;
        self.0
    }

    fn below(&mut self, n: u64) -> u64 {
        self.next() % n
    }
}

#[test]
fn payloads_with_several_changed_bytes_are_survived() {
    let fields = strings(&["Request", "Set", "a key of some length", "and a value"]);
    let payload = encode_fields(&fields).unwrap();
    let mut rng = Rng(0x9E37_79B9_7F4A_7C15);
    let mut readable = 0u32;
    for _ in 0..60_000 {
        let mut changed = payload.clone();
        for _ in 0..1 + rng.below(4) {
            let at = rng.below(changed.len() as u64) as usize;
            changed[at] = match rng.below(4) {
                0 => rng.below(256) as u8,
                1 => rng.below(8) as u8,
                2 => 255 - rng.below(4) as u8,
                _ => changed[at].wrapping_add(1),
            };
        }
        if rng.below(8) == 0 {
            changed.truncate(rng.below(changed.len() as u64 + 1) as usize);
        }
        if decode_fields(&changed).is_ok() {
            readable += 1;
        }
    }
    assert!(readable > 0);
}

#[test]
fn random_buffers_that_end_like_a_vector_are_survived() {
    let interesting = [0u8, 1, 2, 3, 4, 5, 7, 8, 16, 20, 21, 22, 23, 36, 40, 41, 42, 43, 104, 107, 255];
    let mut rng = Rng(0x2545_F491_4F6C_DD1D);
    let mut readable = 0u32;
    for _ in 0..120_000 {
        let len = 3 + rng.below(30) as usize;
        let mut bytes: Vec<u8> = (0..len)
            .map(|_| {
                if rng.below(3) == 0 {
                    rng.below(256) as u8
                } else {
                    interesting[rng.below(interesting.len() as u64) as usize]
                }
            })
            .collect();
        bytes[len - 1] = [1u8, 2, 4, 8][rng.below(4) as usize];
        bytes[len - 2] = 40 + rng.below(4) as u8;
        if decode_fields(&bytes).is_ok() {
            readable += 1;
        }
    }
    assert!(readable > 0);
}

#[test]
fn too_many_fields_are_refused_before_the_encoder_sees_them() {
    let most: Vec<String> = vec![String::new(); MAX_FIELDS];
    assert!(within_limits(&most));
    let payload = encode_fields(&most).unwrap();
    assert_eq!(decode_fields(&payload).unwrap(), most);
    let more: Vec<String> = vec![String::new(); MAX_FIELDS + 1];
    assert!(!within_limits(&more));
    assert!(matches!(encode_fields(&more), Err(KvsError::TryFromInt)));
    let many: Vec<String> = vec![String::new(); 21845];
    assert!(matches!(encode_fields(&many), Err(KvsError::TryFromInt)));
}

#[test]
fn fields_near_the_limit_come_back_as_they_went_in() {
    for n in [255usize, 256, 5000, 7280, 7281] {
        for text in ["", "a", "some longer text"] {
            let fields: Vec<String> = (0..n).map(|i| format!("{}{}", text, i % 7)).collect();
            let payload = encode_fields(&fields).unwrap();
            assert_eq!(decode_fields(&payload).unwrap(), fields);
        }
    }
    let long = vec!["x".repeat(70_000), "y".repeat(200_000), String::new()];
    assert!(within_limits(&long));
    assert_eq!(decode_fields(&encode_fields(&long).unwrap()).unwrap(), long);
}

#[test]
fn payloads_around_the_width_boundaries_come_back_as_they_went_in() {
    for fields in 1..=3usize {
        for len in (200..300).chain(65_300..65_560) {
            let mut texts: Vec<String> = vec![String::new(); fields];
            texts[0] = "k".repeat(len);
            let payload = encode_fields(&texts).unwrap();
            assert_eq!(decode_fields(&payload).unwrap(), texts);
            texts.reverse();
            let payload = encode_fields(&texts).unwrap();
            assert_eq!(decode_fields(&payload).unwrap(), texts);
        }
    }
    for count in (80..90).chain(125..130).chain(250..260).chain(7270..=7281) {
        for len in [0usize, 1, 2, 7, 8, 9] {
            let texts: Vec<String> = vec!["v".repeat(len); count];
            let payload = encode_fields(&texts).unwrap();
            assert_eq!(decode_fields(&payload).unwrap(), texts);
        }
    }
}
