use mumo_ingest::files::{Index, State, StoreError, Written, ENTRY_LEN};

fn get_input(index: u8, length: u8) -> Vec<u8> {
    (index..index + length).collect()
}

fn empty() -> State {
    State::new(Vec::new(), Vec::new()).unwrap()
}

fn reopened(state: &State) -> State {
    State::new(state.data().clone(), state.indices().clone()).unwrap()
}

fn entry_bytes(start: u64, index: u64, length: u64) -> Vec<u8> {
    Index { start, index, length }.to_bytes().to_vec()
}

#[test]
fn basic_write() {
    let mut state = empty();

    state.write(&get_input(0, 8)).unwrap();
    state.write(&get_input(2, 3)).unwrap();
    state.write(&get_input(5, 2)).unwrap();
    state.write(&get_input(10, 20)).unwrap();

    let (ret, idx) = state.read(0).unwrap();
    assert_eq!(ret, get_input(0, 8));
    assert_eq!(idx.index, 0);
    let (ret, idx) = state.read(1).unwrap();
    assert_eq!(ret, get_input(2, 3));
    assert_eq!(idx.index, 1);
    let (ret, idx) = state.read(2).unwrap();
    assert_eq!(ret, get_input(5, 2));
    assert_eq!(idx.index, 2);
    let (ret, idx) = state.read(3).unwrap();
    assert_eq!(ret, get_input(10, 20));
    assert_eq!(idx.index, 3);

    let (ret, idx) = state.read(0).unwrap();
    assert_eq!(ret, get_input(0, 8));
    assert_eq!(idx.index, 0);
}

#[test]
fn test_resume() {
    let mut state = empty();

    state.write(&get_input(0, 8)).unwrap();
    state.write(&get_input(2, 3)).unwrap();
    state.write(&get_input(5, 2)).unwrap();
    state.write(&get_input(10, 20)).unwrap();

    let mut state = reopened(&state);
    state.write(&get_input(4, 42)).unwrap();

    let (ret, idx) = state.read(4).unwrap();
    assert_eq!(ret, get_input(4, 42));
    assert_eq!(idx.index, 4);

    let (ret, idx) = state.read(0).unwrap();
    assert_eq!(ret, get_input(0, 8));
    assert_eq!(idx.index, 0);
    let (ret, idx) = state.read(1).unwrap();
    assert_eq!(ret, get_input(2, 3));
    assert_eq!(idx.index, 1);
    let (ret, idx) = state.read(2).unwrap();
    assert_eq!(ret, get_input(5, 2));
    assert_eq!(idx.index, 2);
    let (ret, idx) = state.read(3).unwrap();
    assert_eq!(ret, get_input(10, 20));
    assert_eq!(idx.index, 3);

    let (ret, idx) = state.read(0).unwrap();
    assert_eq!(ret, get_input(0, 8));
    assert_eq!(idx.index, 0);
}

#[test]
fn entry_is_three_little_endian_words() {
    let entry = Index { start: 0x0102030405060708, index: 1, length: 0x1_0000 };
    let bytes = entry.to_bytes();
    assert_eq!(bytes.len(), ENTRY_LEN);
    assert_eq!(
        bytes,
        [
            0x08, 0x07, 0x06, 0x05, 0x04, 0x03, 0x02, 0x01, // start
            1, 0, 0, 0, 0, 0, 0, 0, // index
            0, 0, 1, 0, 0, 0, 0, 0, // length
        ]
    );
}

#[test]
fn entry_round_trip() {
    let entries = [
        Index { start: 0, index: 0, length: 0 },
        Index { start: 5, index: 1, length: 2 },
        Index { start: u64::MAX, index: u64::MAX - 1, length: 1 << 40 },
        Index { start: 0xdead_beef, index: 0x1234_5678_9abc_def0, length: 77 },
    ];
    for entry in entries {
        assert_eq!(Index::from_bytes(&entry.to_bytes()), entry);
    }
}

#[test]
fn bytes_round_trip() {
    let bytes: Vec<u8> = (100u8..124).collect();
    assert_eq!(Index::from_bytes(&bytes).to_bytes().to_vec(), bytes);
}

#[test]
fn from_bytes_looks_at_the_first_24_bytes_only() {
    let mut bytes = entry_bytes(3, 4, 5);
    bytes.extend_from_slice(&[0xff; 10]);
    assert_eq!(Index::from_bytes(&bytes), Index { start: 3, index: 4, length: 5 });
}

#[test]
fn empty_store() {
    let mut state = empty();
    assert_eq!(state.last(), 0);
    assert!(state.data().is_empty());
    assert!(state.indices().is_empty());
    assert_eq!(state.read(0), Err(StoreError::OutOfRange));
}

#[test]
fn last_counts_the_appends() {
    let mut state = empty();
    for n in 0..50u64 {
        assert_eq!(state.last(), n);
        let written = state.write(&[n as u8; 3]).unwrap();
        assert_eq!(written, Written { size: 3, index: n });
    }
    assert_eq!(state.last(), 50);
}

#[test]
fn every_record_reads_back() {
    let payloads: Vec<Vec<u8>> = (0..40u8).map(|n| vec![n; (n as usize * 7) % 13]).collect();
    let mut state = empty();
    for payload in &payloads {
        state.write(payload).unwrap();
    }
    for (i, payload) in payloads.iter().enumerate() {
        let (bytes, entry) = state.read(i as u64).unwrap();
        assert_eq!(&bytes, payload);
        assert_eq!(entry.index, i as u64);
    }
}

#[test]
fn every_record_reads_back_across_restarts() {
    let payloads: Vec<Vec<u8>> = (0..20u8).map(|n| vec![n; n as usize % 5]).collect();
    let mut state = empty();
    for payload in &payloads {
        state.write(payload).unwrap();
        state = reopened(&state);
    }
    assert_eq!(state.last(), 20);
    for (i, payload) in payloads.iter().enumerate() {
        assert_eq!(&state.read(i as u64).unwrap().0, payload);
    }
}

#[test]
fn start_offsets_are_running_totals() {
    let lengths = [8usize, 3, 0, 2, 20, 1];
    let mut state = empty();
    for length in lengths {
        state.write(&vec![7; length]).unwrap();
    }
    let mut total = 0u64;
    for (i, length) in lengths.iter().enumerate() {
        let (_, entry) = state.read(i as u64).unwrap();
        assert_eq!(entry, Index { start: total, index: i as u64, length: *length as u64 });
        total += *length as u64;
    }
    assert_eq!(state.data().len() as u64, total);
    assert_eq!(state.indices().len(), lengths.len() * ENTRY_LEN);
}

#[test]
fn streams_hold_payloads_and_entries_in_order() {
    let mut state = empty();
    state.write(b"hello").unwrap();
    state.write(b"hi").unwrap();
    assert_eq!(state.data(), b"hellohi");
    let mut indices = entry_bytes(0, 0, 5);
    indices.extend(entry_bytes(5, 1, 2));
    assert_eq!(state.indices(), &indices);
}

#[test]
fn reading_past_the_end_fails() {
    let mut state = empty();
    state.write(b"a").unwrap();
    state.write(b"bc").unwrap();
    for sequence in [2, 3, 100, u64::MAX / 24, u64::MAX / 24 + 1, u64::MAX] {
        assert_eq!(state.read(sequence), Err(StoreError::OutOfRange));
    }
    assert_eq!(state.last(), 2);
}

#[test]
fn empty_payload_is_a_record() {
    let mut state = empty();
    assert_eq!(state.write(b"").unwrap(), Written { size: 0, index: 0 });
    assert_eq!(state.write(b"x").unwrap(), Written { size: 1, index: 1 });
    assert_eq!(state.read(0).unwrap(), (Vec::new(), Index { start: 0, index: 0, length: 0 }));
    assert_eq!(state.read(1).unwrap(), (b"x".to_vec(), Index { start: 0, index: 1, length: 1 }));
}

#[test]
fn end_to_end() {
    let mut state = empty();
    assert_eq!(state.write(b"hello").unwrap(), Written { size: 5, index: 0 });
    assert_eq!(state.write(b"hi").unwrap(), Written { size: 2, index: 1 });
    assert_eq!(state.read(0).unwrap().0, b"hello");
    assert_eq!(state.read(1).unwrap().0, b"hi");
    assert_eq!(state.read(2), Err(StoreError::OutOfRange));

    let mut state = reopened(&state);
    assert_eq!(state.last(), 2);
    assert_eq!(state.write(b"!!").unwrap(), Written { size: 2, index: 2 });
    assert_eq!(state.read(2).unwrap().0, b"!!");
    assert_eq!(state.read(0).unwrap().0, b"hello");
}

#[test]
fn recovery_reads_the_last_entry_only() {
    let mut indices = vec![0xaa; 24];
    indices.extend(entry_bytes(100, 41, 11));
    let state = State::new(vec![1, 2, 3], indices).unwrap();
    assert_eq!(state.last(), 42);

    assert_eq!(state.next_entry(2), Err(StoreError::OutOfRange));
}

#[test]
fn recovery_of_a_short_index_stream_starts_from_zero() {
    for held in [0usize, 1, 23] {
        let mut state = State::new(vec![9; 4], vec![0xff; held]).unwrap();
        assert_eq!(state.last(), 0);
        assert_eq!(state.read(0), Err(StoreError::OutOfRange));
        let written = state.write(b"q").unwrap();
        assert_eq!(written, Written { size: 1, index: 0 });
        assert_eq!(state.read(0), Ok((b"q".to_vec(), Index { start: 0, index: 0, length: 1 })));
        assert_eq!(state.data(), b"q");
        assert_eq!(state.indices(), &entry_bytes(0, 0, 1));
        assert_eq!(state.last(), 1);
    }
}

#[test]
fn recovery_takes_the_last_24_bytes_as_they_lie() {
    let mut indices = vec![0u8; 5];
    indices.extend(entry_bytes(7, 2, 1));
    let mut state = State::new(vec![0; 8], indices.clone()).unwrap();
    assert_eq!(state.last(), 3);
    assert_eq!(state.write(b"x"), Err(StoreError::OutOfRange));
    assert_eq!(state.indices(), &indices);
    assert_eq!(state.data(), &[0; 8]);
}

#[test]
fn recovery_refuses_counters_beyond_64_bits() {
    let sequence = State::new(Vec::new(), entry_bytes(0, u64::MAX, 0));
    assert_eq!(sequence.err(), Some(StoreError::Overflow));
    let offset = State::new(Vec::new(), entry_bytes(u64::MAX, 0, 1));
    assert_eq!(offset.err(), Some(StoreError::Overflow));
    let edge = State::new(Vec::new(), entry_bytes(u64::MAX - 1, u64::MAX - 1, 1)).unwrap();
    assert_eq!(edge.last(), u64::MAX);
}

#[test]
fn write_refuses_counters_beyond_64_bits() {
    let mut full = State::new(Vec::new(), entry_bytes(0, u64::MAX - 1, 0)).unwrap();
    assert_eq!(full.last(), u64::MAX);
    assert_eq!(full.write(b"x"), Err(StoreError::Overflow));
    assert_eq!(full.last(), u64::MAX);
    assert!(full.data().is_empty());
    assert_eq!(full.indices().len(), ENTRY_LEN);

    let mut far = State::new(Vec::new(), entry_bytes(u64::MAX - 1, 0, 0)).unwrap();
    assert_eq!(far.write(b"xy"), Err(StoreError::Overflow));
    assert_eq!(far.next_entry(2), Err(StoreError::Overflow));
}

#[test]
fn write_refuses_to_start_past_the_end_of_a_stream() {
    let mut short = State::new(b"abc".to_vec(), entry_bytes(0, 0, 5)).unwrap();
    assert_eq!(short.last(), 1);
    assert_eq!(short.read(0), Err(StoreError::OutOfRange));
    assert_eq!(short.next_entry(1), Err(StoreError::OutOfRange));
    assert_eq!(short.write(b"x"), Err(StoreError::OutOfRange));
    assert_eq!(short.write(b""), Err(StoreError::OutOfRange));
    assert_eq!(short.data(), b"abc");
    assert_eq!(short.indices(), &entry_bytes(0, 0, 5));
    assert_eq!(short.last(), 1);

    let mut ahead = State::new(b"abc".to_vec(), entry_bytes(0, 3, 3)).unwrap();
    assert_eq!(ahead.last(), 4);
    assert_eq!(ahead.write(b"x"), Err(StoreError::OutOfRange));
    assert_eq!(ahead.last(), 4);
}

#[test]
fn stray_tail_bytes_do_not_reach_the_next_record() {
    let mut indices = entry_bytes(0, 0, 5);
    indices.extend(entry_bytes(5, 1, 2));
    let mut state = State::new(b"hellohiXX".to_vec(), indices.clone()).unwrap();
    assert_eq!(state.last(), 2);
    assert_eq!(state.next_entry(2), Ok(Index { start: 7, index: 2, length: 2 }));
    assert_eq!(state.write(b"!!"), Ok(Written { size: 2, index: 2 }));
    assert_eq!(state.read(2), Ok((b"!!".to_vec(), Index { start: 7, index: 2, length: 2 })));
    assert_eq!(state.read(0).unwrap().0, b"hello");
    assert_eq!(state.read(1).unwrap().0, b"hi");
    assert_eq!(state.data(), b"hellohi!!");
    indices.extend(entry_bytes(7, 2, 2));
    assert_eq!(state.indices(), &indices);
    assert_eq!(state.read(3), Err(StoreError::OutOfRange));
}

#[test]
fn long_stray_tail_is_cut_off() {
    let mut state = State::new(b"hello and a long tail".to_vec(), entry_bytes(0, 0, 5)).unwrap();
    assert_eq!(state.write(b"").unwrap(), Written { size: 0, index: 1 });
    assert_eq!(state.data(), b"hello");
    assert_eq!(state.write(b"hi").unwrap(), Written { size: 2, index: 2 });
    assert_eq!(state.read(2).unwrap().0, b"hi");
    assert_eq!(state.data(), b"hellohi");
}

#[test]
fn stray_entries_are_cut_off() {
    let mut indices = entry_bytes(0, 0, 1);
    indices.extend(entry_bytes(1, 1, 1));
    indices.extend(entry_bytes(0, 0, 2));
    let mut state = State::new(b"abc".to_vec(), indices).unwrap();
    assert_eq!(state.last(), 1);
    assert_eq!(state.write(b"Z"), Ok(Written { size: 1, index: 1 }));
    assert_eq!(state.read(1), Ok((b"Z".to_vec(), Index { start: 2, index: 1, length: 1 })));
    assert_eq!(state.read(2), Err(StoreError::OutOfRange));
    assert_eq!(state.data(), b"abZ");
    let mut expected = entry_bytes(0, 0, 1);
    expected.extend(entry_bytes(2, 1, 1));
    assert_eq!(state.indices(), &expected);
    let state = State::new(state.data().clone(), state.indices().clone()).unwrap();
    assert_eq!(state.last(), 2);
}

#[test]
fn next_entry_says_where_the_next_record_goes() {
    let mut state = empty();
    assert_eq!(state.next_entry(5), Ok(Index { start: 0, index: 0, length: 5 }));
    assert_eq!(state.last(), 0);
    state.write(b"hello").unwrap();
    assert_eq!(state.next_entry(0), Ok(Index { start: 5, index: 1, length: 0 }));
    assert_eq!(state.next_entry(2), Ok(Index { start: 5, index: 1, length: 2 }));
    assert_eq!(state.write(b"hi").unwrap(), Written { size: 2, index: 1 });
    assert_eq!(state.read(1).unwrap().1, Index { start: 5, index: 1, length: 2 });
}

#[test]
fn entry_without_its_payload_cannot_be_read() {
    let mut indices = entry_bytes(0, 0, 2);
    indices.extend(entry_bytes(2, 1, 5));
    let mut state = State::new(b"abcde".to_vec(), indices).unwrap();
    assert_eq!(state.read(0).unwrap().0, b"ab");
    assert_eq!(state.read(1), Err(StoreError::OutOfRange));
}

#[test]
fn entry_that_wraps_around_cannot_be_read() {
    let mut indices = entry_bytes(u64::MAX, 0, 2);
    indices.extend(entry_bytes(1, 1, u64::MAX));
    indices.extend(entry_bytes(0, 2, 0));
    let mut state = State::new(b"abcde".to_vec(), indices).unwrap();
    assert_eq!(state.read(0), Err(StoreError::OutOfRange));
    assert_eq!(state.read(1), Err(StoreError::OutOfRange));
}

#[test]
fn empty_record_is_read_wherever_its_entry_points() {
    let mut state = State::new(b"abc".to_vec(), entry_bytes(1000, 0, 0)).unwrap();
    assert_eq!(state.read(0), Ok((Vec::new(), Index { start: 1000, index: 0, length: 0 })));
}

#[test]
fn read_leaves_the_store_alone() {
    let mut state = empty();
    state.write(b"abc").unwrap();
    let data = state.data().clone();
    let indices = state.indices().clone();
    state.read(0).unwrap();
    state.read(5).unwrap_err();
    assert_eq!(state.data(), &data);
    assert_eq!(state.indices(), &indices);
    assert_eq!(state.last(), 1);
}

#[test]
fn nothing_is_read_from_the_count_on_whatever_the_streams_hold() {
    let mut indices = entry_bytes(0, 5, 1);
    indices.extend(entry_bytes(0, 0, 1));
    let mut state = State::new(b"a".to_vec(), indices).unwrap();
    assert_eq!(state.last(), 1);
    assert_eq!(state.read(0), Ok((b"a".to_vec(), Index { start: 0, index: 5, length: 1 })));
    assert_eq!(state.read(1), Err(StoreError::OutOfRange));
    assert_eq!(state.read(2), Err(StoreError::OutOfRange));
    assert_eq!(state.write(b"b"), Ok(Written { size: 1, index: 1 }));
    assert_eq!(state.read(1), Ok((b"b".to_vec(), Index { start: 1, index: 1, length: 1 })));
    assert_eq!(state.read(2), Err(StoreError::OutOfRange));
}
