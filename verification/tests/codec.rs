use self_encryption::{
    decrypt, encrypt, ChunkStore, DataMap, EncryptedChunk, Error, StreamingDecrypt,
    MAX_CHUNK_SIZE, MIN_ENCRYPTABLE_BYTES,
};

fn store_of(chunks: &[EncryptedChunk]) -> ChunkStore {
    let mut store = ChunkStore::new();
    for chunk in chunks {
        store.put(chunk.address(), chunk.content.clone());
    }
    store
}

fn patterned(len: usize) -> Vec<u8> {
    (0..len).map(|i| (i % 251) as u8 ^ (i / 251) as u8).collect()
}

#[test]
fn minimum_input_round_trip() {
    let data = vec![0x01u8, 0x02, 0x03];
    assert_eq!(data.len(), MIN_ENCRYPTABLE_BYTES);
    let (dm, chunks) = encrypt(&data).expect("three bytes are encryptable");
    assert_eq!(chunks.len(), 3);
    for chunk in &chunks {
        assert_eq!(chunk.content.len(), 1);
        assert_eq!(chunk.address().len(), 32);
    }
    assert_eq!(dm.len(), 3);
    assert!(!dm.is_child());
    let store = store_of(&chunks);
    let out = decrypt(&dm, &store).expect("all three ciphertexts are present");
    assert_eq!(out, data);
}

#[test]
fn round_trip_medium_input() {
    let data = patterned(70_000);
    let (dm, chunks) = encrypt(&data).expect("encryptable");
    let store = store_of(&chunks);
    assert_eq!(decrypt(&dm, &store).expect("complete store"), data);
}

#[test]
fn round_trip_multi_chunk_input() {
    let data = patterned(4 * MAX_CHUNK_SIZE + 12345);
    let (dm, chunks) = encrypt(&data).expect("encryptable");
    assert_eq!(chunks.len(), 5);
    let store = store_of(&chunks);
    assert_eq!(decrypt(&dm, &store).expect("complete store"), data);
}

#[test]
fn undersized_inputs_are_refused() {
    for len in 0..MIN_ENCRYPTABLE_BYTES {
        let data = patterned(len);
        match encrypt(&data) {
            Err(Error::InputTooSmall) => {}
            _ => panic!("an input of {} bytes must be refused", len),
        }
    }
}

#[test]
fn two_byte_input_produces_nothing() {
    let data = vec![0xAAu8, 0xBB];
    match encrypt(&data) {
        Err(Error::InputTooSmall) => {}
        Ok(_) => panic!("a two-byte input must not produce chunks"),
        Err(_) => panic!("a two-byte input fails only for being too small"),
    }
}

#[test]
fn encryption_is_deterministic() {
    let data = patterned(50_000);
    let (dm1, chunks1) = encrypt(&data).expect("encryptable");
    let (dm2, chunks2) = encrypt(&data).expect("encryptable");
    assert_eq!(dm1.serialize(), dm2.serialize());
    assert_eq!(chunks1.len(), chunks2.len());
    for (a, b) in chunks1.iter().zip(chunks2.iter()) {
        assert_eq!(a.address(), b.address());
        assert_eq!(a.content, b.content);
    }
}

#[test]
fn chunk_count_follows_the_formula() {
    for (len, expected) in [
        (3usize, 3usize),
        (1000, 3),
        (3 * MAX_CHUNK_SIZE, 3),
        (3 * MAX_CHUNK_SIZE + 1, 4),
        (4 * MAX_CHUNK_SIZE, 4),
        (4 * MAX_CHUNK_SIZE + 1, 5),
    ] {
        let data = patterned(len);
        let (dm, chunks) = encrypt(&data).expect("encryptable");
        assert_eq!(chunks.len(), expected, "count for length {}", len);
        assert_eq!(dm.len(), expected);
        let mut total = 0usize;
        for chunk in &chunks {
            assert!(chunk.content.len() <= MAX_CHUNK_SIZE);
            assert!(chunk.content.len() >= 1);
            total += chunk.content.len();
        }
        assert_eq!(total, len, "the ciphertext chunks hold exactly the input");
    }
}

#[test]
fn corrupted_chunk_is_detected() {
    let data = patterned(9_000);
    let (dm, chunks) = encrypt(&data).expect("encryptable");
    let mut store = ChunkStore::new();
    let tampered = chunks[1].address();
    for (i, chunk) in chunks.iter().enumerate() {
        let mut content = chunk.content.clone();
        if i == 1 {
            content[0] ^= 0x40;
        }
        store.put(chunk.address(), content);
    }
    match decrypt(&dm, &store) {
        Err(Error::IntegrityMismatch(addr)) => assert_eq!(addr, tampered),
        _ => panic!("a flipped ciphertext byte must fail the integrity check"),
    }
}

#[test]
fn missing_chunk_is_named() {
    let data = patterned(9_000);
    let (dm, chunks) = encrypt(&data).expect("encryptable");
    let mut store = ChunkStore::new();
    let missing = chunks[2].address();
    for (i, chunk) in chunks.iter().enumerate() {
        if i != 2 {
            store.put(chunk.address(), chunk.content.clone());
        }
    }
    match decrypt(&dm, &store) {
        Err(Error::ChunkFetchError(addr)) => assert_eq!(addr, missing),
        _ => panic!("a missing address must fail the fetch"),
    }
}

#[test]
fn addresses_come_from_the_ciphertext() {
    let data = vec![7u8, 8, 9];
    let (_, chunks) = encrypt(&data).expect("encryptable");
    for chunk in &chunks {
        let addr = chunk.address();
        assert_eq!(addr.len(), 32);
        assert_ne!(addr, chunk.content, "an address is a digest, not the bytes");
    }
}

#[test]
fn data_map_serialization_round_trips() {
    let data = patterned(12_345);
    let (dm, _) = encrypt(&data).expect("encryptable");
    let bytes = dm.serialize();
    let back = DataMap::deserialize(&bytes).expect("its own form decodes");
    assert_eq!(back.serialize(), bytes);
    assert_eq!(back.len(), dm.len());
    assert_eq!(back.is_child(), dm.is_child());
}

#[test]
fn garbage_bytes_do_not_decode() {
    assert!(matches!(
        DataMap::deserialize(&[]),
        Err(Error::SerializationError)
    ));
    assert!(matches!(
        DataMap::deserialize(&[0u8; 18]),
        Err(Error::SerializationError)
    ));
    let data = patterned(4_000);
    let (dm, _) = encrypt(&data).expect("encryptable");
    let mut bytes = dm.serialize();
    bytes[0] = 9;
    assert!(matches!(
        DataMap::deserialize(&bytes),
        Err(Error::SerializationError)
    ));
}

#[test]
fn false_child_marker_is_refused() {
    let data = patterned(5_000);
    let (dm, chunks) = encrypt(&data).expect("encryptable");
    let store = store_of(&chunks);
    let (infos, _) = dm.into_parts();
    let lying = DataMap::new_with_child(infos, 0);
    match decrypt(&lying, &store) {
        Err(Error::SerializationError) => {}
        _ => panic!("plain content does not decode as a child data map"),
    }
}

#[test]
fn streaming_matches_buffered_output() {
    let data = patterned(80_000);
    let (dm, chunks) = encrypt(&data).expect("encryptable");
    let store = store_of(&chunks);
    let buffered = decrypt(&dm, &store).expect("complete store");
    let mut stream = StreamingDecrypt::new(&dm, &store).expect("resolvable");
    assert_eq!(stream.segment_count(), chunks.len());
    let mut collected: Vec<u8> = Vec::new();
    while let Some(segment) = stream.next_segment(&store).expect("complete store") {
        collected.extend_from_slice(&segment);
    }
    assert_eq!(collected, buffered);
    assert_eq!(collected, data);
}

#[test]
fn streaming_recovers_after_a_late_fill() {
    let data = patterned(10_000);
    let (dm, chunks) = encrypt(&data).expect("encryptable");
    let mut store = ChunkStore::new();
    for (i, chunk) in chunks.iter().enumerate() {
        if i != 1 {
            store.put(chunk.address(), chunk.content.clone());
        }
    }
    let mut stream = StreamingDecrypt::new(&dm, &store).expect("resolvable");
    let first = stream.next_segment(&store).expect("present").expect("a segment");
    let wanted = stream.next_address().expect("not exhausted");
    assert_eq!(wanted, chunks[1].address());
    match stream.next_segment(&store) {
        Err(Error::ChunkFetchError(addr)) => assert_eq!(addr, wanted),
        _ => panic!("the second chunk is not in the store yet"),
    }
    store.put(chunks[1].address(), chunks[1].content.clone());
    let second = stream
        .next_segment(&store)
        .expect("present now")
        .expect("a segment");
    let mut collected = first;
    collected.extend_from_slice(&second);
    while let Some(segment) = stream.next_segment(&store).expect("complete store") {
        collected.extend_from_slice(&segment);
    }
    assert_eq!(collected, data);
}
