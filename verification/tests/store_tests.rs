use entropic_object_store::envelope::Envelope;
use entropic_object_store::errors::ObjectStoreError;
use entropic_object_store::hexcode::{decode_address, loose_object_path};
use entropic_object_store::loose::LooseStore;
use entropic_object_store::packed::{PackedIndex, PackedStore};

#[test]
fn it_works() {
    assert_eq!(2 + 2, 4);
}

#[test]
fn content_address_matches_direct_digest() {
    let blob = Envelope::Blob(b"hello world".to_vec());
    let (addr, header) = blob.content_address();
    assert_eq!(header, b"blob 11\0".to_vec());
    let mut framed = header.clone();
    framed.extend_from_slice(b"hello world");
    let expected = <sha2::Sha256 as sha2::Digest>::digest(&framed[..]).to_vec();
    assert_eq!(addr, expected);
    assert_eq!(addr.len(), 32);
}

#[test]
fn add_twice_dedups() {
    let mut store = LooseStore::new();
    let first = store.add(Envelope::Blob(b"hello world".to_vec()));
    let second = store.add(Envelope::Blob(b"hello world".to_vec()));
    assert_eq!(first, true);
    assert_eq!(second, false);
    let (addr, _) = Envelope::Blob(b"hello world".to_vec()).content_address();
    let got = store.get(&addr).expect("get failed");
    match got {
        Some(Envelope::Blob(payload)) => assert_eq!(payload, b"hello world".to_vec()),
        other => panic!("wrong envelope: {:?}", other),
    }
}

#[test]
fn loose_path_shards_by_hex() {
    let (addr, _) = Envelope::Blob(b"hello world".to_vec()).content_address();
    let (shard, rest) = loose_object_path(&addr);
    let full = hex::encode(&addr);
    assert_eq!(shard, full.as_bytes()[0..2].to_vec());
    assert_eq!(rest, full.as_bytes()[2..].to_vec());
    let mut joined = shard.clone();
    joined.extend_from_slice(&rest);
    let back = decode_address(&joined).expect("hex decode failed");
    assert_eq!(back, addr);
}

#[test]
fn get_on_empty_store_is_none() {
    let store = LooseStore::new();
    let addr = vec![0u8; 32];
    assert_eq!(store.get(&addr), Ok(None));
}

#[test]
fn mismatched_declared_length_fails() {
    // header declares five bytes, payload has three
    let framed = b"blob 5\0abc".to_vec();
    let r = entropic_object_store::envelope::parse_framed(&framed);
    assert_eq!(r, Err(ObjectStoreError::LengthMismatch));
}

#[test]
fn unknown_tag_fails() {
    let framed = b"tree 3\0abc".to_vec();
    let r = entropic_object_store::envelope::parse_framed(&framed);
    assert_eq!(r, Err(ObjectStoreError::UnknownEnvelopeTag));
}

#[test]
fn compact_then_read_back_ten_blobs() {
    let mut store = LooseStore::new();
    let mut addrs = Vec::new();
    let mut payloads = Vec::new();
    for i in 0..10u8 {
        let payload = format!("blob number {}", i).into_bytes();
        let env = Envelope::Blob(payload.clone());
        let (addr, _) = env.content_address();
        assert!(store.add(env));
        addrs.push(addr);
        payloads.push(payload);
    }
    let (pack, idx) = store.to_packed_store().expect("compaction failed");
    let packed = PackedStore::new(pack, &idx).expect("open failed");
    for (addr, payload) in addrs.iter().zip(payloads.iter()) {
        let from_pack = packed.get(addr).expect("packed get failed");
        let from_loose = store.get(addr).expect("loose get failed");
        match (&from_pack, &from_loose) {
            (Some(Envelope::Blob(a)), Some(Envelope::Blob(b))) => {
                assert_eq!(a, payload);
                assert_eq!(a, b);
            },
            other => panic!("wrong envelopes: {:?}", other),
        }
    }
    let absent = vec![0u8; 32];
    if !addrs.iter().any(|a| a == &absent) {
        assert_eq!(packed.get(&absent), Ok(None));
    }
}

#[test]
fn compact_empty_store() {
    let store = LooseStore::new();
    let (pack, idx) = store.to_packed_store().expect("compaction failed");
    let packed = PackedStore::new(pack, &idx).expect("open failed");
    assert_eq!(packed.get(&vec![7u8; 32]), Ok(None));
}

#[test]
fn bad_magic_fails_at_open() {
    let mut idx = b"XIDX".to_vec();
    idx.extend_from_slice(&[0, 0, 0, 0]);
    idx.extend_from_slice(&[0u8; 1024]);
    let r = PackedIndex::from(&idx, 0);
    assert!(matches!(r, Err(ObjectStoreError::BadMagic)));
    let r2 = PackedStore::new(Vec::new(), &idx);
    assert!(matches!(r2, Err(ObjectStoreError::BadMagic)));
}

#[test]
fn unsupported_version_fails_at_open() {
    let mut idx = b"EIDX".to_vec();
    idx.extend_from_slice(&[0, 0, 0, 1]);
    idx.extend_from_slice(&[0u8; 1024]);
    let r = PackedIndex::from(&idx, 0);
    assert!(matches!(r, Err(ObjectStoreError::UnsupportedVersion)));
}

#[test]
fn truncated_index_fails_at_open() {
    let idx = b"EID".to_vec();
    let r = PackedIndex::from(&idx, 0);
    assert!(matches!(r, Err(ObjectStoreError::Truncated)));
}

#[test]
fn get_bounds_miss_is_none() {
    let mut store = LooseStore::new();
    assert!(store.add(Envelope::Blob(b"only one".to_vec())));
    let (pack, idx) = store.to_packed_store().expect("compaction failed");
    let ix = PackedIndex::from(&idx, pack.len() as u64).expect("open failed");
    let (addr, _) = Envelope::Blob(b"only one".to_vec()).content_address();
    assert!(ix.get_bounds(&addr).is_some());
    let mut other = addr.clone();
    other[31] ^= 0xff;
    assert!(ix.get_bounds(&other).is_none());
}

#[test]
fn corrupt_record_compression_fails() {
    // a record header declaring five payload bytes, followed by bytes that
    // are not a zlib stream
    let rec = vec![0x05u8, 1, 2, 3];
    let r = entropic_object_store::packed::packfile_read(&rec);
    assert_eq!(r, Err(ObjectStoreError::CompressionError));
}

#[test]
fn reserved_record_type_fails() {
    // type 5 sits above the reserved range
    let rec = vec![0x50u8, 1, 2, 3];
    let r = entropic_object_store::packed::packfile_read(&rec);
    assert_eq!(r, Err(ObjectStoreError::ItemTypeParseError));
}
