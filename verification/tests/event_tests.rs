use chrono::TimeZone;
use entropic_object_store::envelope::Envelope;
use entropic_object_store::errors::ObjectStoreError;
use entropic_object_store::event::{Claim, Event, EventBuilder, EventIterator};
use entropic_object_store::loose::LooseStore;
use entropic_object_store::varint::{read_varint, write_varint};
use sodiumoxide::crypto::sign;

fn keypair() -> (Vec<u8>, Vec<u8>) {
    sodiumoxide::init().ok();
    let (pk, sk) = sign::gen_keypair();
    (pk.0.to_vec(), sk.0.to_vec())
}

#[test]
fn varint_roundtrip_works() {
    let mut v = Vec::new();
    let expect = 0x80808080u64;
    write_varint(&mut v, expect);
    let (result, consumed) = read_varint(&v, 0).expect("failed to read_varint");
    assert!(expect == result);
    assert_eq!(consumed, v.len());
}

#[test]
fn varint_roundtrip_edges() {
    for expect in [0u64, 1, 127, 128, 300, u64::MAX] {
        let mut v = Vec::new();
        write_varint(&mut v, expect);
        let (result, consumed) = read_varint(&v, 0).expect("failed to read_varint");
        assert_eq!(expect, result);
        assert_eq!(consumed, v.len());
    }
}

#[test]
fn varint_truncated_fails() {
    let v = vec![0x80u8, 0x80];
    assert_eq!(read_varint(&v, 0), Err(ObjectStoreError::Truncated));
}

#[test]
fn eventbuilder_no_parents_test() {
    let (pk, sk) = keypair();
    let at = chrono::Local
        .with_ymd_and_hms(2013, 10, 18, 17, 0, 0)
        .unwrap()
        .timestamp();
    let ev = EventBuilder::new()
        .at(at)
        .sign(b"Chris Dickinson <chris@neversaw.us>".to_vec(), &sk, &())
        .expect("failed to sign");

    let mut buf = Vec::new();
    ev.to_bytes(&mut buf);

    let ev2 = Event::from_bytes(&buf).expect("failed to marshal from bytes");

    assert!(ev.verify(&pk).expect("Failed to serialize 'ev' in order to verify"));
    assert!(ev2.verify(&pk).expect("Failed to serialize 'ev2' in order to verify"));
}

#[test]
fn snapshot_event_signs_and_verifies() {
    let (pk, sk) = keypair();
    let ev = EventBuilder::new()
        .claim(Claim::Other { typeno: 0x80, data: b"snapshot".to_vec() })
        .sign(b"Alice <a@x>".to_vec(), &sk, &())
        .expect("failed to sign");
    assert_eq!(ev.claimset, 0x80);
    assert!(ev.verify(&pk).expect("verify failed"));

    // flipping a byte of the unsigned serialization breaks verification
    let mut buf = Vec::new();
    let unsigned_len = ev.to_bytes_unsigned(&mut buf);
    let mut signed = Vec::new();
    ev.to_bytes(&mut signed);
    for flip in [0usize, 1, unsigned_len - 1] {
        let mut corrupt = signed.clone();
        corrupt[flip] ^= 0x01;
        let bad = Event::from_bytes(&corrupt);
        if let Ok(bad_ev) = bad {
            assert!(!bad_ev.verify(&pk).expect("verify failed"));
        }
    }
}

#[test]
fn event_roundtrip_all_claim_kinds() {
    let (_pk, sk) = keypair();
    let parent = vec![0x41u8; 32];
    let ev = EventBuilder::new()
        .at(1700000000)
        .parent(&parent)
        .parent(&parent)
        .claim(Claim::AuthorityAdd { public_key: b"pk".to_vec(), name: b"alice".to_vec() })
        .claim(Claim::AuthorityRemove { name: b"bob".to_vec() })
        .claim(Claim::Yank { version: b"1.0.0".to_vec(), reason: b"broken".to_vec() })
        .claim(Claim::Unyank { version: b"1.0.0".to_vec() })
        .claim(Claim::Tag { tag: b"latest".to_vec(), version: b"2.0.0".to_vec() })
        .claim(Claim::Publication { version: b"2.0.0".to_vec(), id: vec![9u8; 32] })
        .claim(Claim::Other { typeno: 0x99, data: b"extra".to_vec() })
        .sign(b"Alice <a@x>".to_vec(), &sk, &())
        .expect("failed to sign");
    // duplicate parent collapsed
    assert_eq!(ev.parents.len(), 1);
    assert_eq!(ev.claimset, 0x01 | 0x02 | 0x08 | 0x10 | 0x20 | 0x40 | 0x80);
    let mut buf = Vec::new();
    ev.to_bytes(&mut buf);
    let ev2 = Event::from_bytes(&buf).expect("parse failed");
    assert_eq!(ev, ev2);
}

#[test]
fn claim_with_unknown_low_tag_is_rejected() {
    // tag 0x03 is neither a known kind nor in the catch-all range
    let body = vec![0x03u8, 0x01, 0x61];
    assert_eq!(Claim::from_bytes(&body), Err(ObjectStoreError::ItemTypeParseError));
}

#[test]
fn claim_with_bad_utf8_is_rejected() {
    // AuthorityRemove whose name is not UTF-8
    let body = vec![0x02u8, 0x02, 0xff, 0xfe];
    assert_eq!(Claim::from_bytes(&body), Err(ObjectStoreError::InvalidUtf8));
}

#[test]
fn truncated_event_is_rejected() {
    let buf = vec![0u8; 5];
    assert_eq!(Event::from_bytes(&buf), Err(ObjectStoreError::Truncated));
}

fn store_event(store: &mut LooseStore, ev: &Event) -> Vec<u8> {
    let mut bytes = Vec::new();
    ev.to_bytes(&mut bytes);
    let env = Envelope::Event(bytes);
    let (addr, _) = env.content_address();
    assert!(store.add(env));
    addr
}

#[test]
fn dag_iterator_emits_newest_first() {
    let (_pk, sk) = keypair();
    let mut store = LooseStore::new();

    let a = EventBuilder::new()
        .at(100)
        .sign(b"Alice <a@x>".to_vec(), &sk, &())
        .expect("sign a");
    let a_addr = store_event(&mut store, &a);

    let b = EventBuilder::new()
        .at(200)
        .parent(&a_addr)
        .sign(b"Alice <a@x>".to_vec(), &sk, &())
        .expect("sign b");
    let b_addr = store_event(&mut store, &b);

    let c = EventBuilder::new()
        .at(300)
        .parent(&b_addr)
        .sign(b"Alice <a@x>".to_vec(), &sk, &())
        .expect("sign c");
    let c_addr = store_event(&mut store, &c);

    let c_again = c.clone();
    let mut it = EventIterator::new(&store, c_addr.clone(), c_again);
    let (got_c_addr, got_c) = it.next().expect("expected c");
    assert_eq!(got_c_addr, c_addr);
    assert_eq!(got_c.at, 300);
    let (got_b_addr, got_b) = it.next().expect("expected b");
    assert_eq!(got_b_addr, b_addr);
    assert_eq!(got_b.at, 200);
    let (got_a_addr, got_a) = it.next().expect("expected a");
    assert_eq!(got_a_addr, a_addr);
    assert_eq!(got_a.at, 100);
    assert!(it.next().is_none());
    assert!(got_c.at >= got_b.at && got_b.at >= got_a.at);
}

#[test]
fn sign_rejects_bad_utf8_signatory() {
    let (_pk, sk) = keypair();
    let r = EventBuilder::new().sign(vec![0xff, 0xfe], &sk, &());
    assert_eq!(r, Err(ObjectStoreError::InvalidUtf8));
}

#[test]
fn sign_without_at_uses_current_time() {
    let (_pk, sk) = keypair();
    let ev = EventBuilder::new()
        .sign(b"Alice <a@x>".to_vec(), &sk, &())
        .expect("failed to sign");
    // seconds since the epoch: some time after 2020, well before i64::MAX
    assert!(ev.at > 1_577_836_800);
}
