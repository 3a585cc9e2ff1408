use entropic_object_store::envelope::Envelope;
use entropic_object_store::errors::ObjectStoreError;
use entropic_object_store::keys::{load_public_key, load_secret_key};
use entropic_object_store::loose::LooseStore;
use entropic_object_store::multiple::ReadableStore;
use sodiumoxide::crypto::sign;

fn bytestr(out: &mut Vec<u8>, s: &[u8]) {
    out.extend_from_slice(&(s.len() as u32).to_be_bytes());
    out.extend_from_slice(s);
}

#[test]
fn load_public_key_reads_ssh_line() {
    sodiumoxide::init().ok();
    let (pk, _sk) = sign::gen_keypair();
    let mut blob = Vec::new();
    bytestr(&mut blob, b"ssh-ed25519");
    bytestr(&mut blob, &pk.0);
    let line = format!("ssh-ed25519 {} someone@example", base64::encode(&blob));
    let key = load_public_key(&line.into_bytes()).expect("load failed");
    assert_eq!(key, pk.0.to_vec());
}

#[test]
fn load_public_key_rejects_other_prefix() {
    let line = b"ssh-rsa AAAA someone@example".to_vec();
    assert_eq!(load_public_key(&line), Err(ObjectStoreError::BadMagic));
}

fn openssh_secret_file(sk: &[u8], pk: &[u8]) -> Vec<u8> {
    let mut payload = Vec::new();
    payload.extend_from_slice(&7u32.to_be_bytes());
    payload.extend_from_slice(&7u32.to_be_bytes());
    bytestr(&mut payload, b"ssh-ed25519");
    bytestr(&mut payload, pk);
    bytestr(&mut payload, sk);
    bytestr(&mut payload, b"someone@example");

    let mut body = Vec::new();
    body.extend_from_slice(b"openssh-key-v1\0");
    bytestr(&mut body, b"none");
    bytestr(&mut body, b"none");
    bytestr(&mut body, b"");
    body.extend_from_slice(&1u32.to_be_bytes());
    bytestr(&mut body, pk);
    bytestr(&mut body, &payload);

    let pem = pem::Pem::new("OPENSSH PRIVATE KEY", body);
    pem::encode(&pem).into_bytes()
}

#[test]
fn load_secret_key_reads_openssh_file() {
    sodiumoxide::init().ok();
    let (pk, sk) = sign::gen_keypair();
    let file = openssh_secret_file(&sk.0, &pk.0);
    let key = load_secret_key(&file).expect("load failed");
    assert_eq!(key, sk.0.to_vec());
}

#[test]
fn load_secret_key_rejects_garbage() {
    let file = b"not a pem file at all".to_vec();
    assert_eq!(load_secret_key(&file), Err(ObjectStoreError::BadMagic));
}

#[test]
fn composite_reader_prefers_left_and_falls_through() {
    let mut left = LooseStore::new();
    let mut right = LooseStore::new();
    let left_env = Envelope::Blob(b"left only".to_vec());
    let right_env = Envelope::Blob(b"right only".to_vec());
    let (left_addr, _) = left_env.content_address();
    let (right_addr, _) = right_env.content_address();
    assert!(left.add(left_env));
    assert!(right.add(right_env));

    let pair = (left, right);
    match pair.get_sync(&left_addr).expect("get failed") {
        Some(Envelope::Blob(p)) => assert_eq!(p, b"left only".to_vec()),
        other => panic!("wrong envelope: {:?}", other),
    }
    match pair.get_sync(&right_addr).expect("get failed") {
        Some(Envelope::Blob(p)) => assert_eq!(p, b"right only".to_vec()),
        other => panic!("wrong envelope: {:?}", other),
    }
    let absent = vec![3u8; 32];
    assert_eq!(pair.get_sync(&absent), Ok(None));
    assert_eq!(().get_sync(&absent), Ok(None));

    let stores = vec![pair.0, pair.1];
    match stores.get_sync(&right_addr).expect("get failed") {
        Some(Envelope::Blob(p)) => assert_eq!(p, b"right only".to_vec()),
        other => panic!("wrong envelope: {:?}", other),
    }
}

#[test]
fn load_secret_key_rejects_checksum_mismatch() {
    sodiumoxide::init().ok();
    let (pk, sk) = sign::gen_keypair();
    let mut payload = Vec::new();
    payload.extend_from_slice(&7u32.to_be_bytes());
    payload.extend_from_slice(&8u32.to_be_bytes());
    bytestr(&mut payload, b"ssh-ed25519");
    bytestr(&mut payload, &pk.0);
    bytestr(&mut payload, &sk.0);
    bytestr(&mut payload, b"someone@example");
    let mut body = Vec::new();
    body.extend_from_slice(b"openssh-key-v1\0");
    bytestr(&mut body, b"none");
    bytestr(&mut body, b"none");
    bytestr(&mut body, b"");
    body.extend_from_slice(&1u32.to_be_bytes());
    bytestr(&mut body, &pk.0);
    bytestr(&mut body, &payload);
    let pem = pem::Pem::new("OPENSSH PRIVATE KEY", body);
    let file = pem::encode(&pem).into_bytes();
    assert_eq!(load_secret_key(&file), Err(ObjectStoreError::SignatureInvalid));
}
