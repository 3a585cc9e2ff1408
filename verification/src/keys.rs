//! Ed25519 signing primitives and the openssh key files they are read
//! from: a `ssh-ed25519` public key line, and a PEM-wrapped
//! `openssh-key-v1` secret key block (unencrypted keys only).

use vstd::prelude::*;

use crate::errors::ObjectStoreError;
use crate::envelope::{find_byte, lemma_find_byte};
use crate::numcodec::{read_u32, u32_of_be};

verus! {

/// The detached signature sodiumoxide computes for a message under a
/// 64-byte secret key.
pub uninterp spec fn sig_of(msg: Seq<u8>, sk: Seq<u8>) -> Seq<u8>;

/// Whether sodiumoxide accepts a 64-byte signature for a message under a
/// 32-byte public key.
pub uninterp spec fn verify_of(sig: Seq<u8>, msg: Seq<u8>, pk: Seq<u8>) -> bool;

/// The public key sodiumoxide derives from a 64-byte secret key.
pub uninterp spec fn pk_of(sk: Seq<u8>) -> Seq<u8>;

/// Whether a 64-byte secret key is a well-formed keypair: its embedded
/// public half is the key libsodium derives from its seed half.  Key
/// generation establishes this; a fresh signature is only promised to
/// verify under `pk_of` for such keys, since an arbitrary 64-byte string
/// may carry an unrelated public half.
pub uninterp spec fn keypair_wf(sk: Seq<u8>) -> bool;

/// Relies on sodiumoxide's gen_keypair: the secret key is 64 bytes, forms
/// a well-formed keypair, and the returned public key is its public half.
#[verifier::external_body]
pub(crate) fn ed25519_gen_keypair() -> (r: (Vec<u8>, Vec<u8>))
    ensures
        r.0@.len() == 32,
        r.1@.len() == 64,
        r.0@ == pk_of(r.1@),
        keypair_wf(r.1@),
{
    let (pk, sk) = sodiumoxide::crypto::sign::ed25519::gen_keypair();
    (pk.0.to_vec(), sk.0.to_vec())
}

/// A fresh Ed25519 keypair as `(public_key, secret_key)` plain bytes.
///
/// Signatures made with the secret key verify under the public key.
pub fn generate_keypair() -> (r: (Vec<u8>, Vec<u8>))
    ensures
        r.0@.len() == 32,
        r.1@.len() == 64,
        r.0@ == pk_of(r.1@),
        keypair_wf(r.1@),
{
    ed25519_gen_keypair()
}

/// Relies on sodiumoxide's sign_detached: the signature depends on the
/// message and secret key alone and is 64 bytes long.  Only for a
/// well-formed keypair does it verify under the derived public key: the
/// signer hashes the key's embedded public half into the signature, so a
/// mismatched half yields a signature the verifier rejects.
#[verifier::external_body]
pub(crate) fn ed25519_sign(msg: &Vec<u8>, sk: &Vec<u8>) -> (r: Vec<u8>)
    requires
        sk@.len() == 64,
    ensures
        r@ == sig_of(msg@, sk@),
        r@.len() == 64,
        keypair_wf(sk@) ==> verify_of(r@, msg@, pk_of(sk@)),
{
    let sk = sodiumoxide::crypto::sign::ed25519::SecretKey::from_slice(&sk[..]).unwrap();
    sodiumoxide::crypto::sign::ed25519::sign_detached(&msg[..], &sk).to_bytes().to_vec()
}

/// Relies on sodiumoxide's verify_detached: the outcome depends on the
/// signature, message and public key alone.  A signature whose scalar half
/// is not canonical is rejected by `Signature::from_bytes` here and would
/// equally be rejected by libsodium's own canonicity check, so `false` is
/// the verifier's answer for it either way.
#[verifier::external_body]
pub(crate) fn ed25519_verify(sig: &Vec<u8>, msg: &Vec<u8>, pk: &Vec<u8>) -> (r: bool)
    requires
        sig@.len() == 64,
        pk@.len() == 32,
    ensures
        r == verify_of(sig@, msg@, pk@),
{
    let sig = match sodiumoxide::crypto::sign::ed25519::Signature::from_bytes(&sig[..]) {
        Ok(s) => s,
        Err(_) => {
            return false;
        },
    };
    let pk = sodiumoxide::crypto::sign::ed25519::PublicKey::from_slice(&pk[..]).unwrap();
    sodiumoxide::crypto::sign::ed25519::verify_detached(&sig, &msg[..], &pk)
}

/// Relies on SecretKey::public_key: the 32-byte public key that belongs to
/// a 64-byte secret key.
#[verifier::external_body]
pub(crate) fn ed25519_public_key(sk: &Vec<u8>) -> (r: Vec<u8>)
    requires
        sk@.len() == 64,
    ensures
        r@ == pk_of(sk@),
        r@.len() == 32,
{
    let sk = sodiumoxide::crypto::sign::ed25519::SecretKey::from_slice(&sk[..]).unwrap();
    sk.public_key().0.to_vec()
}

/// What base64 decoding yields for a byte string, or `None` for input the
/// decoder rejects.
pub uninterp spec fn b64_decode_of(s: Seq<u8>) -> Option<Seq<u8>>;

/// Relies on base64::decode: the result depends on the input bytes alone.
#[verifier::external_body]
pub(crate) fn b64_decode(data: &Vec<u8>) -> (r: Option<Vec<u8>>)
    ensures
        match r {
            Some(v) => b64_decode_of(data@) == Some(v@),
            None => b64_decode_of(data@) is None,
        },
{
    base64::decode(&data[..]).ok()
}

/// The contents of the first PEM block in a text, or `None` when the pem
/// crate rejects the text.
pub uninterp spec fn pem_contents_of(s: Seq<u8>) -> Option<Seq<u8>>;

/// Relies on pem::parse: which block it finds and its decoded contents
/// depend on the input bytes alone.
#[verifier::external_body]
pub(crate) fn pem_decode(data: &Vec<u8>) -> (r: Option<Vec<u8>>)
    ensures
        match r {
            Some(v) => pem_contents_of(data@) == Some(v@),
            None => pem_contents_of(data@) is None,
        },
{
    match pem::parse(&data[..]) {
        Ok(p) => Some(p.contents().to_vec()),
        Err(_) => None,
    }
}

/// A length-prefixed byte string as the openssh key format stores it: a
/// big-endian 32-bit length, then that many bytes.
pub open spec fn bytestr_dec(s: Seq<u8>, pos: nat) -> Option<(Seq<u8>, nat)> {
    if pos + 4 > s.len() {
        None
    } else {
        let n = u32_of_be(s[pos as int], s[pos as int + 1], s[pos as int + 2], s[pos as int + 3]);
        if pos + 4 + n > s.len() {
            None
        } else {
            Some((s.subrange(pos as int + 4, pos as int + 4 + n), (pos + 4 + n) as nat))
        }
    }
}

/// Reads one length-prefixed byte string, or fails with `Truncated`.
pub fn read_bytestr(data: &Vec<u8>, pos: usize) -> (r: Result<(Vec<u8>, usize), ObjectStoreError>)
    ensures
        match r {
            Ok((v, np)) => {
                &&& np <= data@.len()
                &&& bytestr_dec(data@, pos as nat) == Some((v@, np as nat))
            },
            Err(e) => e is Truncated && bytestr_dec(data@, pos as nat) is None,
        },
{
    let (n, p1) = match read_u32(data, pos) {
        Ok(x) => x,
        Err(_) => {
            return Err(ObjectStoreError::Truncated);
        },
    };
    if n as u64 > (data.len() - p1) as u64 {
        return Err(ObjectStoreError::Truncated);
    }
    let np = p1 + (n as usize);
    let v = crate::bytesutil::copy_range(data, p1, np);
    Ok((v, np))
}


/// The ASCII bytes `ssh-ed25519 `, the prefix of a public key line.
pub open spec fn ssh_prefix() -> Seq<u8> {
    seq![115u8, 115u8, 104u8, 45u8, 101u8, 100u8, 50u8, 53u8, 53u8, 49u8, 57u8, 32u8]
}

/// The ASCII bytes `ssh-ed25519`, the key type name inside the blob.
pub open spec fn ssh_type_name() -> Seq<u8> {
    seq![115u8, 115u8, 104u8, 45u8, 101u8, 100u8, 50u8, 53u8, 53u8, 49u8, 57u8]
}

/// What a public key line means: the `ssh-ed25519 ` prefix, then base64 up
/// to the next space (or the end), decoding to a blob of two
/// length-prefixed strings: the type name again, then the 32 key bytes.
pub open spec fn pubkey_parse(s: Seq<u8>) -> Result<Seq<u8>, ObjectStoreError> {
    if s.len() < 12 || s.subrange(0, 12) != ssh_prefix() {
        Err(ObjectStoreError::BadMagic)
    } else {
        let end = match find_byte(s, 32, 12) {
            Some(k) => k,
            None => s.len() as int,
        };
        match b64_decode_of(s.subrange(12, end)) {
            None => Err(ObjectStoreError::InvalidUtf8),
            Some(d) => match bytestr_dec(d, 0) {
                None => Err(ObjectStoreError::Truncated),
                Some((tn, p)) => if tn != ssh_type_name() {
                    Err(ObjectStoreError::ItemTypeParseError)
                } else {
                    match bytestr_dec(d, p) {
                        None => Err(ObjectStoreError::Truncated),
                        Some((key, _)) => if key.len() == 32 {
                            Ok(key)
                        } else {
                            Err(ObjectStoreError::LengthMismatch)
                        },
                    }
                },
            },
        }
    }
}

/// Reads an `ssh-ed25519` public key line and returns the 32 key bytes.
///
/// A missing prefix fails with `BadMagic`, undecodable base64 with
/// `InvalidUtf8`, a blob naming another key type with
/// `ItemTypeParseError`, and a key of the wrong size with
/// `LengthMismatch`.
pub fn load_public_key(data: &Vec<u8>) -> (r: Result<Vec<u8>, ObjectStoreError>)
    ensures
        match r {
            Ok(k) => pubkey_parse(data@) == Ok::<Seq<u8>, ObjectStoreError>(k@),
            Err(e) => pubkey_parse(data@) == Err::<Seq<u8>, ObjectStoreError>(e),
        },
{
    let n = data.len();
    let prefix_ok = n >= 12 && data[0] == 115 && data[1] == 115 && data[2] == 104 && data[3] == 45
        && data[4] == 101 && data[5] == 100 && data[6] == 50 && data[7] == 53 && data[8] == 53
        && data[9] == 49 && data[10] == 57 && data[11] == 32;
    if !prefix_ok {
        proof {
            if n >= 12 && data@.subrange(0, 12) == ssh_prefix() {
                assert(data@[0] == 115 && data@[1] == 115 && data@[2] == 104 && data@[3] == 45
                    && data@[4] == 101 && data@[5] == 100 && data@[6] == 50 && data@[7] == 53
                    && data@[8] == 53 && data@[9] == 49 && data@[10] == 57 && data@[11] == 32) by {
                    assert forall|j: int| 0 <= j < 12 implies data@[j] == ssh_prefix()[j] by {
                        assert(data@.subrange(0, 12)[j] == data@[j]);
                    };
                };
            }
        }
        return Err(ObjectStoreError::BadMagic);
    }
    proof {
        assert(data@.subrange(0, 12) =~= ssh_prefix());
    }
    let end = match crate::envelope::find_byte_from(data, 32, 12) {
        Some(k) => k,
        None => n,
    };
    proof {
        lemma_find_byte(data@, 32, 12);
    }
    let b64 = crate::bytesutil::copy_range(data, 12, end);
    let blob = match b64_decode(&b64) {
        Some(d) => d,
        None => {
            return Err(ObjectStoreError::InvalidUtf8);
        },
    };
    let (tn, p) = match read_bytestr(&blob, 0) {
        Ok(x) => x,
        Err(e) => {
            return Err(e);
        },
    };
    let expected: Vec<u8> = vec![115, 115, 104, 45, 101, 100, 50, 53, 53, 49, 57];
    proof {
        assert(expected@ =~= ssh_type_name());
    }
    if !crate::bytesutil::bytes_eq(&tn, &expected) {
        return Err(ObjectStoreError::ItemTypeParseError);
    }
    let (key, _) = match read_bytestr(&blob, p) {
        Ok(x) => x,
        Err(e) => {
            return Err(e);
        },
    };
    if key.len() == 32 {
        Ok(key)
    } else {
        Err(ObjectStoreError::LengthMismatch)
    }
}

/// The ASCII bytes `openssh-key-v1` followed by NUL, the blob magic.
pub open spec fn openssh_magic() -> Seq<u8> {
    seq![
        111u8, 112u8, 101u8, 110u8, 115u8, 115u8, 104u8, 45u8, 107u8, 101u8, 121u8, 45u8, 118u8,
        49u8, 0u8,
    ]
}

/// The ASCII bytes `none`.
pub open spec fn none_name() -> Seq<u8> {
    seq![110u8, 111u8, 110u8, 101u8]
}

/// What an unencrypted openssh secret key blob means, after PEM decoding:
/// the magic, cipher and KDF names that must both be `none`, a single key,
/// and a payload with matching checksums whose third string is the 64
/// secret key bytes.
pub open spec fn seckey_parse(s: Seq<u8>) -> Result<Seq<u8>, ObjectStoreError> {
    match pem_contents_of(s) {
        None => Err(ObjectStoreError::BadMagic),
        Some(d) => if d.len() < 15 || d.subrange(0, 15) != openssh_magic() {
            Err(ObjectStoreError::BadMagic)
        } else {
            match bytestr_dec(d, 15) {
                None => Err(ObjectStoreError::Truncated),
                Some((cipher, p1)) => match bytestr_dec(d, p1) {
                    None => Err(ObjectStoreError::Truncated),
                    Some((kdfname, p2)) => match bytestr_dec(d, p2) {
                        None => Err(ObjectStoreError::Truncated),
                        Some((_kdfopts, p3)) => if p3 + 4 > d.len() {
                            Err(ObjectStoreError::Truncated)
                        } else if u32_of_be(
                            d[p3 as int],
                            d[p3 as int + 1],
                            d[p3 as int + 2],
                            d[p3 as int + 3],
                        ) != 1 {
                            Err(ObjectStoreError::ItemTypeParseError)
                        } else {
                            match bytestr_dec(d, (p3 + 4) as nat) {
                                None => Err(ObjectStoreError::Truncated),
                                Some((_pubkey, p4)) => match bytestr_dec(d, p4) {
                                    None => Err(ObjectStoreError::Truncated),
                                    Some((rest, _)) => if cipher != none_name() || kdfname
                                        != none_name() {
                                        Err(ObjectStoreError::UnsupportedVersion)
                                    } else {
                                        seckey_payload_parse(rest)
                                    },
                                },
                            }
                        },
                    },
                },
            }
        },
    }
}

/// The inner payload: two equal checksums, then algorithm name, public
/// key, secret key and comment strings.
pub open spec fn seckey_payload_parse(rest: Seq<u8>) -> Result<Seq<u8>, ObjectStoreError> {
    if rest.len() < 8 {
        Err(ObjectStoreError::Truncated)
    } else if u32_of_be(rest[0], rest[1], rest[2], rest[3]) != u32_of_be(
        rest[4],
        rest[5],
        rest[6],
        rest[7],
    ) {
        Err(ObjectStoreError::SignatureInvalid)
    } else {
        match bytestr_dec(rest, 8) {
            None => Err(ObjectStoreError::Truncated),
            Some((_algo, q1)) => match bytestr_dec(rest, q1) {
                None => Err(ObjectStoreError::Truncated),
                Some((_pub2, q2)) => match bytestr_dec(rest, q2) {
                    None => Err(ObjectStoreError::Truncated),
                    Some((sk, q3)) => match bytestr_dec(rest, q3) {
                        None => Err(ObjectStoreError::Truncated),
                        Some((_comment, _)) => if sk.len() == 64 {
                            Ok(sk)
                        } else {
                            Err(ObjectStoreError::LengthMismatch)
                        },
                    },
                },
            },
        }
    }
}

/// Reads a PEM-wrapped, unencrypted `openssh-key-v1` secret key file and
/// returns the 64 secret key bytes.
///
/// Text the pem crate rejects and a wrong blob magic fail with `BadMagic`;
/// an encrypted key with `UnsupportedVersion`; mismatched checksums with
/// `SignatureInvalid`; short fields with `Truncated`; a key of the wrong
/// size with `LengthMismatch`.
#[verifier::rlimit(100)]
pub fn load_secret_key(data: &Vec<u8>) -> (r: Result<Vec<u8>, ObjectStoreError>)
    ensures
        match r {
            Ok(k) => seckey_parse(data@) == Ok::<Seq<u8>, ObjectStoreError>(k@),
            Err(e) => seckey_parse(data@) == Err::<Seq<u8>, ObjectStoreError>(e),
        },
{
    let d = match pem_decode(data) {
        Some(d) => d,
        None => {
            return Err(ObjectStoreError::BadMagic);
        },
    };
    let n = d.len();
    let magic_ok = n >= 15 && d[0] == 111 && d[1] == 112 && d[2] == 101 && d[3] == 110 && d[4]
        == 115 && d[5] == 115 && d[6] == 104 && d[7] == 45 && d[8] == 107 && d[9] == 101 && d[10]
        == 121 && d[11] == 45 && d[12] == 118 && d[13] == 49 && d[14] == 0;
    if !magic_ok {
        proof {
            if n >= 15 && d@.subrange(0, 15) == openssh_magic() {
                assert forall|j: int| 0 <= j < 15 implies d@[j] == openssh_magic()[j] by {
                    assert(d@.subrange(0, 15)[j] == d@[j]);
                };
            }
        }
        return Err(ObjectStoreError::BadMagic);
    }
    proof {
        assert(d@.subrange(0, 15) =~= openssh_magic());
    }
    let (cipher, p1) = match read_bytestr(&d, 15) {
        Ok(x) => x,
        Err(e) => {
            return Err(e);
        },
    };
    let (kdfname, p2) = match read_bytestr(&d, p1) {
        Ok(x) => x,
        Err(e) => {
            return Err(e);
        },
    };
    let (_kdfopts, p3) = match read_bytestr(&d, p2) {
        Ok(x) => x,
        Err(e) => {
            return Err(e);
        },
    };
    let (count, p3b) = match read_u32(&d, p3) {
        Ok(x) => x,
        Err(e) => {
            return Err(e);
        },
    };
    if count != 1 {
        return Err(ObjectStoreError::ItemTypeParseError);
    }
    let (_pubkey, p4) = match read_bytestr(&d, p3b) {
        Ok(x) => x,
        Err(e) => {
            return Err(e);
        },
    };
    let (rest, _) = match read_bytestr(&d, p4) {
        Ok(x) => x,
        Err(e) => {
            return Err(e);
        },
    };
    let none_vec: Vec<u8> = vec![110, 111, 110, 101];
    proof {
        assert(none_vec@ =~= none_name());
    }
    if !crate::bytesutil::bytes_eq(&cipher, &none_vec) || !crate::bytesutil::bytes_eq(
        &kdfname,
        &none_vec,
    ) {
        return Err(ObjectStoreError::UnsupportedVersion);
    }
    let (ck0, _) = match read_u32(&rest, 0) {
        Ok(x) => x,
        Err(e) => {
            return Err(e);
        },
    };
    let (ck1, _) = match read_u32(&rest, 4) {
        Ok(x) => x,
        Err(e) => {
            return Err(e);
        },
    };
    if ck0 != ck1 {
        return Err(ObjectStoreError::SignatureInvalid);
    }
    let (_algo, q1) = match read_bytestr(&rest, 8) {
        Ok(x) => x,
        Err(e) => {
            return Err(e);
        },
    };
    let (_pub2, q2) = match read_bytestr(&rest, q1) {
        Ok(x) => x,
        Err(e) => {
            return Err(e);
        },
    };
    let (sk, q3) = match read_bytestr(&rest, q2) {
        Ok(x) => x,
        Err(e) => {
            return Err(e);
        },
    };
    let (_comment, _) = match read_bytestr(&rest, q3) {
        Ok(x) => x,
        Err(e) => {
            return Err(e);
        },
    };
    if sk.len() == 64 {
        Ok(sk)
    } else {
        Err(ObjectStoreError::LengthMismatch)
    }
}

} // verus!
