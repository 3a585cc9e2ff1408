//! Tagged payloads and their content addresses.
//!
//! An envelope is framed as `TAG " " ASCII_LEN "\0" PAYLOAD`, where TAG is
//! the four ASCII bytes `blob`, `vers` or `sign`; its content address is
//! the SHA-256 digest of that framing.

use vstd::prelude::*;

use crate::errors::ObjectStoreError;
use crate::numcodec::{dec_bytes, dec_val, is_dec_digits, lemma_dec_roundtrip, parse_dec_u64};

verus! {

#[derive(Debug, Clone, PartialEq, Eq)]
pub enum Envelope {
    Blob(Vec<u8>),
    Version(Vec<u8>),
    Event(Vec<u8>),
}

/// Which of the three envelope variants a value is.
#[derive(PartialEq, Eq, Structural, Clone, Copy, Debug)]
pub enum EnvKind {
    Blob,
    Version,
    Event,
}

/// The mathematical reading of an envelope: its variant and payload bytes.
pub struct EnvModel {
    pub kind: EnvKind,
    pub payload: Seq<u8>,
}

impl View for Envelope {
    type V = EnvModel;

    open spec fn view(&self) -> EnvModel {
        match self {
            Envelope::Blob(v) => EnvModel { kind: EnvKind::Blob, payload: v@ },
            Envelope::Version(v) => EnvModel { kind: EnvKind::Version, payload: v@ },
            Envelope::Event(v) => EnvModel { kind: EnvKind::Event, payload: v@ },
        }
    }
}

/// The four tag bytes of a variant: `blob`, `vers` or `sign`.
pub open spec fn tag_bytes(kind: EnvKind) -> Seq<u8> {
    match kind {
        EnvKind::Blob => seq![98u8, 108u8, 111u8, 98u8],
        EnvKind::Version => seq![118u8, 101u8, 114u8, 115u8],
        EnvKind::Event => seq![115u8, 105u8, 103u8, 110u8],
    }
}

impl EnvModel {
    /// The header fed to the hasher: `TAG " " ASCII_LEN "\0"`.
    pub open spec fn frame_header(self) -> Seq<u8> {
        tag_bytes(self.kind) + seq![32u8] + dec_bytes(self.payload.len()) + seq![0u8]
    }

    /// The full framed form: header then payload.
    pub open spec fn frame(self) -> Seq<u8> {
        self.frame_header() + self.payload
    }

    /// The 32-byte content address: SHA-256 over the framed form.
    pub open spec fn addr(self) -> Seq<u8> {
        sha256_of(self.frame())
    }
}

/// The digest that sha2's SHA-256 computes for a byte sequence.
pub uninterp spec fn sha256_of(s: Seq<u8>) -> Seq<u8>;

/// Relies on sha2's Sha256: the digest depends on the bytes alone and is
/// 32 bytes long.
#[verifier::external_body]
pub(crate) fn sha256(data: &Vec<u8>) -> (r: Vec<u8>)
    ensures
        r@ == sha256_of(data@),
        r@.len() == 32,
{
    <sha2::Sha256 as sha2::Digest>::digest(&data[..]).to_vec()
}

impl Envelope {
    pub fn payload_bytes(&self) -> (r: &Vec<u8>)
        ensures
            r@ == self@.payload,
    {
        match self {
            Envelope::Blob(x) => x,
            Envelope::Version(x) => x,
            Envelope::Event(x) => x,
        }
    }

    /// Builds the framed byte form of this envelope.
    pub fn framed_bytes(&self) -> (r: Vec<u8>)
        ensures
            r@ == self@.frame(),
    {
        let mut out: Vec<u8> = Vec::new();
        match self {
            Envelope::Blob(_) => {
                out.push(98);
                out.push(108);
                out.push(111);
                out.push(98);
            },
            Envelope::Version(_) => {
                out.push(118);
                out.push(101);
                out.push(114);
                out.push(115);
            },
            Envelope::Event(_) => {
                out.push(115);
                out.push(105);
                out.push(103);
                out.push(110);
            },
        }
        proof {
            assert(out@ =~= tag_bytes(self@.kind));
        }
        out.push(32);
        let payload = self.payload_bytes();
        crate::numcodec::write_dec(&mut out, payload.len() as u64);
        out.push(0);
        proof {
            assert(out@ =~= self@.frame_header());
        }
        crate::bytesutil::push_all(&mut out, payload);
        proof {
            assert(out@ =~= self@.frame());
        }
        out
    }

    /// The content address and the framing header it was computed over.
    ///
    /// The address is exactly `SHA256(TAG " " ASCII_LEN "\0" PAYLOAD)`.
    pub fn content_address(&self) -> (r: (Vec<u8>, Vec<u8>))
        ensures
            r.0@ == self@.addr(),
            r.0@.len() == 32,
            r.1@ == self@.frame_header(),
    {
        let framed = self.framed_bytes();
        let digest = sha256(&framed);
        let header_len = framed.len() - self.payload_bytes().len();
        proof {
            assert(self@.frame().subrange(0, self@.frame_header().len() as int)
                =~= self@.frame_header());
        }
        let header = crate::bytesutil::copy_range(&framed, 0, header_len);
        (digest, header)
    }
}

/// The first position at or after `from` holding byte `b`, if any.
pub open spec fn find_byte(s: Seq<u8>, b: u8, from: int) -> Option<int>
    decreases s.len() - from,
    when 0 <= from
{
    if from >= s.len() {
        None
    } else if s[from] == b {
        Some(from)
    } else {
        find_byte(s, b, from + 1)
    }
}

/// `find_byte` returns exactly the least position at or after `from` that
/// holds `b`, and `None` exactly when no position does.
pub proof fn lemma_find_byte(s: Seq<u8>, b: u8, from: int)
    requires
        0 <= from,
    ensures
        match find_byte(s, b, from) {
            Some(k) => from <= k < s.len() && s[k] == b && (forall|j: int|
                from <= j < k ==> s[j] != b),
            None => forall|j: int| from <= j < s.len() ==> s[j] != b,
        },
    decreases s.len() - from,
{
    if from < s.len() && s[from] != b {
        lemma_find_byte(s, b, from + 1);
    }
}

/// The first position at or after `from` where `data` holds `b`.
#[verifier::loop_isolation(false)]
pub fn find_byte_from(data: &Vec<u8>, b: u8, from: usize) -> (r: Option<usize>)
    requires
        from <= data@.len(),
    ensures
        match r {
            Some(k) => find_byte(data@, b, from as int) == Some(k as int),
            None => find_byte(data@, b, from as int) is None,
        },
{
    proof {
        lemma_find_byte(data@, b, from as int);
    }
    let mut i = from;
    while i < data.len()
        invariant
            from <= i <= data@.len(),
            forall|j: int| from <= j < i ==> data@[j] != b,
        decreases data@.len() - i,
    {
        if data[i] == b {
            return Some(i);
        }
        i = i + 1;
    }
    None
}

/// What framed loose-object bytes mean: the bytes before the first space
/// name the tag, the digits before the first NUL after it give the payload
/// length, and the rest is the payload, whose length must match.
pub open spec fn frame_parse(s: Seq<u8>) -> Result<EnvModel, ObjectStoreError> {
    match find_byte(s, 32, 0) {
        None => Err(ObjectStoreError::Truncated),
        Some(sp) => match find_byte(s, 0, sp + 1) {
            None => Err(ObjectStoreError::Truncated),
            Some(nl) => {
                let lenb = s.subrange(sp + 1, nl);
                let payload = s.subrange(nl + 1, s.len() as int);
                if !is_dec_digits(lenb) || dec_val(lenb) != payload.len() {
                    Err(ObjectStoreError::LengthMismatch)
                } else {
                    let tag = s.subrange(0, sp);
                    if tag == tag_bytes(EnvKind::Blob) {
                        Ok(EnvModel { kind: EnvKind::Blob, payload })
                    } else if tag == tag_bytes(EnvKind::Version) {
                        Ok(EnvModel { kind: EnvKind::Version, payload })
                    } else if tag == tag_bytes(EnvKind::Event) {
                        Ok(EnvModel { kind: EnvKind::Event, payload })
                    } else {
                        Err(ObjectStoreError::UnknownEnvelopeTag)
                    }
                }
            },
        },
    }
}

/// Parses framed loose-object bytes back into an envelope.
///
/// Fails with `Truncated` when the space or NUL separator is missing, with
/// `LengthMismatch` when the declared decimal length is unreadable or
/// disagrees with the actual payload byte count, and with
/// `UnknownEnvelopeTag` for any tag other than the three known ones.
pub fn parse_framed(data: &Vec<u8>) -> (r: Result<Envelope, ObjectStoreError>)
    ensures
        match r {
            Ok(env) => frame_parse(data@) == Ok::<EnvModel, ObjectStoreError>(env@),
            Err(e) => frame_parse(data@) == Err::<EnvModel, _>(e),
        },
{
    let n = data.len();
    let sp = match find_byte_from(data, 32, 0) {
        Some(k) => k,
        None => {
            return Err(ObjectStoreError::Truncated);
        },
    };
    proof {
        lemma_find_byte(data@, 32, 0);
    }
    let nl = match find_byte_from(data, 0, sp + 1) {
        Some(k) => k,
        None => {
            return Err(ObjectStoreError::Truncated);
        },
    };
    proof {
        lemma_find_byte(data@, 0, sp + 1);
    }
    let declared = parse_dec_u64(data, sp + 1, nl);
    let payload_len = data.len() - (nl + 1);
    let ok = match declared {
        Some(v) => v == payload_len as u64,
        None => false,
    };
    if !ok {
        proof {
            let lenb = data@.subrange(sp + 1, nl as int);
            let payload = data@.subrange(nl + 1, data@.len() as int);
            if declared is None {
                assert(!is_dec_digits(lenb) || dec_val(lenb) > u64::MAX);
            }
        }
        return Err(ObjectStoreError::LengthMismatch);
    }
    let payload = crate::bytesutil::copy_range(data, nl + 1, data.len());
    let ghost tag_spec = data@.subrange(0, sp as int);
    let tag = crate::bytesutil::copy_range(data, 0, sp);
    let is_blob = tag.len() == 4 && tag[0] == 98 && tag[1] == 108 && tag[2] == 111 && tag[3] == 98;
    let is_vers = tag.len() == 4 && tag[0] == 118 && tag[1] == 101 && tag[2] == 114 && tag[3]
        == 115;
    let is_sign = tag.len() == 4 && tag[0] == 115 && tag[1] == 105 && tag[2] == 103 && tag[3]
        == 110;
    proof {
        assert(is_blob <==> tag_spec =~= tag_bytes(EnvKind::Blob));
        assert(is_vers <==> tag_spec =~= tag_bytes(EnvKind::Version));
        assert(is_sign <==> tag_spec =~= tag_bytes(EnvKind::Event));
    }
    if is_blob {
        Ok(Envelope::Blob(payload))
    } else if is_vers {
        Ok(Envelope::Version(payload))
    } else if is_sign {
        Ok(Envelope::Event(payload))
    } else {
        Err(ObjectStoreError::UnknownEnvelopeTag)
    }
}

/// Framing round-trip: parsing the framed form of any envelope model gives
/// the model back.
pub proof fn lemma_frame_roundtrip(m: EnvModel)
    ensures
        frame_parse(m.frame()) == Ok::<EnvModel, ObjectStoreError>(m),
{
    let s = m.frame();
    let tag = tag_bytes(m.kind);
    let digits = dec_bytes(m.payload.len());
    lemma_dec_roundtrip(m.payload.len());
    assert(s.len() == 4 + 1 + digits.len() + 1 + m.payload.len());
    assert(forall|j: int| 0 <= j < 4 ==> s[j] == tag[j]);
    assert(s[4] == 32);
    assert(forall|j: int| 5 <= j < 5 + digits.len() ==> s[j] == digits[j - 5]);
    assert(s[5 + digits.len() as int] == 0);
    lemma_find_byte(s, 32, 0);
    assert(forall|j: int| 0 <= j < 4 ==> s[j] != 32);
    assert(find_byte(s, 32, 0) == Some(4int));
    lemma_find_byte(s, 0, 5);
    assert(forall|j: int| 5 <= j < 5 + digits.len() ==> s[j] != 0);
    let nl = 5 + digits.len() as int;
    assert(find_byte(s, 0, 5) == Some(nl));
    assert(s.subrange(5, nl) =~= digits);
    assert(s.subrange(nl + 1, s.len() as int) =~= m.payload);
    assert(s.subrange(0, 4) =~= tag);
    match m.kind {
        EnvKind::Blob => {
            assert(frame_parse(s) == Ok::<EnvModel, ObjectStoreError>(m));
        },
        EnvKind::Version => {
            assert(tag != tag_bytes(EnvKind::Blob));
            assert(frame_parse(s) == Ok::<EnvModel, ObjectStoreError>(m));
        },
        EnvKind::Event => {
            assert(tag != tag_bytes(EnvKind::Blob));
            assert(tag != tag_bytes(EnvKind::Version));
            assert(frame_parse(s) == Ok::<EnvModel, ObjectStoreError>(m));
        },
    }
}

} // verus!
