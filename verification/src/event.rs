//! Signed DAG events: claims, parents, timestamp, signatory and Ed25519
//! signature, with their byte-exact codec.
//!
//! The unsigned serialization covers everything but the signature; the
//! signed form appends the 64 signature bytes with no length prefix.

use vstd::prelude::*;
use vstd::utf8::valid_utf8;

use crate::envelope::Envelope;
use crate::errors::ObjectStoreError;
use crate::numcodec::{i64_be_bytes, lemma_i64_u64_roundtrip, lemma_u64_be_roundtrip, read_u64_be,
    u64_be_bytes, u64_of_be, write_u64_be};
use crate::varint::{lemma_varint_enc_dec, read_varint, varint_dec, varint_enc, write_varint};

verus! {

#[derive(Debug, Clone, PartialEq, Eq)]
pub enum Claim {
    AuthorityAdd { public_key: Vec<u8>, name: Vec<u8> },
    AuthorityRemove { name: Vec<u8> },
    Yank { version: Vec<u8>, reason: Vec<u8> },
    Unyank { version: Vec<u8> },
    Tag { tag: Vec<u8>, version: Vec<u8> },
    Publication { version: Vec<u8>, id: Vec<u8> },
    Other { typeno: u64, data: Vec<u8> },
}

/// The mathematical reading of a claim.
pub enum ClaimM {
    AuthorityAdd { public_key: Seq<u8>, name: Seq<u8> },
    AuthorityRemove { name: Seq<u8> },
    Yank { version: Seq<u8>, reason: Seq<u8> },
    Unyank { version: Seq<u8> },
    Tag { tag: Seq<u8>, version: Seq<u8> },
    Publication { version: Seq<u8>, id: Seq<u8> },
    Other { typeno: u64, data: Seq<u8> },
}

impl View for Claim {
    type V = ClaimM;

    open spec fn view(&self) -> ClaimM {
        match self {
            Claim::AuthorityAdd { public_key, name } => ClaimM::AuthorityAdd {
                public_key: public_key@,
                name: name@,
            },
            Claim::AuthorityRemove { name } => ClaimM::AuthorityRemove { name: name@ },
            Claim::Yank { version, reason } => ClaimM::Yank { version: version@, reason: reason@ },
            Claim::Unyank { version } => ClaimM::Unyank { version: version@ },
            Claim::Tag { tag, version } => ClaimM::Tag { tag: tag@, version: version@ },
            Claim::Publication { version, id } => ClaimM::Publication {
                version: version@,
                id: id@,
            },
            Claim::Other { typeno, data } => ClaimM::Other { typeno: *typeno, data: data@ },
        }
    }
}

/// The claimset bit each claim kind contributes.
pub open spec fn bitmask_spec(c: ClaimM) -> u8 {
    match c {
        ClaimM::AuthorityAdd { .. } => 0x01,
        ClaimM::AuthorityRemove { .. } => 0x02,
        ClaimM::Yank { .. } => 0x08,
        ClaimM::Unyank { .. } => 0x10,
        ClaimM::Tag { .. } => 0x20,
        ClaimM::Publication { .. } => 0x40,
        ClaimM::Other { .. } => 0x80,
    }
}

/// A varint-string: varint byte length, then the raw bytes.
pub open spec fn vstr_enc(s: Seq<u8>) -> Seq<u8> {
    varint_enc(s.len()) + s
}

/// The serialized claim body: its kind tag as a varint, then the fields.
pub open spec fn claim_enc(c: ClaimM) -> Seq<u8> {
    match c {
        ClaimM::AuthorityAdd { public_key, name } => seq![0x01u8] + vstr_enc(public_key) + vstr_enc(
            name,
        ),
        ClaimM::AuthorityRemove { name } => seq![0x02u8] + vstr_enc(name),
        ClaimM::Yank { version, reason } => seq![0x08u8] + vstr_enc(version) + vstr_enc(reason),
        ClaimM::Unyank { version } => seq![0x10u8] + vstr_enc(version),
        ClaimM::Tag { tag, version } => seq![0x20u8] + vstr_enc(tag) + vstr_enc(version),
        ClaimM::Publication { version, id } => seq![0x40u8] + vstr_enc(version) + id,
        ClaimM::Other { typeno, data } => varint_enc(typeno as nat) + data,
    }
}

/// A claim is well formed when its strings are UTF-8, a publication id is
/// exactly 32 bytes, and a catch-all type number does not collide with the
/// fixed single-bit kinds.
pub open spec fn claim_wf(c: ClaimM) -> bool {
    match c {
        ClaimM::AuthorityAdd { public_key, name } => valid_utf8(public_key) && valid_utf8(name),
        ClaimM::AuthorityRemove { name } => valid_utf8(name),
        ClaimM::Yank { version, reason } => valid_utf8(version) && valid_utf8(reason),
        ClaimM::Unyank { version } => valid_utf8(version),
        ClaimM::Tag { tag, version } => valid_utf8(tag) && valid_utf8(version),
        ClaimM::Publication { version, id } => valid_utf8(version) && id.len() == 32,
        ClaimM::Other { typeno, .. } => typeno >= 0x80,
    }
}

/// Reading a varint-string from the front: the bytes and how many input
/// bytes they took, or `None` when the input is too short.
pub open spec fn vstr_dec(s: Seq<u8>) -> Option<(Seq<u8>, nat)> {
    match varint_dec(s) {
        None => None,
        Some((len, c)) => if c + len <= s.len() {
            Some((s.subrange(c as int, (c + len) as int), (c + len) as nat))
        } else {
            None
        },
    }
}

/// What a claim body means.  The tag is read as a varint; tags above 0x7f
/// are the catch-all kind whose data runs to the end of the body; unknown
/// tags below 0x80 are rejected.
pub open spec fn claim_dec(s: Seq<u8>) -> Result<ClaimM, ObjectStoreError> {
    match varint_dec(s) {
        None => Err(ObjectStoreError::Truncated),
        Some((t, c)) => {
            let rest = s.skip(c as int);
            if t == 0x01 {
                match vstr_dec(rest) {
                    None => Err(ObjectStoreError::Truncated),
                    Some((pk, c1)) => match vstr_dec(rest.skip(c1 as int)) {
                        None => Err(ObjectStoreError::Truncated),
                        Some((name, _)) => if valid_utf8(pk) && valid_utf8(name) {
                            Ok(ClaimM::AuthorityAdd { public_key: pk, name })
                        } else {
                            Err(ObjectStoreError::InvalidUtf8)
                        },
                    },
                }
            } else if t == 0x02 {
                match vstr_dec(rest) {
                    None => Err(ObjectStoreError::Truncated),
                    Some((name, _)) => if valid_utf8(name) {
                        Ok(ClaimM::AuthorityRemove { name })
                    } else {
                        Err(ObjectStoreError::InvalidUtf8)
                    },
                }
            } else if t == 0x08 {
                match vstr_dec(rest) {
                    None => Err(ObjectStoreError::Truncated),
                    Some((version, c1)) => match vstr_dec(rest.skip(c1 as int)) {
                        None => Err(ObjectStoreError::Truncated),
                        Some((reason, _)) => if valid_utf8(version) && valid_utf8(reason) {
                            Ok(ClaimM::Yank { version, reason })
                        } else {
                            Err(ObjectStoreError::InvalidUtf8)
                        },
                    },
                }
            } else if t == 0x10 {
                match vstr_dec(rest) {
                    None => Err(ObjectStoreError::Truncated),
                    Some((version, _)) => if valid_utf8(version) {
                        Ok(ClaimM::Unyank { version })
                    } else {
                        Err(ObjectStoreError::InvalidUtf8)
                    },
                }
            } else if t == 0x20 {
                match vstr_dec(rest) {
                    None => Err(ObjectStoreError::Truncated),
                    Some((tag, c1)) => match vstr_dec(rest.skip(c1 as int)) {
                        None => Err(ObjectStoreError::Truncated),
                        Some((version, _)) => if valid_utf8(tag) && valid_utf8(version) {
                            Ok(ClaimM::Tag { tag, version })
                        } else {
                            Err(ObjectStoreError::InvalidUtf8)
                        },
                    },
                }
            } else if t == 0x40 {
                match vstr_dec(rest) {
                    None => Err(ObjectStoreError::Truncated),
                    Some((version, c1)) => if !valid_utf8(version) {
                        Err(ObjectStoreError::InvalidUtf8)
                    } else if c1 + 32 <= rest.len() {
                        Ok(
                            ClaimM::Publication {
                                version,
                                id: rest.subrange(c1 as int, c1 as int + 32),
                            },
                        )
                    } else {
                        Err(ObjectStoreError::Truncated)
                    },
                }
            } else if t >= 0x80 {
                if t > u64::MAX {
                    Err(ObjectStoreError::LengthMismatch)
                } else {
                    Ok(ClaimM::Other { typeno: t as u64, data: rest })
                }
            } else {
                Err(ObjectStoreError::ItemTypeParseError)
            }
        },
    }
}

/// The views of a sequence of parent address vectors.
pub open spec fn pviews(s: Seq<Vec<u8>>) -> Seq<Seq<u8>> {
    s.map_values(|p: Vec<u8>| p@)
}

/// The views of a sequence of claims.
pub open spec fn cviews(s: Seq<Claim>) -> Seq<ClaimM> {
    s.map_values(|c: Claim| c@)
}

/// The mathematical reading of an event.
pub struct EventM {
    pub claimset: u8,
    pub at: i64,
    pub claims: Seq<ClaimM>,
    pub parents: Seq<Seq<u8>>,
    pub signatory: Seq<u8>,
    pub signature: Seq<u8>,
}

#[derive(Debug, Clone, PartialEq, Eq)]
pub struct Event {
    pub claimset: u8,
    pub at: i64,
    pub claims: Vec<Claim>,
    pub parents: Vec<Vec<u8>>,
    pub signatory: Vec<u8>,
    pub signature: Vec<u8>,
}

impl View for Event {
    type V = EventM;

    open spec fn view(&self) -> EventM {
        EventM {
            claimset: self.claimset,
            at: self.at,
            claims: cviews(self.claims@),
            parents: pviews(self.parents@),
            signatory: self.signatory@,
            signature: self.signature@,
        }
    }
}

/// Parent addresses laid end to end, in order.
pub open spec fn parents_enc(ps: Seq<Seq<u8>>) -> Seq<u8>
    decreases ps.len(),
{
    if ps.len() == 0 {
        Seq::empty()
    } else {
        ps.first() + parents_enc(ps.drop_first())
    }
}

/// Each claim framed by the varint byte length of its body.
pub open spec fn claims_enc(cs: Seq<ClaimM>) -> Seq<u8>
    decreases cs.len(),
{
    if cs.len() == 0 {
        Seq::empty()
    } else {
        varint_enc(claim_enc(cs.first()).len()) + claim_enc(cs.first()) + claims_enc(
            cs.drop_first(),
        )
    }
}

/// The unsigned serialization: claimset byte, big-endian timestamp, parent
/// count and addresses, claim count and framed claims, then the signatory
/// as a varint-string.  The signature is not included.
pub open spec fn unsigned_enc(e: EventM) -> Seq<u8> {
    seq![e.claimset] + i64_be_bytes(e.at) + varint_enc(e.parents.len()) + parents_enc(e.parents)
        + varint_enc(e.claims.len()) + claims_enc(e.claims) + vstr_enc(e.signatory)
}

/// The signed serialization: the unsigned bytes, then the raw signature.
pub open spec fn signed_enc(e: EventM) -> Seq<u8> {
    unsigned_enc(e) + e.signature
}

/// An event is well formed when its parents are 32-byte addresses, its
/// claims are well formed, and its signatory is UTF-8.
pub open spec fn event_wf(e: EventM) -> bool {
    &&& forall|i: int| 0 <= i < e.parents.len() ==> (#[trigger] e.parents[i]).len() == 32
    &&& forall|i: int| 0 <= i < e.claims.len() ==> claim_wf(#[trigger] e.claims[i])
    &&& valid_utf8(e.signatory)
}

/// Reading `n` parent addresses of 32 bytes each, from `pos`.
pub open spec fn parents_dec(s: Seq<u8>, pos: nat, n: nat) -> Result<(Seq<Seq<u8>>, nat),
    ObjectStoreError,
>
    decreases n,
{
    if n == 0 {
        Ok((Seq::empty(), pos))
    } else if pos + 32 > s.len() {
        Err(ObjectStoreError::Truncated)
    } else {
        match parents_dec(s, (pos + 32) as nat, (n - 1) as nat) {
            Err(e) => Err(e),
            Ok((rest, end)) => Ok(
                (seq![s.subrange(pos as int, pos as int + 32)] + rest, end),
            ),
        }
    }
}

/// Reading `n` framed claims from `pos`: each is a varint byte length and
/// then a claim body of exactly that many bytes.
pub open spec fn claims_dec(s: Seq<u8>, pos: nat, n: nat) -> Result<(Seq<ClaimM>, nat),
    ObjectStoreError,
>
    decreases n,
{
    if n == 0 {
        Ok((Seq::empty(), pos))
    } else {
        match varint_dec(s.skip(pos as int)) {
            None => Err(ObjectStoreError::Truncated),
            Some((len, c)) => if len > u64::MAX {
                Err(ObjectStoreError::LengthMismatch)
            } else if pos + c + len > s.len() {
                Err(ObjectStoreError::Truncated)
            } else {
                match claim_dec(s.subrange((pos + c) as int, (pos + c + len) as int)) {
                    Err(e) => Err(e),
                    Ok(cm) => match claims_dec(s, (pos + c + len) as nat, (n - 1) as nat) {
                        Err(e) => Err(e),
                        Ok((rest, end)) => Ok((seq![cm] + rest, end)),
                    },
                }
            },
        }
    }
}

/// What signed event bytes mean, end to end.
pub open spec fn event_dec(s: Seq<u8>) -> Result<EventM, ObjectStoreError> {
    if s.len() < 9 {
        Err(ObjectStoreError::Truncated)
    } else {
        let claimset = s[0];
        let at = u64_of_be(s.subrange(1, 9)) as i64;
        match varint_dec(s.skip(9)) {
            None => Err(ObjectStoreError::Truncated),
            Some((pn, pc)) => if pn > u64::MAX {
                Err(ObjectStoreError::LengthMismatch)
            } else {
                match parents_dec(s, (9 + pc) as nat, pn) {
                    Err(e) => Err(e),
                    Ok((parents, ppos)) => match varint_dec(s.skip(ppos as int)) {
                        None => Err(ObjectStoreError::Truncated),
                        Some((cn, cc)) => if cn > u64::MAX {
                            Err(ObjectStoreError::LengthMismatch)
                        } else {
                            match claims_dec(s, (ppos + cc) as nat, cn) {
                                Err(e) => Err(e),
                                Ok((claims, cpos)) => match vstr_dec(s.skip(cpos as int)) {
                                    None => Err(ObjectStoreError::Truncated),
                                    Some((signatory, sc)) => if !valid_utf8(signatory) {
                                        Err(ObjectStoreError::InvalidUtf8)
                                    } else {
                                        Ok(
                                            EventM {
                                                claimset,
                                                at,
                                                claims,
                                                parents,
                                                signatory,
                                                signature: s.skip((cpos + sc) as int),
                                            },
                                        )
                                    },
                                },
                            }
                        },
                    },
                }
            },
        }
    }
}


/// Relies on str::from_utf8: it accepts exactly the byte strings that
/// vstd's UTF-8 model accepts.
#[verifier::external_body]
pub(crate) fn utf8_check(v: &Vec<u8>) -> (r: bool)
    ensures
        r == valid_utf8(v@),
{
    std::str::from_utf8(&v[..]).is_ok()
}

/// Appends a varint-string: the byte length, then the bytes.
fn write_vstr(out: &mut Vec<u8>, s: &Vec<u8>)
    ensures
        final(out)@ == old(out)@ + vstr_enc(s@),
{
    write_varint(out, s.len() as u64);
    crate::bytesutil::push_all(out, s);
    proof {
        assert(out@ =~= old(out)@ + vstr_enc(s@));
    }
}

impl Claim {
    /// The claimset bit this claim contributes.
    pub fn bitmask(&self) -> (r: u8)
        ensures
            r == bitmask_spec(self@),
    {
        match self {
            Claim::AuthorityAdd { .. } => 0x01,
            Claim::AuthorityRemove { .. } => 0x02,
            Claim::Yank { .. } => 0x08,
            Claim::Unyank { .. } => 0x10,
            Claim::Tag { .. } => 0x20,
            Claim::Publication { .. } => 0x40,
            Claim::Other { .. } => 0x80,
        }
    }

    /// Serializes this claim's body into `destination` and returns how many
    /// bytes were appended.
    pub fn to_bytes(&self, destination: &mut Vec<u8>) -> (r: usize)
        ensures
            final(destination)@ == old(destination)@ + claim_enc(self@),
            r == claim_enc(self@).len(),
    {
        let start = destination.len();
        match self {
            Claim::AuthorityAdd { public_key, name } => {
                destination.push(0x01);
                write_vstr(destination, public_key);
                write_vstr(destination, name);
            },
            Claim::AuthorityRemove { name } => {
                destination.push(0x02);
                write_vstr(destination, name);
            },
            Claim::Yank { version, reason } => {
                destination.push(0x08);
                write_vstr(destination, version);
                write_vstr(destination, reason);
            },
            Claim::Unyank { version } => {
                destination.push(0x10);
                write_vstr(destination, version);
            },
            Claim::Tag { tag, version } => {
                destination.push(0x20);
                write_vstr(destination, tag);
                write_vstr(destination, version);
            },
            Claim::Publication { version, id } => {
                destination.push(0x40);
                write_vstr(destination, version);
                crate::bytesutil::push_all(destination, id);
            },
            Claim::Other { typeno, data } => {
                write_varint(destination, *typeno);
                crate::bytesutil::push_all(destination, data);
            },
        }
        proof {
            assert(destination@ =~= old(destination)@ + claim_enc(self@));
        }
        destination.len() - start
    }
}

pub proof fn lemma_parents_enc_snoc(ps: Seq<Seq<u8>>, p: Seq<u8>)
    ensures
        parents_enc(ps.push(p)) == parents_enc(ps) + p,
    decreases ps.len(),
{
    if ps.len() == 0 {
        assert(ps.push(p).first() == p);
        assert(ps.push(p).drop_first() =~= Seq::<Seq<u8>>::empty());
        assert(parents_enc(Seq::<Seq<u8>>::empty()) == Seq::<u8>::empty());
        assert(parents_enc(ps.push(p)) =~= parents_enc(ps) + p);
    } else {
        lemma_parents_enc_snoc(ps.drop_first(), p);
        assert(ps.push(p).first() == ps.first());
        assert(ps.push(p).drop_first() =~= ps.drop_first().push(p));
        assert(parents_enc(ps.push(p)) =~= parents_enc(ps) + p);
    }
}

pub proof fn lemma_claims_enc_snoc(cs: Seq<ClaimM>, c: ClaimM)
    ensures
        claims_enc(cs.push(c)) == claims_enc(cs) + varint_enc(claim_enc(c).len()) + claim_enc(c),
    decreases cs.len(),
{
    if cs.len() == 0 {
        assert(cs.push(c).first() == c);
        assert(cs.push(c).drop_first() =~= Seq::<ClaimM>::empty());
        assert(claims_enc(Seq::<ClaimM>::empty()) == Seq::<u8>::empty());
        assert(claims_enc(cs.push(c)) =~= claims_enc(cs) + varint_enc(claim_enc(c).len())
            + claim_enc(c));
    } else {
        lemma_claims_enc_snoc(cs.drop_first(), c);
        assert(cs.push(c).first() == cs.first());
        assert(cs.push(c).drop_first() =~= cs.drop_first().push(c));
        assert(claims_enc(cs.push(c)) =~= claims_enc(cs) + varint_enc(claim_enc(c).len())
            + claim_enc(c));
    }
}

impl Event {
    /// Serializes the unsigned form into `destination` and returns how
    /// many bytes were appended.  This is the byte string a signature
    /// covers.
    #[verifier::loop_isolation(false)]
    pub fn to_bytes_unsigned(&self, destination: &mut Vec<u8>) -> (r: usize)
        ensures
            final(destination)@ == old(destination)@ + unsigned_enc(self@),
            r == unsigned_enc(self@).len(),
    {
        let start = destination.len();
        destination.push(self.claimset);
        write_u64_be(destination, self.at as u64);
        write_varint(destination, self.parents.len() as u64);
        let ghost base = destination@;
        let mut i: usize = 0;
        while i < self.parents.len()
            invariant
                i <= self.parents@.len(),
                destination@ == base + parents_enc(self@.parents.take(i as int)),
            decreases self.parents@.len() - i,
        {
            proof {
                assert(parents_enc(self@.parents.take(i as int)) + self@.parents[i as int]
                    == parents_enc(self@.parents.take(i + 1))) by {
                    lemma_parents_enc_snoc(self@.parents.take(i as int), self@.parents[i as int]);
                    assert(self@.parents.take(i as int).push(self@.parents[i as int])
                        =~= self@.parents.take(i + 1));
                };
            }
            crate::bytesutil::push_all(destination, &self.parents[i]);
            proof {
                assert(destination@ =~= base + parents_enc(self@.parents.take(i + 1)));
            }
            i = i + 1;
        }
        proof {
            assert(self@.parents.take(self.parents@.len() as int) =~= self@.parents);
        }
        write_varint(destination, self.claims.len() as u64);
        let ghost base2 = destination@;
        let mut i: usize = 0;
        while i < self.claims.len()
            invariant
                i <= self.claims@.len(),
                destination@ == base2 + claims_enc(self@.claims.take(i as int)),
            decreases self.claims@.len() - i,
        {
            let mut buf: Vec<u8> = Vec::new();
            self.claims[i].to_bytes(&mut buf);
            write_varint(destination, buf.len() as u64);
            crate::bytesutil::push_all(destination, &buf);
            proof {
                lemma_claims_enc_snoc(self@.claims.take(i as int), self@.claims[i as int]);
                assert(self@.claims.take(i as int).push(self@.claims[i as int])
                    =~= self@.claims.take(i + 1));
                assert(destination@ =~= base2 + claims_enc(self@.claims.take(i + 1)));
            }
            i = i + 1;
        }
        proof {
            assert(self@.claims.take(self.claims@.len() as int) =~= self@.claims);
        }
        write_vstr(destination, &self.signatory);
        proof {
            assert(destination@ =~= old(destination)@ + unsigned_enc(self@));
        }
        destination.len() - start
    }

    /// Serializes the signed form: the unsigned bytes, then the raw
    /// signature bytes.
    pub fn to_bytes(&self, destination: &mut Vec<u8>) -> (r: usize)
        ensures
            final(destination)@ == old(destination)@ + signed_enc(self@),
            r == signed_enc(self@).len(),
    {
        let start = destination.len();
        self.to_bytes_unsigned(destination);
        crate::bytesutil::push_all(destination, &self.signature);
        proof {
            assert(destination@ =~= old(destination)@ + signed_enc(self@));
        }
        destination.len() - start
    }
}


/// Composes a partial parents parse with already-read addresses.
pub open spec fn parents_partial(
    r: Result<(Seq<Seq<u8>>, nat), ObjectStoreError>,
    acc: Seq<Seq<u8>>,
) -> Result<(Seq<Seq<u8>>, nat), ObjectStoreError> {
    match r {
        Err(e) => Err(e),
        Ok((rest, end)) => Ok((acc + rest, end)),
    }
}

/// Composes a partial claims parse with already-read claims.
pub open spec fn claims_partial(
    r: Result<(Seq<ClaimM>, nat), ObjectStoreError>,
    acc: Seq<ClaimM>,
) -> Result<(Seq<ClaimM>, nat), ObjectStoreError> {
    match r {
        Err(e) => Err(e),
        Ok((rest, end)) => Ok((acc + rest, end)),
    }
}

/// Reads a varint-string at `pos`: the length, then that many raw bytes.
fn read_vstr(data: &Vec<u8>, pos: usize) -> (r: Result<(Vec<u8>, usize), ObjectStoreError>)
    requires
        pos <= data@.len(),
    ensures
        match r {
            Ok((v, np)) => {
                &&& pos <= np <= data@.len()
                &&& vstr_dec(data@.skip(pos as int)) == Some((v@, (np - pos) as nat))
            },
            Err(e) => e is Truncated && vstr_dec(data@.skip(pos as int)) is None,
        },
{
    let ghost s = data@.skip(pos as int);
    let (len, p1) = match read_varint(data, pos) {
        Ok(x) => x,
        Err(_) => {
            proof {
                if let Some((v, c)) = varint_dec(s) {
                    crate::varint::lemma_varint_dec_consumed(s);
                    assert(data.len() == data@.len());
                    assert(c + v > s.len());
                }
            }
            return Err(ObjectStoreError::Truncated);
        },
    };
    let remaining = data.len() - p1;
    if len > remaining as u64 {
        return Err(ObjectStoreError::Truncated);
    }
    let np = p1 + (len as usize);
    let v = crate::bytesutil::copy_range(data, p1, np);
    proof {
        assert(s.subrange((p1 - pos) as int, (np - pos) as int) =~= data@.subrange(
            p1 as int,
            np as int,
        ));
    }
    Ok((v, np))
}

impl Claim {
    /// Parses one claim body, which must begin with the claim's kind tag.
    pub fn from_bytes(input: &Vec<u8>) -> (r: Result<Claim, ObjectStoreError>)
        ensures
            match r {
                Ok(c) => claim_dec(input@) == Ok::<ClaimM, ObjectStoreError>(c@),
                Err(e) => claim_dec(input@) == Err::<ClaimM, ObjectStoreError>(e),
            },
    {
        proof {
            assert(input@.skip(0) =~= input@);
        }
        let (t, pos) = match read_varint(input, 0) {
            Ok(x) => x,
            Err(e) => {
                return Err(e);
            },
        };
        let ghost rest = input@.skip(pos as int);
        if t == 0x01 {
            let (pk, p1) = match read_vstr(input, pos) {
                Ok(x) => x,
                Err(e) => {
                    return Err(e);
                },
            };
            proof {
                assert(rest.skip((p1 - pos) as int) =~= input@.skip(p1 as int));
            }
            let (name, _p2) = match read_vstr(input, p1) {
                Ok(x) => x,
                Err(e) => {
                    return Err(e);
                },
            };
            if utf8_check(&pk) && utf8_check(&name) {
                Ok(Claim::AuthorityAdd { public_key: pk, name })
            } else {
                Err(ObjectStoreError::InvalidUtf8)
            }
        } else if t == 0x02 {
            let (name, _p1) = match read_vstr(input, pos) {
                Ok(x) => x,
                Err(e) => {
                    return Err(e);
                },
            };
            if utf8_check(&name) {
                Ok(Claim::AuthorityRemove { name })
            } else {
                Err(ObjectStoreError::InvalidUtf8)
            }
        } else if t == 0x08 {
            let (version, p1) = match read_vstr(input, pos) {
                Ok(x) => x,
                Err(e) => {
                    return Err(e);
                },
            };
            proof {
                assert(rest.skip((p1 - pos) as int) =~= input@.skip(p1 as int));
            }
            let (reason, _p2) = match read_vstr(input, p1) {
                Ok(x) => x,
                Err(e) => {
                    return Err(e);
                },
            };
            if utf8_check(&version) && utf8_check(&reason) {
                Ok(Claim::Yank { version, reason })
            } else {
                Err(ObjectStoreError::InvalidUtf8)
            }
        } else if t == 0x10 {
            let (version, _p1) = match read_vstr(input, pos) {
                Ok(x) => x,
                Err(e) => {
                    return Err(e);
                },
            };
            if utf8_check(&version) {
                Ok(Claim::Unyank { version })
            } else {
                Err(ObjectStoreError::InvalidUtf8)
            }
        } else if t == 0x20 {
            let (tag, p1) = match read_vstr(input, pos) {
                Ok(x) => x,
                Err(e) => {
                    return Err(e);
                },
            };
            proof {
                assert(rest.skip((p1 - pos) as int) =~= input@.skip(p1 as int));
            }
            let (version, _p2) = match read_vstr(input, p1) {
                Ok(x) => x,
                Err(e) => {
                    return Err(e);
                },
            };
            if utf8_check(&tag) && utf8_check(&version) {
                Ok(Claim::Tag { tag, version })
            } else {
                Err(ObjectStoreError::InvalidUtf8)
            }
        } else if t == 0x40 {
            let (version, p1) = match read_vstr(input, pos) {
                Ok(x) => x,
                Err(e) => {
                    return Err(e);
                },
            };
            if !utf8_check(&version) {
                return Err(ObjectStoreError::InvalidUtf8);
            }
            if input.len() - p1 < 32 {
                return Err(ObjectStoreError::Truncated);
            }
            let id = crate::bytesutil::copy_range(input, p1, p1 + 32);
            proof {
                assert(rest.subrange((p1 - pos) as int, (p1 - pos) as int + 32) =~= input@.subrange(
                    p1 as int,
                    p1 as int + 32,
                ));
            }
            Ok(Claim::Publication { version, id })
        } else if t >= 0x80 {
            let data = crate::bytesutil::copy_range(input, pos, input.len());
            proof {
                assert(data@ =~= rest);
            }
            Ok(Claim::Other { typeno: t, data })
        } else {
            Err(ObjectStoreError::ItemTypeParseError)
        }
    }
}

impl Event {
    /// Parses a signed event, rejecting truncated fields, oversized
    /// counts, unknown claim tags and signatories that are not UTF-8.
    #[verifier::loop_isolation(false)]
    #[verifier::rlimit(100)]
    pub fn from_bytes(input: &Vec<u8>) -> (r: Result<Event, ObjectStoreError>)
        ensures
            match r {
                Ok(ev) => event_dec(input@) == Ok::<EventM, ObjectStoreError>(ev@),
                Err(e) => event_dec(input@) == Err::<EventM, ObjectStoreError>(e),
            },
    {
        let len = input.len();
        if len < 9 {
            return Err(ObjectStoreError::Truncated);
        }
        let claimset = input[0];
        let at_u = match read_u64_be(input, 1) {
            Ok((v, _)) => v,
            Err(_) => {
                proof {
                    assert(false);
                }
                return Err(ObjectStoreError::Truncated);
            },
        };
        let at = at_u as i64;
        let (pn, mut pos) = match read_varint(input, 9) {
            Ok(x) => x,
            Err(e) => {
                return Err(e);
            },
        };
        let mut parents: Vec<Vec<u8>> = Vec::new();
        let mut k: u64 = 0;
        let ghost ppos0 = pos as nat;
        while k < pn
            invariant
                k <= pn,
                9 <= pos <= len,
                pviews(parents@).len() == k,
                parents_dec(input@, ppos0, pn as nat) == parents_partial(
                    parents_dec(input@, pos as nat, (pn - k) as nat),
                    pviews(parents@),
                ),
            decreases pn - k,
        {
            if len - pos < 32 {
                return Err(ObjectStoreError::Truncated);
            }
            let p = crate::bytesutil::copy_range(input, pos, pos + 32);
            proof {
                let acc = pviews(parents@);
                let sub = input@.subrange(pos as int, pos as int + 32);
                if let Ok((restp, end)) = parents_dec(input@, (pos + 32) as nat, (pn - k - 1) as nat) {
                    assert(acc + (seq![sub] + restp) =~= acc.push(sub) + restp);
                }
                assert(pviews(parents@.push(p)) =~= pviews(parents@).push(p@));
            }
            parents.push(p);
            pos = pos + 32;
            k = k + 1;
        }
        proof {
            assert(pviews(parents@) + Seq::<Seq<u8>>::empty() =~= pviews(parents@));
        }
        let (cn, mut cpos) = match read_varint(input, pos) {
            Ok(x) => x,
            Err(e) => {
                return Err(e);
            },
        };
        let mut claims: Vec<Claim> = Vec::new();
        let mut j: u64 = 0;
        let ghost cpos0 = cpos as nat;
        while j < cn
            invariant
                j <= cn,
                cpos <= len,
                cviews(claims@).len() == j,
                claims_dec(input@, cpos0, cn as nat) == claims_partial(
                    claims_dec(input@, cpos as nat, (cn - j) as nat),
                    cviews(claims@),
                ),
            decreases cn - j,
        {
            let (clen, cp) = match read_varint(input, cpos) {
                Ok(x) => x,
                Err(e) => {
                    return Err(e);
                },
            };
            if clen > (len - cp) as u64 {
                return Err(ObjectStoreError::Truncated);
            }
            let cend = cp + (clen as usize);
            let body = crate::bytesutil::copy_range(input, cp, cend);
            let claim = match Claim::from_bytes(&body) {
                Ok(c) => c,
                Err(e) => {
                    return Err(e);
                },
            };
            proof {
                let acc = cviews(claims@);
                if let Ok((restc, end)) = claims_dec(input@, cend as nat, (cn - j - 1) as nat) {
                    assert(acc + (seq![claim@] + restc) =~= acc.push(claim@) + restc);
                }
                assert(cviews(claims@.push(claim)) =~= cviews(claims@).push(claim@));
            }
            claims.push(claim);
            cpos = cend;
            j = j + 1;
        }
        proof {
            assert(cviews(claims@) + Seq::<ClaimM>::empty() =~= cviews(claims@));
        }
        let (signatory, spos) = match read_vstr(input, cpos) {
            Ok(x) => x,
            Err(e) => {
                return Err(e);
            },
        };
        if !utf8_check(&signatory) {
            return Err(ObjectStoreError::InvalidUtf8);
        }
        let signature = crate::bytesutil::copy_range(input, spos, len);
        proof {
            assert(signature@ =~= input@.skip(spos as int));
        }
        Ok(Event { claimset, at, claims, parents, signatory, signature })
    }
}


/// Reading a varint-string back from its encoding (with anything after)
/// yields the original bytes and consumes exactly the encoding.
pub proof fn lemma_vstr_roundtrip(s: Seq<u8>, rest: Seq<u8>)
    ensures
        vstr_dec(vstr_enc(s) + rest) == Some((s, vstr_enc(s).len())),
{
    let whole = vstr_enc(s) + rest;
    lemma_varint_enc_dec(s.len(), s + rest);
    assert(whole =~= varint_enc(s.len()) + (s + rest));
    let c = varint_enc(s.len()).len();
    assert(varint_dec(whole) == Some((s.len(), c)));
    assert(whole.subrange(c as int, (c + s.len()) as int) =~= s);
}

/// Claim round-trip: parsing the serialized body of a well-formed claim
/// gives the claim back.
pub proof fn lemma_claim_roundtrip(c: ClaimM)
    requires
        claim_wf(c),
    ensures
        claim_dec(claim_enc(c)) == Ok::<ClaimM, ObjectStoreError>(c),
{
    let s = claim_enc(c);
    match c {
        ClaimM::AuthorityAdd { public_key, name } => {
            assert(s[0] == 0x01);
            assert(varint_dec(s) == Some((0x01 as nat, 1nat)));
            let rest = s.skip(1);
            assert(rest =~= vstr_enc(public_key) + vstr_enc(name));
            lemma_vstr_roundtrip(public_key, vstr_enc(name));
            let c1 = vstr_enc(public_key).len();
            assert(rest.skip(c1 as int) =~= vstr_enc(name));
            lemma_vstr_roundtrip(name, Seq::<u8>::empty());
            assert(vstr_enc(name) + Seq::<u8>::empty() =~= vstr_enc(name));
        },
        ClaimM::AuthorityRemove { name } => {
            assert(s[0] == 0x02);
            assert(varint_dec(s) == Some((0x02 as nat, 1nat)));
            let rest = s.skip(1);
            assert(rest =~= vstr_enc(name));
            lemma_vstr_roundtrip(name, Seq::<u8>::empty());
            assert(vstr_enc(name) + Seq::<u8>::empty() =~= vstr_enc(name));
        },
        ClaimM::Yank { version, reason } => {
            assert(s[0] == 0x08);
            assert(varint_dec(s) == Some((0x08 as nat, 1nat)));
            let rest = s.skip(1);
            assert(rest =~= vstr_enc(version) + vstr_enc(reason));
            lemma_vstr_roundtrip(version, vstr_enc(reason));
            let c1 = vstr_enc(version).len();
            assert(rest.skip(c1 as int) =~= vstr_enc(reason));
            lemma_vstr_roundtrip(reason, Seq::<u8>::empty());
            assert(vstr_enc(reason) + Seq::<u8>::empty() =~= vstr_enc(reason));
        },
        ClaimM::Unyank { version } => {
            assert(s[0] == 0x10);
            assert(varint_dec(s) == Some((0x10 as nat, 1nat)));
            let rest = s.skip(1);
            assert(rest =~= vstr_enc(version));
            lemma_vstr_roundtrip(version, Seq::<u8>::empty());
            assert(vstr_enc(version) + Seq::<u8>::empty() =~= vstr_enc(version));
        },
        ClaimM::Tag { tag, version } => {
            assert(s[0] == 0x20);
            assert(varint_dec(s) == Some((0x20 as nat, 1nat)));
            let rest = s.skip(1);
            assert(rest =~= vstr_enc(tag) + vstr_enc(version));
            lemma_vstr_roundtrip(tag, vstr_enc(version));
            let c1 = vstr_enc(tag).len();
            assert(rest.skip(c1 as int) =~= vstr_enc(version));
            lemma_vstr_roundtrip(version, Seq::<u8>::empty());
            assert(vstr_enc(version) + Seq::<u8>::empty() =~= vstr_enc(version));
        },
        ClaimM::Publication { version, id } => {
            assert(s[0] == 0x40);
            assert(varint_dec(s) == Some((0x40 as nat, 1nat)));
            let rest = s.skip(1);
            assert(rest =~= vstr_enc(version) + id);
            lemma_vstr_roundtrip(version, id);
            let c1 = vstr_enc(version).len();
            assert(rest.subrange(c1 as int, c1 as int + 32) =~= id);
        },
        ClaimM::Other { typeno, data } => {
            lemma_varint_enc_dec(typeno as nat, data);
            assert(s =~= varint_enc(typeno as nat) + data);
            let cc = varint_enc(typeno as nat).len();
            assert(s.skip(cc as int) =~= data);
        },
    }
}

pub proof fn lemma_parents_enc_len(ps: Seq<Seq<u8>>)
    requires
        forall|i: int| 0 <= i < ps.len() ==> (#[trigger] ps[i]).len() == 32,
    ensures
        parents_enc(ps).len() == 32 * ps.len(),
    decreases ps.len(),
{
    if ps.len() > 0 {
        assert(forall|i: int|
            0 <= i < ps.drop_first().len() ==> (#[trigger] ps.drop_first()[i]).len() == 32);
        lemma_parents_enc_len(ps.drop_first());
    }
}

/// Reading back parent addresses written at `pos` yields them unchanged.
pub proof fn lemma_parents_dec_enc(s: Seq<u8>, pos: nat, ps: Seq<Seq<u8>>)
    requires
        forall|i: int| 0 <= i < ps.len() ==> (#[trigger] ps[i]).len() == 32,
        pos + parents_enc(ps).len() <= s.len(),
        s.subrange(pos as int, pos as int + parents_enc(ps).len() as int) == parents_enc(ps),
    ensures
        parents_dec(s, pos, ps.len()) == Ok::<_, ObjectStoreError>(
            (ps, (pos + parents_enc(ps).len()) as nat),
        ),
    decreases ps.len(),
{
    lemma_parents_enc_len(ps);
    if ps.len() == 0 {
        assert(ps =~= Seq::<Seq<u8>>::empty());
    } else {
        let e = parents_enc(ps);
        let first = ps.first();
        let tail = ps.drop_first();
        assert(e =~= first + parents_enc(tail));
        assert forall|k: int| 0 <= k < e.len() implies s[pos + k] == e[k] by {
            assert(s.subrange(pos as int, pos as int + e.len() as int)[k] == s[pos + k]);
        };
        assert(s.subrange(pos as int, pos as int + 32) =~= first);
        assert(forall|i: int| 0 <= i < tail.len() ==> (#[trigger] tail[i]).len() == 32);
        lemma_parents_enc_len(tail);
        assert forall|k: int| 0 <= k < parents_enc(tail).len() implies s.subrange(
            pos as int + 32,
            pos as int + 32 + parents_enc(tail).len() as int,
        )[k] == parents_enc(tail)[k] by {
            assert(e[32 + k] == parents_enc(tail)[k]);
            assert(s[pos + 32 + k] == e[32 + k]);
        };
        assert(s.subrange(pos as int + 32, pos as int + 32 + parents_enc(tail).len() as int)
            =~= parents_enc(tail));
        lemma_parents_dec_enc(s, (pos + 32) as nat, tail);
        assert(seq![s.subrange(pos as int, pos as int + 32)] + tail =~= ps);
    }
}

/// Each framed claim takes no more bytes than the whole claim section.
pub proof fn lemma_claims_enc_bounds(cs: Seq<ClaimM>, i: int)
    requires
        0 <= i < cs.len(),
    ensures
        claim_enc(cs[i]).len() <= claims_enc(cs).len(),
    decreases cs.len(),
{
    if i == 0 {
        assert(cs[0] == cs.first());
    } else {
        lemma_claims_enc_bounds(cs.drop_first(), i - 1);
        assert(cs.drop_first()[i - 1] == cs[i]);
    }
}

/// Reading back claims written at `pos` yields them unchanged.
#[verifier::rlimit(60)]
pub proof fn lemma_claims_dec_enc(s: Seq<u8>, pos: nat, cs: Seq<ClaimM>)
    requires
        forall|i: int| 0 <= i < cs.len() ==> claim_wf(#[trigger] cs[i]),
        forall|i: int| 0 <= i < cs.len() ==> claim_enc(#[trigger] cs[i]).len() <= u64::MAX,
        pos + claims_enc(cs).len() <= s.len(),
        s.subrange(pos as int, pos as int + claims_enc(cs).len() as int) == claims_enc(cs),
    ensures
        claims_dec(s, pos, cs.len()) == Ok::<_, ObjectStoreError>(
            (cs, (pos + claims_enc(cs).len()) as nat),
        ),
    decreases cs.len(),
{
    if cs.len() == 0 {
        assert(cs =~= Seq::<ClaimM>::empty());
    } else {
        let c0 = cs.first();
        let tail = cs.drop_first();
        let body = claim_enc(c0);
        let l = body.len();
        let ve = varint_enc(l);
        let e = claims_enc(cs);
        assert(e =~= ve + body + claims_enc(tail));
        let after = s.skip(pos as int + e.len() as int);
        assert forall|k: int| 0 <= k < e.len() implies s[pos + k] == e[k] by {
            assert(s.subrange(pos as int, pos as int + e.len() as int)[k] == s[pos + k]);
        };
        assert(s.skip(pos as int) =~= e + after);
        assert(s.skip(pos as int) =~= ve + (body + claims_enc(tail) + after));
        lemma_varint_enc_dec(l, body + claims_enc(tail) + after);
        let c = ve.len();
        assert(varint_dec(s.skip(pos as int)) == Some((l, c)));
        assert(claim_enc(cs[0]).len() <= u64::MAX);
        assert forall|k: int| 0 <= k < l implies s.subrange(
            (pos + c) as int,
            pos as int + c as int + l as int,
        )[k] == body[k] by {
            assert(e[c + k] == body[k]);
            assert(s[pos + c + k] == e[c + k]);
        };
        assert(s.subrange((pos + c) as int, pos as int + c as int + l as int) =~= body);
        lemma_claim_roundtrip(c0);
        assert(forall|i: int| 0 <= i < tail.len() ==> claim_wf(#[trigger] tail[i]));
        assert(forall|i: int|
            0 <= i < tail.len() ==> claim_enc(#[trigger] tail[i]).len() <= u64::MAX);
        assert forall|k: int| 0 <= k < claims_enc(tail).len() implies s.subrange(
            (pos + c + l) as int,
            pos as int + c as int + l as int + claims_enc(tail).len() as int,
        )[k] == claims_enc(tail)[k] by {
            assert(e[c + l + k] == claims_enc(tail)[k]);
            assert(s[pos + c + l + k] == e[c + l + k]);
        };
        assert(s.subrange(
            (pos + c + l) as int,
            pos as int + c as int + l as int + claims_enc(tail).len() as int,
        ) =~= claims_enc(tail));
        lemma_claims_dec_enc(s, (pos + c + l) as nat, tail);
        assert(seq![c0] + tail =~= cs);
    }
}

/// The counts and per-claim body lengths fit the 64-bit fields the codec
/// reads them into.  Any event that exists in memory satisfies this.
pub open spec fn event_bounded(e: EventM) -> bool {
    &&& e.parents.len() <= u64::MAX
    &&& e.claims.len() <= u64::MAX
    &&& forall|i: int| 0 <= i < e.claims.len() ==> claim_enc(#[trigger] e.claims[i]).len()
        <= u64::MAX
}

/// Event round-trip: parsing the signed serialization of a well-formed,
/// representable event yields a structurally equal event, claimset bits,
/// parent list and signature included.
#[verifier::rlimit(100)]
pub proof fn lemma_event_roundtrip(e: EventM)
    requires
        event_wf(e),
        event_bounded(e),
    ensures
        event_dec(signed_enc(e)) == Ok::<EventM, ObjectStoreError>(e),
{
    let s = signed_enc(e);
    let ab = i64_be_bytes(e.at);
    let pvs = varint_enc(e.parents.len());
    let pe = parents_enc(e.parents);
    let cvs = varint_enc(e.claims.len());
    let ce = claims_enc(e.claims);
    let sg = vstr_enc(e.signatory);
    assert(s =~= seq![e.claimset] + ab + pvs + pe + cvs + ce + sg + e.signature);
    assert(ab.len() == 8);
    assert(s.len() >= 9);
    assert(s[0] == e.claimset);
    assert(s.subrange(1, 9) =~= u64_be_bytes(e.at as u64));
    lemma_u64_be_roundtrip(e.at as u64);
    lemma_i64_u64_roundtrip(e.at);
    assert(s.skip(9) =~= pvs + (pe + cvs + ce + sg + e.signature));
    lemma_varint_enc_dec(e.parents.len(), pe + cvs + ce + sg + e.signature);
    let pc = pvs.len();
    assert(varint_dec(s.skip(9)) == Some((e.parents.len(), pc)));
    lemma_parents_enc_len(e.parents);
    assert(s.subrange(9 + pc as int, 9 + pc + pe.len() as int) =~= pe);
    lemma_parents_dec_enc(s, (9 + pc) as nat, e.parents);
    let ppos = 9 + pc + pe.len();
    assert(s.skip(ppos as int) =~= cvs + (ce + sg + e.signature));
    lemma_varint_enc_dec(e.claims.len(), ce + sg + e.signature);
    let cc = cvs.len();
    assert(varint_dec(s.skip(ppos as int)) == Some((e.claims.len(), cc)));
    assert(s.subrange((ppos + cc) as int, (ppos + cc + ce.len()) as int) =~= ce);
    lemma_claims_dec_enc(s, (ppos + cc) as nat, e.claims);
    let cpos = ppos + cc + ce.len();
    assert(s.skip(cpos as int) =~= sg + e.signature);
    lemma_vstr_roundtrip(e.signatory, e.signature);
    assert(vstr_dec(s.skip(cpos as int)) == Some((e.signatory, sg.len())));
    assert(s.skip(cpos + sg.len() as int) =~= e.signature);
    assert(event_dec(s) == Ok::<EventM, ObjectStoreError>(e));
}


/// Relies on chrono's Utc::now for the default timestamp of a freshly
/// built event.
#[verifier::external_body]
pub(crate) fn now_timestamp() -> i64 {
    chrono::Utc::now().timestamp()
}

/// The claimset bitmask of a claim sequence, accumulated in order.
pub open spec fn claimset_of(cs: Seq<ClaimM>) -> u8
    decreases cs.len(),
{
    if cs.len() == 0 {
        0
    } else {
        claimset_of(cs.drop_last()) | bitmask_spec(cs.last())
    }
}

impl Event {
    /// Whether the event's signature verifies under the 32-byte public key
    /// `pk`: the first 64 signature bytes are checked against the unsigned
    /// serialization.
    pub fn verify(&self, pk: &Vec<u8>) -> (r: Result<bool, ObjectStoreError>)
        requires
            self.signature@.len() >= 64,
            pk@.len() == 32,
        ensures
            r == Ok::<bool, ObjectStoreError>(
                crate::keys::verify_of(
                    self@.signature.subrange(0, 64),
                    unsigned_enc(self@),
                    pk@,
                ),
            ),
    {
        let mut buf: Vec<u8> = Vec::new();
        self.to_bytes_unsigned(&mut buf);
        let sig = crate::bytesutil::copy_range(&self.signature, 0, 64);
        Ok(crate::keys::ed25519_verify(&sig, &buf, pk))
    }
}

/// A fluent builder for events: claims, deduplicated parents, and an
/// optional timestamp; `sign` materializes and signs the event.
pub struct EventBuilder {
    claims: Vec<Claim>,
    parents: Vec<Vec<u8>>,
    claimset: u8,
    at: Option<i64>,
    error: Option<ObjectStoreError>,
}

impl EventBuilder {
    /// Claims and parents are well formed and the claimset mirrors the
    /// accumulated claims.
    pub closed spec fn wf(self) -> bool {
        &&& forall|i: int| 0 <= i < self.parents@.len() ==> (#[trigger] self.parents@[i])@.len()
            == 32
        &&& forall|i: int| 0 <= i < self.claims@.len() ==> claim_wf((#[trigger] self.claims@[i])@)
        &&& self.claimset == claimset_of(cviews(self.claims@))
    }

    /// The first policy error recorded on this builder, if any.  The
    /// pre-sign policy hook is empty, so no operation records one yet;
    /// `sign` nonetheless surfaces a recorded error unchanged.
    pub closed spec fn error_spec(self) -> Option<ObjectStoreError> {
        self.error
    }

    pub closed spec fn claims_view(self) -> Seq<ClaimM> {
        cviews(self.claims@)
    }

    pub closed spec fn parents_view(self) -> Seq<Seq<u8>> {
        pviews(self.parents@)
    }

    pub closed spec fn at_spec(self) -> Option<i64> {
        self.at
    }

    pub fn new() -> (b: Self)
        ensures
            b.wf(),
            b.claims_view() == Seq::<ClaimM>::empty(),
            b.parents_view() == Seq::<Seq<u8>>::empty(),
            b.at_spec() is None,
            b.error_spec() is None,
    {
        let b = EventBuilder {
            claims: Vec::new(),
            at: None,
            parents: Vec::new(),
            claimset: 0,
            error: None,
        };
        proof {
            assert(cviews(b.claims@) =~= Seq::<ClaimM>::empty());
            assert(pviews(b.parents@) =~= Seq::<Seq<u8>>::empty());
        }
        b
    }

    /// Records a 32-byte parent address; a parent already recorded is
    /// kept once.
    #[verifier::loop_isolation(false)]
    pub fn parent(self, p: &Vec<u8>) -> (b: Self)
        requires
            self.wf(),
            p@.len() == 32,
        ensures
            b.wf(),
            b.claims_view() == self.claims_view(),
            b.at_spec() == self.at_spec(),
            b.error_spec() == self.error_spec(),
            b.parents_view() == if self.parents_view().contains(p@) {
                self.parents_view()
            } else {
                self.parents_view().push(p@)
            },
    {
        let mut this = self;
        let n = this.parents.len();
        let mut i: usize = 0;
        while i < n
            invariant
                i <= n,
                n == this.parents@.len(),
                this == self,
                forall|j: int| 0 <= j < i ==> (#[trigger] this.parents@[j])@ != p@,
            decreases n - i,
        {
            if crate::bytesutil::bytes_eq(&this.parents[i], p) {
                proof {
                    assert(pviews(this.parents@)[i as int] == p@);
                }
                return this;
            }
            i = i + 1;
        }
        proof {
            if pviews(this.parents@).contains(p@) {
                let j = choose|j: int|
                    0 <= j < pviews(this.parents@).len() && pviews(this.parents@)[j] == p@;
                assert(this.parents@[j]@ == p@);
            }
        }
        let p2 = crate::bytesutil::copy_range(p, 0, p.len());
        proof {
            assert(p2@ =~= p@);
        }
        this.parents.push(p2);
        proof {
            assert(pviews(this.parents@) =~= pviews(self.parents@).push(p@));
        }
        this
    }

    /// Sets the event timestamp.
    pub fn at(self, at: i64) -> (b: Self)
        requires
            self.wf(),
        ensures
            b.wf(),
            b.claims_view() == self.claims_view(),
            b.parents_view() == self.parents_view(),
            b.at_spec() == Some(at),
            b.error_spec() == self.error_spec(),
    {
        let mut this = self;
        this.at = Some(at);
        this
    }

    /// Appends a well-formed claim and sets its claimset bit.
    pub fn claim(self, c: Claim) -> (b: Self)
        requires
            self.wf(),
            claim_wf(c@),
        ensures
            b.wf(),
            b.claims_view() == self.claims_view().push(c@),
            b.parents_view() == self.parents_view(),
            b.at_spec() == self.at_spec(),
            b.error_spec() == self.error_spec(),
    {
        let mut this = self;
        let mask = c.bitmask();
        this.claimset = this.claimset | mask;
        this.claims.push(c);
        proof {
            assert(cviews(this.claims@) =~= cviews(self.claims@).push(c@));
            assert(cviews(this.claims@).drop_last() =~= cviews(self.claims@));
        }
        this
    }

    /// Materializes the event, serializes its unsigned form and signs it
    /// with `sk`.
    ///
    /// A policy error recorded on the builder is surfaced unchanged, and a
    /// signatory that is not UTF-8 is rejected; on every other input the
    /// signed event is returned.  It is well formed, its serialization
    /// parses back to the same event, and for a well-formed keypair its
    /// signature verifies under the public key derived from `sk`.  The
    /// store is the hook for future policy validation and is not
    /// consulted.
    pub fn sign<R: crate::multiple::ReadableStore>(
        self,
        signatory: Vec<u8>,
        sk: &Vec<u8>,
        _store: &R,
    ) -> (r: Result<Event, ObjectStoreError>)
        requires
            self.wf(),
            sk@.len() == 64,
        ensures
            r is Ok <==> self.error_spec() is None && valid_utf8(signatory@),
            match r {
                Ok(ev) => {
                    &&& event_wf(ev@)
                    &&& event_bounded(ev@)
                    &&& ev@.claims == self.claims_view()
                    &&& ev@.parents == self.parents_view()
                    &&& ev@.claimset == claimset_of(self.claims_view())
                    &&& (self.at_spec() matches Some(t) ==> ev@.at == t)
                    &&& ev@.signatory == signatory@
                    &&& ev@.signature == crate::keys::sig_of(unsigned_enc(ev@), sk@)
                    &&& ev@.signature.len() == 64
                    &&& (crate::keys::keypair_wf(sk@) ==> crate::keys::verify_of(
                        ev@.signature,
                        unsigned_enc(ev@),
                        crate::keys::pk_of(sk@),
                    ))
                    &&& event_dec(signed_enc(ev@)) == Ok::<EventM, ObjectStoreError>(ev@)
                },
                Err(e) => match self.error_spec() {
                    Some(e0) => e == e0,
                    None => e is InvalidUtf8 && !valid_utf8(signatory@),
                },
            },
    {
        match self.error {
            Some(e) => {
                return Err(e);
            },
            None => {},
        }
        if !utf8_check(&signatory) {
            return Err(ObjectStoreError::InvalidUtf8);
        }
        let at = match self.at {
            Some(t) => t,
            None => now_timestamp(),
        };
        let mut event = Event {
            claimset: self.claimset,
            at,
            claims: self.claims,
            parents: self.parents,
            signatory,
            signature: Vec::new(),
        };
        let mut buf: Vec<u8> = Vec::new();
        event.to_bytes_unsigned(&mut buf);
        let sig = crate::keys::ed25519_sign(&buf, sk);
        event.signature = sig;
        proof {
            assert(event_wf(event@));
            assert(buf.len() == buf@.len());
            assert(event.parents.len() == event.parents@.len());
            assert(event.claims.len() == event.claims@.len());
            assert(event@.parents.len() == event.parents@.len());
            assert(event@.claims.len() == event.claims@.len());
            assert forall|i: int| 0 <= i < event@.claims.len() implies claim_enc(
                #[trigger] event@.claims[i],
            ).len() <= u64::MAX by {
                lemma_claims_enc_bounds(event@.claims, i);
                assert(claims_enc(event@.claims).len() <= unsigned_enc(event@).len());
            };
            assert(event_bounded(event@));
            lemma_event_roundtrip(event@);
        }
        Ok(event)
    }
}


/// The event stored in `m` under address `a`, when `a` names an event
/// envelope whose payload parses.
pub open spec fn stored_event(m: Map<Seq<u8>, crate::envelope::EnvModel>, a: Seq<u8>) -> Option<
    EventM,
> {
    if m.contains_key(a) && m[a].kind is Event {
        match event_dec(m[a].payload) {
            Ok(e) => Some(e),
            Err(_) => None,
        }
    } else {
        None
    }
}

/// A store is time-monotone when no stored event has a stored parent event
/// with a later timestamp.
pub open spec fn store_monotone(m: Map<Seq<u8>, crate::envelope::EnvModel>) -> bool {
    forall|a: Seq<u8>, p: Seq<u8>|
        match (#[trigger] stored_event(m, a), #[trigger] stored_event(m, p)) {
            (Some(e), Some(pe)) => e.parents.contains(p) ==> pe.at <= e.at,
            _ => true,
        }
}

/// Parents read back by the codec are always 32-byte addresses.
pub proof fn lemma_parents_dec_len32(s: Seq<u8>, pos: nat, n: nat)
    ensures
        parents_dec(s, pos, n) matches Ok(pr) ==> forall|i: int|
            0 <= i < pr.0.len() ==> (#[trigger] pr.0[i]).len() == 32,
    decreases n,
{
    if n > 0 && pos + 32 <= s.len() {
        lemma_parents_dec_len32(s, (pos + 32) as nat, (n - 1) as nat);
    }
}

/// A parsed event carries only 32-byte parent addresses.
pub proof fn lemma_event_dec_parents(s: Seq<u8>)
    ensures
        event_dec(s) matches Ok(e) ==> forall|i: int|
            0 <= i < e.parents.len() ==> (#[trigger] e.parents[i]).len() == 32,
{
    if s.len() >= 9 {
        if let Some((pn, pc)) = varint_dec(s.skip(9)) {
            lemma_parents_dec_len32(s, (9 + pc) as nat, pn);
        }
    }
}

/// An address paired with the event it names.
pub struct IdEvent(pub Vec<u8>, pub Event);

/// Inserts a pending entry before the first strictly newer one, so the
/// timestamp-sorted pending list stays sorted and a tie goes after the
/// entries already present.
pub open spec fn insert_pending(
    pend: Seq<(Seq<u8>, EventM)>,
    x: (Seq<u8>, EventM),
) -> Seq<(Seq<u8>, EventM)>
    decreases pend.len(),
{
    if pend.len() == 0 || pend.last().1.at <= x.1.at {
        pend.push(x)
    } else {
        insert_pending(pend.drop_last(), x).push(pend.last())
    }
}

/// One parent processed: an already-seen address is skipped; an address
/// holding an event envelope is marked seen and, when its payload parses,
/// enqueued; an absent address or one holding another envelope kind is
/// skipped.
pub open spec fn walk_step(
    m: Map<Seq<u8>, crate::envelope::EnvModel>,
    seen: Seq<Seq<u8>>,
    pend: Seq<(Seq<u8>, EventM)>,
    p: Seq<u8>,
) -> (Seq<Seq<u8>>, Seq<(Seq<u8>, EventM)>) {
    if seen.contains(p) {
        (seen, pend)
    } else if m.contains_key(p) && m[p].kind is Event {
        match event_dec(m[p].payload) {
            Ok(pe) => (seen.push(p), insert_pending(pend, (p, pe))),
            Err(_) => (seen.push(p), pend),
        }
    } else {
        (seen, pend)
    }
}

/// A popped event's parents processed left to right: the seen set and
/// pending list that one `next` call leaves behind on an error-free store.
pub open spec fn walk_parents(
    m: Map<Seq<u8>, crate::envelope::EnvModel>,
    seen: Seq<Seq<u8>>,
    pend: Seq<(Seq<u8>, EventM)>,
    parents: Seq<Seq<u8>>,
) -> (Seq<Seq<u8>>, Seq<(Seq<u8>, EventM)>)
    decreases parents.len(),
{
    if parents.len() == 0 {
        (seen, pend)
    } else {
        let sp = walk_step(m, seen, pend, parents.first());
        walk_parents(m, sp.0, sp.1, parents.drop_first())
    }
}

/// Walking one more parent is one more step after the walk so far.
proof fn lemma_walk_parents_snoc(
    m: Map<Seq<u8>, crate::envelope::EnvModel>,
    seen: Seq<Seq<u8>>,
    pend: Seq<(Seq<u8>, EventM)>,
    xs: Seq<Seq<u8>>,
    y: Seq<u8>,
)
    ensures
        walk_parents(m, seen, pend, xs.push(y)) == ({
            let w = walk_parents(m, seen, pend, xs);
            walk_step(m, w.0, w.1, y)
        }),
    decreases xs.len(),
{
    if xs.len() == 0 {
        let sp = walk_step(m, seen, pend, y);
        assert(xs.push(y).first() == y);
        assert(xs.push(y).drop_first() =~= Seq::<Seq<u8>>::empty());
        assert(walk_parents(m, sp.0, sp.1, xs.push(y).drop_first()) == (sp.0, sp.1));
        assert(sp == (sp.0, sp.1));
        assert(walk_parents(m, seen, pend, xs) == (seen, pend));
    } else {
        assert(xs.push(y).first() == xs.first());
        assert(xs.push(y).drop_first() =~= xs.drop_first().push(y));
        let sp = walk_step(m, seen, pend, xs.first());
        lemma_walk_parents_snoc(m, sp.0, sp.1, xs.drop_first(), y);
    }
}

/// The recursive pending insertion lands exactly at the position the
/// sorted-insert loop finds: after every entry at most as new, before
/// every strictly newer one.
proof fn lemma_insert_pending_at(pend: Seq<(Seq<u8>, EventM)>, x: (Seq<u8>, EventM), pos: int)
    requires
        0 <= pos <= pend.len(),
        forall|k: int| pos <= k < pend.len() ==> (#[trigger] pend[k]).1.at > x.1.at,
        pos > 0 ==> pend[pos - 1].1.at <= x.1.at,
    ensures
        insert_pending(pend, x) == pend.insert(pos, x),
    decreases pend.len(),
{
    if pos == pend.len() {
        assert(pend.insert(pos, x) =~= pend.push(x));
    } else {
        assert(pend[pend.len() - 1].1.at > x.1.at);
        lemma_insert_pending_at(pend.drop_last(), x, pos);
        assert(insert_pending(pend, x) == insert_pending(pend.drop_last(), x).push(pend.last()));
        assert(pend.drop_last().insert(pos, x).push(pend.last()) =~= pend.insert(pos, x));
    }
}

/// Lazy traversal of an event's ancestors, newest timestamp first.
///
/// A max-ordered pending list holds fetched events; popping the newest
/// fetches its not-yet-seen parents from the composite store.  On a
/// time-monotone store the emitted timestamps never increase.
pub struct EventIterator<'a, R: crate::multiple::ReadableStore> {
    store: &'a R,
    seen: Vec<Vec<u8>>,
    target: Vec<IdEvent>,
    last: Ghost<Option<i64>>,
}

impl<'a, R: crate::multiple::ReadableStore> EventIterator<'a, R> {
    /// The backing store is well formed and time-monotone; pending events
    /// are stored events under their address, sorted by timestamp with the
    /// newest last, and none is newer than the last emitted event.
    pub closed spec fn wf(self) -> bool {
        &&& self.store.inv()
        &&& store_monotone(self.store.env_map())
        &&& forall|i: int, j: int|
            0 <= i < j < self.target@.len() ==> (#[trigger] self.target@[i]).1@.at <= (
            #[trigger] self.target@[j]).1@.at
        &&& forall|i: int|
            0 <= i < self.target@.len() ==> stored_event(
                self.store.env_map(),
                (#[trigger] self.target@[i]).0@,
            ) == Some(self.target@[i].1@)
        &&& forall|i: int| 0 <= i < self.target@.len() ==> (#[trigger] self.target@[i]).0@.len()
            == 32
        &&& match self.last@ {
            Some(t) => forall|i: int|
                0 <= i < self.target@.len() ==> (#[trigger] self.target@[i]).1@.at <= t,
            None => true,
        }
    }

    /// The timestamp of the most recently emitted event, if any.
    pub closed spec fn last_at(self) -> Option<i64> {
        self.last@
    }

    /// The envelopes the backing store serves.
    pub closed spec fn store_map(self) -> Map<Seq<u8>, crate::envelope::EnvModel> {
        self.store.env_map()
    }

    /// Whether the backing store is error-free, so every parent fetch
    /// succeeds and `next` behaves as `walk_parents` says.
    pub closed spec fn store_err_free(self) -> bool {
        self.store.err_free()
    }

    /// The pending entries awaiting emission, oldest timestamp first: each
    /// is an address with the event stored under it.
    pub closed spec fn pending(self) -> Seq<(Seq<u8>, EventM)> {
        self.target@.map_values(|x: IdEvent| (x.0@, x.1@))
    }

    /// The addresses already fetched as parents, never fetched again.
    pub closed spec fn seen_ids(self) -> Seq<Seq<u8>> {
        pviews(self.seen@)
    }

    /// Starts a traversal from one stored event: it is the only pending
    /// entry and nothing is seen yet.
    pub fn new(store: &'a R, addr: Vec<u8>, event: Event) -> (it: Self)
        requires
            store.inv(),
            store_monotone(store.env_map()),
            stored_event(store.env_map(), addr@) == Some(event@),
            addr@.len() == 32,
        ensures
            it.wf(),
            it.last_at() is None,
            it.pending() == seq![(addr@, event@)],
            it.seen_ids() == Seq::<Seq<u8>>::empty(),
            it.store_map() == store.env_map(),
            it.store_err_free() == store.err_free(),
    {
        let ghost a = addr@;
        let ghost em = event@;
        let mut target: Vec<IdEvent> = Vec::new();
        target.push(IdEvent(addr, event));
        let it = EventIterator { store, seen: Vec::new(), target, last: Ghost(None) };
        proof {
            assert(it.pending() =~= seq![(a, em)]);
            assert(it.seen_ids() =~= Seq::<Seq<u8>>::empty());
        }
        it
    }

    /// Pops the newest pending event, fetches its unseen parents, and
    /// returns the event with its address.
    ///
    /// `None` comes exactly when nothing is pending, and changes nothing.
    /// Otherwise the newest pending entry is returned and removed, and on
    /// an error-free store the seen set and pending list afterwards are
    /// exactly `walk_parents` of its parents: each unseen stored parent
    /// event is marked seen and enqueued in timestamp order.
    ///
    /// DAG ordering: the timestamps of successive results never increase.
    #[verifier::loop_isolation(false)]
    #[verifier::rlimit(60)]
    pub fn next(&mut self) -> (r: Option<(Vec<u8>, Event)>)
        requires
            old(self).wf(),
        ensures
            final(self).wf(),
            final(self).store_map() == old(self).store_map(),
            final(self).store_err_free() == old(self).store_err_free(),
            r is None <==> old(self).pending().len() == 0,
            match r {
                Some(ae) => {
                    &&& (ae.0@, ae.1@) == old(self).pending().last()
                    &&& (old(self).last_at() matches Some(t) ==> ae.1@.at <= t)
                    &&& final(self).last_at() == Some(ae.1@.at)
                    &&& stored_event(final(self).store_map(), ae.0@) == Some(ae.1@)
                    &&& (old(self).store_err_free()
                        ==> (final(self).seen_ids(), final(self).pending()) == walk_parents(
                        old(self).store_map(),
                        old(self).seen_ids(),
                        old(self).pending().drop_last(),
                        ae.1@.parents,
                    ))
                },
                None => {
                    &&& final(self).pending() == old(self).pending()
                    &&& final(self).seen_ids() == old(self).seen_ids()
                    &&& final(self).last_at() == old(self).last_at()
                },
            },
    {
        let ghost m = old(self).store.env_map();
        let ghost seen0 = pviews(old(self).seen@);
        let newest = match self.target.pop() {
            Some(x) => x,
            None => {
                return None;
            },
        };
        let ghost pend0 = self.pending();
        let IdEvent(addr, ev) = newest;
        let ghost em = ev@;
        proof {
            assert(old(self).pending().last() == (addr@, em));
            assert(pend0 =~= old(self).pending().drop_last());
            assert(stored_event(self.store.env_map(), addr@) == Some(em));
            lemma_event_dec_parents(self.store.env_map()[addr@].payload);
        }
        let n = ev.parents.len();
        let mut pi: usize = 0;
        while pi < n
            invariant
                pi <= n,
                n == ev.parents@.len(),
                ev@ == em,
                self.store == old(self).store,
                self.last == old(self).last,
                old(self).store.err_free() ==> pviews(self.seen@) == walk_parents(
                    m,
                    seen0,
                    pend0,
                    em.parents.subrange(0, pi as int),
                ).0,
                old(self).store.err_free() ==> self.pending() == walk_parents(
                    m,
                    seen0,
                    pend0,
                    em.parents.subrange(0, pi as int),
                ).1,
                forall|i: int, j: int|
                    0 <= i < j < self.target@.len() ==> (#[trigger] self.target@[i]).1@.at <= (
                    #[trigger] self.target@[j]).1@.at,
                forall|i: int|
                    0 <= i < self.target@.len() ==> stored_event(
                        self.store.env_map(),
                        (#[trigger] self.target@[i]).0@,
                    ) == Some(self.target@[i].1@),
                forall|i: int|
                    0 <= i < self.target@.len() ==> (#[trigger] self.target@[i]).0@.len() == 32,
                forall|i: int|
                    0 <= i < self.target@.len() ==> (#[trigger] self.target@[i]).1@.at <= em.at,
            decreases n - pi,
        {
            let pid = &ev.parents[pi];
            let ghost seen_pre = pviews(self.seen@);
            let ghost pend_pre = self.pending();
            let ghost stepped = walk_step(m, seen_pre, pend_pre, pid@);
            proof {
                assert(em.parents[pi as int] == pid@);
                assert(em.parents.contains(pid@));
            }
            if !seen_contains(&self.seen, pid) {
                match self.store.get_sync(pid) {
                    Ok(Some(Envelope::Event(bytes))) => {
                        let parent_copy = crate::bytesutil::copy_range(pid, 0, pid.len());
                        self.seen.push(parent_copy);
                        proof {
                            assert(parent_copy@ =~= pid@);
                            assert(pviews(self.seen@) =~= seen_pre.push(pid@));
                        }
                        match Event::from_bytes(&bytes) {
                            Ok(pev) => {
                                let id2 = crate::bytesutil::copy_range(pid, 0, pid.len());
                                proof {
                                    assert(id2@ =~= pid@);
                                    assert(stored_event(self.store.env_map(), pid@) == Some(
                                        pev@,
                                    ));
                                    assert(pev@.at <= em.at);
                                }
                                let new_item = IdEvent(id2, pev);
                                let ghost itemg = new_item;
                                let ghost pre = self.target@;
                                self.push_sorted(new_item);
                                proof {
                                    assert forall|i: int|
                                        0 <= i < self.target@.len() implies {
                                        &&& stored_event(
                                            self.store.env_map(),
                                            (#[trigger] self.target@[i]).0@,
                                        ) == Some(self.target@[i].1@)
                                        &&& self.target@[i].0@.len() == 32
                                        &&& self.target@[i].1@.at <= em.at
                                    } by {
                                        let x = self.target@[i];
                                        if x == itemg {
                                            assert(x.0@ == itemg.0@ && x.1 == itemg.1);
                                        } else {
                                            assert(pre.contains(x));
                                            let j = choose|j: int|
                                                0 <= j < pre.len() && pre[j] == x;
                                        }
                                    };
                                    assert(self.pending() == insert_pending(
                                        pend_pre,
                                        (pid@, pev@),
                                    ));
                                    assert(event_dec(m[pid@].payload) == Ok::<
                                        EventM,
                                        ObjectStoreError,
                                    >(pev@));
                                    assert((pviews(self.seen@), self.pending()) == stepped);
                                }
                            },
                            Err(_) => {
                                proof {
                                    assert(event_dec(m[pid@].payload) is Err);
                                    assert((pviews(self.seen@), self.pending()) == stepped);
                                }
                            },
                        }
                    },
                    Ok(Some(env2)) => {
                        proof {
                            match env2 {
                                Envelope::Blob(_) => {
                                    assert(!(m[pid@].kind is Event));
                                },
                                Envelope::Version(_) => {
                                    assert(!(m[pid@].kind is Event));
                                },
                                Envelope::Event(_) => {
                                    assert(false);
                                },
                            }
                            assert((pviews(self.seen@), self.pending()) == stepped);
                        }
                    },
                    Ok(None) => {
                        proof {
                            assert(!m.contains_key(pid@));
                            assert((pviews(self.seen@), self.pending()) == stepped);
                        }
                    },
                    Err(_) => {
                        proof {
                            assert(!old(self).store.err_free());
                        }
                    },
                }
            } else {
                proof {
                    assert(seen_pre.contains(pid@));
                    assert((pviews(self.seen@), self.pending()) == stepped);
                }
            }
            proof {
                if old(self).store.err_free() {
                    assert(em.parents.subrange(0, pi as int).push(em.parents[pi as int])
                        =~= em.parents.subrange(0, pi + 1));
                    lemma_walk_parents_snoc(
                        m,
                        seen0,
                        pend0,
                        em.parents.subrange(0, pi as int),
                        em.parents[pi as int],
                    );
                    assert((pviews(self.seen@), self.pending()) == walk_step(
                        m,
                        seen_pre,
                        pend_pre,
                        pid@,
                    ));
                }
            }
            pi = pi + 1;
        }
        proof {
            assert(em.parents.subrange(0, n as int) =~= em.parents);
            self.last@ = Some(em.at);
        }
        Some((addr, ev))
    }

    /// Inserts a pending event before the first strictly newer one, so the
    /// list stays sorted and ties pop in a fixed order.
    #[verifier::loop_isolation(false)]
    fn push_sorted(&mut self, item: IdEvent)
        requires
            forall|i: int, j: int|
                0 <= i < j < old(self).target@.len() ==> (#[trigger] old(self).target@[i]).1@.at
                    <= (#[trigger] old(self).target@[j]).1@.at,
        ensures
            final(self).store == old(self).store,
            final(self).seen == old(self).seen,
            final(self).last == old(self).last,
            final(self).target@.len() == old(self).target@.len() + 1,
            final(self).pending() == insert_pending(old(self).pending(), (item.0@, item.1@)),
            forall|i: int, j: int|
                0 <= i < j < final(self).target@.len()
                    ==> (#[trigger] final(self).target@[i]).1@.at
                    <= (#[trigger] final(self).target@[j]).1@.at,
            forall|i: int|
                0 <= i < final(self).target@.len() ==> (#[trigger] final(self).target@[i]) == item
                    || old(self).target@.contains(final(self).target@[i]),
        decreases old(self).target@.len(),
    {
        let n = self.target.len();
        let mut pos: usize = n;
        while pos > 0 && self.target[pos - 1].1.at > item.1.at
            invariant
                pos <= n,
                forall|i: int| pos <= i < n ==> (#[trigger] self.target@[i]).1@.at > item.1@.at,
                self == old(self),
            decreases pos,
        {
            pos = pos - 1;
        }
        proof {
            if pos > 0 {
                assert(self.target@[pos - 1].1@.at <= item.1@.at);
            }
        }
        self.target.insert(pos, item);
        proof {
            let pend = old(self).pending();
            assert forall|k: int| pos <= k < pend.len() implies (#[trigger] pend[k]).1.at
                > item.1@.at by {
                assert(pend[k] == (old(self).target@[k].0@, old(self).target@[k].1@));
            };
            if pos > 0 {
                assert(pend[pos - 1] == (old(self).target@[pos - 1].0@, old(
                    self,
                ).target@[pos - 1].1@));
            }
            lemma_insert_pending_at(pend, (item.0@, item.1@), pos as int);
            assert(self.pending() =~= pend.insert(pos as int, (item.0@, item.1@)));
        }
    }
}

/// A helper for the seen set: whether an address is already recorded.
fn seen_contains(seen: &Vec<Vec<u8>>, a: &Vec<u8>) -> (r: bool)
    ensures
        r <==> pviews(seen@).contains(a@),
{
    let mut i: usize = 0;
    let n = seen.len();
    while i < n
        invariant
            i <= n,
            n == seen@.len(),
            forall|j: int| 0 <= j < i ==> (#[trigger] seen@[j])@ != a@,
        decreases n - i,
    {
        if crate::bytesutil::bytes_eq(&seen[i], a) {
            proof {
                assert(pviews(seen@)[i as int] == a@);
            }
            return true;
        }
        i = i + 1;
    }
    proof {
        if pviews(seen@).contains(a@) {
            let j = choose|j: int| 0 <= j < pviews(seen@).len() && pviews(seen@)[j] == a@;
            assert(seen@[j]@ == a@);
        }
    }
    false
}


/// Replaces an event's signature.
pub open spec fn with_signature(e: EventM, sig: Seq<u8>) -> EventM {
    EventM {
        claimset: e.claimset,
        at: e.at,
        claims: e.claims,
        parents: e.parents,
        signatory: e.signatory,
        signature: sig,
    }
}

/// Sign/verify round-trip: signing a well-formed event, serializing the
/// signed form and parsing it back yields an event whose signature
/// verifies under the public key that belongs to the signing key.
///
/// The last two premises are what the signing primitive guarantees of
/// every signature it produces with a well-formed keypair: Ed25519
/// accepts a fresh detached signature under the matching public key, and
/// signatures are 64 bytes.
pub proof fn lemma_sign_verify_roundtrip(e: EventM, sk: Seq<u8>)
    requires
        event_wf(e),
        event_bounded(e),
        crate::keys::verify_of(
            crate::keys::sig_of(unsigned_enc(e), sk),
            unsigned_enc(e),
            crate::keys::pk_of(sk),
        ),
        crate::keys::sig_of(unsigned_enc(e), sk).len() == 64,
    ensures
        ({
            let signed = with_signature(e, crate::keys::sig_of(unsigned_enc(e), sk));
            &&& event_dec(signed_enc(signed)) == Ok::<EventM, ObjectStoreError>(signed)
            &&& crate::keys::verify_of(
                signed.signature.subrange(0, 64),
                unsigned_enc(signed),
                crate::keys::pk_of(sk),
            )
        }),
{
    let sig = crate::keys::sig_of(unsigned_enc(e), sk);
    let signed = with_signature(e, sig);
    assert(unsigned_enc(signed) == unsigned_enc(e));
    assert(event_wf(signed));
    assert(event_bounded(signed));
    lemma_event_roundtrip(signed);
    assert(signed.signature.subrange(0, 64) =~= sig);
}

} // verus!
