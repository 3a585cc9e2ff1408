//! The packed store: a pack file of size-and-type framed, zlib-deflated
//! records, and a fanout-plus-sorted-addresses index for point lookup.

use vstd::prelude::*;

use crate::bytesutil::{bytes_lt, ByteCmp};
use crate::envelope::{EnvKind, EnvModel, Envelope};
use crate::errors::ObjectStoreError;
use crate::numcodec::{read_u32, u32_of_be};
use crate::object::Object;
use crate::varint::{lemma_varint_enc_dec, read_varint, varint_dec, varint_enc};
use crate::zlib::{inflate_of, zlib_inflate};

verus! {

/// The record header: the first byte packs the type into bits 4..6, the
/// low four size bits into bits 0..3, and a continuation marker into bit
/// 7; the remaining size bits follow as a varint of `size / 16`.
pub open spec fn pack_header_enc(t: u8, size: nat) -> Seq<u8>
    recommends
        t < 8,
{
    let first = ((if size >= 16 {
        128int
    } else {
        0int
    }) + t * 16 + (size % 16)) as u8;
    if size >= 16 {
        seq![first] + varint_enc(size / 16)
    } else {
        seq![first]
    }
}

/// Reading a record header: the type, declared size and bytes consumed.
pub open spec fn pack_header_dec(s: Seq<u8>) -> Option<(u8, nat, nat)> {
    if s.len() == 0 {
        None
    } else {
        let b = s[0];
        let t = ((b / 16) % 8) as u8;
        let lo = (b % 16) as nat;
        if b < 128 {
            Some((t, lo, 1))
        } else {
            match varint_dec(s.skip(1)) {
                None => None,
                Some((v, c)) => Some((t, (lo + 16 * v) as nat, (c + 1) as nat)),
            }
        }
    }
}

/// A written record header reads back as the same type and size.
pub proof fn lemma_pack_header_roundtrip(t: u8, size: nat, rest: Seq<u8>)
    requires
        t < 8,
    ensures
        pack_header_dec(pack_header_enc(t, size) + rest) == Some(
            (t, size, pack_header_enc(t, size).len() as nat),
        ),
{
    let e = pack_header_enc(t, size);
    let s = e + rest;
    let m = size % 16;
    if size >= 16 {
        let b = (128 + t * 16 + m) as u8;
        assert(s[0] == b);
        assert(b as int == 16 * (8 + t) + m);
        vstd::arithmetic::div_mod::lemma_fundamental_div_mod_converse(
            b as int,
            16,
            8 + t,
            m as int,
        );
        assert(b / 16 == 8 + t);
        assert((b / 16) % 8 == t as int) by {
            vstd::arithmetic::div_mod::lemma_fundamental_div_mod_converse(
                8 + t,
                8,
                1,
                t as int,
            );
        };
        assert(b >= 128);
        assert(s.skip(1) =~= varint_enc(size / 16) + rest);
        lemma_varint_enc_dec(size / 16, rest);
        assert(varint_dec(s.skip(1)) == Some((size / 16, varint_enc(size / 16).len() as nat)));
        vstd::arithmetic::div_mod::lemma_fundamental_div_mod(size as int, 16);
        assert((b % 16) + 16 * (size / 16) == size);
    } else {
        let b = (t * 16 + m) as u8;
        assert(s[0] == b);
        assert(b as int == 16 * t + m);
        vstd::arithmetic::div_mod::lemma_fundamental_div_mod_converse(
            b as int,
            16,
            t as int,
            m as int,
        );
        assert(b / 16 == t as int);
        assert((b / 16) % 8 == t as int) by {
            vstd::arithmetic::div_mod::lemma_fundamental_div_mod_converse(
                t as int,
                8,
                0,
                t as int,
            );
        };
        assert(b < 128);
        assert(m == size);
    }
}

/// What one record slice means: header, then a zlib stream whose inflation
/// must be exactly the declared size; types above 4 are rejected, and a
/// declared size beyond 64 bits cannot match any payload.
pub open spec fn record_parse(s: Seq<u8>) -> Result<(u8, Seq<u8>), ObjectStoreError> {
    match pack_header_dec(s) {
        None => Err(ObjectStoreError::Truncated),
        Some((t, size, c)) => if size > u64::MAX {
            Err(ObjectStoreError::LengthMismatch)
        } else if t >= 5 {
            Err(ObjectStoreError::ItemTypeParseError)
        } else {
            match inflate_of(s.skip(c as int)) {
                None => Err(ObjectStoreError::CompressionError),
                Some(p) => if p.len() == size {
                    Ok((t, p))
                } else {
                    Err(ObjectStoreError::LengthMismatch)
                },
            }
        },
    }
}

/// Reads one record from a slice of the pack: the size-and-type header,
/// then the inflated payload, which must have exactly the declared size.
pub fn packfile_read(input: &Vec<u8>) -> (r: Result<(u8, Vec<u8>), ObjectStoreError>)
    ensures
        match r {
            Ok((t, p)) => record_parse(input@) == Ok::<(u8, Seq<u8>), ObjectStoreError>((t, p@)),
            Err(e) => record_parse(input@) == Err::<(u8, Seq<u8>), ObjectStoreError>(e),
        },
{
    let len = input.len();
    if len == 0 {
        return Err(ObjectStoreError::Truncated);
    }
    let b = input[0];
    let t = (b / 16) % 8;
    let lo = (b % 16) as u64;
    let (size, c): (u64, usize) = if b >= 128 {
        proof {
            assert(input@.skip(0).skip(1) =~= input@.skip(1));
        }
        match read_varint(input, 1) {
            Ok((v, c)) => {
                if v > (u64::MAX - lo) / 16 {
                    proof {
                        assert(lo + 16 * (v as nat) > u64::MAX) by (nonlinear_arith)
                            requires
                                v > (u64::MAX - lo) / 16,
                                lo < 16,
                        ;
                    }
                    return Err(ObjectStoreError::LengthMismatch);
                }
                proof {
                    assert(16 * (v as nat) <= u64::MAX - lo) by (nonlinear_arith)
                        requires
                            v <= (u64::MAX - lo) / 16,
                            lo < 16,
                    ;
                }
                (lo + 16 * v, c)
            },
            Err(e) => {
                return Err(e);
            },
        }
    } else {
        (lo, 1)
    };
    if t >= 5 {
        return Err(ObjectStoreError::ItemTypeParseError);
    }
    let ztail = crate::bytesutil::copy_range(input, c, len);
    proof {
        assert(ztail@ =~= input@.skip(c as int));
    }
    match zlib_inflate(&ztail) {
        Err(_) => Err(ObjectStoreError::CompressionError),
        Ok(p) => {
            let plen = p.len();
            if plen as u64 == size {
                Ok((t, p))
            } else {
                Err(ObjectStoreError::LengthMismatch)
            }
        },
    }
}

/// The three index sections after the header: the 256-entry fanout, the
/// sorted addresses, and their pack offsets.
pub struct IdxModel {
    pub fanout: Seq<u32>,
    pub ids: Seq<Seq<u8>>,
    pub offsets: Seq<u32>,
}

/// What index bytes mean: magic `EIDX`, big-endian version 0, a 256-entry
/// big-endian fanout whose last entry counts the objects, then the 32-byte
/// addresses and the 4-byte offsets.
pub open spec fn idx_parse(s: Seq<u8>) -> Result<IdxModel, ObjectStoreError> {
    if s.len() < 8 {
        Err(ObjectStoreError::Truncated)
    } else if s.subrange(0, 4) != seq![69u8, 73u8, 68u8, 88u8] {
        Err(ObjectStoreError::BadMagic)
    } else if s.subrange(4, 8) != seq![0u8, 0u8, 0u8, 0u8] {
        Err(ObjectStoreError::UnsupportedVersion)
    } else if s.len() < 8 + 1024 {
        Err(ObjectStoreError::Truncated)
    } else {
        let fanout = Seq::new(
            256,
            |b: int| u32_of_be(s[8 + 4 * b], s[9 + 4 * b], s[10 + 4 * b], s[11 + 4 * b]),
        );
        let n = fanout[255] as nat;
        if s.len() < 1032 + n * 36 {
            Err(ObjectStoreError::Truncated)
        } else {
            let ids = Seq::new(n, |i: int| s.subrange(1032 + 32 * i, 1064 + 32 * i));
            let ob = 1032 + 32 * n;
            let offsets = Seq::new(
                n,
                |i: int| u32_of_be(
                    s[ob + 4 * i],
                    s[ob + 4 * i + 1],
                    s[ob + 4 * i + 2],
                    s[ob + 4 * i + 3],
                ),
            );
            Ok(IdxModel { fanout, ids, offsets })
        }
    }
}

/// The least offset strictly greater than `x`, if any offset is.
pub open spec fn min_greater(s: Seq<u64>, x: u64) -> Option<u64>
    decreases s.len(),
{
    if s.len() == 0 {
        None
    } else {
        let m = min_greater(s.drop_last(), x);
        if s.last() > x {
            match m {
                None => Some(s.last()),
                Some(v) => if s.last() < v {
                    Some(s.last())
                } else {
                    Some(v)
                },
            }
        } else {
            m
        }
    }
}

/// The in-memory pack index: fanout, sorted addresses, offsets, the
/// precomputed end-bound chain, and the pack length used as the bound of
/// the record that starts last.
pub struct PackedIndex {
    fanout: Vec<u32>,
    ids: Vec<Vec<u8>>,
    offsets: Vec<u64>,
    next_offsets_indices: Vec<usize>,
    pack_len: u64,
}

impl PackedIndex {
    pub closed spec fn ids_view(self) -> Seq<Seq<u8>> {
        crate::event::pviews(self.ids@)
    }

    pub closed spec fn offsets_view(self) -> Seq<u64> {
        self.offsets@
    }

    pub closed spec fn fanout_view(self) -> Seq<u32> {
        self.fanout@
    }

    pub closed spec fn pack_len_spec(self) -> u64 {
        self.pack_len
    }

    /// The read bound of the record starting at `offsets[i]`: the next
    /// larger offset, or the pack length when none is.
    pub open spec fn end_of(self, i: int) -> u64 {
        match min_greater(self.offsets_view(), self.offsets_view()[i]) {
            Some(v) => v,
            None => self.pack_len_spec(),
        }
    }

    /// A structurally sound index: addresses are 32 bytes, strictly
    /// ascending, the fanout brackets them by first byte, and offsets
    /// stay within the pack.
    pub open spec fn swf(self) -> bool {
        &&& self.fanout_view().len() == 256
        &&& self.ids_view().len() == self.offsets_view().len()
        &&& self.ids_view().len() == self.fanout_view()[255]
        &&& forall|i: int| 0 <= i < self.ids_view().len() ==> (#[trigger] self.ids_view()[i]).len()
            == 32
        &&& forall|i: int, j: int|
            0 <= i < j < self.ids_view().len() ==> bytes_lt(
                self.ids_view()[i],
                self.ids_view()[j],
            )
        &&& forall|b: int, i: int|
            0 <= b < 256 && 0 <= i < self.ids_view().len() ==> {
                &&& (i < #[trigger] self.fanout_view()[b] ==> (
                #[trigger] self.ids_view()[i])[0] <= b)
                &&& (i >= self.fanout_view()[b] ==> self.ids_view()[i][0] > b)
            }
        &&& forall|i: int| 0 <= i < self.offsets_view().len() ==> (
        #[trigger] self.offsets_view()[i]) <= self.pack_len_spec()
    }
}


impl PackedIndex {
    /// Length consistency and a sound end-bound chain: each entry's
    /// successor index either marks "none larger" or names an entry whose
    /// offset is the least one above its own.
    pub closed spec fn links_wf(self) -> bool {
        &&& self.fanout@.len() == 256
        &&& self.offsets@.len() == self.ids@.len()
        &&& self.next_offsets_indices@.len() == self.ids@.len()
        &&& forall|i: int|
            0 <= i < self.ids@.len() ==> {
                let ni = #[trigger] self.next_offsets_indices@[i];
                if ni < self.ids@.len() {
                    min_greater(self.offsets@, self.offsets@[i]) == Some(self.offsets@[ni as int])
                } else {
                    min_greater(self.offsets@, self.offsets@[i]) is None
                }
            }
    }

    /// Parses index bytes.
    ///
    /// A file shorter than its declared contents fails with `Truncated`, a
    /// magic other than `EIDX` with `BadMagic`, and a version other than 0
    /// with `UnsupportedVersion`.  `pack_len` is the length of the sibling
    /// pack file, used as the final read bound.
    #[verifier::loop_isolation(false)]
    #[verifier::rlimit(100)]
    pub fn from(data: &Vec<u8>, pack_len: u64) -> (r: Result<PackedIndex, ObjectStoreError>)
        ensures
            match r {
                Ok(ix) => {
                    &&& idx_parse(data@) matches Ok(m)
                    &&& ix.fanout_view() == idx_parse(data@).unwrap().fanout
                    &&& ix.ids_view() == idx_parse(data@).unwrap().ids
                    &&& ix.offsets_view() == idx_parse(data@).unwrap().offsets.map_values(
                        |o: u32| o as u64,
                    )
                    &&& ix.pack_len_spec() == pack_len
                    &&& ix.links_wf()
                },
                Err(e) => idx_parse(data@) == Err::<IdxModel, ObjectStoreError>(e),
            },
    {
        let len = data.len();
        if len < 8 {
            return Err(ObjectStoreError::Truncated);
        }
        if !(data[0] == 69 && data[1] == 73 && data[2] == 68 && data[3] == 88) {
            proof {
                assert(data@.subrange(0, 4) != seq![69u8, 73u8, 68u8, 88u8]) by {
                    if data@.subrange(0, 4) == seq![69u8, 73u8, 68u8, 88u8] {
                        assert(data@.subrange(0, 4)[0] == 69 && data@.subrange(0, 4)[1] == 73
                            && data@.subrange(0, 4)[2] == 68 && data@.subrange(0, 4)[3] == 88);
                    }
                };
            }
            return Err(ObjectStoreError::BadMagic);
        }
        proof {
            assert(data@.subrange(0, 4) =~= seq![69u8, 73u8, 68u8, 88u8]);
        }
        if !(data[4] == 0 && data[5] == 0 && data[6] == 0 && data[7] == 0) {
            proof {
                assert(data@.subrange(4, 8) != seq![0u8, 0u8, 0u8, 0u8]) by {
                    if data@.subrange(4, 8) == seq![0u8, 0u8, 0u8, 0u8] {
                        assert(data@.subrange(4, 8)[0] == 0 && data@.subrange(4, 8)[1] == 0
                            && data@.subrange(4, 8)[2] == 0 && data@.subrange(4, 8)[3] == 0);
                    }
                };
            }
            return Err(ObjectStoreError::UnsupportedVersion);
        }
        proof {
            assert(data@.subrange(4, 8) =~= seq![0u8, 0u8, 0u8, 0u8]);
        }
        if len < 1032 {
            return Err(ObjectStoreError::Truncated);
        }
        let ghost mfan = Seq::new(
            256,
            |b: int| u32_of_be(data@[8 + 4 * b], data@[9 + 4 * b], data@[10 + 4 * b], data@[11 + 4
                * b]),
        );
        let mut fanout: Vec<u32> = Vec::new();
        let mut b: usize = 0;
        while b < 256
            invariant
                b <= 256,
                fanout@.len() == b,
                forall|j: int| 0 <= j < b ==> fanout@[j] == mfan[j],
            decreases 256 - b,
        {
            let v = match read_u32(data, 8 + 4 * b) {
                Ok((v, _)) => v,
                Err(_) => {
                    proof {
                        assert(false);
                    }
                    return Err(ObjectStoreError::Truncated);
                },
            };
            fanout.push(v);
            b = b + 1;
        }
        proof {
            assert(fanout@ =~= mfan);
        }
        let n32 = fanout[255];
        let n = n32 as usize;
        if ((len - 1032) as u64) / 36 < n as u64 {
            proof {
                assert(1032 + (n as nat) * 36 > len) by (nonlinear_arith)
                    requires
                        ((len - 1032) as u64) / 36 < n as u64,
                        len >= 1032,
                ;
            }
            return Err(ObjectStoreError::Truncated);
        }
        proof {
            assert(1032 + (n as nat) * 36 <= len) by (nonlinear_arith)
                requires
                    ((len - 1032) as u64) / 36 >= n as u64,
                    len >= 1032,
            ;
        }
        let ghost mids = Seq::new(n as nat, |i: int| data@.subrange(1032 + 32 * i, 1064 + 32 * i));
        let mut ids: Vec<Vec<u8>> = Vec::new();
        let mut i: usize = 0;
        while i < n
            invariant
                i <= n,
                crate::event::pviews(ids@).len() == i,
                forall|j: int| 0 <= j < i ==> crate::event::pviews(ids@)[j] == mids[j],
            decreases n - i,
        {
            proof {
                assert(32 * (i as int) + 32 <= 32 * (n as int)) by (nonlinear_arith)
                    requires
                        i < n,
                ;
                assert(36 * (n as int) >= 32 * (n as int)) by (nonlinear_arith)
                    requires
                        n >= 0,
                ;
            }
            let v = crate::bytesutil::copy_range(data, 1032 + 32 * i, 1064 + 32 * i);
            ids.push(v);
            proof {
                assert(crate::event::pviews(ids@) =~= crate::event::pviews(
                    ids@.subrange(0, ids@.len() - 1),
                ).push(v@));
            }
            i = i + 1;
        }
        proof {
            assert(crate::event::pviews(ids@) =~= mids);
        }
        let ob = 1032 + 32 * n;
        let ghost moff = Seq::new(
            n as nat,
            |i: int| u32_of_be(
                data@[1032 + 32 * (n as int) + 4 * i],
                data@[1032 + 32 * (n as int) + 4 * i + 1],
                data@[1032 + 32 * (n as int) + 4 * i + 2],
                data@[1032 + 32 * (n as int) + 4 * i + 3],
            ),
        );
        let mut offsets: Vec<u64> = Vec::new();
        let mut i: usize = 0;
        while i < n
            invariant
                i <= n,
                offsets@.len() == i,
                forall|j: int| 0 <= j < i ==> offsets@[j] == moff[j] as u64,
            decreases n - i,
        {
            proof {
                assert(4 * (i as int) + 4 <= 4 * (n as int)) by (nonlinear_arith)
                    requires
                        i < n,
                ;
                assert(32 * (n as int) + 4 * (n as int) == 36 * (n as int)) by (nonlinear_arith);
            }
            let v = match read_u32(data, ob + 4 * i) {
                Ok((v, _)) => v,
                Err(_) => {
                    proof {
                        assert(false);
                    }
                    return Err(ObjectStoreError::Truncated);
                },
            };
            offsets.push(v as u64);
            i = i + 1;
        }
        let mut next_offsets_indices: Vec<usize> = Vec::new();
        let mut i: usize = 0;
        while i < n
            invariant
                i <= n,
                offsets@.len() == n,
                next_offsets_indices@.len() == i,
                forall|k: int|
                    0 <= k < i ==> {
                        let ni = #[trigger] next_offsets_indices@[k];
                        if ni < n {
                            min_greater(offsets@, offsets@[k]) == Some(offsets@[ni as int])
                        } else {
                            min_greater(offsets@, offsets@[k]) is None
                        }
                    },
            decreases n - i,
        {
            let x = offsets[i];
            let mut besti: usize = n;
            let mut j: usize = 0;
            while j < n
                invariant
                    j <= n,
                    offsets@.len() == n,
                    besti <= n,
                    ({
                        let m = min_greater(offsets@.subrange(0, j as int), x);
                        if besti < n {
                            m == Some(offsets@[besti as int])
                        } else {
                            m is None
                        }
                    }),
                decreases n - j,
            {
                proof {
                    let pre = offsets@.subrange(0, j as int);
                    let cur = offsets@.subrange(0, j + 1);
                    assert(cur.drop_last() =~= pre);
                    assert(cur.last() == offsets@[j as int]);
                }
                let oj = offsets[j];
                if oj > x {
                    if besti >= n {
                        besti = j;
                    } else if oj < offsets[besti] {
                        besti = j;
                    }
                }
                j = j + 1;
            }
            proof {
                assert(offsets@.subrange(0, n as int) =~= offsets@);
            }
            next_offsets_indices.push(besti);
            i = i + 1;
        }
        let ix = PackedIndex { fanout, ids, offsets, next_offsets_indices, pack_len };
        proof {
            assert(ix.offsets_view() =~= idx_parse(data@).unwrap().offsets.map_values(
                |o: u32| o as u64,
            ));
        }
        Ok(ix)
    }

    /// Looks an address up through the fanout and a binary search.
    ///
    /// `Some` carries the record's start offset and its read bound (the
    /// next larger start, or the pack length).  An address that is not in
    /// the index yields `None`; an answer of `Some` always names an entry
    /// that holds exactly the queried address.
    #[verifier::loop_isolation(false)]
    pub fn get_bounds(&self, id: &Vec<u8>) -> (r: Option<(u64, u64)>)
        requires
            id@.len() == 32,
            self.links_wf(),
        ensures
            match r {
                Some(se) => exists|i: int|
                    0 <= i < self.ids_view().len() && (#[trigger] self.ids_view()[i]) == id@
                        && se.0 == self.offsets_view()[i] && se.1 == self.end_of(i),
                None => self.swf() ==> forall|i: int|
                    0 <= i < self.ids_view().len() ==> (#[trigger] self.ids_view()[i]) != id@,
            },
    {
        let n = self.ids.len();
        let b = id[0] as usize;
        let mut lo: usize = if b > 0 {
            let v = self.fanout[b - 1] as usize;
            if v > n {
                n
            } else {
                v
            }
        } else {
            0
        };
        let mut hi: usize = {
            let v = self.fanout[b] as usize;
            if v > n {
                n
            } else {
                v
            }
        };
        if lo > hi {
            lo = hi;
        }
        proof {
            if self.swf() {
                assert forall|i: int| 0 <= i < lo implies bytes_lt(
                    self.ids_view()[i],
                    id@,
                ) by {
                    assert(self.ids_view()[i][0] <= b - 1);
                };
                assert forall|i: int| hi <= i < n implies bytes_lt(
                    id@,
                    self.ids_view()[i],
                ) by {
                    assert(self.ids_view()[i][0] > b);
                };
            }
        }
        while lo < hi
            invariant
                lo <= hi <= n,
                self.swf() ==> forall|i: int|
                    0 <= i < lo ==> bytes_lt(#[trigger] self.ids_view()[i], id@),
                self.swf() ==> forall|i: int|
                    hi <= i < n ==> bytes_lt(id@, #[trigger] self.ids_view()[i]),
            decreases hi - lo,
        {
            let mid = lo + (hi - lo) / 2;
            match crate::bytesutil::bytes_cmp(id, &self.ids[mid]) {
                ByteCmp::Less => {
                    proof {
                        if self.swf() {
                            assert forall|i: int| mid <= i < n implies bytes_lt(
                                id@,
                                #[trigger] self.ids_view()[i],
                            ) by {
                                if i > mid {
                                    crate::bytesutil::lemma_bytes_lt_trans(
                                        id@,
                                        self.ids_view()[mid as int],
                                        self.ids_view()[i],
                                    );
                                }
                            };
                        }
                    }
                    hi = mid;
                },
                ByteCmp::Greater => {
                    proof {
                        if self.swf() {
                            assert forall|i: int| 0 <= i < mid + 1 implies bytes_lt(
                                #[trigger] self.ids_view()[i],
                                id@,
                            ) by {
                                if i < mid {
                                    crate::bytesutil::lemma_bytes_lt_trans(
                                        self.ids_view()[i],
                                        self.ids_view()[mid as int],
                                        id@,
                                    );
                                }
                            };
                        }
                    }
                    lo = mid + 1;
                },
                ByteCmp::Equal => {
                    let ni = self.next_offsets_indices[mid];
                    let e = if ni >= n {
                        self.pack_len
                    } else {
                        self.offsets[ni]
                    };
                    proof {
                        assert(self.ids_view()[mid as int] == id@);
                    }
                    return Some((self.offsets[mid], e));
                },
            }
        }
        proof {
            if self.swf() {
                assert forall|i: int| 0 <= i < n implies (#[trigger] self.ids_view()[i])
                    != id@ by {
                    crate::bytesutil::lemma_bytes_lt_trichotomy(self.ids_view()[i], id@);
                };
            }
        }
        None
    }
}


/// What reading the record between two pack offsets yields: out-of-range
/// bounds are rejected, the record is parsed, and types 3 and 4 (reserved)
/// are refused.
pub open spec fn bounds_object(pack: Seq<u8>, start: u64, end: u64) -> Result<
    EnvModel,
    ObjectStoreError,
> {
    if !(start <= end <= pack.len()) {
        Err(ObjectStoreError::Truncated)
    } else {
        match record_parse(pack.subrange(start as int, end as int)) {
            Err(e) => Err(e),
            Ok((t, p)) => if t == 0 {
                Ok(EnvModel { kind: EnvKind::Blob, payload: p })
            } else if t == 1 {
                Ok(EnvModel { kind: EnvKind::Event, payload: p })
            } else if t == 2 {
                Ok(EnvModel { kind: EnvKind::Version, payload: p })
            } else {
                Err(ObjectStoreError::ItemTypeParseError)
            },
        }
    }
}

/// A pack file held in memory.
pub struct Reader {
    data: Vec<u8>,
}

impl View for Reader {
    type V = Seq<u8>;

    closed spec fn view(&self) -> Seq<u8> {
        self.data@
    }
}

impl Reader {
    pub fn new(data: Vec<u8>) -> (r: Reader)
        ensures
            r@ == data@,
    {
        Reader { data }
    }

    /// The pack file's byte length.
    pub fn len(&self) -> (r: usize)
        ensures
            r == self@.len(),
    {
        self.data.len()
    }

    /// Reads the record between two offsets and wraps its payload in the
    /// object variant its header names.
    pub fn read_bounds(&self, start: u64, end: u64) -> (r: Result<Object, ObjectStoreError>)
        ensures
            match r {
                Ok(obj) => bounds_object(self@, start, end) == Ok::<EnvModel, ObjectStoreError>(
                    obj@,
                ),
                Err(e) => bounds_object(self@, start, end) == Err::<EnvModel, ObjectStoreError>(e),
            },
    {
        let n = self.data.len();
        if !(start <= end && end <= n as u64) {
            return Err(ObjectStoreError::Truncated);
        }
        let rec = crate::bytesutil::copy_range(&self.data, start as usize, end as usize);
        match packfile_read(&rec) {
            Err(e) => Err(e),
            Ok((t, p)) => if t == 0 {
                Ok(Object::Blob(p))
            } else if t == 1 {
                Ok(Object::Event(p))
            } else if t == 2 {
                Ok(Object::Version(p))
            } else {
                Err(ObjectStoreError::ItemTypeParseError)
            },
        }
    }
}

/// A pack file and its parsed index.
pub struct PackedStore {
    index: PackedIndex,
    objects: Reader,
}

impl PackedStore {
    pub closed spec fn index_spec(self) -> PackedIndex {
        self.index
    }

    pub closed spec fn pack_spec(self) -> Seq<u8> {
        self.objects@
    }

    /// What reading entry `i` yields.
    pub open spec fn entry_env(self, i: int) -> Result<EnvModel, ObjectStoreError> {
        bounds_object(
            self.pack_spec(),
            self.index_spec().offsets_view()[i],
            self.index_spec().end_of(i),
        )
    }

    /// The envelopes this store serves: every indexed address whose record
    /// parses cleanly.
    pub open spec fn packed_map(self) -> Map<Seq<u8>, EnvModel> {
        Map::new(
            |a: Seq<u8>|
                exists|i: int|
                    0 <= i < self.index_spec().ids_view().len() && (
                    #[trigger] self.index_spec().ids_view()[i]) == a && self.entry_env(i) is Ok,
            |a: Seq<u8>|
                self.entry_env(
                    choose|i: int|
                        0 <= i < self.index_spec().ids_view().len() && (
                        #[trigger] self.index_spec().ids_view()[i]) == a && self.entry_env(
                            i,
                        ) is Ok,
                ).unwrap(),
        )
    }

    /// Opens a pack/index pair: the index bytes are parsed and validated,
    /// the pack bytes are kept for reads.
    pub fn new(packfile: Vec<u8>, index: &Vec<u8>) -> (r: Result<PackedStore, ObjectStoreError>)
        ensures
            match r {
                Ok(ps) => {
                    &&& idx_parse(index@) matches Ok(m)
                    &&& ps.index_spec().fanout_view() == idx_parse(index@).unwrap().fanout
                    &&& ps.index_spec().ids_view() == idx_parse(index@).unwrap().ids
                    &&& ps.index_spec().offsets_view() == idx_parse(
                        index@,
                    ).unwrap().offsets.map_values(|o: u32| o as u64)
                    &&& ps.index_spec().pack_len_spec() == packfile@.len()
                    &&& ps.index_spec().links_wf()
                    &&& ps.pack_spec() == packfile@
                },
                Err(e) => idx_parse(index@) == Err::<IdxModel, ObjectStoreError>(e),
            },
    {
        let plen = packfile.len();
        let idx = match PackedIndex::from(index, plen as u64) {
            Ok(ix) => ix,
            Err(e) => {
                return Err(e);
            },
        };
        Ok(PackedStore { index: idx, objects: Reader::new(packfile) })
    }

    /// Point lookup by 32-byte address: bounds from the index, then one
    /// record read.  An address the index does not hold yields `Ok(None)`;
    /// a held address yields its record's envelope, or that record's parse
    /// error.
    pub fn get(&self, item: &Vec<u8>) -> (r: Result<Option<Envelope>, ObjectStoreError>)
        requires
            item@.len() == 32,
            self.index_spec().links_wf(),
        ensures
            match r {
                Ok(Some(env)) => exists|i: int|
                    0 <= i < self.index_spec().ids_view().len() && (
                    #[trigger] self.index_spec().ids_view()[i]) == item@ && self.entry_env(i)
                        == Ok::<EnvModel, ObjectStoreError>(env@),
                Ok(None) => self.index_spec().swf() ==> forall|i: int|
                    0 <= i < self.index_spec().ids_view().len() ==> (
                    #[trigger] self.index_spec().ids_view()[i]) != item@,
                Err(e) => exists|i: int|
                    0 <= i < self.index_spec().ids_view().len() && (
                    #[trigger] self.index_spec().ids_view()[i]) == item@ && self.entry_env(i)
                        == Err::<EnvModel, ObjectStoreError>(e),
            },
    {
        let bounds = self.index.get_bounds(item);
        match bounds {
            None => Ok(None),
            Some((start, end)) => match self.objects.read_bounds(start, end) {
                Err(e) => Err(e),
                Ok(obj) => {
                    let env = match obj {
                        Object::Blob(v) => Envelope::Blob(v),
                        Object::Event(v) => Envelope::Event(v),
                        Object::Version(v) => Envelope::Version(v),
                    };
                    Ok(Some(env))
                },
            },
        }
    }
}

/// Strictly ascending addresses never repeat.
pub proof fn lemma_sorted_distinct(ids: Seq<Seq<u8>>, i: int, j: int)
    requires
        0 <= i < j < ids.len(),
        bytes_lt(ids[i], ids[j]),
    ensures
        ids[i] != ids[j],
{
    crate::bytesutil::lemma_bytes_lt_trichotomy(ids[i], ids[j]);
}

impl crate::multiple::ReadableStore for PackedStore {
    open spec fn inv(&self) -> bool {
        self.index_spec().links_wf() && self.index_spec().swf()
    }

    open spec fn env_map(&self) -> Map<Seq<u8>, EnvModel> {
        self.packed_map()
    }

    open spec fn err_free(&self) -> bool {
        forall|i: int|
            0 <= i < self.index_spec().ids_view().len() ==> (#[trigger] self.entry_env(i)) is Ok
    }

    fn get_sync(&self, item: &Vec<u8>) -> (r: Result<Option<Envelope>, ObjectStoreError>)
        ensures
            r matches Err(e) ==> exists|i: int|
                0 <= i < self.index_spec().ids_view().len() && (
                #[trigger] self.index_spec().ids_view()[i]) == item@ && self.entry_env(i) == Err::<
                    EnvModel,
                    ObjectStoreError,
                >(e),
    {
        let r = self.get(item);
        proof {
            let ids = self.index_spec().ids_view();
            match &r {
                Ok(Some(env)) => {
                    let i = choose|i: int|
                        0 <= i < ids.len() && (#[trigger] ids[i]) == item@ && self.entry_env(i)
                            == Ok::<EnvModel, ObjectStoreError>(env@);
                    assert(self.packed_map().contains_key(item@));
                    let j = choose|j: int|
                        0 <= j < ids.len() && (#[trigger] ids[j]) == item@ && self.entry_env(
                            j,
                        ) is Ok;
                    if i != j {
                        if i < j {
                            lemma_sorted_distinct(ids, i, j);
                        } else {
                            lemma_sorted_distinct(ids, j, i);
                        }
                    }
                    assert(self.packed_map()[item@] == env@);
                },
                Ok(None) => {
                    if self.packed_map().contains_key(item@) {
                        let j = choose|j: int|
                            0 <= j < ids.len() && (#[trigger] ids[j]) == item@ && self.entry_env(
                                j,
                            ) is Ok;
                        assert(ids[j] == item@);
                    }
                },
                Err(e) => {
                    let i = choose|i: int|
                        0 <= i < ids.len() && (#[trigger] ids[i]) == item@ && self.entry_env(i)
                            == Err::<EnvModel, ObjectStoreError>(*e);
                    assert(!(self.entry_env(i) is Ok));
                },
            }
        }
        r
    }
}


/// 32-bit values laid end to end, each big-endian.
pub open spec fn u32s_be(s: Seq<u32>) -> Seq<u8>
    decreases s.len(),
{
    if s.len() == 0 {
        Seq::empty()
    } else {
        u32s_be(s.drop_last()) + crate::numcodec::u32_be_bytes(s.last())
    }
}

pub proof fn lemma_u32s_be_len(s: Seq<u32>)
    ensures
        u32s_be(s).len() == 4 * s.len(),
    decreases s.len(),
{
    if s.len() > 0 {
        lemma_u32s_be_len(s.drop_last());
    }
}

pub proof fn lemma_u32s_be_index(s: Seq<u32>, i: int, j: int)
    requires
        0 <= i < s.len(),
        0 <= j < 4,
    ensures
        u32s_be(s).len() == 4 * s.len(),
        u32s_be(s)[4 * i + j] == crate::numcodec::u32_be_bytes(s[i])[j],
    decreases s.len(),
{
    lemma_u32s_be_len(s);
    if i == s.len() - 1 {
        lemma_u32s_be_len(s.drop_last());
        assert(u32s_be(s)[4 * i + j] == crate::numcodec::u32_be_bytes(s.last())[j]);
    } else {
        lemma_u32s_be_index(s.drop_last(), i, j);
        lemma_u32s_be_len(s.drop_last());
        assert(s.drop_last()[i] == s[i]);
    }
}

pub proof fn lemma_u32s_be_snoc(s: Seq<u32>, v: u32)
    ensures
        u32s_be(s.push(v)) == u32s_be(s) + crate::numcodec::u32_be_bytes(v),
{
    assert(s.push(v).drop_last() =~= s);
    assert(s.push(v).last() == v);
}

/// The parse of one big-endian 32-bit field equals the value written.
pub proof fn lemma_u32_field_roundtrip(v: u32)
    ensures
        crate::numcodec::u32_be_bytes(v).len() == 4,
        u32_of_be(
            crate::numcodec::u32_be_bytes(v)[0],
            crate::numcodec::u32_be_bytes(v)[1],
            crate::numcodec::u32_be_bytes(v)[2],
            crate::numcodec::u32_be_bytes(v)[3],
        ) == v,
{
    crate::numcodec::lemma_u32_be_roundtrip(v);
}

/// Writes a record header for type `t` and payload size `size`.
pub fn write_pack_header(out: &mut Vec<u8>, t: u8, size: u64)
    requires
        t < 8,
    ensures
        final(out)@ == old(out)@ + pack_header_enc(t, size as nat),
{
    let first: u8 = (if size >= 16 {
        128u8
    } else {
        0u8
    }) + t * 16 + (size % 16) as u8;
    out.push(first);
    if size >= 16 {
        crate::varint::write_varint(out, size / 16);
    }
    proof {
        assert(out@ =~= old(out)@ + pack_header_enc(t, size as nat));
    }
}

/// On strictly ascending offsets the least larger offset is the next one.
pub proof fn lemma_min_greater_sorted(s: Seq<u64>, k: int)
    requires
        forall|a: int, b: int| 0 <= a < b < s.len() ==> s[a] < s[b],
        0 <= k < s.len(),
    ensures
        k < s.len() - 1 ==> min_greater(s, s[k]) == Some(s[k + 1]),
        k == s.len() - 1 ==> min_greater(s, s[k]) is None,
    decreases s.len(),
{
    if s.len() > 0 {
        let d = s.drop_last();
        assert(forall|a: int, b: int| 0 <= a < b < d.len() ==> d[a] < d[b]);
        if k == s.len() - 1 {
            // nothing in the prefix exceeds the last and largest offset
            lemma_min_greater_none(d, s[k]);
        } else if k == s.len() - 2 {
            lemma_min_greater_none(d, d[k]);
        } else {
            lemma_min_greater_sorted(d, k);
            assert(d[k + 1] == s[k + 1]);
            assert(s.last() > s[k + 1]);
        }
    }
}

/// No offset in a sequence of values at most `x` exceeds `x`.
pub proof fn lemma_min_greater_none(s: Seq<u64>, x: u64)
    requires
        forall|a: int| 0 <= a < s.len() ==> s[a] <= x,
    ensures
        min_greater(s, x) is None,
    decreases s.len(),
{
    if s.len() > 0 {
        lemma_min_greater_none(s.drop_last(), x);
    }
}

/// The model-level counterpart of a sound index, as compaction must
/// produce it.
pub open spec fn model_swf(m: IdxModel, plen: nat) -> bool {
    let offs = m.offsets.map_values(|o: u32| o as u64);
    &&& m.fanout.len() == 256
    &&& m.ids.len() == m.offsets.len()
    &&& m.ids.len() == m.fanout[255]
    &&& forall|i: int| 0 <= i < m.ids.len() ==> (#[trigger] m.ids[i]).len() == 32
    &&& forall|i: int, j: int| 0 <= i < j < m.ids.len() ==> bytes_lt(m.ids[i], m.ids[j])
    &&& forall|b: int, i: int|
        0 <= b < 256 && 0 <= i < m.ids.len() ==> {
            &&& (i < #[trigger] m.fanout[b] ==> (#[trigger] m.ids[i])[0] <= b)
            &&& (i >= m.fanout[b] ==> m.ids[i][0] > b)
        }
    &&& forall|i: int| 0 <= i < offs.len() ==> (#[trigger] offs[i]) <= plen
}

/// The record bound at entry `i` of a compacted layout.
pub open spec fn end_of_model(offs: Seq<u64>, plen: u64, i: int) -> u64 {
    match min_greater(offs, offs[i]) {
        Some(v) => v,
        None => plen,
    }
}

/// The 16 bytes a pack file begins with: magic `ENTS`, big-endian version
/// 0, and the big-endian 64-bit object count.
pub open spec fn pack_prefix(n: nat) -> Seq<u8>
    recommends
        n <= u64::MAX,
{
    seq![69u8, 78u8, 84u8, 83u8] + crate::numcodec::u32_be_bytes(0)
        + crate::numcodec::u64_be_bytes(n as u64)
}

/// What compaction promises of its two outputs: the index parses and is
/// sound, its addresses are exactly the stored ones, the pack opens with
/// the `ENTS` header and its count, the records follow it contiguously in
/// index order starting at byte 16, and every entry's record region reads
/// back as the stored envelope.
pub open spec fn compacted_ok(
    objects: Map<Seq<u8>, EnvModel>,
    pack: Seq<u8>,
    idx: Seq<u8>,
) -> bool {
    &&& idx_parse(idx) is Ok
    &&& {
        let m = idx_parse(idx).unwrap();
        let offs = m.offsets.map_values(|o: u32| o as u64);
        &&& model_swf(m, pack.len())
        &&& pack.len() >= 16
        &&& pack.subrange(0, 16) == pack_prefix(m.ids.len() as nat)
        &&& forall|i: int, j: int| 0 <= i < j < offs.len() ==> offs[i] < offs[j]
        &&& (offs.len() > 0 ==> offs[0] == 16)
        &&& forall|i: int| 0 <= i < m.ids.len() ==> objects.contains_key(#[trigger] m.ids[i])
        &&& forall|a: Seq<u8>|
            objects.contains_key(a) ==> exists|i: int|
                0 <= i < m.ids.len() && (#[trigger] m.ids[i]) == a
        &&& forall|i: int|
            0 <= i < m.ids.len() ==> bounds_object(
                pack,
                offs[i],
                end_of_model(offs, pack.len() as u64, i),
            ) == Ok::<EnvModel, ObjectStoreError>(objects[#[trigger] m.ids[i]])
    }
}

/// Pack read matches loose read: a store opened on compaction's outputs is
/// sound and serves exactly the envelopes that were stored loose.
pub proof fn lemma_compaction_preserves(
    objects: Map<Seq<u8>, EnvModel>,
    pack: Seq<u8>,
    idx: Seq<u8>,
    ps: PackedStore,
)
    requires
        compacted_ok(objects, pack, idx),
        ps.index_spec().fanout_view() == idx_parse(idx).unwrap().fanout,
        ps.index_spec().ids_view() == idx_parse(idx).unwrap().ids,
        ps.index_spec().offsets_view() == idx_parse(idx).unwrap().offsets.map_values(
            |o: u32| o as u64,
        ),
        ps.index_spec().pack_len_spec() == pack.len(),
        ps.pack_spec() == pack,
    ensures
        ps.index_spec().swf(),
        ps.packed_map() == objects,
{
    let m = idx_parse(idx).unwrap();
    let ids = ps.index_spec().ids_view();
    assert forall|a: Seq<u8>| #[trigger] ps.packed_map().dom().contains(a) implies
        objects.contains_key(a) by {
        let i = choose|i: int|
            0 <= i < ids.len() && (#[trigger] ids[i]) == a && ps.entry_env(i) is Ok;
    };
    assert forall|a: Seq<u8>| #[trigger] objects.contains_key(a) implies
        ps.packed_map().dom().contains(a) by {
        let i = choose|i: int| 0 <= i < m.ids.len() && (#[trigger] m.ids[i]) == a;
        assert(ps.entry_env(i) == Ok::<EnvModel, ObjectStoreError>(objects[a]));
    };
    assert forall|a: Seq<u8>| #[trigger] ps.packed_map().dom().contains(a) implies
        ps.packed_map()[a] == objects[a] by {
        let i = choose|i: int|
            0 <= i < ids.len() && (#[trigger] ids[i]) == a && ps.entry_env(i) is Ok;
        assert(ps.entry_env(i) == Ok::<EnvModel, ObjectStoreError>(objects[a]));
    };
    assert(ps.packed_map() =~= objects);
}

} // verus!
