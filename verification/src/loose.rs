//! The loose store: one zlib-deflated framed object per content address.
//!
//! This type holds the store's contents in memory, keyed by 32-byte
//! content address; the sharded on-disk layout is derived from the same
//! addresses through `hexcode::loose_object_path`.

use vstd::prelude::*;

use crate::bytesutil::ByteCmp;
use crate::envelope::{lemma_frame_roundtrip, parse_framed, EnvKind, EnvModel, Envelope};
use crate::errors::ObjectStoreError;
use crate::packed::{compacted_ok, end_of_model, lemma_min_greater_sorted,
    lemma_pack_header_roundtrip, lemma_u32_field_roundtrip, lemma_u32s_be_index,
    lemma_u32s_be_len, lemma_u32s_be_snoc, min_greater, model_swf, pack_header_enc, pack_prefix,
    record_parse, u32s_be, write_pack_header};
use crate::zlib::{deflate_of, inflate_of, zlib_deflate, zlib_inflate};

verus! {

/// What one `add` does to the stored map: a fresh address stores the
/// envelope and reports true; a known address changes nothing and reports
/// false.
pub open spec fn add_spec(m: Map<Seq<u8>, EnvModel>, e: EnvModel) -> (bool, Map<
    Seq<u8>,
    EnvModel,
>) {
    if m.contains_key(e.addr()) {
        (false, m)
    } else {
        (true, m.insert(e.addr(), e))
    }
}

pub struct LooseStore {
    entries: Vec<(Vec<u8>, Vec<u8>)>,
    objects: Ghost<Map<Seq<u8>, EnvModel>>,
}

impl LooseStore {
    /// The envelopes stored, by content address.
    pub closed spec fn objects(self) -> Map<Seq<u8>, EnvModel> {
        self.objects@
    }

    pub closed spec fn entry_ok(self, i: int) -> bool {
        &&& self.entries@[i].0@.len() == 32
        &&& self.objects@.contains_key(self.entries@[i].0@)
        &&& inflate_of(self.entries@[i].1@) == Some(
            self.objects@[self.entries@[i].0@].frame(),
        )
        &&& self.entries@[i].0@ == self.objects@[self.entries@[i].0@].addr()
    }

    /// Every entry publishes, under its own content address, bytes that
    /// inflate to the framed form of the stored envelope; addresses are
    /// never repeated, and every stored envelope has its entry.
    pub closed spec fn wf(self) -> bool {
        &&& forall|i: int| 0 <= i < self.entries@.len() ==> self.entry_ok(i)
        &&& forall|i: int, j: int|
            0 <= i < j < self.entries@.len() ==> self.entries@[i].0@ != self.entries@[j].0@
        &&& forall|a: Seq<u8>|
            self.objects@.contains_key(a) ==> exists|i: int|
                0 <= i < self.entries@.len() && (#[trigger] self.entries@[i]).0@ == a
    }

    pub fn new() -> (s: Self)
        ensures
            s.wf(),
            s.objects() == Map::<Seq<u8>, EnvModel>::empty(),
    {
        LooseStore { entries: Vec::new(), objects: Ghost(Map::empty()) }
    }

    fn find_entry(&self, addr: &Vec<u8>) -> (r: Option<usize>)
        ensures
            match r {
                Some(i) => i < self.entries@.len() && self.entries@[i as int].0@ == addr@,
                None => forall|i: int|
                    0 <= i < self.entries@.len() ==> (#[trigger] self.entries@[i]).0@ != addr@,
            },
    {
        let mut i: usize = 0;
        let n = self.entries.len();
        while i < n
            invariant
                i <= n,
                n == self.entries@.len(),
                forall|j: int| 0 <= j < i ==> (#[trigger] self.entries@[j]).0@ != addr@,
            decreases n - i,
        {
            if crate::bytesutil::bytes_eq(&self.entries[i].0, addr) {
                return Some(i);
            }
            i = i + 1;
        }
        None
    }

    /// Stores an envelope under its content address.
    ///
    /// Returns true when the object was newly stored and false when an
    /// object with the same address was already present, in which case
    /// nothing changes.
    pub fn add(&mut self, envelope: Envelope) -> (r: bool)
        requires
            old(self).wf(),
        ensures
            final(self).wf(),
            (r, final(self).objects()) == add_spec(old(self).objects(), envelope@),
    {
        let (addr, _header) = envelope.content_address();
        match self.find_entry(&addr) {
            Some(i) => {
                proof {
                    assert(self.entry_ok(i as int));
                }
                false
            },
            None => {
                let framed = envelope.framed_bytes();
                let stored = zlib_deflate(&framed);
                proof {
                    if self.objects@.contains_key(envelope@.addr()) {
                        let i = choose|i: int|
                            0 <= i < self.entries@.len() && (#[trigger] self.entries@[i]).0@
                                == envelope@.addr();
                        assert(self.entries@[i].0@ == addr@);
                    }
                }
                self.entries.push((addr, stored));
                proof {
                    self.objects@ = self.objects@.insert(envelope@.addr(), envelope@);
                    let n = self.entries@.len() - 1;
                    assert(self.entries@[n].0@ == envelope@.addr());
                    assert forall|k: int| 0 <= k < self.entries@.len() implies self.entry_ok(
                        k,
                    ) by {
                        if k < n {
                            assert(old(self).entry_ok(k));
                            assert(self.entries@[k] == old(self).entries@[k]);
                            assert(self.entries@[k].0@ != envelope@.addr());
                        }
                    };
                    assert forall|a: Seq<u8>| self.objects@.contains_key(a) implies exists|i: int|
                        0 <= i < self.entries@.len() && (#[trigger] self.entries@[i]).0@ == a by {
                        if a == envelope@.addr() {
                            assert(self.entries@[n].0@ == a);
                        } else {
                            assert(old(self).objects@.contains_key(a));
                            let i = choose|i: int|
                                0 <= i < old(self).entries@.len() && (#[trigger] old(
                                    self,
                                ).entries@[i]).0@ == a;
                            assert(self.entries@[i].0@ == a);
                        }
                    };
                }
                true
            },
        }
    }

    /// Looks an object up by its 32-byte content address.
    ///
    /// An absent address yields `Ok(None)`, never an error; a present one
    /// yields exactly the envelope that was stored under it.
    pub fn get(&self, addr: &Vec<u8>) -> (r: Result<Option<Envelope>, ObjectStoreError>)
        requires
            self.wf(),
        ensures
            match r {
                Ok(Some(env)) => self.objects().contains_key(addr@) && env@
                    == self.objects()[addr@],
                Ok(None) => !self.objects().contains_key(addr@),
                Err(_) => false,
            },
    {
        let i = match self.find_entry(addr) {
            Some(i) => i,
            None => {
                proof {
                    if self.objects@.contains_key(addr@) {
                        let i = choose|i: int|
                            0 <= i < self.entries@.len() && (#[trigger] self.entries@[i]).0@
                                == addr@;
                    }
                }
                return Ok(None);
            },
        };
        proof {
            assert(self.entry_ok(i as int));
        }
        let ghost m = self.objects@[addr@];
        let framed = match zlib_inflate(&self.entries[i].1) {
            Ok(v) => v,
            Err(_) => {
                proof {
                    assert(false);
                }
                return Err(ObjectStoreError::CompressionError);
            },
        };
        match parse_framed(&framed) {
            Ok(env) => {
                proof {
                    lemma_frame_roundtrip(m);
                }
                Ok(Some(env))
            },
            Err(_) => {
                proof {
                    lemma_frame_roundtrip(m);
                    assert(false);
                }
                Err(ObjectStoreError::CompressionError)
            },
        }
    }
}


/// The envelope a collected compaction item denotes.
pub open spec fn item_env(t: u8, p: Seq<u8>) -> EnvModel {
    EnvModel {
        kind: if t == 0 {
            EnvKind::Blob
        } else if t == 1 {
            EnvKind::Event
        } else {
            EnvKind::Version
        },
        payload: p,
    }
}

/// One collected item: a stored address with its record type and payload.
pub open spec fn item_ok(
    objects: Map<Seq<u8>, EnvModel>,
    it: (Vec<u8>, u8, Vec<u8>),
) -> bool {
    &&& objects.contains_key(it.0@)
    &&& it.0@.len() == 32
    &&& it.1 < 3
    &&& item_env(it.1, it.2@) == objects[it.0@]
}

/// The address views of a collected item list.
pub open spec fn addrs_of(items: Seq<(Vec<u8>, u8, Vec<u8>)>) -> Seq<Seq<u8>> {
    items.map_values(|t: (Vec<u8>, u8, Vec<u8>)| t.0@)
}

/// Whether the item at `k` sorts after address `a`.
fn items_addr_gt(items: &Vec<(Vec<u8>, u8, Vec<u8>)>, k: usize, a: &Vec<u8>) -> (r: bool)
    requires
        k < items@.len(),
    ensures
        r <==> crate::bytesutil::bytes_lt(a@, items@[k as int].0@),
{
    match crate::bytesutil::bytes_cmp(&items[k].0, a) {
        ByteCmp::Greater => true,
        _ => false,
    }
}

/// Whether the item at `k` has a first address byte at most `b`.
fn items_first_le(items: &Vec<(Vec<u8>, u8, Vec<u8>)>, k: usize, b: usize) -> (r: bool)
    requires
        k < items@.len(),
        items@[k as int].0@.len() > 0,
    ensures
        r <==> items@[k as int].0@[0] <= b,
{
    (items[k].0[0] as usize) <= b
}



/// Inserting before the first strictly larger address keeps the list
/// strictly sorted.
proof fn lemma_sorted_insert(
    pre: Seq<(Vec<u8>, u8, Vec<u8>)>,
    post: Seq<(Vec<u8>, u8, Vec<u8>)>,
    pos: int,
    x: (Vec<u8>, u8, Vec<u8>),
)
    requires
        0 <= pos <= pre.len(),
        post == pre.insert(pos, x),
        forall|a: int, b: int|
            0 <= a < b < pre.len() ==> crate::bytesutil::bytes_lt(
                (#[trigger] pre[a]).0@,
                (#[trigger] pre[b]).0@,
            ),
        pos > 0 ==> crate::bytesutil::bytes_lt(pre[pos - 1].0@, x.0@),
        forall|k: int|
            pos <= k < pre.len() ==> crate::bytesutil::bytes_lt(x.0@, (#[trigger] pre[k]).0@),
    ensures
        forall|a: int, b: int|
            0 <= a < b < post.len() ==> crate::bytesutil::bytes_lt(
                (#[trigger] post[a]).0@,
                (#[trigger] post[b]).0@,
            ),
{
    assert forall|a: int, b: int|
        0 <= a < b < post.len() implies crate::bytesutil::bytes_lt(
        (#[trigger] post[a]).0@,
        (#[trigger] post[b]).0@,
    ) by {
        if a < pos {
            assert(post[a] == pre[a]);
        }
        if b < pos {
            assert(post[b] == pre[b]);
        }
        if a > pos {
            assert(post[a] == pre[a - 1]);
        }
        if b > pos {
            assert(post[b] == pre[b - 1]);
        }
        if a < pos {
            // pre[a] sorts before x
            if a < pos - 1 {
                crate::bytesutil::lemma_bytes_lt_trans(pre[a].0@, pre[pos - 1].0@, x.0@);
            }
            assert(crate::bytesutil::bytes_lt(pre[a].0@, x.0@));
        }
        if b > pos {
            assert(crate::bytesutil::bytes_lt(x.0@, pre[b - 1].0@));
        }
        if a < pos && b > pos {
            crate::bytesutil::lemma_bytes_lt_trans(pre[a].0@, x.0@, pre[b - 1].0@);
        }
    };
}


/// One step of the sorted collection: inserting the item for entry `i`
/// keeps the list sorted, well formed, and in correspondence with the
/// first `i + 1` entries.
#[verifier::rlimit(100)]
proof fn lemma_collect_insert(
    objects: Map<Seq<u8>, EnvModel>,
    entries: Seq<(Vec<u8>, Vec<u8>)>,
    i: int,
    pre: Seq<(Vec<u8>, u8, Vec<u8>)>,
    post: Seq<(Vec<u8>, u8, Vec<u8>)>,
    pos: int,
    x: (Vec<u8>, u8, Vec<u8>),
)
    requires
        0 <= pos <= pre.len(),
        post == pre.insert(pos, x),
        0 <= i < entries.len(),
        forall|a: int, b: int|
            0 <= a < b < pre.len() ==> crate::bytesutil::bytes_lt(
                (#[trigger] pre[a]).0@,
                (#[trigger] pre[b]).0@,
            ),
        pos > 0 ==> crate::bytesutil::bytes_lt(pre[pos - 1].0@, x.0@),
        forall|k: int|
            pos <= k < pre.len() ==> crate::bytesutil::bytes_lt(x.0@, (#[trigger] pre[k]).0@),
        forall|k: int| 0 <= k < pre.len() ==> item_ok(objects, #[trigger] pre[k]),
        item_ok(objects, x),
        forall|k: int|
            0 <= k < pre.len() ==> exists|j: int|
                0 <= j < i && (#[trigger] pre[k]).0@ == entries[j].0@,
        forall|j: int|
            0 <= j < i ==> exists|k: int|
                0 <= k < pre.len() && (#[trigger] entries[j]).0@ == pre[k].0@,
        x.0@ == entries[i].0@,
    ensures
        forall|a: int, b: int|
            0 <= a < b < post.len() ==> crate::bytesutil::bytes_lt(
                (#[trigger] post[a]).0@,
                (#[trigger] post[b]).0@,
            ),
        forall|k: int| 0 <= k < post.len() ==> item_ok(objects, #[trigger] post[k]),
        forall|k: int|
            0 <= k < post.len() ==> exists|j: int|
                0 <= j < i + 1 && (#[trigger] post[k]).0@ == entries[j].0@,
        forall|j: int|
            0 <= j < i + 1 ==> exists|k: int|
                0 <= k < post.len() && (#[trigger] entries[j]).0@ == post[k].0@,
{
    assert(post.len() == pre.len() + 1);
    assert(forall|k: int| 0 <= k < pos ==> #[trigger] post[k] == pre[k]);
    assert(post[pos] == x);
    assert(forall|k: int| pos < k < post.len() ==> #[trigger] post[k] == pre[k - 1]);
    lemma_sorted_insert(pre, post, pos, x);
    assert forall|k: int| 0 <= k < post.len() implies item_ok(objects, #[trigger] post[k]) by {
        if k < pos {
            assert(post[k] == pre[k]);
        } else if k > pos {
            assert(post[k] == pre[k - 1]);
        }
    };
    assert forall|k: int| 0 <= k < post.len() implies exists|j: int|
        0 <= j < i + 1 && (#[trigger] post[k]).0@ == entries[j].0@ by {
        if k < pos {
            assert(post[k] == pre[k]);
            let j = choose|j: int| 0 <= j < i && (#[trigger] pre[k]).0@ == entries[j].0@;
            assert(post[k].0@ == entries[j].0@);
        } else if k > pos {
            assert(post[k] == pre[k - 1]);
            let j = choose|j: int| 0 <= j < i && (#[trigger] pre[k - 1]).0@ == entries[j].0@;
            assert(post[k].0@ == entries[j].0@);
        } else {
            assert(post[k].0@ == entries[i].0@);
        }
    };
    assert forall|j: int| 0 <= j < i + 1 implies exists|k: int|
        0 <= k < post.len() && (#[trigger] entries[j]).0@ == post[k].0@ by {
        if j == i {
            assert(post[pos].0@ == entries[j].0@);
        } else {
            let k0 = choose|k: int| 0 <= k < pre.len() && (#[trigger] entries[j]).0@ == pre[k].0@;
            if k0 < pos {
                assert(post[k0].0@ == entries[j].0@);
            } else {
                assert(post[k0 + 1] == pre[k0]);
                assert(post[k0 + 1].0@ == entries[j].0@);
            }
        }
    };
}

impl LooseStore {
    /// Decodes one entry back into its record type and payload.
    fn decode_entry(&self, i: usize) -> (r: (Vec<u8>, u8, Vec<u8>))
        requires
            self.wf(),
            i < self.entries@.len(),
        ensures
            r.0@ == self.entries@[i as int].0@,
            item_ok(self.objects(), r),
    {
        proof {
            assert(self.entry_ok(i as int));
        }
        let ghost m = self.objects@[self.entries@[i as int].0@];
        let framed = match zlib_inflate(&self.entries[i].1) {
            Ok(v) => v,
            Err(_) => {
                proof {
                    assert(false);
                }
                return (Vec::new(), 0, Vec::new());
            },
        };
        let env = match parse_framed(&framed) {
            Ok(env) => env,
            Err(_) => {
                proof {
                    lemma_frame_roundtrip(m);
                    assert(false);
                }
                return (Vec::new(), 0, Vec::new());
            },
        };
        proof {
            lemma_frame_roundtrip(m);
            assert(env@ == m);
        }
        let (t, payload): (u8, Vec<u8>) = match env {
            Envelope::Blob(v) => (0, v),
            Envelope::Event(v) => (1, v),
            Envelope::Version(v) => (2, v),
        };
        let alen = self.entries[i].0.len();
        let addr = crate::bytesutil::copy_range(&self.entries[i].0, 0, alen);
        proof {
            assert(addr@ =~= self.entries@[i as int].0@);
        }
        (addr, t, payload)
    }

    /// Collects every stored object as (address, record type, payload),
    /// sorted ascending by address.
    #[verifier::loop_isolation(false)]
    #[verifier::rlimit(100)]
    fn collect_sorted(&self) -> (items: Vec<(Vec<u8>, u8, Vec<u8>)>)
        requires
            self.wf(),
        ensures
            forall|a: int, b: int|
                0 <= a < b < items@.len() ==> crate::bytesutil::bytes_lt(
                    (#[trigger] items@[a]).0@,
                    (#[trigger] items@[b]).0@,
                ),
            forall|k: int| 0 <= k < items@.len() ==> item_ok(self.objects(), #[trigger] items@[k]),
            forall|a: Seq<u8>|
                self.objects().contains_key(a) ==> exists|k: int|
                    0 <= k < items@.len() && (#[trigger] items@[k]).0@ == a,
    {
        let n = self.entries.len();
        let mut items: Vec<(Vec<u8>, u8, Vec<u8>)> = Vec::new();
        let mut i: usize = 0;
        while i < n
            invariant
                i <= n,
                forall|a: int, b: int|
                    0 <= a < b < items@.len() ==> crate::bytesutil::bytes_lt(
                        (#[trigger] items@[a]).0@,
                        (#[trigger] items@[b]).0@,
                    ),
                forall|k: int|
                    0 <= k < items@.len() ==> item_ok(self.objects(), #[trigger] items@[k]),
                forall|k: int|
                    0 <= k < items@.len() ==> exists|j: int|
                        0 <= j < i && (#[trigger] items@[k]).0@ == self.entries@[j].0@,
                forall|j: int|
                    0 <= j < i ==> exists|k: int|
                        0 <= k < items@.len() && (#[trigger] self.entries@[j]).0@ == items@[k].0@,
            decreases n - i,
        {
            let (addr, t, payload) = self.decode_entry(i);
            proof {
                // the new address is distinct from every collected one
                assert forall|k: int| 0 <= k < items@.len() implies (#[trigger] items@[k]).0@
                    != addr@ by {
                    let j = choose|j: int|
                        0 <= j < i && (#[trigger] items@[k]).0@ == self.entries@[j].0@;
                };
            }
            let mut pos = items.len();
            while pos > 0 && items_addr_gt(&items, pos - 1, &addr)
                invariant
                    pos <= items@.len(),
                    forall|k: int|
                        pos <= k < items@.len() ==> crate::bytesutil::bytes_lt(
                            addr@,
                            (#[trigger] items@[k]).0@,
                        ),
                decreases pos,
            {
                pos = pos - 1;
            }
            proof {
                if pos > 0 {
                    crate::bytesutil::lemma_bytes_lt_trichotomy(
                        items@[pos - 1].0@,
                        addr@,
                    );
                    assert(crate::bytesutil::bytes_lt(items@[pos - 1].0@, addr@));
                }
            }
            let ghost pre = items@;
            let ghost x = (addr, t, payload);
            items.insert(pos, (addr, t, payload));
            proof {
                lemma_collect_insert(
                    self.objects(),
                    self.entries@,
                    i as int,
                    pre,
                    items@,
                    pos as int,
                    x,
                );
            }
            i = i + 1;
        }
        proof {
            assert forall|a: Seq<u8>| self.objects().contains_key(a) implies exists|k: int|
                0 <= k < items@.len() && (#[trigger] items@[k]).0@ == a by {
                let j = choose|j: int|
                    0 <= j < self.entries@.len() && (#[trigger] self.entries@[j]).0@ == a;
            };
        }
        items
    }
}


/// Writes the pack image: magic `ENTS`, version, object count, then one
/// framed and deflated record per item, in order.  Returns the pack bytes,
/// each record's start offset, and (for the proof) each record's bytes.
#[verifier::loop_isolation(false)]
#[verifier::rlimit(100)]
fn write_pack(items: &Vec<(Vec<u8>, u8, Vec<u8>)>) -> (r: (Vec<u8>, Vec<u64>, Ghost<
    Seq<Seq<u8>>,
>))
    requires
        forall|k: int| 0 <= k < items@.len() ==> (#[trigger] items@[k]).1 < 3,
    ensures
        ({
            let (pack, offsets, recs) = r;
            &&& offsets@.len() == items@.len()
            &&& recs@.len() == items@.len()
            &&& pack@.len() >= 16
            &&& pack@.subrange(0, 16) == pack_prefix(items@.len() as nat)
            &&& (offsets@.len() > 0 ==> offsets@[0] == 16)
            &&& forall|a: int|
                0 <= a < items@.len() ==> (#[trigger] recs@[a]) == pack_header_enc(
                    items@[a].1,
                    items@[a].2@.len() as nat,
                ) + deflate_of(items@[a].2@)
            &&& forall|a: int, b: int| 0 <= a < b < offsets@.len() ==> offsets@[a] < offsets@[b]
            &&& forall|a: int| 0 <= a < offsets@.len() ==> (#[trigger] offsets@[a]) < pack@.len()
            &&& forall|a: int|
                0 <= a < offsets@.len() ==> offsets@[a] + (#[trigger] recs@[a]).len() == (
                if a + 1 < offsets@.len() {
                    offsets@[a + 1] as int
                } else {
                    pack@.len() as int
                })
            &&& forall|a: int|
                0 <= a < offsets@.len() ==> pack@.subrange(
                    offsets@[a] as int,
                    offsets@[a] + (#[trigger] recs@[a]).len(),
                ) == recs@[a]
            &&& forall|a: int|
                0 <= a < offsets@.len() ==> record_parse(#[trigger] recs@[a]) == Ok::<
                    (u8, Seq<u8>),
                    ObjectStoreError,
                >((items@[a].1, items@[a].2@))
        }),
{
    let count = items.len();
    let mut pack: Vec<u8> = Vec::new();
    pack.push(69);
    pack.push(78);
    pack.push(84);
    pack.push(83);
    crate::numcodec::write_u32_be(&mut pack, 0);
    crate::numcodec::write_u64_be(&mut pack, count as u64);
    proof {
        assert(pack@ =~= pack_prefix(count as nat));
        assert(pack@.subrange(0, 16) =~= pack@);
    }
    let mut offsets: Vec<u64> = Vec::new();
    let ghost mut recs: Seq<Seq<u8>> = Seq::empty();
    let mut k: usize = 0;
    while k < count
        invariant
            k <= count,
            offsets@.len() == k,
            recs.len() == k,
            pack@.len() >= 16,
            k == 0 ==> pack@.len() == 16,
            pack@.subrange(0, 16) == pack_prefix(count as nat),
            k > 0 ==> offsets@[0] == 16,
            forall|a: int|
                0 <= a < k ==> (#[trigger] recs[a]) == pack_header_enc(
                    items@[a].1,
                    items@[a].2@.len() as nat,
                ) + deflate_of(items@[a].2@),
            forall|a: int, b: int| 0 <= a < b < k ==> offsets@[a] < offsets@[b],
            forall|a: int| 0 <= a < k ==> (#[trigger] offsets@[a]) < pack@.len(),
            forall|a: int|
                0 <= a < k ==> offsets@[a] + (#[trigger] recs[a]).len() == (
                if a + 1 < k {
                    offsets@[a + 1] as int
                } else {
                    pack@.len() as int
                }),
            forall|a: int|
                0 <= a < k ==> pack@.subrange(
                    offsets@[a] as int,
                    offsets@[a] + (#[trigger] recs[a]).len(),
                ) == recs[a],
            forall|a: int|
                0 <= a < k ==> record_parse(#[trigger] recs[a]) == Ok::<
                    (u8, Seq<u8>),
                    ObjectStoreError,
                >((items@[a].1, items@[a].2@)),
        decreases count - k,
    {
        let off = pack.len() as u64;
        let ghost pre_pack = pack@;
        offsets.push(off);
        let t = items[k].1;
        let psize = items[k].2.len();
        write_pack_header(&mut pack, t, psize as u64);
        let z = zlib_deflate(&items[k].2);
        crate::bytesutil::push_all(&mut pack, &z);
        let ghost rec = pack@.skip(pre_pack.len() as int);
        proof {
            assert(pack@.subrange(0, 16) =~= pre_pack.subrange(0, 16));
            assert(rec =~= pack_header_enc(t, psize as nat) + z@);
            assert(rec == pack_header_enc(items@[k as int].1, items@[k as int].2@.len() as nat)
                + deflate_of(items@[k as int].2@));
            lemma_pack_header_roundtrip(t, psize as nat, z@);
            assert(rec.skip(pack_header_enc(t, psize as nat).len() as int) =~= z@);
            assert(record_parse(rec) == Ok::<(u8, Seq<u8>), ObjectStoreError>(
                (t, items@[k as int].2@),
            ));
            recs = recs.push(rec);
            assert(pack@.subrange(off as int, off + rec.len()) =~= rec);
            assert forall|a: int| 0 <= a < k implies pack@.subrange(
                offsets@[a] as int,
                offsets@[a] + (#[trigger] recs[a]).len(),
            ) == recs[a] by {
                assert(offsets@[a] + recs[a].len() <= pre_pack.len());
                assert(pack@.subrange(offsets@[a] as int, offsets@[a] + recs[a].len())
                    =~= pre_pack.subrange(offsets@[a] as int, offsets@[a] + recs[a].len()));
            };
        }
        k = k + 1;
    }
    (pack, offsets, Ghost(recs))
}


/// Builds the fanout: entry `b` counts the addresses whose first byte is
/// at most `b`.
#[verifier::loop_isolation(false)]
#[verifier::rlimit(100)]
fn build_fanout(items: &Vec<(Vec<u8>, u8, Vec<u8>)>) -> (fanout: Vec<u32>)
    requires
        items@.len() <= u32::MAX,
        forall|k: int| 0 <= k < items@.len() ==> (#[trigger] items@[k]).0@.len() == 32,
        forall|a: int, b: int|
            0 <= a < b < items@.len() ==> crate::bytesutil::bytes_lt(
                (#[trigger] items@[a]).0@,
                (#[trigger] items@[b]).0@,
            ),
    ensures
        fanout@.len() == 256,
        fanout@[255] == items@.len(),
        forall|b: int, i: int|
            0 <= b < 256 && 0 <= i < items@.len() ==> {
                &&& (i < #[trigger] fanout@[b] ==> (#[trigger] items@[i]).0@[0] <= b)
                &&& (i >= fanout@[b] ==> items@[i].0@[0] > b)
            },
{
    let count = items.len();
    let mut fanout: Vec<u32> = Vec::new();
    let mut ptr: usize = 0;
    let mut b: usize = 0;
    while b < 256
        invariant
            b <= 256,
            ptr <= count,
            fanout@.len() == b,
            forall|i: int| 0 <= i < ptr ==> (#[trigger] items@[i]).0@[0] < b,
            forall|i: int| ptr <= i < count ==> (#[trigger] items@[i]).0@[0] >= b,
            forall|bb: int| 0 <= bb < b ==> (#[trigger] fanout@[bb]) <= count,
            forall|bb: int, i: int|
                0 <= bb < b && 0 <= i < count ==> {
                    &&& (i < #[trigger] fanout@[bb] ==> (#[trigger] items@[i]).0@[0] <= bb)
                    &&& (i >= fanout@[bb] ==> items@[i].0@[0] > bb)
                },
        decreases 256 - b,
    {
        while ptr < count && items_first_le(items, ptr, b)
            invariant
                ptr <= count,
                forall|i: int| 0 <= i < ptr ==> (#[trigger] items@[i]).0@[0] <= b,
            decreases count - ptr,
        {
            ptr = ptr + 1;
        }
        proof {
            assert forall|i: int| ptr <= i < count implies (#[trigger] items@[i]).0@[0]
                > b by {
                if i > ptr {
                    crate::bytesutil::lemma_bytes_lt_first(items@[ptr as int].0@, items@[i].0@);
                }
            };
        }
        fanout.push(ptr as u32);
        b = b + 1;
    }
    proof {
        assert(fanout@[255] >= items@.len()) by {
            if items@.len() > fanout@[255] {
                assert(items@[fanout@[255] as int].0@[0] > 255);
            }
        };
    }
    fanout
}

/// Serializes the index: magic `EIDX`, version, fanout, sorted addresses,
/// then each record's start offset as a big-endian 32-bit value.
///
/// A start offset beyond the 32-bit range cannot be represented and fails
/// with `LengthMismatch`.
#[verifier::loop_isolation(false)]
#[verifier::rlimit(100)]
fn write_idx(fanout: &Vec<u32>, items: &Vec<(Vec<u8>, u8, Vec<u8>)>, offsets: &Vec<u64>) -> (r:
    Result<(Vec<u8>, Ghost<Seq<u32>>), ObjectStoreError>)
    requires
        fanout@.len() == 256,
        offsets@.len() == items@.len(),
    ensures
        match r {
            Ok((idx, offs32)) => {
                &&& offs32@.len() == offsets@.len()
                &&& forall|i: int| 0 <= i < offs32@.len() ==> (#[trigger] offs32@[i]) as u64
                    == offsets@[i]
                &&& idx@ == seq![69u8, 73u8, 68u8, 88u8, 0u8, 0u8, 0u8, 0u8] + u32s_be(fanout@)
                    + crate::bytesutil::concat_bytes(addrs_of(items@)) + u32s_be(offs32@)
            },
            Err(e) => e is LengthMismatch && exists|k: int|
                0 <= k < offsets@.len() && #[trigger] offsets@[k] > 0xffff_ffff,
        },
{
    let count = items.len();
    let mut idx: Vec<u8> = Vec::new();
    idx.push(69);
    idx.push(73);
    idx.push(68);
    idx.push(88);
    crate::numcodec::write_u32_be(&mut idx, 0);
    let ghost hdr = idx@;
    proof {
        assert(((0u32 >> 24) & 0xff) == 0 && ((0u32 >> 16) & 0xff) == 0 && ((0u32 >> 8) & 0xff)
            == 0 && (0u32 & 0xff) == 0) by (bit_vector);
        assert(hdr =~= seq![69u8, 73u8, 68u8, 88u8, 0u8, 0u8, 0u8, 0u8]);
    }
    let mut b: usize = 0;
    while b < 256
        invariant
            b <= 256,
            idx@ == hdr + u32s_be(fanout@.subrange(0, b as int)),
        decreases 256 - b,
    {
        proof {
            lemma_u32s_be_snoc(fanout@.subrange(0, b as int), fanout@[b as int]);
            assert(fanout@.subrange(0, b as int).push(fanout@[b as int]) =~= fanout@.subrange(
                0,
                b + 1,
            ));
        }
        crate::numcodec::write_u32_be(&mut idx, fanout[b]);
        b = b + 1;
    }
    proof {
        assert(fanout@.subrange(0, 256) =~= fanout@);
    }
    let ghost base1 = idx@;
    let mut k: usize = 0;
    while k < count
        invariant
            k <= count,
            idx@ == base1 + crate::bytesutil::concat_bytes(addrs_of(items@).subrange(0, k as int)),
        decreases count - k,
    {
        proof {
            let pre = addrs_of(items@).subrange(0, k as int);
            let cur = addrs_of(items@).subrange(0, k + 1);
            assert(cur.drop_last() =~= pre);
            assert(cur.last() == items@[k as int].0@);
        }
        crate::bytesutil::push_all(&mut idx, &items[k].0);
        k = k + 1;
    }
    proof {
        assert(addrs_of(items@).subrange(0, count as int) =~= addrs_of(items@));
    }
    let ghost base2 = idx@;
    let ghost mut offs32: Seq<u32> = Seq::empty();
    let mut k: usize = 0;
    while k < count
        invariant
            k <= count,
            offs32.len() == k,
            forall|i: int| 0 <= i < k ==> (#[trigger] offs32[i]) as u64 == offsets@[i],
            idx@ == base2 + u32s_be(offs32),
        decreases count - k,
    {
        let off = offsets[k];
        if off > 0xffff_ffff {
            return Err(ObjectStoreError::LengthMismatch);
        }
        proof {
            lemma_u32s_be_snoc(offs32, off as u32);
        }
        crate::numcodec::write_u32_be(&mut idx, off as u32);
        proof {
            offs32 = offs32.push(off as u32);
        }
        k = k + 1;
    }
    Ok((idx, Ghost(offs32)))
}


/// Index bytes assembled from a fanout, sorted addresses and offsets parse
/// back to exactly those three sections.
#[verifier::rlimit(100)]
proof fn lemma_idx_parses(i_bytes: Seq<u8>, fanout: Seq<u32>, ids: Seq<Seq<u8>>, offs32: Seq<u32>)
    requires
        fanout.len() == 256,
        ids.len() == offs32.len(),
        fanout[255] == ids.len(),
        forall|k: int| 0 <= k < ids.len() ==> (#[trigger] ids[k]).len() == 32,
        i_bytes == seq![69u8, 73u8, 68u8, 88u8, 0u8, 0u8, 0u8, 0u8] + u32s_be(fanout)
            + crate::bytesutil::concat_bytes(ids) + u32s_be(offs32),
    ensures
        crate::packed::idx_parse(i_bytes) matches Ok(m) && m.fanout == fanout && m.ids == ids
            && m.offsets == offs32,
{
    let n = ids.len() as int;
    let hdr = seq![69u8, 73u8, 68u8, 88u8, 0u8, 0u8, 0u8, 0u8];
    let fb = u32s_be(fanout);
    let cb = crate::bytesutil::concat_bytes(ids);
    let ob = u32s_be(offs32);
    lemma_u32s_be_len(fanout);
    crate::bytesutil::lemma_concat_bytes_len(ids, 32);
    lemma_u32s_be_len(offs32);
    assert(cb.len() == n * 32);
    assert(ob.len() == n * 4);
    assert(i_bytes.len() == 1032 + n * 32 + n * 4);
    assert(n * 32 + n * 4 == n * 36) by (nonlinear_arith);
    assert(i_bytes.len() == 1032 + n * 36);
    assert(i_bytes.subrange(0, 4) =~= seq![69u8, 73u8, 68u8, 88u8]);
    assert(i_bytes.subrange(4, 8) =~= seq![0u8, 0u8, 0u8, 0u8]);
    let pf = Seq::new(
        256,
        |b: int| crate::numcodec::u32_of_be(
            i_bytes[8 + 4 * b],
            i_bytes[9 + 4 * b],
            i_bytes[10 + 4 * b],
            i_bytes[11 + 4 * b],
        ),
    );
    assert forall|b: int| 0 <= b < 256 implies pf[b] == fanout[b] by {
        lemma_u32s_be_index(fanout, b, 0);
        lemma_u32s_be_index(fanout, b, 1);
        lemma_u32s_be_index(fanout, b, 2);
        lemma_u32s_be_index(fanout, b, 3);
        assert(i_bytes[8 + 4 * b] == fb[4 * b + 0]);
        assert(i_bytes[9 + 4 * b] == fb[4 * b + 1]);
        assert(i_bytes[10 + 4 * b] == fb[4 * b + 2]);
        assert(i_bytes[11 + 4 * b] == fb[4 * b + 3]);
        lemma_u32_field_roundtrip(fanout[b]);
    };
    assert(pf =~= fanout);
    assert(pf[255] == ids.len());
    let pids = Seq::new(n as nat, |i: int| i_bytes.subrange(1032 + 32 * i, 1064 + 32 * i));
    assert forall|i: int| 0 <= i < n implies pids[i] == ids[i] by {
        assert forall|j: int| 0 <= j < 32 implies i_bytes.subrange(
            1032 + 32 * i,
            1064 + 32 * i,
        )[j] == ids[i][j] by {
            crate::bytesutil::lemma_concat_bytes_index(ids, 32, i, j);
            assert(32 * i + j < n * 32) by (nonlinear_arith)
                requires
                    0 <= i < n,
                    0 <= j < 32,
            ;
            assert(i_bytes[1032 + 32 * i + j] == cb[32 * i + j]);
            assert(cb[i * 32 + j] == ids[i][j]);
            assert(32 * i + j == i * 32 + j) by (nonlinear_arith);
        };
        assert(pids[i] =~= ids[i]);
    };
    assert(pids =~= ids);
    let pob = 1032 + 32 * n;
    let poff = Seq::new(
        n as nat,
        |i: int| crate::numcodec::u32_of_be(
            i_bytes[pob + 4 * i],
            i_bytes[pob + 4 * i + 1],
            i_bytes[pob + 4 * i + 2],
            i_bytes[pob + 4 * i + 3],
        ),
    );
    assert forall|i: int| 0 <= i < n implies poff[i] == offs32[i] by {
        lemma_u32s_be_index(offs32, i, 0);
        lemma_u32s_be_index(offs32, i, 1);
        lemma_u32s_be_index(offs32, i, 2);
        lemma_u32s_be_index(offs32, i, 3);
        assert(4 * i + 3 < n * 4) by (nonlinear_arith)
            requires
                0 <= i < n,
        ;
        assert(i_bytes[pob + 4 * i] == ob[4 * i + 0]);
        assert(i_bytes[pob + 4 * i + 1] == ob[4 * i + 1]);
        assert(i_bytes[pob + 4 * i + 2] == ob[4 * i + 2]);
        assert(i_bytes[pob + 4 * i + 3] == ob[4 * i + 3]);
        lemma_u32_field_roundtrip(offs32[i]);
    };
    assert(poff =~= offs32);
}


impl LooseStore {
    /// Compacts every loose object into a pack image and its index.
    ///
    /// The index parses back, is sound, and lists exactly the stored
    /// addresses; each record region reads back as the envelope stored
    /// under its address, so the pack serves what the loose store did,
    /// and the pack opens with the `ENTS` header, version and count, the
    /// first record at byte 16.  A store whose pack would outgrow the
    /// index's 32-bit offsets fails with `LengthMismatch`.
    #[verifier::loop_isolation(false)]
    #[verifier::rlimit(100)]
    pub fn to_packed_store(&self) -> (r: Result<(Vec<u8>, Vec<u8>), ObjectStoreError>)
        requires
            self.wf(),
        ensures
            match r {
                Ok(pi) => compacted_ok(self.objects(), pi.0@, pi.1@),
                Err(e) => e is LengthMismatch,
            },
    {
        let items = self.collect_sorted();
        let count = items.len();
        if count as u64 > 0xffff_ffff {
            return Err(ObjectStoreError::LengthMismatch);
        }
        let (pack, offsets, recs_g) = write_pack(&items);
        let ghost recs = recs_g@;
        let fanout = build_fanout(&items);
        let (idx, offs32_g) = match write_idx(&fanout, &items, &offsets) {
            Ok(x) => x,
            Err(e) => {
                return Err(e);
            },
        };
        let ghost offs32 = offs32_g@;
        proof {
            let ids = addrs_of(items@);
            assert(forall|k: int| 0 <= k < ids.len() ==> (#[trigger] ids[k]).len() == 32);
            lemma_idx_parses(idx@, fanout@, ids, offs32);
            let m = crate::packed::idx_parse(idx@).unwrap();
            let offs = m.offsets.map_values(|o: u32| o as u64);
            assert(offs =~= offsets@);
            // the index is sound
            assert(forall|a: int, b: int|
                0 <= a < b < m.ids.len() ==> crate::bytesutil::bytes_lt(
                    #[trigger] m.ids[a],
                    #[trigger] m.ids[b],
                ));
            assert(model_swf(m, pack@.len() as nat));
            // it lists exactly the stored addresses
            assert forall|i: int| 0 <= i < m.ids.len() implies self.objects().contains_key(
                #[trigger] m.ids[i],
            ) by {
                assert(item_ok(self.objects(), items@[i]));
            };
            assert forall|a: Seq<u8>| self.objects().contains_key(a) implies exists|i: int|
                0 <= i < m.ids.len() && (#[trigger] m.ids[i]) == a by {
                let k = choose|k: int|
                    0 <= k < items@.len() && (#[trigger] items@[k]).0@ == a;
                assert(m.ids[k] == a);
            };
            // every record region reads back as the stored envelope
            assert forall|i: int| 0 <= i < m.ids.len() implies crate::packed::bounds_object(
                pack@,
                offs[i],
                end_of_model(offs, pack@.len() as u64, i),
            ) == Ok::<EnvModel, ObjectStoreError>(self.objects()[#[trigger] m.ids[i]]) by {
                lemma_min_greater_sorted(offsets@, i);
                let start = offsets@[i];
                let end = end_of_model(offs, pack@.len() as u64, i);
                assert(pack.len() == pack@.len());
                if i + 1 < offsets@.len() {
                    assert(min_greater(offsets@, offsets@[i]) == Some(offsets@[i + 1]));
                } else {
                    assert(min_greater(offsets@, offsets@[i]) is None);
                }
                assert(end == start + recs[i].len());
                assert(pack@.subrange(start as int, start + recs[i].len()) == recs[i]);
                assert(record_parse(recs[i]) == Ok::<(u8, Seq<u8>), ObjectStoreError>(
                    (items@[i].1, items@[i].2@),
                ));
                assert(item_ok(self.objects(), items@[i]));
                assert(item_env(items@[i].1, items@[i].2@) == self.objects()[m.ids[i]]);
            };
            // the pack opens with its header, records contiguous from byte 16
            assert(m.ids.len() == items@.len());
            assert(pack@.subrange(0, 16) == pack_prefix(m.ids.len() as nat));
            assert(compacted_ok(self.objects(), pack@, idx@));
        }
        Ok((pack, idx))
    }
}

/// Dedup law: adding an envelope to a store that does not yet hold it
/// reports true, and adding it again reports false and changes nothing,
/// leaving exactly one object under its address.
pub proof fn lemma_add_dedup(m: Map<Seq<u8>, EnvModel>, e: EnvModel)
    requires
        !m.contains_key(e.addr()),
    ensures
        ({
            let (r1, m1) = add_spec(m, e);
            let (r2, m2) = add_spec(m1, e);
            &&& r1 == true
            &&& r2 == false
            &&& m2 == m1
            &&& m1.dom() =~= m.dom().insert(e.addr())
            &&& m1[e.addr()] == e
        }),
{
}

} // verus!
