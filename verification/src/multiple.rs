//! Readable stores and priority-ordered composites: the unit reader that
//! holds nothing, a pair that asks its left child first, and a sequence of
//! readers asked in order.

use vstd::prelude::*;

use crate::envelope::{EnvModel, Envelope};
use crate::errors::ObjectStoreError;
use crate::loose::{add_spec, LooseStore};

verus! {

/// Placeholder stream type for store listings.
pub struct FusedEnvelopeStream;

/// A read-only store of envelopes, looked up by 32-byte content address.
pub trait ReadableStore {
    /// The store's own well-formedness condition.
    spec fn inv(&self) -> bool;

    /// The envelopes this store can serve, by content address.
    spec fn env_map(&self) -> Map<Seq<u8>, EnvModel>;

    /// Whether every lookup on this store succeeds: no backing record is
    /// malformed.  An error-free store never answers `Err`.
    spec fn err_free(&self) -> bool;

    /// Blocking lookup: `Ok(None)` for an absent address, the stored
    /// envelope for a present one; errors only on stores whose backing
    /// bytes are malformed.
    fn get_sync(&self, item: &Vec<u8>) -> (r: Result<Option<Envelope>, ObjectStoreError>)
        requires
            self.inv(),
            item@.len() == 32,
        ensures
            match r {
                Ok(Some(env)) => self.env_map().contains_key(item@) && env@ == self.env_map()[
                    item@],
                Ok(None) => !self.env_map().contains_key(item@),
                Err(_) => !self.err_free(),
            },
    ;
}

/// The unit reader: holds nothing and always answers `Ok(None)`.
impl ReadableStore for () {
    open spec fn inv(&self) -> bool {
        true
    }

    open spec fn env_map(&self) -> Map<Seq<u8>, EnvModel> {
        Map::empty()
    }

    open spec fn err_free(&self) -> bool {
        true
    }

    fn get_sync(&self, item: &Vec<u8>) -> (r: Result<Option<Envelope>, ObjectStoreError>)
        ensures
            r == Ok::<Option<Envelope>, ObjectStoreError>(None),
    {
        Ok(None)
    }
}

impl ReadableStore for LooseStore {
    open spec fn inv(&self) -> bool {
        self.wf()
    }

    open spec fn env_map(&self) -> Map<Seq<u8>, EnvModel> {
        self.objects()
    }

    open spec fn err_free(&self) -> bool {
        true
    }

    fn get_sync(&self, item: &Vec<u8>) -> (r: Result<Option<Envelope>, ObjectStoreError>)
        ensures
            r is Ok,
    {
        self.get(item)
    }
}

/// A pair of readers: the left child has priority, the right one answers
/// what the left does not hold.
impl<R0: ReadableStore, R1: ReadableStore> ReadableStore for (R0, R1) {
    open spec fn inv(&self) -> bool {
        self.0.inv() && self.1.inv()
    }

    open spec fn env_map(&self) -> Map<Seq<u8>, EnvModel> {
        self.1.env_map().union_prefer_right(self.0.env_map())
    }

    open spec fn err_free(&self) -> bool {
        self.0.err_free() && self.1.err_free()
    }

    fn get_sync(&self, item: &Vec<u8>) -> (r: Result<Option<Envelope>, ObjectStoreError>) {
        match self.0.get_sync(item) {
            Ok(Some(env)) => Ok(Some(env)),
            Ok(None) => self.1.get_sync(item),
            Err(e) => Err(e),
        }
    }
}


/// A store that can also be written: `add` stores an envelope under its
/// content address and reports whether it was new.
pub trait WritableStore: ReadableStore {
    fn add(&mut self, object: Envelope) -> (r: bool)
        requires
            old(self).inv(),
        ensures
            final(self).inv(),
            (r, final(self).env_map()) == add_spec(old(self).env_map(), object@),
    ;
}

impl WritableStore for LooseStore {
    fn add(&mut self, object: Envelope) -> (r: bool) {
        LooseStore::add(self, object)
    }
}

/// What a sequence of readers serves: the leftmost store holding an
/// address wins.
pub open spec fn stores_map<R: ReadableStore>(s: Seq<R>) -> Map<Seq<u8>, EnvModel>
    decreases s.len(),
{
    if s.len() == 0 {
        Map::empty()
    } else {
        stores_map(s.drop_first()).union_prefer_right(s.first().env_map())
    }
}

proof fn lemma_stores_map_prefix<R: ReadableStore>(s: Seq<R>, k: Seq<u8>, i: int)
    requires
        0 <= i <= s.len(),
        forall|j: int| 0 <= j < i ==> !(#[trigger] s[j]).env_map().contains_key(k),
    ensures
        stores_map(s).contains_key(k) <==> stores_map(s.skip(i)).contains_key(k),
        stores_map(s).contains_key(k) ==> stores_map(s)[k] == stores_map(s.skip(i))[k],
    decreases i,
{
    if i == 0 {
        assert(s.skip(0) =~= s);
    } else {
        lemma_stores_map_prefix(s, k, i - 1);
        let t = s.skip(i - 1);
        assert(t.len() > 0);
        assert(t.first() == s[i - 1]);
        assert(t.drop_first() =~= s.skip(i));
        assert(stores_map(t) == stores_map(s.skip(i)).union_prefer_right(s[i - 1].env_map()));
    }
}

/// A sequence of readers, asked in order; the first `Some` wins and errors
/// short-circuit.
impl<R: ReadableStore> ReadableStore for Vec<R> {
    open spec fn inv(&self) -> bool {
        forall|i: int| 0 <= i < self@.len() ==> (#[trigger] self@[i]).inv()
    }

    open spec fn env_map(&self) -> Map<Seq<u8>, EnvModel> {
        stores_map(self@)
    }

    open spec fn err_free(&self) -> bool {
        forall|i: int| 0 <= i < self@.len() ==> (#[trigger] self@[i]).err_free()
    }

    #[verifier::loop_isolation(false)]
    fn get_sync(&self, item: &Vec<u8>) -> (r: Result<Option<Envelope>, ObjectStoreError>) {
        let n = self.len();
        let mut i: usize = 0;
        while i < n
            invariant
                i <= n,
                forall|j: int| 0 <= j < i ==> !(#[trigger] self@[j]).env_map().contains_key(item@),
            decreases n - i,
        {
            proof {
                assert(self@[i as int].inv());
            }
            match self[i].get_sync(item) {
                Ok(Some(env)) => {
                    proof {
                        lemma_stores_map_prefix(self@, item@, i as int);
                        let t = self@.skip(i as int);
                        assert(t.first() == self@[i as int]);
                        assert(t.drop_first() =~= self@.skip(i + 1));
                    }
                    return Ok(Some(env));
                },
                Ok(None) => {
                    i = i + 1;
                },
                Err(e) => {
                    return Err(e);
                },
            }
        }
        proof {
            lemma_stores_map_prefix(self@, item@, n as int);
            assert(self@.skip(n as int).len() == 0);
        }
        Ok(None)
    }
}

} // verus!
