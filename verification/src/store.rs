//! Adapter over the embedded, ordered, durable key-value store. The store is
//! held opaquely and modelled as a map from byte-string keys to byte-string
//! values; get, put and prefix-scan are the only primitives.

use vstd::prelude::*;
use vstd::seq_lib::*;

verus! {

/// A failed get, put or scan of the underlying store; retryable at the
/// request level, never process-fatal.
#[derive(Debug, Clone, Copy, PartialEq, Eq, Structural)]
pub enum StoreError {
    Failure,
}

/// The embedded key-value store behind the board, held opaquely.
/// Its contents are modelled by [`store_map`].
#[verifier::external_body]
pub struct Store {
    db: sled::Db,
}

/// The contents of the store: which byte-string value each byte-string key
/// holds.
pub uninterp spec fn store_map(s: Store) -> Map<Seq<u8>, Seq<u8>>;

impl View for Store {
    type V = Map<Seq<u8>, Seq<u8>>;

    open spec fn view(&self) -> Map<Seq<u8>, Seq<u8>> {
        store_map(*self)
    }
}

/// A store with nothing in it.
pub open spec fn empty_store_map() -> Map<Seq<u8>, Seq<u8>> {
    Map::empty()
}

/// Whether the key `k` starts with the byte string `p`.
pub open spec fn has_prefix(k: Seq<u8>, p: Seq<u8>) -> bool {
    p.len() <= k.len() && k.take(p.len() as int) == p
}

/// The stored keys that start with `p`.
pub open spec fn prefixed_keys(m: Map<Seq<u8>, Seq<u8>>, p: Seq<u8>) -> Set<Seq<u8>> {
    m.dom().filter(|k: Seq<u8>| has_prefix(k, p))
}

/// How many stored keys start with `p`.
pub open spec fn count_keys(m: Map<Seq<u8>, Seq<u8>>, p: Seq<u8>) -> nat {
    prefixed_keys(m, p).len()
}

/// Strict lexicographic order on byte strings: the order in which the
/// store iterates its keys.
pub open spec fn bytes_lt(a: Seq<u8>, b: Seq<u8>) -> bool
    decreases a.len(),
{
    if b.len() == 0 {
        false
    } else if a.len() == 0 {
        true
    } else if a[0] < b[0] {
        true
    } else if a[0] > b[0] {
        false
    } else {
        bytes_lt(a.drop_first(), b.drop_first())
    }
}

/// The byte order is strict: of two distinct strings one is smaller, and
/// never both ways.
pub proof fn lemma_bytes_lt_asym(a: Seq<u8>, b: Seq<u8>)
    requires
        bytes_lt(a, b),
    ensures
        !bytes_lt(b, a),
        a != b,
    decreases a.len(),
{
    if b.len() > 0 && a.len() > 0 && a[0] == b[0] {
        lemma_bytes_lt_asym(a.drop_first(), b.drop_first());
        if a == b {
            assert(a.drop_first() =~= b.drop_first());
        }
    }
}

/// A strictly ascending sequence of keys is determined by the set of its
/// keys: two such sequences over the same set are equal.
pub proof fn lemma_ascending_unique(ks1: Seq<Seq<u8>>, ks2: Seq<Seq<u8>>)
    requires
        forall|q1: int, q2: int|
            0 <= q1 < q2 < ks1.len() ==> bytes_lt(#[trigger] ks1[q1], #[trigger] ks1[q2]),
        forall|q1: int, q2: int|
            0 <= q1 < q2 < ks2.len() ==> bytes_lt(#[trigger] ks2[q1], #[trigger] ks2[q2]),
        ks1.to_set() == ks2.to_set(),
    ensures
        ks1 == ks2,
    decreases ks1.len(),
{
    if ks1.len() == 0 {
        if ks2.len() > 0 {
            assert(ks2.to_set().contains(ks2[0]));
            assert(ks1.to_set().contains(ks2[0]));
        }
        assert(ks1 =~= ks2);
    } else if ks2.len() == 0 {
        assert(ks1.to_set().contains(ks1[0]));
        assert(ks2.to_set().contains(ks1[0]));
    } else {
        assert(ks1.to_set().contains(ks2[0]));
        let q1 = choose|q: int| 0 <= q < ks1.len() && ks1[q] == ks2[0];
        assert(ks2.to_set().contains(ks1[0]));
        let q2 = choose|q: int| 0 <= q < ks2.len() && ks2[q] == ks1[0];
        if ks1[0] != ks2[0] {
            assert(q1 != 0 && q2 != 0);
            assert(bytes_lt(ks1[0], ks1[q1]));
            assert(bytes_lt(ks2[0], ks2[q2]));
            lemma_bytes_lt_asym(ks1[0], ks2[0]);
            assert(false);
        }
        assert(ks1.drop_first().to_set() =~= ks1.to_set().remove(ks1[0])) by {
            assert forall|x: Seq<u8>| ks1.drop_first().to_set().contains(x) implies ks1.to_set()
                .remove(ks1[0]).contains(x) by {
                let q = choose|q: int| 0 <= q < ks1.drop_first().len() && ks1.drop_first()[q]
                    == x;
                assert(ks1[q + 1] == x);
                assert(bytes_lt(ks1[0], x));
                lemma_bytes_lt_asym(ks1[0], x);
            }
            assert forall|x: Seq<u8>| ks1.to_set().remove(ks1[0]).contains(x) implies ks1
                .drop_first().to_set().contains(x) by {
                let q = choose|q: int| 0 <= q < ks1.len() && ks1[q] == x;
                assert(q != 0);
                assert(ks1.drop_first()[q - 1] == x);
            }
        }
        assert(ks2.drop_first().to_set() =~= ks2.to_set().remove(ks2[0])) by {
            assert forall|x: Seq<u8>| ks2.drop_first().to_set().contains(x) implies ks2.to_set()
                .remove(ks2[0]).contains(x) by {
                let q = choose|q: int| 0 <= q < ks2.drop_first().len() && ks2.drop_first()[q]
                    == x;
                assert(ks2[q + 1] == x);
                assert(bytes_lt(ks2[0], x));
                lemma_bytes_lt_asym(ks2[0], x);
            }
            assert forall|x: Seq<u8>| ks2.to_set().remove(ks2[0]).contains(x) implies ks2
                .drop_first().to_set().contains(x) by {
                let q = choose|q: int| 0 <= q < ks2.len() && ks2[q] == x;
                assert(q != 0);
                assert(ks2.drop_first()[q - 1] == x);
            }
        }
        assert(forall|q1: int, q2: int|
            0 <= q1 < q2 < ks1.drop_first().len() ==> bytes_lt(
                #[trigger] ks1.drop_first()[q1],
                #[trigger] ks1.drop_first()[q2],
            ));
        assert(forall|q1: int, q2: int|
            0 <= q1 < q2 < ks2.drop_first().len() ==> bytes_lt(
                #[trigger] ks2.drop_first()[q1],
                #[trigger] ks2.drop_first()[q2],
            ));
        lemma_ascending_unique(ks1.drop_first(), ks2.drop_first());
        assert(ks1.len() == ks2.len());
        assert forall|q: int| 0 <= q < ks1.len() implies ks1[q] == ks2[q] by {
            if q > 0 {
                assert(ks1[q] == ks1.drop_first()[q - 1]);
                assert(ks2[q] == ks2.drop_first()[q - 1]);
            }
        }
        assert(ks1 =~= ks2);
    }
}

/// The entries of a scan, with keys and values as byte sequences.
pub open spec fn entries_view(es: Seq<(Vec<u8>, Vec<u8>)>) -> Seq<(Seq<u8>, Seq<u8>)> {
    es.map_values(|e: (Vec<u8>, Vec<u8>)| (e.0@, e.1@))
}

/// What a completed prefix scan returns: every entry pairs a stored key
/// that starts with `p` with that key's value, every stored key that starts
/// with `p` occurs, no key occurs twice, and the keys come in ascending
/// byte order — so the scan is a function of the stored contents.
pub open spec fn scan_result_ok(
    m: Map<Seq<u8>, Seq<u8>>,
    p: Seq<u8>,
    es: Seq<(Seq<u8>, Seq<u8>)>,
) -> bool {
    let keys = es.map_values(|e: (Seq<u8>, Seq<u8>)| e.0);
    &&& forall|i: int|
        #![trigger es[i]]
        0 <= i < es.len() ==> has_prefix(es[i].0, p) && m.dom().contains(es[i].0) && es[i].1
            == m[es[i].0]
    &&& forall|k: Seq<u8>|
        #![trigger m.dom().contains(k)]
        m.dom().contains(k) && has_prefix(k, p) ==> keys.contains(k)
    &&& keys.no_duplicates()
    &&& forall|i: int, j: int|
        #![trigger es[i], es[j]]
        0 <= i < j < es.len() ==> bytes_lt(es[i].0, es[j].0)
}

impl Store {
    /// Relies on `sled::Config::open` with `temporary`: opens a fresh store
    /// backed by a new temporary directory, so it starts empty and is
    /// discarded when dropped.
    #[verifier::external_body]
    fn sled_open_temporary() -> (r: Result<Store, StoreError>)
        ensures
            r is Ok ==> store_map(r->Ok_0) == empty_store_map(),
    {
        match sled::Config::new().temporary(true).open() {
            Ok(db) => Ok(Store { db }),
            Err(_) => Err(StoreError::Failure),
        }
    }

    /// Relies on `sled::open`: opens or creates the durable store at `path`.
    /// Its contents are whatever the disk holds, so nothing is said of them.
    #[verifier::external_body]
    fn sled_open_at(path: &str) -> (r: Result<Store, StoreError>)
        ensures
            r is Ok ==> store_map(r->Ok_0).dom().finite(),
    {
        match sled::open(path) {
            Ok(db) => Ok(Store { db }),
            Err(_) => Err(StoreError::Failure),
        }
    }

    /// Relies on `sled::Tree::get`: returns the value held under `key`, or
    /// nothing when the key is absent.
    #[verifier::external_body]
    fn sled_get(&self, key: &Vec<u8>) -> (r: Result<Option<Vec<u8>>, StoreError>)
        ensures
            r matches Ok(v) ==> match v {
                Some(b) => store_map(*self).dom().contains(key@) && b@ == store_map(*self)[key@],
                None => !store_map(*self).dom().contains(key@),
            },
    {
        match self.db.get(key.as_slice()) {
            Ok(Some(v)) => Ok(Some(v.to_vec())),
            Ok(None) => Ok(None),
            Err(_) => Err(StoreError::Failure),
        }
    }

    /// Relies on `sled::Tree::insert`: on success the store holds `value`
    /// under `key` and is otherwise unchanged. On failure the update may
    /// or may not have been applied — an I/O error can strike before the
    /// page link, or after it while completing the log reservation — so
    /// the contents are unchanged or already hold the update, and nothing
    /// else.
    #[verifier::external_body]
    fn sled_put(&mut self, key: &Vec<u8>, value: &Vec<u8>) -> (r: Result<(), StoreError>)
        ensures
            r matches Ok(u) ==> store_map(*final(self)) == store_map(*old(self)).insert(
                key@,
                value@,
            ),
            r is Err ==> store_map(*final(self)) == store_map(*old(self)) || store_map(
                *final(self),
            ) == store_map(*old(self)).insert(key@, value@),
    {
        match self.db.insert(key.as_slice(), value.as_slice()) {
            Ok(_) => Ok(()),
            Err(_) => Err(StoreError::Failure),
        }
    }

    /// Relies on `sled::Tree::scan_prefix`: a range scan that yields each
    /// stored key starting with `prefix`, exactly once, with its value,
    /// in ascending byte order of the keys.
    #[verifier::external_body]
    fn sled_scan_prefix(&self, prefix: &Vec<u8>) -> (r: Result<
        Vec<(Vec<u8>, Vec<u8>)>,
        StoreError,
    >)
        ensures
            r matches Ok(es) ==> scan_result_ok(store_map(*self), prefix@, entries_view(es@)),
    {
        let mut out: Vec<(Vec<u8>, Vec<u8>)> = Vec::new();
        for item in self.db.scan_prefix(prefix.as_slice()) {
            match item {
                Ok((k, v)) => out.push((k.to_vec(), v.to_vec())),
                Err(_) => return Err(StoreError::Failure),
            }
        }
        Ok(out)
    }

    /// Opens a fresh, empty store backed by a temporary directory.
    pub fn open_temporary() -> (r: Result<Store, StoreError>)
        ensures
            r matches Ok(s) ==> s@ == empty_store_map(),
    {
        Store::sled_open_temporary()
    }

    /// Opens or creates the durable store at `path`; its contents are
    /// whatever was persisted there before.
    pub fn open_at(path: &str) -> (r: Result<Store, StoreError>)
        ensures
            r matches Ok(s) ==> s@.dom().finite(),
    {
        Store::sled_open_at(path)
    }

    /// The value held under `key`, or nothing when the key is absent.
    pub fn get(&self, key: &Vec<u8>) -> (r: Result<Option<Vec<u8>>, StoreError>)
        ensures
            r matches Ok(v) ==> match v {
                Some(b) => self@.dom().contains(key@) && b@ == self@[key@],
                None => !self@.dom().contains(key@),
            },
    {
        self.sled_get(key)
    }

    /// Stores `value` under `key`, replacing any earlier value; a failed
    /// put leaves the contents unchanged or already updated.
    pub fn put(&mut self, key: &Vec<u8>, value: &Vec<u8>) -> (r: Result<(), StoreError>)
        ensures
            r matches Ok(u) ==> final(self)@ == old(self)@.insert(key@, value@),
            r is Err ==> final(self)@ == old(self)@ || final(self)@ == old(self)@.insert(
                key@,
                value@,
            ),
    {
        self.sled_put(key, value)
    }

    /// Every entry whose key starts with `prefix`, each stored key once.
    pub fn scan_entries(&self, prefix: &Vec<u8>) -> (r: Result<
        Vec<(Vec<u8>, Vec<u8>)>,
        StoreError,
    >)
        ensures
            r matches Ok(es) ==> scan_result_ok(self@, prefix@, entries_view(es@)),
    {
        self.sled_scan_prefix(prefix)
    }

    /// How many stored keys start with `prefix`.
    pub fn count_prefix(&self, prefix: &Vec<u8>) -> (r: Result<u64, StoreError>)
        ensures
            r matches Ok(n) ==> n as nat == count_keys(self@, prefix@),
    {
        match self.scan_entries(prefix) {
            Ok(entries) => {
                proof {
                    lemma_scan_count(self@, prefix@, entries_view(entries@));
                }
                Ok(entries.len() as u64)
            },
            Err(e) => Err(e),
        }
    }
}

/// A completed scan has exactly one entry per stored key with the prefix,
/// so its length counts those keys; in particular there are finitely many.
pub proof fn lemma_scan_count(m: Map<Seq<u8>, Seq<u8>>, p: Seq<u8>, es: Seq<(Seq<u8>, Seq<u8>)>)
    requires
        scan_result_ok(m, p, es),
    ensures
        es.len() == count_keys(m, p),
        prefixed_keys(m, p).finite(),
{
    let keys = es.map_values(|e: (Seq<u8>, Seq<u8>)| e.0);
    assert(keys.to_set() =~= prefixed_keys(m, p)) by {
        assert forall|k: Seq<u8>| keys.to_set().contains(k) implies prefixed_keys(m, p).contains(
            k,
        ) by {
            let i = choose|i: int| 0 <= i < keys.len() && keys[i] == k;
            assert(es[i].0 == k);
        }
        assert forall|k: Seq<u8>| prefixed_keys(m, p).contains(k) implies keys.to_set().contains(
            k,
        ) by {
            assert(m.dom().contains(k) && has_prefix(k, p));
            assert(keys.contains(k));
        }
    }
    keys.unique_seq_to_set();
}

} // verus!
