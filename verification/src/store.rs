//! The revision-checked key/value store and the per-client write-through
//! cache that serializes one client's view of it.
//!
//! Every key carries a monotonically increasing revision; a missing key is
//! treated as revision 0.  A mutation succeeds exactly when the presented
//! revision equals the stored one; on success the revision and the global
//! mutation counter `seq` both step by one, and a removal leaves a tombstone
//! (a record whose value is gone but whose revision remains for conflict
//! checking).  A failed mutation changes nothing at all.

use crate::clone_exact;
use crate::lex::lex_before;
use crate::table::Table;
use vstd::pervasive::cloned;
use vstd::prelude::*;

verus! {

/// What the store holds under one key: the current revision and the value.
/// A record without a value is a tombstone.
pub struct Rec<T> {
    pub rev: usize,
    pub value: Option<T>,
}

impl<T: Clone> Clone for Rec<T> {
    fn clone(&self) -> (r: Self)
        ensures
            r.rev == self.rev,
            r.value is Some <==> self.value is Some,
            self.value is Some ==> cloned::<T>(self.value.unwrap(), r.value.unwrap()),
    {
        Rec { rev: self.rev, value: self.value.clone() }
    }
}

/// The mathematical content of a store: the per-key records and the count of
/// successful mutations.
#[verifier::ext_equal]
pub struct StoreView<T> {
    pub map: Map<Seq<char>, Rec<T>>,
    pub seq: usize,
}

/// The revision a mutation of `k` must present: the stored one, or 0 when
/// the key was never written.
pub open spec fn store_rev<T>(v: StoreView<T>, k: Seq<char>) -> usize {
    if v.map.contains_key(k) {
        v.map[k].rev
    } else {
        0
    }
}

/// What a read of `k` observes: the revision and value of a live record;
/// nothing for an absent or tombstoned key.
pub open spec fn store_read<T>(v: StoreView<T>, k: Seq<char>) -> Option<(usize, T)> {
    if v.map.contains_key(k) && v.map[k].value is Some {
        Some((v.map[k].rev, v.map[k].value.unwrap()))
    } else {
        None
    }
}

/// A missing expected revision stands for 0 (create-if-absent).
pub open spec fn rev_arg(rev: Option<usize>) -> usize {
    match rev {
        Some(r) => r,
        None => 0,
    }
}

/// One revision-checked mutation: on a matching revision the record is
/// replaced (`None` installs a tombstone), the revision and `seq` step by
/// one and the new revision is returned; on a mismatch nothing changes.
pub open spec fn store_set<T>(
    v: StoreView<T>,
    k: Seq<char>,
    expected: usize,
    value: Option<T>,
) -> (StoreView<T>, Option<usize>) {
    let cur = store_rev(v, k);
    if expected == cur {
        let nr = (cur + 1) as usize;
        (
            StoreView { map: v.map.insert(k, Rec { rev: nr, value }), seq: (v.seq + 1) as usize },
            Some(nr),
        )
    } else {
        (v, None)
    }
}

/// Every stored revision was reached by successful mutations, so it lies
/// between 1 and `seq`.
pub open spec fn store_view_wf<T>(v: StoreView<T>) -> bool {
    forall|k: Seq<char>| v.map.contains_key(k) ==> 1 <= (#[trigger] v.map[k]).rev <= v.seq
}

pub struct Store<T> {
    table: Table<Rec<T>>,
    pub seq: usize,
}

impl<T> View for Store<T> {
    type V = StoreView<T>;

    closed spec fn view(&self) -> StoreView<T> {
        StoreView { map: self.table@, seq: self.seq }
    }
}

impl<T: Clone> Store<T> {
    pub closed spec fn wf(&self) -> bool {
        self.table.wf() && store_view_wf(self@)
    }

    /// A well-formed store's view satisfies the model-level invariant the
    /// mutation-counting law is stated over.
    pub proof fn lemma_wf_view(&self)
        requires
            self.wf(),
        ensures
            store_view_wf(self@),
    {
    }

    pub fn new() -> (r: Store<T>)
        ensures
            r.wf(),
            r@.map == Map::<Seq<char>, Rec<T>>::empty(),
            r@.seq == 0,
    {
        Store { table: Table::new(), seq: 0 }
    }

    /// A borrow of the live value under `key`, if any.
    pub fn get(&self, key: &str) -> (r: Option<&T>)
        requires
            self.wf(),
        ensures
            match r {
                Some(v) => store_read(self@, key@) is Some && *v == store_read(
                    self@,
                    key@,
                ).unwrap().1,
                None => store_read(self@, key@) is None,
            },
    {
        match self.table.get(key) {
            Some(rec) => match &rec.value {
                Some(v) => Some(v),
                None => None,
            },
            None => None,
        }
    }

    /// The revision stored under `key`, a tombstone's included; nothing
    /// only when the key was never written.
    pub fn revision(&self, key: &str) -> (r: Option<usize>)
        requires
            self.wf(),
        ensures
            match r {
                Some(rev) => self@.map.contains_key(key@) && rev == self@.map[key@].rev,
                None => !self@.map.contains_key(key@),
            },
    {
        match self.table.get(key) {
            Some(rec) => Some(rec.rev),
            None => None,
        }
    }

    /// The current revision and a clone of the live value under `key`.
    pub fn read(&self, key: &str) -> (r: Option<(usize, T)>)
        requires
            self.wf(),
        ensures
            r is Some <==> store_read(self@, key@) is Some,
            r is Some ==> r.unwrap().0 == store_read(self@, key@).unwrap().0 && cloned::<T>(
                store_read(self@, key@).unwrap().1,
                r.unwrap().1,
            ),
            clone_exact::<T>() ==> r == store_read(self@, key@),
    {
        match self.table.get(key) {
            Some(rec) => match &rec.value {
                Some(v) => Some((rec.rev, v.clone())),
                None => None,
            },
            None => None,
        }
    }

    /// Store `value` under `key` if `rev` matches the current revision.
    pub fn write(&mut self, key: &str, rev: Option<usize>, value: T) -> (r: Option<usize>)
        requires
            old(self).wf(),
            old(self)@.seq < usize::MAX,
        ensures
            final(self).wf(),
            final(self)@ == store_set(old(self)@, key@, rev_arg(rev), Some(value)).0,
            r == store_set(old(self)@, key@, rev_arg(rev), Some(value)).1,
            r is None ==> *final(self) == *old(self),
    {
        self.set_key(key, rev, Some(value))
    }

    /// Install a tombstone under `key` if `rev` matches the current
    /// revision.  Removing a never-written key at revision 0 succeeds and
    /// leaves a tombstone at revision 1.
    pub fn remove(&mut self, key: &str, rev: Option<usize>) -> (r: Option<usize>)
        requires
            old(self).wf(),
            old(self)@.seq < usize::MAX,
        ensures
            final(self).wf(),
            final(self)@ == store_set(old(self)@, key@, rev_arg(rev), None).0,
            r == store_set(old(self)@, key@, rev_arg(rev), None).1,
            r is None ==> *final(self) == *old(self),
    {
        self.set_key(key, rev, None)
    }

    fn set_key(&mut self, key: &str, rev: Option<usize>, value: Option<T>) -> (r: Option<usize>)
        requires
            old(self).wf(),
            old(self)@.seq < usize::MAX,
        ensures
            final(self).wf(),
            final(self)@ == store_set(old(self)@, key@, rev_arg(rev), value).0,
            r == store_set(old(self)@, key@, rev_arg(rev), value).1,
            r is None ==> *final(self) == *old(self),
    {
        let client_rev: usize = match rev {
            Some(r) => r,
            None => 0,
        };
        let cur: usize = match self.table.get(key) {
            Some(rec) => rec.rev,
            None => 0,
        };
        if client_rev != cur {
            return None;
        }
        let new_rev = cur + 1;
        self.table.set(key, Rec { rev: new_rev, value });
        self.seq = self.seq + 1;
        proof {
            assert(final(self)@ =~= store_set(old(self)@, key@, rev_arg(rev), value).0);
        }
        Some(new_rev)
    }

    /// All keys ever written, tombstoned ones included, ascending in
    /// lexicographic order.
    pub fn keys(&self) -> (r: Vec<String>)
        requires
            self.wf(),
        ensures
            forall|i: int| 0 <= i < r@.len() ==> self@.map.contains_key(#[trigger] r@[i]@),
            forall|k: Seq<char>|
                self@.map.contains_key(k) ==> exists|i: int| 0 <= i < r@.len() && r@[i]@ == k,
            forall|i: int, j: int| 0 <= i < j < r@.len() ==> lex_before(r@[i]@, r@[j]@),
    {
        self.table.keys()
    }
}

impl<T: Clone> Clone for Store<T> {
    /// A deep copy: the same keys, revisions and `seq`, each value cloned.
    fn clone(&self) -> (r: Self)
        ensures
            r@.seq == self@.seq,
            r@.map.dom() =~= self@.map.dom(),
            forall|k: Seq<char>|
                self@.map.contains_key(k) ==> (#[trigger] r@.map[k]).rev == self@.map[k].rev && (
                r@.map[k].value is Some <==> self@.map[k].value is Some) && (self@.map[k].value
                    is Some ==> cloned::<T>(self@.map[k].value.unwrap(), r@.map[k].value.unwrap())),
            self.wf() ==> r.wf(),
            clone_exact::<T>() ==> r@ == self@,
    {
        let r = Store { table: self.table.duplicate(), seq: self.seq };
        proof {
            assert forall|k: Seq<char>| self@.map.contains_key(k) implies (#[trigger] r@.map[k]).rev
                == self@.map[k].rev && (r@.map[k].value is Some <==> self@.map[k].value is Some) && (
            self@.map[k].value is Some ==> cloned::<T>(
                self@.map[k].value.unwrap(),
                r@.map[k].value.unwrap(),
            )) by {
                assert(cloned::<Rec<T>>(self@.map[k], r@.map[k]));
            }
            if clone_exact::<T>() {
                assert forall|k: Seq<char>| self@.map.contains_key(k) implies r@.map[k]
                    == self@.map[k] by {
                    assert(r@.map[k].value == self@.map[k].value);
                }
                assert(r@.map =~= self@.map);
                assert(r@ =~= self@);
            }
        }
        r
    }
}

/// The cache's local record for a key.  `None` means the key was observed
/// absent or tombstoned through a read (the store does not expose a
/// tombstone's revision to a read).  A record `Some((rev, None))` is a
/// tombstone this cache installed itself: its revision is remembered, so a
/// following mutation can present it.
pub type CacheMap<T> = Map<Seq<char>, Option<(usize, Option<T>)>>;

/// The revision a cache presents when mutating `k`: the locally remembered
/// one — a self-installed tombstone's included — or 0 when the key was
/// never read or was observed absent.
pub open spec fn cache_rev<T>(c: CacheMap<T>, k: Seq<char>) -> usize {
    if c.contains_key(k) && c[k] is Some {
        c[k].unwrap().0
    } else {
        0
    }
}

/// What a read fetched from the store records locally.
pub open spec fn load_rec<T>(s: StoreView<T>, k: Seq<char>) -> Option<(usize, Option<T>)> {
    match store_read(s, k) {
        Some(p) => Some((p.0, Some(p.1))),
        None => None,
    }
}

/// A cache read first faults the record in from the store (when not yet
/// present locally), then serves from the local map.
pub open spec fn cache_load<T>(c: CacheMap<T>, s: StoreView<T>, k: Seq<char>) -> CacheMap<T> {
    if c.contains_key(k) {
        c
    } else {
        c.insert(k, load_rec(s, k))
    }
}

/// What a cache read returns once the record is local: the remembered live
/// value; nothing for an observed miss or a tombstone.
pub open spec fn cache_read_result<T>(c: CacheMap<T>, k: Seq<char>) -> Option<T> {
    if c.contains_key(k) && c[k] is Some && c[k].unwrap().1 is Some {
        Some(c[k].unwrap().1.unwrap())
    } else {
        None
    }
}

/// A cache write presents the locally remembered revision to the store.  On
/// success the new record is remembered; on conflict the key is evicted so
/// that the next read observes ground truth.
pub open spec fn cache_write_step<T>(c: CacheMap<T>, s: StoreView<T>, k: Seq<char>, value: T) -> (
    CacheMap<T>,
    StoreView<T>,
    bool,
) {
    let (s2, res) = store_set(s, k, cache_rev(c, k), Some(value));
    match res {
        Some(nr) => (c.insert(k, Some((nr, Some(value)))), s2, true),
        None => (c.remove(k), s, false),
    }
}

/// A cache removal; on success the record remembers the tombstone and its
/// new revision.
pub open spec fn cache_remove_step<T>(c: CacheMap<T>, s: StoreView<T>, k: Seq<char>) -> (
    CacheMap<T>,
    StoreView<T>,
    bool,
) {
    let (s2, res) = store_set(s, k, cache_rev(c, k), None);
    match res {
        Some(nr) => (c.insert(k, Some((nr, None))), s2, true),
        None => (c.remove(k), s, false),
    }
}

/// A per-client read-through, write-through view over a store.  The store
/// is passed to each operation; within one plan all caches work against the
/// same store value, threaded through the executor.
pub struct Cache<T> {
    table: Table<Option<(usize, Option<T>)>>,
}

impl<T> View for Cache<T> {
    type V = CacheMap<T>;

    closed spec fn view(&self) -> CacheMap<T> {
        self.table@
    }
}

impl<T: Clone> Cache<T> {
    pub closed spec fn wf(&self) -> bool {
        self.table.wf()
    }

    pub fn new() -> (r: Cache<T>)
        ensures
            r.wf(),
            r@ == Map::<Seq<char>, Option<(usize, Option<T>)>>::empty(),
    {
        Cache { table: Table::new() }
    }

    /// Read through the cache: fault the record in from the store on a
    /// first access, then serve the locally remembered value.
    pub fn read(&mut self, store: &Store<T>, key: &str) -> (r: Option<T>)
        requires
            store.wf(),
            old(self).wf(),
        ensures
            final(self).wf(),
            old(self)@.contains_key(key@) ==> *final(self) == *old(self),
            !old(self)@.contains_key(key@) ==> final(self)@.dom() == old(self)@.dom().insert(key@)
                && (forall|k2: Seq<char>|
                k2 != key@ && old(self)@.contains_key(k2) ==> final(self)@[k2] == #[trigger] old(
                    self,
                )@[k2]) && rec_matches(store_read(store@, key@), final(self)@[key@]),
            final(self)@.contains_key(key@),
            match final(self)@[key@] {
                Some(p) => match p.1 {
                    Some(v) => r is Some && cloned::<T>(v, r.unwrap()),
                    None => r is None,
                },
                None => r is None,
            },
            clone_exact::<T>() ==> final(self)@ == cache_load(old(self)@, store@, key@) && r
                == cache_read_result(cache_load(old(self)@, store@, key@), key@),
    {
        let present = match self.table.get(key) {
            Some(_) => true,
            None => false,
        };
        if !present {
            let record = match store.read(key) {
                Some((rv, v)) => Some((rv, Some(v))),
                None => None,
            };
            self.table.set(key, record);
        }
        let r = match self.table.get(key) {
            Some(rec) => match rec {
                Some((_, Some(v))) => Some(v.clone()),
                _ => None,
            },
            None => None,
        };
        proof {
            if clone_exact::<T>() {
                assert(self@ =~= cache_load(old(self)@, store@, key@));
            }
        }
        r
    }

    /// Write through the cache, presenting the locally remembered revision.
    /// On success the new record is remembered locally; on conflict the key
    /// is evicted and `false` is returned.
    pub fn write(&mut self, store: &mut Store<T>, key: &str, value: T) -> (r: bool)
        requires
            old(store).wf(),
            old(store)@.seq < usize::MAX,
            old(self).wf(),
        ensures
            final(self).wf(),
            final(store).wf(),
            r <==> cache_rev(old(self)@, key@) == store_rev(old(store)@, key@),
            r ==> final(self)@ == old(self)@.insert(
                key@,
                Some((((store_rev(old(store)@, key@) + 1) as usize), Some(value))),
            ),
            r ==> exists|vc: T|
                #[trigger] cloned::<T>(value, vc) && final(store)@ == store_set(
                    old(store)@,
                    key@,
                    cache_rev(old(self)@, key@),
                    Some(vc),
                ).0,
            !r ==> *final(store) == *old(store) && final(self)@ == old(self)@.remove(key@),
            clone_exact::<T>() ==> final(self)@ == cache_write_step(
                old(self)@,
                old(store)@,
                key@,
                value,
            ).0 && final(store)@ == cache_write_step(old(self)@, old(store)@, key@, value).1,
    {
        let old_rev = self.get_rev(key);
        let vc = value.clone();
        let ghost vcg = vc;
        match store.write(key, old_rev, vc) {
            Some(new_rev) => {
                self.table.set(key, Some((new_rev, Some(value))));
                proof {
                    assert(cloned::<T>(value, vcg) && store@ == store_set(
                        old(store)@,
                        key@,
                        cache_rev(old(self)@, key@),
                        Some(vcg),
                    ).0);
                    if clone_exact::<T>() {
                        assert(vcg == value);
                    }
                }
                true
            },
            None => {
                self.table.remove(key);
                false
            },
        }
    }

    /// Remove through the cache; on success the local record remembers the
    /// tombstone and its revision, on conflict the key is evicted and
    /// `false` is returned.
    pub fn remove(&mut self, store: &mut Store<T>, key: &str) -> (r: bool)
        requires
            old(store).wf(),
            old(store)@.seq < usize::MAX,
            old(self).wf(),
        ensures
            final(self).wf(),
            final(store).wf(),
            r <==> cache_rev(old(self)@, key@) == store_rev(old(store)@, key@),
            final(self)@ == cache_remove_step(old(self)@, old(store)@, key@).0,
            final(store)@ == cache_remove_step(old(self)@, old(store)@, key@).1,
            !r ==> *final(store) == *old(store),
    {
        let old_rev = self.get_rev(key);
        match store.remove(key, old_rev) {
            Some(new_rev) => {
                self.table.set(key, Some((new_rev, None)));
                true
            },
            None => {
                self.table.remove(key);
                false
            },
        }
    }

    /// The locally remembered revision — a self-installed tombstone's
    /// included — if there is one.
    fn get_rev(&self, key: &str) -> (r: Option<usize>)
        requires
            self.wf(),
        ensures
            rev_arg(r) == cache_rev(self@, key@),
    {
        match self.table.get(key) {
            Some(rec) => match rec {
                Some((rv, _)) => Some(*rv),
                None => None,
            },
            None => None,
        }
    }
}

/// A fetched record and a locally installed one agree up to cloning of the
/// value.
pub open spec fn rec_matches<T: Clone>(
    ideal: Option<(usize, T)>,
    actual: Option<(usize, Option<T>)>,
) -> bool {
    match ideal {
        Some(p) => actual is Some && actual.unwrap().0 == p.0 && actual.unwrap().1 is Some
            && cloned::<T>(p.1, actual.unwrap().1.unwrap()),
        None => actual is None,
    }
}

} // verus!

verus! {

/// A spec-level mutation of the store: the key, the presented revision, and
/// the new value (`None` for a removal).
pub struct MutOp<T> {
    pub k: Seq<char>,
    pub expected: usize,
    pub value: Option<T>,
}

/// The store after a sequence of mutations, each applied to the result of
/// the previous one.
pub open spec fn apply_muts<T>(v: StoreView<T>, ops: Seq<MutOp<T>>) -> StoreView<T>
    decreases ops.len(),
{
    if ops.len() == 0 {
        v
    } else {
        apply_muts(store_set(v, ops[0].k, ops[0].expected, ops[0].value).0, ops.drop_first())
    }
}

/// How many of the mutations succeed, replayed in order.
pub open spec fn successes<T>(v: StoreView<T>, ops: Seq<MutOp<T>>) -> nat
    decreases ops.len(),
{
    if ops.len() == 0 {
        0
    } else {
        (if store_set(v, ops[0].k, ops[0].expected, ops[0].value).1 is Some {
            1nat
        } else {
            0nat
        }) + successes(store_set(v, ops[0].k, ops[0].expected, ops[0].value).0, ops.drop_first())
    }
}

/// How many of the mutations of `key` succeed, replayed in order.
pub open spec fn successes_for_key<T>(v: StoreView<T>, ops: Seq<MutOp<T>>, key: Seq<char>) -> nat
    decreases ops.len(),
{
    if ops.len() == 0 {
        0
    } else {
        (if store_set(v, ops[0].k, ops[0].expected, ops[0].value).1 is Some && ops[0].k == key {
            1nat
        } else {
            0nat
        }) + successes_for_key(
            store_set(v, ops[0].k, ops[0].expected, ops[0].value).0,
            ops.drop_first(),
            key,
        )
    }
}

/// A key's revision counts that key's successful mutations, and `seq`
/// counts them all: replaying any mutation sequence advances each key's
/// revision by exactly its number of successful mutations of that key, and
/// `seq` by the total.  From a fresh store the revision is that count
/// itself.
pub proof fn lemma_revision_counts_mutations<T>(
    v: StoreView<T>,
    ops: Seq<MutOp<T>>,
    key: Seq<char>,
)
    requires
        store_view_wf(v),
        v.seq + successes(v, ops) <= usize::MAX,
    ensures
        store_rev(apply_muts(v, ops), key) == store_rev(v, key) + successes_for_key(v, ops, key),
        apply_muts(v, ops).seq == v.seq + successes(v, ops),
        store_view_wf(apply_muts(v, ops)),
    decreases ops.len(),
{
    if ops.len() > 0 {
        let v2 = store_set(v, ops[0].k, ops[0].expected, ops[0].value).0;
        assert(store_view_wf(v2));
        lemma_revision_counts_mutations(v2, ops.drop_first(), key);
    }
}

/// From a fresh store, a key's revision after any mutation sequence is
/// exactly the number of successful mutations of that key, and `seq` is
/// the total number of successful mutations.
pub proof fn lemma_fresh_store_counts<T>(ops: Seq<MutOp<T>>, key: Seq<char>)
    requires
        successes(StoreView { map: Map::<Seq<char>, Rec<T>>::empty(), seq: 0 }, ops)
            <= usize::MAX,
    ensures
        ({
            let v0 = StoreView { map: Map::<Seq<char>, Rec<T>>::empty(), seq: 0 };
            &&& store_rev(apply_muts(v0, ops), key) == successes_for_key(v0, ops, key)
            &&& apply_muts(v0, ops).seq == successes(v0, ops)
        }),
{
    let v0 = StoreView { map: Map::<Seq<char>, Rec<T>>::empty(), seq: 0 };
    lemma_revision_counts_mutations(v0, ops, key);
}

/// After a successful removal the key reads as nothing, yet it is still
/// among the store's keys: the tombstone keeps its revision.
pub proof fn lemma_removed_key_reads_none<T>(v: StoreView<T>, k: Seq<char>)
    ensures
        ({
            let (v2, res) = store_set(v, k, store_rev(v, k), None);
            res is Some && store_read(v2, k) is None && v2.map.contains_key(k)
        }),
{
}

/// Read-after-write: an acknowledged cache write is served back by the next
/// cache read from the local record alone, whatever store state that read
/// would see — no store round-trip takes place.
pub proof fn lemma_read_after_write<T: Clone>(
    c: CacheMap<T>,
    s: StoreView<T>,
    k: Seq<char>,
    value: T,
    s2: StoreView<T>,
)
    requires
        cache_write_step(c, s, k, value).2,
    ensures
        ({
            let c1 = cache_write_step(c, s, k, value).0;
            cache_load(c1, s2, k) == c1 && cache_read_result(c1, k) == Some(value)
        }),
{
}

/// A cached miss is sticky: once a read observed the key absent, later
/// reads keep answering nothing even when the store has since gained the
/// key, until the record is invalidated.
pub proof fn lemma_cached_miss_sticky<T: Clone>(
    c: CacheMap<T>,
    s: StoreView<T>,
    k: Seq<char>,
    s2: StoreView<T>,
)
    requires
        cache_read_result(cache_load(c, s, k), k) is None,
    ensures
        ({
            let c1 = cache_load(c, s, k);
            cache_load(c1, s2, k) == c1 && cache_read_result(cache_load(c1, s2, k), k) is None
        }),
{
}

/// A conflicting cache write evicts the key, so the next read observes the
/// store's current ground truth, whatever it is by then.
pub proof fn lemma_conflict_invalidates<T: Clone>(
    c: CacheMap<T>,
    s: StoreView<T>,
    k: Seq<char>,
    value: T,
    s2: StoreView<T>,
)
    requires
        !cache_write_step(c, s, k, value).2,
    ensures
        ({
            let c1 = cache_write_step(c, s, k, value).0;
            cache_read_result(cache_load(c1, s2, k), k) == (match store_read(s2, k) {
                Some(p) => Some(p.1),
                None => None,
            })
        }),
{
}

/// Recovery: after a conflicting write, reading and then retrying succeeds,
/// provided no other mutation intervened and the key is not tombstoned in
/// the store.  (A key another client tombstoned keeps conflicting this
/// way: a read cannot observe that tombstone's revision.  A tombstone this
/// cache installed itself needs no re-read at all: see
/// `lemma_rewrite_after_remove`.)
pub proof fn lemma_recovery_after_conflict<T: Clone>(
    c: CacheMap<T>,
    s: StoreView<T>,
    k: Seq<char>,
    v1: T,
    v2: T,
)
    requires
        !cache_write_step(c, s, k, v1).2,
        s.map.contains_key(k) ==> s.map[k].value is Some,
    ensures
        ({
            let c1 = cache_write_step(c, s, k, v1).0;
            let c2 = cache_load(c1, s, k);
            cache_write_step(c2, s, k, v2).2
        }),
{
}

/// A removal acknowledged by the cache is immediately rewritable: the
/// local record remembers the tombstone's revision, so a following write
/// through the same cache presents it and succeeds, storing the value at
/// the next revision.
pub proof fn lemma_rewrite_after_remove<T: Clone>(
    c: CacheMap<T>,
    s: StoreView<T>,
    k: Seq<char>,
    v: T,
)
    requires
        cache_remove_step(c, s, k).2,
    ensures
        ({
            let (c1, s1, ok) = cache_remove_step(c, s, k);
            let (c2, s2, ok2) = cache_write_step(c1, s1, k, v);
            &&& ok2
            &&& store_read(s2, k) == Some(((store_rev(s1, k) + 1) as usize, v))
        }),
{
}

} // verus!

