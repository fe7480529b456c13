//! An actor pairs one client's cache with the scenario configuration and
//! interprets plan operations against the shared store.  Two actors of
//! different clients share the store — each one's successful mutations are
//! visible to the other's cache on its next read of that key — but their
//! local caches are independent.

use crate::clone_exact;
use crate::config::Config;
use crate::planner::Op;
use crate::store::{
    cache_load, cache_remove_step, cache_write_step, Cache, CacheMap, Store, StoreView,
};
use vstd::prelude::*;

verus! {

/// What one dispatched operation does to the store and the acting client's
/// cache, and whether it was acknowledged (a read always is; a mutation is
/// acknowledged exactly when it did not conflict).
pub open spec fn dispatch_step<T: Clone>(s: StoreView<T>, c: CacheMap<T>, op: Op<T>) -> (
    StoreView<T>,
    CacheMap<T>,
    bool,
) {
    match op {
        Op::Read(k) => (s, cache_load(c, s, k@), true),
        Op::Write(k, v) => {
            let (c2, s2, ok) = cache_write_step(c, s, k@, v);
            (s2, c2, ok)
        },
        Op::Remove(k) => {
            let (c2, s2, ok) = cache_remove_step(c, s, k@);
            (s2, c2, ok)
        },
    }
}

pub struct Actor<T> {
    config: Config,
    cache: Cache<T>,
}

impl<T> View for Actor<T> {
    type V = CacheMap<T>;

    closed spec fn view(&self) -> CacheMap<T> {
        self.cache@
    }
}

impl<T: Clone> Actor<T> {
    pub closed spec fn wf(&self) -> bool {
        self.cache.wf()
    }

    pub fn new(config: Config) -> (r: Actor<T>)
        ensures
            r.wf(),
            r@ == Map::<Seq<char>, Option<(usize, Option<T>)>>::empty(),
    {
        Actor { config, cache: Cache::new() }
    }

    /// Execute one operation against this actor's cache and the shared
    /// store.  The acknowledgement bit and the revision bookkeeping do not
    /// depend on how values clone; the stored values match the dispatched
    /// operation exactly whenever cloning is exact.
    pub fn dispatch(&mut self, store: &mut Store<T>, op: &Op<T>) -> (r: bool)
        requires
            old(self).wf(),
            old(store).wf(),
            old(store)@.seq < usize::MAX,
        ensures
            final(self).wf(),
            final(store).wf(),
            r == dispatch_step(old(store)@, old(self)@, *op).2,
            old(store)@.seq <= final(store)@.seq <= old(store)@.seq + 1,
            clone_exact::<T>() ==> final(store)@ == dispatch_step(old(store)@, old(self)@, *op).0
                && final(self)@ == dispatch_step(old(store)@, old(self)@, *op).1,
    {
        match op {
            Op::Read(k) => {
                let _ = self.cache.read(store, k.as_str());
                true
            },
            Op::Write(k, v) => {
                let vc = v.clone();
                proof {
                    assert(vstd::pervasive::cloned::<T>(*v, vc));
                }
                self.cache.write(store, k.as_str(), vc)
            },
            Op::Remove(k) => self.cache.remove(store, k.as_str()),
        }
    }
}

} // verus!
