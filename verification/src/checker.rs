//! The pluggable invariant checker: a list of conditions on the store, each
//! with the message reported when it is violated.  Checking is deterministic
//! and side-effect-free; the runner evaluates it after every dispatched act.

use crate::store::{store_read, Store, StoreView};
use vstd::prelude::*;
use vstd::std_specs::cmp::PartialEqSpec;

verus! {

/// What one invariant demands of the store.
pub enum Cond<T> {
    /// The key must hold exactly this live value.
    KeyIs(String, T),
    /// The key must not hold this value.
    KeyIsNot(String, T),
    /// The key must hold some live value.
    KeyPresent(String),
    /// The key must read as nothing.
    KeyAbsent(String),
}

/// One invariant: a condition and the message reported when it fails.
pub struct Rule<T> {
    pub cond: Cond<T>,
    pub message: String,
}

/// The checker evaluated after every step: all its rules must hold.
pub struct Checker<T> {
    pub rules: Vec<Rule<T>>,
}

/// Whether a condition holds of a store, with value equality read through
/// the `PartialEq` specification of `T`.
pub open spec fn cond_holds<T: PartialEq>(c: Cond<T>, s: StoreView<T>) -> bool {
    match c {
        Cond::KeyIs(k, v) => store_read(s, k@) is Some && store_read(s, k@).unwrap().1.eq_spec(&v),
        Cond::KeyIsNot(k, v) => !(store_read(s, k@) is Some && store_read(s, k@).unwrap().1.eq_spec(
            &v,
        )),
        Cond::KeyPresent(k) => store_read(s, k@) is Some,
        Cond::KeyAbsent(k) => store_read(s, k@) is None,
    }
}

/// The messages of the violated rules, in rule order.
pub open spec fn violations<T: PartialEq>(rules: Seq<Rule<T>>, s: StoreView<T>) -> Seq<Seq<char>>
    decreases rules.len(),
{
    if rules.len() == 0 {
        Seq::empty()
    } else {
        violations(rules.drop_last(), s) + (if cond_holds(rules.last().cond, s) {
            Seq::<Seq<char>>::empty()
        } else {
            seq![rules.last().message@]
        })
    }
}

impl<T: Clone + PartialEq> Checker<T> {
    /// Evaluate every rule against the store; an empty result means the
    /// store is ok.
    pub fn check(&self, store: &Store<T>) -> (v: Vec<String>)
        requires
            store.wf(),
        ensures
            T::obeys_eq_spec() ==> v.deep_view() == violations(self.rules@, store@),
            v@.len() <= self.rules@.len(),
    {
        let n = self.rules.len();
        let mut v: Vec<String> = Vec::new();
        let mut i: usize = 0;
        while i < n
            invariant
                n == self.rules@.len(),
                i <= n,
                v@.len() <= i,
                T::obeys_eq_spec() ==> v.deep_view() == violations(self.rules@.take(i as int), store@),
                store.wf(),
            decreases n - i,
        {
            let rule = &self.rules[i];
            let holds: bool = match &rule.cond {
                Cond::KeyIs(k, expected) => match store.get(k.as_str()) {
                    Some(actual) => *actual == *expected,
                    None => false,
                },
                Cond::KeyIsNot(k, expected) => match store.get(k.as_str()) {
                    Some(actual) => !(*actual == *expected),
                    None => true,
                },
                Cond::KeyPresent(k) => match store.get(k.as_str()) {
                    Some(_) => true,
                    None => false,
                },
                Cond::KeyAbsent(k) => match store.get(k.as_str()) {
                    Some(_) => false,
                    None => true,
                },
            };
            proof {
                if T::obeys_eq_spec() {
                    assert(holds == cond_holds(self.rules@[i as int].cond, store@));
                }
            }
            if !holds {
                v.push(rule.message.clone());
            }
            proof {
                assert(self.rules@.take(i as int + 1).drop_last() =~= self.rules@.take(i as int));
                assert(self.rules@.take(i as int + 1).last() == self.rules@[i as int]);
                if T::obeys_eq_spec() {
                    assert(v.deep_view() =~= violations(self.rules@.take(i as int + 1), store@));
                }
            }
            i += 1;
        }
        proof {
            assert(self.rules@.take(n as int) =~= self.rules@);
        }
        v
    }
}

} // verus!
