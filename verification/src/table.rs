//! A mapping from string keys to values, kept as a vector of slots sorted
//! strictly by the lexicographic order of the keys.  Its view is a
//! `Map<Seq<char>, V>`; the sortedness is what gives the store its ascending
//! key iteration.

use crate::lex::{lemma_lex_irreflexive, lemma_lex_transitive, lemma_lex_trichotomy};
use crate::lex::{lex_before, str_cmp, KeyOrder};
use vstd::prelude::*;

verus! {

struct Slot<V> {
    key: String,
    val: V,
}

pub struct Table<V> {
    slots: Vec<Slot<V>>,
}

spec fn map_of<V>(s: Seq<Slot<V>>) -> Map<Seq<char>, V>
    decreases s.len(),
{
    if s.len() == 0 {
        Map::empty()
    } else {
        map_of(s.drop_last()).insert(s.last().key@, s.last().val)
    }
}

impl<V> View for Table<V> {
    type V = Map<Seq<char>, V>;

    closed spec fn view(&self) -> Map<Seq<char>, V> {
        map_of(self.slots@)
    }
}

proof fn lemma_map_of_contains<V>(s: Seq<Slot<V>>, k: Seq<char>)
    ensures
        map_of(s).contains_key(k) <==> exists|i: int| 0 <= i < s.len() && s[i].key@ == k,
    decreases s.len(),
{
    if s.len() > 0 {
        lemma_map_of_contains(s.drop_last(), k);
        if s.last().key@ == k {
            assert(s[s.len() - 1].key@ == k);
        } else if map_of(s).contains_key(k) {
            let i = choose|i: int| 0 <= i < s.drop_last().len() && s.drop_last()[i].key@ == k;
            assert(s[i].key@ == k);
        } else if exists|i: int| 0 <= i < s.len() && s[i].key@ == k {
            let i = choose|i: int| 0 <= i < s.len() && s[i].key@ == k;
            assert(i < s.len() - 1);
            assert(s.drop_last()[i].key@ == k);
        }
    }
}

proof fn lemma_map_of_index<V>(s: Seq<Slot<V>>, i: int)
    requires
        0 <= i < s.len(),
        forall|j: int| i < j < s.len() ==> s[j].key@ != s[i].key@,
    ensures
        map_of(s).contains_key(s[i].key@),
        map_of(s)[s[i].key@] == s[i].val,
    decreases s.len(),
{
    lemma_map_of_contains(s, s[i].key@);
    if i < s.len() - 1 {
        lemma_map_of_index(s.drop_last(), i);
        assert(s.drop_last()[i] == s[i]);
    }
}

proof fn lemma_map_of_update<V>(s: Seq<Slot<V>>, i: int, slot: Slot<V>)
    requires
        0 <= i < s.len(),
        slot.key@ == s[i].key@,
        forall|j: int| 0 <= j < s.len() && j != i ==> s[j].key@ != s[i].key@,
    ensures
        map_of(s.update(i, slot)) == map_of(s).insert(slot.key@, slot.val),
    decreases s.len(),
{
    let t = s.update(i, slot);
    if i == s.len() - 1 {
        assert(t.drop_last() =~= s.drop_last());
        assert(map_of(t) =~= map_of(s).insert(slot.key@, slot.val));
    } else {
        assert(t.drop_last() =~= s.drop_last().update(i, slot));
        assert(s.drop_last()[i] == s[i]);
        assert(forall|j: int|
            0 <= j < s.drop_last().len() && j != i ==> s.drop_last()[j].key@ != s.drop_last()[i].key@);
        lemma_map_of_update(s.drop_last(), i, slot);
        assert(t.last() == s.last());
        assert(s.last().key@ != slot.key@);
        assert(map_of(t) =~= map_of(s).insert(slot.key@, slot.val));
    }
}

proof fn lemma_map_of_insert_at<V>(s: Seq<Slot<V>>, i: int, slot: Slot<V>)
    requires
        0 <= i <= s.len(),
        forall|j: int| 0 <= j < s.len() ==> s[j].key@ != slot.key@,
    ensures
        map_of(s.insert(i, slot)) == map_of(s).insert(slot.key@, slot.val),
    decreases s.len(),
{
    let t = s.insert(i, slot);
    if i == s.len() {
        assert(t.drop_last() =~= s);
        assert(t.last() == slot);
    } else {
        assert(t.drop_last() =~= s.drop_last().insert(i, slot));
        assert(t.last() == s.last());
        lemma_map_of_insert_at(s.drop_last(), i, slot);
        assert(s.last().key@ != slot.key@);
        assert(map_of(t) =~= map_of(s).insert(slot.key@, slot.val));
    }
}

proof fn lemma_map_of_remove_at<V>(s: Seq<Slot<V>>, i: int)
    requires
        0 <= i < s.len(),
        forall|j: int| 0 <= j < s.len() && j != i ==> s[j].key@ != s[i].key@,
    ensures
        map_of(s.remove(i)) == map_of(s).remove(s[i].key@),
    decreases s.len(),
{
    let t = s.remove(i);
    lemma_map_of_contains(s.drop_last(), s[i].key@);
    if i == s.len() - 1 {
        assert(t =~= s.drop_last());
        assert(!map_of(s.drop_last()).contains_key(s[i].key@));
        assert(map_of(t) =~= map_of(s).remove(s[i].key@));
    } else {
        assert(t.drop_last() =~= s.drop_last().remove(i));
        assert(t.last() == s.last());
        assert(s.drop_last()[i] == s[i]);
        lemma_map_of_remove_at(s.drop_last(), i);
        assert(s.last().key@ != s[i].key@);
        assert(map_of(t) =~= map_of(s).remove(s[i].key@));
    }
}

impl<V> Table<V> {
    /// The slots are strictly sorted by key, so every key occurs at most
    /// once.
    pub closed spec fn wf(&self) -> bool {
        forall|i: int, j: int|
            0 <= i < j < self.slots@.len() ==> lex_before(
                self.slots@[i].key@,
                self.slots@[j].key@,
            )
    }

    proof fn lemma_distinct(&self)
        requires
            self.wf(),
        ensures
            forall|i: int, j: int|
                0 <= i < self.slots@.len() && 0 <= j < self.slots@.len() && i != j
                    ==> self.slots@[i].key@ != self.slots@[j].key@,
    {
        assert forall|i: int, j: int|
            0 <= i < self.slots@.len() && 0 <= j < self.slots@.len() && i != j
            implies self.slots@[i].key@ != self.slots@[j].key@ by {
            lemma_lex_trichotomy(self.slots@[i].key@, self.slots@[j].key@);
        }
    }

    pub fn new() -> (r: Table<V>)
        ensures
            r.wf(),
            r@ == Map::<Seq<char>, V>::empty(),
    {
        Table { slots: Vec::new() }
    }

    /// The index of the first slot whose key is not lexicographically before
    /// `key`; if `key` is present at all, it is present exactly there.
    fn find(&self, key: &str) -> (r: usize)
        requires
            self.wf(),
        ensures
            r <= self.slots@.len(),
            forall|j: int| 0 <= j < r ==> lex_before(self.slots@[j].key@, key@),
            r < self.slots@.len() ==> !lex_before(self.slots@[r as int].key@, key@),
            self@.contains_key(key@) <==> (r < self.slots@.len() && self.slots@[r as int].key@
                == key@),
    {
        let n = self.slots.len();
        let mut i: usize = 0;
        loop
            invariant
                self.wf(),
                n == self.slots@.len(),
                i <= n,
                forall|j: int| 0 <= j < i ==> lex_before(self.slots@[j].key@, key@),
            decreases n - i,
        {
            if i < n {
                match str_cmp(self.slots[i].key.as_str(), key) {
                    KeyOrder::Before => {
                        i += 1;
                    },
                    _ => {
                        proof {
                            self.lemma_position(key@, i as int);
                        }
                        return i;
                    },
                }
            } else {
                proof {
                    self.lemma_position(key@, i as int);
                }
                return i;
            }
        }
    }

    proof fn lemma_position(&self, k: Seq<char>, r: int)
        requires
            self.wf(),
            0 <= r <= self.slots@.len(),
            forall|j: int| 0 <= j < r ==> lex_before(self.slots@[j].key@, k),
            r < self.slots@.len() ==> !lex_before(self.slots@[r].key@, k),
        ensures
            self@.contains_key(k) <==> (r < self.slots@.len() && self.slots@[r].key@ == k),
    {
        lemma_map_of_contains(self.slots@, k);
        if self@.contains_key(k) {
            let i = choose|i: int| 0 <= i < self.slots@.len() && self.slots@[i].key@ == k;
            lemma_lex_irreflexive(k);
            if i < r {
                assert(lex_before(k, k));
            } else if i > r {
                assert(lex_before(self.slots@[r].key@, self.slots@[i].key@));
                lemma_lex_trichotomy(self.slots@[r].key@, k);
            }
        }
    }

    pub fn get(&self, key: &str) -> (r: Option<&V>)
        requires
            self.wf(),
        ensures
            match r {
                Some(v) => self@.contains_key(key@) && *v == self@[key@],
                None => !self@.contains_key(key@),
            },
    {
        let i = self.find(key);
        if i < self.slots.len() {
            match str_cmp(self.slots[i].key.as_str(), key) {
                KeyOrder::Same => {
                    proof {
                        self.lemma_distinct();
                        lemma_map_of_index(self.slots@, i as int);
                    }
                    Some(&self.slots[i].val)
                },
                _ => None,
            }
        } else {
            None
        }
    }

    /// Insert or replace the value stored under `key`.
    pub fn set(&mut self, key: &str, val: V)
        requires
            old(self).wf(),
        ensures
            final(self).wf(),
            final(self)@ == old(self)@.insert(key@, val),
    {
        let i = self.find(key);
        let slot = Slot { key: key.to_owned(), val };
        if i < self.slots.len() {
            let same = match str_cmp(self.slots[i].key.as_str(), key) {
                KeyOrder::Same => true,
                _ => false,
            };
            if same {
                proof {
                    self.lemma_distinct();
                    lemma_map_of_update(self.slots@, i as int, slot);
                }
                self.slots.set(i, slot);
                return ;
            }
        }
        proof {
            self.lemma_distinct();
            lemma_map_of_contains(self.slots@, key@);
            lemma_map_of_insert_at(self.slots@, i as int, slot);
            let olds = self.slots@;
            let s = olds.insert(i as int, slot);
            if (i as int) < olds.len() {
                lemma_lex_trichotomy(key@, olds[i as int].key@);
            }
            assert forall|p: int, q: int| 0 <= p < q < s.len() implies lex_before(
                s[p].key@,
                s[q].key@,
            ) by {
                if q < i {
                    assert(s[p] == olds[p] && s[q] == olds[q]);
                } else if q == i {
                    assert(s[p] == olds[p] && s[q] == slot);
                } else {
                    assert(s[q] == olds[q - 1]);
                    if p < i {
                        assert(s[p] == olds[p]);
                        if q - 1 == p {
                            assert(false);
                        }
                    } else if p == i {
                        assert(s[p] == slot);
                        if q - 1 > i {
                            lemma_lex_transitive(key@, olds[i as int].key@, olds[q - 1].key@);
                        }
                    } else {
                        assert(s[p] == olds[p - 1]);
                    }
                }
            }
        }
        self.slots.insert(i, slot);
    }

    /// Remove `key` and whatever it stored; removing an absent key changes
    /// nothing.
    pub fn remove(&mut self, key: &str)
        requires
            old(self).wf(),
        ensures
            final(self).wf(),
            final(self)@ == old(self)@.remove(key@),
    {
        let i = self.find(key);
        if i < self.slots.len() {
            let same = match str_cmp(self.slots[i].key.as_str(), key) {
                KeyOrder::Same => true,
                _ => false,
            };
            if same {
                proof {
                    self.lemma_distinct();
                    lemma_map_of_remove_at(self.slots@, i as int);
                    let s = self.slots@.remove(i as int);
                    assert forall|p: int, q: int| 0 <= p < q < s.len() implies lex_before(
                        s[p].key@,
                        s[q].key@,
                    ) by {
                        if q >= i {
                            assert(s[q] == self.slots@[q + 1]);
                        }
                        if p >= i {
                            assert(s[p] == self.slots@[p + 1]);
                        }
                    }
                }
                self.slots.remove(i);
                return ;
            }
        }
        proof {
            assert(!self@.contains_key(key@));
            assert(self@.remove(key@) =~= self@);
        }
    }

    /// All keys, ascending in lexicographic order.
    pub fn keys(&self) -> (r: Vec<String>)
        requires
            self.wf(),
        ensures
            forall|i: int| 0 <= i < r@.len() ==> self@.contains_key(#[trigger] r@[i]@),
            forall|k: Seq<char>|
                self@.contains_key(k) ==> exists|i: int| 0 <= i < r@.len() && r@[i]@ == k,
            forall|i: int, j: int| 0 <= i < j < r@.len() ==> lex_before(r@[i]@, r@[j]@),
    {
        let n = self.slots.len();
        let mut r: Vec<String> = Vec::new();
        let mut i: usize = 0;
        while i < n
            invariant
                self.wf(),
                n == self.slots@.len(),
                i <= n,
                r@.len() == i,
                forall|j: int| 0 <= j < i ==> r@[j]@ == self.slots@[j].key@,
            decreases n - i,
        {
            r.push(self.slots[i].key.clone());
            i += 1;
        }
        proof {
            assert forall|i2: int| 0 <= i2 < r@.len() implies self@.contains_key(
                #[trigger] r@[i2]@,
            ) by {
                lemma_map_of_contains(self.slots@, r@[i2]@);
            }
            assert forall|k: Seq<char>| self@.contains_key(k) implies exists|i2: int|
                0 <= i2 < r@.len() && r@[i2]@ == k by {
                lemma_map_of_contains(self.slots@, k);
                let i2 = choose|i2: int| 0 <= i2 < self.slots@.len() && self.slots@[i2].key@ == k;
                assert(r@[i2]@ == k);
            }
        }
        r
    }
}

impl<V: Clone> Table<V> {
    /// A deep copy: the same keys, each value cloned.
    pub fn duplicate(&self) -> (r: Table<V>)
        ensures
            self.wf() ==> r.wf(),
            r@.dom() =~= self@.dom(),
            forall|k: Seq<char>|
                self@.contains_key(k) ==> vstd::pervasive::cloned::<V>(self@[k], #[trigger] r@[k]),
    {
        let n = self.slots.len();
        let mut slots: Vec<Slot<V>> = Vec::new();
        let mut i: usize = 0;
        while i < n
            invariant
                n == self.slots@.len(),
                i <= n,
                slots@.len() == i,
                forall|j: int| 0 <= j < i ==> (#[trigger] slots@[j].key@) == self.slots@[j].key@,
                forall|j: int|
                    0 <= j < i ==> vstd::pervasive::cloned::<V>(
                        self.slots@[j].val,
                        #[trigger] slots@[j].val,
                    ),
            decreases n - i,
        {
            let slot = &self.slots[i];
            slots.push(Slot { key: slot.key.clone(), val: slot.val.clone() });
            i += 1;
        }
        let r = Table { slots };
        proof {
            lemma_map_of_pointwise(self.slots@, r.slots@);
        }
        r
    }
}

/// Two slot sequences whose keys agree pointwise produce maps with the same
/// domain, and values that stand at the same position in each.
proof fn lemma_map_of_pointwise<V: Clone>(a: Seq<Slot<V>>, b: Seq<Slot<V>>)
    requires
        a.len() == b.len(),
        forall|j: int| 0 <= j < a.len() ==> (#[trigger] b[j].key@) == a[j].key@,
        forall|j: int|
            0 <= j < a.len() ==> vstd::pervasive::cloned::<V>(a[j].val, #[trigger] b[j].val),
    ensures
        map_of(b).dom() =~= map_of(a).dom(),
        forall|k: Seq<char>|
            map_of(a).contains_key(k) ==> vstd::pervasive::cloned::<V>(
                map_of(a)[k],
                #[trigger] map_of(b)[k],
            ),
    decreases a.len(),
{
    if a.len() > 0 {
        assert(b.drop_last().len() == a.drop_last().len());
        assert(forall|j: int|
            0 <= j < a.drop_last().len() ==> (#[trigger] b.drop_last()[j].key@)
                == a.drop_last()[j].key@);
        assert(forall|j: int|
            0 <= j < a.drop_last().len() ==> vstd::pervasive::cloned::<V>(
                a.drop_last()[j].val,
                #[trigger] b.drop_last()[j].val,
            ));
        lemma_map_of_pointwise(a.drop_last(), b.drop_last());
        assert(a[a.len() - 1] == a.last());
        assert(b[a.len() - 1] == b.last());
    }
}

} // verus!
