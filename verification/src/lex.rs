//! Lexicographic order on character sequences, with an executable three-way
//! comparison on `&str`.  The store keeps its keys strictly sorted by this
//! order, which is what makes its key iteration ascending.

use vstd::prelude::*;

verus! {

/// `a` comes strictly before `b` in lexicographic order: at the first
/// position where they differ, `a` holds the smaller character, or `a` is a
/// proper prefix of `b`.
pub open spec fn lex_before(a: Seq<char>, b: Seq<char>) -> bool
    decreases a.len(),
{
    if b.len() == 0 {
        false
    } else if a.len() == 0 {
        true
    } else if a[0] == b[0] {
        lex_before(a.drop_first(), b.drop_first())
    } else {
        (a[0] as int) < (b[0] as int)
    }
}

pub proof fn lemma_lex_irreflexive(a: Seq<char>)
    ensures
        !lex_before(a, a),
    decreases a.len(),
{
    if a.len() > 0 {
        lemma_lex_irreflexive(a.drop_first());
    }
}

/// Exactly one of `lex_before(a, b)`, `a == b`, `lex_before(b, a)` holds.
pub proof fn lemma_lex_trichotomy(a: Seq<char>, b: Seq<char>)
    ensures
        lex_before(a, b) || lex_before(b, a) || a == b,
        lex_before(a, b) ==> !lex_before(b, a) && a != b,
        lex_before(b, a) ==> !lex_before(a, b) && a != b,
    decreases a.len(),
{
    lemma_lex_irreflexive(a);
    lemma_lex_irreflexive(b);
    if a.len() == 0 && b.len() == 0 {
        assert(a =~= b);
    }
    if a.len() > 0 && b.len() > 0 && a[0] == b[0] {
        lemma_lex_trichotomy(a.drop_first(), b.drop_first());
        if a.drop_first() == b.drop_first() {
            assert(a.len() == b.len());
            assert forall|i: int| 0 <= i < a.len() implies a[i] == b[i] by {
                if i >= 1 {
                    assert(a[i] == a.drop_first()[i - 1]);
                    assert(b[i] == b.drop_first()[i - 1]);
                }
            }
            assert(a =~= b);
        }
    }
}

pub proof fn lemma_lex_transitive(a: Seq<char>, b: Seq<char>, c: Seq<char>)
    requires
        lex_before(a, b),
        lex_before(b, c),
    ensures
        lex_before(a, c),
    decreases a.len() + b.len() + c.len(),
{
    if a.len() > 0 && b.len() > 0 && c.len() > 0 {
        if a[0] == b[0] && b[0] == c[0] {
            lemma_lex_transitive(a.drop_first(), b.drop_first(), c.drop_first());
        }
    }
}

/// If `a` and `b` agree on their first `i` characters and differ at
/// position `i`, the character there decides the order.
proof fn lemma_lex_at_difference(a: Seq<char>, b: Seq<char>, i: int)
    requires
        0 <= i < a.len(),
        i < b.len(),
        forall|j: int| 0 <= j < i ==> a[j] == b[j],
        a[i] != b[i],
    ensures
        lex_before(a, b) <==> (a[i] as int) < (b[i] as int),
    decreases i,
{
    if i > 0 {
        lemma_lex_at_difference(a.drop_first(), b.drop_first(), i - 1);
    }
}

/// If `a` is a proper prefix of `b`, then `a` comes before `b`.
proof fn lemma_lex_proper_prefix(a: Seq<char>, b: Seq<char>)
    requires
        a.len() < b.len(),
        forall|j: int| 0 <= j < a.len() ==> a[j] == b[j],
    ensures
        lex_before(a, b),
    decreases a.len(),
{
    if a.len() > 0 {
        lemma_lex_proper_prefix(a.drop_first(), b.drop_first());
    }
}

/// The result of a three-way string comparison.
pub enum KeyOrder {
    Before,
    Same,
    After,
}

/// Three-way comparison of two strings in lexicographic order on their
/// character sequences.
pub fn str_cmp(a: &str, b: &str) -> (r: KeyOrder)
    ensures
        r is Same <==> a@ == b@,
        r is Before <==> lex_before(a@, b@),
        r is After <==> lex_before(b@, a@),
{
    let la = a.unicode_len();
    let lb = b.unicode_len();
    let mut i: usize = 0;
    loop
        invariant
            la == a@.len(),
            lb == b@.len(),
            i <= la,
            i <= lb,
            forall|j: int| 0 <= j < i ==> a@[j] == b@[j],
        decreases la - i,
    {
        if i < la && i < lb {
            let ca = a.get_char(i);
            let cb = b.get_char(i);
            if ca != cb {
                proof {
                    lemma_lex_at_difference(a@, b@, i as int);
                    lemma_lex_at_difference(b@, a@, i as int);
                    lemma_lex_trichotomy(a@, b@);
                }
                if (ca as u32) < (cb as u32) {
                    return KeyOrder::Before;
                } else {
                    return KeyOrder::After;
                }
            }
            i += 1;
        } else {
            if la == lb {
                proof {
                    assert(a@ =~= b@);
                    lemma_lex_irreflexive(a@);
                }
                return KeyOrder::Same;
            } else if la < lb {
                proof {
                    lemma_lex_proper_prefix(a@, b@);
                    lemma_lex_trichotomy(a@, b@);
                }
                return KeyOrder::Before;
            } else {
                proof {
                    lemma_lex_proper_prefix(b@, a@);
                    lemma_lex_trichotomy(a@, b@);
                }
                return KeyOrder::After;
            }
        }
    }
}

} // verus!
