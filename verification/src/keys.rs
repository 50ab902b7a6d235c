//! Lexicographic order on object keys, by Unicode scalar value.
//!
//! This is the order in which a `BTreeMap<String, _>` keeps its keys
//! (byte order on UTF-8 agrees with scalar-value order).

use vstd::prelude::*;
use vstd::string::*;

verus! {

/// `a` sorts strictly before `b`: at the first position where they differ,
/// `a` has the smaller character, or `a` is a proper prefix of `b`.
pub open spec fn key_lt(a: Seq<char>, b: Seq<char>) -> bool {
    exists|i: int| #[trigger] first_difference(a, b, i) && key_lt_at(a, b, i)
}

/// `a` and `b` agree on every position before `i`, and `i` lies within both.
pub open spec fn first_difference(a: Seq<char>, b: Seq<char>, i: int) -> bool {
    &&& 0 <= i <= a.len()
    &&& i <= b.len()
    &&& forall|j: int| 0 <= j < i ==> a[j] == b[j]
}

/// Given agreement before `i`, position `i` decides that `a` comes first.
pub open spec fn key_lt_at(a: Seq<char>, b: Seq<char>, i: int) -> bool {
    ||| (i == a.len() && i < b.len())
    ||| (i < a.len() && i < b.len() && (a[i] as u32) < (b[i] as u32))
}

/// The outcome of comparing two keys.
#[derive(Clone, Copy, Debug, PartialEq, Eq, Structural)]
pub enum KeyOrder {
    Before,
    Same,
    After,
}

/// No key sorts before itself.
pub proof fn lemma_key_lt_irreflexive(a: Seq<char>)
    ensures
        !key_lt(a, a),
{
}

/// Two keys cannot each sort before the other.
pub proof fn lemma_key_lt_asymmetric(a: Seq<char>, b: Seq<char>)
    requires
        key_lt(a, b),
    ensures
        !key_lt(b, a),
{
    let i = choose|i: int| #[trigger] first_difference(a, b, i) && key_lt_at(a, b, i);
    if key_lt(b, a) {
        let k = choose|k: int| #[trigger] first_difference(b, a, k) && key_lt_at(b, a, k);
        if k < i {
            assert(a[k] == b[k]);
        } else if i < k {
            assert(a[i] == b[i]);
        }
    }
}

/// The order is transitive.
pub proof fn lemma_key_lt_transitive(a: Seq<char>, b: Seq<char>, c: Seq<char>)
    requires
        key_lt(a, b),
        key_lt(b, c),
    ensures
        key_lt(a, c),
{
    let i = choose|i: int| #[trigger] first_difference(a, b, i) && key_lt_at(a, b, i);
    let k = choose|k: int| #[trigger] first_difference(b, c, k) && key_lt_at(b, c, k);
    if i <= k {
        if i < k {
            assert(b[i] == c[i]);
        }
        assert(first_difference(a, c, i));
        assert(key_lt_at(a, c, i));
    } else {
        assert(a[k] == b[k]);
        assert(first_difference(a, c, k));
        assert(key_lt_at(a, c, k));
    }
}

/// Compares two keys in the order of `key_lt`.
pub fn compare_keys(a: &str, b: &str) -> (r: KeyOrder)
    ensures
        r == KeyOrder::Before <==> key_lt(a@, b@),
        r == KeyOrder::Same <==> a@ == b@,
        r == KeyOrder::After <==> key_lt(b@, a@),
{
    let la = a.unicode_len();
    let lb = b.unicode_len();
    let mut i: usize = 0;
    while i < la && i < lb && a.get_char(i) == b.get_char(i)
        invariant
            la == a@.len(),
            lb == b@.len(),
            i <= la,
            i <= lb,
            forall|j: int| 0 <= j < i ==> a@[j] == b@[j],
        decreases la - i,
    {
        i = i + 1;
    }
    proof {
        assert(first_difference(a@, b@, i as int));
        assert(first_difference(b@, a@, i as int));
    }
    if i < la && i < lb {
        let ca = a.get_char(i);
        let cb = b.get_char(i);
        if (ca as u32) < (cb as u32) {
            proof {
                assert(key_lt_at(a@, b@, i as int));
                lemma_key_lt_asymmetric(a@, b@);
                assert(a@[i as int] != b@[i as int]);
            }
            KeyOrder::Before
        } else {
            proof {
                assert(key_lt_at(b@, a@, i as int));
                lemma_key_lt_asymmetric(b@, a@);
                assert(a@[i as int] != b@[i as int]);
            }
            KeyOrder::After
        }
    } else if i == la && i == lb {
        proof {
            assert(a@ =~= b@);
            lemma_key_lt_irreflexive(a@);
        }
        KeyOrder::Same
    } else if i == la {
        proof {
            assert(key_lt_at(a@, b@, i as int));
            lemma_key_lt_asymmetric(a@, b@);
        }
        KeyOrder::Before
    } else {
        proof {
            assert(key_lt_at(b@, a@, i as int));
            lemma_key_lt_asymmetric(b@, a@);
        }
        KeyOrder::After
    }
}

} // verus!
