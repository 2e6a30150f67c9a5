//! Lexicographic order of byte strings.

use vstd::prelude::*;

verus! {

/// `a` and `b` agree before position `k`, and at `k` either `a` ends or its
/// byte is the smaller one.
pub open spec fn below_at(a: Seq<u8>, b: Seq<u8>, k: int) -> bool {
    &&& 0 <= k <= a.len()
    &&& k < b.len()
    &&& forall|i: int| 0 <= i < k ==> a[i] == b[i]
    &&& k == a.len() || a[k] < b[k]
}

/// `a` precedes `b` lexicographically.
pub open spec fn lex_lt(a: Seq<u8>, b: Seq<u8>) -> bool {
    exists|k: int| #[trigger] below_at(a, b, k)
}

/// `a` precedes `b` at a position that both have, so whatever follows either
/// of them does not change their order.
pub open spec fn strictly_below_at(a: Seq<u8>, b: Seq<u8>, k: int) -> bool {
    &&& 0 <= k < a.len()
    &&& k < b.len()
    &&& forall|i: int| 0 <= i < k ==> a[i] == b[i]
    &&& a[k] < b[k]
}

/// `a` precedes `b` because of a byte that both have.
pub open spec fn strictly_below(a: Seq<u8>, b: Seq<u8>) -> bool {
    exists|k: int| #[trigger] strictly_below_at(a, b, k)
}

/// No byte string precedes itself.
pub proof fn lex_irreflexive(a: Seq<u8>)
    ensures
        !lex_lt(a, a),
{
}

/// The order is transitive.
pub proof fn lex_transitive(a: Seq<u8>, b: Seq<u8>, c: Seq<u8>)
    requires
        lex_lt(a, b),
        lex_lt(b, c),
    ensures
        lex_lt(a, c),
{
    let k = choose|k: int| below_at(a, b, k);
    let l = choose|l: int| below_at(b, c, l);
    if k <= l {
        assert(below_at(a, c, k));
    } else {
        assert(below_at(a, c, l));
    }
}

/// The order holds in one direction only.
pub proof fn lex_asymmetric(a: Seq<u8>, b: Seq<u8>)
    ensures
        !(lex_lt(a, b) && lex_lt(b, a)),
{
    if lex_lt(a, b) && lex_lt(b, a) {
        lex_transitive(a, b, a);
        lex_irreflexive(a);
    }
}

/// Two different byte strings are ordered one way or the other.
pub proof fn lex_total(a: Seq<u8>, b: Seq<u8>)
    ensures
        a == b || lex_lt(a, b) || lex_lt(b, a),
{
    lex_total_from(a, b, 0);
}

proof fn lex_total_from(a: Seq<u8>, b: Seq<u8>, n: int)
    requires
        0 <= n <= a.len(),
        n <= b.len(),
        forall|i: int| 0 <= i < n ==> a[i] == b[i],
    ensures
        a == b || lex_lt(a, b) || lex_lt(b, a),
    decreases a.len() - n,
{
    if n == a.len() && n == b.len() {
        assert(a =~= b);
    } else if n == a.len() {
        assert(below_at(a, b, n));
    } else if n == b.len() {
        assert(below_at(b, a, n));
    } else if a[n] < b[n] {
        assert(below_at(a, b, n));
    } else if b[n] < a[n] {
        assert(below_at(b, a, n));
    } else {
        lex_total_from(a, b, n + 1);
    }
}

/// A strict difference decides the order of any two continuations.
pub proof fn strictly_below_extends(a: Seq<u8>, b: Seq<u8>, s: Seq<u8>, t: Seq<u8>)
    requires
        strictly_below(a, b),
    ensures
        strictly_below(a + s, b + t),
{
    let k = choose|k: int| strictly_below_at(a, b, k);
    assert(strictly_below_at(a + s, b + t, k));
}

/// A common prefix does not change a strict difference.
pub proof fn strictly_below_prefixed(p: Seq<u8>, a: Seq<u8>, b: Seq<u8>)
    requires
        strictly_below(a, b),
    ensures
        strictly_below(p + a, p + b),
{
    let k = choose|k: int| strictly_below_at(a, b, k);
    assert(strictly_below_at(p + a, p + b, p.len() + k));
}

/// A strict difference implies lexicographic order.
pub proof fn strictly_below_is_lex(a: Seq<u8>, b: Seq<u8>)
    requires
        strictly_below(a, b),
    ensures
        lex_lt(a, b),
        a != b,
{
    let k = choose|k: int| strictly_below_at(a, b, k);
    assert(below_at(a, b, k));
}

/// Decides the lexicographic order.
pub fn bytes_before(a: &[u8], b: &[u8]) -> (before: bool)
    ensures
        before == lex_lt(a@, b@),
{
    let mut i: usize = 0;
    while i < a.len() && i < b.len()
        invariant
            i <= a@.len(),
            i <= b@.len(),
            forall|j: int| 0 <= j < i ==> a@[j] == b@[j],
        decreases a@.len() - i,
    {
        if a[i] < b[i] {
            assert(below_at(a@, b@, i as int));
            return true;
        }
        if b[i] < a[i] {
            return false;
        }
        i = i + 1;
    }
    if i < b.len() {
        assert(below_at(a@, b@, i as int));
        true
    } else {
        false
    }
}

} // verus!
