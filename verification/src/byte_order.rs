//! Lexicographic order on byte strings, and a verified comparison.

use vstd::prelude::*;

verus! {

/// How one byte string stands to another in lexicographic order.
#[derive(Clone, Copy, Debug, PartialEq, Eq, Structural)]
pub enum ByteOrder {
    Less,
    Equal,
    Greater,
}

/// The two strings agree on their first `k` bytes.
pub open spec fn agree_before(a: Seq<u8>, b: Seq<u8>, k: int) -> bool {
    forall|j: int| 0 <= j < k ==> a[j] == b[j]
}

/// Position `k` shows that `a` comes before `b`: both agree before `k`, and
/// at `k` either `a` has ended while `b` goes on, or `a` has the smaller
/// byte.
pub open spec fn precedes_at(a: Seq<u8>, b: Seq<u8>, k: int) -> bool {
    &&& 0 <= k <= a.len()
    &&& k < b.len()
    &&& agree_before(a, b, k)
    &&& (k < a.len() ==> a[k] < b[k])
}

/// `a` comes strictly before `b` in lexicographic order.
pub open spec fn lex_lt(a: Seq<u8>, b: Seq<u8>) -> bool {
    exists|k: int| precedes_at(a, b, k)
}

/// The order of `a` relative to `b`.
pub open spec fn byte_order(a: Seq<u8>, b: Seq<u8>) -> ByteOrder {
    if a == b {
        ByteOrder::Equal
    } else if lex_lt(a, b) {
        ByteOrder::Less
    } else {
        ByteOrder::Greater
    }
}

/// A witness that `a` comes before `b` rules out every witness for the
/// opposite order.
proof fn lemma_witnesses_exclude(a: Seq<u8>, b: Seq<u8>, i: int, j: int)
    requires
        precedes_at(a, b, i),
    ensures
        !precedes_at(b, a, j),
{
    if precedes_at(b, a, j) {
        if i < j {
            assert(b[i] == a[i]);
        } else if j < i {
            assert(a[j] == b[j]);
        }
    }
}

/// No string comes before itself.
pub proof fn lemma_lex_lt_irreflexive(a: Seq<u8>)
    ensures
        !lex_lt(a, a),
{
    if lex_lt(a, a) {
        let k = choose|k: int| precedes_at(a, a, k);
        lemma_witnesses_exclude(a, a, k, k);
        assert(false);
    }
}

/// If `a` comes before `b`, then `b` does not come before `a`, and the two
/// differ.
pub proof fn lemma_lex_lt_asymmetric(a: Seq<u8>, b: Seq<u8>)
    requires
        lex_lt(a, b),
    ensures
        !lex_lt(b, a),
        a != b,
{
    let i = choose|k: int| precedes_at(a, b, k);
    if lex_lt(b, a) {
        let j = choose|k: int| precedes_at(b, a, k);
        lemma_witnesses_exclude(a, b, i, j);
        assert(false);
    }
    if a == b {
        lemma_lex_lt_irreflexive(a);
    }
}

/// The order is transitive.
pub proof fn lemma_lex_lt_transitive(a: Seq<u8>, b: Seq<u8>, c: Seq<u8>)
    requires
        lex_lt(a, b),
        lex_lt(b, c),
    ensures
        lex_lt(a, c),
{
    let i = choose|k: int| precedes_at(a, b, k);
    let j = choose|k: int| precedes_at(b, c, k);
    let m = if i <= j { i } else { j };
    assert forall|t: int| 0 <= t < m implies a[t] == c[t] by {
        assert(a[t] == b[t]);
        assert(b[t] == c[t]);
    }
    if m < a.len() {
        if i < j {
            assert(b[i] == c[i]);
        } else if j < i {
            assert(a[j] == b[j]);
        }
    }
    assert(precedes_at(a, c, m));
}

/// Two strings that agree on their first `k` bytes are equal, or one comes
/// before the other.
proof fn lemma_total_from(a: Seq<u8>, b: Seq<u8>, k: int)
    requires
        0 <= k <= a.len(),
        k <= b.len(),
        agree_before(a, b, k),
    ensures
        a == b || lex_lt(a, b) || lex_lt(b, a),
    decreases a.len() - k,
{
    if k == a.len() {
        if k == b.len() {
            assert(a =~= b);
        } else {
            assert(precedes_at(a, b, k));
        }
    } else if k == b.len() {
        assert forall|j: int| 0 <= j < k implies b[j] == a[j] by {
            assert(a[j] == b[j]);
        }
        assert(precedes_at(b, a, k));
    } else if a[k] < b[k] {
        assert(precedes_at(a, b, k));
    } else if b[k] < a[k] {
        assert forall|j: int| 0 <= j < k implies b[j] == a[j] by {
            assert(a[j] == b[j]);
        }
        assert(precedes_at(b, a, k));
    } else {
        lemma_total_from(a, b, k + 1);
    }
}

/// The order is total: two strings are equal, or one comes before the other.
pub proof fn lemma_lex_lt_total(a: Seq<u8>, b: Seq<u8>)
    ensures
        a == b || lex_lt(a, b) || lex_lt(b, a),
{
    lemma_total_from(a, b, 0);
}

/// `byte_order` mirrors itself when its arguments are exchanged.
pub proof fn lemma_byte_order_mirror(a: Seq<u8>, b: Seq<u8>)
    ensures
        byte_order(a, b) == ByteOrder::Less <==> byte_order(b, a) == ByteOrder::Greater,
        byte_order(a, b) == ByteOrder::Equal <==> byte_order(b, a) == ByteOrder::Equal,
        byte_order(a, b) == ByteOrder::Less <==> lex_lt(a, b),
        byte_order(a, b) == ByteOrder::Greater <==> lex_lt(b, a),
        byte_order(a, b) == ByteOrder::Equal <==> a == b,
{
    lemma_lex_lt_total(a, b);
    if lex_lt(a, b) {
        lemma_lex_lt_asymmetric(a, b);
    }
    if lex_lt(b, a) {
        lemma_lex_lt_asymmetric(b, a);
    }
}

/// Compares two byte strings lexicographically.
pub fn compare_bytes(a: &[u8], b: &[u8]) -> (r: ByteOrder)
    ensures
        r == byte_order(a@, b@),
{
    let mut i: usize = 0;
    while i < a.len() && i < b.len()
        invariant
            i <= a.len(),
            i <= b.len(),
            agree_before(a@, b@, i as int),
        decreases a.len() - i,
    {
        if a[i] < b[i] {
            proof {
                assert(precedes_at(a@, b@, i as int));
                lemma_lex_lt_asymmetric(a@, b@);
            }
            return ByteOrder::Less;
        }
        if a[i] > b[i] {
            proof {
                assert forall|j: int| 0 <= j < i implies b@[j] == a@[j] by {
                    assert(a@[j] == b@[j]);
                }
                assert(precedes_at(b@, a@, i as int));
                lemma_lex_lt_asymmetric(b@, a@);
            }
            return ByteOrder::Greater;
        }
        i += 1;
    }
    if i < b.len() {
        proof {
            assert(precedes_at(a@, b@, i as int));
            lemma_lex_lt_asymmetric(a@, b@);
        }
        ByteOrder::Less
    } else if i < a.len() {
        proof {
            assert forall|j: int| 0 <= j < i implies b@[j] == a@[j] by {
                assert(a@[j] == b@[j]);
            }
            assert(precedes_at(b@, a@, i as int));
            lemma_lex_lt_asymmetric(b@, a@);
        }
        ByteOrder::Greater
    } else {
        proof {
            assert(a@ =~= b@);
        }
        ByteOrder::Equal
    }
}

/// Whether two byte strings hold the same bytes.
pub fn bytes_equal(a: &[u8], b: &[u8]) -> (r: bool)
    ensures
        r == (a@ == b@),
{
    if a.len() != b.len() {
        return false;
    }
    let mut i: usize = 0;
    while i < a.len()
        invariant
            i <= a.len(),
            a.len() == b.len(),
            agree_before(a@, b@, i as int),
        decreases a.len() - i,
    {
        if a[i] != b[i] {
            return false;
        }
        i += 1;
    }
    proof {
        assert(a@ =~= b@);
    }
    true
}

} // verus!
