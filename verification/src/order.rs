//! The order in which agents are listed: byte-wise lexicographic order of
//! their identifiers' UTF-8 encodings, which is the order of `String`.
use vstd::prelude::*;
use vstd::utf8::encode_utf8;
use vstd::utf8::encode_utf8_decode_utf8;

verus! {

/// `a` and `b` agree on their first `k` bytes.
pub open spec fn prefix_eq(a: Seq<u8>, b: Seq<u8>, k: int) -> bool {
    forall|j: int| 0 <= j < k ==> a[j] == b[j]
}

/// `k` is the place where `a` first falls below `b`.
pub open spec fn lt_at(a: Seq<u8>, b: Seq<u8>, k: int) -> bool {
    &&& 0 <= k <= a.len()
    &&& k <= b.len()
    &&& prefix_eq(a, b, k)
    &&& ((k == a.len() && k < b.len()) || (k < a.len() && k < b.len() && a[k] < b[k]))
}

/// Strict lexicographic order on byte sequences.
pub open spec fn bytes_lt(a: Seq<u8>, b: Seq<u8>) -> bool {
    exists|k: int| #[trigger] lt_at(a, b, k)
}

/// Strict order on identifiers (as character sequences): the order of
/// their UTF-8 encodings.
pub open spec fn id_lt(a: Seq<char>, b: Seq<char>) -> bool {
    bytes_lt(encode_utf8(a), encode_utf8(b))
}

/// No byte sequence falls below itself, and no two fall below each other.
pub proof fn lemma_bytes_lt_asymmetric(a: Seq<u8>, b: Seq<u8>)
    ensures
        !(bytes_lt(a, b) && bytes_lt(b, a)),
{
    if bytes_lt(a, b) && bytes_lt(b, a) {
        let k1 = choose|k: int| lt_at(a, b, k);
        let k2 = choose|k: int| lt_at(b, a, k);
        if k1 < k2 {
            assert(b[k1] == a[k1]);
        } else if k2 < k1 {
            assert(a[k2] == b[k2]);
        }
    }
}

/// Byte-lexicographic order is transitive.
pub proof fn lemma_bytes_lt_transitive(a: Seq<u8>, b: Seq<u8>, c: Seq<u8>)
    requires
        bytes_lt(a, b),
        bytes_lt(b, c),
    ensures
        bytes_lt(a, c),
{
    let k1 = choose|k: int| lt_at(a, b, k);
    let k2 = choose|k: int| lt_at(b, c, k);
    if k1 < k2 {
        assert(k1 < b.len());
        assert(b[k1] == c[k1]);
        assert(lt_at(a, c, k1));
    } else if k2 < k1 {
        assert(k2 < b.len());
        assert(a[k2] == b[k2]);
        assert(lt_at(a, c, k2));
    } else {
        assert(lt_at(a, c, k1));
    }
}

proof fn lemma_bytes_total_from(a: Seq<u8>, b: Seq<u8>, k: int)
    requires
        0 <= k <= a.len(),
        k <= b.len(),
        prefix_eq(a, b, k),
        a != b,
    ensures
        bytes_lt(a, b) || bytes_lt(b, a),
    decreases a.len() - k,
{
    if k == a.len() || k == b.len() {
        if k == a.len() && k == b.len() {
            assert(a =~= b);
        } else if k == a.len() {
            assert(lt_at(a, b, k));
        } else {
            assert(lt_at(b, a, k));
        }
    } else if a[k] < b[k] {
        assert(lt_at(a, b, k));
    } else if b[k] < a[k] {
        assert(lt_at(b, a, k));
    } else {
        lemma_bytes_total_from(a, b, k + 1);
    }
}

/// Two distinct byte sequences are ordered one way or the other.
pub proof fn lemma_bytes_lt_total(a: Seq<u8>, b: Seq<u8>)
    requires
        a != b,
    ensures
        bytes_lt(a, b) || bytes_lt(b, a),
{
    lemma_bytes_total_from(a, b, 0);
}

/// The identifier order is a strict total order.
pub proof fn lemma_id_lt_order(a: Seq<char>, b: Seq<char>, c: Seq<char>)
    ensures
        !id_lt(a, a),
        !(id_lt(a, b) && id_lt(b, a)),
        id_lt(a, b) && id_lt(b, c) ==> id_lt(a, c),
        a != b ==> id_lt(a, b) || id_lt(b, a),
{
    lemma_bytes_lt_asymmetric(encode_utf8(a), encode_utf8(a));
    lemma_bytes_lt_asymmetric(encode_utf8(a), encode_utf8(b));
    if id_lt(a, b) && id_lt(b, c) {
        lemma_bytes_lt_transitive(encode_utf8(a), encode_utf8(b), encode_utf8(c));
    }
    if a != b {
        encode_utf8_decode_utf8(a);
        encode_utf8_decode_utf8(b);
        lemma_bytes_lt_total(encode_utf8(a), encode_utf8(b));
    }
}

/// Compares two byte strings in lexicographic order.
pub fn bytes_precede(a: &[u8], b: &[u8]) -> (r: bool)
    ensures
        r == bytes_lt(a@, b@),
{
    let mut i: usize = 0;
    while i < a.len() && i < b.len()
        invariant
            i <= a.len(),
            i <= b.len(),
            prefix_eq(a@, b@, i as int),
        decreases a.len() - i,
    {
        if a[i] != b[i] {
            if a[i] < b[i] {
                assert(lt_at(a@, b@, i as int));
                return true;
            } else {
                assert(lt_at(b@, a@, i as int));
                proof {
                    lemma_bytes_lt_asymmetric(a@, b@);
                }
                return false;
            }
        }
        i = i + 1;
    }
    if a.len() < b.len() {
        assert(lt_at(a@, b@, i as int));
        true
    } else {
        assert(!bytes_lt(a@, b@)) by {
            if bytes_lt(a@, b@) {
                let k = choose|k: int| lt_at(a@, b@, k);
                if k < i {
                    assert(a@[k] == b@[k]);
                }
            }
        }
        false
    }
}

} // verus!
