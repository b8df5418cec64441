//! The total order on tokens: lexicographic over their UTF-8 bytes.

use std::cmp::Ordering;
use vstd::prelude::*;
use vstd::utf8::*;

verus! {

/// Strict lexicographic order on byte sequences.
pub open spec fn bytes_lt(a: Seq<u8>, b: Seq<u8>) -> bool
    decreases a.len(),
{
    if a.len() == 0 {
        b.len() > 0
    } else if b.len() == 0 {
        false
    } else if a[0] != b[0] {
        a[0] < b[0]
    } else {
        bytes_lt(a.drop_first(), b.drop_first())
    }
}

/// Strict order on tokens: their UTF-8 encodings compared byte by byte,
/// which is how `str` orders itself.
pub open spec fn token_lt(a: Seq<char>, b: Seq<char>) -> bool {
    bytes_lt(encode_utf8(a), encode_utf8(b))
}

pub open spec fn token_le(a: Seq<char>, b: Seq<char>) -> bool {
    token_lt(a, b) || a == b
}

pub open spec fn ordering_of(a: Seq<char>, b: Seq<char>) -> Ordering {
    if token_lt(a, b) {
        Ordering::Less
    } else if a == b {
        Ordering::Equal
    } else {
        Ordering::Greater
    }
}

pub proof fn lemma_bytes_lt_irreflexive(a: Seq<u8>)
    ensures
        !bytes_lt(a, a),
    decreases a.len(),
{
    if a.len() > 0 {
        lemma_bytes_lt_irreflexive(a.drop_first());
    }
}

pub proof fn lemma_bytes_lt_transitive(a: Seq<u8>, b: Seq<u8>, c: Seq<u8>)
    requires
        bytes_lt(a, b),
        bytes_lt(b, c),
    ensures
        bytes_lt(a, c),
    decreases a.len(),
{
    if a.len() > 0 && b.len() > 0 && c.len() > 0 && a[0] == b[0] && b[0] == c[0] {
        lemma_bytes_lt_transitive(a.drop_first(), b.drop_first(), c.drop_first());
    }
}

pub proof fn lemma_bytes_lt_total(a: Seq<u8>, b: Seq<u8>)
    ensures
        bytes_lt(a, b) || a == b || bytes_lt(b, a),
    decreases a.len(),
{
    if a.len() > 0 && b.len() > 0 && a[0] == b[0] {
        lemma_bytes_lt_total(a.drop_first(), b.drop_first());
        if a.drop_first() == b.drop_first() {
            assert(a =~= seq![a[0]] + a.drop_first());
            assert(b =~= seq![b[0]] + b.drop_first());
        }
    } else if a.len() == 0 && b.len() == 0 {
        assert(a =~= b);
    }
}

pub proof fn lemma_bytes_lt_asymmetric(a: Seq<u8>, b: Seq<u8>)
    requires
        bytes_lt(a, b),
    ensures
        !bytes_lt(b, a),
{
    if bytes_lt(b, a) {
        lemma_bytes_lt_transitive(a, b, a);
        lemma_bytes_lt_irreflexive(a);
    }
}

/// `token_lt` is a strict total order.
pub proof fn lemma_token_order()
    ensures
        forall|a: Seq<char>| !token_lt(a, a),
        forall|a: Seq<char>, b: Seq<char>| token_lt(a, b) ==> !token_lt(b, a),
        forall|a: Seq<char>, b: Seq<char>, c: Seq<char>|
            token_lt(a, b) && token_lt(b, c) ==> token_lt(a, c),
        forall|a: Seq<char>, b: Seq<char>| token_lt(a, b) || a == b || token_lt(b, a),
{
    assert forall|a: Seq<char>| !token_lt(a, a) by {
        lemma_bytes_lt_irreflexive(encode_utf8(a));
    }
    assert forall|a: Seq<char>, b: Seq<char>| token_lt(a, b) implies !token_lt(b, a) by {
        lemma_bytes_lt_asymmetric(encode_utf8(a), encode_utf8(b));
    }
    assert forall|a: Seq<char>, b: Seq<char>, c: Seq<char>|
        token_lt(a, b) && token_lt(b, c) implies token_lt(a, c) by {
        lemma_bytes_lt_transitive(encode_utf8(a), encode_utf8(b), encode_utf8(c));
    }
    assert forall|a: Seq<char>, b: Seq<char>| token_lt(a, b) || a == b || token_lt(b, a) by {
        lemma_bytes_lt_total(encode_utf8(a), encode_utf8(b));
        if encode_utf8(a) == encode_utf8(b) {
            encode_utf8_decode_utf8(a);
            encode_utf8_decode_utf8(b);
        }
    }
}

proof fn lemma_bytes_lt_skip(a: Seq<u8>, b: Seq<u8>, i: int)
    requires
        0 <= i < a.len(),
        i < b.len(),
        a[i] == b[i],
    ensures
        bytes_lt(a.skip(i), b.skip(i)) == bytes_lt(a.skip(i + 1), b.skip(i + 1)),
{
    assert(a.skip(i).drop_first() =~= a.skip(i + 1));
    assert(b.skip(i).drop_first() =~= b.skip(i + 1));
}

/// Compares two tokens in the order `token_lt`.
pub fn compare_tokens(a: &str, b: &str) -> (r: Ordering)
    ensures
        r == ordering_of(a@, b@),
{
    let x = a.as_bytes();
    let y = b.as_bytes();
    let ghost ex = encode_utf8(a@);
    let ghost ey = encode_utf8(b@);
    assert(x@ == ex);
    assert(y@ == ey);
    assert(ex.skip(0) =~= ex);
    assert(ey.skip(0) =~= ey);
    let mut i: usize = 0;
    while i < x.len() && i < y.len()
        invariant
            x@ == ex,
            y@ == ey,
            ex == encode_utf8(a@),
            ey == encode_utf8(b@),
            0 <= i <= x@.len(),
            i <= y@.len(),
            ex.take(i as int) =~= ey.take(i as int),
            bytes_lt(ex, ey) == bytes_lt(ex.skip(i as int), ey.skip(i as int)),
            bytes_lt(ey, ex) == bytes_lt(ey.skip(i as int), ex.skip(i as int)),
        decreases x@.len() - i,
    {
        if x[i] != y[i] {
            proof {
                lemma_token_order();
                assert(ex.skip(i as int)[0] == ex[i as int]);
                assert(ey.skip(i as int)[0] == ey[i as int]);
                assert(ex.skip(i as int).len() > 0 && ey.skip(i as int).len() > 0);
                if ex[i as int] < ey[i as int] {
                    assert(bytes_lt(ex.skip(i as int), ey.skip(i as int)));
                    assert(token_lt(a@, b@));
                } else {
                    assert(bytes_lt(ey.skip(i as int), ex.skip(i as int)));
                    assert(token_lt(b@, a@));
                    assert(a@ != b@);
                }
            }
            if x[i] < y[i] {
                return Ordering::Less;
            } else {
                return Ordering::Greater;
            }
        }
        proof {
            lemma_bytes_lt_skip(ex, ey, i as int);
            lemma_bytes_lt_skip(ey, ex, i as int);
            assert(ex.take(i + 1) =~= ex.take(i as int).push(ex[i as int]));
            assert(ey.take(i + 1) =~= ey.take(i as int).push(ey[i as int]));
        }
        i = i + 1;
    }
    proof {
        lemma_token_order();
        if i == x.len() && i == y.len() {
            assert(ex =~= ex.take(i as int));
            assert(ey =~= ey.take(i as int));
            encode_utf8_decode_utf8(a@);
            encode_utf8_decode_utf8(b@);
        }
    }
    if i < y.len() {
        Ordering::Less
    } else if i < x.len() {
        Ordering::Greater
    } else {
        Ordering::Equal
    }
}

} // verus!
