//! The order of instrument symbols: that of their UTF-8 bytes.

use vstd::prelude::*;
use vstd::utf8;

verus! {

/// How one symbol stands to another.
#[derive(Clone, Copy, Debug, PartialEq, Eq, Structural)]
pub enum Rank {
    Before,
    Same,
    After,
}

/// Lexicographic order.
pub open spec fn bytes_less(a: Seq<u8>, b: Seq<u8>) -> bool
    decreases a.len(),
{
    if b.len() == 0 {
        false
    } else if a.len() == 0 {
        true
    } else if a[0] != b[0] {
        a[0] < b[0]
    } else {
        bytes_less(a.drop_first(), b.drop_first())
    }
}

/// Whether symbol `a` sorts before symbol `b`.
pub open spec fn precedes(a: Seq<char>, b: Seq<char>) -> bool {
    bytes_less(utf8::encode_utf8(a), utf8::encode_utf8(b))
}

proof fn lemma_bytes_transitive(a: Seq<u8>, b: Seq<u8>, c: Seq<u8>)
    requires
        bytes_less(a, b),
        bytes_less(b, c),
    ensures
        bytes_less(a, c),
    decreases a.len(),
{
    if a.len() > 0 && a[0] == b[0] && b[0] == c[0] {
        lemma_bytes_transitive(a.drop_first(), b.drop_first(), c.drop_first());
    }
}

proof fn lemma_bytes_irreflexive(a: Seq<u8>)
    ensures
        !bytes_less(a, a),
    decreases a.len(),
{
    if a.len() > 0 {
        lemma_bytes_irreflexive(a.drop_first());
    }
}

proof fn lemma_bytes_total(a: Seq<u8>, b: Seq<u8>)
    ensures
        bytes_less(a, b) || a == b || bytes_less(b, a),
    decreases a.len(),
{
    if a.len() > 0 && b.len() > 0 && a[0] == b[0] {
        lemma_bytes_total(a.drop_first(), b.drop_first());
        if a.drop_first() == b.drop_first() {
            assert(a =~= seq![a[0]] + a.drop_first());
            assert(b =~= seq![b[0]] + b.drop_first());
        }
    } else if a.len() == 0 && b.len() == 0 {
        assert(a =~= b);
    }
}

pub proof fn lemma_precedes_transitive(a: Seq<char>, b: Seq<char>, c: Seq<char>)
    requires
        precedes(a, b),
        precedes(b, c),
    ensures
        precedes(a, c),
{
    lemma_bytes_transitive(utf8::encode_utf8(a), utf8::encode_utf8(b), utf8::encode_utf8(c));
}

pub proof fn lemma_precedes_irreflexive(a: Seq<char>)
    ensures
        !precedes(a, a),
{
    lemma_bytes_irreflexive(utf8::encode_utf8(a));
}

/// The order leaves no two symbols uncompared.
pub proof fn lemma_precedes_total(a: Seq<char>, b: Seq<char>)
    ensures
        precedes(a, b) || a == b || precedes(b, a),
{
    lemma_bytes_total(utf8::encode_utf8(a), utf8::encode_utf8(b));
    utf8::encode_utf8_decode_utf8(a);
    utf8::encode_utf8_decode_utf8(b);
}

/// Compares two symbols.
pub fn rank(a: &str, b: &str) -> (rank: Rank)
    ensures
        rank == (if a@ == b@ {
            Rank::Same
        } else if precedes(a@, b@) {
            Rank::Before
        } else {
            Rank::After
        }),
{
    let left = a.as_bytes();
    let right = b.as_bytes();
    let ghost x = left@;
    let ghost y = right@;
    proof {
        lemma_precedes_total(a@, b@);
        lemma_precedes_irreflexive(a@);
        assert(x.skip(0) =~= x);
        assert(y.skip(0) =~= y);
    }
    let mut i: usize = 0;
    while i < left.len() && i < right.len()
        invariant
            x == left@,
            y == right@,
            x == utf8::encode_utf8(a@),
            y == utf8::encode_utf8(b@),
            0 <= i <= x.len(),
            i <= y.len(),
            x.take(i as int) == y.take(i as int),
            bytes_less(x, y) == bytes_less(x.skip(i as int), y.skip(i as int)),
        decreases x.len() - i,
    {
        if left[i] < right[i] {
            proof {
                assert(x.skip(i as int)[0] == x[i as int]);
                assert(y.skip(i as int)[0] == y[i as int]);
                lemma_precedes_irreflexive(a@);
            }
            return Rank::Before;
        }
        if left[i] > right[i] {
            proof {
                assert(x.skip(i as int)[0] == x[i as int]);
                assert(y.skip(i as int)[0] == y[i as int]);
                if a@ == b@ {
                    assert(x[i as int] == y[i as int]);
                }
            }
            return Rank::After;
        }
        proof {
            assert(x.skip(i as int).drop_first() =~= x.skip(i + 1));
            assert(y.skip(i as int).drop_first() =~= y.skip(i + 1));
            assert(x.take(i + 1) =~= x.take(i as int).push(x[i as int]));
            assert(y.take(i + 1) =~= y.take(i as int).push(y[i as int]));
        }
        i = i + 1;
    }
    proof {
        utf8::encode_utf8_decode_utf8(a@);
        utf8::encode_utf8_decode_utf8(b@);
        if x.len() == y.len() {
            assert(x.take(i as int) =~= x);
            assert(y.take(i as int) =~= y);
        }
        lemma_precedes_irreflexive(a@);
    }
    if left.len() < right.len() {
        Rank::Before
    } else if left.len() == right.len() {
        Rank::Same
    } else {
        Rank::After
    }
}

} // verus!
