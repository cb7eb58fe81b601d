//! Equality and order of names.

use vstd::prelude::*;
use vstd::utf8::{encode_utf8, encode_utf8_decode_utf8};

verus! {

/// Lexicographic order on byte strings.
pub open spec fn bytes_before(a: Seq<u8>, b: Seq<u8>) -> bool
    decreases a.len(),
{
    if b.len() == 0 {
        false
    } else if a.len() == 0 {
        true
    } else {
        a[0] < b[0] || (a[0] == b[0] && bytes_before(a.drop_first(), b.drop_first()))
    }
}

/// The order of strings: lexicographic in their bytes.
pub open spec fn name_before(a: Seq<char>, b: Seq<char>) -> bool {
    bytes_before(encode_utf8(a), encode_utf8(b))
}

/// Where one name stands relative to another.
#[derive(Clone, Copy, Debug, PartialEq, Eq, Structural)]
pub enum Place {
    Before,
    Same,
    After,
}

proof fn lemma_bytes_transitive(a: Seq<u8>, b: Seq<u8>, c: Seq<u8>)
    requires
        bytes_before(a, b),
        bytes_before(b, c),
    ensures
        bytes_before(a, c),
    decreases a.len(),
{
    if a.len() > 0 && a[0] == b[0] && b[0] == c[0] {
        lemma_bytes_transitive(a.drop_first(), b.drop_first(), c.drop_first());
    }
}

proof fn lemma_bytes_irreflexive(a: Seq<u8>)
    ensures
        !bytes_before(a, a),
    decreases a.len(),
{
    if a.len() > 0 {
        lemma_bytes_irreflexive(a.drop_first());
    }
}

/// The order of names is transitive.
pub proof fn lemma_name_transitive(a: Seq<char>, b: Seq<char>, c: Seq<char>)
    requires
        name_before(a, b),
        name_before(b, c),
    ensures
        name_before(a, c),
{
    lemma_bytes_transitive(encode_utf8(a), encode_utf8(b), encode_utf8(c));
}

/// No name comes before itself.
pub proof fn lemma_name_irreflexive(a: Seq<char>)
    ensures
        !name_before(a, a),
{
    lemma_bytes_irreflexive(encode_utf8(a));
}

/// Of two different names at most one comes first.
pub proof fn lemma_name_asymmetric(a: Seq<char>, b: Seq<char>)
    requires
        name_before(a, b),
    ensures
        !name_before(b, a),
        a != b,
{
    lemma_name_irreflexive(a);
    if name_before(b, a) {
        lemma_name_transitive(a, b, a);
    }
}

/// A common prefix does not affect the order.
proof fn lemma_strip(a: Seq<u8>, b: Seq<u8>, i: int)
    requires
        0 <= i <= a.len(),
        i <= b.len(),
        forall|j: int| 0 <= j < i ==> a[j] == b[j],
    ensures
        bytes_before(a, b) == bytes_before(a.skip(i), b.skip(i)),
    decreases i,
{
    if i == 0 {
        assert(a.skip(0) == a);
        assert(b.skip(0) == b);
    } else {
        assert(a[0] == b[0]);
        let x: Seq<u8> = a.drop_first();
        let y: Seq<u8> = b.drop_first();
        assert forall|j: int| 0 <= j < i - 1 implies x[j] == y[j] by {
            assert(a[j + 1] == b[j + 1]);
        }
        lemma_strip(x, y, i - 1);
        assert(x.skip(i - 1) == a.skip(i));
        assert(y.skip(i - 1) == b.skip(i));
    }
}

/// Finds out which of two names comes first.
pub fn place(a: &str, b: &str) -> (r: Place)
    ensures
        r is Before <==> name_before(a@, b@),
        r is Same <==> a@ == b@,
        r is After <==> name_before(b@, a@),
{
    let x: &[u8] = a.as_bytes();
    let y: &[u8] = b.as_bytes();
    let mut i: usize = 0;
    while i < x.len() && i < y.len() && x[i] == y[i]
        invariant
            0 <= i <= x.len(),
            i <= y.len(),
            forall|j: int| 0 <= j < i ==> x[j] == y[j],
        decreases x.len() - i,
    {
        i = i + 1;
    }
    proof {
        lemma_strip(x@, y@, i as int);
        lemma_strip(y@, x@, i as int);
        encode_utf8_decode_utf8(a@);
        encode_utf8_decode_utf8(b@);
        lemma_bytes_irreflexive(x@);
        lemma_bytes_irreflexive(y@);
    }
    if i < x.len() {
        if i < y.len() {
            if x[i] < y[i] {
                Place::Before
            } else {
                Place::After
            }
        } else {
            Place::After
        }
    } else if i < y.len() {
        Place::Before
    } else {
        proof {
            assert(x@ =~= y@);
        }
        Place::Same
    }
}

/// `a == b` on names.
pub fn same_name(a: &str, b: &str) -> (r: bool)
    ensures
        r == (a@ == b@),
{
    match place(a, b) {
        Place::Same => true,
        _ => false,
    }
}

/// Different names are ordered one way or the other.
pub proof fn lemma_name_total(a: Seq<char>, b: Seq<char>)
    ensures
        a == b || name_before(a, b) || name_before(b, a),
{
    encode_utf8_decode_utf8(a);
    encode_utf8_decode_utf8(b);
    lemma_bytes_total(encode_utf8(a), encode_utf8(b));
}

proof fn lemma_bytes_total(a: Seq<u8>, b: Seq<u8>)
    ensures
        a == b || bytes_before(a, b) || bytes_before(b, a),
    decreases a.len(),
{
    if a.len() > 0 && b.len() > 0 && a[0] == b[0] {
        lemma_bytes_total(a.drop_first(), b.drop_first());
        if a.drop_first() == b.drop_first() {
            assert(a =~= seq![a[0]] + a.drop_first());
            assert(b =~= seq![b[0]] + b.drop_first());
        }
    } else if a.len() == 0 && b.len() == 0 {
        assert(a =~= b);
    }
}

} // verus!
