//! Byte strings: equality, lexicographic order and a fingerprint for lookup.

use vstd::prelude::*;
use vstd::slice::slice_to_vec;

verus! {

/// `a` comes strictly before `b` in lexicographic byte order.
pub open spec fn lex_less(a: Seq<u8>, b: Seq<u8>) -> bool
    decreases a.len(),
{
    if b.len() == 0 {
        false
    } else if a.len() == 0 {
        true
    } else if a[0] != b[0] {
        a[0] < b[0]
    } else {
        lex_less(a.drop_first(), b.drop_first())
    }
}

/// The order is irreflexive.
pub proof fn lemma_lex_irreflexive(a: Seq<u8>)
    ensures
        !lex_less(a, a),
    decreases a.len(),
{
    if a.len() > 0 {
        lemma_lex_irreflexive(a.drop_first());
    }
}

/// The order is transitive.
pub proof fn lemma_lex_transitive(a: Seq<u8>, b: Seq<u8>, c: Seq<u8>)
    requires
        lex_less(a, b),
        lex_less(b, c),
    ensures
        lex_less(a, c),
    decreases a.len(),
{
    if a.len() > 0 && b.len() > 0 && c.len() > 0 && a[0] == b[0] && b[0] == c[0] {
        lemma_lex_transitive(a.drop_first(), b.drop_first(), c.drop_first());
    }
}

/// Two byte strings of which neither comes first are equal.
pub proof fn lemma_lex_total(a: Seq<u8>, b: Seq<u8>)
    requires
        !lex_less(a, b),
        !lex_less(b, a),
    ensures
        a == b,
    decreases a.len(),
{
    if a.len() > 0 && b.len() > 0 {
        lemma_lex_total(a.drop_first(), b.drop_first());
        assert(a =~= seq![a[0]] + a.drop_first());
        assert(b =~= seq![b[0]] + b.drop_first());
    } else {
        assert(a =~= b);
    }
}

/// The first difference decides the order.
proof fn lemma_lex_skip(a: Seq<u8>, b: Seq<u8>, i: int)
    requires
        0 <= i <= a.len(),
        i <= b.len(),
        forall|j: int| 0 <= j < i ==> a[j] == b[j],
    ensures
        lex_less(a, b) == lex_less(a.skip(i), b.skip(i)),
    decreases i,
{
    if i == 0 {
        assert(a.skip(0) =~= a);
        assert(b.skip(0) =~= b);
    } else {
        lemma_lex_skip(a.drop_first(), b.drop_first(), i - 1);
        assert(a.drop_first().skip(i - 1) =~= a.skip(i));
        assert(b.drop_first().skip(i - 1) =~= b.skip(i));
    }
}

/// Tells whether two byte strings are equal.
pub fn bytes_equal(a: &[u8], b: &[u8]) -> (r: bool)
    ensures
        r == (a@ == b@),
{
    if a.len() != b.len() {
        return false;
    }
    let mut i: usize = 0;
    while i < a.len()
        invariant
            a.len() == b.len(),
            i <= a.len(),
            forall|j: int| 0 <= j < i ==> a@[j] == b@[j],
        decreases a.len() - i,
    {
        if a[i] != b[i] {
            return false;
        }
        i += 1;
    }
    assert(a@ =~= b@);
    true
}

/// Tells whether `a` comes strictly before `b` in lexicographic byte order.
pub fn bytes_less(a: &[u8], b: &[u8]) -> (r: bool)
    ensures
        r == lex_less(a@, b@),
{
    let mut i: usize = 0;
    while i < a.len() && i < b.len()
        invariant
            i <= a.len(),
            i <= b.len(),
            forall|j: int| 0 <= j < i ==> a@[j] == b@[j],
        decreases a.len() - i,
    {
        if a[i] != b[i] {
            proof {
                lemma_lex_skip(a@, b@, i as int);
            }
            return a[i] < b[i];
        }
        i += 1;
    }
    proof {
        lemma_lex_skip(a@, b@, i as int);
    }
    i < b.len()
}

/// A polynomial fingerprint of a byte string, modulo two to the 64.
pub open spec fn fingerprint_of(s: Seq<u8>) -> u64
    decreases s.len(),
{
    if s.len() == 0 {
        0xcbf2_9ce4_8422_2325
    } else {
        (fingerprint_of(s.drop_last()) ^ (s.last() as u64)).wrapping_mul(0x100_0000_01b3)
    }
}

/// Computes the fingerprint of a byte string.
pub fn fingerprint(s: &[u8]) -> (r: u64)
    ensures
        r == fingerprint_of(s@),
{
    let mut h: u64 = 0xcbf2_9ce4_8422_2325;
    let mut i: usize = 0;
    while i < s.len()
        invariant
            i <= s.len(),
            h == fingerprint_of(s@.take(i as int)),
        decreases s.len() - i,
    {
        proof {
            assert(s@.take(i + 1).drop_last() =~= s@.take(i as int));
        }
        h = (h ^ (s[i] as u64)).wrapping_mul(0x100_0000_01b3);
        i += 1;
    }
    assert(s@.take(i as int) =~= s@);
    h
}

/// Values that are identified by a byte string: paths and checksums.
pub trait ByteString: Sized {
    /// The bytes that identify the value.
    spec fn bytes(&self) -> Seq<u8>;

    /// Borrows the bytes.
    fn as_byte_slice(&self) -> (r: &[u8])
        ensures
            r@ == self.bytes(),
    ;

    /// Makes another value with the same bytes.
    fn duplicate(&self) -> (r: Self)
        ensures
            r.bytes() == self.bytes(),
    ;
}

impl ByteString for Vec<u8> {
    open spec fn bytes(&self) -> Seq<u8> {
        self@
    }

    fn as_byte_slice(&self) -> (r: &[u8]) {
        self.as_slice()
    }

    fn duplicate(&self) -> (r: Self) {
        slice_to_vec(self.as_slice())
    }
}

impl ByteString for [u8; 20] {
    open spec fn bytes(&self) -> Seq<u8> {
        self@
    }

    fn as_byte_slice(&self) -> (r: &[u8]) {
        self.as_slice()
    }

    fn duplicate(&self) -> (r: Self) {
        *self
    }
}

/// The lexicographic order in terms of positions: `a` comes first if and only
/// if the two agree up to some position at which `a` ends and `b` does not, or
/// at which the byte of `a` is the smaller one.
pub proof fn law_first_difference_decides(a: Seq<u8>, b: Seq<u8>)
    ensures
        lex_less(a, b) <==> exists|i: int|
            0 <= i <= a.len() && i < b.len() && #[trigger] a.take(i) == b.take(i) && (i == a.len()
                || a[i] < b[i]),
    decreases a.len(),
{
    if lex_less(a, b) {
        if a.len() == 0 || a[0] != b[0] {
            assert(a.take(0) =~= b.take(0));
        } else {
            let x = a.drop_first();
            let y = b.drop_first();
            law_first_difference_decides(x, y);
            let i = choose|i: int|
                0 <= i <= x.len() && i < y.len() && #[trigger] x.take(i) == y.take(i) && (i
                    == x.len() || x[i] < y[i]);
            assert forall|j: int| 0 <= j < i + 1 implies a[j] == b[j] by {
                if j > 0 {
                    assert(x.take(i)[j - 1] == y.take(i)[j - 1]);
                }
            }
            assert(a.take(i + 1) =~= b.take(i + 1));
        }
    }
    if exists|i: int|
        0 <= i <= a.len() && i < b.len() && #[trigger] a.take(i) == b.take(i) && (i == a.len()
            || a[i] < b[i]) {
        let i = choose|i: int|
            0 <= i <= a.len() && i < b.len() && #[trigger] a.take(i) == b.take(i) && (i == a.len()
                || a[i] < b[i]);
        assert forall|j: int| 0 <= j < i implies a[j] == b[j] by {
            assert(a.take(i)[j] == b.take(i)[j]);
        }
        lemma_lex_skip(a, b, i);
    }
}

} // verus!
