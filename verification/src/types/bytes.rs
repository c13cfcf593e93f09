//! Byte strings: comparison and concatenation.

use vstd::prelude::*;

verus! {

/// The position of the first difference of `a` and `b`, from `i` on.
pub open spec fn first_difference(a: Seq<u8>, b: Seq<u8>, i: int) -> int
    decreases a.len() - i,
{
    if i < 0 || i >= a.len() || i >= b.len() || a[i] != b[i] {
        i
    } else {
        first_difference(a, b, i + 1)
    }
}

/// Lexicographic order on byte strings of one length.
pub open spec fn bytes_less(a: Seq<u8>, b: Seq<u8>) -> bool {
    let d = first_difference(a, b, 0);
    d < a.len() && d < b.len() && a[d] < b[d]
}

/// What a first difference is.
pub proof fn lemma_first_difference(a: Seq<u8>, b: Seq<u8>, i: int)
    requires
        0 <= i <= a.len(),
        a.len() == b.len(),
    ensures
        i <= first_difference(a, b, i) <= a.len(),
        forall|j: int| i <= j < first_difference(a, b, i) ==> a[j] == b[j],
        first_difference(a, b, i) < a.len() ==> a[first_difference(a, b, i)] != b[first_difference(
            a,
            b,
            i,
        )],
        first_difference(b, a, i) == first_difference(a, b, i),
    decreases a.len() - i,
{
    if i < a.len() && a[i] == b[i] {
        lemma_first_difference(a, b, i + 1);
    }
}

/// The order is irreflexive, asymmetric and total.
pub proof fn lemma_bytes_order(a: Seq<u8>, b: Seq<u8>)
    requires
        a.len() == b.len(),
    ensures
        !(bytes_less(a, b) && bytes_less(b, a)),
        bytes_less(a, b) || bytes_less(b, a) || a == b,
        a == b ==> !bytes_less(a, b),
{
    lemma_first_difference(a, b, 0);
    if first_difference(a, b, 0) == a.len() {
        assert(a =~= b);
    }
}

/// The order is transitive.
pub proof fn lemma_bytes_transitive(a: Seq<u8>, b: Seq<u8>, c: Seq<u8>)
    requires
        a.len() == b.len(),
        b.len() == c.len(),
        bytes_less(a, b),
        bytes_less(b, c),
    ensures
        bytes_less(a, c),
{
    lemma_first_difference(a, b, 0);
    lemma_first_difference(b, c, 0);
    lemma_first_difference(a, c, 0);
    let ab = first_difference(a, b, 0);
    let bc = first_difference(b, c, 0);
    let ac = first_difference(a, c, 0);
    if ab < bc {
        assert(ac == ab) by {
            assert(a[ab] != c[ab]);
            if ac < ab {
                assert(a[ac] == b[ac] && b[ac] == c[ac]);
            }
        }
    } else if bc < ab {
        assert(ac == bc) by {
            assert(a[bc] != c[bc]);
            if ac < bc {
                assert(a[ac] == b[ac] && b[ac] == c[ac]);
            }
        }
    } else {
        assert(ac == ab) by {
            assert(a[ab] < b[ab] < c[ab]);
            if ac < ab {
                assert(a[ac] == b[ac] && b[ac] == c[ac]);
            }
        }
    }
}

/// Whether two keys hold the same bytes.
pub fn same_bytes(a: &[u8; 32], b: &[u8; 32]) -> (same: bool)
    ensures
        same == (a@ == b@),
{
    let mut i: usize = 0;
    while i < 32
        invariant
            i <= 32,
            forall|j: int| 0 <= j < i ==> a@[j] == b@[j],
        decreases 32 - i,
    {
        if a[i] != b[i] {
            return false;
        }
        i = i + 1;
    }
    assert(a@ =~= b@);
    true
}

/// Whether one key comes before another in lexicographic order.
pub fn key_less(a: &[u8; 32], b: &[u8; 32]) -> (less: bool)
    ensures
        less == bytes_less(a@, b@),
{
    let mut i: usize = 0;
    while i < 32
        invariant
            i <= 32,
            first_difference(a@, b@, 0) == first_difference(a@, b@, i as int),
        decreases 32 - i,
    {
        if a[i] != b[i] {
            return a[i] < b[i];
        }
        i = i + 1;
    }
    false
}

/// A copy of the bytes of a slice.
pub fn copy_bytes(data: &[u8]) -> (copy: Vec<u8>)
    ensures
        copy@ == data@,
{
    let mut copy: Vec<u8> = Vec::new();
    append_bytes(&mut copy, data);
    copy
}

/// Appends the bytes of a slice.
pub fn append_bytes(buffer: &mut Vec<u8>, data: &[u8])
    ensures
        final(buffer)@ == old(buffer)@ + data@,
{
    let ghost before = buffer@;
    let mut i: usize = 0;
    while i < data.len()
        invariant
            i <= data@.len(),
            buffer@ == before + data@.subrange(0, i as int),
        decreases data@.len() - i,
    {
        buffer.push(data[i]);
        i = i + 1;
        assert(buffer@ =~= before + data@.subrange(0, i as int));
    }
    assert(data@.subrange(0, data@.len() as int) =~= data@);
}

}
