//! Message authentication codes for coded pieces.
//!
//! A piece is tagged with `BLAKE3(key ‖ coding vector ‖ data)`. A piece that was recoded
//! from tagged pieces carries a tag that is made from theirs and from the scalars of the
//! recoding.

use crate::outside::digest;
use crate::outside::random;
use crate::types::bytes;
use vstd::prelude::*;

verus! {

/// The key under which the pieces of one content are tagged.
#[derive(Debug, Eq)]
pub struct HomMacKey {
    bytes: [u8; 32],
}

impl View for HomMacKey {
    type V = Seq<u8>;

    closed spec fn view(&self) -> Seq<u8> {
        self.bytes@
    }
}

impl Clone for HomMacKey {
    fn clone(&self) -> (copy: Self)
        ensures
            copy@ == self@,
    {
        HomMacKey { bytes: self.bytes }
    }
}

impl PartialEq for HomMacKey {
    fn eq(&self, other: &Self) -> (same: bool) {
        bytes::same_bytes(&self.bytes, &other.bytes)
    }
}

impl vstd::std_specs::cmp::PartialEqSpecImpl for HomMacKey {
    open spec fn obeys_eq_spec() -> bool {
        true
    }

    open spec fn eq_spec(&self, other: &Self) -> bool {
        self@ == other@
    }
}

impl HomMacKey {
    /// A key of random bytes; any key may come back.
    pub fn generate() -> (key: HomMacKey)
        ensures
            key@.len() == 32,
    {
        HomMacKey { bytes: random::random_key() }
    }

    /// The key with the given bytes.
    pub fn from_bytes(bytes: [u8; 32]) -> (key: HomMacKey)
        ensures
            key@ == bytes@,
    {
        HomMacKey { bytes }
    }

    /// The bytes of the key.
    pub fn as_bytes(&self) -> (bytes: &[u8; 32])
        ensures
            bytes@ == self@,
    {
        &self.bytes
    }
}

/// `a` times the polynomial `x`, modulo `x⁸ + x⁴ + x³ + x² + 1`.
pub open spec fn mac_xtime(a: u8) -> u8 {
    (a << 1) ^ (if a & 0x80 != 0 { 0x1d } else { 0u8 })
}

/// `v` where bit `i` of `b` is set, zero elsewhere.
pub open spec fn mac_select(b: u8, i: u8, v: u8) -> u8 {
    if b & (1u8 << i) != 0 {
        v
    } else {
        0u8
    }
}

/// The product modulo `x⁸ + x⁴ + x³ + x² + 1`: the sum of `x^i · a` over the bits `i` that
/// are set in `b`.
#[verifier::opaque]
pub open spec fn mac_product(a: u8, b: u8) -> u8 {
    let a1 = mac_xtime(a);
    let a2 = mac_xtime(a1);
    let a3 = mac_xtime(a2);
    let a4 = mac_xtime(a3);
    let a5 = mac_xtime(a4);
    let a6 = mac_xtime(a5);
    let a7 = mac_xtime(a6);
    mac_select(b, 0, a) ^ mac_select(b, 1, a1) ^ mac_select(b, 2, a2) ^ mac_select(b, 3, a3)
        ^ mac_select(b, 4, a4) ^ mac_select(b, 5, a5) ^ mac_select(b, 6, a6) ^ mac_select(b, 7, a7)
}

/// The product commutes, and has one as neutral and zero as annihilating element.
pub proof fn lemma_mac_product(a: u8, b: u8)
    ensures
        mac_product(a, b) == mac_product(b, a),
        mac_product(a, 1) == a,
        mac_product(1, a) == a,
        mac_product(a, 0) == 0,
        mac_product(0, a) == 0,
{
    reveal(mac_product);
    assert(mac_product(a, b) == mac_product(b, a) && mac_product(a, 1) == a && mac_product(1, a)
        == a && mac_product(a, 0) == 0 && mac_product(0, a) == 0) by (bit_vector);
}

/// The tag of a piece.
pub open spec fn piece_tag(key: Seq<u8>, coding_vector: Seq<u8>, data: Seq<u8>) -> Seq<u8> {
    digest::blake3_digest(key + coding_vector + data)
}

/// Byte `b` of the sum of the tags, each multiplied by its coefficient.
pub open spec fn weighted_byte(tags: Seq<Seq<u8>>, coefficients: Seq<u8>, b: int) -> u8
    decreases tags.len(),
{
    if tags.len() == 0 {
        0
    } else {
        weighted_byte(tags.drop_last(), coefficients.drop_last(), b) ^ mac_product(
            coefficients.last(),
            tags.last()[b],
        )
    }
}

/// The sum of the tags, each multiplied by its coefficient.
pub open spec fn weighted_tags(tags: Seq<Seq<u8>>, coefficients: Seq<u8>) -> Seq<u8> {
    Seq::new(32, |b: int| weighted_byte(tags, coefficients, b))
}

/// The tag of a piece that was recoded from pieces with the given tags.
pub open spec fn combined_tag(key: Seq<u8>, tags: Seq<Seq<u8>>, coefficients: Seq<u8>) -> Seq<u8> {
    digest::blake3_digest(
        key + digest::blake3_digest(weighted_tags(tags, coefficients) + coefficients),
    )
}

proof fn lemma_mac_distributes(a: u8, b: u8, c: u8)
    ensures
        mac_product(a, b ^ c) == mac_product(a, b) ^ mac_product(a, c),
{
    reveal(mac_product);
    assert(mac_product(a, b ^ c) == mac_product(a, b) ^ mac_product(a, c)) by (bit_vector);
}

/// The product distributes over addition, agrees with doubling, and doubles modulo
/// `x⁸ + x⁴ + x³ + x² + 1`. With its neutral element, that is all there is to it.
pub proof fn lemma_mac_product_laws(a: u8, b: u8, c: u8)
    ensures
        mac_product(a, b ^ c) == mac_product(a, b) ^ mac_product(a, c),
        mac_product(a ^ b, c) == mac_product(a, c) ^ mac_product(b, c),
        mac_product(a, mac_product(2, b)) == mac_product(2, mac_product(a, b)),
        mac_product(2, a) == (if a < 128 {
            (2 * a) as u8
        } else {
            ((2 * a - 256) as u8) ^ 0x1d
        }),
{
    reveal(mac_product);
    lemma_mac_distributes(a, b, c);
    lemma_mac_distributes(c, a, b);
    lemma_mac_product(a ^ b, c);
    lemma_mac_product(a, c);
    lemma_mac_product(b, c);
    assert(mac_product(a, mac_product(2, b)) == mac_product(2, mac_product(a, b)))
        by (bit_vector);
    assert((a < 128 ==> mac_product(2, a) == 2 * a) && (a >= 128 ==> mac_product(2, a) == ((2 * a
        - 256) as u8) ^ 0x1d)) by (bit_vector);
}

/// A tag is the digest of the key, the coding vector and the bytes, one behind the other.
pub proof fn lemma_piece_tag(key: Seq<u8>, coding_vector: Seq<u8>, data: Seq<u8>, all: Seq<u8>)
    requires
        all.len() == key.len() + coding_vector.len() + data.len(),
        forall|i: int| 0 <= i < key.len() ==> #[trigger] all[i] == key[i],
        forall|i: int|
            key.len() <= i < key.len() + coding_vector.len() ==> #[trigger] all[i]
                == coding_vector[i - key.len()],
        forall|i: int|
            key.len() + coding_vector.len() <= i < all.len() ==> #[trigger] all[i] == data[i
                - key.len() - coding_vector.len()],
    ensures
        piece_tag(key, coding_vector, data) == digest::blake3_digest(all),
{
    assert(all =~= key + coding_vector + data);
}

/// The sum of weighted tags begins at zero, and each tag adds every one of its bytes times
/// its coefficient.
pub proof fn lemma_weighted_step(
    tags: Seq<Seq<u8>>,
    coefficients: Seq<u8>,
    tag: Seq<u8>,
    coefficient: u8,
    b: int,
)
    requires
        tags.len() == coefficients.len(),
        0 <= b < 32,
    ensures
        weighted_tags(Seq::empty(), Seq::empty())[b] == 0,
        weighted_tags(tags, coefficients).len() == 32,
        weighted_tags(tags.push(tag), coefficients.push(coefficient))[b] == weighted_tags(
            tags,
            coefficients,
        )[b] ^ mac_product(coefficient, tag[b]),
{
    assert(tags.push(tag).drop_last() =~= tags);
    assert(coefficients.push(coefficient).drop_last() =~= coefficients);
}

/// Changing one tag by a difference changes the sum by the coefficient times the difference,
/// in every byte: no tag that has a coefficient other than zero is left out.
pub proof fn lemma_weighted_depends(
    tags: Seq<Seq<u8>>,
    coefficients: Seq<u8>,
    p: int,
    other: Seq<u8>,
    b: int,
)
    requires
        tags.len() == coefficients.len(),
        0 <= p < tags.len(),
        0 <= b < 32,
    ensures
        weighted_tags(tags.update(p, other), coefficients)[b] == weighted_tags(
            tags,
            coefficients,
        )[b] ^ mac_product(coefficients[p], tags[p][b] ^ other[b]),
    decreases tags.len(),
{
    let last = tags.len() - 1;
    let x = tags[p][b];
    let y = other[b];
    let c = coefficients[p];
    let changed = tags.update(p, other);
    lemma_mac_product_laws(c, x, y);
    let front = weighted_byte(tags.drop_last(), coefficients.drop_last(), b);
    let px = mac_product(c, x);
    let py = mac_product(c, y);
    if p == last {
        assert(changed.drop_last() =~= tags.drop_last());
        assert((front ^ px) ^ (px ^ py) == front ^ py) by (bit_vector);
    } else {
        assert(changed.drop_last() =~= tags.drop_last().update(p, other));
        lemma_weighted_depends(tags.drop_last(), coefficients.drop_last(), p, other, b);
        let d = mac_product(c, x ^ y);
        let t = mac_product(coefficients.last(), tags.last()[b]);
        assert((front ^ d) ^ t == (front ^ t) ^ d) by (bit_vector);
    }
}

/// The tag of a recoded piece is the digest, under the key, of the digest of 32 bytes and the
/// coefficients, where the 32 bytes are the sum of the tags times their coefficients. Given
/// the sums over the first tags, the first one zero, that is how it is built.
pub proof fn lemma_combined_tag(
    key: Seq<u8>,
    tags: Seq<Seq<u8>>,
    coefficients: Seq<u8>,
    sums: Seq<Seq<u8>>,
)
    requires
        tags.len() == coefficients.len(),
        sums.len() == tags.len() + 1,
        forall|i: int| 0 <= i < sums.len() ==> (#[trigger] sums[i]).len() == 32,
        forall|b: int| 0 <= b < 32 ==> #[trigger] sums[0][b] == 0,
        forall|i: int, b: int|
            0 <= i < tags.len() && 0 <= b < 32 ==> sums[i + 1][b] == #[trigger] sums[i][b]
                ^ mac_product(coefficients[i], tags[i][b]),
    ensures
        combined_tag(key, tags, coefficients) == digest::blake3_digest(
            key + digest::blake3_digest(sums[tags.len() as int] + coefficients),
        ),
{
    lemma_partial_sums(tags, coefficients, sums, tags.len() as int);
    assert(tags.take(tags.len() as int) =~= tags);
    assert(coefficients.take(tags.len() as int) =~= coefficients);
}

proof fn lemma_partial_sums(
    tags: Seq<Seq<u8>>,
    coefficients: Seq<u8>,
    sums: Seq<Seq<u8>>,
    n: int,
)
    requires
        tags.len() == coefficients.len(),
        0 <= n <= tags.len(),
        sums.len() == tags.len() + 1,
        forall|i: int| 0 <= i < sums.len() ==> (#[trigger] sums[i]).len() == 32,
        forall|b: int| 0 <= b < 32 ==> #[trigger] sums[0][b] == 0,
        forall|i: int, b: int|
            0 <= i < tags.len() && 0 <= b < 32 ==> sums[i + 1][b] == #[trigger] sums[i][b]
                ^ mac_product(coefficients[i], tags[i][b]),
    ensures
        sums[n] == weighted_tags(tags.take(n), coefficients.take(n)),
    decreases n,
{
    if n == 0 {
        assert(sums[0] =~= weighted_tags(tags.take(0), coefficients.take(0)));
    } else {
        lemma_partial_sums(tags, coefficients, sums, n - 1);
        let before = weighted_tags(tags.take(n - 1), coefficients.take(n - 1));
        assert(tags.take(n) =~= tags.take(n - 1).push(tags[n - 1]));
        assert(coefficients.take(n) =~= coefficients.take(n - 1).push(coefficients[n - 1]));
        assert forall|b: int| 0 <= b < 32 implies #[trigger] sums[n][b] == weighted_tags(
            tags.take(n),
            coefficients.take(n),
        )[b] by {
            lemma_weighted_step(
                tags.take(n - 1),
                coefficients.take(n - 1),
                tags[n - 1],
                coefficients[n - 1],
                b,
            );
            assert(sums[n - 1][b] == before[b]);
        }
        assert(sums[n] =~= weighted_tags(tags.take(n), coefficients.take(n)));
    }
}

/// What is hashed for a recoded piece tells its sum and its coefficients: other sums under
/// the same coefficients give other bytes to hash, and one tag with coefficient one is its
/// own sum.
pub proof fn lemma_combined_input(
    tags1: Seq<Seq<u8>>,
    tags2: Seq<Seq<u8>>,
    coefficients: Seq<u8>,
    tag: Seq<u8>,
)
    requires
        tag.len() == 32,
    ensures
        weighted_tags(tags1, coefficients) != weighted_tags(tags2, coefficients) ==> weighted_tags(
            tags1,
            coefficients,
        ) + coefficients != weighted_tags(tags2, coefficients) + coefficients,
        weighted_tags(seq![tag], seq![1u8]) == tag,
{
    let a = weighted_tags(tags1, coefficients);
    let b = weighted_tags(tags2, coefficients);
    if a + coefficients == b + coefficients {
        assert((a + coefficients).take(32) =~= a);
        assert((b + coefficients).take(32) =~= b);
    }
    let none = Seq::<Seq<u8>>::empty();
    assert(none.push(tag) =~= seq![tag]);
    assert(Seq::<u8>::empty().push(1u8) =~= seq![1u8]);
    assert forall|i: int| 0 <= i < 32 implies #[trigger] weighted_tags(seq![tag], seq![1u8])[i]
        == tag[i] by {
        lemma_weighted_step(none, Seq::empty(), tag, 1, i);
        lemma_mac_product(tag[i], 0);
        let t = tag[i];
        assert(0u8 ^ t == t) by (bit_vector);
    }
    assert(weighted_tags(seq![tag], seq![1u8]) =~= tag);
}

/// The tag of a coded piece: `BLAKE3(key ‖ coding_vector ‖ data)`.
pub fn compute_tag(key: &HomMacKey, coding_vector: &[u8], data: &[u8]) -> (tag: [u8; 32])
    ensures
        tag@ == piece_tag(key@, coding_vector@, data@),
        tag@ == digest::blake3_digest(key@ + coding_vector@ + data@),
{
    let mut input: Vec<u8> = bytes::copy_bytes(key.as_bytes().as_slice());
    bytes::append_bytes(&mut input, coding_vector);
    bytes::append_bytes(&mut input, data);
    digest::blake3_hash(input.as_slice())
}

/// Whether `tag` is the tag of the piece.
pub fn verify_tag(key: &HomMacKey, coding_vector: &[u8], data: &[u8], tag: &[u8; 32]) -> (ok: bool)
    ensures
        ok == (tag@ == piece_tag(key@, coding_vector@, data@)),
        ok == (tag@ == digest::blake3_digest(key@ + coding_vector@ + data@)),
{
    let expected = compute_tag(key, coding_vector, data);
    bytes::same_bytes(&expected, tag)
}

/// The tag of a recoded piece:
/// `BLAKE3(key ‖ BLAKE3(c₀·tag₀ + c₁·tag₁ + … ‖ coefficients))`.
pub fn combine_tags(key: &HomMacKey, tags: &[[u8; 32]], coefficients: &[u8]) -> (tag: [u8; 32])
    requires
        tags@.len() == coefficients@.len(),
    ensures
        tag@ == combined_tag(key@, tags@.map_values(|t: [u8; 32]| t@), coefficients@),
        tag@ == digest::blake3_digest(
            key@ + digest::blake3_digest(
                weighted_tags(tags@.map_values(|t: [u8; 32]| t@), coefficients@) + coefficients@,
            ),
        ),
{
    let ghost views = tags@.map_values(|t: [u8; 32]| t@);
    let mut sum: [u8; 32] = [0u8; 32];
    let mut i: usize = 0;
    while i < tags.len()
        invariant
            i <= tags@.len(),
            tags@.len() == coefficients@.len(),
            views == tags@.map_values(|t: [u8; 32]| t@),
            sum@ == weighted_tags(
                views.subrange(0, i as int),
                coefficients@.subrange(0, i as int),
            ),
        decreases tags@.len() - i,
    {
        let coefficient: u8 = coefficients[i];
        let tag = tags[i];
        let ghost before = sum@;
        let mut b: usize = 0;
        while b < 32
            invariant
                b <= 32,
                before.len() == 32,
                forall|j: int| b <= j < 32 ==> sum@[j] == before[j],
                forall|j: int|
                    0 <= j < b ==> #[trigger] sum@[j] == before[j] ^ mac_product(
                        coefficient,
                        tag@[j],
                    ),
            decreases 32 - b,
        {
            sum[b] = sum[b] ^ gf256_mul(coefficient, tag[b]);
            b = b + 1;
        }
        i = i + 1;
        proof {
            let vs = views.subrange(0, i as int);
            let cs = coefficients@.subrange(0, i as int);
            assert(vs.drop_last() =~= views.subrange(0, i - 1));
            assert(cs.drop_last() =~= coefficients@.subrange(0, i - 1));
            assert(vs.last() == tag@);
            assert(cs.last() == coefficient);
            assert forall|j: int| 0 <= j < 32 implies #[trigger] sum@[j] == weighted_tags(
                vs,
                cs,
            )[j] by {
                assert(before[j] == weighted_byte(vs.drop_last(), cs.drop_last(), j));
            }
            assert(sum@ =~= weighted_tags(vs, cs));
        }
    }
    proof {
        assert(views.subrange(0, views.len() as int) =~= views);
        assert(coefficients@.subrange(0, coefficients@.len() as int) =~= coefficients@);
    }
    let mut inner: Vec<u8> = bytes::copy_bytes(sum.as_slice());
    bytes::append_bytes(&mut inner, coefficients);
    let inner_hash = digest::blake3_hash(inner.as_slice());
    let mut outer: Vec<u8> = bytes::copy_bytes(key.as_bytes().as_slice());
    bytes::append_bytes(&mut outer, inner_hash.as_slice());
    digest::blake3_hash(outer.as_slice())
}

/// The product of two elements of GF(2⁸) modulo `x⁸ + x⁴ + x³ + x² + 1`.
pub fn gf256_mul(a: u8, b: u8) -> (product: u8)
    ensures
        product == mac_product(a, b),
{
    let mut sum: u8 = 0;
    let mut x: u8 = a;
    let mut rest: u8 = b;
    let mut round: u8 = 0;
    assert(0 ^ mac_product(a, b) == mac_product(a, b)) by {
        let p = mac_product(a, b);
        assert(0 ^ p == p) by (bit_vector);
    }
    assert(b <= 255u8 >> 0) by (bit_vector);
    while round < 8
        invariant
            round <= 8,
            sum ^ mac_product(x, rest) == mac_product(a, b),
            rest <= 255u8 >> round,
        decreases 8 - round,
    {
        proof {
            let p = mac_product(mac_xtime(x), rest >> 1);
            assert(mac_product(x, rest) == mac_select(rest, 0, x) ^ p) by {
                reveal(mac_product);
                assert(mac_product(x, rest) == mac_select(rest, 0, x) ^ mac_product(
                    mac_xtime(x),
                    rest >> 1,
                )) by (bit_vector);
            }
            assert((rest & 1 != 0 ==> (sum ^ x) ^ p == sum ^ (mac_select(rest, 0, x) ^ p)) && (rest
                & 1 == 0 ==> sum ^ p == sum ^ (mac_select(rest, 0, x) ^ p)) && (x & 0x80 == 0 ==> (x
                << 1) == mac_xtime(x)) && (x & 0x80 != 0 ==> (x << 1) ^ 0x1d == mac_xtime(x)))
                by (bit_vector);
            assert(round < 8 && rest <= 255u8 >> round ==> rest >> 1 <= 255u8 >> ((round + 1) as u8))
                by (bit_vector);
        }
        if rest & 1 != 0 {
            sum = sum ^ x;
        }
        let high_bit: u8 = x & 0x80;
        x = x << 1;
        if high_bit != 0 {
            x = x ^ 0x1d;
        }
        rest = rest >> 1;
        round = round + 1;
    }
    proof {
        assert(255u8 >> 8 == 0) by (bit_vector);
        lemma_mac_product(x, 0);
        assert(sum ^ 0 == sum) by (bit_vector);
    }
    sum
}

}
