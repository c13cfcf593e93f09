//! Linear algebra over GF(2⁸): dot products, linear combinations and their laws.

use crate::rlnc::field;
use vstd::prelude::*;

verus! {

/// The sum of the products of the entries of two vectors of one length.
pub open spec fn dot(c: Seq<u8>, x: Seq<u8>) -> u8
    decreases c.len(),
{
    if c.len() == 0 {
        0
    } else {
        dot(c.drop_last(), x.drop_last()) ^ field::gf_product(c.last(), x.last())
    }
}

/// Entry `b` of each row.
pub open spec fn column(rows: Seq<Seq<u8>>, b: int) -> Seq<u8> {
    Seq::new(rows.len(), |j: int| rows[j][b])
}

/// The linear combination of `rows`, which have `n` entries each, with coefficients `c`.
pub open spec fn combination(c: Seq<u8>, rows: Seq<Seq<u8>>, n: nat) -> Seq<u8> {
    Seq::new(n, |b: int| dot(c, column(rows, b)))
}

/// Whether every row has `n` entries.
pub open spec fn rows_have(rows: Seq<Seq<u8>>, n: nat) -> bool {
    forall|j: int| 0 <= j < rows.len() ==> (#[trigger] rows[j]).len() == n
}

/// `u` plus `c` times `v`.
pub open spec fn add_scaled(u: Seq<u8>, c: u8, v: Seq<u8>) -> Seq<u8> {
    Seq::new(u.len(), |i: int| u[i] ^ field::gf_product(c, v[i]))
}

/// `c` times `u`.
pub open spec fn scaled(c: u8, u: Seq<u8>) -> Seq<u8> {
    Seq::new(u.len(), |i: int| field::gf_product(c, u[i]))
}

/// A vector of zeros.
pub open spec fn zeros(n: nat) -> Seq<u8> {
    Seq::new(n, |i: int| 0u8)
}

/// Whether `v` is a linear combination of `rows`.
pub open spec fn in_span(rows: Seq<Seq<u8>>, v: Seq<u8>) -> bool {
    exists|c: Seq<u8>| c.len() == rows.len() && v == #[trigger] combination(c, rows, v.len())
}

/// A dot product is linear in its first vector.
pub proof fn lemma_dot_add_scaled(u: Seq<u8>, c: u8, v: Seq<u8>, x: Seq<u8>)
    requires
        u.len() == v.len(),
        u.len() == x.len(),
    ensures
        dot(add_scaled(u, c, v), x) == dot(u, x) ^ field::gf_product(c, dot(v, x)),
    decreases u.len(),
{
    if u.len() == 0 {
        field::lemma_mul_zero(c);
        field::lemma_add_zero(0);
    } else {
        let w = add_scaled(u, c, v);
        assert(w.drop_last() =~= add_scaled(u.drop_last(), c, v.drop_last()));
        lemma_dot_add_scaled(u.drop_last(), c, v.drop_last(), x.drop_last());
        let y = x.last();
        let ul = field::gf_product(u.last(), y);
        let vl = field::gf_product(v.last(), y);
        let du = dot(u.drop_last(), x.drop_last());
        let dv = dot(v.drop_last(), x.drop_last());
        field::lemma_mul_distributes_left(u.last(), field::gf_product(c, v.last()), y);
        field::lemma_mul_associates(c, v.last(), y);
        field::lemma_mul_distributes(c, dv, vl);
        field::lemma_add_regroup(
            du,
            field::gf_product(c, dv),
            ul,
            field::gf_product(c, vl),
        );
    }
}

/// A dot product with a multiple of a vector.
pub proof fn lemma_dot_scaled(c: u8, u: Seq<u8>, x: Seq<u8>)
    requires
        u.len() == x.len(),
    ensures
        dot(scaled(c, u), x) == field::gf_product(c, dot(u, x)),
    decreases u.len(),
{
    if u.len() == 0 {
        field::lemma_mul_zero(c);
    } else {
        assert(scaled(c, u).drop_last() =~= scaled(c, u.drop_last()));
        lemma_dot_scaled(c, u.drop_last(), x.drop_last());
        field::lemma_mul_associates(c, u.last(), x.last());
        field::lemma_mul_distributes(
            c,
            dot(u.drop_last(), x.drop_last()),
            field::gf_product(u.last(), x.last()),
        );
    }
}

/// A dot product commutes.
pub proof fn lemma_dot_commutes(u: Seq<u8>, x: Seq<u8>)
    requires
        u.len() == x.len(),
    ensures
        dot(u, x) == dot(x, u),
    decreases u.len(),
{
    if u.len() > 0 {
        lemma_dot_commutes(u.drop_last(), x.drop_last());
        field::lemma_mul_commutes(u.last(), x.last());
    }
}

/// A dot product in which at most the terms at `p` are not zero is that term.
pub proof fn lemma_dot_single(c: Seq<u8>, x: Seq<u8>, p: int)
    requires
        c.len() == x.len(),
        forall|q: int| 0 <= q < c.len() && q != p ==> #[trigger] c[q] == 0 || x[q] == 0,
    ensures
        0 <= p < c.len() ==> dot(c, x) == field::gf_product(c[p], x[p]),
        !(0 <= p < c.len()) ==> dot(c, x) == 0,
    decreases c.len(),
{
    if c.len() > 0 {
        let last = c.len() - 1;
        assert forall|q: int| 0 <= q < c.drop_last().len() && q != p implies #[trigger] c.drop_last()[q]
            == 0 || x.drop_last()[q] == 0 by {
            assert(c.drop_last()[q] == c[q]);
        }
        lemma_dot_single(c.drop_last(), x.drop_last(), p);
        field::lemma_mul_zero(c[last]);
        field::lemma_mul_zero(x[last]);
        field::lemma_add_zero(dot(c.drop_last(), x.drop_last()));
        field::lemma_add_zero(field::gf_product(c[last], x[last]));
        if p != last {
            assert(c[last] == 0 || x[last] == 0);
        }
    }
}

/// Changing one coefficient by `s` changes the dot product by `s` times the entry there.
pub proof fn lemma_dot_update(c: Seq<u8>, x: Seq<u8>, p: int, s: u8)
    requires
        c.len() == x.len(),
        0 <= p < c.len(),
    ensures
        dot(c.update(p, c[p] ^ s), x) == dot(c, x) ^ field::gf_product(s, x[p]),
    decreases c.len(),
{
    let d = c.update(p, c[p] ^ s);
    let last = c.len() - 1;
    let rest = dot(c.drop_last(), x.drop_last());
    let term = field::gf_product(c[last], x[last]);
    let extra = field::gf_product(s, x[p]);
    if p == last {
        assert(d.drop_last() =~= c.drop_last());
        field::lemma_mul_distributes_left(c[p], s, x[p]);
        field::lemma_add_associates(rest, term, extra);
    } else {
        assert(d.drop_last() =~= c.drop_last().update(p, c.drop_last()[p] ^ s));
        lemma_dot_update(c.drop_last(), x.drop_last(), p, s);
        field::lemma_add_associates(rest, extra, term);
        field::lemma_add_commutes(extra, term);
        field::lemma_add_associates(rest, term, extra);
    }
}

/// Adding one row to a sum of rows adds one coefficient.
pub proof fn lemma_dot_push(c: Seq<u8>, x: Seq<u8>, a: u8, b: u8)
    requires
        c.len() == x.len(),
    ensures
        dot(c.push(a), x.push(b)) == dot(c, x) ^ field::gf_product(a, b),
{
    assert(c.push(a).drop_last() =~= c);
    assert(x.push(b).drop_last() =~= x);
}

/// The combination of two combinations of the same rows.
pub proof fn lemma_combination_add_scaled(
    c: Seq<u8>,
    s: u8,
    d: Seq<u8>,
    rows: Seq<Seq<u8>>,
    n: nat,
)
    requires
        c.len() == rows.len(),
        d.len() == rows.len(),
    ensures
        combination(add_scaled(c, s, d), rows, n) == add_scaled(
            combination(c, rows, n),
            s,
            combination(d, rows, n),
        ),
{
    assert forall|b: int| 0 <= b < n implies #[trigger] combination(
        add_scaled(c, s, d),
        rows,
        n,
    )[b] == add_scaled(combination(c, rows, n), s, combination(d, rows, n))[b] by {
        lemma_dot_add_scaled(c, s, d, column(rows, b));
    }
    assert(combination(add_scaled(c, s, d), rows, n) =~= add_scaled(
        combination(c, rows, n),
        s,
        combination(d, rows, n),
    ));
}

/// The span is closed under adding multiples of its members.
pub proof fn lemma_span_add_scaled(rows: Seq<Seq<u8>>, u: Seq<u8>, s: u8, v: Seq<u8>)
    requires
        in_span(rows, u),
        in_span(rows, v),
        u.len() == v.len(),
    ensures
        in_span(rows, add_scaled(u, s, v)),
{
    let c = choose|c: Seq<u8>|
        c.len() == rows.len() && u == #[trigger] combination(c, rows, u.len());
    let d = choose|d: Seq<u8>|
        d.len() == rows.len() && v == #[trigger] combination(d, rows, v.len());
    lemma_combination_add_scaled(c, s, d, rows, u.len());
    let e = add_scaled(c, s, d);
    assert(add_scaled(u, s, v) == combination(e, rows, add_scaled(u, s, v).len()));
}

/// Adding the same multiple twice changes nothing.
pub proof fn lemma_add_scaled_twice(u: Seq<u8>, s: u8, v: Seq<u8>)
    requires
        u.len() == v.len(),
    ensures
        add_scaled(add_scaled(u, s, v), s, v) == u,
{
    assert forall|i: int| 0 <= i < u.len() implies #[trigger] add_scaled(
        add_scaled(u, s, v),
        s,
        v,
    )[i] == u[i] by {
        field::lemma_add_cancels(u[i], field::gf_product(s, v[i]));
    }
    assert(add_scaled(add_scaled(u, s, v), s, v) =~= u);
}

/// Whether `data` is what the coding vector `cv` makes of the source blocks `blocks`.
pub open spec fn encodes(blocks: Seq<Seq<u8>>, cv: Seq<u8>, data: Seq<u8>) -> bool {
    cv.len() == blocks.len() && data == combination(cv, blocks, data.len())
}

/// A multiple of one encoding added to another is an encoding.
pub proof fn lemma_encodes_add_scaled(
    blocks: Seq<Seq<u8>>,
    cv: Seq<u8>,
    data: Seq<u8>,
    s: u8,
    cv2: Seq<u8>,
    data2: Seq<u8>,
)
    requires
        encodes(blocks, cv, data),
        encodes(blocks, cv2, data2),
        data.len() == data2.len(),
    ensures
        encodes(blocks, add_scaled(cv, s, cv2), add_scaled(data, s, data2)),
{
    lemma_combination_add_scaled(cv, s, cv2, blocks, data.len());
}

/// A multiple of an encoding is an encoding.
pub proof fn lemma_encodes_scaled(blocks: Seq<Seq<u8>>, cv: Seq<u8>, data: Seq<u8>, s: u8)
    requires
        encodes(blocks, cv, data),
    ensures
        encodes(blocks, scaled(s, cv), scaled(s, data)),
{
    let n = data.len();
    assert forall|b: int| 0 <= b < n implies #[trigger] scaled(s, data)[b] == combination(
        scaled(s, cv),
        blocks,
        n,
    )[b] by {
        lemma_dot_scaled(s, cv, column(blocks, b));
        assert(data[b] == dot(cv, column(blocks, b)));
    }
    assert(scaled(s, data) =~= combination(scaled(s, cv), blocks, n));
}

/// Multiplying by an element and then by its inverse changes nothing.
pub proof fn lemma_scaled_back(s: u8, t: u8, u: Seq<u8>)
    requires
        field::gf_product(s, t) == 1,
    ensures
        scaled(s, scaled(t, u)) == u,
{
    assert forall|i: int| 0 <= i < u.len() implies #[trigger] scaled(s, scaled(t, u))[i]
        == u[i] by {
        field::lemma_mul_associates(s, t, u[i]);
        field::lemma_mul_one(u[i]);
    }
    assert(scaled(s, scaled(t, u)) =~= u);
}

/// Every combination of the rows is in their span.
pub proof fn lemma_span_combination(c: Seq<u8>, rows: Seq<Seq<u8>>, n: nat)
    requires
        c.len() == rows.len(),
    ensures
        in_span(rows, combination(c, rows, n)),
{
    let v = combination(c, rows, n);
    assert(v == combination(c, rows, v.len()));
}

/// The zero vector is in every span.
pub proof fn lemma_span_zeros(rows: Seq<Seq<u8>>, n: nat)
    ensures
        in_span(rows, zeros(n)),
{
    let c = zeros(rows.len());
    assert forall|b: int| 0 <= b < n implies #[trigger] zeros(n)[b] == combination(
        c,
        rows,
        n,
    )[b] by {
        lemma_dot_single(c, column(rows, b), -1);
    }
    assert(zeros(n) =~= combination(c, rows, n));
    assert(zeros(n) == combination(c, rows, zeros(n).len()));
}

/// Every row is in the span.
pub proof fn lemma_span_row(rows: Seq<Seq<u8>>, r: int)
    requires
        0 <= r < rows.len(),
    ensures
        in_span(rows, rows[r]),
{
    let c = zeros(rows.len()).update(r, 1);
    let v = rows[r];
    assert forall|b: int| 0 <= b < v.len() implies #[trigger] v[b] == combination(
        c,
        rows,
        v.len(),
    )[b] by {
        lemma_dot_single(c, column(rows, b), r);
        field::lemma_mul_one(v[b]);
    }
    assert(v =~= combination(c, rows, v.len()));
}

/// The span is closed under multiples.
pub proof fn lemma_span_scaled(rows: Seq<Seq<u8>>, s: u8, v: Seq<u8>)
    requires
        in_span(rows, v),
    ensures
        in_span(rows, scaled(s, v)),
{
    lemma_span_zeros(rows, v.len());
    lemma_span_add_scaled(rows, zeros(v.len()), s, v);
    assert forall|i: int| 0 <= i < v.len() implies #[trigger] scaled(s, v)[i] == add_scaled(
        zeros(v.len()),
        s,
        v,
    )[i] by {
        field::lemma_add_zero(field::gf_product(s, v[i]));
    }
    assert(scaled(s, v) =~= add_scaled(zeros(v.len()), s, v));
}

/// A dot product after one entry of the second vector was changed from zero to `y`.
proof fn lemma_dot_fill(d: Seq<u8>, x: Seq<u8>, p: int, y: u8)
    requires
        d.len() == x.len(),
        0 <= p < x.len(),
        x[p] == 0,
    ensures
        dot(d, x.update(p, y)) == dot(d, x) ^ field::gf_product(d[p], y),
{
    field::lemma_add_zero(y);
    lemma_dot_update(x, d, p, y);
    lemma_dot_commutes(d, x);
    lemma_dot_commutes(d, x.update(p, y));
    field::lemma_mul_commutes(d[p], y);
}

/// Combinations of rows of which one was changed from zero to `y`.
pub proof fn lemma_combination_fill(d: Seq<u8>, rows: Seq<Seq<u8>>, p: int, y: Seq<u8>, n: nat)
    requires
        d.len() == rows.len(),
        0 <= p < rows.len(),
        rows[p] == zeros(n),
        y.len() == n,
    ensures
        combination(d, rows.update(p, y), n) == add_scaled(combination(d, rows, n), d[p], y),
{
    assert forall|b: int| 0 <= b < n implies #[trigger] combination(d, rows.update(p, y), n)[b]
        == add_scaled(combination(d, rows, n), d[p], y)[b] by {
        assert(column(rows.update(p, y), b) =~= column(rows, b).update(p, y[b]));
        assert(column(rows, b)[p] == rows[p][b]);
        lemma_dot_fill(d, column(rows, b), p, y[b]);
    }
    assert(combination(d, rows.update(p, y), n) =~= add_scaled(combination(d, rows, n), d[p], y));
}

/// Putting a row in the place of a zero row loses nothing of the span.
pub proof fn lemma_span_fill(rows: Seq<Seq<u8>>, p: int, y: Seq<u8>, v: Seq<u8>)
    requires
        0 <= p < rows.len(),
        rows[p] == zeros(v.len()),
        y.len() == v.len(),
        in_span(rows, v),
    ensures
        in_span(rows.update(p, y), v),
{
    let n = v.len();
    let c = choose|c: Seq<u8>| c.len() == rows.len() && v == #[trigger] combination(c, rows, n);
    let d = c.update(p, 0);
    lemma_combination_fill(d, rows, p, y, n);
    assert forall|b: int| 0 <= b < n implies #[trigger] v[b] == combination(
        d,
        rows.update(p, y),
        n,
    )[b] by {
        let x = column(rows, b);
        assert(x[p] == rows[p][b]);
        field::lemma_add_zero(c[p]);
        lemma_dot_update(c, x, p, c[p]);
        field::lemma_mul_zero(c[p]);
        field::lemma_add_zero(dot(c, x));
        field::lemma_mul_zero(y[b]);
        field::lemma_add_zero(dot(d, x));
    }
    assert(v =~= combination(d, rows.update(p, y), n));
    assert(v == combination(d, rows.update(p, y), v.len()));
}

}
