//! Linear independence over GF(2⁸): how many independent vectors there can be.

use crate::rlnc::encoder;
use crate::rlnc::field;
use crate::rlnc::gf256;
use crate::rlnc::linear;
use vstd::prelude::*;

verus! {

/// Whether vectors of `n` entries are linearly independent: only the combination in which
/// every coefficient is zero is zero.
pub open spec fn independent(rows: Seq<Seq<u8>>, n: nat) -> bool {
    forall|c: Seq<u8>|
        c.len() == rows.len() && #[trigger] linear::combination(c, rows, n) == linear::zeros(n)
            ==> c == linear::zeros(rows.len())
}

/// Whether no vector is a combination of those before it.
pub open spec fn each_new(rows: Seq<Seq<u8>>) -> bool {
    forall|i: int|
        0 <= i < rows.len() ==> !linear::in_span(rows.take(i), #[trigger] rows[i])
}

/// A combination of rows is in a span if every row with a coefficient other than zero is.
pub proof fn lemma_combination_in_span(
    c: Seq<u8>,
    rows: Seq<Seq<u8>>,
    n: nat,
    basis: Seq<Seq<u8>>,
    m: int,
)
    requires
        c.len() == rows.len(),
        linear::rows_have(rows, n),
        0 <= m <= rows.len(),
        forall|j: int|
            0 <= j < rows.len() && c[j] != 0 ==> linear::in_span(basis, #[trigger] rows[j]),
    ensures
        linear::in_span(basis, linear::combination(c.take(m), rows.take(m), n)),
    decreases m,
{
    if m == 0 {
        encoder::lemma_sum_start(c, rows, n);
        linear::lemma_span_zeros(basis, n);
    } else {
        lemma_combination_in_span(c, rows, n, basis, m - 1);
        encoder::lemma_sum_step(c, rows, m - 1, n);
        let front = linear::combination(c.take(m - 1), rows.take(m - 1), n);
        if c[m - 1] != 0 {
            linear::lemma_span_add_scaled(basis, front, c[m - 1], rows[m - 1]);
        } else {
            lemma_add_nothing(front, rows[m - 1]);
        }
    }
}

proof fn lemma_add_nothing(u: Seq<u8>, v: Seq<u8>)
    requires
        u.len() == v.len(),
    ensures
        linear::add_scaled(u, 0, v) == u,
{
    assert forall|b: int| 0 <= b < u.len() implies #[trigger] linear::add_scaled(u, 0, v)[b]
        == u[b] by {
        field::lemma_mul_zero(v[b]);
        field::lemma_add_zero(u[b]);
    }
    assert(linear::add_scaled(u, 0, v) =~= u);
}

/// A span is within another one if its rows are.
proof fn lemma_span_within(rows: Seq<Seq<u8>>, basis: Seq<Seq<u8>>, v: Seq<u8>)
    requires
        linear::rows_have(rows, v.len()),
        forall|j: int| 0 <= j < rows.len() ==> linear::in_span(basis, #[trigger] rows[j]),
        linear::in_span(rows, v),
    ensures
        linear::in_span(basis, v),
{
    let c = choose|c: Seq<u8>|
        c.len() == rows.len() && v == #[trigger] linear::combination(c, rows, v.len());
    lemma_combination_in_span(c, rows, v.len(), basis, rows.len() as int);
    assert(c.take(rows.len() as int) =~= c);
    assert(rows.take(rows.len() as int) =~= rows);
}

/// A row that has a part in a combination is a combination of that and of the other rows.
proof fn lemma_exchange(c: Seq<u8>, rows: Seq<Seq<u8>>, n: nat, p: int)
    requires
        c.len() == rows.len(),
        linear::rows_have(rows, n),
        0 <= p < rows.len(),
        c[p] != 0,
    ensures
        linear::in_span(rows.update(p, linear::combination(c, rows, n)), rows[p]),
{
    let v = linear::combination(c, rows, n);
    let basis = rows.update(p, v);
    // The other rows, and what is left of the combination without the row.
    let d = c.update(p, 0);
    let rest = linear::combination(d, rows, n);
    assert forall|j: int| 0 <= j < rows.len() && d[j] != 0 implies linear::in_span(
        basis,
        #[trigger] rows[j],
    ) by {
        assert(basis[j] == rows[j]);
        linear::lemma_span_row(basis, j);
    }
    lemma_combination_in_span(d, rows, n, basis, rows.len() as int);
    assert(d.take(rows.len() as int) =~= d);
    assert(rows.take(rows.len() as int) =~= rows);
    assert(linear::in_span(basis, rest));
    assert(basis[p] == v);
    linear::lemma_span_row(basis, p);
    // What the row contributes, and the row itself.
    let share = linear::add_scaled(v, 1, rest);
    linear::lemma_span_add_scaled(basis, v, 1, rest);
    gf256::lemma_inverse_exists(c[p]);
    let s = choose|s: u8| field::gf_product(c[p], s) == 1;
    field::lemma_mul_commutes(c[p], s);
    assert forall|b: int| 0 <= b < n implies #[trigger] share[b] == linear::scaled(
        c[p],
        rows[p],
    )[b] by {
        let x = linear::column(rows, b);
        field::lemma_add_zero(c[p]);
        linear::lemma_dot_update(c, x, p, c[p]);
        let whole = linear::dot(c, x);
        let part = field::gf_product(c[p], x[p]);
        assert(rest[b] == whole ^ part);
        field::lemma_mul_one(rest[b]);
        assert(share[b] == whole ^ (whole ^ part));
        field::lemma_add_associates(whole, whole, part);
        field::lemma_add_zero(whole);
        field::lemma_add_zero(part);
    }
    assert(share =~= linear::scaled(c[p], rows[p]));
    linear::lemma_span_scaled(basis, s, share);
    linear::lemma_scaled_back(s, c[p], rows[p]);
}

/// Vectors of which none is a combination of the fixed ones and of those before it, and which
/// all are combinations of the fixed ones and the free ones, are no more than the free ones:
/// each takes the place of a free one.
proof fn lemma_no_more_than_free(
    fixed: Seq<Seq<u8>>,
    free: Seq<Seq<u8>>,
    vectors: Seq<Seq<u8>>,
    n: nat,
)
    requires
        linear::rows_have(fixed, n),
        linear::rows_have(free, n),
        linear::rows_have(vectors, n),
        forall|i: int|
            0 <= i < vectors.len() ==> !linear::in_span(
                fixed + vectors.take(i),
                #[trigger] vectors[i],
            ),
        forall|i: int|
            0 <= i < vectors.len() ==> linear::in_span(fixed + free, #[trigger] vectors[i]),
    ensures
        vectors.len() <= free.len(),
    decreases vectors.len(),
{
    if vectors.len() > 0 {
        let v = vectors[0];
        let rows = fixed + free;
        let c = choose|c: Seq<u8>|
            c.len() == rows.len() && v == #[trigger] linear::combination(c, rows, n);
        assert(fixed + vectors.take(0) =~= fixed);
        if forall|j: int| fixed.len() <= j < rows.len() ==> #[trigger] c[j] == 0 {
            assert forall|j: int| 0 <= j < rows.len() && c[j] != 0 implies linear::in_span(
                fixed,
                #[trigger] rows[j],
            ) by {
                assert(rows[j] == fixed[j]);
                linear::lemma_span_row(fixed, j);
            }
            lemma_combination_in_span(c, rows, n, fixed, rows.len() as int);
            assert(c.take(rows.len() as int) =~= c);
            assert(rows.take(rows.len() as int) =~= rows);
        } else {
            let p = choose|p: int| fixed.len() <= p < rows.len() && #[trigger] c[p] != 0;
            let q = p - fixed.len();
            let fixed2 = fixed.push(v);
            let free2 = free.remove(q);
            let rows2 = fixed2 + free2;
            let rest = vectors.drop_first();
            lemma_exchange(c, rows, n, p);
            let swapped = rows.update(p, v);
            assert forall|j: int| 0 <= j < swapped.len() implies linear::in_span(
                rows2,
                #[trigger] swapped[j],
            ) by {
                let at = if j < fixed.len() {
                    j
                } else if j == p {
                    fixed.len() as int
                } else if j < p {
                    j + 1
                } else {
                    j
                };
                assert(rows2[at] == swapped[j]);
                linear::lemma_span_row(rows2, at);
            }
            assert forall|j: int| 0 <= j < rows.len() implies linear::in_span(
                swapped,
                #[trigger] rows[j],
            ) by {
                if j != p {
                    assert(swapped[j] == rows[j]);
                    linear::lemma_span_row(swapped, j);
                }
            }
            assert forall|i: int| 0 <= i < rest.len() implies linear::in_span(
                rows2,
                #[trigger] rest[i],
            ) by {
                assert(rest[i] == vectors[i + 1]);
                lemma_span_within(rows, swapped, rest[i]);
                lemma_span_within(swapped, rows2, rest[i]);
            }
            assert forall|i: int| 0 <= i < rest.len() implies !linear::in_span(
                fixed2 + rest.take(i),
                #[trigger] rest[i],
            ) by {
                assert(rest[i] == vectors[i + 1]);
                assert(fixed2 + rest.take(i) =~= fixed + vectors.take(i + 1));
            }
            lemma_no_more_than_free(fixed2, free2, rest, n);
        }
    }
}

/// Vectors of which none is a combination of those before it, and which all are combinations
/// of some rows, are no more than those rows.
pub proof fn lemma_no_more_than_rows(vectors: Seq<Seq<u8>>, rows: Seq<Seq<u8>>, n: nat)
    requires
        linear::rows_have(vectors, n),
        linear::rows_have(rows, n),
        each_new(vectors),
        forall|i: int| 0 <= i < vectors.len() ==> linear::in_span(rows, #[trigger] vectors[i]),
    ensures
        vectors.len() <= rows.len(),
{
    let none = Seq::<Seq<u8>>::empty();
    assert(none + rows =~= rows);
    assert forall|i: int| 0 <= i < vectors.len() implies !linear::in_span(
        none + vectors.take(i),
        #[trigger] vectors[i],
    ) by {
        assert(none + vectors.take(i) =~= vectors.take(i));
    }
    lemma_no_more_than_free(none, rows, vectors, n);
}

/// The vectors with a single one.
pub open spec fn unit_vectors(n: nat) -> Seq<Seq<u8>> {
    Seq::new(n, |j: int| linear::zeros(n).update(j, 1))
}

/// Of vectors with `n` entries, no more than `n` can each be new.
pub proof fn lemma_no_more_than_entries(vectors: Seq<Seq<u8>>, n: nat)
    requires
        linear::rows_have(vectors, n),
        each_new(vectors),
    ensures
        vectors.len() <= n,
{
    let units = unit_vectors(n);
    assert forall|i: int| 0 <= i < vectors.len() implies linear::in_span(
        units,
        #[trigger] vectors[i],
    ) by {
        let v = vectors[i];
        assert forall|b: int| 0 <= b < n implies #[trigger] linear::combination(v, units, n)[b]
            == v[b] by {
            linear::lemma_dot_single(v, linear::column(units, b), b);
            assert(linear::column(units, b)[b] == 1);
            field::lemma_mul_one(v[b]);
            field::lemma_mul_commutes(v[b], 1);
        }
        assert(linear::combination(v, units, n) =~= v);
        linear::lemma_span_combination(v, units, n);
    }
    lemma_no_more_than_rows(vectors, units, n);
}

/// Of independent vectors none is a combination of those before it.
pub proof fn lemma_independent_new(rows: Seq<Seq<u8>>, n: nat)
    requires
        linear::rows_have(rows, n),
        independent(rows, n),
    ensures
        each_new(rows),
{
    assert forall|i: int| 0 <= i < rows.len() implies !linear::in_span(
        rows.take(i),
        #[trigger] rows[i],
    ) by {
        if linear::in_span(rows.take(i), rows[i]) {
            let front = rows.take(i);
            let d = choose|d: Seq<u8>|
                d.len() == front.len() && rows[i] == #[trigger] linear::combination(
                    d,
                    front,
                    n,
                );
            let c = d.push(1) + linear::zeros((rows.len() - i - 1) as nat);
            lemma_zero_tail(c, rows, n, i + 1, rows.len() as int);
            encoder::lemma_sum_step(c, rows, i, n);
            assert(c.take(i) =~= d);
            assert(c.take(rows.len() as int) =~= c);
            assert(rows.take(rows.len() as int) =~= rows);
            let sum = linear::add_scaled(rows[i], 1, rows[i]);
            assert forall|b: int| 0 <= b < n implies #[trigger] sum[b] == 0 by {
                let x = rows[i][b];
                field::lemma_mul_one(x);
                field::lemma_add_zero(x);
            }
            assert(sum =~= linear::zeros(n));
            assert(linear::combination(c, rows, n) == linear::zeros(n));
            assert(c[i] == 1);
            assert(linear::zeros(rows.len())[i] == 0);
        }
    }
}

/// Coefficients of zero at the end add nothing to a combination.
proof fn lemma_zero_tail(c: Seq<u8>, rows: Seq<Seq<u8>>, n: nat, from: int, to: int)
    requires
        c.len() == rows.len(),
        linear::rows_have(rows, n),
        0 <= from <= to <= rows.len(),
        forall|j: int| from <= j < to ==> #[trigger] c[j] == 0,
    ensures
        linear::combination(c.take(to), rows.take(to), n) == linear::combination(
            c.take(from),
            rows.take(from),
            n,
        ),
    decreases to - from,
{
    if from < to {
        lemma_zero_tail(c, rows, n, from, to - 1);
        encoder::lemma_sum_step(c, rows, to - 1, n);
        lemma_add_nothing(
            linear::combination(c.take(to - 1), rows.take(to - 1), n),
            rows[to - 1],
        );
    }
}

}
