//! What encoding, recoding and decoding promise each other.

use crate::crypto::hommac;
use crate::outside::digest;
use crate::rlnc::decoder;
use crate::rlnc::decoder::RlncDecoder;
use crate::rlnc::encoder;
use crate::rlnc::error::RlncError;
use crate::rlnc::field;
use crate::rlnc::linear;
use crate::rlnc::rank;
use crate::rlnc::recoder;
use crate::types::piece::PieceView;
use vstd::prelude::*;

verus! {

/// Whether a piece is an encoding of the data in a generation of size `k`, with a coding
/// vector of no zeros.
pub open spec fn is_piece_of(piece: PieceView, data: Seq<u8>, k: nat) -> bool {
    let blocks = encoder::source_blocks(data, k);
    let size = encoder::block_len(data.len(), k);
    &&& piece.coding_vector.len() == k
    &&& piece.data.len() == size
    &&& linear::encodes(blocks, piece.coding_vector, piece.data)
    &&& forall|j: int| 0 <= j < k ==> #[trigger] piece.coding_vector[j] != 0
    &&& piece.cid == digest::blake3_digest(data)
    &&& piece.piece_id == digest::blake3_digest(piece.data)
    &&& piece.tag == hommac::piece_tag(piece.cid, piece.coding_vector, piece.data)
}

/// Whether a piece has the shape of a generation.
pub open spec fn fits(piece: PieceView, k: nat, size: nat) -> bool {
    piece.coding_vector.len() == k && piece.data.len() == size
}

/// The pieces of the right shape whose coding vectors are independent of those before.
pub open spec fn useful(pieces: Seq<PieceView>, k: nat, size: nat) -> Seq<PieceView>
    decreases pieces.len(),
{
    if pieces.len() == 0 {
        Seq::empty()
    } else {
        let before = useful(pieces.drop_last(), k, size);
        let piece = pieces.last();
        if fits(piece, k, size) && !linear::in_span(
            recoder::vectors(before),
            piece.coding_vector,
        ) {
            before.push(piece)
        } else {
            before
        }
    }
}

/// Whether the pieces are encodings of the blocks of a generation.
pub open spec fn explains(
    blocks: Seq<Seq<u8>>,
    pieces: Seq<PieceView>,
    k: nat,
    size: nat,
) -> bool {
    &&& blocks.len() == k
    &&& linear::rows_have(blocks, size)
    &&& forall|i: int|
        0 <= i < pieces.len() ==> linear::encodes(
            blocks,
            (#[trigger] pieces[i]).coding_vector,
            pieces[i].data,
        )
}

/// Whether a decoder holds what the given independent pieces say.
pub open spec fn holds(decoder: RlncDecoder, pieces: Seq<PieceView>) -> bool {
    &&& decoder.dimension() == pieces.len()
    &&& forall|i: int|
        0 <= i < pieces.len() ==> fits(
            #[trigger] pieces[i],
            decoder.generation(),
            decoder.block_size(),
        )
    &&& forall|blocks: Seq<Seq<u8>>| #[trigger]
        decoder.solves(blocks) <==> explains(
            blocks,
            pieces,
            decoder.generation(),
            decoder.block_size(),
        )
    &&& forall|v: Seq<u8>| #[trigger]
        decoder.spans(v) <==> v.len() == decoder.generation() && linear::in_span(
            recoder::vectors(pieces),
            v,
        )
}

/// A new decoder holds what no pieces say.
pub proof fn lemma_nothing_useful(decoder: RlncDecoder, k: nat, size: nat)
    requires
        decoder.generation() == k,
        decoder.block_size() == size,
        decoder.dimension() == 0,
        forall|blocks: Seq<Seq<u8>>| #[trigger]
            decoder.solves(blocks) <==> blocks.len() == k && linear::rows_have(blocks, size),
        forall|v: Seq<u8>| #[trigger] decoder.spans(v) <==> v == linear::zeros(k),
    ensures
        holds(decoder, useful(Seq::empty(), k, size)),
{
    let none = Seq::<PieceView>::empty();
    let rows = recoder::vectors(none);
    assert forall|v: Seq<u8>| #[trigger] decoder.spans(v) <==> v.len() == k && linear::in_span(
        rows,
        v,
    ) by {
        if v.len() == k && linear::in_span(rows, v) {
            let c = choose|c: Seq<u8>|
                c.len() == rows.len() && v == #[trigger] linear::combination(c, rows, v.len());
            assert(v =~= linear::zeros(k));
        }
        linear::lemma_span_zeros(rows, k);
    }
}

/// One row more extends a span by the multiples of that row.
pub proof fn lemma_span_push(rows: Seq<Seq<u8>>, row: Seq<u8>, v: Seq<u8>)
    requires
        row.len() == v.len(),
    ensures
        linear::in_span(rows.push(row), v) <==> exists|s: u8|
            linear::in_span(rows, #[trigger] linear::add_scaled(v, s, row)),
{
    let more = rows.push(row);
    let n = v.len();
    if linear::in_span(more, v) {
        let c = choose|c: Seq<u8>|
            c.len() == more.len() && v == #[trigger] linear::combination(c, more, n);
        let s = c.last();
        let d = c.drop_last();
        let u = linear::add_scaled(v, s, row);
        assert forall|b: int| 0 <= b < n implies #[trigger] u[b] == linear::combination(
            d,
            rows,
            n,
        )[b] by {
            assert(linear::column(more, b).drop_last() =~= linear::column(rows, b));
            assert(v[b] == linear::combination(c, more, n)[b]);
            field::lemma_add_cancels(
                linear::dot(d, linear::column(rows, b)),
                field::gf_product(s, row[b]),
            );
        }
        assert(u =~= linear::combination(d, rows, n));
        linear::lemma_span_combination(d, rows, n);
        assert(linear::in_span(rows, linear::add_scaled(v, s, row)));
    }
    if exists|s: u8| linear::in_span(rows, #[trigger] linear::add_scaled(v, s, row)) {
        let s = choose|s: u8| linear::in_span(rows, #[trigger] linear::add_scaled(v, s, row));
        let u = linear::add_scaled(v, s, row);
        let d = choose|d: Seq<u8>|
            d.len() == rows.len() && u == #[trigger] linear::combination(d, rows, u.len());
        let c = d.push(s);
        linear::lemma_add_scaled_twice(v, s, row);
        assert forall|b: int| 0 <= b < n implies #[trigger] v[b] == linear::combination(
            c,
            more,
            n,
        )[b] by {
            assert(linear::column(more, b) =~= linear::column(rows, b).push(row[b]));
            linear::lemma_dot_push(d, linear::column(rows, b), s, row[b]);
            assert(u[b] == linear::combination(d, rows, u.len())[b]);
            assert(v[b] == linear::add_scaled(u, s, row)[b]);
        }
        assert(v =~= linear::combination(c, more, n));
        linear::lemma_span_combination(c, more, n);
    }
}

/// Adding a piece keeps what a decoder holds in step with the pieces that count.
pub proof fn lemma_piece_taken(
    before: RlncDecoder,
    after: RlncDecoder,
    pieces: Seq<PieceView>,
    outcome: Result<bool, RlncError>,
    k: nat,
    size: nat,
)
    requires
        pieces.len() > 0,
        before.generation() == k,
        before.block_size() == size,
        after.generation() == k,
        after.block_size() == size,
        holds(before, useful(pieces.drop_last(), k, size)),
        match outcome {
            Err(_) => !fits(pieces.last(), k, size) && after == before,
            Ok(added) => {
                &&& fits(pieces.last(), k, size)
                &&& added == !before.spans(pieces.last().coding_vector)
                &&& !added ==> after == before
                &&& added ==> {
                    &&& after.dimension() == before.dimension() + 1
                    &&& forall|blocks: Seq<Seq<u8>>| #[trigger]
                        after.solves(blocks) <==> before.solves(blocks) && linear::encodes(
                            blocks,
                            pieces.last().coding_vector,
                            pieces.last().data,
                        )
                    &&& forall|v: Seq<u8>| #[trigger]
                        after.spans(v) <==> exists|s: u8| #[trigger]
                            before.spans(linear::add_scaled(v, s, pieces.last().coding_vector))
                }
            },
        },
    ensures
        holds(after, useful(pieces, k, size)),
{
    let taken = useful(pieces.drop_last(), k, size);
    let piece = pieces.last();
    let cv = piece.coding_vector;
    let rows = recoder::vectors(taken);
    if outcome is Ok {
        assert(before.spans(cv) <==> linear::in_span(rows, cv));
        if outcome->Ok_0 {
            let more = taken.push(piece);
            assert(useful(pieces, k, size) == more);
            assert(recoder::vectors(more) =~= rows.push(cv));
            assert forall|blocks: Seq<Seq<u8>>| #[trigger] after.solves(blocks) <==> explains(
                blocks,
                more,
                k,
                size,
            ) by {
                assert(before.solves(blocks) <==> explains(blocks, taken, k, size));
                if explains(blocks, more, k, size) {
                    assert forall|i: int| 0 <= i < taken.len() implies linear::encodes(
                        blocks,
                        (#[trigger] taken[i]).coding_vector,
                        taken[i].data,
                    ) by {
                        assert(more[i] == taken[i]);
                    }
                    assert(more[taken.len() as int] == piece);
                }
            }
            assert forall|v: Seq<u8>| #[trigger] after.spans(v) <==> v.len() == k
                && linear::in_span(recoder::vectors(more), v) by {
                if v.len() == k {
                    lemma_span_push(rows, cv, v);
                    if linear::in_span(recoder::vectors(more), v) {
                        let s = choose|s: u8|
                            linear::in_span(rows, #[trigger] linear::add_scaled(v, s, cv));
                        assert(before.spans(linear::add_scaled(v, s, cv)));
                    }
                    if after.spans(v) {
                        let s = choose|s: u8| #[trigger]
                            before.spans(linear::add_scaled(v, s, cv));
                        assert(linear::in_span(rows, linear::add_scaled(v, s, cv)));
                    }
                } else if after.spans(v) {
                    let s = choose|s: u8| #[trigger] before.spans(linear::add_scaled(v, s, cv));
                    assert(linear::add_scaled(v, s, cv).len() == v.len());
                }
            }
        }
    }
}

/// Once a decoder is complete, no further piece counts.
pub proof fn lemma_rest_useless(
    decoder: RlncDecoder,
    pieces: Seq<PieceView>,
    i: int,
    k: nat,
    size: nat,
)
    requires
        0 <= i <= pieces.len(),
        decoder.wf(),
        decoder.generation() == k,
        decoder.block_size() == size,
        holds(decoder, useful(pieces.take(i), k, size)),
        i == pieces.len() || decoder.dimension() == k,
    ensures
        holds(decoder, useful(pieces, k, size)),
    decreases pieces.len(),
{
    if i == pieces.len() {
        assert(pieces.take(i) =~= pieces);
    } else {
        let shorter = pieces.drop_last();
        assert(shorter.take(i) =~= pieces.take(i));
        lemma_rest_useless(decoder, shorter, i, k, size);
        let taken = useful(shorter, k, size);
        let piece = pieces.last();
        if fits(piece, k, size) {
            decoder.lemma_complete(piece.coding_vector);
            assert(linear::in_span(recoder::vectors(taken), piece.coding_vector));
        }
    }
}

/// Decoding gives back the data. Whatever pieces were received, encoded at the source or
/// recoded on the way, in whatever order and however many: where those of the right shape
/// are encodings of the data, what is recovered from those that count is the data first and
/// zeros behind it.
pub proof fn lemma_round_trip(data: Seq<u8>, k: nat, pieces: Seq<PieceView>, out: Seq<u8>)
    requires
        k > 0,
        forall|i: int|
            0 <= i < pieces.len() && fits(
                #[trigger] pieces[i],
                k,
                encoder::block_len(data.len(), k),
            ) ==> linear::encodes(
                encoder::source_blocks(data, k),
                pieces[i].coding_vector,
                pieces[i].data,
            ),
        forall|blocks: Seq<Seq<u8>>| #[trigger]
            explains(
                blocks,
                useful(pieces, k, encoder::block_len(data.len(), k)),
                k,
                encoder::block_len(data.len(), k),
            ) ==> out == decoder::concat(blocks),
    ensures
        out.len() == k * encoder::block_len(data.len(), k),
        data.len() <= out.len(),
        out.take(data.len() as int) == data,
        forall|i: int| data.len() <= i < out.len() ==> #[trigger] out[i] == 0,
{
    let size = encoder::block_len(data.len(), k);
    let blocks = encoder::source_blocks(data, k);
    lemma_useful_members(pieces, k, size);
    assert forall|i: int| 0 <= i < useful(pieces, k, size).len() implies linear::encodes(
        blocks,
        (#[trigger] useful(pieces, k, size)[i]).coding_vector,
        useful(pieces, k, size)[i].data,
    ) by {
        let j = choose|j: int|
            0 <= j < pieces.len() && #[trigger] pieces[j] == useful(pieces, k, size)[i];
        lemma_useful_fit(pieces, k, size, i);
        assert(fits(pieces[j], k, size));
    }
    assert(explains(blocks, useful(pieces, k, size), k, size));
    encoder::lemma_blocks_hold_data(data, k);
}

/// As many independent pieces as the generation has blocks are enough: wherever they stand
/// among what was received, and whatever else was received, as many pieces count as decoding
/// needs. Never do more count.
pub proof fn lemma_enough_pieces(pieces: Seq<PieceView>, k: nat, size: nat, chosen: Seq<PieceView>)
    requires
        chosen.len() == k,
        forall|j: int|
            0 <= j < k ==> pieces.contains(#[trigger] chosen[j]) && fits(chosen[j], k, size),
        rank::independent(recoder::vectors(chosen), k),
    ensures
        useful(pieces, k, size).len() == k,
{
    let rows = recoder::vectors(useful(pieces, k, size));
    let wanted = recoder::vectors(chosen);
    assert forall|j: int| 0 <= j < wanted.len() implies linear::in_span(
        rows,
        #[trigger] wanted[j],
    ) by {
        assert(pieces.contains(chosen[j]));
        let i = choose|i: int| 0 <= i < pieces.len() && pieces[i] == chosen[j];
        lemma_duplicate_useless(pieces, k, size, i);
    }
    assert forall|j: int| 0 <= j < wanted.len() implies (#[trigger] wanted[j]).len() == k by {
        assert(fits(chosen[j], k, size));
    }
    lemma_useful_new(pieces, k, size);
    rank::lemma_independent_new(wanted, k);
    rank::lemma_no_more_than_rows(wanted, rows, k);
}

/// Of the pieces that count, none has a coding vector that is a combination of those before
/// it, and there are never more of them than the generation has blocks.
pub proof fn lemma_useful_new(pieces: Seq<PieceView>, k: nat, size: nat)
    ensures
        linear::rows_have(recoder::vectors(useful(pieces, k, size)), k),
        rank::each_new(recoder::vectors(useful(pieces, k, size))),
        useful(pieces, k, size).len() <= k,
    decreases pieces.len(),
{
    let all = useful(pieces, k, size);
    let rows = recoder::vectors(all);
    if pieces.len() > 0 {
        let before = useful(pieces.drop_last(), k, size);
        let front = recoder::vectors(before);
        lemma_useful_new(pieces.drop_last(), k, size);
        if all != before {
            assert(rows =~= front.push(pieces.last().coding_vector));
            assert forall|i: int| 0 <= i < rows.len() implies !linear::in_span(
                rows.take(i),
                #[trigger] rows[i],
            ) by {
                if i < front.len() {
                    assert(rows[i] == front[i]);
                    assert(rows.take(i) =~= front.take(i));
                } else {
                    assert(rows.take(i) =~= front);
                }
            }
            assert forall|j: int| 0 <= j < rows.len() implies (#[trigger] rows[j]).len() == k by {
                if j < front.len() {
                    assert(rows[j] == front[j]);
                }
            }
        }
    }
    rank::lemma_no_more_than_entries(rows, k);
}

/// Decoding succeeds and gives back the data from any pieces among which as many are
/// independent as the generation has blocks. Pieces of another shape, duplicates and pieces
/// that add nothing do no harm.
pub proof fn lemma_decodes(
    data: Seq<u8>,
    k: nat,
    pieces: Seq<PieceView>,
    chosen: Seq<PieceView>,
    out: Seq<u8>,
)
    requires
        k > 0,
        forall|i: int|
            0 <= i < pieces.len() && fits(
                #[trigger] pieces[i],
                k,
                encoder::block_len(data.len(), k),
            ) ==> linear::encodes(
                encoder::source_blocks(data, k),
                pieces[i].coding_vector,
                pieces[i].data,
            ),
        chosen.len() == k,
        forall|j: int|
            0 <= j < k ==> pieces.contains(#[trigger] chosen[j]) && fits(
                chosen[j],
                k,
                encoder::block_len(data.len(), k),
            ),
        rank::independent(recoder::vectors(chosen), k),
    ensures
        ({
            let size = encoder::block_len(data.len(), k);
            let counted = useful(pieces, k, size);
            &&& counted.len() == k
            &&& (forall|blocks: Seq<Seq<u8>>| #[trigger]
                explains(blocks, counted, k, size) ==> out == decoder::concat(blocks)) ==> {
                &&& out.len() == k * size
                &&& data.len() <= out.len()
                &&& out.take(data.len() as int) == data
                &&& forall|i: int| data.len() <= i < out.len() ==> #[trigger] out[i] == 0
            }
        }),
{
    let size = encoder::block_len(data.len(), k);
    lemma_enough_pieces(pieces, k, size, chosen);
    if forall|blocks: Seq<Seq<u8>>| #[trigger]
        explains(blocks, useful(pieces, k, size), k, size) ==> out == decoder::concat(blocks) {
        lemma_round_trip(data, k, pieces, out);
    }
}

/// The pieces that count are pieces that were received.
pub proof fn lemma_useful_members(pieces: Seq<PieceView>, k: nat, size: nat)
    ensures
        useful(pieces, k, size).len() <= pieces.len(),
        forall|i: int|
            0 <= i < useful(pieces, k, size).len() ==> exists|j: int|
                0 <= j < pieces.len() && #[trigger] pieces[j] == #[trigger] useful(
                    pieces,
                    k,
                    size,
                )[i],
    decreases pieces.len(),
{
    if pieces.len() > 0 {
        let shorter = pieces.drop_last();
        lemma_useful_members(shorter, k, size);
        let taken = useful(shorter, k, size);
        let all = useful(pieces, k, size);
        assert forall|i: int| 0 <= i < all.len() implies exists|j: int|
            0 <= j < pieces.len() && #[trigger] pieces[j] == #[trigger] all[i] by {
            if i < taken.len() {
                assert(all[i] == taken[i]);
                let j = choose|j: int| 0 <= j < shorter.len() && #[trigger] shorter[j] == taken[i];
                assert(pieces[j] == all[i]);
            } else {
                assert(pieces[pieces.len() - 1] == all[i]);
            }
        }
    }
}

/// The pieces that count have the right shape.
proof fn lemma_useful_fit(pieces: Seq<PieceView>, k: nat, size: nat, i: int)
    requires
        0 <= i < useful(pieces, k, size).len(),
    ensures
        fits(useful(pieces, k, size)[i], k, size),
    decreases pieces.len(),
{
    let before = useful(pieces.drop_last(), k, size);
    if i < before.len() {
        lemma_useful_fit(pieces.drop_last(), k, size, i);
        assert(useful(pieces, k, size)[i] == before[i]);
    }
}

/// Two equal pieces never both count: a piece that was received adds nothing the second
/// time.
pub proof fn lemma_duplicate_useless(pieces: Seq<PieceView>, k: nat, size: nat, i: int)
    requires
        0 <= i < pieces.len(),
        fits(pieces[i], k, size),
    ensures
        linear::in_span(recoder::vectors(useful(pieces, k, size)), pieces[i].coding_vector),
        useful(pieces.push(pieces[i]), k, size) == useful(pieces, k, size),
    decreases pieces.len(),
{
    let shorter = pieces.drop_last();
    let taken = useful(shorter, k, size);
    let all = useful(pieces, k, size);
    let cv = pieces[i].coding_vector;
    let last = pieces.last();
    assert(pieces.push(pieces[i]).drop_last() =~= pieces);
    if i == pieces.len() - 1 {
        if all != taken {
            assert(recoder::vectors(all)[taken.len() as int] == cv);
            linear::lemma_span_row(recoder::vectors(all), taken.len() as int);
        }
    } else {
        lemma_duplicate_useless(shorter, k, size, i);
        if all != taken {
            assert(recoder::vectors(all) =~= recoder::vectors(taken).push(last.coding_vector));
            lemma_span_push(recoder::vectors(taken), last.coding_vector, cv);
            assert(linear::add_scaled(cv, 0, last.coding_vector) =~= cv) by {
                assert forall|b: int| 0 <= b < cv.len() implies #[trigger] linear::add_scaled(
                    cv,
                    0,
                    last.coding_vector,
                )[b] == cv[b] by {
                    field::lemma_mul_zero(last.coding_vector[b]);
                    field::lemma_add_zero(cv[b]);
                }
            }
        }
    }
}

/// A recoded piece is an encoding of whatever blocks its inputs encode, so recoding neither
/// needs nor loses the source.
pub proof fn lemma_recoded_encodes(
    blocks: Seq<Seq<u8>>,
    pieces: Seq<PieceView>,
    scalars: Seq<u8>,
    size: nat,
)
    requires
        pieces.len() > 0,
        scalars.len() == pieces.len(),
        recoder::same_shape(pieces),
        explains(blocks, pieces, blocks.len(), size),
    ensures
        linear::encodes(
            blocks,
            recoder::recoded(pieces, scalars).coding_vector,
            recoder::recoded(pieces, scalars).data,
        ),
        recoder::recoded(pieces, scalars).cid == pieces[0].cid,
        recoder::recoded(pieces, scalars).piece_id == digest::blake3_digest(
            recoder::recoded(pieces, scalars).data,
        ),
        linear::in_span(
            recoder::vectors(pieces),
            recoder::recoded(pieces, scalars).coding_vector,
        ),
{
    let vs = recoder::vectors(pieces);
    let ps = recoder::payloads(pieces);
    let k = blocks.len();
    let n = pieces[0].data.len();
    assert(linear::encodes(blocks, pieces[0].coding_vector, pieces[0].data));
    assert forall|j: int| 0 <= j < vs.len() implies linear::encodes(
        blocks,
        #[trigger] vs[j],
        ps[j],
    ) by {
        assert(linear::encodes(blocks, pieces[j].coding_vector, pieces[j].data));
    }
    lemma_sum_encodes(blocks, vs, ps, scalars, k, n, pieces.len() as int);
    assert(scalars.take(pieces.len() as int) =~= scalars);
    assert(vs.take(pieces.len() as int) =~= vs);
    assert(ps.take(pieces.len() as int) =~= ps);
    linear::lemma_span_combination(scalars, vs, k);
}

proof fn lemma_sum_encodes(
    blocks: Seq<Seq<u8>>,
    vs: Seq<Seq<u8>>,
    ps: Seq<Seq<u8>>,
    scalars: Seq<u8>,
    k: nat,
    n: nat,
    m: int,
)
    requires
        blocks.len() == k,
        vs.len() == ps.len(),
        scalars.len() == vs.len(),
        linear::rows_have(vs, k),
        linear::rows_have(ps, n),
        0 <= m <= vs.len(),
        forall|j: int| 0 <= j < vs.len() ==> linear::encodes(blocks, #[trigger] vs[j], ps[j]),
    ensures
        linear::encodes(
            blocks,
            linear::combination(scalars.take(m), vs.take(m), k),
            linear::combination(scalars.take(m), ps.take(m), n),
        ),
    decreases m,
{
    if m == 0 {
        encoder::lemma_sum_start(scalars, vs, k);
        encoder::lemma_sum_start(scalars, ps, n);
        let z = linear::zeros(k);
        assert forall|b: int| 0 <= b < n implies #[trigger] linear::zeros(n)[b]
            == linear::combination(z, blocks, n)[b] by {
            linear::lemma_dot_single(z, linear::column(blocks, b), -1);
        }
        assert(linear::zeros(n) =~= linear::combination(z, blocks, n));
    } else {
        lemma_sum_encodes(blocks, vs, ps, scalars, k, n, m - 1);
        encoder::lemma_sum_step(scalars, vs, m - 1, k);
        encoder::lemma_sum_step(scalars, ps, m - 1, n);
        linear::lemma_encodes_add_scaled(
            blocks,
            linear::combination(scalars.take(m - 1), vs.take(m - 1), k),
            linear::combination(scalars.take(m - 1), ps.take(m - 1), n),
            scalars[m - 1],
            vs[m - 1],
            ps[m - 1],
        );
    }
}

}
