//! What splits, products, combinations and pieces promise, part by part.

use crate::crypto::hommac;
use crate::outside::digest;
use crate::rlnc::decoder;
use crate::rlnc::encoder;
use crate::rlnc::encoder::RlncEncoder;
use crate::rlnc::engine;
use crate::rlnc::error::RlncError;
use crate::rlnc::field;
use crate::rlnc::laws;
use crate::rlnc::linear;
use crate::rlnc::recoder;
use crate::types;
use crate::types::piece;
use crate::types::piece::CodedPiece;
use crate::types::piece::PieceView;
use crate::types::text;
use vstd::prelude::*;

verus! {

/// Two pieces for each block, and sixteen more, as far as numbers reach; without blocks there
/// are no pieces.
pub proof fn lemma_target_number(k: u32)
    ensures
        k > 0 && 2 * k + 16 <= u32::MAX ==> encoder::target_spec(k as nat) == 2 * k + 16,
        2 * k + 16 > u32::MAX ==> encoder::target_spec(k as nat) == u32::MAX,
        k == 0 ==> encoder::target_spec(k as nat) == 0,
{
}

/// Blocks are as small as they can be: all of them hold the bytes, and blocks of one byte less
/// would not. Where there are no bytes a block has one.
pub proof fn lemma_block_size(total: nat, k: nat)
    requires
        k > 0,
    ensures
        k * encoder::block_len(total, k) >= total,
        total > 0 ==> k * (encoder::block_len(total, k) - 1) < total,
        total == 0 ==> encoder::block_len(total, k) == 1,
{
    if total > 0 {
        let x = total + k - 1;
        vstd::arithmetic::div_mod::lemma_fundamental_div_mod(x, k as int);
        let q = x / k as int;
        let r = x % k as int;
        assert(q >= 0) by (nonlinear_arith)
            requires
                k * q + r == x,
                x >= k,
                r < k,
                k > 0,
        ;
        assert(k * (q - 1) == k * q - k) by (nonlinear_arith);
    }
}

/// Every byte stands in one block, at its place in it, and the rest of the blocks is zero.
pub proof fn lemma_source_byte(data: Seq<u8>, k: nat, j: int, b: int)
    requires
        0 <= j < k,
        0 <= b < encoder::block_len(data.len(), k),
    ensures
        ({
            let size = encoder::block_len(data.len(), k);
            let blocks = encoder::source_blocks(data, k);
            let at = j * size + b;
            &&& blocks.len() == k
            &&& blocks[j].len() == size
            &&& at < data.len() ==> blocks[j][b] == data[at]
            &&& at >= data.len() ==> blocks[j][b] == 0
        }),
{
}

/// A product is doubled by shifting it, and reduced by the polynomial `x⁸ + x⁴ + x³ + x + 1`
/// where it overflows. Together with one, zero and the sums this fixes every product.
pub proof fn lemma_doubling(a: u8, b: u8)
    ensures
        a < 128 ==> field::gf_product(2, a) == 2 * a,
        a >= 128 ==> field::gf_product(2, a) == ((2 * a - 256) as u8) ^ 0x1b,
        field::gf_product(field::gf_product(2, a), b) == field::gf_product(
            2,
            field::gf_product(a, b),
        ),
{
    field::lemma_mul_associates(2, a, b);
    reveal(field::gf_product);
    assert(field::gf_product(2, a) == field::gf_xtime(a)) by (bit_vector);
    assert(a < 128 ==> field::gf_xtime(a) == 2 * a) by (bit_vector);
    assert(a >= 128 ==> field::gf_xtime(a) == ((2 * a - 256) as u8) ^ 0x1b) by (bit_vector);
}

/// Powers start with one and go on by the factor three.
pub proof fn lemma_powers(n: nat)
    ensures
        field::gf_power(0) == 1,
        field::gf_power(n + 1) == field::gf_product(field::gf_power(n), 3),
{
}

/// A combination of no rows is zero; one row more adds its entries times its coefficient.
pub proof fn lemma_combination_step(
    c: Seq<u8>,
    rows: Seq<Seq<u8>>,
    s: u8,
    row: Seq<u8>,
    n: nat,
    b: int,
)
    requires
        c.len() == rows.len(),
        0 <= b < n,
    ensures
        linear::combination(c, rows, n).len() == n,
        linear::combination(Seq::empty(), Seq::empty(), n)[b] == 0,
        linear::combination(c.push(s), rows.push(row), n)[b] == linear::combination(c, rows, n)[b]
            ^ field::gf_product(s, row[b]),
{
    linear::lemma_dot_push(c, linear::column(rows, b), s, row[b]);
    assert(linear::column(rows.push(row), b) =~= linear::column(rows, b).push(row[b]));
}

/// A row alone, with the coefficient one, is its own combination; so is one among others that
/// have the coefficient zero.
pub proof fn lemma_combination_of_one(c: Seq<u8>, rows: Seq<Seq<u8>>, p: int, n: nat, b: int)
    requires
        c.len() == rows.len(),
        0 <= p < c.len(),
        c[p] == 1,
        forall|q: int| 0 <= q < c.len() && q != p ==> #[trigger] c[q] == 0,
        0 <= b < n,
    ensures
        linear::combination(c, rows, n)[b] == rows[p][b],
{
    linear::lemma_dot_single(c, linear::column(rows, b), p);
    field::lemma_mul_one(rows[p][b]);
}

/// Rows are added and multiplied entry by entry.
pub proof fn lemma_entries(u: Seq<u8>, s: u8, v: Seq<u8>, i: int)
    requires
        u.len() == v.len(),
        0 <= i < u.len(),
    ensures
        linear::add_scaled(u, s, v).len() == u.len(),
        linear::add_scaled(u, s, v)[i] == u[i] ^ field::gf_product(s, v[i]),
        linear::scaled(s, u).len() == u.len(),
        linear::scaled(s, u)[i] == field::gf_product(s, u[i]),
        linear::zeros(u.len())[i] == 0,
{
}

/// Vectors and bytes are an encoding exactly if every byte is the sum of the blocks' bytes,
/// each times its coefficient.
pub proof fn lemma_encodes_bytes(blocks: Seq<Seq<u8>>, cv: Seq<u8>, data: Seq<u8>)
    requires
        cv.len() == blocks.len(),
    ensures
        linear::encodes(blocks, cv, data) <==> forall|b: int|
            0 <= b < data.len() ==> #[trigger] data[b] == linear::dot(
                cv,
                linear::column(blocks, b),
            ),
{
    let sum = linear::combination(cv, blocks, data.len());
    if forall|b: int|
        0 <= b < data.len() ==> #[trigger] data[b] == linear::dot(cv, linear::column(blocks, b)) {
        assert(data =~= sum);
    }
    if linear::encodes(blocks, cv, data) {
        assert forall|b: int| 0 <= b < data.len() implies #[trigger] data[b] == linear::dot(
            cv,
            linear::column(blocks, b),
        ) by {
            assert(sum[b] == linear::dot(cv, linear::column(blocks, b)));
        }
    }
}

/// An encoded piece belongs to the content, keeps its vector, has the combination of the
/// blocks as its bytes, their digest, and the digest of content, vector and bytes as its tag.
pub proof fn lemma_encoded(encoder: RlncEncoder, cv: Seq<u8>, b: int)
    ensures
        ({
            let p = encoder.encoded(cv);
            &&& p.cid == encoder.content()
            &&& p.coding_vector == cv
            &&& p.data.len() == encoder.block_size()
            &&& 0 <= b < p.data.len() ==> p.data[b] == linear::dot(
                cv,
                linear::column(encoder.blocks(), b),
            )
            &&& p.piece_id == digest::blake3_digest(p.data)
            &&& p.tag == digest::blake3_digest(encoder.content() + cv + p.data)
        }),
{
}

/// A recoded piece belongs to the content of the pieces, adds up their vectors and their bytes
/// with the same scalars, has the digest of its bytes, and a tag under the content that is
/// made of the tags of the pieces.
pub proof fn lemma_recoded(
    pieces: Seq<PieceView>,
    scalars: Seq<u8>,
    sums: Seq<Seq<u8>>,
    b: int,
)
    requires
        pieces.len() > 0,
        scalars.len() == pieces.len(),
        sums.len() == pieces.len() + 1,
        forall|i: int| 0 <= i < sums.len() ==> (#[trigger] sums[i]).len() == 32,
        forall|x: int| 0 <= x < 32 ==> #[trigger] sums[0][x] == 0,
        forall|i: int, x: int|
            0 <= i < pieces.len() && 0 <= x < 32 ==> sums[i + 1][x] == #[trigger] sums[i][x]
                ^ hommac::mac_product(scalars[i], pieces[i].tag[x]),
    ensures
        ({
            let p = recoder::recoded(pieces, scalars);
            &&& p.cid == pieces[0].cid
            &&& p.coding_vector.len() == pieces[0].coding_vector.len()
            &&& 0 <= b < p.coding_vector.len() ==> p.coding_vector[b] == linear::dot(
                scalars,
                Seq::new(pieces.len(), |j: int| pieces[j].coding_vector[b]),
            )
            &&& p.data.len() == pieces[0].data.len()
            &&& 0 <= b < p.data.len() ==> p.data[b] == linear::dot(
                scalars,
                Seq::new(pieces.len(), |j: int| pieces[j].data[b]),
            )
            &&& p.piece_id == digest::blake3_digest(p.data)
            &&& p.tag == digest::blake3_digest(
                pieces[0].cid + digest::blake3_digest(sums[pieces.len() as int] + scalars),
            )
        }),
{
    let p = recoder::recoded(pieces, scalars);
    if 0 <= b < p.coding_vector.len() {
        assert(linear::column(recoder::vectors(pieces), b) =~= Seq::new(
            pieces.len(),
            |j: int| pieces[j].coding_vector[b],
        ));
    }
    if 0 <= b < p.data.len() {
        assert(linear::column(recoder::payloads(pieces), b) =~= Seq::new(
            pieces.len(),
            |j: int| pieces[j].data[b],
        ));
    }
    hommac::lemma_combined_tag(pieces[0].cid, recoder::tags(pieces), scalars, sums);
}

/// Pieces belong to one content exactly if no two of them differ in it.
pub proof fn lemma_same_content(pieces: Seq<PieceView>)
    ensures
        recoder::same_content(pieces) <==> forall|i: int, j: int|
            0 <= i < pieces.len() && 0 <= j < pieces.len() ==> (#[trigger] pieces[i]).cid == (
            #[trigger] pieces[j]).cid,
{
}

/// Pieces have one shape exactly if no two of them differ in the length of vector or bytes.
pub proof fn lemma_same_shape(pieces: Seq<PieceView>)
    requires
        pieces.len() > 0,
    ensures
        recoder::same_shape(pieces) <==> forall|i: int|
            0 <= i < pieces.len() ==> (#[trigger] pieces[i]).coding_vector.len()
                == pieces[0].coding_vector.len() && pieces[i].data.len() == pieces[0].data.len(),
{
    let v = recoder::vectors(pieces);
    let d = recoder::payloads(pieces);
    if recoder::same_shape(pieces) {
        assert forall|i: int| 0 <= i < pieces.len() implies (
        #[trigger] pieces[i]).coding_vector.len() == pieces[0].coding_vector.len()
            && pieces[i].data.len() == pieces[0].data.len() by {
            assert(v[i].len() == pieces[0].coding_vector.len());
            assert(d[i].len() == pieces[0].data.len());
        }
    }
}

/// Pieces are seen one by one, in their order.
pub proof fn lemma_piece_views(pieces: Seq<CodedPiece>, i: int)
    requires
        0 <= i < pieces.len(),
    ensures
        piece::piece_views(pieces).len() == pieces.len(),
        piece::piece_views(pieces)[i].cid == pieces[i].cid@,
        piece::piece_views(pieces)[i].coding_vector == pieces[i].coding_vector@,
        piece::piece_views(pieces)[i].data == pieces[i].data@,
        piece::piece_views(pieces)[i].piece_id == pieces[i].piece_id@,
        piece::piece_views(pieces)[i].tag == pieces[i].hommac_tag@,
{
}

/// A counter adds up what it is told as far as numbers reach, and then begins again.
pub proof fn lemma_counted(count: u64, more: u64)
    ensures
        count + more <= u64::MAX ==> engine::counted(count, more) == count + more,
        count + more > u64::MAX ==> engine::counted(count, more) + u64::MAX + 1 == count + more,
{
}

/// Blocks are joined one behind the other.
pub proof fn lemma_joined(blocks: Seq<Seq<u8>>, block: Seq<u8>)
    ensures
        decoder::concat(Seq::empty()).len() == 0,
        decoder::concat(blocks.push(block)) == decoder::concat(blocks) + block,
{
    assert(blocks.push(block).drop_last() =~= blocks);
}

/// A piece is useful exactly if it has the shape of the generation and its vector is no
/// combination of those of the useful pieces before. It then stands behind them.
pub proof fn lemma_useful_step(pieces: Seq<PieceView>, p: PieceView, k: nat, size: nat)
    ensures
        laws::useful(Seq::empty(), k, size).len() == 0,
        ({
            let before = laws::useful(pieces, k, size);
            let is_new = p.coding_vector.len() == k && p.data.len() == size && forall|c: Seq<u8>|
                c.len() == before.len() ==> p.coding_vector != #[trigger] linear::combination(
                    c,
                    recoder::vectors(before),
                    k,
                );
            &&& is_new ==> laws::useful(pieces.push(p), k, size) == before.push(p)
            &&& !is_new ==> laws::useful(pieces.push(p), k, size) == before
        }),
{
    assert(pieces.push(p).drop_last() =~= pieces);
    let before = laws::useful(pieces, k, size);
    let rows = recoder::vectors(before);
    if linear::in_span(rows, p.coding_vector) && p.coding_vector.len() == k {
        let c = choose|c: Seq<u8>|
            c.len() == rows.len() && p.coding_vector == #[trigger] linear::combination(
                c,
                rows,
                p.coding_vector.len(),
            );
        assert(c.len() == before.len() && p.coding_vector == linear::combination(c, rows, k));
    }
}

/// A piece of some data tells its content, has no zero in its vector, and the sums of the blocks
/// under it as its bytes.
pub proof fn lemma_piece_of_data(p: PieceView, data: Seq<u8>, k: nat, b: int, j: int)
    requires
        laws::is_piece_of(p, data, k),
    ensures
        p.cid == digest::blake3_digest(data),
        p.coding_vector.len() == k,
        0 <= j < k ==> p.coding_vector[j] != 0,
        p.data.len() == encoder::block_len(data.len(), k),
        0 <= b < p.data.len() ==> p.data[b] == linear::dot(
            p.coding_vector,
            linear::column(encoder::source_blocks(data, k), b),
        ),
        p.piece_id == digest::blake3_digest(p.data),
        p.tag == digest::blake3_digest(p.cid + p.coding_vector + p.data),
{
    lemma_encodes_bytes(encoder::source_blocks(data, k), p.coding_vector, p.data);
}

/// What is told of an error holds all that the error carries.
pub proof fn lemma_error_told(e: RlncError)
    ensures
        e matches RlncError::InsufficientPieces { have, need } ==> text::holds(
            e.words(),
            text::decimal(have as nat),
        ) && text::holds(e.words(), text::decimal(need as nat)),
        e matches RlncError::DecodeFailed(s) ==> text::holds(e.words(), s@),
        e matches RlncError::InvalidPieceSize { expected, got } ==> text::holds(
            e.words(),
            text::decimal(expected as nat),
        ) && text::holds(e.words(), text::decimal(got as nat)),
        e matches RlncError::CodingVectorLengthMismatch { expected, got } ==> text::holds(
            e.words(),
            text::decimal(expected as nat),
        ) && text::holds(e.words(), text::decimal(got as nat)),
        e matches RlncError::InsufficientRecodeInputs { got } ==> text::holds(
            e.words(),
            text::decimal(got as nat),
        ),
{
    let none = Seq::<char>::empty();
    match e {
        RlncError::InsufficientPieces { have, need } => {
            types::laws::lemma_parts_held(
                "insufficient pieces: have "@,
                text::decimal(have as nat),
                ", need "@,
                text::decimal(need as nat),
                none,
            );
        },
        RlncError::DecodeFailed(s) => {
            types::laws::lemma_parts_held("decode failed: "@, s@, none, none, none);
        },
        RlncError::InvalidPieceSize { expected, got } => {
            types::laws::lemma_parts_held(
                "invalid piece size: expected "@,
                text::decimal(expected as nat),
                " bytes, got "@,
                text::decimal(got as nat),
                none,
            );
        },
        RlncError::CodingVectorLengthMismatch { expected, got } => {
            types::laws::lemma_parts_held(
                "coding vector length "@,
                text::decimal(got as nat),
                " does not match generation size "@,
                text::decimal(expected as nat),
                none,
            );
        },
        RlncError::InsufficientRecodeInputs { got } => {
            types::laws::lemma_parts_held(
                "recode requires at least 2 input pieces, got "@,
                text::decimal(got as nat),
                none,
                none,
                none,
            );
        },
        _ => {},
    }
}

}
