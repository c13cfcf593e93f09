//! Encoding: random linear combinations of the source blocks of a content.

use crate::crypto::hommac;
use crate::crypto::hommac::HomMacKey;
use crate::outside::digest;
use crate::outside::random;
use crate::rlnc::decoder;
use crate::rlnc::error::RlncError;
use crate::rlnc::gf256;
use crate::rlnc::linear;
use crate::types::cid::Cid;
use crate::types::piece;
use crate::types::piece::CodedPiece;
use vstd::prelude::*;

verus! {

/// `total / k`, rounded up.
pub open spec fn ceil_div(total: nat, k: nat) -> nat {
    ((total + k - 1) / k as int) as nat
}

/// The size of the source blocks of `total` bytes: one where there are none.
pub open spec fn block_len(total: nat, k: nat) -> nat {
    if total == 0 {
        1
    } else {
        ceil_div(total, k)
    }
}

/// Block `j` of size `size` of the data, filled up with zeros.
pub open spec fn source_block(data: Seq<u8>, size: nat, j: int) -> Seq<u8> {
    Seq::new(
        size,
        |b: int|
            if j * size + b < data.len() {
                data[j * size + b]
            } else {
                0
            },
    )
}

/// The `k` source blocks of the data.
pub open spec fn source_blocks(data: Seq<u8>, k: nat) -> Seq<Seq<u8>> {
    Seq::new(k, |j: int| source_block(data, block_len(data.len(), k), j))
}

proof fn lemma_ceil_div(total: nat, k: nat)
    requires
        k > 0,
    ensures
        ceil_div(total, k) == total / k + if total % k != 0 {
            1nat
        } else {
            0nat
        },
        ceil_div(total, k) * k >= total,
        total > 0 ==> ceil_div(total, k) >= 1,
{
    let q = total / k;
    let r = total % k;
    vstd::arithmetic::div_mod::lemma_fundamental_div_mod(total as int, k as int);
    if r == 0 {
        assert((total + k - 1) / k as int == q) by (nonlinear_arith)
            requires
                total == k * q,
                k > 0,
        ;
        assert(q * k >= total) by (nonlinear_arith)
            requires
                total == k * q,
        ;
        if total > 0 {
            assert(q >= 1) by (nonlinear_arith)
                requires
                    total == k * q,
                    total > 0,
            ;
        }
    } else {
        assert((total + k - 1) / k as int == q + 1) by (nonlinear_arith)
            requires
                total == k * q + r,
                0 < r < k,
        ;
        assert((q + 1) * k >= total) by (nonlinear_arith)
            requires
                total == k * q + r,
                0 < r < k,
        ;
    }
}

/// The blocks together hold the data first, and zeros behind it.
pub proof fn lemma_blocks_hold_data(data: Seq<u8>, k: nat)
    requires
        k > 0,
    ensures
        decoder::concat(source_blocks(data, k)).len() == k * block_len(data.len(), k),
        data.len() <= decoder::concat(source_blocks(data, k)).len(),
        decoder::concat(source_blocks(data, k)).take(data.len() as int) == data,
        forall|i: int|
            data.len() <= i < decoder::concat(source_blocks(data, k)).len()
                ==> #[trigger] decoder::concat(source_blocks(data, k))[i] == 0,
{
    let size = block_len(data.len(), k);
    let blocks = source_blocks(data, k);
    lemma_blocks_prefix(data, blocks, size, k);
    assert(blocks.take(k as int) =~= blocks);
    lemma_ceil_div(data.len(), k);
    assert(k * size == size * k) by (nonlinear_arith);
    if data.len() == 0 {
        assert(k * size >= 0) by (nonlinear_arith);
    }
    assert(decoder::concat(blocks).take(data.len() as int) =~= data);
}

proof fn lemma_blocks_prefix(data: Seq<u8>, blocks: Seq<Seq<u8>>, size: nat, n: nat)
    requires
        n <= blocks.len(),
        forall|j: int| 0 <= j < blocks.len() ==> #[trigger] blocks[j] == source_block(data, size, j),
    ensures
        decoder::concat(blocks.take(n as int)).len() == n * size,
        forall|i: int|
            0 <= i < n * size ==> #[trigger] decoder::concat(blocks.take(n as int))[i] == (if i
                < data.len() {
                data[i]
            } else {
                0
            }),
    decreases n,
{
    if n == 0 {
        assert(blocks.take(0).len() == 0);
        assert(n * size == 0) by (nonlinear_arith)
            requires
                n == 0,
        ;
    } else {
        let m = (n - 1) as nat;
        lemma_blocks_prefix(data, blocks, size, m);
        let all = blocks.take(n as int);
        assert(all.drop_last() =~= blocks.take(m as int));
        assert(all.last() == blocks[m as int]);
        assert(n * size == m * size + size) by (nonlinear_arith)
            requires
                n == m + 1,
        ;
        assert forall|i: int| 0 <= i < n * size implies #[trigger] decoder::concat(all)[i] == (if i
            < data.len() {
            data[i]
        } else {
            0
        }) by {
            if i >= m * size {
                assert(decoder::concat(all)[i] == blocks[m as int][i - m * size]);
            } else {
                assert(decoder::concat(all)[i] == decoder::concat(blocks.take(m as int))[i]);
            }
        }
    }
}

/// The target number of coded pieces: `k · (2 + 16/k)`, that is `2·k + 16`, capped at the
/// largest number; nothing for an empty generation.
pub open spec fn target_spec(k: nat) -> nat {
    if k == 0 {
        0
    } else if 2 * k + 16 > u32::MAX {
        u32::MAX as nat
    } else {
        2 * k + 16
    }
}

/// The target number of coded pieces for a generation of size `k`.
pub fn target_n(k: u32) -> (n: u32)
    ensures
        n == target_spec(k as nat),
{
    if k == 0 {
        0
    } else if k > (u32::MAX - 16) / 2 {
        u32::MAX
    } else {
        2 * k + 16
    }
}

/// Encodes one content.
pub struct RlncEncoder {
    k: u32,
    piece_size: usize,
    original_pieces: Vec<Vec<u8>>,
    cid: Cid,
}

impl RlncEncoder {
    /// Number of source blocks.
    pub closed spec fn generation(&self) -> nat {
        self.k as nat
    }

    /// Size of a source block.
    pub closed spec fn block_size(&self) -> nat {
        self.piece_size as nat
    }

    /// The source blocks.
    pub closed spec fn blocks(&self) -> Seq<Seq<u8>> {
        self.original_pieces@.map_values(|p: Vec<u8>| p@)
    }

    /// The identifier of the content.
    pub closed spec fn content(&self) -> Seq<u8> {
        self.cid@
    }

    /// There are as many blocks as the generation has, of one size.
    pub open spec fn wf(&self) -> bool {
        &&& self.generation() > 0
        &&& self.blocks().len() == self.generation()
        &&& linear::rows_have(self.blocks(), self.block_size())
    }

    /// The piece with a given coding vector.
    pub open spec fn encoded(&self, cv: Seq<u8>) -> piece::PieceView {
        let data = linear::combination(cv, self.blocks(), self.block_size());
        piece::piece_of(self.content(), cv, data, hommac::piece_tag(self.content(), cv, data))
    }

    /// Splits the data into `k` source blocks.
    pub fn new(data: &[u8], k: u32) -> (encoder: Result<RlncEncoder, RlncError>)
        ensures
            encoder is Ok <==> k != 0,
            encoder matches Err(e) ==> e == (RlncError::InsufficientPieces { have: 0, need: 1 }),
            encoder matches Ok(e) ==> {
                &&& e.wf()
                &&& e.generation() == k
                &&& e.block_size() == block_len(data@.len(), k as nat)
                &&& e.blocks() == source_blocks(data@, k as nat)
                &&& e.content() == digest::blake3_digest(data@)
            },
    {
        if k == 0 {
            return Err(RlncError::InsufficientPieces { have: 0, need: 1 });
        }
        let total: usize = data.len();
        proof {
            lemma_ceil_div(total as nat, k as nat);
        }
        let piece_size: usize = if total == 0 {
            1
        } else {
            let full: usize = total / k as usize;
            if total % k as usize == 0 {
                full
            } else {
                assert(full < total) by (nonlinear_arith)
                    requires
                        full == total / k as usize,
                        total % k as usize != 0,
                        k > 0,
                        total > 0,
                ;
                full + 1
            }
        };
        let mut original_pieces: Vec<Vec<u8>> = Vec::new();
        let mut cursor: usize = 0;
        let mut j: u32 = 0;
        while j < k
            invariant
                j <= k,
                total == data@.len(),
                cursor == if j * piece_size < total {
                    j * piece_size
                } else {
                    total as int
                },
                original_pieces@.len() == j,
                forall|i: int|
                    0 <= i < j ==> (#[trigger] original_pieces@[i])@ == source_block(
                        data@,
                        piece_size as nat,
                        i,
                    ),
            decreases k - j,
        {
            let mut block: Vec<u8> = Vec::new();
            let ghost base = j * piece_size;
            let mut b: usize = 0;
            while b < piece_size
                invariant
                    b <= piece_size,
                    total == data@.len(),
                    base == j * piece_size,
                    base >= 0,
                    cursor == if base + b < total {
                        base + b
                    } else {
                        total as int
                    },
                    block@.len() == b,
                    forall|i: int|
                        0 <= i < b ==> #[trigger] block@[i] == source_block(
                            data@,
                            piece_size as nat,
                            j as int,
                        )[i],
                decreases piece_size - b,
            {
                if cursor < total {
                    block.push(data[cursor]);
                    cursor = cursor + 1;
                } else {
                    block.push(0);
                }
                b = b + 1;
            }
            assert(block@ =~= source_block(data@, piece_size as nat, j as int));
            original_pieces.push(block);
            assert((j + 1) * piece_size == j * piece_size + piece_size) by (nonlinear_arith);
            j = j + 1;
        }
        let cid = Cid::from_data(data);
        let encoder = RlncEncoder { k, piece_size, original_pieces, cid };
        proof {
            assert(encoder.blocks() =~= source_blocks(data@, k as nat));
        }
        Ok(encoder)
    }

    /// The generation size.
    pub fn k(&self) -> (k: u32)
        ensures
            k == self.generation(),
    {
        self.k
    }

    /// The size of a source block.
    pub fn piece_size(&self) -> (size: usize)
        ensures
            size == self.block_size(),
    {
        self.piece_size
    }

    /// The source blocks.
    pub fn original_pieces(&self) -> (blocks: &Vec<Vec<u8>>)
        ensures
            blocks@.map_values(|b: Vec<u8>| b@) == self.blocks(),
    {
        &self.original_pieces
    }

    /// The identifier of the content.
    pub fn cid(&self) -> (cid: &Cid)
        ensures
            cid@ == self.content(),
    {
        &self.cid
    }

    /// The target number of coded pieces.
    pub fn target_pieces(&self) -> (n: u32)
        ensures
            n == target_spec(self.generation()),
    {
        target_n(self.k)
    }

    /// The piece with the given coding vector, tagged under the content's identifier.
    pub fn encode_with(&self, coding_vector: Vec<u8>) -> (result: CodedPiece)
        requires
            self.wf(),
            coding_vector@.len() == self.generation(),
        ensures
            result@ == self.encoded(coding_vector@),
    {
        let ghost cv = coding_vector@;
        let ghost blocks = self.blocks();
        let mut data: Vec<u8> = zero_bytes(self.piece_size);
        proof {
            lemma_sum_start(cv, blocks, self.block_size());
            assert(data@ =~= linear::zeros(self.block_size()));
        }
        let mut j: usize = 0;
        while j < self.original_pieces.len()
            invariant
                j <= self.original_pieces@.len(),
                self.wf(),
                blocks == self.blocks(),
                cv == coding_vector@,
                cv.len() == self.generation(),
                data@ == linear::combination(
                    cv.take(j as int),
                    blocks.take(j as int),
                    self.block_size(),
                ),
            decreases self.original_pieces@.len() - j,
        {
            let ghost before = data@;
            proof {
                assert(blocks[j as int] == self.original_pieces@[j as int]@);
            }
            gf256::gf_vec_mul_add(
                data.as_mut_slice(),
                self.original_pieces[j].as_slice(),
                coding_vector[j],
            );
            proof {
                lemma_sum_step(cv, blocks, j as int, self.block_size());
                assert(data@ =~= linear::add_scaled(before, cv[j as int], blocks[j as int]));
            }
            j = j + 1;
        }
        proof {
            assert(cv.take(cv.len() as int) =~= cv);
            assert(blocks.take(blocks.len() as int) =~= blocks);
        }
        let key = HomMacKey::from_bytes(*self.cid.as_bytes());
        let tag = hommac::compute_tag(&key, coding_vector.as_slice(), data.as_slice());
        CodedPiece::new(self.cid, coding_vector, data, tag)
    }

    /// A piece with a random coding vector, none of its entries zero.
    pub fn encode_piece(&self) -> (result: CodedPiece)
        requires
            self.wf(),
        ensures
            result@.coding_vector.len() == self.generation(),
            forall|j: int|
                0 <= j < self.generation() ==> #[trigger] result@.coding_vector[j] != 0,
            result@ == self.encoded(result@.coding_vector),
    {
        let coding_vector = random_scalars(self.k as usize);
        self.encode_with(coding_vector)
    }

    /// `n` pieces, each with a random coding vector.
    pub fn encode_n(&self, n: usize) -> (pieces: Vec<CodedPiece>)
        requires
            self.wf(),
        ensures
            pieces@.len() == n,
            forall|i: int|
                0 <= i < n ==> {
                    let piece = #[trigger] pieces@[i]@;
                    &&& piece.coding_vector.len() == self.generation()
                    &&& forall|j: int|
                        0 <= j < self.generation() ==> #[trigger] piece.coding_vector[j] != 0
                    &&& piece == self.encoded(piece.coding_vector)
                },
    {
        let mut pieces: Vec<CodedPiece> = Vec::new();
        let mut i: usize = 0;
        while i < n
            invariant
                i <= n,
                self.wf(),
                pieces@.len() == i,
                forall|i2: int|
                    0 <= i2 < i ==> {
                        let piece = #[trigger] pieces@[i2]@;
                        &&& piece.coding_vector.len() == self.generation()
                        &&& forall|j: int|
                            0 <= j < self.generation() ==> #[trigger] piece.coding_vector[j] != 0
                        &&& piece == self.encoded(piece.coding_vector)
                    },
            decreases n - i,
        {
            pieces.push(self.encode_piece());
            i = i + 1;
        }
        pieces
    }
}

/// `n` zero bytes.
pub fn zero_bytes(n: usize) -> (bytes: Vec<u8>)
    ensures
        bytes@ == linear::zeros(n as nat),
{
    let mut bytes: Vec<u8> = Vec::new();
    let mut i: usize = 0;
    while i < n
        invariant
            i <= n,
            bytes@ == linear::zeros(i as nat),
        decreases n - i,
    {
        bytes.push(0);
        i = i + 1;
        assert(bytes@ =~= linear::zeros(i as nat));
    }
    bytes
}

/// `n` random elements of the field, none of them zero.
pub fn random_scalars(n: usize) -> (scalars: Vec<u8>)
    ensures
        scalars@.len() == n,
        forall|j: int| 0 <= j < n ==> #[trigger] scalars@[j] != 0,
{
    let mut scalars: Vec<u8> = Vec::new();
    let mut i: usize = 0;
    while i < n
        invariant
            i <= n,
            scalars@.len() == i,
            forall|j: int| 0 <= j < i ==> #[trigger] scalars@[j] != 0,
        decreases n - i,
    {
        let mut c: u8 = random::random_byte();
        if c == 0 {
            c = random::random_nonzero_byte();
        }
        scalars.push(c);
        i = i + 1;
    }
    scalars
}

/// The combination of no rows.
pub proof fn lemma_sum_start(c: Seq<u8>, rows: Seq<Seq<u8>>, n: nat)
    ensures
        linear::combination(c.take(0), rows.take(0), n) == linear::zeros(n),
{
    assert(linear::combination(c.take(0), rows.take(0), n) =~= linear::zeros(n));
}

/// The combination of one row more.
pub proof fn lemma_sum_step(c: Seq<u8>, rows: Seq<Seq<u8>>, j: int, n: nat)
    requires
        c.len() == rows.len(),
        0 <= j < rows.len(),
        rows[j].len() == n,
    ensures
        linear::combination(c.take(j + 1), rows.take(j + 1), n) == linear::add_scaled(
            linear::combination(c.take(j), rows.take(j), n),
            c[j],
            rows[j],
        ),
{
    let a = linear::combination(c.take(j + 1), rows.take(j + 1), n);
    let b = linear::add_scaled(
        linear::combination(c.take(j), rows.take(j), n),
        c[j],
        rows[j],
    );
    assert forall|i: int| 0 <= i < n implies #[trigger] a[i] == b[i] by {
        assert(c.take(j + 1).drop_last() =~= c.take(j));
        assert(linear::column(rows.take(j + 1), i).drop_last() =~= linear::column(rows.take(j), i));
    }
    assert(a =~= b);
}

}
