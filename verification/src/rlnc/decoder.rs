//! Progressive decoding by Gaussian elimination.
//!
//! The decoder keeps an augmented matrix with one row slot for each source block. A row is
//! a coding vector followed by coded bytes. The row in slot `c` has its first entry other
//! than zero, a one, in column `c`.

use crate::rlnc::error::RlncError;
use crate::rlnc::field;
use crate::rlnc::gf256;
use crate::rlnc::linear;
use crate::types::bytes;
use crate::types::piece::CodedPiece;
use vstd::prelude::*;

verus! {

/// How many of the first `n` slots hold a row.
pub open spec fn filled(pivots: Seq<Option<usize>>, n: int) -> nat
    decreases n,
{
    if n <= 0 {
        0
    } else {
        filled(pivots, n - 1) + if pivots[n - 1] is Some {
            1nat
        } else {
            0nat
        }
    }
}

proof fn lemma_filled_bound(pivots: Seq<Option<usize>>, n: int)
    requires
        0 <= n <= pivots.len(),
    ensures
        filled(pivots, n) <= n,
        filled(pivots, n) == n ==> forall|r: int| 0 <= r < n ==> pivots[r] is Some,
        (forall|r: int| 0 <= r < n ==> pivots[r] is Some) ==> filled(pivots, n) == n,
    decreases n,
{
    if n > 0 {
        lemma_filled_bound(pivots, n - 1);
    }
}

proof fn lemma_filled_update(pivots: Seq<Option<usize>>, n: int, col: int)
    requires
        0 <= n <= pivots.len(),
        0 <= col < pivots.len(),
        pivots[col] is None,
    ensures
        filled(pivots.update(col, Some(col as usize)), n) == filled(pivots, n) + if col < n {
            1nat
        } else {
            0nat
        },
    decreases n,
{
    if n > 0 {
        lemma_filled_update(pivots, n - 1, col);
    }
}

/// The coding part of a row.
pub open spec fn left(row: Seq<u8>, k: nat) -> Seq<u8> {
    row.take(k as int)
}

/// The data part of a row.
pub open spec fn right(row: Seq<u8>, k: nat) -> Seq<u8> {
    row.skip(k as int)
}

/// Whether a row is an encoding of the source blocks.
pub open spec fn row_encodes(blocks: Seq<Seq<u8>>, row: Seq<u8>, k: nat) -> bool {
    linear::encodes(blocks, left(row, k), right(row, k))
}

/// All blocks, one behind the other.
pub open spec fn concat(blocks: Seq<Seq<u8>>) -> Seq<u8>
    decreases blocks.len(),
{
    if blocks.len() == 0 {
        Seq::empty()
    } else {
        concat(blocks.drop_last()) + blocks.last()
    }
}

/// Decodes a generation of `k` source blocks from coded pieces.
pub struct RlncDecoder {
    k: u32,
    piece_size: usize,
    matrix: Vec<Vec<u8>>,
    pivot_col: Vec<Option<usize>>,
    rank: u32,
    decoded: bool,
}

impl RlncDecoder {
    /// Number of source blocks.
    pub closed spec fn generation(&self) -> nat {
        self.k as nat
    }

    /// Size of a source block.
    pub closed spec fn block_size(&self) -> nat {
        self.piece_size as nat
    }

    /// Number of independent pieces received.
    pub closed spec fn dimension(&self) -> nat {
        self.rank as nat
    }

    /// Whether the blocks were decoded.
    pub closed spec fn finished(&self) -> bool {
        self.decoded
    }

    spec fn has_pivot(&self, r: int) -> bool {
        self.pivot_col@[r] is Some
    }

    /// The coding vectors of the rows, one for each slot; zero where the slot is empty.
    pub closed spec fn coding_rows(&self) -> Seq<Seq<u8>> {
        Seq::new(
            self.k as nat,
            |r: int|
                if self.pivot_col@[r] is Some {
                    left(self.matrix@[r]@, self.k as nat)
                } else {
                    linear::zeros(self.k as nat)
                },
        )
    }

    spec fn slot_ok(&self, r: int) -> bool {
        let row = self.matrix@[r]@;
        if self.pivot_col@[r] is Some {
            &&& self.pivot_col@[r] == Some(r as usize)
            &&& row.len() == self.k + self.piece_size
            &&& row[r] == 1
            &&& forall|j: int| 0 <= j < r ==> #[trigger] row[j] == 0
        } else {
            row.len() == 0
        }
    }

    /// Every row starts with a one in the column of its slot, and the rank counts the rows.
    pub closed spec fn wf(&self) -> bool {
        &&& self.matrix@.len() == self.k
        &&& self.pivot_col@.len() == self.k
        &&& self.rank == filled(self.pivot_col@, self.k as int)
        &&& forall|r: int| 0 <= r < self.k ==> #[trigger] self.slot_ok(r)
    }

    /// Whether the source blocks agree with everything that was received.
    pub closed spec fn solves(&self, blocks: Seq<Seq<u8>>) -> bool {
        &&& blocks.len() == self.k
        &&& linear::rows_have(blocks, self.piece_size as nat)
        &&& forall|r: int|
            0 <= r < self.k && self.has_pivot(r) ==> row_encodes(
                blocks,
                #[trigger] self.matrix@[r]@,
                self.k as nat,
            )
    }

    /// Whether a coding vector is a combination of those received.
    pub open spec fn spans(&self, cv: Seq<u8>) -> bool {
        cv.len() == self.generation() && linear::in_span(self.coding_rows(), cv)
    }

    /// An empty decoder.
    pub fn new(k: u32, piece_size: usize) -> (decoder: RlncDecoder)
        ensures
            decoder.wf(),
            decoder.generation() == k,
            decoder.block_size() == piece_size,
            decoder.dimension() == 0,
            !decoder.finished(),
            forall|blocks: Seq<Seq<u8>>|
                #[trigger] decoder.solves(blocks) <==> blocks.len() == k && linear::rows_have(
                    blocks,
                    piece_size as nat,
                ),
            forall|v: Seq<u8>| #[trigger] decoder.spans(v) <==> v == linear::zeros(k as nat),
    {
        let mut matrix: Vec<Vec<u8>> = Vec::new();
        let mut pivot_col: Vec<Option<usize>> = Vec::new();
        let mut i: u32 = 0;
        while i < k
            invariant
                i <= k,
                matrix@.len() == i,
                pivot_col@.len() == i,
                forall|r: int| 0 <= r < i ==> (#[trigger] matrix@[r])@.len() == 0,
                forall|r: int| 0 <= r < i ==> (#[trigger] pivot_col@[r]) is None,
                filled(pivot_col@, i as int) == 0,
            decreases k - i,
        {
            let ghost before = pivot_col@;
            matrix.push(Vec::new());
            pivot_col.push(None);
            proof {
                lemma_filled_same(before, pivot_col@, i as int);
            }
            i = i + 1;
        }
        let decoder = RlncDecoder { k, piece_size, matrix, pivot_col, rank: 0, decoded: false };
        proof {
            let rows = decoder.coding_rows();
            linear::lemma_span_zeros(rows, k as nat);
            assert forall|v: Seq<u8>| #[trigger] decoder.spans(v) implies v == linear::zeros(
                k as nat,
            ) by {
                let c = choose|c: Seq<u8>|
                    c.len() == rows.len() && v == #[trigger] linear::combination(
                        c,
                        rows,
                        v.len(),
                    );
                assert forall|b: int| 0 <= b < v.len() implies #[trigger] v[b] == 0 by {
                    let x = linear::column(rows, b);
                    assert(x =~= linear::zeros(k as nat));
                    linear::lemma_dot_single(c, x, -1);
                }
                assert(v =~= linear::zeros(k as nat));
            }
        }
        decoder
    }

    /// Adds a piece. The result tells whether its coding vector is independent of those
    /// received; a dependent piece changes nothing. After an independent one, the blocks
    /// that agree with everything received are those that did before and agree with the
    /// piece, and the coding vectors spanned are those that were after adding some multiple
    /// of the piece's.
    pub fn add_piece(&mut self, piece: &CodedPiece) -> (outcome: Result<bool, RlncError>)
        requires
            old(self).wf(),
        ensures
            final(self).wf(),
            final(self).generation() == old(self).generation(),
            final(self).block_size() == old(self).block_size(),
            final(self).finished() == old(self).finished(),
            match outcome {
                Err(RlncError::CodingVectorLengthMismatch { expected, got }) => {
                    &&& piece.coding_vector@.len() != old(self).generation()
                    &&& expected == old(self).generation()
                    &&& got == piece.coding_vector@.len()
                    &&& *final(self) == *old(self)
                },
                Err(RlncError::InvalidPieceSize { expected, got }) => {
                    &&& piece.coding_vector@.len() == old(self).generation()
                    &&& piece.data@.len() != old(self).block_size()
                    &&& expected == old(self).block_size()
                    &&& got == piece.data@.len()
                    &&& *final(self) == *old(self)
                },
                Err(_) => false,
                Ok(added) => {
                    &&& piece.coding_vector@.len() == old(self).generation()
                    &&& piece.data@.len() == old(self).block_size()
                    &&& added == !old(self).spans(piece.coding_vector@)
                    &&& !added ==> *final(self) == *old(self)
                    &&& added ==> {
                        &&& final(self).dimension() == old(self).dimension() + 1
                        &&& forall|blocks: Seq<Seq<u8>>| #[trigger]
                            final(self).solves(blocks) <==> old(self).solves(blocks)
                                && linear::encodes(blocks, piece.coding_vector@, piece.data@)
                        &&& forall|v: Seq<u8>| #[trigger]
                            final(self).spans(v) <==> exists|s: u8| #[trigger]
                                old(self).spans(linear::add_scaled(v, s, piece.coding_vector@))
                    }
                },
            },
    {
        let k: usize = self.k as usize;
        if piece.coding_vector.len() != k {
            return Err(
                RlncError::CodingVectorLengthMismatch {
                    expected: k,
                    got: piece.coding_vector.len(),
                },
            );
        }
        if piece.data.len() != self.piece_size {
            return Err(
                RlncError::InvalidPieceSize { expected: self.piece_size, got: piece.data.len() },
            );
        }
        let ghost cv = piece.coding_vector@;
        let ghost rows = self.coding_rows();
        let mut row: Vec<u8> = bytes::copy_bytes(piece.coding_vector.as_slice());
        bytes::append_bytes(&mut row, piece.data.as_slice());
        let ghost row0 = row@;
        let ghost mut c: Seq<u8> = linear::zeros(k as nat);
        proof {
            assert(left(row0, k as nat) =~= cv);
            assert(right(row0, k as nat) =~= piece.data@);
            lemma_start(cv, rows, k as nat);
        }
        let mut r: usize = 0;
        while r < k
            invariant
                r <= k,
                k == self.k,
                *self == *old(self),
                self.wf(),
                rows == self.coding_rows(),
                cv.len() == k,
                c.len() == k,
                row@.len() == k + self.piece_size,
                row0.len() == k + self.piece_size,
                left(row@, k as nat) == linear::add_scaled(
                    cv,
                    1,
                    linear::combination(c, rows, k as nat),
                ),
                forall|p: int| 0 <= p < r && self.has_pivot(p) ==> #[trigger] row@[p] == 0,
                forall|blocks: Seq<Seq<u8>>| #[trigger]
                    self.solves(blocks) ==> (row_encodes(blocks, row@, k as nat) <==> row_encodes(
                        blocks,
                        row0,
                        k as nat,
                    )),
            decreases k - r,
        {
            proof {
                assert(self.slot_ok(r as int));
            }
            if let Some(col) = self.pivot_col[r] {
                let coeff: u8 = row[col];
                if coeff != 0 {
                    let ghost before = row@;
                    gf256::gf_vec_mul_add(row.as_mut_slice(), self.matrix[r].as_slice(), coeff);
                    proof {
                        let prow = self.matrix@[r as int]@;
                        assert(row@ =~= linear::add_scaled(before, coeff, prow));
                        assert(rows[r as int] == left(prow, k as nat));
                        assert(left(row@, k as nat) =~= linear::add_scaled(
                            left(before, k as nat),
                            coeff,
                            rows[r as int],
                        ));
                        lemma_reduce_step(cv, c, rows, r as int, coeff, k as nat);
                        c = c.update(r as int, c[r as int] ^ coeff);
                        assert forall|p: int|
                            0 <= p < r + 1 && self.has_pivot(p) implies #[trigger] row@[p] == 0 by {
                            if p == r {
                                field::lemma_mul_one(coeff);
                                field::lemma_add_zero(coeff);
                            } else {
                                assert(prow[p] == 0);
                                assert(before[p] == 0);
                                field::lemma_mul_zero(coeff);
                                field::lemma_add_zero(0);
                            }
                        }
                        assert forall|blocks: Seq<Seq<u8>>| #[trigger]
                            self.solves(blocks) implies (row_encodes(blocks, row@, k as nat)
                            <==> row_encodes(blocks, row0, k as nat)) by {
                            assert(self.has_pivot(r as int));
                            assert(row_encodes(blocks, self.matrix@[r as int]@, k as nat));
                            lemma_row_step(blocks, before, coeff, prow, k as nat);
                        }
                    }
                }
            }
            r = r + 1;
        }
        let ghost w = left(row@, k as nat);
        let mut col: usize = 0;
        while col < k && row[col] == 0
            invariant
                col <= k,
                k <= row@.len(),
                forall|j: int| 0 <= j < col ==> #[trigger] row@[j] == 0,
            decreases k - col,
        {
            col = col + 1;
        }
        if col == k {
            proof {
                let m = linear::combination(c, rows, cv.len());
                assert forall|i: int| 0 <= i < k implies #[trigger] cv[i] == m[i] by {
                    assert(w[i] == row@[i]);
                    field::lemma_mul_one(m[i]);
                    field::lemma_add_cancels(cv[i], m[i]);
                }
                assert(cv =~= m);
            }
            return Ok(false);
        }
        proof {
            assert(w[col as int] == row@[col as int]);
            if self.spans(cv) {
                let m = linear::combination(c, rows, k as nat);
                linear::lemma_span_combination(c, rows, k as nat);
                linear::lemma_span_add_scaled(rows, cv, 1, m);
                self.lemma_rows_ok();
                assert forall|p: int| 0 <= p < k && self.pivot_col@[p] is Some implies #[trigger] w[p]
                    == 0 by {
                    assert(self.has_pivot(p));
                    assert(row@[p] == 0);
                }
                lemma_only_zero(rows, self.pivot_col@, k as nat, w);
                assert(false);
            }
            assert(!self.has_pivot(col as int)) by {
                if self.has_pivot(col as int) {
                    assert(row@[col as int] == 0);
                }
            }
        }
        let lead: u8 = row[col];
        let inv: u8 = gf256::gf_inv(lead);
        let ghost reduced = row@;
        let mut i: usize = 0;
        while i < row.len()
            invariant
                i <= row@.len(),
                row@.len() == reduced.len(),
                forall|j: int| i <= j < row@.len() ==> row@[j] == reduced[j],
                forall|j: int|
                    0 <= j < i ==> #[trigger] row@[j] == field::gf_product(inv, reduced[j]),
            decreases row@.len() - i,
        {
            proof {
                field::lemma_mul_commutes(reduced[i as int], inv);
            }
            let scaled: u8 = gf256::gf_mul(row[i], inv);
            row[i] = scaled;
            i = i + 1;
        }
        let ghost pivots = self.pivot_col@;
        proof {
            assert(row@ =~= linear::scaled(inv, reduced));
            assert(self.slot_ok(col as int));
            lemma_filled_bound(pivots, k as int);
            lemma_filled_update(pivots, k as int, col as int);
        }
        self.matrix[col] = row;
        self.pivot_col[col] = Some(col);
        self.rank = self.rank + 1;
        proof {
            let stored = self.matrix@[col as int]@;
            field::lemma_mul_commutes(lead, inv);
            field::lemma_mul_zero(inv);
            assert(stored == linear::scaled(inv, reduced));
            assert forall|q: int| 0 <= q < k implies #[trigger] self.slot_ok(q) by {
                assert(old(self).slot_ok(q));
                if q == col {
                    assert forall|j: int| 0 <= j < q implies #[trigger] stored[j] == 0 by {
                        assert(reduced[j] == 0);
                    }
                }
            }
            assert forall|blocks: Seq<Seq<u8>>| #[trigger]
                self.solves(blocks) <==> old(self).solves(blocks) && linear::encodes(
                    blocks,
                    cv,
                    piece.data@,
                ) by {
                old(self).lemma_solves_after(
                    *self,
                    blocks,
                    col as int,
                    reduced,
                    inv,
                    lead,
                );
            }
            assert(self.coding_rows() =~= rows.update(col as int, linear::scaled(inv, w))) by {
                assert(left(stored, k as nat) =~= linear::scaled(inv, w));
            }
            old(self).lemma_rows_ok();
            assert forall|v: Seq<u8>| #[trigger] self.spans(v) <==> exists|s: u8| #[trigger]
                old(self).spans(linear::add_scaled(v, s, cv)) by {
                if v.len() == k {
                    lemma_span_after(rows, col as int, k as nat, cv, c, inv, lead, v);
                    if self.spans(v) {
                        let s = choose|s: u8|
                            linear::in_span(rows, #[trigger] linear::add_scaled(v, s, cv));
                        assert(old(self).spans(linear::add_scaled(v, s, cv)));
                    }
                }
            }
        }
        Ok(true)
    }

    /// The generation size.
    pub fn k(&self) -> (k: u32)
        ensures
            k == self.generation(),
    {
        self.k
    }

    /// The number of independent pieces received.
    pub fn rank(&self) -> (rank: u32)
        ensures
            rank == self.dimension(),
    {
        self.rank
    }

    /// Whether enough independent pieces were received.
    pub fn is_decodable(&self) -> (ready: bool)
        ensures
            ready == (self.dimension() == self.generation()),
    {
        self.rank == self.k
    }

    /// Whether the blocks were decoded.
    pub fn is_decoded(&self) -> (done: bool)
        ensures
            done == self.finished(),
    {
        self.decoded
    }

    /// Recovers the source blocks from as many independent pieces. The result is the
    /// concatenation of the one list of blocks that agrees with everything received.
    pub fn decode(&mut self) -> (outcome: Result<Vec<u8>, RlncError>)
        requires
            old(self).wf(),
        ensures
            final(self).wf(),
            final(self).generation() == old(self).generation(),
            final(self).block_size() == old(self).block_size(),
            final(self).dimension() == old(self).dimension(),
            match outcome {
                Err(RlncError::InsufficientPieces { have, need }) => {
                    &&& old(self).dimension() < old(self).generation()
                    &&& have == old(self).dimension()
                    &&& need == old(self).generation()
                    &&& *final(self) == *old(self)
                },
                Err(_) => false,
                Ok(data) => {
                    &&& old(self).dimension() == old(self).generation()
                    &&& final(self).finished()
                    &&& forall|blocks: Seq<Seq<u8>>| #[trigger]
                        final(self).solves(blocks) <==> old(self).solves(blocks)
                    &&& forall|blocks: Seq<Seq<u8>>| #[trigger]
                        old(self).solves(blocks) ==> data@ == concat(blocks)
                    &&& exists|blocks: Seq<Seq<u8>>| #[trigger] old(self).solves(blocks)
                },
            },
    {
        let k: usize = self.k as usize;
        proof {
            lemma_filled_bound(self.pivot_col@, k as int);
        }
        if self.rank < self.k {
            return Err(RlncError::InsufficientPieces { have: self.rank, need: self.k });
        }
        let mut col: usize = k;
        while col > 0
            invariant
                col <= k,
                k == self.k,
                self.wf(),
                self.k == old(self).k,
                self.piece_size == old(self).piece_size,
                self.rank == old(self).rank,
                self.decoded == old(self).decoded,
                forall|r: int| 0 <= r < k ==> (#[trigger] self.pivot_col@[r]) is Some,
                forall|blocks: Seq<Seq<u8>>| #[trigger]
                    self.solves(blocks) <==> old(self).solves(blocks),
                forall|r: int, j: int|
                    0 <= r < j < k && col <= j ==> #[trigger] self.matrix@[r]@[j] == 0,
            decreases col,
        {
            col = col - 1;
            let mut row: usize = 0;
            while row < col
                invariant
                    row <= col,
                    col < k,
                    k == self.k,
                    self.wf(),
                    self.k == old(self).k,
                    self.piece_size == old(self).piece_size,
                    self.rank == old(self).rank,
                    self.decoded == old(self).decoded,
                    forall|r: int| 0 <= r < k ==> (#[trigger] self.pivot_col@[r]) is Some,
                    forall|blocks: Seq<Seq<u8>>| #[trigger]
                        self.solves(blocks) <==> old(self).solves(blocks),
                    forall|r: int, j: int|
                        0 <= r < j < k && (col < j || (col == j && r < row))
                            ==> #[trigger] self.matrix@[r]@[j] == 0,
                decreases col - row,
            {
                let ghost before = *self;
                proof {
                    assert(self.slot_ok(row as int));
                    assert(self.slot_ok(col as int));
                }
                let coeff: u8 = self.matrix[row][col];
                if coeff != 0 {
                    let pivot_row: Vec<u8> = bytes::copy_bytes(self.matrix[col].as_slice());
                    let mut target: Vec<u8> = bytes::copy_bytes(self.matrix[row].as_slice());
                    let ghost source = target@;
                    gf256::gf_vec_mul_add(target.as_mut_slice(), pivot_row.as_slice(), coeff);
                    self.matrix[row] = target;
                    proof {
                        assert(self.matrix@[row as int]@ =~= linear::add_scaled(
                            source,
                            coeff,
                            pivot_row@,
                        ));
                        before.lemma_eliminate(*self, row as int, col as int, coeff);
                        assert forall|blocks: Seq<Seq<u8>>| #[trigger]
                            self.solves(blocks) <==> old(self).solves(blocks) by {
                            assert(before.solves(blocks) <==> old(self).solves(blocks));
                        }
                        assert forall|r: int, j: int|
                            0 <= r < j < k && (col < j || (col == j && r
                                < row + 1)) implies #[trigger] self.matrix@[r]@[j] == 0 by {
                            if r == row {
                                field::lemma_mul_one(coeff);
                                field::lemma_mul_zero(coeff);
                                field::lemma_add_zero(coeff);
                                field::lemma_add_zero(0);
                                if j > col {
                                    assert(before.matrix@[row as int]@[j] == 0);
                                    assert(before.matrix@[col as int]@[j] == 0);
                                }
                            } else {
                                assert(before.matrix@[r]@[j] == 0);
                            }
                        }
                    }
                }
                row = row + 1;
            }
        }
        let ghost rights = Seq::new(k as nat, |r: int| right(self.matrix@[r]@, k as nat));
        let mut data: Vec<u8> = Vec::new();
        let mut slot: usize = 0;
        while slot < k
            invariant
                slot <= k,
                k == self.k,
                self.wf(),
                forall|r: int| 0 <= r < k ==> (#[trigger] self.pivot_col@[r]) is Some,
                rights == Seq::new(k as nat, |r: int| right(self.matrix@[r]@, k as nat)),
                data@ == concat(rights.take(slot as int)),
            decreases k - slot,
        {
            proof {
                assert(self.slot_ok(slot as int));
            }
            let row: &Vec<u8> = &self.matrix[slot];
            let part = vstd::slice::slice_subrange(row.as_slice(), k, row.len());
            bytes::append_bytes(&mut data, part);
            proof {
                assert(part@ =~= rights[slot as int]);
                assert(rights.take(slot as int + 1).drop_last() =~= rights.take(slot as int));
            }
            slot = slot + 1;
        }
        proof {
            assert(rights.take(k as int) =~= rights);
            self.lemma_identity(rights);
            assert(old(self).solves(rights));
            assert forall|blocks: Seq<Seq<u8>>| #[trigger] old(self).solves(blocks) implies data@
                == concat(blocks) by {
                assert(self.solves(blocks));
                self.lemma_identity(blocks);
            }
        }
        let ghost before = *self;
        self.decoded = true;
        proof {
            assert forall|r: int| 0 <= r < k implies #[trigger] self.slot_ok(r) by {
                assert(before.slot_ok(r));
            }
            assert forall|blocks: Seq<Seq<u8>>| #[trigger] self.solves(blocks) <==> old(
                self,
            ).solves(blocks) by {
                before.lemma_same_solutions(*self, blocks);
                assert(before.solves(blocks) <==> old(self).solves(blocks));
            }
        }
        Ok(data)
    }

    proof fn lemma_same_solutions(&self, other: RlncDecoder, blocks: Seq<Seq<u8>>)
        requires
            self.k == other.k,
            self.piece_size == other.piece_size,
            self.matrix@ == other.matrix@,
            self.pivot_col@ == other.pivot_col@,
        ensures
            self.solves(blocks) <==> other.solves(blocks),
    {
        if self.solves(blocks) {
            assert forall|r: int| 0 <= r < other.k && other.has_pivot(r) implies row_encodes(
                blocks,
                #[trigger] other.matrix@[r]@,
                other.k as nat,
            ) by {
                assert(self.has_pivot(r));
                assert(row_encodes(blocks, self.matrix@[r]@, self.k as nat));
            }
        }
        if other.solves(blocks) {
            assert forall|r: int| 0 <= r < self.k && self.has_pivot(r) implies row_encodes(
                blocks,
                #[trigger] self.matrix@[r]@,
                self.k as nat,
            ) by {
                assert(other.has_pivot(r));
                assert(row_encodes(blocks, other.matrix@[r]@, other.k as nat));
            }
        }
    }

    proof fn lemma_eliminate(&self, after: RlncDecoder, row: int, col: int, coeff: u8)
        requires
            self.wf(),
            0 <= row < col < self.k,
            self.has_pivot(row),
            self.has_pivot(col),
            after.k == self.k,
            after.piece_size == self.piece_size,
            after.rank == self.rank,
            after.pivot_col@ == self.pivot_col@,
            after.matrix@.len() == self.k,
            forall|r: int| 0 <= r < self.k && r != row ==> after.matrix@[r] == self.matrix@[r],
            after.matrix@[row]@ == linear::add_scaled(
                self.matrix@[row]@,
                coeff,
                self.matrix@[col]@,
            ),
        ensures
            after.wf(),
            forall|blocks: Seq<Seq<u8>>| #[trigger]
                after.solves(blocks) <==> self.solves(blocks),
    {
        let k = self.k as nat;
        assert(self.slot_ok(row));
        assert(self.slot_ok(col));
        assert forall|q: int| 0 <= q < after.k implies #[trigger] after.slot_ok(q) by {
            assert(self.slot_ok(q));
            if q == row {
                field::lemma_mul_zero(coeff);
                field::lemma_add_zero(1);
                field::lemma_add_zero(0);
                assert(self.matrix@[col]@[row] == 0);
                assert forall|j: int| 0 <= j < q implies #[trigger] after.matrix@[row]@[j] == 0 by {
                    assert(self.matrix@[row]@[j] == 0);
                    assert(self.matrix@[col]@[j] == 0);
                }
            }
        }
        assert forall|blocks: Seq<Seq<u8>>| #[trigger] after.solves(blocks) <==> self.solves(
            blocks,
        ) by {
            if self.solves(blocks) || after.solves(blocks) {
                assert(after.has_pivot(col) && after.has_pivot(row));
                assert(row_encodes(blocks, self.matrix@[col]@, k)) by {
                    assert(self.matrix@[col]@ == after.matrix@[col]@);
                }
                lemma_row_step(blocks, self.matrix@[row]@, coeff, self.matrix@[col]@, k);
                if self.solves(blocks) {
                    assert forall|r: int| 0 <= r < after.k && after.has_pivot(r) implies row_encodes(
                        blocks,
                        #[trigger] after.matrix@[r]@,
                        k,
                    ) by {
                        assert(self.has_pivot(r));
                        assert(row_encodes(blocks, self.matrix@[r]@, k));
                    }
                } else {
                    assert forall|r: int| 0 <= r < self.k && self.has_pivot(r) implies row_encodes(
                        blocks,
                        #[trigger] self.matrix@[r]@,
                        k,
                    ) by {
                        assert(after.has_pivot(r));
                        assert(row_encodes(blocks, after.matrix@[r]@, k));
                    }
                }
            }
        }
    }

    /// Where the coding parts of the rows are the identity, the data parts are the blocks.
    proof fn lemma_identity(&self, blocks: Seq<Seq<u8>>)
        requires
            self.wf(),
            forall|r: int| 0 <= r < self.k ==> (#[trigger] self.pivot_col@[r]) is Some,
            forall|r: int, j: int| 0 <= r < j < self.k ==> #[trigger] self.matrix@[r]@[j] == 0,
        ensures
            self.solves(blocks) <==> blocks == Seq::new(
                self.k as nat,
                |r: int| right(self.matrix@[r]@, self.k as nat),
            ),
    {
        let k = self.k as nat;
        let rights = Seq::new(k, |r: int| right(self.matrix@[r]@, k));
        assert forall|r: int| 0 <= r < k implies (#[trigger] rights[r]).len()
            == self.piece_size by {
            assert(self.slot_ok(r));
        }
        if blocks.len() == k && linear::rows_have(blocks, self.piece_size as nat) {
            assert forall|r: int| 0 <= r < k implies (row_encodes(
                blocks,
                #[trigger] self.matrix@[r]@,
                k,
            ) <==> blocks[r] == rights[r]) by {
                assert(self.slot_ok(r));
                let row = self.matrix@[r]@;
                let cv = left(row, k);
                let data = right(row, k);
                assert forall|b: int| 0 <= b < data.len() implies #[trigger] linear::combination(
                    cv,
                    blocks,
                    data.len(),
                )[b] == blocks[r][b] by {
                    let x = linear::column(blocks, b);
                    assert forall|q: int| 0 <= q < cv.len() && q != r implies #[trigger] cv[q] == 0
                        || x[q] == 0 by {
                        assert(cv[q] == row[q]);
                        if q > r {
                            assert(self.matrix@[r]@[q] == 0);
                        }
                    }
                    linear::lemma_dot_single(cv, x, r);
                    field::lemma_mul_one(x[r]);
                }
                assert(linear::combination(cv, blocks, data.len()) =~= blocks[r]);
            }
            if self.solves(blocks) {
                assert forall|r: int| 0 <= r < k implies #[trigger] blocks[r] == rights[r] by {
                    assert(self.has_pivot(r));
                    assert(row_encodes(blocks, self.matrix@[r]@, k));
                }
                assert(blocks =~= rights);
            }
            if blocks == rights {
                assert(self.solves(blocks));
            }
        }
    }

    /// The rank never exceeds the generation size.
    pub proof fn lemma_rank_bound(&self)
        requires
            self.wf(),
        ensures
            self.dimension() <= self.generation(),
    {
        lemma_filled_bound(self.pivot_col@, self.k as int);
    }

    /// A complete decoder spans every coding vector, so every further piece is dependent.
    pub proof fn lemma_complete(&self, v: Seq<u8>)
        requires
            self.wf(),
            self.dimension() == self.generation(),
            v.len() == self.generation(),
        ensures
            self.spans(v),
    {
        lemma_filled_bound(self.pivot_col@, self.k as int);
        self.lemma_rows_ok();
        lemma_triangular_spans(self.coding_rows(), self.pivot_col@, self.k as nat, v, 0);
    }

    /// A decoder that is not complete misses some coding vector, so some piece is still
    /// independent.
    pub proof fn lemma_incomplete(&self) -> (v: Seq<u8>)
        requires
            self.wf(),
            self.dimension() < self.generation(),
        ensures
            v.len() == self.generation(),
            !self.spans(v),
    {
        let k = self.k as nat;
        lemma_filled_bound(self.pivot_col@, k as int);
        let p = choose|p: int| 0 <= p < k && !(self.pivot_col@[p] is Some);
        let v = linear::zeros(k).update(p, 1);
        self.lemma_rows_ok();
        if self.spans(v) {
            lemma_only_zero(self.coding_rows(), self.pivot_col@, k, v);
            assert(v[p] == 0);
        }
        v
    }

    proof fn lemma_rows_ok(&self)
        requires
            self.wf(),
        ensures
            echelon(self.coding_rows(), self.pivot_col@, self.k as nat),
    {
        let rows = self.coding_rows();
        assert forall|r: int| 0 <= r < self.k implies #[trigger] echelon_row(
            rows[r],
            self.pivot_col@[r] is Some,
            r,
            self.k as nat,
        ) by {
            assert(self.slot_ok(r));
            if self.pivot_col@[r] is Some {
                assert forall|j: int| 0 <= j < r implies #[trigger] rows[r][j] == 0 by {
                    assert(self.matrix@[r]@[j] == 0);
                }
            }
        }
    }

    proof fn lemma_solves_after(
        &self,
        after: RlncDecoder,
        blocks: Seq<Seq<u8>>,
        col: int,
        reduced: Seq<u8>,
        inv: u8,
        lead: u8,
    )
        requires
            self.wf(),
            0 <= col < self.k,
            !self.has_pivot(col),
            after.k == self.k,
            after.piece_size == self.piece_size,
            after.matrix@.len() == self.k,
            after.pivot_col@ == self.pivot_col@.update(col, Some(col as usize)),
            forall|r: int| 0 <= r < self.k && r != col ==> after.matrix@[r] == self.matrix@[r],
            after.matrix@[col]@ == linear::scaled(inv, reduced),
            reduced.len() == self.k + self.piece_size,
            field::gf_product(lead, inv) == 1,
        ensures
            after.solves(blocks) <==> self.solves(blocks) && row_encodes(
                blocks,
                reduced,
                self.k as nat,
            ),
    {
        let k = self.k as nat;
        let stored = linear::scaled(inv, reduced);
        assert(left(stored, k) =~= linear::scaled(inv, left(reduced, k)));
        assert(right(stored, k) =~= linear::scaled(inv, right(reduced, k)));
        if after.solves(blocks) {
            assert(after.has_pivot(col));
            assert(row_encodes(blocks, after.matrix@[col]@, k));
            linear::lemma_encodes_scaled(blocks, left(stored, k), right(stored, k), lead);
            linear::lemma_scaled_back(lead, inv, left(reduced, k));
            linear::lemma_scaled_back(lead, inv, right(reduced, k));
            assert forall|r: int| 0 <= r < self.k && self.has_pivot(r) implies row_encodes(
                blocks,
                #[trigger] self.matrix@[r]@,
                k,
            ) by {
                assert(after.has_pivot(r));
                assert(row_encodes(blocks, after.matrix@[r]@, k));
            }
        }
        if self.solves(blocks) && row_encodes(blocks, reduced, k) {
            linear::lemma_encodes_scaled(blocks, left(reduced, k), right(reduced, k), inv);
            assert forall|r: int| 0 <= r < after.k && after.has_pivot(r) implies row_encodes(
                blocks,
                #[trigger] after.matrix@[r]@,
                k,
            ) by {
                if r != col {
                    assert(self.has_pivot(r));
                    assert(row_encodes(blocks, self.matrix@[r]@, k));
                }
            }
        }
    }
}

/// Whether a slot holds a row that starts with a one in its column, or nothing.
spec fn echelon_row(row: Seq<u8>, present: bool, r: int, k: nat) -> bool {
    &&& row.len() == k
    &&& present ==> row[r] == 1 && forall|j: int| 0 <= j < r ==> #[trigger] row[j] == 0
    &&& !present ==> row == linear::zeros(k)
}

spec fn echelon(rows: Seq<Seq<u8>>, pivots: Seq<Option<usize>>, k: nat) -> bool {
    &&& rows.len() == k
    &&& pivots.len() == k
    &&& forall|r: int|
        0 <= r < k ==> #[trigger] echelon_row(rows[r], pivots[r] is Some, r, k)
}

proof fn lemma_start(cv: Seq<u8>, rows: Seq<Seq<u8>>, k: nat)
    requires
        cv.len() == k,
        rows.len() == k,
    ensures
        cv == linear::add_scaled(cv, 1, linear::combination(linear::zeros(k), rows, k)),
{
    let m = linear::combination(linear::zeros(k), rows, k);
    assert forall|i: int| 0 <= i < k implies #[trigger] cv[i] == linear::add_scaled(
        cv,
        1,
        m,
    )[i] by {
        linear::lemma_dot_single(linear::zeros(k), linear::column(rows, i), -1);
        field::lemma_mul_zero(1);
        field::lemma_add_zero(cv[i]);
    }
    assert(cv =~= linear::add_scaled(cv, 1, m));
}

proof fn lemma_reduce_step(
    cv: Seq<u8>,
    c: Seq<u8>,
    rows: Seq<Seq<u8>>,
    r: int,
    coeff: u8,
    k: nat,
)
    requires
        cv.len() == k,
        c.len() == k,
        rows.len() == k,
        0 <= r < k,
        rows[r].len() == k,
    ensures
        linear::add_scaled(
            linear::add_scaled(cv, 1, linear::combination(c, rows, k)),
            coeff,
            rows[r],
        ) == linear::add_scaled(
            cv,
            1,
            linear::combination(c.update(r, c[r] ^ coeff), rows, k),
        ),
{
    let m = linear::combination(c, rows, k);
    let d = c.update(r, c[r] ^ coeff);
    let m2 = linear::combination(d, rows, k);
    let a = linear::add_scaled(linear::add_scaled(cv, 1, m), coeff, rows[r]);
    let b = linear::add_scaled(cv, 1, m2);
    assert forall|i: int| 0 <= i < k implies #[trigger] a[i] == b[i] by {
        linear::lemma_dot_update(c, linear::column(rows, i), r, coeff);
        field::lemma_mul_one(m[i]);
        field::lemma_mul_one(m2[i]);
        field::lemma_add_associates(cv[i], m[i], field::gf_product(coeff, rows[r][i]));
    }
    assert(a =~= b);
}

/// Adding a multiple of a row that encodes the blocks changes nothing about whether a row
/// encodes them.
proof fn lemma_row_step(blocks: Seq<Seq<u8>>, row: Seq<u8>, coeff: u8, other: Seq<u8>, k: nat)
    requires
        row.len() == other.len(),
        k <= row.len(),
        row_encodes(blocks, other, k),
    ensures
        row_encodes(blocks, linear::add_scaled(row, coeff, other), k) <==> row_encodes(
            blocks,
            row,
            k,
        ),
{
    let sum = linear::add_scaled(row, coeff, other);
    assert(left(sum, k) =~= linear::add_scaled(left(row, k), coeff, left(other, k)));
    assert(right(sum, k) =~= linear::add_scaled(right(row, k), coeff, right(other, k)));
    if row_encodes(blocks, row, k) {
        linear::lemma_encodes_add_scaled(
            blocks,
            left(row, k),
            right(row, k),
            coeff,
            left(other, k),
            right(other, k),
        );
    }
    if row_encodes(blocks, sum, k) {
        linear::lemma_encodes_add_scaled(
            blocks,
            left(sum, k),
            right(sum, k),
            coeff,
            left(other, k),
            right(other, k),
        );
        linear::lemma_add_scaled_twice(left(row, k), coeff, left(other, k));
        linear::lemma_add_scaled_twice(right(row, k), coeff, right(other, k));
    }
}

/// In a combination of echelon rows that vanishes in all pivot columns, every row has the
/// coefficient zero.
proof fn lemma_coefficients_zero(
    rows: Seq<Seq<u8>>,
    pivots: Seq<Option<usize>>,
    k: nat,
    c: Seq<u8>,
    n: int,
)
    requires
        echelon(rows, pivots, k),
        c.len() == k,
        0 <= n <= k,
        forall|p: int|
            0 <= p < k && pivots[p] is Some ==> linear::dot(
                c,
                #[trigger] linear::column(rows, p),
            ) == 0,
    ensures
        forall|p: int| 0 <= p < n && pivots[p] is Some ==> #[trigger] c[p] == 0,
    decreases n,
{
    if n > 0 {
        lemma_coefficients_zero(rows, pivots, k, c, n - 1);
        let p = n - 1;
        if pivots[p] is Some {
            let x = linear::column(rows, p);
            assert(echelon_row(rows[p], true, p, k));
            assert forall|q: int| 0 <= q < c.len() && q != p implies #[trigger] c[q] == 0 || x[q]
                == 0 by {
                assert(echelon_row(rows[q], pivots[q] is Some, q, k));
                assert(x[q] == rows[q][p]);
            }
            linear::lemma_dot_single(c, x, p);
            field::lemma_mul_one(c[p]);
            assert(x[p] == 1);
        }
    }
}

proof fn lemma_only_zero(rows: Seq<Seq<u8>>, pivots: Seq<Option<usize>>, k: nat, w: Seq<u8>)
    requires
        echelon(rows, pivots, k),
        w.len() == k,
        linear::in_span(rows, w),
        forall|p: int| 0 <= p < k && pivots[p] is Some ==> #[trigger] w[p] == 0,
    ensures
        forall|j: int| 0 <= j < k ==> #[trigger] w[j] == 0,
{
    let c = choose|c: Seq<u8>|
        c.len() == rows.len() && w == #[trigger] linear::combination(c, rows, w.len());
    assert forall|p: int| 0 <= p < k && pivots[p] is Some implies linear::dot(
        c,
        #[trigger] linear::column(rows, p),
    ) == 0 by {
        assert(w[p] == linear::combination(c, rows, w.len())[p]);
    }
    lemma_coefficients_zero(rows, pivots, k, c, k as int);
    assert forall|j: int| 0 <= j < k implies #[trigger] w[j] == 0 by {
        let x = linear::column(rows, j);
        assert forall|q: int| 0 <= q < c.len() && q != -1 implies #[trigger] c[q] == 0 || x[q]
            == 0 by {
            assert(echelon_row(rows[q], pivots[q] is Some, q, k));
        }
        linear::lemma_dot_single(c, x, -1);
        assert(w[j] == linear::combination(c, rows, w.len())[j]);
    }
}

/// Rows that fill every slot span every vector.
proof fn lemma_triangular_spans(
    rows: Seq<Seq<u8>>,
    pivots: Seq<Option<usize>>,
    k: nat,
    v: Seq<u8>,
    n: int,
)
    requires
        echelon(rows, pivots, k),
        forall|r: int| 0 <= r < k ==> (#[trigger] pivots[r]) is Some,
        v.len() == k,
        0 <= n <= k,
        forall|j: int| 0 <= j < n ==> #[trigger] v[j] == 0,
    ensures
        linear::in_span(rows, v),
    decreases k - n,
{
    if n == k {
        assert(v =~= linear::zeros(k));
        linear::lemma_span_zeros(rows, k);
    } else {
        let s = v[n];
        let row = rows[n];
        assert(echelon_row(row, pivots[n] is Some, n, k));
        let w = linear::add_scaled(v, s, row);
        assert forall|j: int| 0 <= j < n + 1 implies #[trigger] w[j] == 0 by {
            if j < n {
                assert(v[j] == 0 && row[j] == 0);
                field::lemma_mul_zero(s);
                field::lemma_add_zero(0);
            } else {
                field::lemma_mul_one(s);
                field::lemma_add_zero(s);
            }
        }
        lemma_triangular_spans(rows, pivots, k, w, n + 1);
        linear::lemma_span_row(rows, n);
        linear::lemma_span_add_scaled(rows, w, s, row);
        linear::lemma_add_scaled_twice(v, s, row);
    }
}

/// The span after a row was stored in an empty slot.
proof fn lemma_span_after(
    rows: Seq<Seq<u8>>,
    col: int,
    k: nat,
    cv: Seq<u8>,
    c: Seq<u8>,
    inv: u8,
    lead: u8,
    v: Seq<u8>,
)
    requires
        rows.len() == k,
        0 <= col < k,
        rows[col] == linear::zeros(k),
        cv.len() == k,
        c.len() == k,
        v.len() == k,
        field::gf_product(lead, inv) == 1,
    ensures
        linear::in_span(
            rows.update(
                col,
                linear::scaled(
                    inv,
                    linear::add_scaled(cv, 1, linear::combination(c, rows, k)),
                ),
            ),
            v,
        ) <==> exists|s: u8|
            linear::in_span(rows, #[trigger] linear::add_scaled(v, s, cv)),
{
    let m = linear::combination(c, rows, k);
    let w = linear::add_scaled(cv, 1, m);
    let y = linear::scaled(inv, w);
    let after = rows.update(col, y);
    linear::lemma_span_combination(c, rows, k);
    if linear::in_span(after, v) {
        let d = choose|d: Seq<u8>|
            d.len() == after.len() && v == #[trigger] linear::combination(d, after, v.len());
        linear::lemma_combination_fill(d, rows, col, y, k);
        let u = linear::combination(d, rows, k);
        linear::lemma_span_combination(d, rows, k);
        let t = field::gf_product(d[col], inv);
        linear::lemma_span_add_scaled(rows, u, t, m);
        let x = linear::add_scaled(v, t, cv);
        assert forall|i: int| 0 <= i < k implies #[trigger] x[i] == linear::add_scaled(
            u,
            t,
            m,
        )[i] by {
            field::lemma_mul_one(m[i]);
            field::lemma_mul_associates(d[col], inv, w[i]);
            field::lemma_mul_distributes(t, cv[i], m[i]);
            let tc = field::gf_product(t, cv[i]);
            let tm = field::gf_product(t, m[i]);
            field::lemma_add_associates(u[i], tc ^ tm, tc);
            field::lemma_add_commutes(tc, tm);
            field::lemma_add_cancels(tm, tc);
        }
        assert(x =~= linear::add_scaled(u, t, m));
        assert(linear::in_span(rows, linear::add_scaled(v, t, cv)));
    }
    if exists|s: u8| linear::in_span(rows, #[trigger] linear::add_scaled(v, s, cv)) {
        let s = choose|s: u8| linear::in_span(rows, #[trigger] linear::add_scaled(v, s, cv));
        let u = linear::add_scaled(v, s, cv);
        linear::lemma_span_fill(rows, col, y, u);
        linear::lemma_span_fill(rows, col, y, m);
        linear::lemma_span_row(after, col);
        linear::lemma_span_scaled(after, lead, y);
        linear::lemma_scaled_back(lead, inv, w);
        linear::lemma_span_add_scaled(after, w, 1, m);
        linear::lemma_add_scaled_twice(cv, 1, m);
        linear::lemma_span_add_scaled(after, u, s, cv);
        linear::lemma_add_scaled_twice(v, s, cv);
    }
}

proof fn lemma_filled_same(a: Seq<Option<usize>>, b: Seq<Option<usize>>, n: int)
    requires
        0 <= n <= a.len(),
        n <= b.len(),
        forall|r: int| 0 <= r < n ==> a[r] == b[r],
    ensures
        filled(a, n) == filled(b, n),
    decreases n,
{
    if n > 0 {
        lemma_filled_same(a, b, n - 1);
    }
}

}
