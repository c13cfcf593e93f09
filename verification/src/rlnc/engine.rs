//! The coding operations with their counters.

use crate::rlnc::decoder;
use crate::rlnc::decoder::RlncDecoder;
use crate::rlnc::encoder;
use crate::rlnc::encoder::RlncEncoder;
use crate::rlnc::error::RlncError;
use crate::rlnc::laws;
use crate::rlnc::recoder;
use crate::rlnc::recoder::RlncRecoder;
use crate::types::piece;
use crate::types::piece::CodedPiece;
use vstd::prelude::*;

verus! {

/// Counters of an engine. They wrap around at the largest number.
#[derive(Clone, Copy, Debug)]
pub struct RlncMetrics {
    /// Successful encodings.
    pub encodes: u64,
    /// Successful decodings.
    pub decodes: u64,
    /// Successful recodings.
    pub recodes: u64,
    /// Bytes handed in for encoding.
    pub encode_bytes: u64,
}

/// The counters at one moment.
#[derive(Clone, Copy, Debug, PartialEq, Eq, Structural)]
pub struct MetricsSnapshot {
    pub encodes: u64,
    pub decodes: u64,
    pub recodes: u64,
    pub encode_bytes: u64,
}

impl RlncMetrics {
    /// The counters as they stand.
    pub fn snapshot(&self) -> (snapshot: MetricsSnapshot)
        ensures
            snapshot == (MetricsSnapshot {
                encodes: self.encodes,
                decodes: self.decodes,
                recodes: self.recodes,
                encode_bytes: self.encode_bytes,
            }),
    {
        MetricsSnapshot {
            encodes: self.encodes,
            decodes: self.decodes,
            recodes: self.recodes,
            encode_bytes: self.encode_bytes,
        }
    }
}

/// The sum of two counters modulo 2⁶⁴.
pub open spec fn counted(count: u64, more: u64) -> int {
    (count + more) % 0x1_0000_0000_0000_0000
}

/// Runs coding operations and counts them.
pub struct RlncEngine {
    pub metrics: RlncMetrics,
}

impl RlncEngine {
    /// How many coding operations may run at one time.
    pub const MAX_CONCURRENCY: usize = 8;

    /// An engine with all counters at zero.
    pub fn new() -> (engine: RlncEngine)
        ensures
            engine.metrics == (RlncMetrics { encodes: 0, decodes: 0, recodes: 0, encode_bytes: 0 }),
    {
        RlncEngine { metrics: RlncMetrics { encodes: 0, decodes: 0, recodes: 0, encode_bytes: 0 } }
    }

    /// The counters.
    pub fn metrics(&self) -> (metrics: &RlncMetrics)
        ensures
            *metrics == self.metrics,
    {
        &self.metrics
    }

    /// Encodes the data into the target number of pieces.
    pub fn encode(&mut self, data: &[u8], k: u32) -> (result: Result<Vec<CodedPiece>, RlncError>)
        ensures
            result is Ok <==> k != 0,
            result matches Err(e) ==> e == (RlncError::InsufficientPieces { have: 0, need: 1 })
                && *final(self) == *old(self),
            result matches Ok(pieces) ==> {
                &&& pieces@.len() == encoder::target_spec(k as nat)
                &&& forall|i: int|
                    0 <= i < pieces@.len() ==> laws::is_piece_of(
                        #[trigger] pieces@[i]@,
                        data@,
                        k as nat,
                    )
                &&& final(self).metrics.encodes == counted(old(self).metrics.encodes, 1)
                &&& final(self).metrics.encode_bytes == counted(
                    old(self).metrics.encode_bytes,
                    data@.len() as u64,
                )
                &&& final(self).metrics.decodes == old(self).metrics.decodes
                &&& final(self).metrics.recodes == old(self).metrics.recodes
            },
    {
        let encoder = match RlncEncoder::new(data, k) {
            Ok(encoder) => encoder,
            Err(e) => {
                return Err(e);
            },
        };
        let n: usize = encoder.target_pieces() as usize;
        let pieces = encoder.encode_n(n);
        proof {
            assert forall|i: int| 0 <= i < pieces@.len() implies laws::is_piece_of(
                #[trigger] pieces@[i]@,
                data@,
                k as nat,
            ) by {
                let p = pieces@[i]@;
                assert(p == encoder.encoded(p.coding_vector));
            }
        }
        self.metrics.encodes = self.metrics.encodes.wrapping_add(1);
        self.metrics.encode_bytes = self.metrics.encode_bytes.wrapping_add(data.len() as u64);
        Ok(pieces)
    }

    /// Decodes a generation. Pieces of another shape are skipped; of the others, those
    /// count whose coding vectors are independent of the ones before them.
    pub fn decode(&mut self, k: u32, piece_size: usize, pieces: &[CodedPiece]) -> (result: Result<
        Vec<u8>,
        RlncError,
    >)
        ensures
            ({
                let useful = laws::useful(
                    piece::piece_views(pieces@),
                    k as nat,
                    piece_size as nat,
                );
                match result {
                    Ok(data) => {
                        &&& useful.len() == k
                        &&& exists|blocks: Seq<Seq<u8>>| #[trigger]
                            laws::explains(blocks, useful, k as nat, piece_size as nat)
                        &&& forall|blocks: Seq<Seq<u8>>| #[trigger]
                            laws::explains(blocks, useful, k as nat, piece_size as nat) ==> data@
                                == decoder::concat(blocks)
                        &&& final(self).metrics.decodes == counted(old(self).metrics.decodes, 1)
                        &&& final(self).metrics.encodes == old(self).metrics.encodes
                        &&& final(self).metrics.recodes == old(self).metrics.recodes
                        &&& final(self).metrics.encode_bytes == old(self).metrics.encode_bytes
                    },
                    Err(e) => {
                        &&& useful.len() < k
                        &&& e == (RlncError::InsufficientPieces {
                            have: useful.len() as u32,
                            need: k,
                        })
                        &&& *final(self) == *old(self)
                    },
                }
            }),
    {
        let ghost views = piece::piece_views(pieces@);
        let mut decoder = RlncDecoder::new(k, piece_size);
        proof {
            laws::lemma_nothing_useful(decoder, k as nat, piece_size as nat);
            assert(views.take(0) =~= Seq::<piece::PieceView>::empty());
        }
        let mut i: usize = 0;
        let mut ready: bool = decoder.is_decodable();
        while i < pieces.len() && !ready
            invariant
                i <= pieces@.len(),
                views == piece::piece_views(pieces@),
                decoder.wf(),
                decoder.generation() == k,
                decoder.block_size() == piece_size,
                ready == (decoder.dimension() == k),
                laws::holds(
                    decoder,
                    laws::useful(views.take(i as int), k as nat, piece_size as nat),
                ),
            decreases pieces@.len() - i,
        {
            let ghost before = decoder;
            let outcome = decoder.add_piece(&pieces[i]);
            proof {
                let all = views.take(i as int + 1);
                assert(all.drop_last() =~= views.take(i as int));
                assert(all.last() == pieces@[i as int]@);
                laws::lemma_piece_taken(before, decoder, all, outcome, k as nat, piece_size as nat);
            }
            ready = decoder.is_decodable();
            i = i + 1;
        }
        proof {
            laws::lemma_rest_useless(decoder, views, i as int, k as nat, piece_size as nat);
            decoder.lemma_rank_bound();
        }
        let ghost complete = decoder;
        let ghost useful = laws::useful(views, k as nat, piece_size as nat);
        match decoder.decode() {
            Ok(data) => {
                proof {
                    let blocks = choose|blocks: Seq<Seq<u8>>| #[trigger] complete.solves(blocks);
                    assert(laws::explains(blocks, useful, k as nat, piece_size as nat));
                    assert forall|blocks: Seq<Seq<u8>>| #[trigger]
                        laws::explains(
                            blocks,
                            useful,
                            k as nat,
                            piece_size as nat,
                        ) implies data@ == decoder::concat(blocks) by {
                        assert(complete.solves(blocks));
                    }
                }
                self.metrics.decodes = self.metrics.decodes.wrapping_add(1);
                Ok(data)
            },
            Err(e) => Err(e),
        }
    }

    /// Recodes pieces into a fresh one.
    pub fn recode(&mut self, pieces: &[CodedPiece]) -> (result: Result<CodedPiece, RlncError>)
        requires
            pieces@.len() >= 2 && recoder::same_content(piece::piece_views(pieces@))
                ==> recoder::same_shape(piece::piece_views(pieces@)),
        ensures
            result is Ok <==> pieces@.len() >= 2 && recoder::same_content(
                piece::piece_views(pieces@),
            ),
            result matches Err(e) ==> e == (if pieces@.len() < 2 {
                RlncError::InsufficientRecodeInputs { got: pieces@.len() as usize }
            } else {
                RlncError::MismatchedCids
            }) && *final(self) == *old(self),
            result matches Ok(fresh) ==> {
                &&& exists|scalars: Seq<u8>|
                    scalars.len() == pieces@.len() && (forall|j: int|
                        0 <= j < scalars.len() ==> #[trigger] scalars[j] != 0) && fresh@
                        == #[trigger] recoder::recoded(piece::piece_views(pieces@), scalars)
                &&& final(self).metrics.recodes == counted(old(self).metrics.recodes, 1)
                &&& final(self).metrics.encodes == old(self).metrics.encodes
                &&& final(self).metrics.decodes == old(self).metrics.decodes
                &&& final(self).metrics.encode_bytes == old(self).metrics.encode_bytes
            },
    {
        match RlncRecoder::recode(pieces) {
            Ok(fresh) => {
                self.metrics.recodes = self.metrics.recodes.wrapping_add(1);
                Ok(fresh)
            },
            Err(e) => Err(e),
        }
    }
}

}
