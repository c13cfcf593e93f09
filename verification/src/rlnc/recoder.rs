//! Recoding: a fresh piece from pieces at hand, without decoding.

use crate::crypto::hommac;
use crate::crypto::hommac::HomMacKey;
use crate::rlnc::encoder;
use crate::rlnc::error::RlncError;
use crate::rlnc::gf256;
use crate::rlnc::linear;
use crate::types::cid::Cid;
use crate::types::piece;
use crate::types::piece::CodedPiece;
use vstd::prelude::*;

verus! {

/// Recodes pieces of one content.
pub struct RlncRecoder;

/// The coding vectors of a list of pieces.
pub open spec fn vectors(pieces: Seq<piece::PieceView>) -> Seq<Seq<u8>> {
    pieces.map_values(|p: piece::PieceView| p.coding_vector)
}

/// The bytes of a list of pieces.
pub open spec fn payloads(pieces: Seq<piece::PieceView>) -> Seq<Seq<u8>> {
    pieces.map_values(|p: piece::PieceView| p.data)
}

/// The tags of a list of pieces.
pub open spec fn tags(pieces: Seq<piece::PieceView>) -> Seq<Seq<u8>> {
    pieces.map_values(|p: piece::PieceView| p.tag)
}

/// Whether all pieces belong to one content.
pub open spec fn same_content(pieces: Seq<piece::PieceView>) -> bool {
    forall|i: int| 0 <= i < pieces.len() ==> (#[trigger] pieces[i]).cid == pieces[0].cid
}

/// Whether all pieces have coding vectors of one length and bytes of one length.
pub open spec fn same_shape(pieces: Seq<piece::PieceView>) -> bool {
    &&& linear::rows_have(vectors(pieces), pieces[0].coding_vector.len())
    &&& linear::rows_have(payloads(pieces), pieces[0].data.len())
}

/// The combination of the pieces with the given scalars.
pub open spec fn recoded(pieces: Seq<piece::PieceView>, scalars: Seq<u8>) -> piece::PieceView {
    piece::piece_of(
        pieces[0].cid,
        linear::combination(scalars, vectors(pieces), pieces[0].coding_vector.len()),
        linear::combination(scalars, payloads(pieces), pieces[0].data.len()),
        hommac::combined_tag(pieces[0].cid, tags(pieces), scalars),
    )
}

impl RlncRecoder {
    /// A piece of the same content that combines the given pieces with random scalars, none
    /// of them zero.
    pub fn recode(pieces: &[CodedPiece]) -> (result: Result<CodedPiece, RlncError>)
        requires
            pieces@.len() >= 2 && same_content(piece::piece_views(pieces@)) ==> same_shape(
                piece::piece_views(pieces@),
            ),
        ensures
            result is Ok <==> pieces@.len() >= 2 && same_content(piece::piece_views(pieces@)),
            result matches Err(e) ==> e == (if pieces@.len() < 2 {
                RlncError::InsufficientRecodeInputs { got: pieces@.len() as usize }
            } else {
                RlncError::MismatchedCids
            }),
            result matches Ok(fresh) ==> exists|scalars: Seq<u8>|
                scalars.len() == pieces@.len() && (forall|j: int|
                    0 <= j < scalars.len() ==> #[trigger] scalars[j] != 0) && fresh@
                    == #[trigger] recoded(piece::piece_views(pieces@), scalars),
    {
        let scalars = encoder::random_scalars(pieces.len());
        RlncRecoder::recode_with(pieces, scalars.as_slice())
    }

    /// A piece of the same content that combines the given pieces with the given scalars.
    pub fn recode_with(pieces: &[CodedPiece], scalars: &[u8]) -> (result: Result<
        CodedPiece,
        RlncError,
    >)
        requires
            scalars@.len() == pieces@.len(),
            pieces@.len() >= 2 && same_content(piece::piece_views(pieces@)) ==> same_shape(
                piece::piece_views(pieces@),
            ),
        ensures
            result is Ok <==> pieces@.len() >= 2 && same_content(piece::piece_views(pieces@)),
            result matches Err(e) ==> e == (if pieces@.len() < 2 {
                RlncError::InsufficientRecodeInputs { got: pieces@.len() as usize }
            } else {
                RlncError::MismatchedCids
            }),
            result matches Ok(fresh) ==> fresh@ == recoded(
                piece::piece_views(pieces@),
                scalars@,
            ),
    {
        let ghost views = piece::piece_views(pieces@);
        if pieces.len() < 2 {
            return Err(RlncError::InsufficientRecodeInputs { got: pieces.len() });
        }
        let cid: Cid = pieces[0].cid;
        let mut i: usize = 1;
        while i < pieces.len()
            invariant
                1 <= i <= pieces@.len(),
                views == piece::piece_views(pieces@),
                cid@ == views[0].cid,
                forall|j: int| 0 <= j < i ==> (#[trigger] views[j]).cid == views[0].cid,
            decreases pieces@.len() - i,
        {
            if pieces[i].cid != cid {
                assert(views[i as int].cid != views[0].cid);
                return Err(RlncError::MismatchedCids);
            }
            assert(views[i as int].cid == views[0].cid);
            i = i + 1;
        }
        let mut vector: Vec<u8> = encoder::zero_bytes(pieces[0].coding_vector.len());
        let mut data: Vec<u8> = encoder::zero_bytes(pieces[0].data.len());
        let mut piece_tags: Vec<[u8; 32]> = Vec::new();
        let ghost vs = vectors(views);
        let ghost ps = payloads(views);
        proof {
            encoder::lemma_sum_start(scalars@, vs, views[0].coding_vector.len());
            encoder::lemma_sum_start(scalars@, ps, views[0].data.len());
        }
        let mut j: usize = 0;
        while j < pieces.len()
            invariant
                j <= pieces@.len(),
                scalars@.len() == pieces@.len(),
                views == piece::piece_views(pieces@),
                vs == vectors(views),
                ps == payloads(views),
                same_shape(views),
                vector@ == linear::combination(
                    scalars@.take(j as int),
                    vs.take(j as int),
                    views[0].coding_vector.len(),
                ),
                data@ == linear::combination(
                    scalars@.take(j as int),
                    ps.take(j as int),
                    views[0].data.len(),
                ),
                piece_tags@.len() == j,
                forall|q: int| 0 <= q < j ==> (#[trigger] piece_tags@[q])@ == views[q].tag,
            decreases pieces@.len() - j,
        {
            let ghost vector_before = vector@;
            let ghost data_before = data@;
            proof {
                assert(vs[j as int] == pieces@[j as int].coding_vector@);
                assert(ps[j as int] == pieces@[j as int].data@);
                encoder::lemma_sum_step(scalars@, vs, j as int, views[0].coding_vector.len());
                encoder::lemma_sum_step(scalars@, ps, j as int, views[0].data.len());
            }
            gf256::gf_vec_mul_add(
                vector.as_mut_slice(),
                pieces[j].coding_vector.as_slice(),
                scalars[j],
            );
            gf256::gf_vec_mul_add(data.as_mut_slice(), pieces[j].data.as_slice(), scalars[j]);
            proof {
                assert(vector@ =~= linear::add_scaled(
                    vector_before,
                    scalars@[j as int],
                    vs[j as int],
                ));
                assert(data@ =~= linear::add_scaled(data_before, scalars@[j as int], ps[j as int]));
            }
            piece_tags.push(pieces[j].hommac_tag);
            j = j + 1;
        }
        proof {
            assert(scalars@.take(scalars@.len() as int) =~= scalars@);
            assert(vs.take(vs.len() as int) =~= vs);
            assert(ps.take(ps.len() as int) =~= ps);
            assert(piece_tags@.map_values(|t: [u8; 32]| t@) =~= tags(views));
        }
        let key = HomMacKey::from_bytes(*cid.as_bytes());
        let tag = hommac::combine_tags(&key, piece_tags.as_slice(), scalars);
        Ok(CodedPiece::new(cid, vector, data, tag))
    }
}

/// Whether all pieces have coding vectors of one length and bytes of one length.
pub fn pieces_fit(pieces: &[CodedPiece]) -> (fit: bool)
    requires
        pieces@.len() > 0,
    ensures
        fit == same_shape(piece::piece_views(pieces@)),
{
    let ghost views = piece::piece_views(pieces@);
    let k: usize = pieces[0].coding_vector.len();
    let size: usize = pieces[0].data.len();
    let mut i: usize = 0;
    while i < pieces.len()
        invariant
            i <= pieces@.len(),
            views == piece::piece_views(pieces@),
            pieces@.len() > 0,
            k == views[0].coding_vector.len(),
            size == views[0].data.len(),
            forall|j: int|
                0 <= j < i ==> (#[trigger] views[j]).coding_vector.len() == k
                    && views[j].data.len() == size,
        decreases pieces@.len() - i,
    {
        assert(views[i as int] == pieces@[i as int]@);
        if pieces[i].coding_vector.len() != k || pieces[i].data.len() != size {
            proof {
                assert(vectors(views)[i as int].len() != k || payloads(views)[i as int].len()
                    != size);
            }
            return false;
        }
        i = i + 1;
    }
    proof {
        assert forall|j: int| 0 <= j < vectors(views).len() implies (#[trigger] vectors(
            views,
        )[j]).len() == k by {
            assert(views[j].coding_vector.len() == k);
        }
        assert forall|j: int| 0 <= j < payloads(views).len() implies (#[trigger] payloads(
            views,
        )[j]).len() == size by {
            assert(views[j].data.len() == size);
        }
    }
    true
}

}
