//! Coded pieces.

use crate::crypto::hommac;
use crate::crypto::hommac::HomMacKey;
use crate::outside::digest;
use crate::types::bytes;
use crate::types::cid::Cid;
use vstd::prelude::*;

verus! {

/// One linear combination of the source blocks of a content.
#[derive(Debug)]
pub struct CodedPiece {
    /// The content.
    pub cid: Cid,
    /// The coefficients of the combination, one for each source block.
    pub coding_vector: Vec<u8>,
    /// The combined bytes.
    pub data: Vec<u8>,
    /// The BLAKE3 digest of the combined bytes.
    pub piece_id: [u8; 32],
    /// The authentication tag.
    pub hommac_tag: [u8; 32],
}

/// The contents of a piece.
#[verifier::ext_equal]
pub struct PieceView {
    pub cid: Seq<u8>,
    pub coding_vector: Seq<u8>,
    pub data: Seq<u8>,
    pub piece_id: Seq<u8>,
    pub tag: Seq<u8>,
}

/// The piece with the given content, vector, bytes and tag.
pub open spec fn piece_of(
    cid: Seq<u8>,
    coding_vector: Seq<u8>,
    data: Seq<u8>,
    tag: Seq<u8>,
) -> PieceView {
    PieceView { cid, coding_vector, data, piece_id: digest::blake3_digest(data), tag }
}

impl View for CodedPiece {
    type V = PieceView;

    open spec fn view(&self) -> PieceView {
        PieceView {
            cid: self.cid@,
            coding_vector: self.coding_vector@,
            data: self.data@,
            piece_id: self.piece_id@,
            tag: self.hommac_tag@,
        }
    }
}

impl Clone for CodedPiece {
    fn clone(&self) -> (copy: Self)
        ensures
            copy@ == self@,
    {
        CodedPiece {
            cid: self.cid,
            coding_vector: bytes::copy_bytes(self.coding_vector.as_slice()),
            data: bytes::copy_bytes(self.data.as_slice()),
            piece_id: self.piece_id,
            hommac_tag: self.hommac_tag,
        }
    }
}

impl CodedPiece {
    /// A piece; its identifier is the digest of its bytes.
    pub fn new(cid: Cid, coding_vector: Vec<u8>, data: Vec<u8>, hommac_tag: [u8; 32]) -> (piece: CodedPiece)
        ensures
            piece@ == piece_of(cid@, coding_vector@, data@, hommac_tag@),
    {
        let piece_id = digest::blake3_hash(data.as_slice());
        CodedPiece { cid, coding_vector, data, piece_id, hommac_tag }
    }

    /// Whether the identifier of the piece is the digest of its bytes.
    pub fn verify_piece_id(&self) -> (ok: bool)
        ensures
            ok == (self@.piece_id == digest::blake3_digest(self@.data)),
    {
        let actual = digest::blake3_hash(self.data.as_slice());
        bytes::same_bytes(&actual, &self.piece_id)
    }
}

impl CodedPiece {
    /// Whether the tag of the piece is the one for its content, vector and bytes.
    pub fn verify_mac(&self) -> (ok: bool)
        ensures
            ok == (self@.tag == hommac::piece_tag(
                self@.cid,
                self@.coding_vector,
                self@.data,
            )),
    {
        let key = HomMacKey::from_bytes(*self.cid.as_bytes());
        hommac::verify_tag(
            &key,
            self.coding_vector.as_slice(),
            self.data.as_slice(),
            &self.hommac_tag,
        )
    }
}

/// The contents of a list of pieces.
pub open spec fn piece_views(pieces: Seq<CodedPiece>) -> Seq<PieceView> {
    pieces.map_values(|p: CodedPiece| p@)
}

}
