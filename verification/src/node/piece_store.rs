//! Which stored pieces belong to which content.

use crate::health::repair::PieceCidLookup;
use crate::types::cid::Cid;
use crate::types::table::KeyTable;
use vstd::prelude::*;

verus! {

/// Maps each content to its stored pieces, and knows which objects are pieces.
pub struct CodedPieceIndex {
    index: KeyTable<Vec<Cid>>,
    piece_cids: KeyTable<bool>,
}

impl CodedPieceIndex {
    /// The stored pieces of each content.
    pub closed spec fn contents(&self) -> Map<Seq<u8>, Seq<Cid>> {
        self.index@.map_values(|row: Vec<Cid>| row@)
    }

    /// The objects that are pieces.
    pub closed spec fn marked(&self) -> Set<Seq<u8>> {
        self.piece_cids@.dom()
    }

    /// The tables are in order.
    pub closed spec fn wf(&self) -> bool {
        self.index.wf() && self.piece_cids.wf()
    }

    /// An empty index.
    pub fn new() -> (index: CodedPieceIndex)
        ensures
            index.wf(),
            index.contents() == Map::<Seq<u8>, Seq<Cid>>::empty(),
            index.marked() == Set::<Seq<u8>>::empty(),
    {
        let index = CodedPieceIndex { index: KeyTable::new(), piece_cids: KeyTable::new() };
        assert(index.contents() =~= Map::<Seq<u8>, Seq<Cid>>::empty());
        assert(index.marked() =~= Set::<Seq<u8>>::empty());
        index
    }

    /// Records the stored pieces of a content, in place of any recorded before.
    pub fn insert(&mut self, content_cid: Cid, piece_cids: Vec<Cid>)
        requires
            old(self).wf(),
        ensures
            final(self).wf(),
            final(self).contents() == old(self).contents().insert(content_cid@, piece_cids@),
            final(self).marked() == old(self).marked(),
    {
        self.index.set(content_cid.bytes, piece_cids);
        proof {
            assert(self.contents() =~= old(self).contents().insert(content_cid@, piece_cids@));
        }
    }

    /// Marks an object as a piece.
    pub fn mark_piece_cid(&mut self, cid: Cid)
        requires
            old(self).wf(),
        ensures
            final(self).wf(),
            final(self).contents() == old(self).contents(),
            final(self).marked() == old(self).marked().insert(cid@),
    {
        self.piece_cids.set(cid.bytes, true);
        proof {
            assert(self.marked() =~= old(self).marked().insert(cid@));
        }
    }

    /// Whether an object is marked as a piece.
    pub fn is_piece_cid(&self, cid: &Cid) -> (yes: bool)
        requires
            self.wf(),
        ensures
            yes == self.marked().contains(cid@),
    {
        self.piece_cids.contains(cid.as_bytes())
    }

    /// The stored pieces of a content, if any were recorded.
    pub fn get(&self, content_cid: &Cid) -> (pieces: Option<Vec<Cid>>)
        requires
            self.wf(),
        ensures
            match pieces {
                Some(list) => self.contents().contains_key(content_cid@) && list@
                    == self.contents()[content_cid@],
                None => !self.contents().contains_key(content_cid@),
            },
    {
        match self.index.get(content_cid.as_bytes()) {
            None => None,
            Some(row) => {
                let mut list: Vec<Cid> = Vec::new();
                let mut i: usize = 0;
                while i < row.len()
                    invariant
                        i <= row@.len(),
                        list@ == row@.take(i as int),
                    decreases row@.len() - i,
                {
                    list.push(row[i]);
                    proof {
                        assert(row@.take(i + 1) =~= row@.take(i as int).push(row@[i as int]));
                    }
                    i = i + 1;
                }
                proof {
                    assert(row@.take(i as int) =~= row@);
                }
                Some(list)
            },
        }
    }
}

impl PieceCidLookup for CodedPieceIndex {
    closed spec fn ready(&self) -> bool {
        self.wf()
    }

    closed spec fn pieces_of(&self, content: Seq<u8>) -> Option<Seq<Cid>> {
        if self.contents().contains_key(content) {
            Some(self.contents()[content])
        } else {
            None
        }
    }

    fn piece_cids(&self, content_cid: &Cid) -> (cids: Option<Vec<Cid>>) {
        self.get(content_cid)
    }
}

/// As a lookup, an index can be asked when its tables are in order, and tells the pieces
/// that were recorded.
pub proof fn lemma_lookup(index: &CodedPieceIndex, content: Seq<u8>)
    ensures
        index.ready() == index.wf(),
        index.pieces_of(content) == (if index.contents().contains_key(content) {
            Some(index.contents()[content])
        } else {
            None::<Seq<Cid>>
        }),
{
}

}
