//! Writes from other nodes.

use crate::crypto::sign;
use crate::outside::ed25519;
use crate::outside::hexadecimal;
use crate::sql::commit;
use crate::sql::commit::CommitContext;
use crate::sql::database;
use crate::sql::database::CraftDatabase;
use crate::sql::database::Execution;
use crate::sql::database::SignedWrite;
use crate::sql::error::SqlError;
use crate::types::bytes;
use crate::types::cid::Cid;
use crate::types::event::Event;
use crate::types::node_id::NodeId;
use vstd::prelude::*;
use vstd::string::*;

verus! {

/// The four lowest bytes of a length, the lowest first.
pub open spec fn length_bytes(len: nat) -> Seq<u8> {
    seq![
        (len % 256) as u8,
        (len / 256 % 256) as u8,
        (len / 65_536 % 256) as u8,
        (len / 16_777_216 % 256) as u8,
    ]
}

/// A length in front of what it measures.
pub open spec fn prefixed(data: Seq<u8>) -> Seq<u8> {
    length_bytes(data.len()) + data
}

/// The root that a writer has seen: a zero for none, else a one and the identifier.
pub open spec fn root_bytes(root: Option<Cid>) -> Seq<u8> {
    match root {
        None => seq![0u8],
        Some(cid) => seq![1u8] + cid@,
    }
}

/// The bytes that a writer signs.
pub open spec fn payload(writer: Seq<u8>, sql: Seq<char>, root: Option<Cid>) -> Seq<u8> {
    prefixed(writer) + prefixed(vstd::utf8::encode_utf8(sql)) + root_bytes(root)
}

fn push_prefixed(buf: &mut Vec<u8>, data: &[u8])
    ensures
        final(buf)@ == old(buf)@ + prefixed(data@),
{
    let len: usize = data.len();
    buf.push((len % 256) as u8);
    buf.push((len / 256 % 256) as u8);
    buf.push((len / 65_536 % 256) as u8);
    buf.push((len / 16_777_216 % 256) as u8);
    bytes::append_bytes(buf, data);
    proof {
        assert(buf@ =~= old(buf)@ + prefixed(data@));
    }
}

/// The bytes that a writer signs: the writer, the statement and the root seen.
pub fn build_signed_payload(writer: &NodeId, sql: &str, root: Option<Cid>) -> (buf: Vec<u8>)
    ensures
        buf@ == payload(writer@, sql@, root),
{
    let mut buf: Vec<u8> = Vec::new();
    push_prefixed(&mut buf, writer.as_bytes().as_slice());
    push_prefixed(&mut buf, sql.as_bytes());
    match root {
        None => {
            buf.push(0);
        },
        Some(cid) => {
            buf.push(1);
            bytes::append_bytes(&mut buf, cid.as_bytes().as_slice());
        },
    }
    proof {
        assert(buf@ =~= payload(writer@, sql@, root));
    }
    buf
}

/// Whether a write carries a signature of its writer.
pub open spec fn well_signed(msg: &SignedWrite) -> bool {
    ed25519::ed25519_accepts(
        msg.writer@,
        payload(msg.writer@, msg.sql@, msg.expected_root),
        msg.signature@,
    )
}

/// Whether an error tells of a bad signature.
pub open spec fn tells_bad_signature(e: SqlError, writer: NodeId) -> bool {
    e matches SqlError::InvalidSignature { writer: name } && name@ == hexadecimal::hex_text(
        writer@,
    )
}

/// Takes writes to a database from other nodes.
pub struct RpcWriteHandler {
    database: CraftDatabase,
}

impl RpcWriteHandler {
    /// The database.
    pub closed spec fn db(&self) -> CraftDatabase {
        self.database
    }

    /// A handler of a database.
    pub fn new(database: CraftDatabase) -> (handler: RpcWriteHandler)
        ensures
            handler.db() == database,
    {
        RpcWriteHandler { database }
    }

    /// Checks the signature of a write.
    pub fn verify_signature(&self, msg: &SignedWrite) -> (result: Result<(), SqlError>)
        ensures
            result is Ok <==> well_signed(msg),
            result matches Err(e) ==> tells_bad_signature(e, msg.writer),
    {
        let signed = build_signed_payload(&msg.writer, msg.sql.as_str(), msg.expected_root);
        if !sign::verify_signature(signed.as_slice(), &msg.signature, &msg.writer) {
            return Err(SqlError::InvalidSignature { writer: msg.writer.to_hex() });
        }
        Ok(())
    }

    /// Checks whether a write may be executed: it is signed, its writer owns the database,
    /// and the writer has seen the current root. The first check that fails decides.
    pub fn check_write(&self, msg: &SignedWrite) -> (result: Result<(), SqlError>)
        ensures
            result is Ok <==> admitted(&self.db(), msg),
            result matches Err(e) ==> refused_with(e, &self.db(), msg),
    {
        match self.verify_signature(msg) {
            Ok(()) => {},
            Err(e) => {
                return Err(e);
            },
        }
        let ctx = CommitContext {
            writer: msg.writer,
            sql: String::from_str(msg.sql.as_str()),
            expected_root: msg.expected_root,
        };
        match commit::check_ownership(&ctx, self.database.owner()) {
            Ok(()) => {},
            Err(e) => {
                return Err(e);
            },
        }
        commit::check_cas(&ctx, Some(self.database.root_cid()))
    }

    /// Handles a write, given what came of running it. A write that is not admitted, and
    /// one that fails, change nothing; a commit gives the new root and is told.
    pub fn handle_signed_write(&mut self, msg: &SignedWrite, run: Execution) -> (result: Result<
        (Cid, Event),
        SqlError,
    >)
        ensures
            final(self).db().same_database(&old(self).db()),
            if !admitted(&old(self).db(), msg) {
                &&& result matches Err(e) && refused_with(e, &old(self).db(), msg)
                &&& *final(self) == *old(self)
            } else {
                match run {
                    Execution::Committed(root) => {
                        &&& result == Ok::<(Cid, Event), SqlError>(
                            (
                                root,
                                Event::PageCommitted {
                                    db_id: old(self).db().identity(),
                                    page_num: 0,
                                    root_cid: root,
                                },
                            ),
                        )
                        &&& final(self).db().root() == root
                    },
                    _ => {
                        &&& result == Err::<(Cid, Event), SqlError>(database::failure(run))
                        &&& *final(self) == *old(self)
                    },
                }
            },
    {
        match self.check_write(msg) {
            Ok(()) => {},
            Err(e) => {
                return Err(e);
            },
        }
        match self.database.execute(msg.sql.as_str(), &msg.writer, run) {
            Ok(event) => Ok((self.database.root_cid(), event)),
            Err(e) => Err(e),
        }
    }

    /// Executes a statement of a writer that asked for it directly, given what came of
    /// running it.
    pub fn execute(&mut self, sql: &str, writer: &NodeId, run: Execution) -> (result: Result<
        Event,
        SqlError,
    >)
        ensures
            final(self).db().same_database(&old(self).db()),
            if writer@ != old(self).db().owned_by()@ {
                &&& result matches Err(e) && commit::tells_unauthorized(
                    e,
                    *writer,
                    old(self).db().owned_by(),
                )
                &&& *final(self) == *old(self)
            } else {
                match run {
                    Execution::Committed(root) => {
                        &&& result == Ok::<Event, SqlError>(
                            Event::PageCommitted {
                                db_id: old(self).db().identity(),
                                page_num: 0,
                                root_cid: root,
                            },
                        )
                        &&& final(self).db().root() == root
                    },
                    _ => {
                        &&& result == Err::<Event, SqlError>(database::failure(run))
                        &&& *final(self) == *old(self)
                    },
                }
            },
    {
        self.database.execute(sql, writer, run)
    }

    /// The database.
    pub fn database(&self) -> (database: &CraftDatabase)
        ensures
            *database == self.db(),
    {
        &self.database
    }
}

/// Whether a write may be executed.
pub open spec fn admitted(db: &CraftDatabase, msg: &SignedWrite) -> bool {
    &&& well_signed(msg)
    &&& msg.writer@ == db.owned_by()@
    &&& !commit::conflicts(msg.expected_root, Some(db.root()))
}

/// Whether an error gives the first reason for which a write may not be executed.
pub open spec fn refused_with(e: SqlError, db: &CraftDatabase, msg: &SignedWrite) -> bool {
    if !well_signed(msg) {
        tells_bad_signature(e, msg.writer)
    } else if msg.writer@ != db.owned_by()@ {
        commit::tells_unauthorized(e, msg.writer, db.owned_by())
    } else {
        commit::tells_conflict(e, msg.expected_root, Some(db.root()))
    }
}

/// A write that names the root it has seen is executed once: after it, or any other, has
/// changed the root, the same message is refused as a conflict.
pub proof fn lemma_no_replay(before: &CraftDatabase, after: &CraftDatabase, msg: &SignedWrite)
    requires
        admitted(before, msg),
        msg.expected_root is Some,
        after.same_database(before),
        after.root()@ != before.root()@,
    ensures
        !admitted(after, msg),
        forall|e: SqlError| #[trigger]
            refused_with(e, after, msg) ==> commit::tells_conflict(
                e,
                msg.expected_root,
                Some(after.root()),
            ),
{
}

/// A length that fits in four bytes can be read from them.
pub proof fn lemma_length_read(len: nat)
    requires
        len <= u32::MAX,
    ensures
        ({
            let b = length_bytes(len);
            len == b[0] + 256 * b[1] + 65_536 * b[2] + 16_777_216 * b[3]
        }),
{
}

/// A signature is for one write only: other writers, statements or roots give other bytes.
/// Statements of four gigabytes and more are left out, since their length does not fit in
/// front of them.
pub proof fn lemma_payload_injective(
    writer1: Seq<u8>,
    sql1: Seq<char>,
    root1: Option<Cid>,
    writer2: Seq<u8>,
    sql2: Seq<char>,
    root2: Option<Cid>,
)
    requires
        writer1.len() == 32,
        writer2.len() == 32,
        vstd::utf8::encode_utf8(sql1).len() <= u32::MAX,
        vstd::utf8::encode_utf8(sql2).len() <= u32::MAX,
        payload(writer1, sql1, root1) == payload(writer2, sql2, root2),
    ensures
        writer1 == writer2,
        sql1 == sql2,
        root1 == root2,
{
    let a = payload(writer1, sql1, root1);
    let b = payload(writer2, sql2, root2);
    let s1 = vstd::utf8::encode_utf8(sql1);
    let s2 = vstd::utf8::encode_utf8(sql2);
    let l1 = length_bytes(s1.len());
    let l2 = length_bytes(s2.len());
    assert(a.subrange(4, 36) =~= writer1);
    assert(b.subrange(4, 36) =~= writer2);
    assert(a.subrange(36, 40) =~= l1);
    assert(b.subrange(36, 40) =~= l2);
    lemma_length_read(s1.len());
    lemma_length_read(s2.len());
    assert(s1.len() == s2.len());
    let end = 40 + s1.len() as int;
    assert(a.subrange(40, end) =~= s1);
    assert(b.subrange(40, end) =~= s2);
    vstd::utf8::encode_utf8_decode_utf8(sql1);
    vstd::utf8::encode_utf8_decode_utf8(sql2);
    assert(a.subrange(end, a.len() as int) =~= root_bytes(root1));
    assert(b.subrange(end, b.len() as int) =~= root_bytes(root2));
    let r1 = root_bytes(root1);
    let r2 = root_bytes(root2);
    assert(r1 == r2);
    assert(r1[0] == r2[0]);
    if let Some(c1) = root1 {
        if let Some(c2) = root2 {
            assert(r1.subrange(1, 33) =~= c1@);
            assert(r2.subrange(1, 33) =~= c2@);
            crate::types::cid::lemma_cid_equal(c1, c2);
        }
    }
}

}
