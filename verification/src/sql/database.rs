//! The database: its identity, its owner, its root, and the pages of its file.

use crate::obj::shard;
use crate::outside::digest;
use crate::sql::commit;
use crate::sql::commit::CommitContext;
use crate::sql::error::SqlError;
use crate::types::cid::Cid;
use crate::types::event::Event;
use crate::types::node_id::NodeId;
use crate::types::text;
use vstd::prelude::*;
use vstd::string::*;

verus! {

/// A value in a column.
#[derive(Debug, PartialEq, Eq)]
pub enum ColumnValue {
    /// No value.
    Null,
    /// An integer.
    Integer(i64),
    /// A real number, by the bits of its double-precision form.
    Real { bits: u64 },
    /// A text.
    Text(String),
    /// Bytes.
    Blob(Vec<u8>),
}

/// An integer in decimal, behind a minus sign where it is negative.
pub open spec fn signed_decimal(n: int) -> Seq<char> {
    if n < 0 {
        "-"@ + text::decimal((-n) as nat)
    } else {
        text::decimal(n as nat)
    }
}

/// Writes an integer in decimal.
pub fn push_signed(out: &mut String, n: i64)
    ensures
        final(out)@ == old(out)@ + signed_decimal(n as int),
{
    if n < 0 {
        out.append("-");
        let size: u64 = if n == i64::MIN {
            0x8000_0000_0000_0000
        } else {
            (-n) as u64
        };
        text::push_decimal(out, size);
    } else {
        text::push_decimal(out, n as u64);
    }
}

impl ColumnValue {
    /// The value in words; none of a real number, whose digits are not chosen here.
    pub open spec fn words(&self) -> Option<Seq<char>> {
        match self {
            ColumnValue::Null => Some("NULL"@),
            ColumnValue::Integer(n) => Some(signed_decimal(*n as int)),
            ColumnValue::Real { .. } => None,
            ColumnValue::Text(t) => Some(t@),
            ColumnValue::Blob(b) => Some("<"@ + text::decimal(b@.len()) + " bytes>"@),
        }
    }

    /// The value in words; none of a real number.
    pub fn text(&self) -> (words: Option<String>)
        ensures
            match words {
                Some(t) => self.words() == Some(t@),
                None => self.words() is None,
            },
    {
        match self {
            ColumnValue::Null => Some(String::from_str("NULL")),
            ColumnValue::Integer(n) => {
                let mut words = String::from_str("");
                push_signed(&mut words, *n);
                proof {
                    reveal_strlit("");
                    assert(words@ =~= signed_decimal(*n as int));
                }
                Some(words)
            },
            ColumnValue::Real { .. } => None,
            ColumnValue::Text(t) => Some(String::from_str(t.as_str())),
            ColumnValue::Blob(b) => Some(text::with_number("<", b.len() as u64, " bytes>")),
        }
    }
}

/// A write that its writer signed.
#[derive(Debug)]
pub struct SignedWrite {
    /// Who writes.
    pub writer: NodeId,
    /// The statement.
    pub sql: String,
    /// The root that the writer has seen.
    pub expected_root: Option<Cid>,
    /// The signature of the writer.
    pub signature: [u8; 64],
}

/// On which connection a statement runs.
#[derive(Clone, Copy, Debug, PartialEq, Eq, Structural)]
pub enum Connection {
    /// The connection that writes.
    Write,
    /// The connection that reads.
    Read,
}

/// A statement that prepares a new database.
#[derive(Debug)]
pub struct Setup {
    /// On which connection it runs.
    pub connection: Connection,
    /// Whether it returns rows.
    pub returns_rows: bool,
    /// The statement.
    pub sql: &'static str,
}

/// What came of running a statement.
pub enum Execution {
    /// The statement could not be executed.
    Refused(String),
    /// The file of the database could not be read.
    Unreadable(String),
    /// The pages could not be stored.
    NotStored(String),
    /// The pages are stored under a root.
    Committed(Cid),
}

/// The error of a statement that failed.
pub open spec fn failure(run: Execution) -> SqlError {
    match run {
        Execution::Refused(why) => SqlError::SqlSyntaxError(why),
        Execution::Unreadable(why) => SqlError::Io(why),
        Execution::NotStored(why) => SqlError::VfsError(why),
        Execution::Committed(_) => SqlError::NotInitialised,
    }
}

/// A database with one writer.
pub struct CraftDatabase {
    db_id: Cid,
    owner: NodeId,
    root_cid: Cid,
    db_path: String,
}

impl CraftDatabase {
    /// The identity of the database.
    pub closed spec fn identity(&self) -> Cid {
        self.db_id
    }

    /// The owner.
    pub closed spec fn owned_by(&self) -> NodeId {
        self.owner
    }

    /// The current root.
    pub closed spec fn root(&self) -> Cid {
        self.root_cid
    }

    /// The file of the database.
    pub closed spec fn path(&self) -> Seq<char> {
        self.db_path@
    }

    /// Whether two states are of one database, whatever their roots.
    pub open spec fn same_database(&self, other: &CraftDatabase) -> bool {
        &&& self.identity() == other.identity()
        &&& self.owned_by() == other.owned_by()
        &&& self.path() == other.path()
    }

    /// The statements that prepare a new database, in their order: pages of 16384 bytes, a
    /// journal that is deleted, and a first table, so that there are pages to store.
    pub fn setup() -> (statements: Vec<Setup>)
        ensures
            statements@.len() == 6,
            statements@[0] == (Setup {
                connection: Connection::Write,
                returns_rows: true,
                sql: "PRAGMA page_size = 16384",
            }),
            statements@[1] == (Setup {
                connection: Connection::Write,
                returns_rows: true,
                sql: "PRAGMA journal_mode = DELETE",
            }),
            statements@[2] == (Setup {
                connection: Connection::Write,
                returns_rows: true,
                sql: "PRAGMA busy_timeout = 5000",
            }),
            statements@[3] == (Setup {
                connection: Connection::Write,
                returns_rows: false,
                sql: "CREATE TABLE IF NOT EXISTS _craftec_meta (key TEXT PRIMARY KEY, value TEXT)",
            }),
            statements@[4] == (Setup {
                connection: Connection::Write,
                returns_rows: false,
                sql: "INSERT OR REPLACE INTO _craftec_meta VALUES ('version', '1')",
            }),
            statements@[5] == (Setup {
                connection: Connection::Read,
                returns_rows: true,
                sql: "PRAGMA busy_timeout = 5000",
            }),
    {
        let mut statements: Vec<Setup> = Vec::new();
        statements.push(
            Setup {
                connection: Connection::Write,
                returns_rows: true,
                sql: "PRAGMA page_size = 16384",
            },
        );
        statements.push(
            Setup {
                connection: Connection::Write,
                returns_rows: true,
                sql: "PRAGMA journal_mode = DELETE",
            },
        );
        statements.push(
            Setup {
                connection: Connection::Write,
                returns_rows: true,
                sql: "PRAGMA busy_timeout = 5000",
            },
        );
        statements.push(
            Setup {
                connection: Connection::Write,
                returns_rows: false,
                sql: "CREATE TABLE IF NOT EXISTS _craftec_meta (key TEXT PRIMARY KEY, value TEXT)",
            },
        );
        statements.push(
            Setup {
                connection: Connection::Write,
                returns_rows: false,
                sql: "INSERT OR REPLACE INTO _craftec_meta VALUES ('version', '1')",
            },
        );
        statements.push(
            Setup {
                connection: Connection::Read,
                returns_rows: true,
                sql: "PRAGMA busy_timeout = 5000",
            },
        );
        statements
    }

    /// The file of a database under a directory.
    pub fn file_under(data_dir: &str) -> (path: String)
        ensures
            path@ == shard::joined(data_dir@, "craftec.db"@),
    {
        shard::join_path(data_dir, "craftec.db")
    }

    /// A new database of an owner, given what came of preparing it and of storing its first
    /// pages. Its identity is the digest of the owner's key.
    pub fn create(
        owner: NodeId,
        data_dir: &str,
        prepared: Result<Cid, SqlError>,
    ) -> (result: Result<CraftDatabase, SqlError>)
        ensures
            match prepared {
                Ok(root) => {
                    &&& result matches Ok(db)
                    &&& db.identity()@ == digest::blake3_digest(owner@)
                    &&& db.owned_by() == owner
                    &&& db.root() == root
                    &&& db.path() == shard::joined(data_dir@, "craftec.db"@)
                },
                Err(e) => result == Err::<CraftDatabase, SqlError>(e),
            },
    {
        match prepared {
            Ok(root_cid) => Ok(
                CraftDatabase {
                    db_id: Cid::from_data(owner.as_bytes().as_slice()),
                    owner,
                    root_cid,
                    db_path: CraftDatabase::file_under(data_dir),
                },
            ),
            Err(e) => Err(e),
        }
    }

    /// Checks that a writer may execute a statement.
    pub fn may_execute(&self, sql: &str, writer: &NodeId) -> (result: Result<(), SqlError>)
        ensures
            result is Err <==> writer@ != self.owned_by()@,
            result matches Err(e) ==> commit::tells_unauthorized(e, *writer, self.owned_by()),
    {
        let ctx = CommitContext {
            writer: *writer,
            sql: String::from_str(sql),
            expected_root: None,
        };
        commit::check_ownership(&ctx, &self.owner)
    }

    /// Executes a statement, given what came of running it: only for the owner, and only a
    /// commit changes the root and is told.
    pub fn execute(&mut self, sql: &str, writer: &NodeId, run: Execution) -> (result: Result<
        Event,
        SqlError,
    >)
        ensures
            final(self).same_database(old(self)),
            if writer@ != old(self).owned_by()@ {
                &&& result matches Err(e) && commit::tells_unauthorized(
                    e,
                    *writer,
                    old(self).owned_by(),
                )
                &&& *final(self) == *old(self)
            } else {
                match run {
                    Execution::Committed(root) => {
                        &&& result == Ok::<Event, SqlError>(
                            Event::PageCommitted {
                                db_id: old(self).identity(),
                                page_num: 0,
                                root_cid: root,
                            },
                        )
                        &&& final(self).root() == root
                    },
                    _ => {
                        &&& result == Err::<Event, SqlError>(failure(run))
                        &&& *final(self) == *old(self)
                    },
                }
            },
    {
        match self.may_execute(sql, writer) {
            Ok(()) => {},
            Err(e) => {
                return Err(e);
            },
        }
        match run {
            Execution::Refused(why) => Err(SqlError::SqlSyntaxError(why)),
            Execution::Unreadable(why) => Err(SqlError::Io(why)),
            Execution::NotStored(why) => Err(SqlError::VfsError(why)),
            Execution::Committed(root) => {
                self.root_cid = root;
                Ok(Event::PageCommitted { db_id: self.db_id, page_num: 0, root_cid: root })
            },
        }
    }

    /// The current root.
    pub fn root_cid(&self) -> (root: Cid)
        ensures
            root == self.root(),
    {
        self.root_cid
    }

    /// The identity of the database.
    pub fn db_id(&self) -> (id: Cid)
        ensures
            id == self.identity(),
    {
        self.db_id
    }

    /// The owner.
    pub fn owner(&self) -> (owner: &NodeId)
        ensures
            *owner == self.owned_by(),
    {
        &self.owner
    }

    /// The file of the database.
    pub fn db_path(&self) -> (path: &str)
        ensures
            path@ == self.path(),
    {
        self.db_path.as_str()
    }
}

/// How many pages some bytes fill, the last one perhaps in part.
pub open spec fn page_count(len: nat, page_size: nat) -> nat {
    (len + page_size - 1) as nat / page_size
}

/// A page of some bytes, filled up with zeros.
pub open spec fn page_of(bytes: Seq<u8>, page_size: nat, n: int) -> Seq<u8> {
    Seq::new(
        page_size,
        |i: int|
            if n * page_size + i < bytes.len() {
                bytes[n * page_size + i]
            } else {
                0u8
            },
    )
}

/// The pages of the bytes of a database file, each filled up with zeros.
pub fn pages(bytes: &[u8], page_size: usize) -> (list: Vec<Vec<u8>>)
    requires
        page_size > 0,
    ensures
        list@.len() == page_count(bytes@.len(), page_size as nat),
        forall|n: int|
            0 <= n < list@.len() ==> (#[trigger] list@[n])@ == page_of(
                bytes@,
                page_size as nat,
                n,
            ),
{
    let mut list: Vec<Vec<u8>> = Vec::new();
    let mut at: usize = 0;
    let ghost size = page_size as int;
    assert(0 * size == 0) by (nonlinear_arith);
    while at < bytes.len()
        invariant
            page_size > 0,
            size == page_size,
            at <= bytes@.len(),
            at < bytes@.len() ==> at == list@.len() * size,
            at == bytes@.len() ==> list@.len() * size >= at && (list@.len() - 1) * size < at || at
                == 0 && list@.len() == 0,
            forall|n: int|
                0 <= n < list@.len() ==> (#[trigger] list@[n])@ == page_of(
                    bytes@,
                    page_size as nat,
                    n,
                ),
        decreases bytes@.len() - at,
    {
        let mut page: Vec<u8> = Vec::new();
        let ghost n = list@.len() as int;
        let mut i: usize = 0;
        while i < page_size
            invariant
                i <= page_size,
                size == page_size,
                at < bytes@.len(),
                at == n * size,
                page@.len() == i,
                forall|j: int|
                    0 <= j < i ==> #[trigger] page@[j] == page_of(bytes@, page_size as nat, n)[j],
            decreases page_size - i,
        {
            let b: u8 = if i < bytes.len() - at {
                bytes[at + i]
            } else {
                0
            };
            page.push(b);
            i = i + 1;
        }
        proof {
            assert(page@ =~= page_of(bytes@, page_size as nat, n));
        }
        list.push(page);
        proof {
            assert((n + 1) * size == n * size + size) by (nonlinear_arith);
        }
        at = if page_size < bytes.len() - at {
            at + page_size
        } else {
            bytes.len()
        };
    }
    proof {
        lemma_page_count(bytes@.len(), page_size as nat, list@.len());
    }
    list
}

proof fn lemma_page_count(len: nat, size: nat, count: nat)
    requires
        size > 0,
        count * size >= len && (count - 1) * size < len || len == 0 && count == 0,
    ensures
        count == page_count(len, size),
{
    if count == 0 {
        if len > 0 {
            assert(0 * size == 0);
        }
        assert((size - 1) as nat / size == 0) by (nonlinear_arith)
            requires
                size > 0,
        ;
    } else {
        let x = len + size - 1;
        let r = x - count * size;
        assert((count - 1) * size == count * size - size) by (nonlinear_arith);
        assert(0 <= r < size);
        vstd::arithmetic::div_mod::lemma_fundamental_div_mod_converse(
            x,
            size as int,
            count as int,
            r,
        );
    }
}

/// The pages in a row begin with the bytes of the file: no byte is lost, and behind them
/// there are only zeros.
pub proof fn lemma_pages_hold_bytes(bytes: Seq<u8>, page_size: nat, i: int)
    requires
        page_size > 0,
        0 <= i < page_count(bytes.len(), page_size) * page_size,
    ensures
        0 <= i / page_size as int,
        i / (page_size as int) < page_count(bytes.len(), page_size),
        page_of(bytes, page_size, i / page_size as int)[i % page_size as int] == (if i
            < bytes.len() {
            bytes[i]
        } else {
            0u8
        }),
{
    let size = page_size as int;
    vstd::arithmetic::div_mod::lemma_fundamental_div_mod(i, size);
    let n = i / size;
    let r = i % size;
    let count = page_count(bytes.len(), page_size) as int;
    assert(size * n == n * size) by (nonlinear_arith);
    assert(0 <= n) by (nonlinear_arith)
        requires
            i == n * size + r,
            0 <= i,
            r < size,
            size > 0,
    ;
    assert(n < count) by (nonlinear_arith)
        requires
            i == n * size + r,
            0 <= r,
            i < count * size,
            size > 0,
    ;
}

}
