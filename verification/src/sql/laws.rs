//! What commits, migrations, databases and signed writes promise.

use crate::outside::ed25519;
use crate::outside::hexadecimal;
use crate::sql::commit;
use crate::sql::database;
use crate::sql::database::ColumnValue;
use crate::sql::database::CraftDatabase;
use crate::sql::database::Execution;
use crate::sql::database::SignedWrite;
use crate::sql::error::SqlError;
use crate::sql::rpc_write;
use crate::sql::schema;
use crate::types;
use crate::types::cid::Cid;
use crate::types::laws;
use crate::types::node_id::NodeId;
use crate::types::text;
use vstd::prelude::*;

verus! {

/// A writer that names no root is let pass, and so is one that names the current one; one
/// that names another is not.
pub proof fn lemma_conflicts(seen: Cid, current: Cid)
    ensures
        !commit::conflicts(None, Some(current)),
        !commit::conflicts(None, None),
        !commit::conflicts(Some(seen), None),
        commit::conflicts(Some(seen), Some(current)) <==> seen@ != current@,
{
}

/// The error of a conflict names both roots, the one that was seen first, and the error of a
/// foreign writer names the writer and the owner: from the texts both can be read.
pub proof fn lemma_errors_name(
    e: SqlError,
    seen: Cid,
    current: Cid,
    writer: NodeId,
    owner: NodeId,
)
    ensures
        commit::tells_conflict(e, Some(seen), Some(current)) ==> (e matches SqlError::CasConflict {
            expected,
            actual,
        } && hexadecimal::hex_bytes(expected@) == seen@ && hexadecimal::hex_bytes(actual@)
            == current@),
        commit::tells_unauthorized(e, writer, owner) ==> (
        e matches SqlError::UnauthorizedWriter { writer: a, owner: b } && hexadecimal::hex_bytes(a@)
            == writer@ && hexadecimal::hex_bytes(b@) == owner@),
        rpc_write::tells_bad_signature(e, writer) ==> (e matches SqlError::InvalidSignature {
            writer: a,
        } && hexadecimal::hex_bytes(a@) == writer@),
{
    hexadecimal::lemma_hex_round_trip(seen@);
    hexadecimal::lemma_hex_round_trip(current@);
    hexadecimal::lemma_hex_round_trip(writer@);
    hexadecimal::lemma_hex_round_trip(owner@);
}

/// A migration is blank exactly if trimming leaves nothing of it.
pub proof fn lemma_blank(text: Seq<char>)
    ensures
        schema::blank(text) <==> crate::types::parse::trimmed(text).len() == 0,
{
    let cut = laws::lemma_trimmed(text);
    if schema::blank(text) && cut.0 < cut.1 {
        assert(crate::types::parse::white_space(text[cut.0]));
    }
    if cut.0 == cut.1 {
        assert forall|i: int| 0 <= i < text.len() implies crate::types::parse::white_space(
            #[trigger] text[i],
        ) by {
            if i < cut.0 {
            } else {
                assert(cut.1 <= i);
            }
        }
    }
}

/// The small letters have their capitals, and no other character changes.
pub proof fn lemma_upper(c: char)
    ensures
        'a' <= c <= 'z' ==> 'A' <= schema::upper(c) <= 'Z' && schema::upper(c) as int + 32 == c as int,
        !('a' <= c <= 'z') ==> schema::upper(c) == c,
{
}

/// A word is mentioned exactly if it stands in the text in capitals.
pub proof fn lemma_mentions(text: Seq<char>, word: Seq<char>)
    ensures
        schema::mentions(text, word) <==> text::holds(
            text.map_values(|c: char| schema::upper(c)),
            word,
        ),
{
    let capitals = text.map_values(|c: char| schema::upper(c));
    if schema::mentions(text, word) {
        let at = choose|at: int| #[trigger] schema::stands_at(text, word, at);
        assert(capitals.subrange(at, at + word.len()) =~= word) by {
            assert forall|i: int| 0 <= i < word.len() implies #[trigger] capitals.subrange(
                at,
                at + word.len(),
            )[i] == word[i] by {
                assert(schema::upper(text[at + i]) == word[i]);
            }
        }
        assert(text::stands_at(capitals, word, at));
    }
    if text::holds(capitals, word) {
        let at = choose|at: int| #[trigger] text::stands_at(capitals, word, at);
        assert forall|i: int| 0 <= i < word.len() implies schema::upper(#[trigger] text[at + i])
            == word[i] by {
            assert(capitals.subrange(at, at + word.len())[i] == capitals[at + i]);
        }
        assert(schema::stands_at(text, word, at));
    }
}

/// A statement that was refused, a file that could not be read and pages that could not be
/// stored are told apart, each with its reason.
pub proof fn lemma_failures(why: String)
    ensures
        database::failure(Execution::Refused(why)) == SqlError::SqlSyntaxError(why),
        database::failure(Execution::Unreadable(why)) == SqlError::Io(why),
        database::failure(Execution::NotStored(why)) == SqlError::VfsError(why),
{
}

/// States of one database agree on identity, owner and file.
pub proof fn lemma_same_database(a: &CraftDatabase, b: &CraftDatabase)
    ensures
        a.same_database(b) <==> a.identity() == b.identity() && a.owned_by() == b.owned_by()
            && a.path() == b.path(),
{
}

/// An integer in decimal is read back: digits behind a minus sign stand for a negative one.
pub proof fn lemma_signed_decimal(n: int)
    ensures
        n >= 0 ==> crate::types::parse::digits_value(database::signed_decimal(n)) == n,
        n < 0 ==> database::signed_decimal(n)[0] == '-' && crate::types::parse::digits_value(
            database::signed_decimal(n).skip(1),
        ) == -n,
{
    reveal_strlit("-");
    if n >= 0 {
        laws::lemma_decimal_round_trip(n as nat);
    } else {
        laws::lemma_decimal_round_trip((-n) as nat);
        assert(database::signed_decimal(n).skip(1) =~= text::decimal((-n) as nat));
    }
}

/// As many pages as it takes: they hold all bytes, and one fewer would not.
pub proof fn lemma_page_count(len: nat, size: nat)
    requires
        size > 0,
    ensures
        database::page_count(len, size) * size >= len,
        len > 0 ==> (database::page_count(len, size) - 1) * size < len,
        len == 0 ==> database::page_count(len, size) == 0,
{
    let x = (len + size - 1) as int;
    let q = x / size as int;
    let r = x % size as int;
    vstd::arithmetic::div_mod::lemma_fundamental_div_mod(x, size as int);
    assert(size * q == q * size) by (nonlinear_arith);
    assert((q - 1) * size == q * size - size) by (nonlinear_arith);
    if len == 0 {
        vstd::arithmetic::div_mod::lemma_small_mod((size - 1) as nat, size);
        assert(q == 0) by (nonlinear_arith)
            requires
                q * size == 0,
                size > 0,
        ;
    }
}

/// What is signed begins with the length of the writer's identifier and the identifier, goes
/// on with the length of the statement and the statement, and ends with a zero, or with a one
/// and the root that was seen.
pub proof fn lemma_payload_layout(writer: Seq<u8>, sql: Seq<char>, root: Option<Cid>)
    requires
        writer.len() == 32,
    ensures
        ({
            let p = rpc_write::payload(writer, sql, root);
            let statement = vstd::utf8::encode_utf8(sql);
            let n = statement.len() as int;
            &&& p.len() == 41 + n + if root is Some {
                32int
            } else {
                0int
            }
            &&& p[0] == 32 && p[1] == 0 && p[2] == 0 && p[3] == 0
            &&& p.subrange(4, 36) == writer
            &&& n <= u32::MAX ==> n == p[36] + 256 * p[37] + 65_536 * p[38] + 16_777_216 * p[39]
            &&& p.subrange(40, 40 + n) == statement
            &&& root is None ==> p[40 + n] == 0
            &&& root matches Some(cid) ==> p[40 + n] == 1 && p.subrange(41 + n, 73 + n) == cid@
        }),
{
    let p = rpc_write::payload(writer, sql, root);
    let statement = vstd::utf8::encode_utf8(sql);
    let n = statement.len() as int;
    assert(p.subrange(4, 36) =~= writer);
    assert(p.subrange(40, 40 + n) =~= statement);
    if n <= u32::MAX {
        rpc_write::lemma_length_read(statement.len());
    }
    if let Some(cid) = root {
        assert(p.subrange(41 + n, 73 + n) =~= cid@);
    }
}

/// A write is executed exactly if its writer signed writer, statement and root, owns the
/// database, and named the current root or none.
pub proof fn lemma_admitted(db: &CraftDatabase, msg: &SignedWrite)
    ensures
        rpc_write::admitted(db, msg) <==> {
            &&& ed25519::ed25519_accepts(
                msg.writer@,
                rpc_write::payload(msg.writer@, msg.sql@, msg.expected_root),
                msg.signature@,
            )
            &&& msg.writer@ == db.owned_by()@
            &&& msg.expected_root is None || msg.expected_root->0@ == db.root()@
        },
{
}

/// A write that is refused is told the first reason: the signature, then the owner, then the
/// root.
pub proof fn lemma_refused(db: &CraftDatabase, msg: &SignedWrite, e: SqlError)
    requires
        !rpc_write::admitted(db, msg),
        rpc_write::refused_with(e, db, msg),
    ensures
        e is InvalidSignature <==> !ed25519::ed25519_accepts(
            msg.writer@,
            rpc_write::payload(msg.writer@, msg.sql@, msg.expected_root),
            msg.signature@,
        ),
        e is UnauthorizedWriter ==> msg.writer@ != db.owned_by()@,
        e is CasConflict ==> msg.writer@ == db.owned_by()@ && msg.expected_root is Some
            && msg.expected_root->0@ != db.root()@,
        e is InvalidSignature || e is UnauthorizedWriter || e is CasConflict,
{
}

/// What is told of an error holds all that the error carries.
pub proof fn lemma_error_told(e: SqlError)
    ensures
        e matches SqlError::UnauthorizedWriter { writer, owner } ==> text::holds(e.words(), writer@)
            && text::holds(e.words(), owner@),
        e matches SqlError::InvalidSignature { writer } ==> text::holds(e.words(), writer@),
        e matches SqlError::CasConflict { expected, actual } ==> text::holds(e.words(), expected@)
            && text::holds(e.words(), actual@),
        e matches SqlError::VfsError(s) ==> text::holds(e.words(), s@),
        e matches SqlError::SqlSyntaxError(s) ==> text::holds(e.words(), s@),
        e matches SqlError::MigrationFailed(s) ==> text::holds(e.words(), s@),
        e matches SqlError::AlreadyExists(s) ==> text::holds(e.words(), s@),
        e matches SqlError::SerializationError(s) ==> text::holds(e.words(), s@),
        e matches SqlError::LibsqlError(s) ==> text::holds(e.words(), s@),
        e matches SqlError::Io(s) ==> text::holds(e.words(), s@),
{
    let none = Seq::<char>::empty();
    match e {
        SqlError::UnauthorizedWriter { writer, owner } => {
            types::laws::lemma_parts_held(
                "write rejected: writer "@,
                writer@,
                " is not the database owner "@,
                owner@,
                none,
            );
        },
        SqlError::InvalidSignature { writer } => {
            types::laws::lemma_parts_held(
                "invalid signature on write message from "@,
                writer@,
                none,
                none,
                none,
            );
        },
        SqlError::CasConflict { expected, actual } => {
            types::laws::lemma_parts_held(
                "CAS conflict: expected root "@,
                expected@,
                ", got "@,
                actual@,
                none,
            );
        },
        SqlError::VfsError(s) => {
            types::laws::lemma_parts_held("VFS error: "@, s@, none, none, none);
        },
        SqlError::SqlSyntaxError(s) => {
            types::laws::lemma_parts_held("SQL error: "@, s@, none, none, none);
        },
        SqlError::MigrationFailed(s) => {
            types::laws::lemma_parts_held("schema migration failed: "@, s@, none, none, none);
        },
        SqlError::AlreadyExists(s) => {
            types::laws::lemma_parts_held("database already exists for owner "@, s@, none, none, none);
        },
        SqlError::SerializationError(s) => {
            types::laws::lemma_parts_held("serialization error: "@, s@, none, none, none);
        },
        SqlError::LibsqlError(s) => {
            types::laws::lemma_parts_held("libsql error: "@, s@, none, none, none);
        },
        SqlError::Io(s) => {
            types::laws::lemma_parts_held("I/O error: "@, s@, none, none, none);
        },
        _ => {},
    }
}

/// A column is told as what it holds: nothing, an integer that is read back, a text as it is,
/// and bytes by their number.
pub proof fn lemma_column_told(column: ColumnValue)
    ensures
        column matches ColumnValue::Text(t) ==> column.words() == Some(t@),
        column is Null ==> column.words() == Some(seq!['N', 'U', 'L', 'L']),
        column matches ColumnValue::Integer(n) ==> column.words() is Some && (if n >= 0 {
            crate::types::parse::digits_value(column.words()->0) == n
        } else {
            column.words()->0[0] == '-' && crate::types::parse::digits_value(
                column.words()->0.skip(1),
            ) == -n
        }),
        column matches ColumnValue::Blob(b) ==> column.words() is Some && text::holds(
            column.words()->0,
            text::decimal(b@.len()),
        ),
{
    reveal_strlit("NULL");
    match column {
        ColumnValue::Null => {
            assert("NULL"@ =~= seq!['N', 'U', 'L', 'L']);
        },
        ColumnValue::Integer(n) => {
            lemma_signed_decimal(n as int);
        },
        ColumnValue::Blob(b) => {
            let none = Seq::<char>::empty();
            types::laws::lemma_parts_held("<"@, text::decimal(b@.len()), " bytes>"@, none, none);
        },
        _ => {},
    }
}

}
