//! Schema migrations.

use crate::sql::database;
use crate::sql::database::CraftDatabase;
use crate::sql::database::Execution;
use crate::sql::error::SqlError;
use crate::types::event::Event;
use crate::types::node_id::NodeId;
use crate::types::parse;
use vstd::prelude::*;
use vstd::string::*;

verus! {

/// Whether a text holds nothing but white space.
pub open spec fn blank(text: Seq<char>) -> bool {
    forall|i: int| 0 <= i < text.len() ==> parse::white_space(#[trigger] text[i])
}

/// Refuses a migration without a statement.
pub fn validate_migration_sql(migration_sql: &str) -> (result: Result<(), SqlError>)
    ensures
        result is Err <==> blank(migration_sql@),
        result matches Err(e) ==> e matches SqlError::MigrationFailed(why) && why@
            == "migration SQL must not be empty"@,
{
    let len: usize = migration_sql.unicode_len();
    let mut i: usize = 0;
    while i < len
        invariant
            i <= len,
            len == migration_sql@.len(),
            forall|j: int| 0 <= j < i ==> parse::white_space(#[trigger] migration_sql@[j]),
        decreases len - i,
    {
        if !parse::is_white_space(migration_sql.get_char(i)) {
            return Ok(());
        }
        i = i + 1;
    }
    Err(SqlError::MigrationFailed(String::from_str("migration SQL must not be empty")))
}

/// A letter from `a` to `z` in upper case; other characters stay.
pub open spec fn upper(c: char) -> char {
    if 'a' <= c <= 'z' {
        (c as u32 - 32) as char
    } else {
        c
    }
}

/// Whether `word` stands in `text` from a place on, letter case aside.
pub open spec fn stands_at(text: Seq<char>, word: Seq<char>, at: int) -> bool {
    &&& 0 <= at
    &&& at + word.len() <= text.len()
    &&& forall|i: int| 0 <= i < word.len() ==> upper(#[trigger] text[at + i]) == word[i]
}

/// Whether `word` stands anywhere in `text`, letter case aside.
pub open spec fn mentions(text: Seq<char>, word: Seq<char>) -> bool {
    exists|at: int| #[trigger] stands_at(text, word, at)
}

fn matches_letter(c: char, capital: char) -> (same: bool)
    requires
        'A' <= capital <= 'Z',
    ensures
        same == (upper(c) == capital),
{
    c == capital || ('a' <= c && c <= 'z' && c as u32 - 32 == capital as u32)
}

fn has_word(text: &str, word: &str) -> (found: bool)
    requires
        word@.len() > 0,
        forall|i: int| 0 <= i < word@.len() ==> 'A' <= #[trigger] word@[i] <= 'Z',
    ensures
        found == mentions(text@, word@),
{
    let len: usize = text.unicode_len();
    let word_len: usize = word.unicode_len();
    if word_len > len {
        return false;
    }
    let mut at: usize = 0;
    while at <= len - word_len
        invariant
            word_len <= len,
            word_len > 0,
            at <= len - word_len + 1,
            len == text@.len(),
            word_len == word@.len(),
            forall|i: int| 0 <= i < word@.len() ==> 'A' <= #[trigger] word@[i] <= 'Z',
            forall|p: int| 0 <= p < at ==> !#[trigger] stands_at(text@, word@, p),
        decreases len - word_len + 1 - at,
    {
        let mut i: usize = 0;
        let mut same = true;
        while i < word_len && same
            invariant
                i <= word_len,
                word_len <= len,
                at <= len - word_len,
                len == text@.len(),
                word_len == word@.len(),
                forall|j: int| 0 <= j < word@.len() ==> 'A' <= #[trigger] word@[j] <= 'Z',
                same ==> forall|j: int| 0 <= j < i ==> upper(#[trigger] text@[at + j]) == word@[j],
                !same ==> !stands_at(text@, word@, at as int),
            decreases word_len - i + if same {
                1int
            } else {
                0int
            },
        {
            if matches_letter(text.get_char(at + i), word.get_char(i)) {
                i = i + 1;
            } else {
                same = false;
                proof {
                    assert(upper(text@[at + i]) != word@[i as int]);
                }
            }
        }
        if same {
            assert(stands_at(text@, word@, at as int));
            return true;
        }
        at = at + 1;
    }
    false
}

/// Whether a migration has a word that changes a schema. One without is unusual.
pub fn has_ddl(migration_sql: &str) -> (found: bool)
    ensures
        found == (mentions(migration_sql@, "CREATE"@) || mentions(migration_sql@, "ALTER"@)
            || mentions(migration_sql@, "DROP"@) || mentions(migration_sql@, "RENAME"@)),
{
    proof {
        reveal_strlit("CREATE");
        reveal_strlit("ALTER");
        reveal_strlit("DROP");
        reveal_strlit("RENAME");
    }
    has_word(migration_sql, "CREATE") || has_word(migration_sql, "ALTER") || has_word(
        migration_sql,
        "DROP",
    ) || has_word(migration_sql, "RENAME")
}

/// Applies a migration, given what came of running it. A writer who does not own the
/// database is told so; any other failure is a failed migration.
pub fn migrate(
    db: &mut CraftDatabase,
    owner: &NodeId,
    migration_sql: &str,
    run: Execution,
) -> (result: Result<Event, SqlError>)
    ensures
        final(db).same_database(old(db)),
        if blank(migration_sql@) {
            &&& result matches Err(SqlError::MigrationFailed(why)) && why@
                == "migration SQL must not be empty"@
            &&& *final(db) == *old(db)
        } else if owner@ != old(db).owned_by()@ {
            &&& result matches Err(e) && crate::sql::commit::tells_unauthorized(
                e,
                *owner,
                old(db).owned_by(),
            )
            &&& *final(db) == *old(db)
        } else {
            match run {
                Execution::Committed(root) => {
                    &&& result == Ok::<Event, SqlError>(
                        Event::PageCommitted {
                            db_id: old(db).identity(),
                            page_num: 0,
                            root_cid: root,
                        },
                    )
                    &&& final(db).root() == root
                },
                _ => {
                    &&& result matches Err(SqlError::MigrationFailed(why)) && why@
                        == database::failure(run).words()
                    &&& *final(db) == *old(db)
                },
            }
        },
{
    match validate_migration_sql(migration_sql) {
        Ok(()) => {},
        Err(e) => {
            return Err(e);
        },
    }
    match db.execute(migration_sql, owner, run) {
        Ok(event) => Ok(event),
        Err(e) => match e {
            SqlError::UnauthorizedWriter { writer, owner } => Err(
                SqlError::UnauthorizedWriter { writer, owner },
            ),
            other => Err(SqlError::MigrationFailed(other.message())),
        },
    }
}

}
