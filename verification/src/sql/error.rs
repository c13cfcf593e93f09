//! Errors of the database layer.

use crate::types::text;
use vstd::prelude::*;
use vstd::string::*;

verus! {

/// Why a database operation failed.
#[derive(Debug, PartialEq, Eq)]
pub enum SqlError {
    /// The writer does not own the database.
    UnauthorizedWriter { writer: String, owner: String },
    /// A write that its writer did not sign.
    InvalidSignature { writer: String },
    /// The writer has seen another root than the current one.
    CasConflict { expected: String, actual: String },
    /// The page store failed.
    VfsError(String),
    /// A statement that cannot be executed.
    SqlSyntaxError(String),
    /// A schema migration failed.
    MigrationFailed(String),
    /// There is no database yet.
    NotInitialised,
    /// There is a database already.
    AlreadyExists(String),
    /// Something could not be written or read.
    SerializationError(String),
    /// The database engine failed.
    LibsqlError(String),
    /// A file operation failed.
    Io(String),
}

impl SqlError {
    /// The error in words.
    pub open spec fn words(&self) -> Seq<char> {
        match self {
            SqlError::UnauthorizedWriter { writer, owner } => "write rejected: writer "@ + writer@
                + " is not the database owner "@ + owner@,
            SqlError::InvalidSignature { writer } => "invalid signature on write message from "@
                + writer@,
            SqlError::CasConflict { expected, actual } => "CAS conflict: expected root "@
                + expected@ + ", got "@ + actual@,
            SqlError::VfsError(why) => "VFS error: "@ + why@,
            SqlError::SqlSyntaxError(why) => "SQL error: "@ + why@,
            SqlError::MigrationFailed(why) => "schema migration failed: "@ + why@,
            SqlError::NotInitialised => "database not initialised"@,
            SqlError::AlreadyExists(owner) => "database already exists for owner "@ + owner@,
            SqlError::SerializationError(why) => "serialization error: "@ + why@,
            SqlError::LibsqlError(why) => "libsql error: "@ + why@,
            SqlError::Io(why) => "I/O error: "@ + why@,
        }
    }

    /// The error in words.
    pub fn message(&self) -> (words: String)
        ensures
            words@ == self.words(),
    {
        match self {
            SqlError::UnauthorizedWriter { writer, owner } => {
                let mut words = text::join3(
                    "write rejected: writer ",
                    writer.as_str(),
                    " is not the database owner ",
                );
                words.append(owner.as_str());
                words
            },
            SqlError::InvalidSignature { writer } => text::join2(
                "invalid signature on write message from ",
                writer.as_str(),
            ),
            SqlError::CasConflict { expected, actual } => {
                let mut words = text::join3(
                    "CAS conflict: expected root ",
                    expected.as_str(),
                    ", got ",
                );
                words.append(actual.as_str());
                words
            },
            SqlError::VfsError(why) => text::join2("VFS error: ", why.as_str()),
            SqlError::SqlSyntaxError(why) => text::join2("SQL error: ", why.as_str()),
            SqlError::MigrationFailed(why) => text::join2("schema migration failed: ", why.as_str()),
            SqlError::NotInitialised => String::from_str("database not initialised"),
            SqlError::AlreadyExists(owner) => text::join2(
                "database already exists for owner ",
                owner.as_str(),
            ),
            SqlError::SerializationError(why) => text::join2("serialization error: ", why.as_str()),
            SqlError::LibsqlError(why) => text::join2("libsql error: ", why.as_str()),
            SqlError::Io(why) => text::join2("I/O error: ", why.as_str()),
        }
    }
}

}
