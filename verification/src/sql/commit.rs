//! The checks before a write: who writes, and what state the writer has seen.

use crate::outside::hexadecimal;
use crate::sql::error::SqlError;
use crate::types::cid::Cid;
use crate::types::node_id::NodeId;
use vstd::prelude::*;

verus! {

/// What a commit is about.
#[derive(Debug)]
pub struct CommitContext {
    /// Who writes.
    pub writer: NodeId,
    /// The statement.
    pub sql: String,
    /// The root that the writer has seen.
    pub expected_root: Option<Cid>,
}

/// What a commit came to.
#[derive(Clone, Copy, Debug, PartialEq, Eq)]
pub struct CommitResult {
    /// The new root.
    pub new_root: Cid,
    /// How many pages were written.
    pub pages_written: usize,
}

/// Whether the root that a writer has seen stands in the way of a write: both are known and
/// differ.
pub open spec fn conflicts(expected: Option<Cid>, current: Option<Cid>) -> bool {
    expected matches Some(e) && current matches Some(c) && e@ != c@
}

/// Whether an error tells of two different roots.
pub open spec fn tells_conflict(e: SqlError, expected: Option<Cid>, current: Option<Cid>) -> bool {
    &&& e matches SqlError::CasConflict { expected: a, actual: b }
    &&& expected matches Some(x) && a@ == hexadecimal::hex_text(x@)
    &&& current matches Some(y) && b@ == hexadecimal::hex_text(y@)
}

/// Whether an error tells that a writer does not own the database.
pub open spec fn tells_unauthorized(e: SqlError, writer: NodeId, owner: NodeId) -> bool {
    e matches SqlError::UnauthorizedWriter { writer: a, owner: b } && a@ == hexadecimal::hex_text(
        writer@,
    ) && b@ == hexadecimal::hex_text(owner@)
}

/// Checks that the writer has seen the current root. A writer that names none is let pass.
pub fn check_cas(ctx: &CommitContext, current_root: Option<Cid>) -> (result: Result<(), SqlError>)
    ensures
        result is Err <==> conflicts(ctx.expected_root, current_root),
        result matches Err(e) ==> tells_conflict(e, ctx.expected_root, current_root),
{
    if let Some(expected) = ctx.expected_root {
        if let Some(current) = current_root {
            if expected != current {
                return Err(
                    SqlError::CasConflict { expected: expected.to_hex(), actual: current.to_hex() },
                );
            }
        }
    }
    Ok(())
}

/// Checks that the writer owns the database.
pub fn check_ownership(ctx: &CommitContext, owner: &NodeId) -> (result: Result<(), SqlError>)
    ensures
        result is Err <==> ctx.writer@ != owner@,
        result matches Err(e) ==> tells_unauthorized(e, ctx.writer, *owner),
{
    if ctx.writer != *owner {
        return Err(
            SqlError::UnauthorizedWriter { writer: ctx.writer.to_hex(), owner: owner.to_hex() },
        );
    }
    Ok(())
}

}
