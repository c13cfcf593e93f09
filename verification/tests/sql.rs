//! Commits, migrations, databases and signed writes.

use std::collections::HashSet;

use craftec::crypto::sign::KeyStore;
use craftec::sql::commit::check_cas;
use craftec::sql::commit::check_ownership;
use craftec::sql::commit::CommitContext;
use craftec::sql::database::pages;
use craftec::sql::database::ColumnValue;
use craftec::sql::database::Connection;
use craftec::sql::database::CraftDatabase;
use craftec::sql::database::Execution;
use craftec::sql::database::SignedWrite;
use craftec::sql::error::SqlError;
use craftec::sql::rpc_write::build_signed_payload;
use craftec::sql::rpc_write::RpcWriteHandler;
use craftec::sql::schema::has_ddl;
use craftec::sql::schema::migrate;
use craftec::sql::schema::validate_migration_sql;
use craftec::types::cid::Cid;
use craftec::types::event::Event;
use craftec::types::node_id::NodeId;

fn keypair() -> KeyStore {
    KeyStore::generate(String::new())
}

fn cid(seed: u8) -> Cid {
    Cid::from_bytes([seed; 32])
}

// Commits

fn make_ctx(writer: NodeId, expected_root: Option<Cid>) -> CommitContext {
    CommitContext { writer, sql: "INSERT INTO t VALUES (1)".into(), expected_root }
}

#[test]
fn cas_passes_when_roots_match() {
    let node = keypair().node_id();
    let root = cid(0x01);
    let ctx = make_ctx(node, Some(root));
    assert!(check_cas(&ctx, Some(root)).is_ok());
}

#[test]
fn cas_fails_when_roots_differ() {
    let node = keypair().node_id();
    let ctx = make_ctx(node, Some(cid(0x01)));
    assert!(matches!(check_cas(&ctx, Some(cid(0x02))), Err(SqlError::CasConflict { .. })));
}

#[test]
fn cas_passes_when_expected_none() {
    let node = keypair().node_id();
    let ctx = make_ctx(node, None);
    assert!(check_cas(&ctx, None).is_ok());
    assert!(check_cas(&ctx, Some(cid(0xFF))).is_ok());
}

#[test]
fn ownership_check_passes_for_owner() {
    let owner = keypair().node_id();
    let ctx = make_ctx(owner, None);
    assert!(check_ownership(&ctx, &owner).is_ok());
}

#[test]
fn ownership_check_fails_for_non_owner() {
    let owner = keypair().node_id();
    let non_owner = keypair().node_id();
    let ctx = make_ctx(non_owner, None);
    assert!(matches!(check_ownership(&ctx, &owner), Err(SqlError::UnauthorizedWriter { .. })));
}

// Migrations

#[test]
fn empty_migration_sql_rejected() {
    assert!(validate_migration_sql("").is_err());
    assert!(validate_migration_sql("   ").is_err());
}

#[test]
fn non_empty_sql_accepted() {
    assert!(validate_migration_sql("CREATE TABLE t (id INTEGER PRIMARY KEY)").is_ok());
    assert!(validate_migration_sql("ALTER TABLE t ADD COLUMN x TEXT").is_ok());
}

#[test]
fn dml_only_sql_accepted_with_warning() {
    assert!(validate_migration_sql("INSERT INTO t VALUES (1)").is_ok());
}

#[test]
fn definitions_are_recognized() {
    assert!(has_ddl("create table t (id integer)"));
    assert!(has_ddl("  Alter Table t"));
    assert!(has_ddl("DROP TABLE t"));
    assert!(!has_ddl("INSERT INTO t VALUES (1)"));
}

#[test]
fn migrations_need_the_owner() {
    let (mut db, kp) = make_db();
    let owner = kp.node_id();
    let sql = "CREATE TABLE t (id INTEGER PRIMARY KEY)";
    match migrate(&mut db, &owner, sql, Execution::Committed(cid(7))) {
        Ok(Event::PageCommitted { root_cid, .. }) => assert_eq!(root_cid, cid(7)),
        other => panic!("expected a commit, got {:?}", other),
    }
    assert!(matches!(
        migrate(&mut db, &keypair().node_id(), sql, Execution::Committed(cid(8))),
        Err(_)
    ));
    assert!(migrate(&mut db, &owner, "  ", Execution::Committed(cid(8))).is_err());
    assert_eq!(db.root_cid(), cid(7));
}

// Databases

fn make_db() -> (CraftDatabase, KeyStore) {
    let kp = keypair();
    match CraftDatabase::create(kp.node_id(), "/data/sql", Ok(cid(1))) {
        Ok(db) => (db, kp),
        Err(e) => panic!("{}", e.message()),
    }
}

#[test]
fn database_creation_establishes_root_cid() {
    let (db, _) = make_db();
    assert_ne!(db.root_cid(), Cid::from_bytes([0u8; 32]));
}

#[test]
fn database_is_named_after_its_owner() {
    let (db, kp) = make_db();
    assert_eq!(db.owner(), &kp.node_id());
    assert_eq!(db.db_id(), Cid::from_data(kp.node_id().as_bytes()));
    assert_eq!(db.db_path(), CraftDatabase::file_under("/data/sql"));
}

#[test]
fn failed_preparation_fails_the_creation() {
    let owner = keypair().node_id();
    let prepared = Err(SqlError::VfsError("no pages".to_string()));
    assert!(matches!(
        CraftDatabase::create(owner, "/data", prepared),
        Err(SqlError::VfsError(_))
    ));
}

#[test]
fn setup_uses_a_write_ahead_log() {
    let steps = CraftDatabase::setup();
    assert!(steps.iter().any(|s| s.sql.contains("journal_mode")));
    assert!(steps.iter().any(|s| s.connection == Connection::Write));
    assert!(steps.iter().any(|s| s.connection == Connection::Read));
}

#[test]
fn owner_can_execute() {
    let (mut db, kp) = make_db();
    let sql = "CREATE TABLE t (id INTEGER PRIMARY KEY)";
    assert!(db.may_execute(sql, &kp.node_id()).is_ok());
    assert!(db.execute(sql, &kp.node_id(), Execution::Committed(cid(2))).is_ok());
}

#[test]
fn non_owner_execute_rejected() {
    let (mut db, _) = make_db();
    let non_owner = keypair().node_id();
    assert!(matches!(
        db.execute(
            "CREATE TABLE t (id INTEGER PRIMARY KEY)",
            &non_owner,
            Execution::Committed(cid(2))
        ),
        Err(SqlError::UnauthorizedWriter { .. })
    ));
}

#[test]
fn root_cid_changes_after_execute() {
    let (mut db, kp) = make_db();
    let initial_root = db.root_cid();
    let sql = "CREATE TABLE t (id INTEGER PRIMARY KEY, val TEXT)";
    assert!(db.execute(sql, &kp.node_id(), Execution::Committed(cid(2))).is_ok());
    assert_ne!(db.root_cid(), initial_root);
}

#[test]
fn invalid_sql_returns_error() {
    let (mut db, kp) = make_db();
    let before = db.root_cid();
    let result = db.execute(
        "THIS IS NOT VALID SQL",
        &kp.node_id(),
        Execution::Refused("syntax error".to_string()),
    );
    assert!(matches!(result, Err(SqlError::SqlSyntaxError(_))));
    let result = db.execute("SELECT 1", &kp.node_id(), Execution::Unreadable("io".to_string()));
    assert!(result.is_err());
    let result = db.execute("SELECT 1", &kp.node_id(), Execution::NotStored("full".to_string()));
    assert!(matches!(result, Err(SqlError::VfsError(_))));
    assert_eq!(db.root_cid(), before);
}

#[test]
fn execute_publishes_page_committed() {
    let (mut db, kp) = make_db();
    let sql = "CREATE TABLE t (id INTEGER PRIMARY KEY)";
    match db.execute(sql, &kp.node_id(), Execution::Committed(cid(2))) {
        Ok(Event::PageCommitted { db_id, root_cid, .. }) => {
            assert_eq!(db_id, db.db_id());
            assert_eq!(root_cid, db.root_cid());
        }
        other => panic!("expected PageCommitted, got {:?}", other),
    }
}

#[test]
fn column_values_in_words() {
    assert_eq!(ColumnValue::Null.text(), Some("NULL".to_string()));
    assert_eq!(ColumnValue::Integer(-42).text(), Some("-42".to_string()));
    assert_eq!(
        ColumnValue::Integer(i64::MIN).text(),
        Some("-9223372036854775808".to_string())
    );
    assert_eq!(ColumnValue::Text("hi".to_string()).text(), Some("hi".to_string()));
}

#[test]
fn pages_hold_the_file() {
    let list = pages(&[1, 2, 3, 4, 5], 2);
    assert_eq!(list, vec![vec![1, 2], vec![3, 4], vec![5, 0]]);
    assert!(pages(&[], 4).is_empty());
}

// Signed writes

fn make_handler() -> (RpcWriteHandler, KeyStore) {
    let (db, kp) = make_db();
    (RpcWriteHandler::new(db), kp)
}

fn sign_write(keypair: &KeyStore, sql: &str, expected_root: Option<Cid>) -> SignedWrite {
    let writer = keypair.node_id();
    let payload = build_signed_payload(&writer, sql, expected_root);
    let signature = keypair.sign(&payload);
    SignedWrite { writer, sql: sql.to_owned(), expected_root, signature }
}

fn write(
    handler: &mut RpcWriteHandler,
    keypair: &KeyStore,
    sql: &str,
    root: Cid,
    next: Cid,
) -> Result<Cid, SqlError> {
    let msg = sign_write(keypair, sql, Some(root));
    handler.check_write(&msg)?;
    let (new_root, _) = handler.handle_signed_write(&msg, Execution::Committed(next))?;
    Ok(new_root)
}

#[test]
fn payload_layout() {
    let writer = NodeId::from_bytes([9; 32]);
    let payload = build_signed_payload(&writer, "ab", Some(cid(3)));
    let other = build_signed_payload(&writer, "ab", None);
    assert_ne!(payload, other);
    assert!(payload.windows(32).any(|w| w == [9u8; 32]));
    assert!(payload.windows(32).any(|w| w == [3u8; 32]));
    assert_ne!(
        build_signed_payload(&writer, "a", None),
        build_signed_payload(&writer, "b", None)
    );
    let mut expected = vec![32, 0, 0, 0];
    expected.extend([9u8; 32]);
    expected.extend([2, 0, 0, 0, b'a', b'b', 1]);
    expected.extend([3u8; 32]);
    assert_eq!(payload, expected);
    let long = "x".repeat(0x1_0203);
    let payload = build_signed_payload(&writer, &long, None);
    assert_eq!(payload[36..40], [0x03, 0x02, 0x01, 0x00]);
    assert_eq!(payload.last(), Some(&0));
}

#[test]
fn owner_write_succeeds() {
    let (mut handler, keypair) = make_handler();
    let current_root = handler.database().root_cid();
    let new_root = write(
        &mut handler,
        &keypair,
        "CREATE TABLE t (id INTEGER PRIMARY KEY)",
        current_root,
        cid(2),
    )
    .unwrap();
    assert_ne!(new_root, current_root);
}

#[test]
fn invalid_signature_rejected() {
    let (mut handler, keypair) = make_handler();
    let other_keypair = KeyStore::generate(String::new());
    let writer = keypair.node_id();
    let current_root = handler.database().root_cid();
    let payload = build_signed_payload(&writer, "INSERT INTO t VALUES (1)", Some(current_root));
    let bad_sig = other_keypair.sign(&payload);
    let msg = SignedWrite {
        writer,
        sql: "INSERT INTO t VALUES (1)".into(),
        expected_root: Some(current_root),
        signature: bad_sig,
    };
    assert!(handler.verify_signature(&msg).is_err());
    assert!(matches!(
        handler.handle_signed_write(&msg, Execution::Committed(cid(2))),
        Err(SqlError::InvalidSignature { .. })
    ));
}

#[test]
fn non_owner_rejected() {
    let (mut handler, _) = make_handler();
    let non_owner_kp = KeyStore::generate(String::new());
    let current_root = handler.database().root_cid();
    let msg = sign_write(&non_owner_kp, "INSERT INTO t VALUES (2)", Some(current_root));
    assert!(matches!(
        handler.handle_signed_write(&msg, Execution::Committed(cid(2))),
        Err(SqlError::UnauthorizedWriter { .. })
    ));
}

#[test]
fn stale_root_cas_conflict() {
    let (mut handler, keypair) = make_handler();
    let stale_root = Cid::from_bytes([0xDE; 32]);
    let msg = sign_write(&keypair, "INSERT INTO t VALUES (3)", Some(stale_root));
    assert!(matches!(
        handler.handle_signed_write(&msg, Execution::Committed(cid(2))),
        Err(SqlError::CasConflict { .. })
    ));
}

#[test]
fn rpc_signed_write_end_to_end() {
    let (mut handler, keypair) = make_handler();
    let root_before = handler.database().root_cid();
    let sql = "CREATE TABLE users (id INTEGER PRIMARY KEY, name TEXT)";
    let new_root = write(&mut handler, &keypair, sql, root_before, cid(2)).unwrap();
    assert_ne!(new_root, root_before, "root CID should change after write");
    assert_eq!(handler.database().root_cid(), new_root);
}

#[test]
fn cas_conflict_on_stale_root() {
    let (mut handler, keypair) = make_handler();

    let root0 = handler.database().root_cid();
    let sql1 = "CREATE TABLE items (id INTEGER PRIMARY KEY)";
    let root1 = write(&mut handler, &keypair, sql1, root0, cid(2)).unwrap();
    assert_ne!(root1, root0);

    let result = write(&mut handler, &keypair, "INSERT INTO items VALUES (1)", root0, cid(3));
    assert!(
        matches!(result, Err(SqlError::CasConflict { .. })),
        "should get CAS conflict, got: {:?}",
        result
    );
}

#[test]
fn non_owner_write_rejected() {
    let (mut handler, _) = make_handler();
    let attacker = KeyStore::generate(String::new());

    let root = handler.database().root_cid();
    let result = write(&mut handler, &attacker, "CREATE TABLE evil (x INTEGER)", root, cid(2));
    assert!(
        matches!(result, Err(SqlError::UnauthorizedWriter { .. })),
        "non-owner write should be rejected, got: {:?}",
        result
    );
}

#[test]
fn multiple_sequential_rpc_writes() {
    let (mut handler, keypair) = make_handler();

    let root0 = handler.database().root_cid();
    let sql0 = "CREATE TABLE counters (id INTEGER PRIMARY KEY, val INTEGER)";
    let root1 = write(&mut handler, &keypair, sql0, root0, cid(2)).unwrap();

    let sql1 = "INSERT INTO counters VALUES (1, 100)";
    let root2 = write(&mut handler, &keypair, sql1, root1, cid(3)).unwrap();
    assert_ne!(root2, root1);

    let sql2 = "INSERT INTO counters VALUES (2, 200)";
    let root3 = write(&mut handler, &keypair, sql2, root2, cid(4)).unwrap();
    assert_ne!(root3, root2);

    let roots: HashSet<Cid> = [root0, root1, root2, root3].into_iter().collect();
    assert_eq!(roots.len(), 4);
}

// Errors

#[test]
fn sql_errors_in_words() {
    let e = SqlError::UnauthorizedWriter { writer: "aa".into(), owner: "bb".into() };
    assert!(e.message().contains("aa") && e.message().contains("bb"));
    assert!(SqlError::InvalidSignature { writer: "cc".into() }.message().contains("cc"));
    let e = SqlError::CasConflict { expected: "dd".into(), actual: "ee".into() };
    assert!(e.message().contains("dd") && e.message().contains("ee"));
    assert!(SqlError::MigrationFailed("ff".into()).message().contains("ff"));
    assert!(!SqlError::NotInitialised.message().is_empty());
    assert!(SqlError::AlreadyExists("gg".into()).message().contains("gg"));
    assert!(SqlError::SerializationError("hh".into()).message().contains("hh"));
    assert!(SqlError::LibsqlError("ii".into()).message().contains("ii"));
    assert!(SqlError::Io("jj".into()).message().contains("jj"));
}
