//! The node: its configuration, messages, requests, client and events.

use craftec::com::runtime::ComRuntime;
use craftec::crypto::sign::KeyStore;
use craftec::health::tracker::PieceHolder;
use craftec::health::tracker::PieceTracker;
use craftec::net::dht::DhtProviders;
use craftec::net::pending::PendingFetches;
use craftec::net::swim::SwimMembership;
use craftec::node::cli::execute_request;
use craftec::node::cli::parse_args;
use craftec::node::cli::parse_node_id;
use craftec::node::cli::print_response;
use craftec::node::cli::request_of;
use craftec::node::cli::CliCommand;
use craftec::node::cli::Json;
use craftec::node::cli::Printout;
use craftec::node::cli::USAGE;
use craftec::node::config::apply_env_overrides;
use craftec::node::config::client_data_dir;
use craftec::node::config::client_port;
use craftec::node::config::data_dir;
use craftec::node::config::NodeConfig;
use craftec::node::config::Overrides;
use craftec::node::handler::Handled;
use craftec::node::handler::NodeMessageHandler;
use craftec::node::node::bootstrap_batch;
use craftec::node::node::node_paths;
use craftec::node::node::CraftecNode;
use craftec::node::node::EventAction;
use craftec::node::piece_store::CodedPieceIndex;
use craftec::node::rpc::NodeRpcHandler;
use craftec::node::rpc::RpcAction;
use craftec::obj::error::ObjError;
use craftec::rlnc::decoder::RlncDecoder;
use craftec::sql::database::ColumnValue;
use craftec::sql::database::SignedWrite;
use craftec::sql::error::SqlError;
use craftec::types::cid::Cid;
use craftec::types::event::Event;
use craftec::types::node_id::NodeId;
use craftec::types::parse::comma_list;
use craftec::types::parse::parse_number;
use craftec::types::parse::trim;
use craftec::types::piece::CodedPiece;
use craftec::types::rpc::RpcRequest;
use craftec::types::rpc::RpcResponse;
use craftec::types::rpc::RpcValue;
use craftec::types::wire::WireMessage;

fn some_node() -> NodeId {
    KeyStore::generate(String::new()).node_id()
}

fn node(n: u8) -> NodeId {
    NodeId::from_bytes([n; 32])
}

fn cid(n: u8) -> Cid {
    Cid::from_bytes([n; 32])
}

// Piece index

#[test]
fn coded_piece_index_insert_and_get() {
    let mut idx = CodedPieceIndex::new();
    let content = Cid::from_data(b"content");
    let p1 = Cid::from_data(b"piece1");
    let p2 = Cid::from_data(b"piece2");

    idx.insert(content, vec![p1, p2]);

    let pieces = idx.get(&content).unwrap();
    assert_eq!(pieces.len(), 2);
    assert!(pieces.contains(&p1));
    assert!(pieces.contains(&p2));
}

#[test]
fn piece_cid_tracking() {
    let mut idx = CodedPieceIndex::new();
    let pcid = Cid::from_data(b"coded-piece");

    assert!(!idx.is_piece_cid(&pcid));
    idx.mark_piece_cid(pcid);
    assert!(idx.is_piece_cid(&pcid));
}

#[test]
fn get_missing_returns_none() {
    let idx = CodedPieceIndex::new();
    let cid = Cid::from_data(b"nonexistent");
    assert!(idx.get(&cid).is_none());
}

// Messages

struct Tables {
    tracker: PieceTracker,
    dht: DhtProviders,
    pending: PendingFetches,
}

fn tables() -> Tables {
    Tables {
        tracker: PieceTracker::new(),
        dht: DhtProviders::new(),
        pending: PendingFetches::new(),
    }
}

impl Tables {
    fn handle(&mut self, from: &NodeId, msg: WireMessage) -> Handled {
        NodeMessageHandler::handle_message(
            from,
            msg,
            &mut self.tracker,
            &mut self.dht,
            &mut self.pending,
            77,
        )
    }
}

#[test]
fn ping_returns_pong() {
    let mut t = tables();
    let from = some_node();
    let reply = t.handle(&from, WireMessage::Ping { nonce: 42 });
    assert!(matches!(reply, Handled::Reply(Some(WireMessage::Pong { nonce: 42 }))));
}

#[test]
fn piece_request_missing_cid_returns_empty() {
    let mut t = tables();
    let from = some_node();
    let cid = Cid::from_data(b"nonexistent");
    let asked =
        t.handle(&from, WireMessage::PieceRequest { cid, piece_indices: vec![], request_id: 5 });
    match asked {
        Handled::Fetch { cid: c, request_id } => {
            assert_eq!(c, cid);
            match NodeMessageHandler::piece_reply(c, request_id, Ok(None)) {
                Some(WireMessage::PieceResponse { pieces, request_id }) => {
                    assert!(pieces.is_empty());
                    assert_eq!(request_id, 5);
                }
                other => panic!("expected empty PieceResponse, got {:?}", other),
            }
        }
        _ => panic!("expected a fetch"),
    }
}

#[test]
fn whole_contents_are_sent_as_one_piece() {
    let data = b"the whole content".to_vec();
    let cid = Cid::from_data(&data);
    match NodeMessageHandler::piece_reply(cid, 9, Ok(Some(data.clone()))) {
        Some(WireMessage::PieceResponse { pieces, request_id }) => {
            assert_eq!(request_id, 9);
            assert_eq!(pieces.len(), 1);
            assert!(pieces[0].verify_piece_id());
            assert!(pieces[0].verify_mac());
            let mut decoder = RlncDecoder::new(1, data.len());
            assert_eq!(decoder.add_piece(&pieces[0]), Ok(true));
            assert_eq!(decoder.decode(), Ok(data));
        }
        other => panic!("expected a piece, got {:?}", other),
    }
}

#[test]
fn provider_announce_records_in_dht() {
    let mut t = tables();
    let from = some_node();
    let cid = Cid::from_data(b"some-content");
    let provider = some_node();

    t.handle(&from, WireMessage::ProviderAnnounce { cid, node_id: provider });
    assert_eq!(t.dht.get_providers(&cid), vec![provider]);
}

#[test]
fn health_report_records_in_tracker() {
    let mut t = tables();
    let from = some_node();
    let cid = Cid::from_data(b"tracked-content");

    t.handle(
        &from,
        WireMessage::HealthReport { cid, available_pieces: 3, target_pieces: 5 },
    );
    assert_eq!(
        t.tracker.get_holders(&cid),
        vec![PieceHolder { node_id: from, piece_count: 3, last_seen: 77 }]
    );
}

#[test]
fn pieces_are_delivered_to_those_that_wait() {
    let mut t = tables();
    let cid = Cid::from_data(b"awaited");
    let ticket = t.pending.register(&cid, 0);
    let piece = CodedPiece::new(cid, vec![1], vec![5u8; 4], [0u8; 32]);
    let msg = WireMessage::PieceResponse { pieces: vec![piece], request_id: 1 };
    match t.handle(&node(1), msg) {
        Handled::Deliver(list) => {
            assert_eq!(list.len(), 1);
            assert_eq!(list[0].0, ticket);
            assert_eq!(list[0].1.data, vec![5u8; 4]);
        }
        _ => panic!("expected a delivery"),
    }
    assert_eq!(t.pending.total_pending(), 0);
}

#[test]
fn writes_take_their_writer_from_the_message() {
    let mut t = tables();
    let msg = WireMessage::SignedWrite {
        payload: vec![1, 2],
        signature: [3; 64],
        writer: node(4),
        cas_version: 0,
    };
    match t.handle(&node(1), msg) {
        Handled::Write { payload, signature, writer } => {
            assert_eq!(payload, vec![1, 2]);
            assert_eq!(signature, [3; 64]);
            assert_eq!(writer, node(4));
        }
        _ => panic!("expected a write"),
    }
    let write = SignedWrite {
        writer: node(9),
        sql: "SELECT 1".to_string(),
        expected_root: Some(cid(1)),
        signature: [0; 64],
    };
    let adopted = NodeMessageHandler::adopt_write(write, node(4), [3; 64]);
    assert_eq!(adopted.writer, node(4));
    assert_eq!(adopted.signature, [3; 64]);
    assert_eq!(adopted.sql, "SELECT 1");
    assert_eq!(adopted.expected_root, Some(cid(1)));
}

// Requests

#[test]
fn requests_are_answered_or_handed_on() {
    let handler = NodeRpcHandler::new(node(1), 1_000);
    let mut swim = SwimMembership::new(node(1));
    swim.mark_alive(&node(2), 1);
    let mut tracker = PieceTracker::new();
    let content = cid(8);
    tracker.record_piece(&content, PieceHolder { node_id: node(2), piece_count: 6, last_seen: 1 });

    assert!(matches!(
        handler.handle_request(RpcRequest::Status, &swim, &tracker),
        RpcAction::CountObjects
    ));
    match handler.status_answer(Some(3), cid(5), &swim, 61_000) {
        RpcResponse::Status { node_id, alive_peers, store_objects, db_root_cid, uptime_secs } => {
            assert_eq!(node_id, node(1));
            assert_eq!(alive_peers, 1);
            assert_eq!(store_objects, 3);
            assert_eq!(db_root_cid, cid(5));
            assert_eq!(uptime_secs, 60);
        }
        other => panic!("expected a status, got {:?}", other),
    }
    match handler.handle_request(RpcRequest::Peers, &swim, &tracker) {
        RpcAction::Answer(RpcResponse::Peers { peers, count }) => {
            assert_eq!(peers, vec![node(2)]);
            assert_eq!(count, 1);
        }
        _ => panic!("expected the peers"),
    }
    match handler.handle_request(RpcRequest::PieceInfo { cid: content }, &swim, &tracker) {
        RpcAction::Answer(RpcResponse::PieceInfo { cid, available, k, holders }) => {
            assert_eq!(cid, content);
            assert_eq!(available, 6);
            assert_eq!(k, None);
            assert_eq!(holders, vec![node(2)]);
        }
        _ => panic!("expected piece information"),
    }
    assert!(matches!(
        handler.handle_request(RpcRequest::StorePut { data: vec![1] }, &swim, &tracker),
        RpcAction::Put(data) if data == vec![1]
    ));
    assert!(matches!(
        handler.handle_request(RpcRequest::StoreGet { cid: content }, &swim, &tracker),
        RpcAction::Get(c) if c == content
    ));
    assert!(matches!(
        handler.handle_request(RpcRequest::StoreList, &swim, &tracker),
        RpcAction::List
    ));
    assert!(matches!(
        handler.handle_request(RpcRequest::SqlQuery { sql: "q".to_string() }, &swim, &tracker),
        RpcAction::Query(sql) if sql == "q"
    ));
}

#[test]
fn executions_need_a_signature_of_the_writer() {
    let keys = KeyStore::generate(String::new());
    let handler = NodeRpcHandler::new(node(1), 0);
    let swim = SwimMembership::new(node(1));
    let tracker = PieceTracker::new();
    let good = execute_request("INSERT".to_string(), &keys);
    match handler.handle_request(good, &swim, &tracker) {
        RpcAction::Execute { sql, writer } => {
            assert_eq!(sql, "INSERT");
            assert_eq!(writer, keys.node_id());
        }
        _ => panic!("expected an execution"),
    }
    let bad = RpcRequest::SqlExecute {
        sql: "DELETE".to_string(),
        writer: keys.node_id(),
        signature: keys.sign(b"INSERT"),
    };
    assert!(matches!(
        handler.handle_request(bad, &swim, &tracker),
        RpcAction::Answer(RpcResponse::Error { .. })
    ));
}

#[test]
fn outcomes_become_answers() {
    assert!(matches!(
        NodeRpcHandler::put_answer(Ok(cid(1))),
        RpcResponse::StorePut { cid: c } if c == cid(1)
    ));
    assert!(matches!(
        NodeRpcHandler::put_answer(Err(ObjError::StoreFull)),
        RpcResponse::Error { .. }
    ));
    assert!(matches!(
        NodeRpcHandler::get_answer(Ok(Some(vec![1]))),
        RpcResponse::StoreGet { data: Some(d) } if d == vec![1]
    ));
    assert!(matches!(
        NodeRpcHandler::get_answer(Err(ObjError::StoreFull)),
        RpcResponse::Error { .. }
    ));
    assert!(matches!(
        NodeRpcHandler::list_answer(Ok(vec![cid(1)])),
        RpcResponse::StoreList { cids } if cids == vec![cid(1)]
    ));
    let rows = vec![vec![ColumnValue::Integer(3), ColumnValue::Blob(vec![1])]];
    assert!(matches!(
        NodeRpcHandler::query_answer(Ok(rows)),
        RpcResponse::SqlQuery { rows }
            if rows == vec![vec![RpcValue::Integer(3), RpcValue::Blob(vec![1])]]
    ));
    assert!(matches!(
        NodeRpcHandler::query_answer(Err(SqlError::NotInitialised)),
        RpcResponse::Error { .. }
    ));
    assert!(matches!(
        NodeRpcHandler::execute_answer(Ok(()), cid(4)),
        RpcResponse::SqlExecute { root_cid } if root_cid == cid(4)
    ));
    assert!(matches!(
        NodeRpcHandler::execute_answer(Err(SqlError::NotInitialised), cid(4)),
        RpcResponse::Error { .. }
    ));
}

// Client

fn args(words: &[&str]) -> Vec<String> {
    words.iter().map(|w| w.to_string()).collect()
}

#[test]
fn arguments_are_parsed() {
    let id = cid(0xcd);
    assert_eq!(parse_args(&args(&["status"])), Ok(CliCommand::Status));
    assert_eq!(parse_args(&args(&["store", "put"])), Ok(CliCommand::StorePut));
    assert_eq!(
        parse_args(&args(&["store", "get", &id.to_hex()])),
        Ok(CliCommand::StoreGet { cid: id })
    );
    assert_eq!(parse_args(&args(&["store", "list"])), Ok(CliCommand::StoreList));
    assert_eq!(
        parse_args(&args(&["query", "SELECT 1"])),
        Ok(CliCommand::Query { sql: "SELECT 1".to_string() })
    );
    assert_eq!(
        parse_args(&args(&["execute", "X"])),
        Ok(CliCommand::Execute { sql: "X".to_string() })
    );
    assert_eq!(parse_args(&args(&["peers"])), Ok(CliCommand::Peers));
    assert_eq!(
        parse_args(&args(&["pieces", &id.to_hex()])),
        Ok(CliCommand::Pieces { cid: id })
    );
    assert_eq!(parse_args(&args(&[])), Err(USAGE.to_string()));
    assert_eq!(parse_args(&args(&["nonsense"])), Err(USAGE.to_string()));
    assert!(parse_args(&args(&["store"])).is_err());
    assert!(parse_args(&args(&["store", "get"])).is_err());
    assert!(parse_args(&args(&["pieces", "zz"])).is_err());
    assert!(parse_args(&args(&["query"])).is_err());
}

#[test]
fn commands_become_requests() {
    assert!(matches!(
        request_of(CliCommand::StorePut, vec![4]),
        Some(RpcRequest::StorePut { data }) if data == vec![4]
    ));
    assert!(matches!(
        request_of(CliCommand::Pieces { cid: cid(2) }, vec![]),
        Some(RpcRequest::PieceInfo { cid: c }) if c == cid(2)
    ));
    assert!(request_of(CliCommand::Execute { sql: "X".to_string() }, vec![]).is_none());
}

#[test]
fn node_ids_are_read_from_text() {
    let id = node(0xef);
    assert_eq!(parse_node_id(&format!(" {}\n", id.to_hex())), Ok(id));
    assert_eq!(
        parse_node_id("abcd"),
        Err("node.id must contain 32 bytes (64 hex chars), got 2".to_string())
    );
    assert_eq!(parse_node_id("xyz"), Err("invalid hex in node.id".to_string()));
}

#[test]
fn answers_are_printed() {
    match print_response(RpcResponse::StorePut { cid: cid(1) }) {
        Printout::Lines(lines) => assert_eq!(lines, vec![cid(1).to_hex()]),
        other => panic!("expected a line, got {:?}", other),
    }
    match print_response(RpcResponse::StoreGet { data: Some(vec![1, 2]) }) {
        Printout::Raw(bytes) => assert_eq!(bytes, vec![1, 2]),
        other => panic!("expected bytes, got {:?}", other),
    }
    assert!(matches!(
        print_response(RpcResponse::StoreGet { data: None }),
        Printout::Failure(_)
    ));
    match print_response(RpcResponse::StoreList { cids: vec![cid(1), cid(2)] }) {
        Printout::Lines(lines) => assert_eq!(lines, vec![cid(1).to_hex(), cid(2).to_hex()]),
        other => panic!("expected lines, got {:?}", other),
    }
    match print_response(RpcResponse::SqlQuery { rows: vec![vec![RpcValue::Integer(7)]] }) {
        Printout::Value(Json::List(rows)) => match &rows[0] {
            Json::List(row) => assert!(matches!(row[0], Json::Integer(7))),
            other => panic!("expected a row, got {:?}", other),
        },
        other => panic!("expected rows, got {:?}", other),
    }
    match print_response(RpcResponse::Peers { peers: vec![node(3)], count: 1 }) {
        Printout::Value(Json::Object(fields)) => {
            assert!(fields.iter().any(|(name, _)| *name == "peers"));
            assert!(fields.iter().any(|(name, v)| *name == "count" && matches!(v, Json::Unsigned(1))));
        }
        other => panic!("expected an object, got {:?}", other),
    }
    match print_response(RpcResponse::Error { code: 3, message: "why".to_string() }) {
        Printout::Failure(words) => assert!(words.contains('3') && words.contains("why")),
        other => panic!("expected a failure, got {:?}", other),
    }
}

// Configuration

fn config() -> NodeConfig {
    NodeConfig {
        data_dir: "/data".to_string(),
        listen_port: 4433,
        bootstrap_peers: vec!["first".to_string()],
        health_scan_cycle_secs: 300,
        page_size: 16_384,
        max_connections: 256,
    }
}

#[test]
fn the_environment_overrides_the_configuration() {
    let env = Overrides {
        data_dir: Some("/elsewhere".to_string()),
        listen_port: Some("5000".to_string()),
        bootstrap_peers: Some("a, b,, c ".to_string()),
        health_scan_cycle_secs: Some("60".to_string()),
    };
    let result = apply_env_overrides(config(), env);
    assert_eq!(result.data_dir, "/elsewhere");
    assert_eq!(result.listen_port, 5000);
    assert_eq!(result.bootstrap_peers, vec!["a", "b", "c"]);
    assert_eq!(result.health_scan_cycle_secs, 60);
    assert_eq!(result.page_size, 16_384);
    assert_eq!(result.max_connections, 256);
}

#[test]
fn what_is_no_number_changes_nothing() {
    let env = Overrides {
        data_dir: None,
        listen_port: Some("65536".to_string()),
        bootstrap_peers: None,
        health_scan_cycle_secs: Some("often".to_string()),
    };
    let result = apply_env_overrides(config(), env);
    assert_eq!(result.data_dir, "/data");
    assert_eq!(result.listen_port, 4433);
    assert_eq!(result.bootstrap_peers, vec!["first"]);
    assert_eq!(result.health_scan_cycle_secs, 300);
}

#[test]
fn the_client_finds_its_node() {
    assert_eq!(client_data_dir(None, None), "./data");
    assert_eq!(client_data_dir(None, Some("/c".to_string())), "/c");
    assert_eq!(client_data_dir(Some("/e".to_string()), Some("/c".to_string())), "/e");
    let text = |s: &str| Some(s.to_string());
    let json = r#"{"listen_port": 1, "data_dir": "/from/file"}"#;
    assert_eq!(data_dir(None, text(json)), "/from/file");
    assert_eq!(data_dir(text("/env"), text(json)), "/env");
    assert_eq!(data_dir(None, text(r#"{"data_dir": "a\u0062c"}"#)), "abc");
    assert_eq!(data_dir(None, text(r#"{"data_dir": 5}"#)), "./data");
    assert_eq!(data_dir(None, text(r#"{"other": "/x"}"#)), "./data");
    assert_eq!(data_dir(None, text(r#"["data_dir", "/x"]"#)), "./data");
    assert_eq!(data_dir(None, text("data_dir = /x")), "./data");
    assert_eq!(data_dir(None, None), "./data");
    assert_eq!(client_port(None), 4433);
    assert_eq!(client_port(Some("80".to_string())), 80);
    assert_eq!(client_port(Some("x".to_string())), 4433);
}

#[test]
fn numbers_and_lists_are_parsed() {
    assert_eq!(parse_number("0", 9), Some(0));
    assert_eq!(parse_number("+7", 9), Some(7));
    assert_eq!(parse_number("10", 9), None);
    assert_eq!(parse_number("", 9), None);
    assert_eq!(parse_number("+", 9), None);
    assert_eq!(parse_number("-1", 9), None);
    assert_eq!(parse_number("18446744073709551615", u64::MAX), Some(u64::MAX));
    assert_eq!(parse_number("18446744073709551616", u64::MAX), None);
    assert_eq!(trim("\t x y \u{3000}"), "x y");
    assert_eq!(comma_list(" a ,,b"), vec!["a", "b"]);
    assert!(comma_list("").is_empty());
}

#[test]
fn files_lie_under_the_data_directory() {
    let paths = node_paths("/data");
    for path in [&paths.lock, &paths.objects, &paths.database, &paths.key, &paths.id] {
        assert!(path.starts_with("/data/"));
    }
}

// Node

fn make_node() -> CraftecNode {
    let keystore = KeyStore::generate(String::new());
    let runtime = match ComRuntime::with_default_fuel() {
        Ok(rt) => rt,
        Err(e) => panic!("{}", e.message()),
    };
    match CraftecNode::new(config(), keystore, &[], Ok(cid(1)), runtime, 0) {
        Ok(node) => node,
        Err(e) => panic!("{}", e.message()),
    }
}

#[test]
fn one_identity_holds_everywhere() {
    let n = make_node();
    let id = n.keystore().node_id();
    assert_eq!(*n.database().owner(), id);
    assert_eq!(n.database().db_id(), Cid::from_data(id.as_bytes()));
    assert_eq!(n.database().root_cid(), cid(1));
    assert_eq!(*n.swim().node_id(), id);
    assert!(n.database().may_execute("DELETE FROM t", &id).is_ok());
    assert!(n.database().may_execute("DELETE FROM t", &node(9)).is_err());
}

#[test]
fn no_node_without_a_database() {
    let runtime = match ComRuntime::with_default_fuel() {
        Ok(rt) => rt,
        Err(e) => panic!("{}", e.message()),
    };
    let keystore = KeyStore::generate(String::new());
    let failed = Err(SqlError::Io("no file".to_string()));
    match CraftecNode::new(config(), keystore, &[], failed, runtime, 0) {
        Err(SqlError::Io(why)) => assert_eq!(why, "no file"),
        _ => panic!("expected an error"),
    }
}

#[test]
fn written_contents_are_announced_and_encoded() {
    let mut n = make_node();
    let me = n.keystore().node_id();
    n.swim.mark_alive(&node(2), 1);
    let content = Cid::from_data(b"written");
    match n.on_event(Event::CidWritten { cid: content }) {
        EventAction::Announce { targets, message, encode } => {
            assert_eq!(targets, vec![node(2)]);
            assert!(encode);
            assert!(matches!(
                message,
                WireMessage::ProviderAnnounce { cid, node_id } if cid == content && node_id == me
            ));
        }
        _ => panic!("expected an announcement"),
    }
    assert!(n.dht().get_providers(&content).is_empty());
}

#[test]
fn announcements_go_to_different_peers() {
    let mut n = make_node();
    for i in 10..60u8 {
        n.swim.mark_alive(&node(i), 1);
    }
    match n.on_event(Event::CidWritten { cid: Cid::from_data(b"spread") }) {
        EventAction::Announce { targets, .. } => {
            assert!(targets.len() > 1);
            for (i, a) in targets.iter().enumerate() {
                assert!(targets[..i].iter().all(|b| b != a));
            }
        }
        _ => panic!("expected an announcement"),
    }
}

#[test]
fn pieces_are_not_encoded_again() {
    let mut n = make_node();
    let data = b"a content to encode".to_vec();
    let content = Cid::from_data(&data);
    let pieces = match n.encode_content(&content, &data) {
        Ok(pieces) => pieces,
        Err(e) => panic!("{}", e.message()),
    };
    assert_eq!(pieces.len(), 80);
    let piece_cid = n.mark_piece(b"bytes of a piece");
    assert_eq!(piece_cid, Cid::from_data(b"bytes of a piece"));
    assert!(n.piece_index.is_piece_cid(&piece_cid));
    match n.on_event(Event::CidWritten { cid: piece_cid }) {
        EventAction::Nothing => {}
        EventAction::Announce { encode, .. } => assert!(!encode),
        EventAction::Stop => panic!("a piece stops nothing"),
    }
    assert_eq!(n.piece_tracker().get_k(&content), Some(32));
}

#[test]
fn shutdown_stops_the_node() {
    let mut n = make_node();
    assert!(matches!(n.on_event(Event::ShutdownSignal), EventAction::Stop));
}

#[test]
fn disconnected_peers_are_forgotten() {
    let mut n = make_node();
    let content = cid(9);
    n.dht.announce_provider(&content, &node(2));
    n.tracker.record_piece(
        &content,
        PieceHolder { node_id: node(2), piece_count: 1, last_seen: 0 },
    );
    n.on_event(Event::PeerDisconnected { node_id: node(2) });
    assert!(n.dht().get_providers(&content).is_empty());
    assert!(n.piece_tracker().get_holders(&content).is_empty());
}

#[test]
fn health_ticks_report_what_is_missing() {
    let mut n = make_node();
    let content = cid(9);
    n.record_own_pieces(&content, 2, 5);
    let requests = n.health_tick();
    assert_eq!(requests.len(), 1);
    assert_eq!(requests[0].cid(), &content);
    assert_eq!(requests[0].severity(), "critical");
}

#[test]
fn bootstrap_goes_through_all_contents() {
    let cids: Vec<Cid> = (0..250u32).map(|i| Cid::from_data(&i.to_le_bytes())).collect();
    let mut seen: Vec<Cid> = Vec::new();
    let mut batch = 0;
    loop {
        let (part, more) = bootstrap_batch(&cids, batch);
        seen.extend(part);
        if !more {
            break;
        }
        batch += 1;
    }
    assert_eq!(seen, cids);
    assert_eq!(batch, 2);
}
