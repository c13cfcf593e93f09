//! What messages, requests and commands promise.

use crate::com::runtime::ComRuntime;
use crate::crypto::sign::KeyStore;
use crate::health::scanner;
use crate::health::tracker;
use crate::health::tracker::PieceHolder;
use crate::health::tracker::TrackerView;
use crate::net::dht;
use crate::net::laws;
use crate::net::pending::PendingEntry;
use crate::net::swim::SwimMembership;
use crate::node::cli;
use crate::node::cli::CliCommand;
use crate::node::cli::Json;
use crate::node::cli::Printout;
use crate::node::config;
use crate::node::config::NodeConfig;
use crate::node::handler;
use crate::node::node;
use crate::node::node::CraftecNode;
use crate::node::rpc;
use crate::outside::digest;
use crate::outside::ed25519;
use crate::outside::hexadecimal;
use crate::sql::database::ColumnValue;
use crate::types::cid::Cid;
use crate::types::node_id::NodeId;
use crate::types::piece::CodedPiece;
use crate::types::rpc::RpcResponse;
use crate::types::rpc::RpcValue;
use crate::types::text;
use vstd::prelude::*;

verus! {

/// After a report of pieces the sender is among the holders of the content, whatever was known
/// before, with at least as many pieces as it reported and with the time of the report. The
/// records of all other nodes, and those of all other contents, are as before. A report of no
/// pieces changes nothing.
pub proof fn lemma_report(
    view: TrackerView,
    from: NodeId,
    cid: Seq<u8>,
    available: u32,
    now: u64,
    other: Seq<u8>,
    h: PieceHolder,
)
    ensures
        ({
            let after = handler::after_report(view, from, cid, available, now);
            &&& available == 0 ==> after == view
            &&& after.ks == view.ks
            &&& other != cid ==> (after.holders.contains_key(other)
                <==> view.holders.contains_key(other)) && after.holders[other]
                == view.holders[other]
            &&& available > 0 ==> {
                &&& after.holders.contains_key(cid)
                &&& exists|i: int|
                    0 <= i < after.holders[cid].len() && (
                    #[trigger] after.holders[cid][i]).node_id@ == from@
                &&& forall|i: int|
                    0 <= i < after.holders[cid].len() && (
                    #[trigger] after.holders[cid][i]).node_id@ == from@ ==> {
                        &&& after.holders[cid][i].piece_count >= available
                        &&& after.holders[cid][i].last_seen == now
                    }
                &&& h.node_id@ != from@ ==> (after.holders[cid].contains(h) <==> (
                view.holders.contains_key(cid) && view.holders[cid].contains(h)))
            }
        }),
{
    let after = handler::after_report(view, from, cid, available, now);
    if available > 0 {
        let before = tracker::holders_of(view, cid);
        let list = after.holders[cid];
        if tracker::has_holder(before, from@) {
            let i = choose|i: int| 0 <= i < before.len() && (#[trigger] before[i]).node_id@ == from@;
            assert(list[i].node_id@ == from@);
        } else {
            assert(list[list.len() - 1].node_id@ == from@);
        }
        if h.node_id@ != from@ {
            if before.contains(h) {
                let i = choose|i: int| 0 <= i < before.len() && before[i] == h;
                assert(list[i] == h);
            }
            if list.contains(h) {
                let i = choose|i: int| 0 <= i < list.len() && list[i] == h;
                if i < before.len() {
                    if before[i].node_id@ == from@ {
                        assert(list[i].node_id@ == from@);
                    }
                    assert(before[i] == h);
                }
            }
        }
    }
}

/// How many pieces are recorded after a report: as many as were told of a node that was not
/// known before, and the larger number where it was. The number of holders grows by one or
/// not at all.
pub proof fn lemma_report_counts(
    view: TrackerView,
    from: NodeId,
    cid: Seq<u8>,
    available: u32,
    now: u64,
    i: int,
)
    requires
        available > 0,
        view.holders.contains_key(cid),
    ensures
        ({
            let before = view.holders[cid];
            let after = handler::after_report(view, from, cid, available, now).holders[cid];
            let known = exists|j: int| 0 <= j < before.len() && (#[trigger] before[j]).node_id@ == from@;
            &&& known ==> after.len() == before.len()
            &&& !known ==> after.len() == before.len() + 1 && after.last() == (PieceHolder {
                node_id: from,
                piece_count: available,
                last_seen: now,
            })
            &&& 0 <= i < before.len() && before[i].node_id@ == from@ && before[i].piece_count
                > available ==> after[i].piece_count == before[i].piece_count
            &&& 0 <= i < before.len() && before[i].node_id@ == from@ && before[i].piece_count
                <= available ==> after[i].piece_count == available
        }),
{
}

/// Nothing is handed out without pieces. One piece more goes to all who still wait for its
/// content, in their order, and nobody waits for that content afterwards.
pub proof fn lemma_handed_out_step(
    waiting: Map<Seq<u8>, Seq<PendingEntry>>,
    pieces: Seq<CodedPiece>,
    p: CodedPiece,
    i: int,
)
    ensures
        handler::handed_out(waiting, Seq::empty()).0 == waiting,
        handler::handed_out(waiting, Seq::empty()).1.len() == 0,
        ({
            let (left, done) = handler::handed_out(waiting, pieces);
            let (after, all) = handler::handed_out(waiting, pieces.push(p));
            &&& after == left.remove(p.cid@)
            &&& !left.contains_key(p.cid@) ==> all == done
            &&& left.contains_key(p.cid@) ==> {
                &&& all.len() == done.len() + left[p.cid@].len()
                &&& all.take(done.len() as int) == done
                &&& 0 <= i < left[p.cid@].len() ==> all[done.len() + i] == (
                    left[p.cid@][i].ticket,
                    p@,
                )
            }
        }),
{
    assert(pieces.push(p).drop_last() =~= pieces);
    let (left, done) = handler::handed_out(waiting, pieces);
    let (after, all) = handler::handed_out(waiting, pieces.push(p));
    if left.contains_key(p.cid@) {
        assert(all.take(done.len() as int) =~= done);
    } else {
        assert(all =~= done);
    }
}

/// Once pieces were handed out nobody waits for their contents, and those who wait for other
/// contents wait on.
pub proof fn lemma_handed_out(
    waiting: Map<Seq<u8>, Seq<PendingEntry>>,
    pieces: Seq<CodedPiece>,
    cid: Seq<u8>,
)
    ensures
        ({
            let left = handler::handed_out(waiting, pieces).0;
            let came = exists|i: int| 0 <= i < pieces.len() && (#[trigger] pieces[i]).cid@ == cid;
            &&& left.contains_key(cid) <==> waiting.contains_key(cid) && !came
            &&& left.contains_key(cid) ==> left[cid] == waiting[cid]
        }),
    decreases pieces.len(),
{
    if pieces.len() > 0 {
        let less = pieces.drop_last();
        lemma_handed_out(waiting, less, cid);
        assert forall|i: int| 0 <= i < less.len() implies (#[trigger] less[i]).cid@ == pieces[i].cid@ by {
        }
        let came = exists|i: int| 0 <= i < pieces.len() && (#[trigger] pieces[i]).cid@ == cid;
        let came_before = exists|i: int| 0 <= i < less.len() && (#[trigger] less[i]).cid@ == cid;
        if came_before {
            let i = choose|i: int| 0 <= i < less.len() && (#[trigger] less[i]).cid@ == cid;
            assert(pieces[i].cid@ == cid);
        }
        if came && pieces.last().cid@ != cid {
            let i = choose|i: int| 0 <= i < pieces.len() && (#[trigger] pieces[i]).cid@ == cid;
            assert(less[i].cid@ == cid);
        }
    }
}

/// Everyone who waits for a content is handed the first piece of it that comes.
pub proof fn lemma_waiting_served(
    waiting: Map<Seq<u8>, Seq<PendingEntry>>,
    pieces: Seq<CodedPiece>,
    first: int,
    i: int,
)
    requires
        0 <= first < pieces.len(),
        waiting.contains_key(pieces[first].cid@),
        0 <= i < waiting[pieces[first].cid@].len(),
        forall|j: int| 0 <= j < first ==> (#[trigger] pieces[j]).cid@ != pieces[first].cid@,
    ensures
        handler::handed_out(waiting, pieces).1.contains(
            (waiting[pieces[first].cid@][i].ticket, pieces[first]@),
        ),
    decreases pieces.len(),
{
    let less = pieces.drop_last();
    let p = pieces[first];
    let sought = (waiting[p.cid@][i].ticket, p@);
    assert(less.push(pieces.last()) =~= pieces);
    let done = handler::handed_out(waiting, less).1;
    let all = handler::handed_out(waiting, pieces).1;
    if first == pieces.len() - 1 {
        lemma_handed_out(waiting, less, p.cid@);
        assert forall|j: int| 0 <= j < less.len() implies (#[trigger] less[j]).cid@ != p.cid@ by {
            assert(pieces[j].cid@ != p.cid@);
        }
        lemma_handed_out_step(waiting, less, p, i);
        assert(all[done.len() + i] == sought);
    } else {
        lemma_waiting_served(waiting, less, first, i);
        let at = choose|at: int| 0 <= at < done.len() && done[at] == sought;
        assert(all[at] == sought);
    }
}

/// A content as its only piece: under the content's identifier, with a single coefficient of
/// one, all bytes as they are, their digest, and the tag of vector and bytes.
pub proof fn lemma_whole_piece_parts(cid: Seq<u8>, data: Seq<u8>)
    ensures
        ({
            let p = handler::whole_piece(cid, data);
            &&& p.cid == cid
            &&& p.coding_vector.len() == 1
            &&& p.coding_vector[0] == 1
            &&& p.data == data
            &&& p.piece_id == digest::blake3_digest(data)
            &&& p.tag == digest::blake3_digest(cid.push(1) + data)
        }),
{
    assert(cid + seq![1u8] + data =~= cid.push(1) + data);
}

/// Deliveries keep their tickets and their pieces.
pub proof fn lemma_deliveries(list: Seq<(u64, CodedPiece)>, i: int)
    requires
        0 <= i < list.len(),
    ensures
        handler::delivery_views(list).len() == list.len(),
        handler::delivery_views(list)[i] == (list[i].0, list[i].1@),
{
}

/// A node that was removed provides nothing, all others provide what they did, and no content
/// is listed without a provider.
pub proof fn lemma_provides_nothing(
    before: Map<Seq<u8>, Set<Seq<u8>>>,
    after: Map<Seq<u8>, Set<Seq<u8>>>,
    gone: Seq<u8>,
    cid: Seq<u8>,
    id: Seq<u8>,
)
    requires
        node::provides_nothing(before, after, gone),
        forall|c: Seq<u8>| before.contains_key(c) ==> (#[trigger] before[c]).finite(),
    ensures
        dht::providers_of(after, cid).contains(id) <==> dht::providers_of(before, cid).contains(id)
            && id != gone,
        after.contains_key(cid) ==> dht::providers_of(after, cid).len() > 0,
{
    if before.contains_key(cid) {
        let rest = before[cid].remove(gone);
        assert(after.contains_key(cid) <==> rest.len() > 0);
        if before[cid].contains(id) && id != gone {
            assert(rest.contains(id));
            vstd::set_lib::lemma_set_empty_equivalency_len(rest);
        }
        if after.contains_key(cid) {
            assert(after[cid] == rest);
        }
    } else {
        assert(!after.contains_key(cid));
    }
}

/// Contents are announced to nodes that are alive, to none of them twice, and to as many as
/// the least positive power of `e` that is no less than their number has as its exponent, or
/// to all of them where they are fewer.
pub proof fn lemma_announced_to(targets: Seq<NodeId>, alive: Seq<Seq<u8>>, i: int, j: int, m: nat)
    requires
        node::announces(targets, alive),
        1 <= m <= 45,
        forall|x: int| 1 <= x < m ==> alive.len() > #[trigger] dht::E_POWERS@[x],
        m < 45 ==> alive.len() <= dht::E_POWERS@[m as int],
    ensures
        0 <= i < targets.len() ==> alive.contains(targets[i]@),
        0 <= i < j < targets.len() ==> targets[i]@ != targets[j]@,
        alive.len() >= m ==> targets.len() == m,
        alive.len() < m ==> targets.len() == alive.len(),
{
    let names = targets.map_values(|id: NodeId| id@);
    if 0 <= i < j < targets.len() {
        assert(names[i] == targets[i]@ && names[j] == targets[j]@);
    }
    laws::lemma_fanout_least(alive.len(), m);
}

/// Exactly what is no piece is encoded.
pub proof fn lemma_to_encode(marked: Set<Seq<u8>>, cid: Seq<u8>, other: Seq<u8>)
    ensures
        node::to_encode(Set::empty(), cid),
        !node::to_encode(marked.insert(cid), cid),
        other != cid ==> (node::to_encode(marked.insert(cid), other) <==> node::to_encode(
            marked,
            other,
        )),
        node::to_encode(marked.remove(cid), cid),
{
}

/// A number in decimal takes the place of the one before as far as it is within bounds. What is
/// not set, not a digit or not within bounds changes nothing.
pub proof fn lemma_number_or(n: nat, max: nat, before: nat, words: Seq<char>, at: int, v: String)
    ensures
        config::number_or(None, max, before) == before,
        n <= max ==> config::number_or(Some(text::decimal(n)), max, before) == n,
        n > max ==> config::number_or(Some(text::decimal(n)), max, before) == before,
        config::number_or(Some(Seq::empty()), max, before) == before,
        0 <= at < words.len() && !('0' <= words[at] <= '9') && (at > 0 || words[0] != '+')
            ==> config::number_or(Some(words), max, before) == before,
        config::variable(None) is None,
        config::variable(Some(v)) == Some(v@),
{
    crate::types::laws::lemma_number_round_trip(n, max);
    crate::types::laws::lemma_number(words, '0', max, at);
}

/// The living members are the members that are believed alive.
pub proof fn lemma_alive_keys(swim: &SwimMembership, key: Seq<u8>)
    ensures
        rpc::alive_keys(swim).contains(key) <==> swim.order().contains(key)
            && swim.beliefs().members[key] is Alive,
{
    laws::lemma_alive_listed(swim.order(), swim.beliefs().members, key);
}

/// An error tells its code and its message, and is no other answer.
pub proof fn lemma_error(answer: RpcResponse, code: u32, message: Seq<char>, words: String)
    ensures
        rpc::is_error(answer, code, message) ==> answer is Error && answer->Error_code == code
            && answer->Error_message@ == message,
        rpc::is_error(RpcResponse::Error { code, message: words }, code, words@),
{
}

/// The values of a column arrive as they are, and a value tells its column.
pub proof fn lemma_same_value(value: RpcValue, a: ColumnValue, b: ColumnValue)
    requires
        rpc::same_value(value, a),
        rpc::same_value(value, b),
    ensures
        a == b,
        value is Null <==> a is Null,
        a matches ColumnValue::Integer(n) ==> value == RpcValue::Integer(n),
        a matches ColumnValue::Real { bits } ==> value == (RpcValue::Real { bits }),
        a matches ColumnValue::Text(t) ==> value == RpcValue::Text(t),
        a matches ColumnValue::Blob(bytes) ==> value == RpcValue::Blob(bytes),
{
}

/// A row arrives whole: the columns of a row can be told from its values, each at its place.
pub proof fn lemma_same_row(values: Seq<RpcValue>, a: Seq<ColumnValue>, b: Seq<ColumnValue>)
    requires
        rpc::same_row(values, a),
        rpc::same_row(values, b),
    ensures
        a == b,
        values.len() == a.len(),
{
    assert forall|i: int| 0 <= i < a.len() implies a[i] == b[i] by {
        assert(rpc::same_value(values[i], a[i]));
        lemma_same_value(values[i], a[i], b[i]);
    }
    assert(a =~= b);
}

/// What a writer signs is the statement itself.
pub proof fn lemma_sql_signed(sql: Seq<char>, writer: Seq<u8>, signature: Seq<u8>)
    ensures
        rpc::sql_signed(sql, writer, signature) <==> ed25519::ed25519_accepts(
            writer,
            vstd::utf8::encode_utf8(sql),
            signature,
        ),
{
}

proof fn lemma_words_differ()
    ensures
        "status"@ != "store"@,
        "status"@ != "query"@,
        "status"@ != "execute"@,
        "status"@ != "peers"@,
        "status"@ != "pieces"@,
        "store"@ != "query"@,
        "store"@ != "execute"@,
        "store"@ != "peers"@,
        "store"@ != "pieces"@,
        "query"@ != "execute"@,
        "query"@ != "peers"@,
        "query"@ != "pieces"@,
        "execute"@ != "peers"@,
        "execute"@ != "pieces"@,
        "peers"@ != "pieces"@,
        "put"@ != "get"@,
        "put"@ != "list"@,
        "get"@ != "list"@,
{
    reveal_strlit("status");
    reveal_strlit("store");
    reveal_strlit("query");
    reveal_strlit("execute");
    reveal_strlit("peers");
    reveal_strlit("pieces");
    reveal_strlit("put");
    reveal_strlit("get");
    reveal_strlit("list");
    assert("status"@[0] == 's' && "pieces"@[0] == 'p');
    assert("store"@[0] == 's' && "query"@[0] == 'q' && "peers"@[0] == 'p');
    assert("status"@.len() == 6 && "store"@.len() == 5);
    assert("peers"@.len() == 5 && "pieces"@.len() == 6);
    assert("put"@[0] == 'p' && "get"@[0] == 'g');
}

/// A command of one word is always accepted, and is that command.
pub proof fn lemma_plain_commands(args: Seq<Seq<char>>, command: CliCommand)
    requires
        args.len() > 0,
    ensures
        args[0] == "status"@ ==> cli::complaint(args) is None && (cli::asked_for(args, command)
            <==> command is Status),
        args[0] == "peers"@ ==> cli::complaint(args) is None && (cli::asked_for(args, command)
            <==> command is Peers),
{
    lemma_words_differ();
}

/// Queries and statements take the next argument as it is, and cannot do without.
pub proof fn lemma_sql_commands(args: Seq<Seq<char>>, command: CliCommand)
    requires
        args.len() > 0,
    ensures
        args[0] == "query"@ ==> {
            &&& cli::complaint(args) is None <==> args.len() >= 2
            &&& args.len() >= 2 ==> (cli::asked_for(args, command) <==> (
            command is Query && command->Query_sql@ == args[1]))
        },
        args[0] == "execute"@ ==> {
            &&& cli::complaint(args) is None <==> args.len() >= 2
            &&& args.len() >= 2 ==> (cli::asked_for(args, command) <==> (
            command is Execute && command->Execute_sql@ == args[1]))
        },
{
    lemma_words_differ();
}

/// The store is asked to put, to list or to get; the last takes an identifier in hexadecimal.
/// Anything else is refused.
pub proof fn lemma_store_commands(args: Seq<Seq<char>>, command: CliCommand)
    requires
        args.len() > 0,
        args[0] == "store"@,
    ensures
        args.len() == 1 ==> cli::complaint(args) is Some,
        args.len() >= 2 && args[1] == "put"@ ==> cli::complaint(args) is None && (cli::asked_for(
            args,
            command,
        ) <==> command is StorePut),
        args.len() >= 2 && args[1] == "list"@ ==> cli::complaint(args) is None && (cli::asked_for(
            args,
            command,
        ) <==> command is StoreList),
        args.len() == 2 && args[1] == "get"@ ==> cli::complaint(args) is Some,
        args.len() >= 3 && args[1] == "get"@ ==> {
            &&& cli::complaint(args) is None <==> names_cid(args[2])
            &&& cli::asked_for(args, command) <==> command is StoreGet
                && command->StoreGet_cid@ == hexadecimal::hex_bytes(args[2])
        },
        args.len() >= 2 && args[1] != "put"@ && args[1] != "list"@ && args[1] != "get"@
            ==> cli::complaint(args) is Some,
{
    lemma_words_differ();
    if args.len() >= 3 {
        lemma_names_cid(args[2]);
    }
}

/// Pieces are asked for by an identifier in hexadecimal.
pub proof fn lemma_pieces_command(args: Seq<Seq<char>>, command: CliCommand)
    requires
        args.len() > 0,
        args[0] == "pieces"@,
    ensures
        args.len() == 1 ==> cli::complaint(args) is Some,
        args.len() >= 2 ==> {
            &&& cli::complaint(args) is None <==> names_cid(args[1])
            &&& cli::asked_for(args, command) <==> command is Pieces && command->Pieces_cid@
                == hexadecimal::hex_bytes(args[1])
        },
{
    lemma_words_differ();
    if args.len() >= 2 {
        lemma_names_cid(args[1]);
    }
}

/// An identifier is written in sixty-four digits, small or capital.
pub open spec fn names_cid(word: Seq<char>) -> bool {
    word.len() == 64 && forall|i: int|
        0 <= i < 64 ==> ('0' <= #[trigger] word[i] <= '9' || 'a' <= word[i] <= 'f' || 'A' <= word[i]
            <= 'F')
}

proof fn lemma_names_cid(word: Seq<char>)
    ensures
        names_cid(word) <==> crate::net::endpoint::is_node_hex(word),
{
    if names_cid(word) {
        assert forall|i: int| 0 <= i < word.len() implies hexadecimal::is_hex_char(
            #[trigger] word[i],
        ) by {
        }
    }
    if crate::net::endpoint::is_node_hex(word) {
        assert forall|i: int| 0 <= i < 64 implies ('0' <= #[trigger] word[i] <= '9' || 'a'
            <= word[i] <= 'f' || 'A' <= word[i] <= 'F') by {
            assert(hexadecimal::is_hex_char(word[i]));
        }
    }
}

/// Without arguments, or with a word that is no command, the client says what it can do.
pub proof fn lemma_no_command(args: Seq<Seq<char>>)
    requires
        args.len() == 0 || (args[0] != "status"@ && args[0] != "store"@ && args[0] != "query"@
            && args[0] != "execute"@ && args[0] != "peers"@ && args[0] != "pieces"@),
    ensures
        cli::complaint(args) == Some(cli::USAGE@),
{
}

/// A list of identifiers tells which ones it was made of, each at its place.
pub proof fn lemma_id_list(j: Json, a: Seq<NodeId>, b: Seq<NodeId>, i: int)
    requires
        cli::is_id_list(j, a),
        cli::is_id_list(j, b),
    ensures
        a.len() == b.len(),
        0 <= i < a.len() ==> a[i]@ == b[i]@,
{
    let list = j->List_0;
    if 0 <= i < a.len() {
        assert(cli::is_text(list@[i], hexadecimal::hex_text(a[i]@)));
        hexadecimal::lemma_hex_injective(a[i]@, b[i]@);
    }
}

/// A value is printed as itself, and its bytes in hexadecimal: from what is printed for two
/// values of one kind both can be told apart.
pub proof fn lemma_value_printed(j: Json, a: RpcValue, b: RpcValue)
    requires
        cli::is_value(j, a),
        cli::is_value(j, b),
    ensures
        a is Null <==> b is Null,
        a is Null <==> j is Null,
        a matches RpcValue::Integer(n) ==> j == Json::Integer(n) && b == a,
        a matches RpcValue::Real { bits } ==> j == (Json::Real { bits }) && b == a,
        a matches RpcValue::Text(t) ==> j is Text && j->Text_0@ == t@,
        a is Text && b is Text ==> a->Text_0@ == b->Text_0@,
        a is Blob && b is Blob ==> a->Blob_0@ == b->Blob_0@,
        a matches RpcValue::Blob(bytes) ==> j is Text && hexadecimal::hex_bytes(j->Text_0@)
            == bytes@,
{
    if a is Blob {
        hexadecimal::lemma_hex_round_trip(a->Blob_0@);
    }
    if a is Blob && b is Blob {
        hexadecimal::lemma_hex_injective(a->Blob_0@, b->Blob_0@);
    }
}

/// Rows are printed row by row and value by value.
pub proof fn lemma_rows_printed(j: Json, rows: Seq<Vec<RpcValue>>, r: int, c: int)
    requires
        cli::is_rows(j, rows),
        0 <= r < rows.len(),
        0 <= c < rows[r]@.len(),
    ensures
        j is List,
        j->List_0@.len() == rows.len(),
        j->List_0@[r] is List,
        j->List_0@[r]->List_0@.len() == rows[r]@.len(),
        cli::is_value(j->List_0@[r]->List_0@[c], rows[r]@[c]),
{
    let row = j->List_0@[r];
    assert(cli::is_row(row, rows[r]@));
    assert(cli::is_value(row->List_0@[c], rows[r]@[c]));
}

/// What was stored, and what a statement led to, is printed as one line, from which the
/// identifier is read back.
pub proof fn lemma_cid_printed(out: Printout, cid: Cid)
    ensures
        cli::printed(out, RpcResponse::StorePut { cid }) ==> out is Lines && out->Lines_0@.len() == 1
            && hexadecimal::hex_bytes(out->Lines_0@[0]@) == cid@,
        cli::printed(out, RpcResponse::SqlExecute { root_cid: cid }) ==> out is Lines
            && out->Lines_0@.len() == 1 && hexadecimal::hex_bytes(out->Lines_0@[0]@) == cid@,
{
    hexadecimal::lemma_hex_round_trip(cid@);
}

/// An object is written out byte by byte; that there is none is a failure, and no empty
/// object.
pub proof fn lemma_object_printed(out: Printout, data: Option<Vec<u8>>)
    requires
        cli::printed(out, RpcResponse::StoreGet { data }),
    ensures
        data is None <==> out is Failure,
        data matches Some(bytes) ==> out is Raw && out->Raw_0@ == bytes@,
{
}

/// A list of objects has a line for each, from which its identifier is read back.
pub proof fn lemma_list_printed(out: Printout, cids: Vec<Cid>, i: int)
    requires
        cli::printed(out, RpcResponse::StoreList { cids }),
    ensures
        out is Lines,
        out->Lines_0@.len() == cids@.len(),
        0 <= i < cids@.len() ==> hexadecimal::hex_bytes(out->Lines_0@[i]@) == cids@[i]@,
{
    if 0 <= i < cids@.len() {
        hexadecimal::lemma_hex_round_trip(cids@[i]@);
        let lines = out->Lines_0;
        assert(lines@[i]@ == hexadecimal::hex_text(cids@[i]@));
    }
}

/// Rows come out as a list of rows.
pub proof fn lemma_query_printed(out: Printout, rows: Vec<Vec<RpcValue>>)
    requires
        cli::printed(out, RpcResponse::SqlQuery { rows }),
    ensures
        out is Value,
        cli::is_rows(out->Value_0, rows@),
{
}

/// A failure is printed with its code and its message.
pub proof fn lemma_error_printed(out: Printout, code: u32, message: String)
    requires
        cli::printed(out, RpcResponse::Error { code, message }),
    ensures
        out is Failure,
        text::holds(out->Failure_0@, message@),
        text::holds(out->Failure_0@, text::decimal(code as nat)),
{
    let words = out->Failure_0@;
    let n = text::decimal(code as nat);
    let start = "error "@;
    let mid = ": "@;
    assert(words =~= (start + n + mid) + message@ + Seq::<char>::empty());
    assert(words =~= start + n + (mid + message@));
    crate::types::laws::lemma_holds(words, message@, start + n + mid, Seq::<char>::empty());
    crate::types::laws::lemma_holds(words, n, start, mid + message@);
}

/// The status of a node is printed field by field, each under its name.
pub proof fn lemma_status_printed(
    out: Printout,
    node_id: NodeId,
    alive_peers: usize,
    store_objects: usize,
    db_root_cid: Cid,
    uptime_secs: u64,
)
    requires
        cli::printed(
            out,
            RpcResponse::Status { node_id, alive_peers, store_objects, db_root_cid, uptime_secs },
        ),
    ensures
        ({
            let f = out->Value_0->Object_0@;
            &&& out is Value && out->Value_0 is Object && f.len() == 5
            &&& f[0].0@ == "node_id"@ && f[0].1 is Text && hexadecimal::hex_bytes(f[0].1->Text_0@)
                == node_id@
            &&& f[1].0@ == "alive_peers"@ && f[1].1 == Json::Unsigned(alive_peers as u64)
            &&& f[2].0@ == "store_objects"@ && f[2].1 == Json::Unsigned(store_objects as u64)
            &&& f[3].0@ == "db_root_cid"@ && f[3].1 is Text && hexadecimal::hex_bytes(
                f[3].1->Text_0@,
            ) == db_root_cid@
            &&& f[4].0@ == "uptime_secs"@ && f[4].1 == Json::Unsigned(uptime_secs)
        }),
{
    hexadecimal::lemma_hex_round_trip(node_id@);
    hexadecimal::lemma_hex_round_trip(db_root_cid@);
}

/// Peers and pieces are printed with their numbers, and the nodes at their places.
pub proof fn lemma_nodes_printed(
    out: Printout,
    nodes: Vec<NodeId>,
    count: usize,
    cid: Cid,
    available: u32,
    k: Option<u32>,
)
    ensures
        cli::printed(out, RpcResponse::Peers { peers: nodes, count }) ==> {
            let f = out->Value_0->Object_0@;
            &&& out is Value && out->Value_0 is Object && f.len() == 2
            &&& f[0].0@ == "count"@ && f[0].1 == Json::Unsigned(count as u64)
            &&& f[1].0@ == "peers"@ && cli::is_id_list(f[1].1, nodes@)
        },
        cli::printed(out, RpcResponse::PieceInfo { cid, available, k, holders: nodes }) ==> {
            let f = out->Value_0->Object_0@;
            &&& out is Value && out->Value_0 is Object && f.len() == 4
            &&& f[0].0@ == "cid"@ && f[0].1 is Text && hexadecimal::hex_bytes(f[0].1->Text_0@)
                == cid@
            &&& f[1].0@ == "available"@ && f[1].1 == Json::Unsigned(available as u64)
            &&& f[2].0@ == "k"@ && (k is None ==> f[2].1 is Null) && (k matches Some(n) ==> f[2].1
                == Json::Unsigned(n as u64))
            &&& f[3].0@ == "holders"@ && cli::is_id_list(f[3].1, nodes@)
        },
{
    hexadecimal::lemma_hex_round_trip(cid@);
}

/// A new node is one and the same in all its parts: the node of its key scans, repairs, gossips,
/// answers and owns the database. It knows of nobody and of nothing but the objects found in
/// its store, and scans at the interval of its configuration.
pub proof fn lemma_new_node(
    node: CraftecNode,
    config: NodeConfig,
    keystore: KeyStore,
    found: Seq<Cid>,
    root: Cid,
    runtime: ComRuntime,
    now: u64,
    key: Seq<u8>,
    i: int,
)
    requires
        CraftecNode::is_new(node, config, keystore, found, root, runtime, now),
    ensures
        node.keystore == keystore,
        node.config == config,
        node.scheduler.engine() == runtime,
        node.scanner.node()@ == ed25519::ed25519_public(keystore.secret()),
        node.swim.beliefs().local@ == ed25519::ed25519_public(keystore.secret()),
        node.repair.node()@ == ed25519::ed25519_public(keystore.secret()),
        node.rpc.node()@ == ed25519::ed25519_public(keystore.secret()),
        node.rpc_write.db().owned_by()@ == ed25519::ed25519_public(keystore.secret()),
        node.rpc_write.db().root() == root,
        !node.swim.beliefs().members.contains_key(key),
        !node.connections.connections().contains_key(key),
        !node.dht.providers().contains_key(key),
        !node.pending.waiting().contains_key(key),
        !node.tracker@.holders.contains_key(key),
        !node.tracker@.ks.contains_key(key),
        !node.piece_index.contents().contains_key(key),
        !node.piece_index.marked().contains(key),
        !node.scheduler.states().contains_key(key),
        node.store@.cache.len() == 0,
        node.store@.metrics.puts == 0,
        node.store@.metrics.gets == 0,
        0 <= i < found.len() ==> node.store@.passes.contains(found[i]@),
        node.connections.limit() == config.max_connections,
        config.health_scan_cycle_secs * 1000 <= u64::MAX ==> node.scanner.interval()
            == config.health_scan_cycle_secs * 1000,
        node.scanner.cycle() == 0,
        node.rpc.started() == now,
{
}

/// The limits: contents are encoded in generations of the size that is taken for granted where
/// none is known, and announced in hundreds at the start; fetches are given up after two rounds
/// of pruning, a minute apart; shutting down takes five seconds, and a request ten.
pub proof fn lemma_limits()
    ensures
        node::ENCODE_K == scanner::DEFAULT_K,
        node::STORAGE_BOOTSTRAP_BATCH_SIZE == 100,
        node::PENDING_MAX_AGE == 2 * node::PRUNE_INTERVAL,
        node::PRUNE_INTERVAL == 60 * 1000,
        node::SHUTDOWN_TIMEOUT == 5 * 1000,
        node::OBJ_CACHE_CAPACITY == 1024,
        node::EVENT_BUS_CAPACITY == 1024,
        node::SHUTDOWN_CAPACITY == 16,
        config::DEFAULT_LISTEN_PORT == 4433,
        cli::RPC_TIMEOUT == 2 * node::SHUTDOWN_TIMEOUT,
        cli::MAX_RESPONSE_BYTES == crate::net::endpoint::MAX_MESSAGE_BYTES,
{
}

}
