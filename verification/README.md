# Craftec

A verified library for a peer-to-peer network that stores contents, runs agents and keeps
databases, and a program around it.

The library is `src/`. Every function in it is proved by Verus to meet its contract; what it
takes from other crates stands in `src/outside/`, each function there with a contract that is
believed and a comment that says what it claims.

| Module | What it holds |
|---|---|
| `types` | identifiers, messages, requests, tables keyed by identifier, text |
| `crypto` | hashes and Merkle roots, tags of coded pieces, signatures |
| `rlnc` | the field of 256 elements, linear algebra over it, encoder, decoder, recoder |
| `obj` | the object store: directories, filter, cache, steps of put, get and delete |
| `net` | membership, providers, pending fetches, pooled connections, streams |
| `health` | holders of pieces, scans, elections, repairs |
| `sql` | commits, migrations, databases, signed writes |
| `com` | agents, their runtime, their host functions, their scheduler |
| `node` | configuration, message and request handlers, the client, the node |
| `outside` | what is believed of other crates |

Files, sockets, the SQLite engine and the running of agents are in `app/`. Where the library
needs one of them it says what to do (`begin_put`, `send_message`, `plan`, `on_event`), and takes
what came of it (`finish_put`, `finish_send`, `handle_signed_write`). Times are milliseconds that
the program passes in.

`tests/` runs the library with the real crates.
