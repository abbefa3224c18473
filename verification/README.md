# Cyrene

Local-first application state: typed documents that work offline, replicate
between authenticated devices, are shared with other people one space at a
time, and travel through an opaque relay where no direct connection exists.

The library under `src/` is verified with Verus. Every function states what it
returns or changes in its contract, and what holds across functions is stated
by public proof functions whose names begin with `law_`.

| Module | What it holds |
| --- | --- |
| `id`, `error`, `schema` | identifiers, failures, document schemas and their fingerprints |
| `sync` | clocks, frontiers, replicas, a network simulator, and why replicas converge |
| `crdt` | merge-aware lists and text |
| `identity` | device keys, short-code pairing, linked-user histories |
| `authority` | capabilities, encrypted payloads, share invitations |
| `net` | certificate pins, the device handshake, discovery records, the relay protocol |
| `relay` | the relay's bounded mailboxes |
| `store` | the application database as the content of its tables |
| `trust` | the trust vault, its sealed material and its recovery bundles |
| `command` | what the commands decide and report |
| `text`, `bytes`, `json`, `rows`, `ordmap`, `crypto` | shared foundations; `crypto` holds the calls into cryptographic crates |

`app/` is the program around the library: command-line arguments, SQLite files,
sockets, mDNS, QUIC, the host's credential store and the JSON of messages.
`tests/` runs the library with the real cryptographic crates.
