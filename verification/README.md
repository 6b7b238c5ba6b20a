# rzid

The Roomzin Identity Directory: the control-plane registry that knows which
routers, bridges and nodes there are, where they are, and which shard owns which
segment. Consumers compare versions to find out which answers changed.

The library under `src/` is verified with Verus. It holds no lock, no clock and
no file: time comes in as milliseconds, what was kept comes in as records, and
what is to be kept goes out as a snapshot. `app/` is the service around it
(HTTP, command line, clock, disk, metrics).

## Layout of the library

| Module | What it holds |
|--------|---------------|
| `order`, `names`, `table` | the listing order, ascending name lists, maps keyed by name |
| `keys` | the keys under which dataset versions are kept |
| `records` | registrations, segment ownership, what is kept across restarts |
| `model`, `change` | what the directory is and what each change makes of it, in mathematical terms |
| `index`, `segments`, `rebuild` | the derived indexes and how they are kept right |
| `registry`, `sweep` | registration, segment updates, heartbeat expiry on the runtime state |
| `state` | the state of the service: changes, queries, snapshots |
| `api` | requests and answers |
| `codecs` | the codecs configuration and its hash |
| `config`, `error`, `text` | configuration, errors, messages |
| `tls` | certificates and keys for serving TLS |
| `laws` | what holds of the directory as a whole |

## What is taken on trust

Four functions of others are called from the library, each behind a small
wrapper that says what is believed of it: `str::to_lowercase` and
`sha2::Sha256::digest` in `codecs`, `rustls_pemfile::certs` and
`rustls_pemfile::read_all` in `tls`.
