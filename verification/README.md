# sobj — verified core

`sobj` is a small object storage service backed by a local directory, with
an HTTP server and a command-line client. This crate holds the service's
logic, verified with Verus; `app/` holds the programs around it (HTTP
serving, file-system work, the client's requests and progress display).

Modules of the library (`src/`):

- `key` — decoding of keys taken from request paths, the key rules, and the
  mapping of a key to its file under the storage root.
- `list` — the listing: filtering (unfinished uploads, prefix, cursor),
  ordering by key, limit and next cursor, with the laws of pagination.
- `object` — the decisions of PUT, GET, HEAD and DELETE, including the course
  of an upload through a temporary file.
- `copy_move` — the decisions of copying and moving objects.
- `auth`, `error`, `health`, `state`, `config` — authorization and the count
  of requests in progress, error answers, the health answer, shared state,
  and the server's start-up settings.
- `cli` — the client's URLs, key encoding (and its agreement with the
  server's decoding), number parsing and printed output.
- `text` — byte order of strings, prefixes and suffixes, decimal notation.
