# cdd_storage

The blob persistence service of CDD: it stores build artifacts by
organization, repository and version, and serves them back with caching
headers.

- `src/` is the verified core, written in Verus:
  - `path.rs`: how a key resolves to a file below the store's root (`.` and
    `..` resolved lexically, so no key leaves the root) and which directory
    a write must create;
  - `storage.rs`: store keys, the local disk store, and what each
    file-system outcome means for a write, a read or a removal;
  - `api.rs`: upload authorization, the keys of uploads and downloads, entity
    tags, conditional downloads and the replies of both endpoints;
  - `error.rs`: the error type, its status codes and its error replies;
  - `reply.rs`: HTTP replies as plain values, and the health check.
- `app/` is the Actix Web server around it: routing, the file-system calls
  through Tokio, and the conversion of replies into HTTP responses.
- `tests/` exercises the core on concrete values.
