# seacoller

The building blocks of a small document store, written in Verus: each function carries a
contract, and Verus proves that the code meets it and never panics.

## Layout

- `src/` — the verified library.
  - `aes128`, `encryption`, `encrypt_trails`: AES-128 block cipher and the record
    encryption built on it, with decryption proved to undo encryption.
  - `json`: JSON values and objects (sorted entries), the reader and the writer of JSON text.
  - `validation_json`: schemas for documents and their validation.
  - `user_system`: users, permissions, their JSON documents, and login.
  - `http_parser`, `radix_tree`, `http_server`: HTTP request parsing, routing and responses.
  - `bloom_filter`, `overwatch`, `key_value_store`: the key filter (and its file), the change
    callbacks, and the key-value store itself: insert, search, update, delete and range
    scans over an ordered in-memory index of keys and a list of encrypted values, with the
    filter kept in step with the keys.
  - `database_api`: the responses and request arguments of the store's REST interface,
    and the reading of a request to create a collection.
  - `logger`: message logging, the operation log's records (written, read, walked, updated
    in place), the settings files, and the backup bookkeeping.
  - `node`, `page`, `btree`, `error`: tree nodes and the pages they are stored in.
  - `skip_list`: the index's node records, its data file and its row settings, and the
    list's search, insert (with its tower) and delete over the data file's bytes.
  - `collection`: collections and the bookkeeping of their indexes.
  - `bytes`, `text`: big-endian words, byte patches and text helpers.
- `tests/` — tests run against the compiled library.
- `app/` — the program around the library: console (with the store's commands), files,
  and the HTTP listener.

The library works on bytes and values; reading and writing files and sockets is left to
`app/`.
