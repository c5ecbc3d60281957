# paint_server

The logic of a shared drawing board, verified with Verus.

Clients keep a websocket open and send one-line text commands
(`GET room`, `PUT room key dots`, `DEL room key`, `RMV room key ids`,
`CHT room key words...`); each room's dots live in a JSON file. A small HTTP
side reads, adds to and deletes the same files behind a password.

- `src/` is the verified library:
  - `text`: splitting messages at spaces, joining fields, and room numbers in
    decimal (both directions, as `i32::to_string` and `str::parse` do);
  - `protocol`: the commands, the three tiered keys, and the texts sent back;
  - `registry`: the table of connected clients, read as a map from id;
  - `handlers`: what each command decides (who is told what, what changes);
  - `dots`: layering and removing dots by id;
  - `canvas`: the HTTP side's dots, its routes and its password;
  - `chat`: chat lines and colours;
  - `trusted`: the calls into std, `uuid`, `rand` and `serde_json`, with the
    contracts they are taken at.
- `app/` runs the servers (warp for the websocket, Rocket for HTTP), reads and
  writes the files, and converts JSON to and from the library's types.
- `tests/` runs the library on concrete values.

The keys are read from the `paint_key`, `paint_erase_key` and
`paint_erase_delete_key` environment variables when `app/` is built.
