# ConstellaDB

A small column-oriented database engine and its peer protocol.

- `src/` is the library, verified with Verus:
  - `model.rs`: tables, columns, values, rows and conditions, with their views;
  - `codec.rs`: the bytes of a column file (little-endian integers,
    zero-padded UTF-8 text of the column's width) and how they read back;
  - `query.rs`: what a condition means of a row;
  - `engine.rs`, `semantics.rs`, `messages.rs`: the engine (schema and column
    files) and the specification of each of its operations and error texts;
  - `protocol.rs`: peer messages, the listener's replies, length-prefixed
    framing, and the hex preview of bytes;
  - `pool.rs`: which addresses a client pool holds a connection to, each
    at most once, deciding between reusing one and dialling;
  - `laws.rs`: properties across operations (what a select gives back after
    an insert, a delete or an update; repeated deletes and updates; how the
    conditions of a select combine; codec, column and framing round trips).
- `app/` holds the programs: the interactive demo, the on-disk database
  (`DB/schemas.json` and `DB/<table>/<column>.col`), and the TCP client and
  listener.
- `tests/` runs the library on concrete values.
