# rsdbc

A CAN database (`.dbc`) editor whose model, parser, writer and editing
operations are verified with Verus.

## Layout

| Path | Purpose |
|------|---------|
| `src/model.rs`    | The database model and its mathematical views |
| `src/decimal.rs`  | Exact decimal numbers for factors, offsets and limits |
| `src/text.rs`, `src/numbers.rs`, `src/lexer.rs` | Text primitives, integers, quoted strings, statements |
| `src/parser.rs`   | DBC text → model, with `parse_spec` stating what every input gives |
| `src/writer.rs`   | Model → canonical DBC text, with `dbc_text` stating the exact text |
| `src/document.rs`, `src/lines.rs` | The written text as a sequence of lines |
| `src/reread.rs`, `src/reparse.rs`, `src/reattach.rs`, `src/readback.rs` | How the parser reads each written row back |
| `src/roundtrip.rs` | The well-formedness condition and the round-trip law |
| `src/symbols.rs`   | The new-symbol list reads back unless a later line opens an `NS_` block |
| `src/editor.rs`   | Bit layout, free bits, new ids and names, receiver lists, the message filter |
| `app/`            | The egui desktop application, native only (dialogs, persistence, drawing) |
| `tests/`          | Tests on concrete databases |

## The main results

* `parse_checked` / `parse` return exactly what `parse_spec` states, including
  each error message with the database read up to the failing line, and the
  inputs whose signal lines cannot be read.
* `writer::write` returns exactly `dbc_text`.
* `roundtrip::lemma_write_parse_roundtrip`: a well-formed database, written and
  parsed back, is the same database (its new-symbol list being the one written);
  comments, labels and kept statements may span several lines, and the last
  kept statement may lack its `;` when no value descriptions follow it.
* `roundtrip::lemma_write_parse_write`: writing, parsing and writing again gives
  the same text.
* `symbols::lemma_written_symbols_read_back`: the written new-symbol list (the
  default one when a database has none) is the one read back, whenever no
  later line of the text opens another `NS_` block.
* `decimal::lemma_number_roundtrip`: every number reads back from its text.
