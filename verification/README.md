# wiretap

Tooling for captured bus traffic, with its behaviour stated as contracts and
proved by Verus.

- `src/` is the library.
  - Checksums: `algorithms`, `spec`, `frame`, `columns`, `sampling`, `notes`,
    `detect` (the sweep over named algorithms), `solve` and `recover` (unknown
    parameters), `specification`, `evidence` (which bytes are worth a search) and
    `scan` (a whole capture).
  - Modbus: `protocol`, `modbus_rtu_stream` and `tunnel` (reassembly),
    `manifest` and `writes` (register blocks).
  - Catalogues: `value` and `model`, `parse` and `catalog` (text to model),
    `header`, `mux`, `bits` and `decode` (bytes to values), `mirror`, `validate`
    and `fields`, and the text editors `document`, `order`, `json`, `edit`,
    `migrate` and `version`.
  - `keyed`, `number` and `text` hold what the rest shares.
- `app/` holds the types in JSON, the errors and floating point.
- `tests/` runs the library with the crates it calls.

What holds of several operations together stands in the `law_*` proof functions.
