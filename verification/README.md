# rust_lin

A LIN bus library whose logic is verified with Verus, and the `rust-lin`
command-line tool around it.

## Layout

- `src/` — the verified library.
  - `frame` — frame type, protected identifiers, checksums, validation.
  - `safety` — end-to-end payload protection (CRC-16, counters).
  - `error`, `relay` — the error type and the RELAY data model.
  - `adapt` — conversion between frames and RELAY messages.
  - `bus` — subscriber queues (back-pressure, rate limit) and the
    subscription registry.
  - `virtual_bus`, `mock` — the state machines of the in-process virtual bus
    and of the mock bus.
  - `master`, `slave` — schedule stepping and response registration.
  - `ldf` — the LDF parser, as a line automaton over the file's text.
  - `base64` — the base64 form of frame data in JSON, stated as a
    specification and computed by the `base64` crate's STANDARD engine.
  - `command` — what the command-line tool reads and prints.
  - `chars`, `text`, `keyed` — character sequences, number rendering and a
    string-keyed map, each with its meaning as a specification.
- `tests/` — tests of the library.
- `app/` — the tool and the asynchronous transports: locks, task wake-ups,
  timers, file and console I/O, JSON, and the floating point reading of LDF
  numbers. Each transport keeps its state in the library's state machine and
  only runs it.

## LDF numbers

Signal initial values and schedule delays may be written as floating point
numbers. `ldf::decimal_tokens` lists those tokens; the caller reads them
and hands the values to `ldf::parse`, which reads everything else itself.
`ldf::lemma_tokens_independent` shows that the tokens listed are exactly the
ones `parse` reads, whatever values it is given.

## Maps

Maps keyed by a frame identifier (`u8`) are `std::collections::HashMap`s,
specified by their view as a `Map`. Maps keyed by a string (signals,
schedule tables, message metadata, decoded signal values) are `keyed::Keyed`
and `relay::Meta`: a vector of entries with distinct keys, whose view is a
`Map` from the key's characters. Verus accepts calls on a `String`-keyed
`HashMap` but proves nothing about their results, so these maps could not
carry contracts in that form.
