# nimble

Verified building blocks of the nimble deterministic-lockstep networking stack,
written in Verus: the library states its behaviour in `requires`/`ensures`
contracts over mathematical models (octet sequences, sequences of steps, maps of
connections) and Verus proves the code against them.

Layout:

- `src/` — the verified library.
  - Octet streams and codecs: `stream` (the `flood_rs` streams seen through their
    contents), `codec`, `decimal`, `hexify`.
  - Datagrams: `ordered_datagram`, `datagram` (packing items into datagrams and
    reading them back), `udp_connections` (the connection handshake).
  - Protocol messages: `protocol`, `participant`, `client_to_host`,
    `client_to_host_oob`, `host_to_client`, `host_to_client_oob`, `blob_commands`,
    `grouping` (gathering steps per participant), `flat_steps` (steps sent tick by
    tick).
  - Steps: `tick`, `steps`, `pending_steps`, `participant_steps`, `seer`,
    `rectify`, `transmute`, `sample_step`, `snake_c`.
  - Host: `combinator`, `host_state`, `blob_sender` (the `blob_stream` sender with
    its chunk count), `host_logic`.
  - Laws relating several functions: `readback` (what the host writes reads back),
    and proof functions beside the code they speak of (`freelist`,
    `ordered_datagram`, `udp_connections`, `host_logic`, ...).
- `tests/` — tests of the library on concrete values.
- `app/` — the command-line client: a REPL over UDP, the `Rectify` coordination on
  top of `nimble_assent`, and the sample game's callbacks.
