# dbcppp_rs

A verified model of a CAN database (DBC) network and of the decoding of its
frames, with the dbcppp C library doing the parsing of DBC text and the bit
level decoding of signal values.

- `src/` (verified with Verus)
  - `dbc/`: signals and messages of a network: validation of raw signals and
    messages (multiplexer indicators, extended multiplexer switches that must
    exist and must not loop), and `cycles.rs`, the search for loops of switches.
  - `decision_tree.rs`: the multiplexing decision trees, simple and extended.
  - `message_processor.rs`: which signals a frame carries, given the raw values
    of the signals of its message, and the decoded frame, one entry per name.
  - `utils.rs`: small string and lookup helpers.
  - `tree_walk.rs`: walking a decision tree reaches exactly the signals that a
    frame carries (for extended multiplexing, with the one exception of a
    multiplexed signal that both lacks an extended multiplexer and is the
    switch of one).
  - `lib.rs`: `CanProcessor`, frames by message identifier.
  - `error.rs`: the errors and their texts.
- `app/`: the calls into dbcppp (loading a network, decoding raw and physical
  values), which turn its network into the plain values that `src/` validates.
