# gbnet

Bit-packed serialization and the protocol core of a reliable-UDP stack for multiplayer
games, verified with Verus.

- `src/serialize/bit_io.rs`: the bit buffer, modelled as a sequence of bits with write
  and read positions.
- `src/serialize.rs`: bit-packed serialization of integers, booleans, options, tuples,
  vectors, strings and arrays, each described by the writes it performs and the reads
  that undo them; reading back what was written gives the value back.
- `src/serialize/byte_aligned.rs`: byte-aligned serialization, little-endian, through
  `byteorder`.
- `src/packet.rs`: packet headers and types, their encoding, and wrapping sequence
  number arithmetic.
- `src/reliability.rs`: the ring of received sequence numbers, acknowledgement bits,
  and retransmission of unacknowledged packets.
- `src/channel.rs`, `src/config.rs`: message channels and settings.
- `src/connection.rs`: the connection handshake and its state machine, driven by the
  current time and the datagrams that arrive.
- `src/socket.rs`: socket error kinds and counters.
- `src/layout.rs`: the rules that decide how many bits a declared field, a vector
  length or an enum index takes.
- `src/messages.rs`: the game's messages, packed at their declared widths, with a field
  that starts at a byte boundary; reading back a message gives it back.

`app/` holds what talks to the operating system: the UDP socket, the clock, the loop
that drives a connection, floating-point values and the C interface. `tests/` holds the
tests.
