# naia_lite

The core of a game-networking stack, written in Verus with its behaviour stated in
contracts and proved.

`src/` is the verified library:

- bit streams: `bits`, `bit_reader`, `bit_write`, `bit_writer`, `bit_counter`, and the
  `Serde` encodings of `serde`, `scalars` and `byte_arrays`;
- wrapping sequence numbers and counters: `seq_num`, `seq_order`, `seq_arith`,
  `rollover_counter`;
- buffers keyed by sequence number: `index_buffer`, `sequence_buffer`, `ping_store`,
  `id_pool`;
- packets and their acknowledgement: `packet`, `ack_manager`;
- channels and messages: `channel`, `schema`, `message`, `fragment`, `senders`,
  `receivers`, `reliable_receiver`, `message_manager`;
- the connection state that does not touch the network: `connection`, `timer`,
  `io_counters`.

The message manager writes the messages each channel has ready into a packet, reads
them back at the other end into that channel's receiver, which hands them over as the
channel promises (an ordered channel in the order of their numbers, each once every
lower number has arrived), and stops resending reliable messages once their packet is
reported delivered.

The public proof functions named `law_*` state what holds across calls: what a read gives
back of a write (down to a whole packet of channel messages), what the ends of a channel
agree on, what fragments rebuild, and what a delivery acknowledges.

`app/` holds what needs sockets, the clock, random numbers or floating point: the UDP
socket, the simulated link conditions, round-trip-time statistics, and the error types
with their `Display` impls. `tests/` runs the library on concrete values.
