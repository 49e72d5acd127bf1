# kafka_transport

Kafka transport: one record is one Stream, the topic, partition and offset
beside it; a Location produces or fetches on from its cursor through a broker,
or accepts clients directly. Message format 2.

`src/` is the protocol, written and proved in Verus: record batches, fields
and framing, the client's side and the broker's side of a connection as pure
functions of the bytes that pass, and a Location's cursor. `src/laws/` states
what holds across them: what is written reads back, what is damaged is
refused, what was produced is fetched, and a Location gets every record once.

`app/` is the TCP around it: sockets, timeouts, and the loops that carry
messages between a socket and the library.

`tests/` runs the library on concrete values.
