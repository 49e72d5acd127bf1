//! Streams that arrive as Kafka records. One record is one Stream, the
//! topic, partition and offset kept beside it.
//!
//! Kafka is the event backbone: partitioned logs on a cluster of brokers,
//! producers that append, consumers that read on from an offset they keep,
//! on port 9092. A Receive Location fetches its partition from its cursor
//! and hands each record's value up, the offset it read to being the cursor
//! for next time; a Send Location produces. Either may instead accept
//! clients directly through [`Session`], one broker's worth of protocol for
//! one connection over logs kept in memory.
//!
//! What is here is the protocol as it stands since message format 2:
//! Metadata v1 to find the leader, Produce v3 with acknowledgement from the
//! leader, Fetch v4, record batches with their CRC-32C. Consumer groups,
//! SASL, TLS, compression and idempotent producers are the next layers.
//!
//! The origin URI carries what the fetch knew: `kafka://broker/orders/0?offset=41`.
//!
//! Nothing here opens a socket. [`Client`] and [`Session`] are the two sides
//! of a connection as pure protocol: they turn calls into the bytes to send,
//! and the bytes that came into results. What they promise of each other is
//! proved in [`laws`].

pub mod client;
pub mod crc;
pub mod cursor;
pub mod error;
pub mod integer;
pub mod laws;
pub mod logs;
pub mod records;
pub mod session;
pub mod stream;
pub mod text;
pub mod transport;
pub mod varint;
pub mod wire;
pub mod writer;

pub use client::{Client, TopicMetadata};
pub use error::TransportError;
pub use records::Record;
pub use session::{Event, Session};
pub use stream::Arrived;
pub use transport::KafkaTransport;
