//! A Stream as it arrived: its bytes, and the URI that says where they came
//! from.

use vstd::prelude::*;

use crate::logs::Place;
use crate::records::Stored;
use crate::text::{decimal, push_decimal};

verus! {

/// One Stream as it arrived.
#[derive(Clone, Debug, PartialEq, Eq)]
pub struct Arrived {
    /// Where it came from: `kafka://broker/orders/0?offset=41`.
    pub origin_uri: String,
    pub bytes: Vec<u8>,
}

/// The mathematical content of an [`Arrived`].
pub struct Delivery {
    pub origin: Seq<char>,
    pub bytes: Seq<u8>,
}

impl View for Arrived {
    type V = Delivery;

    open spec fn view(&self) -> Delivery {
        Delivery { origin: self.origin_uri@, bytes: self.bytes@ }
    }
}

/// What each of `arrived` holds.
pub open spec fn deliveries(arrived: Seq<Arrived>) -> Seq<Delivery> {
    Seq::new(arrived.len(), |i: int| arrived[i]@)
}

/// Where a record came from: the peer, the topic, the partition and the
/// offset.
pub open spec fn origin(
    peer: Seq<char>,
    topic: Seq<char>,
    partition: int,
    offset: int,
) -> Seq<char> {
    "kafka://"@ + peer + "/"@ + topic + "/"@ + decimal(partition) + "?offset="@ + decimal(offset)
}

/// Write down where a record came from.
pub fn origin_uri(peer: &str, topic: &str, partition: i32, offset: i64) -> (uri: String)
    ensures
        uri@ == origin(peer@, topic@, partition as int, offset as int),
{
    let mut uri: String = "kafka://".to_string();
    uri.append(peer);
    uri.append("/");
    uri.append(topic);
    uri.append("/");
    push_decimal(&mut uri, partition as i64);
    uri.append("?offset=");
    push_decimal(&mut uri, offset);
    uri
}

/// The bytes of a record's value, none where it has no value.
pub open spec fn payload(value: Option<Seq<u8>>) -> Seq<u8> {
    match value {
        Some(bytes) => bytes,
        None => Seq::empty(),
    }
}

/// The Streams that `records` of `place` are handed up as, told by the peer
/// they came from.
pub open spec fn announced(peer: Seq<char>, place: Place, records: Seq<Stored>) -> Seq<Delivery> {
    Seq::new(
        records.len(),
        |i: int|
            Delivery {
                origin: origin(peer, place.0, place.1, records[i].offset),
                bytes: payload(records[i].value),
            },
    )
}

} // verus!
