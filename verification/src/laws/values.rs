//! Numbers, text and addresses: what their spellings mean, and that every
//! value is seen whole.

use vstd::arithmetic::power::{lemma_pow0, lemma_pow1, lemma_pow_adds, pow};
use vstd::prelude::*;
use vstd::utf8::{decode_utf8, encode_utf8, valid_utf8};

use crate::client::{next_correlation, TopicMetadata};
use crate::cursor::past_the_end;
use crate::error::{permanent, Failure, TransportError};
use crate::integer::{be, lemma_signed_round_trip, lemma_spans, signed, unsigned};
use crate::laws::messages::law_an_integer_round_trips;
use crate::laws::metadata::lemma_digits;
use crate::logs::{log_of, Place};
use crate::records::{fields, Entry, Record, Stored};
use crate::session::{host_and_port, kept, Event, Happened};
use crate::stream::{announced, Arrived};
use crate::text::{
    decimal, digits, is_digit, lemma_not_digits, parsed_i32, split_at_first, split_at_last,
};
use crate::transport::moved_past;
use crate::varint::{unzigzagged, varint, zigzagged};
use crate::wire::{
    bytes_at, count_at, message_at, request_message, response_message, string_at, text_at,
};

verus! {

/// One byte is the number that it is.
pub proof fn law_one_byte_is_its_number(byte: u8)
    ensures
        unsigned(seq![byte]) == byte,
{
    assert(seq![byte].drop_last() =~= Seq::<u8>::empty());
    assert(unsigned(Seq::<u8>::empty()) == 0);
    assert(seq![byte].last() == byte);
}

/// The bytes of a number count by their places: those before others count 256
/// times as much for each of the others.
pub proof fn law_bytes_count_by_place(high: Seq<u8>, low: Seq<u8>)
    ensures
        unsigned(high + low) == unsigned(high) * pow(256, low.len()) + unsigned(low),
    decreases low.len(),
{
    if low.len() == 0 {
        assert(high + low =~= high);
        lemma_pow0(256);
    } else {
        let front = low.drop_last();
        law_bytes_count_by_place(high, front);
        assert((high + low).drop_last() =~= high + front);
        lemma_pow_adds(256, front.len(), 1);
        lemma_pow1(256);
        let scale = pow(256, front.len());
        assert(256 * (unsigned(high) * scale) == unsigned(high) * (scale * 256)) by (
        nonlinear_arith);
        assert(256 * (unsigned(high) * scale + unsigned(front)) == 256 * (unsigned(high) * scale)
            + 256 * unsigned(front));
    }
}

/// A signed number is the unsigned one, or a whole span less where the highest
/// bit is set.
pub proof fn law_the_highest_bit_is_the_sign(bytes: Seq<u8>)
    requires
        bytes.len() > 0,
    ensures
        signed(bytes) == if bytes[0] < 128 {
            unsigned(bytes)
        } else {
            unsigned(bytes) - pow(256, bytes.len())
        },
    decreases bytes.len(),
{
    if bytes.len() == 1 {
        lemma_pow1(256);
        law_one_byte_is_its_number(bytes[0]);
        assert(bytes =~= seq![bytes[0]]);
    } else {
        let front = bytes.drop_last();
        law_the_highest_bit_is_the_sign(front);
        lemma_pow_adds(256, front.len(), 1);
        lemma_pow1(256);
        assert(256 * (unsigned(front) - pow(256, front.len())) == 256 * unsigned(front) - 256 * pow(
            256,
            front.len(),
        ));
    }
}

/// The number that the digits of a varint write, the lowest first.
pub open spec fn places(bytes: Seq<u8>) -> int
    decreases bytes.len(),
{
    if bytes.len() == 0 {
        0
    } else {
        bytes[0] % 128 + 128 * places(bytes.skip(1))
    }
}

/// A varint writes its number seven bits a byte, marks every byte but the last
/// as followed by another, and has no byte that it does not need.
pub proof fn law_a_varint_writes_its_number(value: nat)
    ensures
        places(varint(value)) == value,
        varint(value).len() > 0,
        forall|i: int| 0 <= i < varint(value).len() - 1 ==> (#[trigger] varint(value)[i]) >= 128,
        varint(value).last() < 128,
        varint(value).len() > 1 ==> varint(value).last() != 0,
    decreases value,
{
    let bytes = varint(value);
    if value < 128 {
        assert(bytes.skip(1) =~= Seq::<u8>::empty());
        assert(places(bytes.skip(1)) == 0);
    } else {
        let more = varint(value / 128);
        law_a_varint_writes_its_number(value / 128);
        assert(bytes.skip(1) =~= more);
        assert(bytes.last() == more.last());
        assert forall|i: int| 0 <= i < bytes.len() - 1 implies (#[trigger] bytes[i]) >= 128 by {
            if i > 0 {
                assert(bytes[i] == more[i - 1]);
            }
        }
        if value / 128 < 128 {
            assert(more.last() == value / 128);
        }
    }
}

/// Folding takes the signed integers in turn: 0, -1, 1, -2, 2, and so on.
pub proof fn law_zigzag_takes_turns(value: int)
    requires
        value >= 0,
    ensures
        zigzagged(0) == 0,
        zigzagged(-value - 1) == zigzagged(value) + 1,
        zigzagged(value + 1) == zigzagged(-value - 1) + 1,
        unzigzagged(zigzagged(value)) == value,
        unzigzagged(zigzagged(-value - 1)) == -value - 1,
{
}

/// A decimal reads back as the number it writes: digits, behind a minus sign
/// where the number is negative.
pub proof fn law_a_decimal_reads_back(value: int)
    requires
        i32::MIN <= value <= i32::MAX,
    ensures
        parsed_i32(decimal(value)) == Some(value),
        value < 0 ==> decimal(value)[0] == '-' && decimal(value).skip(1) == decimal(-value),
        value >= 0 ==> forall|i: int|
            0 <= i < decimal(value).len() ==> is_digit(#[trigger] decimal(value)[i]),
{
    if value < 0 {
        lemma_digits((-value) as nat);
        assert(decimal(value).skip(1) =~= digits((-value) as nat));
    } else {
        lemma_digits(value as nat);
        assert(is_digit(digits(value as nat)[0]));
    }
}

/// A decimal has no digit that it does not need.
pub proof fn law_a_decimal_has_no_leading_zero(value: nat)
    requires
        value > 0,
    ensures
        decimal(value as int)[0] != '0',
    decreases value,
{
    if value >= 10 {
        law_a_decimal_has_no_leading_zero(value / 10);
        lemma_digits(value / 10);
        assert(digits(value)[0] == digits(value / 10)[0]);
    }
}

/// A text with a character behind its sign that is no digit writes no number,
/// and nor does a sign alone or nothing.
pub proof fn law_only_digits_write_a_number(text: Seq<char>, at: int)
    requires
        0 <= at <= text.len(),
        at == text.len() ==> at == 0 || at == 1 && (text[0] == '+' || text[0] == '-'),
        at < text.len() ==> !is_digit(text[at]) && (at == 0 ==> text[0] != '+' && text[0] != '-'),
    ensures
        parsed_i32(text) is None,
{
    if at < text.len() {
        if text[0] == '+' || text[0] == '-' {
            assert(text.skip(1)[at - 1] == text[at]);
            lemma_not_digits(text.skip(1), at - 1);
        } else {
            lemma_not_digits(text, at);
        }
    }
}

/// A text cut at the first mark is what stands before it, which holds no
/// mark, and what stands behind it.
pub proof fn law_a_cut_at_the_first_mark(text: Seq<char>, mark: char)
    ensures
        match split_at_first(text, mark) {
            Some((before, behind)) => text == before + seq![mark] + behind && !before.contains(
                mark,
            ),
            None => !text.contains(mark),
        },
{
    text.index_of_first_ensures(mark);
    if let Some(at) = text.index_of_first(mark) {
        assert(text =~= text.take(at) + seq![mark] + text.skip(at + 1));
        assert(!text.take(at).contains(mark)) by {
            if text.take(at).contains(mark) {
                let i = choose|i: int| 0 <= i < at && text.take(at)[i] == mark;
                assert(text[i] == mark);
            }
        }
    }
}

/// A text cut at the last mark is what stands before it, and what stands
/// behind it, which holds no mark.
pub proof fn law_a_cut_at_the_last_mark(text: Seq<char>, mark: char)
    ensures
        match split_at_last(text, mark) {
            Some((before, behind)) => text == before + seq![mark] + behind && !behind.contains(
                mark,
            ),
            None => !text.contains(mark),
        },
{
    text.index_of_last_ensures(mark);
    if let Some(at) = text.index_of_last(mark) {
        let behind = text.skip(at + 1);
        assert(text =~= text.take(at) + seq![mark] + behind);
        assert(!behind.contains(mark)) by {
            if behind.contains(mark) {
                let i = choose|i: int| 0 <= i < behind.len() && behind[i] == mark;
                assert(text[at + 1 + i] == mark);
            }
        }
    }
}

/// An address without a port, or with one that is no number, is at port 0.
pub proof fn law_an_address_without_a_port_is_at_port_zero(address: Seq<char>, port: Seq<char>)
    ensures
        !address.contains(':') ==> host_and_port(address) == (address, 0int),
        !port.contains(':') && parsed_i32(port) is None ==> host_and_port(
            address + ":"@ + port,
        ) == (address, 0int),
{
    address.index_of_last_ensures(':');
    if !port.contains(':') && parsed_i32(port) is None {
        reveal_strlit(":");
        let whole = address + ":"@ + port;
        let at = address.len() as int;
        assert(whole[at] == ':');
        assert forall|i: int| at < i < whole.len() implies whole[i] != ':' by {
            assert(whole[i] == port[i - at - 1]);
            assert(port.contains(port[i - at - 1]));
        }
        whole.index_of_last_ensures(':');
        assert(whole.contains(':'));
        assert(whole.index_of_last(':') == Some(at));
        assert(whole.take(at) =~= address);
        assert(whole.skip(at + 1) =~= port);
    }
}

/// A string behind its length is the text that its bytes encode, and is
/// refused where they encode none.
pub proof fn law_a_string_is_its_utf8(bytes: Seq<u8>, rest: Seq<u8>)
    requires
        bytes.len() <= i16::MAX,
    ensures
        ({
            let field = be(bytes.len() as int, 2) + (bytes + rest);
            if valid_utf8(bytes) {
                string_at(field) == Ok::<(Option<Seq<char>>, Seq<u8>), Failure>(
                    (Some(decode_utf8(bytes)), rest),
                )
            } else {
                string_at(field) == Err::<(Option<Seq<char>>, Seq<u8>), Failure>(
                    permanent("a string that is not UTF-8"@),
                )
            }
        }),
{
    lemma_spans();
    law_an_integer_round_trips(bytes.len() as int, 2, bytes + rest);
    assert((bytes + rest).take(bytes.len() as int) =~= bytes);
    assert((bytes + rest).skip(bytes.len() as int) =~= rest);
}

/// Any negative length is no string, which says nothing.
pub proof fn law_a_negative_length_is_no_string(length: int, rest: Seq<u8>)
    requires
        i16::MIN <= length < 0,
    ensures
        string_at(be(length, 2) + rest) == Ok::<(Option<Seq<char>>, Seq<u8>), Failure>(
            (None, rest),
        ),
        text_at(be(length, 2) + rest) == Ok::<(Seq<char>, Seq<u8>), Failure>((Seq::empty(), rest)),
{
    lemma_spans();
    law_an_integer_round_trips(length, 2, rest);
}

/// Any negative length is no bytes, and any negative count no elements.
pub proof fn law_a_negative_length_is_no_bytes(length: int, rest: Seq<u8>)
    requires
        i32::MIN <= length < 0,
    ensures
        bytes_at(be(length, 4) + rest) == Ok::<(Option<Seq<u8>>, Seq<u8>), Failure>(
            (None, rest),
        ),
        count_at(be(length, 4) + rest) == Ok::<(nat, Seq<u8>), Failure>((0, rest)),
{
    lemma_spans();
    law_an_integer_round_trips(length, 4, rest);
}

/// A field that says it is longer than what is left is refused.
pub proof fn law_a_field_past_the_end_is_refused(length: int, rest: Seq<u8>)
    requires
        rest.len() < length,
    ensures
        length <= i16::MAX ==> string_at(be(length, 2) + rest) == Err::<
            (Option<Seq<char>>, Seq<u8>),
            Failure,
        >(past_the_end()),
        length <= i32::MAX ==> bytes_at(be(length, 4) + rest) == Err::<
            (Option<Seq<u8>>, Seq<u8>),
            Failure,
        >(past_the_end()),
{
    lemma_spans();
    if length <= i16::MAX {
        law_an_integer_round_trips(length, 2, rest);
    }
    if length <= i32::MAX {
        law_an_integer_round_trips(length, 4, rest);
    }
}

/// A message that says it is shorter than nothing is refused.
pub proof fn law_a_negative_message_size_is_refused(size: int, rest: Seq<u8>)
    requires
        i32::MIN <= size < 0,
    ensures
        message_at(be(size, 4) + rest) == Err::<(Option<Seq<u8>>, Seq<u8>), Failure>(
            permanent("a negative message size"@),
        ),
{
    lemma_spans();
    lemma_signed_round_trip(size, 4);
    assert((be(size, 4) + rest).take(4) =~= be(size, 4));
}

/// The fields of a request stand where any broker looks for them: the api key,
/// the version, the correlation id, the client, and the body behind it.
pub proof fn law_a_request_is_laid_out(
    api_key: int,
    api_version: int,
    correlation: int,
    client: Seq<char>,
    body: Seq<u8>,
)
    requires
        i16::MIN <= api_key <= i16::MAX,
        i16::MIN <= api_version <= i16::MAX,
        i32::MIN <= correlation <= i32::MAX,
        encode_utf8(client).len() <= i16::MAX,
    ensures
        ({
            let message = request_message(api_key, api_version, correlation, client, body);
            let name = encode_utf8(client);
            &&& signed(message.subrange(0, 2)) == api_key
            &&& signed(message.subrange(2, 4)) == api_version
            &&& signed(message.subrange(4, 8)) == correlation
            &&& signed(message.subrange(8, 10)) == name.len()
            &&& message.subrange(10, 10 + name.len() as int) == name
            &&& message.skip(10 + name.len() as int) == body
        }),
{
    let message = request_message(api_key, api_version, correlation, client, body);
    let name = encode_utf8(client);
    lemma_spans();
    lemma_signed_round_trip(api_key, 2);
    lemma_signed_round_trip(api_version, 2);
    lemma_signed_round_trip(correlation, 4);
    lemma_signed_round_trip(name.len() as int, 2);
    assert(message.subrange(0, 2) =~= be(api_key, 2));
    assert(message.subrange(2, 4) =~= be(api_version, 2));
    assert(message.subrange(4, 8) =~= be(correlation, 4));
    assert(message.subrange(8, 10) =~= be(name.len() as int, 2));
    assert(message.subrange(10, 10 + name.len() as int) =~= name);
    assert(message.skip(10 + name.len() as int) =~= body);
}

/// The fields of a response stand where any client looks for them.
pub proof fn law_a_response_is_laid_out(correlation: int, body: Seq<u8>)
    requires
        i32::MIN <= correlation <= i32::MAX,
    ensures
        signed(response_message(correlation, body).take(4)) == correlation,
        response_message(correlation, body).skip(4) == body,
{
    lemma_spans();
    lemma_signed_round_trip(correlation, 4);
    assert(response_message(correlation, body).take(4) =~= be(correlation, 4));
    assert(response_message(correlation, body).skip(4) =~= body);
}

/// Correlation ids count up, and the lowest follows the highest: no request
/// has the id of the one before.
pub proof fn law_correlation_ids_count_up(correlation: int)
    requires
        i32::MIN <= correlation <= i32::MAX,
    ensures
        i32::MIN <= next_correlation(correlation) <= i32::MAX,
        next_correlation(correlation) != correlation,
        correlation < i32::MAX ==> next_correlation(correlation) == correlation + 1,
        correlation == i32::MAX ==> next_correlation(correlation) == i32::MIN,
{
}

/// Every record is handed up as a Stream of its own, in order: its value, and
/// where it came from.
pub proof fn law_one_record_is_one_stream(
    peer: Seq<char>,
    place: Place,
    records: Seq<Stored>,
    at: int,
)
    requires
        0 <= at < records.len(),
    ensures
        announced(peer, place, records).len() == records.len(),
        announced(peer, place, records)[at].origin == "kafka://"@ + peer + "/"@ + place.0 + "/"@
            + decimal(place.1) + "?offset="@ + decimal(records[at].offset),
        records[at].value matches Some(bytes) ==> announced(peer, place, records)[at].bytes
            == bytes,
        records[at].value is None ==> announced(peer, place, records)[at].bytes.len() == 0,
{
}

/// The cursor is one past the last record received, and stays where none was.
pub proof fn law_the_cursor_is_one_past_the_last(cursor: int, records: Seq<Stored>)
    ensures
        records.len() == 0 ==> moved_past(cursor, records) == cursor,
        records.len() > 0 && i64::MIN <= records[records.len() - 1].offset < i64::MAX
            ==> moved_past(cursor, records) == records[records.len() - 1].offset + 1,
{
}

/// The values that a session is given to hold stand behind what it holds, in
/// order, each as it is, without a key, at the offset of its place.
pub proof fn law_held_values_are_as_given(
    logs: Map<Place, Seq<Stored>>,
    place: Place,
    values: Seq<&[u8]>,
    at: int,
)
    requires
        0 <= at < values.len(),
        log_of(logs, place).len() + values.len() <= i64::MAX,
    ensures
        ({
            let more = kept(log_of(logs, place).len(), values);
            &&& more.len() == values.len()
            &&& more[at].offset == log_of(logs, place).len() + at
            &&& more[at].key is None
            &&& more[at].value == Some(values[at]@)
        }),
{
}

/// A record is seen whole.
pub proof fn law_a_record_is_seen_whole(record: Record)
    ensures
        record@.offset == record.offset,
        record.key matches Some(key) ==> record@.key == Some(key@),
        record.key is None ==> record@.key is None,
        record.value matches Some(value) ==> record@.value == Some(value@),
        record.value is None ==> record@.value is None,
{
}

/// An entry is seen whole.
pub proof fn law_an_entry_is_seen_whole(entries: Seq<Entry<'_>>, at: int)
    requires
        0 <= at < entries.len(),
    ensures
        fields(entries).len() == entries.len(),
        entries[at].0 matches Some(key) ==> fields(entries)[at].key == Some(key@),
        entries[at].0 is None ==> fields(entries)[at].key is None,
        entries[at].1 matches Some(value) ==> fields(entries)[at].value == Some(value@),
        entries[at].1 is None ==> fields(entries)[at].value is None,
{
}

/// A Stream and an event are seen whole.
pub proof fn law_an_event_is_seen_whole(arrived: Arrived, event: Event)
    ensures
        arrived@.origin == arrived.origin_uri@,
        arrived@.bytes == arrived.bytes@,
        event matches Event::Produced(one) ==> event@ == Happened::Produced(one@),
        event matches Event::Fetched { topic, offset } ==> event@ == (Happened::Fetched {
            topic: topic@,
            offset: offset as int,
        }),
{
}

/// What is known of a topic, and an error, are seen whole.
pub proof fn law_a_topic_is_seen_whole(topic: TopicMetadata, error: TransportError)
    ensures
        topic@.partitions == topic.partitions@,
        topic@.leader == topic.leader@,
        topic@.leaders.len() == topic.leaders@.len(),
        forall|i: int|
            0 <= i < topic.leaders@.len() ==> (#[trigger] topic@.leaders[i]) == topic.leaders@[i]@,
        error@.message == error.message@,
        error@.retryable == error.retryable,
{
}

} // verus!
