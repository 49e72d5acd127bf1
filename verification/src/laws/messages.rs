//! Fields and messages: what was written reads back, and a message that is
//! broken or too long is refused.

use vstd::prelude::*;
use vstd::utf8::{encode_utf8, encode_utf8_decode_utf8, encode_utf8_valid_utf8};

use crate::client::{answer_of, Caller};
use crate::cursor::signed_at;
use crate::error::{closed_while, permanent, retryable, Failure};
use crate::integer::{be, lemma_signed_round_trip, lemma_spans, span};
use crate::wire::{
    bytes_at, bytes_field, count_at, count_field, framed, header_at, message_at, request_message,
    response_message, string_at, string_field, text_at, Header, MAX_MESSAGE,
};

verus! {

/// An integer reads back from its bytes, and what stands behind it stays.
pub proof fn law_an_integer_round_trips(value: int, width: nat, rest: Seq<u8>)
    requires
        width > 0,
        -span(width) <= 2 * value < span(width),
    ensures
        signed_at(be(value, width) + rest, width) == Ok::<(int, Seq<u8>), Failure>((value, rest)),
{
    lemma_signed_round_trip(value, width);
    let bytes = be(value, width) + rest;
    assert(bytes.take(width as int) =~= be(value, width));
    assert(bytes.skip(width as int) =~= rest);
}

/// A string reads back, where its length fits the field before it, and what
/// stands behind it stays.
pub proof fn law_a_string_round_trips(text: Seq<char>, rest: Seq<u8>)
    requires
        encode_utf8(text).len() <= i16::MAX,
    ensures
        string_at(string_field(Some(text)) + rest) == Ok::<(Option<Seq<char>>, Seq<u8>), Failure>(
            (Some(text), rest),
        ),
        text_at(string_field(Some(text)) + rest) == Ok::<(Seq<char>, Seq<u8>), Failure>(
            (text, rest),
        ),
{
    let bytes = encode_utf8(text);
    lemma_spans();
    law_an_integer_round_trips(bytes.len() as int, 2, bytes + rest);
    assert(string_field(Some(text)) + rest =~= be(bytes.len() as int, 2) + (bytes + rest));
    assert((bytes + rest).take(bytes.len() as int) =~= bytes);
    assert((bytes + rest).skip(bytes.len() as int) =~= rest);
    encode_utf8_valid_utf8(text);
    encode_utf8_decode_utf8(text);
}

/// No string reads back as no string.
pub proof fn law_no_string_round_trips(rest: Seq<u8>)
    ensures
        string_at(string_field(None) + rest) == Ok::<(Option<Seq<char>>, Seq<u8>), Failure>(
            (None, rest),
        ),
{
    lemma_spans();
    law_an_integer_round_trips(-1, 2, rest);
}

/// Nullable bytes read back, where their length fits the field before them,
/// and what stands behind them stays.
pub proof fn law_bytes_round_trip(value: Option<Seq<u8>>, rest: Seq<u8>)
    requires
        value matches Some(bytes) ==> bytes.len() <= i32::MAX,
    ensures
        bytes_at(bytes_field(value) + rest) == Ok::<(Option<Seq<u8>>, Seq<u8>), Failure>(
            (value, rest),
        ),
{
    lemma_spans();
    match value {
        Some(bytes) => {
            law_an_integer_round_trips(bytes.len() as int, 4, bytes + rest);
            assert(bytes_field(value) + rest =~= be(bytes.len() as int, 4) + (bytes + rest));
            assert((bytes + rest).take(bytes.len() as int) =~= bytes);
            assert((bytes + rest).skip(bytes.len() as int) =~= rest);
        },
        None => {
            law_an_integer_round_trips(-1, 4, rest);
        },
    }
}

/// A count reads back, where it fits its field, and what stands behind it
/// stays.
pub proof fn law_a_count_round_trips(count: nat, rest: Seq<u8>)
    requires
        count <= i32::MAX,
    ensures
        count_at(count_field(count) + rest) == Ok::<(nat, Seq<u8>), Failure>((count, rest)),
{
    lemma_spans();
    law_an_integer_round_trips(count as int, 4, rest);
}

/// A message that is not too long reads back from behind its size, and what
/// stands behind it stays for the next read.
pub proof fn law_a_message_round_trips(message: Seq<u8>, rest: Seq<u8>)
    requires
        message.len() <= MAX_MESSAGE,
    ensures
        message_at(framed(message) + rest) == Ok::<(Option<Seq<u8>>, Seq<u8>), Failure>(
            (Some(message), rest),
        ),
{
    lemma_spans();
    lemma_signed_round_trip(message.len() as int, 4);
    let bytes = framed(message) + rest;
    assert(bytes.take(4) =~= be(message.len() as int, 4));
    assert(bytes.subrange(4, 4 + message.len() as int) =~= message);
    assert(bytes.skip(4 + message.len() as int) =~= rest);
}

/// A message that is too long to be read is refused before it is read.
pub proof fn law_a_long_message_is_refused(message: Seq<u8>, rest: Seq<u8>)
    requires
        message.len() > MAX_MESSAGE,
    ensures
        message_at(framed(message) + rest) == Err::<(Option<Seq<u8>>, Seq<u8>), Failure>(
            permanent("a message over what Xmip will read"@),
        ),
{
    lemma_spans();
    let size = crate::wire::capped_i32(message.len());
    lemma_signed_round_trip(size, 4);
    assert((framed(message) + rest).take(4) =~= be(size, 4));
}

/// A connection that closes mid-message fails, and trying again may help.
pub proof fn law_a_cut_message_is_refused(message: Seq<u8>, length: int)
    requires
        message.len() <= MAX_MESSAGE,
        0 < length < framed(message).len(),
    ensures
        message_at(framed(message).take(length)) == Err::<(Option<Seq<u8>>, Seq<u8>), Failure>(
            retryable(
                closed_while(
                    if length < 4 {
                        "reading a message size"@
                    } else {
                        "reading a message"@
                    },
                ),
            ),
        ),
{
    lemma_spans();
    lemma_signed_round_trip(message.len() as int, 4);
    let cut = framed(message).take(length);
    if length >= 4 {
        assert(cut.take(4) =~= be(message.len() as int, 4));
    }
}

/// A request's header and body read back from its message.
pub proof fn law_a_request_round_trips(
    api_key: int,
    api_version: int,
    correlation: int,
    client: Seq<char>,
    body: Seq<u8>,
)
    requires
        i16::MIN <= api_key <= i16::MAX,
        i16::MIN <= api_version <= i16::MAX,
        i32::MIN <= correlation <= i32::MAX,
        encode_utf8(client).len() <= i16::MAX,
    ensures
        header_at(request_message(api_key, api_version, correlation, client, body)) == Ok::<
            (Header, Seq<u8>),
            Failure,
        >((Header { api_key, api_version, correlation, client: Some(client) }, body)),
{
    let message = request_message(api_key, api_version, correlation, client, body);
    lemma_spans();
    lemma_signed_round_trip(api_key, 2);
    lemma_signed_round_trip(api_version, 2);
    lemma_signed_round_trip(correlation, 4);
    law_a_string_round_trips(client, body);
    assert(message.subrange(0, 2) =~= be(api_key, 2));
    assert(message.subrange(2, 4) =~= be(api_version, 2));
    assert(message.subrange(4, 8) =~= be(correlation, 4));
    assert(message.skip(8) =~= string_field(Some(client)) + body);
}

/// The answer to a client's last request is taken for that.
pub proof fn law_an_answer_is_taken(caller: Caller, body: Seq<u8>)
    requires
        i32::MIN <= caller.correlation <= i32::MAX,
    ensures
        answer_of(caller, Some(response_message(caller.correlation, body))) == Ok::<
            Seq<u8>,
            Failure,
        >(body),
{
    lemma_spans();
    law_an_integer_round_trips(caller.correlation, 4, body);
}

/// The answer to any other request is refused.
pub proof fn law_an_answer_to_another_request_is_refused(
    caller: Caller,
    correlation: int,
    body: Seq<u8>,
)
    requires
        i32::MIN <= correlation <= i32::MAX,
        correlation != caller.correlation,
    ensures
        answer_of(caller, Some(response_message(correlation, body))) == Err::<Seq<u8>, Failure>(
            permanent("an answer to another request"@),
        ),
{
    lemma_spans();
    law_an_integer_round_trips(correlation, 4, body);
}

} // verus!
