//! The Kafka protocol's primitive types and message framing: a request
//! header and a response header, each message behind a four-byte size.
//!
//! Integers are big-endian and read and written through the cursor and the
//! writer (`i16_be`, `i32_be`, ...). What is Kafka's own is here: the
//! nullable string behind an `INT16` length, nullable bytes behind an
//! `INT32` length, and an array's count, as [`Kafka`] on the cursor and
//! [`KafkaWrite`] on the bytes being written.

use vstd::prelude::*;
use vstd::utf8::{decode_utf8, encode_utf8, valid_utf8};

use crate::cursor::{past_the_end, signed_at, taken, Cursor, Parsed};
use crate::error::{
    closed_error, closed_while, permanent, protocol_error, retryable, Failure, TransportError,
};
use crate::integer::{be, signed, signed_of};
use crate::writer::ByteWriter;

verus! {

pub const API_PRODUCE: i16 = 0;

pub const API_FETCH: i16 = 1;

pub const API_METADATA: i16 = 3;

pub const API_VERSIONS: i16 = 18;

/// The most one message may be.
pub const MAX_MESSAGE: usize = 100 * 1024 * 1024;

/// `length` as a two-byte field holds it: the most it can hold, where it is
/// more.
pub open spec fn capped_i16(length: nat) -> int {
    if length <= i16::MAX {
        length as int
    } else {
        i16::MAX as int
    }
}

/// `length` as a four-byte field holds it: the most it can hold, where it is
/// more.
pub open spec fn capped_i32(length: nat) -> int {
    if length <= i32::MAX {
        length as int
    } else {
        i32::MAX as int
    }
}

/// A nullable string as it is written: its UTF-8 bytes behind their length,
/// or -1.
pub open spec fn string_field(value: Option<Seq<char>>) -> Seq<u8> {
    match value {
        Some(text) => be(capped_i16(encode_utf8(text).len()), 2) + encode_utf8(text),
        None => be(-1, 2),
    }
}

/// Nullable bytes as they are written: behind their length, or -1.
pub open spec fn bytes_field(value: Option<Seq<u8>>) -> Seq<u8> {
    match value {
        Some(bytes) => be(capped_i32(bytes.len()), 4) + bytes,
        None => be(-1, 4),
    }
}

/// An array's count as it is written.
pub open spec fn count_field(count: nat) -> Seq<u8> {
    be(capped_i32(count), 4)
}

/// The failure of a string whose bytes are not UTF-8.
pub open spec fn not_utf8() -> Failure {
    permanent("a string that is not UTF-8"@)
}

/// A nullable string read off the front: any negative length is no string.
pub open spec fn string_at(bytes: Seq<u8>) -> Parsed<Option<Seq<char>>> {
    match signed_at(bytes, 2) {
        Ok((length, rest)) => if length < 0 {
            Ok((None, rest))
        } else {
            match taken(rest, length as nat) {
                Ok((text, rest)) => if valid_utf8(text) {
                    Ok((Some(decode_utf8(text)), rest))
                } else {
                    Err(not_utf8())
                },
                Err(failure) => Err(failure),
            }
        },
        Err(failure) => Err(failure),
    }
}

/// A string read off the front, the empty one where there is none.
pub open spec fn text_at(bytes: Seq<u8>) -> Parsed<Seq<char>> {
    match string_at(bytes) {
        Ok((Some(text), rest)) => Ok((text, rest)),
        Ok((None, rest)) => Ok((Seq::empty(), rest)),
        Err(failure) => Err(failure),
    }
}

/// Nullable bytes read off the front: any negative length is no bytes.
pub open spec fn bytes_at(bytes: Seq<u8>) -> Parsed<Option<Seq<u8>>> {
    match signed_at(bytes, 4) {
        Ok((length, rest)) => if length < 0 {
            Ok((None, rest))
        } else {
            match taken(rest, length as nat) {
                Ok((field, rest)) => Ok((Some(field), rest)),
                Err(failure) => Err(failure),
            }
        },
        Err(failure) => Err(failure),
    }
}

/// An array's count read off the front: a null array counts zero.
pub open spec fn count_at(bytes: Seq<u8>) -> Parsed<nat> {
    match signed_at(bytes, 4) {
        Ok((count, rest)) => Ok(
            (
                if count < 0 {
                    0
                } else {
                    count as nat
                },
                rest,
            ),
        ),
        Err(failure) => Err(failure),
    }
}

/// Where a read of a string or of bytes behind a length of `width` bytes
/// stops when it fails: before what it could not take.
pub open spec fn stalled(bytes: Seq<u8>, width: nat) -> Seq<u8> {
    match signed_at(bytes, width) {
        Ok((length, rest)) => match taken(rest, length as nat) {
            Ok((_, behind)) => behind,
            Err(_) => rest,
        },
        Err(_) => bytes,
    }
}

/// The text that `bytes` encode, or `None` where they are not UTF-8.
///
/// Trusted: `std::string::String::from_utf8`, which gives back the string of
/// those bytes exactly where they are valid UTF-8.
#[verifier::external_body]
fn text_of(bytes: Vec<u8>) -> (text: Option<String>)
    ensures
        match text {
            Some(t) => valid_utf8(bytes@) && t@ == decode_utf8(bytes@),
            None => !valid_utf8(bytes@),
        },
{
    String::from_utf8(bytes).ok()
}

/// Kafka's own fields, read off the cursor.
pub trait Kafka<'a>: Sized + View<V = Seq<u8>> {
    /// A nullable string: length -1 is `None`.
    ///
    /// # Errors
    /// Past the end, or not UTF-8.
    fn nullable_string(&mut self) -> (value: Result<Option<String>, TransportError>)
        ensures
            match string_at(old(self)@) {
                Ok((Some(text), rest)) => value matches Ok(Some(t)) && t@ == text && final(self)@
                    == rest,
                Ok((None, rest)) => value == Ok::<Option<String>, TransportError>(None)
                    && final(self)@ == rest,
                Err(failure) => value matches Err(e) && e@ == failure && final(self)@ == stalled(
                    old(self)@,
                    2,
                ),
            },
    ;

    /// Nullable bytes: length -1 is `None`.
    ///
    /// # Errors
    /// Past the end.
    fn nullable_bytes(&mut self) -> (value: Result<Option<&'a [u8]>, TransportError>)
        ensures
            match bytes_at(old(self)@) {
                Ok((Some(bytes), rest)) => value matches Ok(Some(b)) && b@ == bytes && final(self)@
                    == rest,
                Ok((None, rest)) => value == Ok::<Option<&'a [u8]>, TransportError>(None)
                    && final(self)@ == rest,
                Err(failure) => value matches Err(e) && e@ == failure && final(self)@ == stalled(
                    old(self)@,
                    4,
                ),
            },
    ;

    /// An array's count, a null array being zero.
    ///
    /// # Errors
    /// Past the end.
    fn count(&mut self) -> (value: Result<usize, TransportError>)
        ensures
            match count_at(old(self)@) {
                Ok((count, rest)) => value matches Ok(n) && n == count && n <= i32::MAX
                    && final(self)@ == rest,
                Err(failure) => value matches Err(e) && e@ == failure && final(self)@ == old(self)@,
            },
    ;
}

impl<'a> Kafka<'a> for Cursor<'a> {
    fn nullable_string(&mut self) -> (value: Result<Option<String>, TransportError>) {
        let length: i16 = self.i16_be()?;
        if length < 0 {
            return Ok(None);
        }
        let bytes: &[u8] = self.take(length as usize)?;
        match text_of(vstd::slice::slice_to_vec(bytes)) {
            Some(text) => Ok(Some(text)),
            None => Err(protocol_error("a string that is not UTF-8")),
        }
    }

    fn nullable_bytes(&mut self) -> (value: Result<Option<&'a [u8]>, TransportError>) {
        let length: i32 = self.i32_be()?;
        if length < 0 {
            return Ok(None);
        }
        let bytes: &'a [u8] = self.take(length as usize)?;
        Ok(Some(bytes))
    }

    fn count(&mut self) -> (value: Result<usize, TransportError>) {
        let count: i32 = self.i32_be()?;
        if count < 0 {
            Ok(0)
        } else {
            Ok(count as usize)
        }
    }
}

/// A string, the empty one where there is none.
pub(crate) fn text(reader: &mut Cursor<'_>) -> (value: Result<String, TransportError>)
    ensures
        match text_at(old(reader)@) {
            Ok((text, rest)) => value matches Ok(t) && t@ == text && final(reader)@ == rest,
            Err(failure) => value matches Err(e) && e@ == failure,
        },
{
    match reader.nullable_string()? {
        Some(text) => Ok(text),
        None => Ok(String::new()),
    }
}

/// Kafka's own fields, written beside the writer's.
pub trait KafkaWrite: Sized + View<V = Seq<u8>> {
    /// A nullable string: `None` is length -1.
    fn nullable_string(&mut self, value: Option<&str>) -> (writer: &mut Self)
        ensures
            writer@ == old(self)@ + string_field(
                match value {
                    Some(text) => Some(text@),
                    None => None,
                },
            ),
            *final(self) == *final(writer),
    ;

    /// Nullable bytes: `None` is length -1.
    fn nullable_bytes(&mut self, value: Option<&[u8]>) -> (writer: &mut Self)
        ensures
            writer@ == old(self)@ + bytes_field(
                match value {
                    Some(bytes) => Some(bytes@),
                    None => None,
                },
            ),
            *final(self) == *final(writer),
    ;

    /// An array's count; the elements follow.
    fn count(&mut self, count: usize) -> (writer: &mut Self)
        ensures
            writer@ == old(self)@ + count_field(count as nat),
            *final(self) == *final(writer),
    ;
}

impl KafkaWrite for Vec<u8> {
    fn nullable_string(&mut self, value: Option<&str>) -> (writer: &mut Self) {
        match value {
            Some(text) => {
                let bytes: &[u8] = text.as_bytes();
                let length: i16 = if bytes.len() <= i16::MAX as usize {
                    bytes.len() as i16
                } else {
                    i16::MAX
                };
                let writer = self.i16_be(length).bytes(bytes);
                assert(writer@ =~= old(self)@ + string_field(Some(text@)));
                writer
            },
            None => self.i16_be(-1),
        }
    }

    fn nullable_bytes(&mut self, value: Option<&[u8]>) -> (writer: &mut Self) {
        match value {
            Some(bytes) => {
                let writer = self.i32_be(capped(bytes.len())).bytes(bytes);
                assert(writer@ =~= old(self)@ + bytes_field(Some(bytes@)));
                writer
            },
            None => self.i32_be(-1),
        }
    }

    fn count(&mut self, count: usize) -> (writer: &mut Self) {
        self.i32_be(capped(count))
    }
}

/// `length` as a four-byte field holds it.
pub(crate) fn capped(length: usize) -> (field: i32)
    ensures
        field == capped_i32(length as nat),
{
    if length <= i32::MAX as usize {
        length as i32
    } else {
        i32::MAX
    }
}

/// A message behind its size.
pub open spec fn framed(message: Seq<u8>) -> Seq<u8> {
    be(capped_i32(message.len()), 4) + message
}

/// The message of a request: the header, and `body`.
pub open spec fn request_message(
    api_key: int,
    api_version: int,
    correlation: int,
    client: Seq<char>,
    body: Seq<u8>,
) -> Seq<u8> {
    be(api_key, 2) + be(api_version, 2) + be(correlation, 4) + string_field(Some(client)) + body
}

/// The message of a response: the correlation id, and `body`.
pub open spec fn response_message(correlation: int, body: Seq<u8>) -> Seq<u8> {
    be(correlation, 4) + body
}

/// A request: the size, the header, and `body`.
#[must_use]
pub fn request(
    api_key: i16,
    api_version: i16,
    correlation: i32,
    client: &str,
    body: &[u8],
) -> (message: Vec<u8>)
    ensures
        message@ == framed(
            request_message(
                api_key as int,
                api_version as int,
                correlation as int,
                client@,
                body@,
            ),
        ),
{
    let mut header: Vec<u8> = Vec::new();
    header.i16_be(api_key).i16_be(api_version).i32_be(correlation).nullable_string(
        Some(client),
    ).bytes(body);
    assert(header@ =~= request_message(
        api_key as int,
        api_version as int,
        correlation as int,
        client@,
        body@,
    ));
    frame(&header)
}

/// A response: the size, the correlation id, and `body`.
#[must_use]
pub fn response(correlation: i32, body: &[u8]) -> (message: Vec<u8>)
    ensures
        message@ == framed(response_message(correlation as int, body@)),
{
    let mut out: Vec<u8> = Vec::new();
    out.i32_be(correlation).bytes(body);
    assert(out@ =~= response_message(correlation as int, body@));
    frame(&out)
}

/// `message` behind its size.
#[must_use]
pub fn frame(message: &[u8]) -> (out: Vec<u8>)
    ensures
        out@ == framed(message@),
{
    let mut out: Vec<u8> = Vec::new();
    out.i32_be(capped(message.len())).bytes(message);
    assert(out@ =~= framed(message@));
    out
}

/// The size that the four bytes before a message announce, where a message
/// of that size will be read.
pub open spec fn announced(size: Seq<u8>) -> Result<nat, Failure> {
    if signed(size) < 0 {
        Err(permanent("a negative message size"@))
    } else if signed(size) > MAX_MESSAGE {
        Err(permanent("a message over what Xmip will read"@))
    } else {
        Ok(signed(size) as nat)
    }
}

/// One message read off what a peer sent before it closed: the message
/// behind its size, or nothing where the peer closed between messages.
pub open spec fn message_at(bytes: Seq<u8>) -> Parsed<Option<Seq<u8>>> {
    if bytes.len() == 0 {
        Ok((None, bytes))
    } else if bytes.len() < 4 {
        Err(retryable(closed_while("reading a message size"@)))
    } else {
        match announced(bytes.take(4)) {
            Ok(size) => if bytes.len() - 4 < size {
                Err(retryable(closed_while("reading a message"@)))
            } else {
                Ok((Some(bytes.subrange(4, 4 + size as int)), bytes.skip(4 + size as int)))
            },
            Err(failure) => Err(failure),
        }
    }
}

/// Where a read of a message stops when it fails: behind a size that is
/// refused, and at the end of what a peer sent that closed mid-message.
pub open spec fn broken_off(bytes: Seq<u8>) -> Seq<u8> {
    if bytes.len() >= 4 && announced(bytes.take(4)) is Err {
        bytes.skip(4)
    } else {
        Seq::empty()
    }
}

/// How long the message is that the four bytes `size` stand before.
///
/// # Errors
/// A negative size, or a size over [`MAX_MESSAGE`].
pub fn message_size(size: [u8; 4]) -> (length: Result<usize, TransportError>)
    ensures
        match announced(size@) {
            Ok(n) => length matches Ok(l) && l == n,
            Err(failure) => length matches Err(e) && e@ == failure,
        },
{
    let length: i64 = signed_of(&size);
    if length < 0 {
        return Err(protocol_error("a negative message size"));
    }
    if length > MAX_MESSAGE as i64 {
        return Err(protocol_error("a message over what Xmip will read"));
    }
    Ok(length as usize)
}

/// Read one message behind its size off what a peer sent before it closed,
/// or `None` when it closed between messages.
///
/// # Errors
/// A connection that closes mid-message, or a size over [`MAX_MESSAGE`].
pub fn read_message(reader: &mut &[u8]) -> (message: Result<Option<Vec<u8>>, TransportError>)
    ensures
        match message_at(old(reader)@) {
            Ok((Some(bytes), rest)) => message matches Ok(Some(m)) && m@ == bytes && final(reader)@
                == rest,
            Ok((None, rest)) => message == Ok::<Option<Vec<u8>>, TransportError>(None)
                && final(reader)@ == rest,
            Err(failure) => message matches Err(e) && e@ == failure && final(reader)@
                == broken_off(old(reader)@),
        },
{
    let bytes: &[u8] = *reader;
    if bytes.len() == 0 {
        return Ok(None);
    }
    if bytes.len() < 4 {
        let (_, end) = bytes.split_at(bytes.len());
        *reader = end;
        assert(end@ =~= Seq::<u8>::empty());
        return Err(closed_error("reading a message size"));
    }
    let size: [u8; 4] = [bytes[0], bytes[1], bytes[2], bytes[3]];
    assert(size@ =~= bytes@.take(4));
    let (_, behind) = bytes.split_at(4);
    *reader = behind;
    let length: usize = message_size(size)?;
    if behind.len() < length {
        let (_, end) = behind.split_at(behind.len());
        *reader = end;
        assert(end@ =~= Seq::<u8>::empty());
        return Err(closed_error("reading a message"));
    }
    let (message, rest) = behind.split_at(length);
    *reader = rest;
    assert(message@ =~= bytes@.subrange(4, 4 + length));
    assert(rest@ =~= bytes@.skip(4 + length));
    Ok(Some(vstd::slice::slice_to_vec(message)))
}

/// The header of a request: api key, version, correlation id, client id,
/// and the body after them.
#[derive(Clone, Debug, PartialEq, Eq)]
pub struct RequestHeader {
    pub api_key: i16,
    pub api_version: i16,
    pub correlation: i32,
    pub client: Option<String>,
}

/// The mathematical content of a [`RequestHeader`].
pub struct Header {
    pub api_key: int,
    pub api_version: int,
    pub correlation: int,
    pub client: Option<Seq<char>>,
}

impl View for RequestHeader {
    type V = Header;

    open spec fn view(&self) -> Header {
        Header {
            api_key: self.api_key as int,
            api_version: self.api_version as int,
            correlation: self.correlation as int,
            client: match self.client {
                Some(client) => Some(client@),
                None => None,
            },
        }
    }
}

/// A request message split into its header and its body.
pub open spec fn header_at(message: Seq<u8>) -> Parsed<Header> {
    if message.len() < 8 {
        Err(past_the_end())
    } else {
        match string_at(message.skip(8)) {
            Ok((client, body)) => Ok(
                (
                    Header {
                        api_key: signed(message.subrange(0, 2)),
                        api_version: signed(message.subrange(2, 4)),
                        correlation: signed(message.subrange(4, 8)),
                        client,
                    },
                    body,
                ),
            ),
            Err(failure) => Err(failure),
        }
    }
}

/// Split a request message into its header and body.
///
/// # Errors
/// A message shorter than a header.
pub fn read_request(message: &[u8]) -> (split: Result<(RequestHeader, &[u8]), TransportError>)
    ensures
        match header_at(message@) {
            Ok((header, body)) => split matches Ok((h, b)) && h@ == header && b@ == body,
            Err(failure) => split matches Err(e) && e@ == failure,
        },
{
    let mut cursor = Cursor::new(message);
    let api_key: i16 = cursor.i16_be()?;
    let api_version: i16 = cursor.i16_be()?;
    let correlation: i32 = cursor.i32_be()?;
    proof {
        assert(message@.take(2) =~= message@.subrange(0, 2));
        assert(message@.skip(2).take(2) =~= message@.subrange(2, 4));
        assert(message@.skip(2).skip(2).take(4) =~= message@.subrange(4, 8));
        assert(message@.skip(2).skip(2).skip(4) =~= message@.skip(8));
    }
    let client: Option<String> = cursor.nullable_string()?;
    let header = RequestHeader { api_key, api_version, correlation, client };
    Ok((header, cursor.remaining()))
}

} // verus!
