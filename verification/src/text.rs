//! Numbers in decimal and the splitting of text, as messages, addresses and
//! origin URIs carry them.

use vstd::prelude::*;

verus! {

/// The character for a decimal digit.
pub open spec fn digit(value: int) -> char {
    ('0' as int + value) as char
}

/// `value` in decimal, no sign and no leading zero.
pub open spec fn digits(value: nat) -> Seq<char>
    decreases value,
{
    if value < 10 {
        seq![digit(value as int)]
    } else {
        digits(value / 10).push(digit((value % 10) as int))
    }
}

/// `value` in decimal, a minus sign before a negative one.
pub open spec fn decimal(value: int) -> Seq<char> {
    if value < 0 {
        seq!['-'] + digits((-value) as nat)
    } else {
        digits(value as nat)
    }
}

/// Whether `c` is one of `0` to `9`.
pub open spec fn is_digit(c: char) -> bool {
    '0' <= c <= '9'
}

/// The number that `text` writes in decimal digits alone; the empty text
/// writes zero.
pub open spec fn digits_value(text: Seq<char>) -> Option<nat>
    decreases text.len(),
{
    if text.len() == 0 {
        Some(0)
    } else {
        match digits_value(text.drop_last()) {
            Some(high) if is_digit(text.last()) => Some(
                high * 10 + (text.last() as nat - '0' as nat) as nat,
            ),
            _ => None,
        }
    }
}

/// Whether `text` begins with a sign.
pub open spec fn is_signed(text: Seq<char>) -> bool {
    text.len() > 0 && (text[0] == '+' || text[0] == '-')
}

/// What stands behind the sign of `text`, where it has one.
pub open spec fn unsigned_part(text: Seq<char>) -> Seq<char> {
    if is_signed(text) {
        text.skip(1)
    } else {
        text
    }
}

/// The 32-bit number that `text` writes: an optional sign, then at least one
/// digit, then nothing else.
pub open spec fn parsed_i32(text: Seq<char>) -> Option<int> {
    let body = unsigned_part(text);
    match digits_value(body) {
        Some(magnitude) if body.len() > 0 => {
            let value = if text[0] == '-' {
                -(magnitude as int)
            } else {
                magnitude as int
            };
            if i32::MIN <= value <= i32::MAX {
                Some(value)
            } else {
                None
            }
        },
        _ => None,
    }
}

/// `text` cut at the last `mark`, which is left out.
pub open spec fn split_at_last(text: Seq<char>, mark: char) -> Option<(Seq<char>, Seq<char>)> {
    match text.index_of_last(mark) {
        Some(at) => Some((text.take(at), text.skip(at + 1))),
        None => None,
    }
}

/// `text` cut at the first `mark`, which is left out.
pub open spec fn split_at_first(text: Seq<char>, mark: char) -> Option<(Seq<char>, Seq<char>)> {
    match text.index_of_first(mark) {
        Some(at) => Some((text.take(at), text.skip(at + 1))),
        None => None,
    }
}

/// Write the digit `value` behind `out`.
fn push_digit(out: &mut String, value: u64)
    requires
        value < 10,
    ensures
        final(out)@ == old(out)@.push(digit(value as int)),
{
    proof {
        reveal_strlit("0");
        reveal_strlit("1");
        reveal_strlit("2");
        reveal_strlit("3");
        reveal_strlit("4");
        reveal_strlit("5");
        reveal_strlit("6");
        reveal_strlit("7");
        reveal_strlit("8");
        reveal_strlit("9");
    }
    let text = match value {
        0 => "0",
        1 => "1",
        2 => "2",
        3 => "3",
        4 => "4",
        5 => "5",
        6 => "6",
        7 => "7",
        8 => "8",
        _ => "9",
    };
    assert(text@ =~= seq![digit(value as int)]);
    out.append(text);
    assert(out@ =~= old(out)@.push(digit(value as int)));
}

/// Write `value` in decimal behind `out`.
fn push_digits(out: &mut String, value: u64)
    ensures
        final(out)@ == old(out)@ + digits(value as nat),
    decreases value,
{
    if value >= 10 {
        push_digits(out, value / 10);
    }
    push_digit(out, value % 10);
    assert(out@ =~= old(out)@ + digits(value as nat));
}

/// Write `value` in decimal behind `out`.
pub fn push_decimal(out: &mut String, value: i64)
    ensures
        final(out)@ == old(out)@ + decimal(value as int),
{
    if value < 0 {
        proof {
            reveal_strlit("-");
        }
        out.append("-");
        let above: i64 = -(value + 1);
        push_digits(out, above as u64 + 1);
        assert("-"@ =~= seq!['-']);
        assert(out@ =~= old(out)@ + decimal(value as int));
    } else {
        push_digits(out, value as u64);
    }
}

/// The number that `text` writes in decimal digits alone, as far as it can
/// be an `i32` up to its sign: anything above that range reads as one value
/// that is still above it.
fn magnitude(text: &str, from: usize, len: usize) -> (value: Option<u64>)
    requires
        from <= len == text@.len(),
    ensures
        match digits_value(text@.skip(from as int)) {
            Some(n) => value matches Some(v) && (v == n || v > 0x8000_0000 && n > 0x8000_0000),
            None => value is None,
        },
{
    let mut at: usize = from;
    let mut value: u64 = 0;
    proof {
        assert(text@.skip(from as int).take(0) =~= Seq::<char>::empty());
    }
    while at < len
        invariant
            from <= at <= len == text@.len(),
            value <= 0x8000_0001,
            match digits_value(text@.subrange(from as int, at as int)) {
                Some(n) => value == n || value > 0x8000_0000 && n > 0x8000_0000,
                None => false,
            },
        decreases len - at,
    {
        let c: char = text.get_char(at);
        proof {
            let next = text@.subrange(from as int, at + 1);
            assert(next.drop_last() =~= text@.subrange(from as int, at as int));
            assert(next.last() == c);
        }
        if c < '0' || c > '9' {
            proof {
                lemma_not_digits(text@.skip(from as int), at - from);
            }
            return None;
        }
        let d: u64 = (c as u32 - '0' as u32) as u64;
        value = value * 10 + d;
        if value > 0x8000_0001 {
            value = 0x8000_0001;
        }
        at += 1;
    }
    proof {
        assert(text@.subrange(from as int, len as int) =~= text@.skip(from as int));
    }
    Some(value)
}

/// One character that is no digit spoils the whole.
pub(crate) proof fn lemma_not_digits(text: Seq<char>, at: int)
    requires
        0 <= at < text.len(),
        !is_digit(text[at]),
    ensures
        digits_value(text) is None,
    decreases text.len(),
{
    if at < text.len() - 1 {
        lemma_not_digits(text.drop_last(), at);
    }
}

/// The 32-bit number that `text` writes, if it writes one.
pub fn parse_i32(text: &str) -> (value: Option<i32>)
    ensures
        match value {
            Some(v) => parsed_i32(text@) == Some(v as int),
            None => parsed_i32(text@) is None,
        },
{
    let len: usize = text.unicode_len();
    if len == 0 {
        return None;
    }
    let first: char = text.get_char(0);
    let from: usize = if first == '+' || first == '-' {
        1
    } else {
        0
    };
    proof {
        assert(text@.skip(0) =~= text@);
    }
    if from == len {
        return None;
    }
    match magnitude(text, from, len) {
        None => None,
        Some(n) => {
            if first == '-' {
                if n <= 0x8000_0000 {
                    Some((-(n as i64)) as i32)
                } else {
                    None
                }
            } else if n <= 0x7fff_ffff {
                Some(n as i32)
            } else {
                None
            }
        },
    }
}

/// Cut `text` at the last `mark`, or say that it has none.
pub fn rsplit_once<'a>(text: &'a str, mark: char) -> (parts: Option<(&'a str, &'a str)>)
    ensures
        match parts {
            Some((before, behind)) => split_at_last(text@, mark) == Some((before@, behind@)),
            None => split_at_last(text@, mark) is None,
        },
{
    let len: usize = text.unicode_len();
    let mut end: usize = len;
    proof {
        text@.index_of_last_ensures(mark);
    }
    while end > 0
        invariant
            end <= len == text@.len(),
            forall|i: int| end <= i < len ==> text@[i] != mark,
        decreases end,
    {
        if text.get_char(end - 1) == mark {
            proof {
                text@.index_of_last_ensures(mark);
                assert(text@.contains(mark));
            }
            return Some((text.substring_char(0, end - 1), text.substring_char(end, len)));
        }
        end -= 1;
    }
    None
}

/// Cut `text` at the first `mark`, or say that it has none.
pub fn split_once<'a>(text: &'a str, mark: char) -> (parts: Option<(&'a str, &'a str)>)
    ensures
        match parts {
            Some((before, behind)) => split_at_first(text@, mark) == Some((before@, behind@)),
            None => split_at_first(text@, mark) is None,
        },
{
    let len: usize = text.unicode_len();
    let mut at: usize = 0;
    proof {
        text@.index_of_first_ensures(mark);
    }
    while at < len
        invariant
            at <= len == text@.len(),
            forall|i: int| 0 <= i < at ==> text@[i] != mark,
        decreases len - at,
    {
        if text.get_char(at) == mark {
            proof {
                text@.index_of_first_ensures(mark);
                assert(text@.contains(mark));
            }
            return Some((text.substring_char(0, at), text.substring_char(at + 1, len)));
        }
        at += 1;
    }
    None
}

/// What stands behind `prefix` in `text`, or `None` where `text` begins
/// otherwise.
pub fn strip_prefix<'a>(text: &'a str, prefix: &str) -> (rest: Option<&'a str>)
    ensures
        match rest {
            Some(behind) => prefix@.is_prefix_of(text@) && behind@ == text@.skip(
                prefix@.len() as int,
            ),
            None => !prefix@.is_prefix_of(text@),
        },
{
    let len: usize = text.unicode_len();
    let wanted: usize = prefix.unicode_len();
    if len < wanted {
        return None;
    }
    let mut at: usize = 0;
    while at < wanted
        invariant
            at <= wanted == prefix@.len(),
            wanted <= len == text@.len(),
            forall|i: int| 0 <= i < at ==> text@[i] == prefix@[i],
        decreases wanted - at,
    {
        if text.get_char(at) != prefix.get_char(at) {
            assert(text@.subrange(0, wanted as int)[at as int] == text@[at as int]);
            return None;
        }
        at += 1;
    }
    assert(prefix@ =~= text@.subrange(0, wanted as int));
    Some(text.substring_char(wanted, len))
}

} // verus!
