//! Fields one behind another: how they are grouped does not matter, and each
//! is found behind those before it.

use vstd::prelude::*;

verus! {

pub(crate) proof fn lemma_group_5(a: Seq<u8>, b: Seq<u8>, c: Seq<u8>, d: Seq<u8>, e: Seq<u8>)
    ensures
        a + b + c + d + e == a + (b + (c + (d + e))),
{
    assert(a + b + c + d + e =~= a + (b + (c + (d + e))));
}

pub(crate) proof fn lemma_group_7(
    a: Seq<u8>,
    b: Seq<u8>,
    c: Seq<u8>,
    d: Seq<u8>,
    e: Seq<u8>,
    f: Seq<u8>,
    g: Seq<u8>,
)
    ensures
        a + b + c + d + e + f + g == a + (b + (c + (d + (e + (f + g))))),
{
    assert(a + b + c + d + e + f + g =~= a + (b + (c + (d + (e + (f + g))))));
}

/// Three fields and the five behind them.
pub(crate) proof fn lemma_group_3_5(
    x: Seq<u8>,
    y: Seq<u8>,
    z: Seq<u8>,
    a: Seq<u8>,
    b: Seq<u8>,
    c: Seq<u8>,
    d: Seq<u8>,
    e: Seq<u8>,
)
    ensures
        x + y + z + a + b + c + d + e == x + (y + (z + (a + b + c + d + e))),
{
    assert(x + y + z + a + b + c + d + e =~= x + (y + (z + (a + b + c + d + e))));
}

/// A head, a field, a count and the three fields behind it.
pub(crate) proof fn lemma_group_1_1_3(
    head: Seq<u8>,
    y: Seq<u8>,
    z: Seq<u8>,
    a: Seq<u8>,
    b: Seq<u8>,
    c: Seq<u8>,
)
    ensures
        head + y + z + a + b + c == head + (y + (z + (a + b + c))),
{
    assert(head + y + z + a + b + c =~= head + (y + (z + (a + b + c))));
}

/// The second and the third of several fields are found behind the first.
pub(crate) proof fn lemma_found_behind(a: Seq<u8>, b: Seq<u8>, c: Seq<u8>, rest: Seq<u8>)
    ensures
        (a + b + c + rest).take(a.len() as int) == a,
        (a + b + c + rest).subrange(a.len() as int, (a.len() + b.len()) as int) == b,
        (a + b + c + rest).subrange(
            (a.len() + b.len()) as int,
            (a.len() + b.len() + c.len()) as int,
        ) == c,
        (a + b + c + rest).skip((a.len() + b.len() + c.len()) as int) == rest,
{
    let all = a + b + c + rest;
    assert(all.take(a.len() as int) =~= a);
    assert(all.subrange(a.len() as int, (a.len() + b.len()) as int) =~= b);
    assert(all.subrange(
        (a.len() + b.len()) as int,
        (a.len() + b.len() + c.len()) as int,
    ) =~= c);
    assert(all.skip((a.len() + b.len() + c.len()) as int) =~= rest);
}

/// Two fields are one.
pub(crate) proof fn lemma_group_tail(a: Seq<u8>, b: Seq<u8>, c: Seq<u8>)
    ensures
        a + b + c == a + (b + c),
{
    assert(a + b + c =~= a + (b + c));
}

} // verus!
