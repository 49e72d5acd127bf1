//! Locations: what a target means.

use vstd::prelude::*;

use crate::text::split_at_first;
use crate::transport::{resolved, Location};

verus! {

/// A target that names a broker and a topic means those.
pub proof fn law_a_target_names_broker_and_topic(
    location: Location,
    peer: Seq<char>,
    topic: Seq<char>,
)
    requires
        !peer.contains('/'),
        topic.len() > 0,
    ensures
        resolved(location, "kafka://"@ + peer + "/"@ + topic) == (peer, topic),
{
    lemma_named(peer, "/"@ + topic);
    lemma_cut(peer, topic);
    assert("kafka://"@ + peer + "/"@ + topic =~= "kafka://"@ + (peer + ("/"@ + topic)));
}

/// A target that names a broker alone, with or without a slash behind it,
/// means this Location's own topic there.
pub proof fn law_a_target_names_a_broker_alone(location: Location, peer: Seq<char>)
    requires
        !peer.contains('/'),
    ensures
        resolved(location, "kafka://"@ + peer) == (peer, location.topic),
        resolved(location, "kafka://"@ + peer + "/"@) == (peer, location.topic),
{
    lemma_named(peer, Seq::empty());
    peer.index_of_first_ensures('/');
    assert(peer + Seq::<char>::empty() =~= peer);
    lemma_cut(peer, Seq::empty());
    lemma_named(peer, "/"@);
    assert("/"@ + Seq::<char>::empty() =~= "/"@);
    assert("kafka://"@ + peer + "/"@ =~= "kafka://"@ + (peer + "/"@));
}

/// Any other target is a topic on this Location's own cluster.
pub proof fn law_a_target_is_a_topic(location: Location, target: Seq<char>)
    requires
        !"kafka://"@.is_prefix_of(target),
    ensures
        resolved(location, target) == (location.bootstrap, target),
{
}

/// A peer and a topic are told apart at the first slash.
proof fn lemma_cut(peer: Seq<char>, topic: Seq<char>)
    requires
        !peer.contains('/'),
    ensures
        split_at_first(peer + ("/"@ + topic), '/') == Some((peer, topic)),
{
    reveal_strlit("/");
    let rest = peer + ("/"@ + topic);
    rest.index_of_first_ensures('/');
    let at = peer.len() as int;
    assert(rest[at] == '/');
    assert(rest.contains('/'));
    assert forall|i: int| 0 <= i < at implies rest[i] != '/' by {
        assert(rest[i] == peer[i]);
    }
    assert(rest.take(at) =~= peer);
    assert(rest.skip(at + 1) =~= topic);
}

/// What stands behind the scheme of a target.
proof fn lemma_named(peer: Seq<char>, rest: Seq<char>)
    ensures
        "kafka://"@.is_prefix_of("kafka://"@ + (peer + rest)),
        ("kafka://"@ + (peer + rest)).skip("kafka://"@.len() as int) == peer + rest,
{
    let target = "kafka://"@ + (peer + rest);
    assert("kafka://"@ =~= target.subrange(0, "kafka://"@.len() as int));
    assert(target.skip("kafka://"@.len() as int) =~= peer + rest);
}

} // verus!
