//! Replication: the message that carries a local write to the peers, and the
//! plan of one delivery per peer. A delivery is attempted once and never sent on.

use vstd::prelude::*;
use vstd::string::*;
use crate::protocol::{Request, handled, key_value, parse};
use crate::protocol::{lemma_broadcast_not_replicated, lemma_key_value_clean, lemma_key_value_line};
use crate::protocol::{lemma_not_bare, lemma_repeat_changes_nothing};
use crate::store::{CacheEntry, Entries, lookup, upsert};
use crate::store::lemma_lookup_upsert;
use crate::text::{tail_from, trimmed};

verus! {

/// The message that replicates the write of `value` under `key`.
pub open spec fn broadcast_text(key: Seq<char>, value: Seq<char>) -> Seq<char> {
    "BROADCAST "@ + key + seq!['='] + value + seq!['\n']
}

/// One message to send to one peer.
#[derive(Debug, Clone, PartialEq, Eq)]
pub struct Delivery {
    pub peer: String,
    pub message: String,
}

impl View for Delivery {
    type V = (Seq<char>, Seq<char>);

    open spec fn view(&self) -> (Seq<char>, Seq<char>) {
        (self.peer@, self.message@)
    }
}

impl DeepView for Delivery {
    type V = (Seq<char>, Seq<char>);

    open spec fn deep_view(&self) -> (Seq<char>, Seq<char>) {
        self@
    }
}

/// The deliveries that replicate one write: the same message to each peer, once,
/// in the order of the peers.
pub open spec fn deliveries(peers: Seq<Seq<char>>, key: Seq<char>, value: Seq<char>) -> Seq<
    (Seq<char>, Seq<char>),
> {
    Seq::new(peers.len(), |i: int| (peers[i], broadcast_text(key, value)))
}

/// Writes the message that replicates the write of `value` under `key`.
pub fn broadcast_message(key: &str, value: &str) -> (r: String)
    ensures
        r@ == broadcast_text(key@, value@),
{
    let mut r = "BROADCAST ".to_owned();
    r.append(key);
    r.append("=");
    r.append(value);
    r.append("\n");
    proof {
        reveal_strlit("=");
        reveal_strlit("\n");
        assert("="@ =~= seq!['=']);
        assert("\n"@ =~= seq!['\n']);
    }
    r
}

/// Plans the replication of `entry` to `peers`, a copy of the registry taken for
/// this write: one delivery per peer, each independent of the others.
pub fn fan_out(peers: &Vec<String>, entry: &CacheEntry) -> (plan: Vec<Delivery>)
    ensures
        plan.deep_view() == deliveries(peers.deep_view(), entry.key@, entry.value@),
{
    let mut plan: Vec<Delivery> = Vec::new();
    let mut i: usize = 0;
    while i < peers.len()
        invariant
            0 <= i <= peers.len(),
            plan.len() == i,
            forall|k: int|
                0 <= k < i ==> plan[k]@ == (peers[k]@, broadcast_text(entry.key@, entry.value@)),
        decreases peers.len() - i,
    {
        let message = broadcast_message(entry.key.as_str(), entry.value.as_str());
        plan.push(Delivery { peer: peers[i].clone(), message });
        i += 1;
    }
    assert(plan.deep_view() =~= deliveries(peers.deep_view(), entry.key@, entry.value@));
    plan
}

/// A replication message whose key and value hold no `=` is read as the write of
/// the trimmed key and the trimmed value.
pub proof fn lemma_parse_broadcast_text(key: Seq<char>, value: Seq<char>)
    requires
        !key.contains('='),
        !value.contains('='),
    ensures
        parse(broadcast_text(key, value)) == (Request::Broadcast {
            key: trimmed(key),
            value: trimmed(value),
        }),
{
    reveal_strlit("BROADCAST ");
    reveal_strlit("BROADCAST");
    reveal_strlit("SET");
    reveal_strlit("GET");
    let message = broadcast_text(key, value);
    assert(message.subrange(0, 9) =~= "BROADCAST"@);
    assert(message.subrange(0, 3)[0] == 'B');
    assert(message[9] == ' ');
    lemma_not_bare(message);
    assert(tail_from(message, 10) =~= key + seq!['='] + value + seq!['\n']);
    lemma_key_value_line(key, value);
}

/// A peer that receives a replication message sends nothing on, whatever the
/// message carries: the fan-out of a write ends with its first recipients.
pub proof fn lemma_fan_out_ends(entries: Entries, key: Seq<char>, value: Seq<char>)
    ensures
        handled(entries, broadcast_text(key, value)).replicate.is_none(),
{
    reveal_strlit("BROADCAST ");
    reveal_strlit("BROADCAST");
    let message = broadcast_text(key, value);
    assert(message.subrange(0, 9) =~= "BROADCAST"@);
    lemma_broadcast_not_replicated(entries, message);
}

/// A write that one node accepted arrives whole at a peer: the message made from
/// the pair that the `SET` handed to the replicator leaves the peer with that
/// value under that key, and the peer replicates nothing.
pub proof fn lemma_replicated_write_arrives(
    local: Entries,
    remote: Entries,
    request: Seq<char>,
)
    ensures
        handled(local, request).replicate matches Some((key, value)) ==> {
            let arrived = handled(remote, broadcast_text(key, value));
            &&& arrived.entries == upsert(remote, key, value)
            &&& lookup(arrived.entries, key) == Some(value)
            &&& lookup(arrived.entries, key) == lookup(handled(local, request).entries, key)
            &&& arrived.response == "OK: BROADCAST applied"@
            &&& arrived.replicate.is_none()
        },
{
    match parse(request) {
        Request::SetKey { key, value } => {
            lemma_key_value_clean(tail_from(request, 4));
            assert(key_value(tail_from(request, 4)) == Some((key, value)));
            lemma_parse_broadcast_text(key, value);
            lemma_lookup_upsert(remote, key, value, key);
            lemma_lookup_upsert(local, key, value, key);
        },
        _ => {},
    }
}

/// Applying a replication message twice leaves the cache as applying it once.
pub proof fn lemma_broadcast_idempotent(entries: Entries, key: Seq<char>, value: Seq<char>)
    ensures
        handled(
            handled(entries, broadcast_text(key, value)).entries,
            broadcast_text(key, value),
        ).entries == handled(entries, broadcast_text(key, value)).entries,
{
    lemma_repeat_changes_nothing(entries, broadcast_text(key, value));
}

} // verus!
