//! Peer discovery: the announcement a node broadcasts, what a node learns from a
//! datagram, and the sweep that drops the peers a liveness probe could not reach.

use vstd::prelude::*;
use vstd::string::*;
use crate::peers::{Addresses, PeerRegistry, with_address, without_address};
use crate::peers::{lemma_with_address, lemma_without_address};
use crate::text::{chars_of, decimal, decimal_string, is_space, skip_chars, starts_with, trim};
use crate::text::{decode_lossy, lossy_text};
use crate::text::{tail_from, trimmed, lemma_decimal_solid, lemma_trimmed_fixed};

verus! {

/// The address under which a node is reached: host, a colon, the port in decimal.
pub open spec fn address_text(host: Seq<char>, port: nat) -> Seq<char> {
    host + seq![':'] + decimal(port)
}

/// The datagram that announces `address`.
pub open spec fn announcement_text(address: Seq<char>) -> Seq<char> {
    "ANNOUNCE "@ + address
}

/// The address that a datagram announces: what follows the verb and its space,
/// trimmed. A datagram that does not begin so, or that carries no address after
/// it, announces nothing.
pub open spec fn announced(datagram: Seq<char>) -> Option<Seq<char>> {
    if "ANNOUNCE "@.is_prefix_of(datagram) && trimmed(tail_from(datagram, 9)).len() > 0 {
        Some(trimmed(tail_from(datagram, 9)))
    } else {
        None
    }
}

/// The registry after a datagram: an announced address is taken in, anything else ignored.
pub open spec fn peers_after(peers: Addresses, datagram: Seq<char>) -> Addresses {
    match announced(datagram) {
        Some(address) => with_address(peers, address),
        None => peers,
    }
}

/// The outcome of one liveness probe, as a pair of the address and whether it answered.
pub type ProbeView = (Seq<char>, bool);

/// The registry after a sweep: each probe that found its peer unreachable removes it.
pub open spec fn after_sweep(peers: Addresses, probes: Seq<ProbeView>) -> Addresses
    decreases probes.len(),
{
    if probes.len() == 0 {
        peers
    } else if probes.last().1 {
        after_sweep(peers, probes.drop_last())
    } else {
        without_address(after_sweep(peers, probes.drop_last()), probes.last().0)
    }
}

/// The addresses that a sweep removes, in the order of their probes.
pub open spec fn swept(peers: Addresses, probes: Seq<ProbeView>) -> Seq<Seq<char>>
    decreases probes.len(),
{
    if probes.len() == 0 {
        Seq::empty()
    } else if !probes.last().1 && after_sweep(peers, probes.drop_last()).contains(probes.last().0) {
        swept(peers, probes.drop_last()).push(probes.last().0)
    } else {
        swept(peers, probes.drop_last())
    }
}

/// The addresses that some probe found unreachable.
pub open spec fn unreachable(probes: Seq<ProbeView>) -> Set<Seq<char>> {
    Set::new(|a: Seq<char>| exists|i: int| 0 <= i < probes.len() && probes[i] == (a, false))
}

/// The outcome of one liveness probe.
#[derive(Debug, Clone, PartialEq, Eq)]
pub struct Probe {
    pub peer: String,
    pub reachable: bool,
}

impl View for Probe {
    type V = ProbeView;

    open spec fn view(&self) -> ProbeView {
        (self.peer@, self.reachable)
    }
}

impl DeepView for Probe {
    type V = ProbeView;

    open spec fn deep_view(&self) -> ProbeView {
        self@
    }
}

/// Writes the address of the node at `host` that serves commands on `port`.
pub fn peer_address(host: &str, port: u16) -> (r: String)
    ensures
        r@ == address_text(host@, port as nat),
{
    let mut r = host.to_owned();
    r.append(":");
    let digits = decimal_string(port as u64);
    r.append(digits.as_str());
    proof {
        reveal_strlit(":");
        assert(":"@ =~= seq![':']);
    }
    r
}

/// Writes the datagram by which the node at `host`, serving commands on `port`,
/// announces itself.
pub fn announcement(host: &str, port: u16) -> (r: String)
    ensures
        r@ == announcement_text(address_text(host@, port as nat)),
{
    let mut r = "ANNOUNCE ".to_owned();
    let address = peer_address(host, port);
    r.append(address.as_str());
    r
}

/// Reads a datagram: the announced address, or `None` for any other payload.
pub fn parse_announcement(datagram: &str) -> (r: Option<String>)
    ensures
        match r {
            Some(address) => announced(datagram@) == Some(address@),
            None => announced(datagram@).is_none(),
        },
{
    let chars = chars_of(datagram);
    if !starts_with(&chars, "ANNOUNCE ") {
        return None;
    }
    let address = trim(skip_chars(datagram, 9));
    if address.unicode_len() == 0 {
        None
    } else {
        Some(address.to_owned())
    }
}

/// Takes one datagram in. An announcement enters its address into the registry and
/// calls for a sweep: the result then lists the peers to probe. Any other payload
/// is ignored.
pub fn on_datagram(registry: &mut PeerRegistry, datagram: &str) -> (to_probe: Option<Vec<String>>)
    ensures
        final(registry)@ == peers_after(old(registry)@, datagram@),
        match to_probe {
            Some(targets) => {
                &&& announced(datagram@).is_some()
                &&& targets.deep_view() == final(registry)@
            },
            None => announced(datagram@).is_none(),
        },
        old(registry).wf() ==> final(registry).wf(),
{
    match parse_announcement(datagram) {
        Some(address) => {
            registry.insert(address);
            Some(registry.snapshot())
        },
        None => None,
    }
}

/// Takes in the bytes of one received datagram, read as text.
pub fn on_datagram_bytes(registry: &mut PeerRegistry, received: &[u8]) -> (to_probe: Option<
    Vec<String>,
>)
    ensures
        final(registry)@ == peers_after(old(registry)@, lossy_text(received@)),
        match to_probe {
            Some(targets) => {
                &&& announced(lossy_text(received@)).is_some()
                &&& targets.deep_view() == final(registry)@
            },
            None => announced(lossy_text(received@)).is_none(),
        },
        old(registry).wf() ==> final(registry).wf(),
{
    let datagram = decode_lossy(received);
    on_datagram(registry, datagram.as_str())
}

/// Ends a sweep: drops every peer that its probe found unreachable, and returns
/// the addresses dropped, to be reported.
pub fn expire_unreachable(registry: &mut PeerRegistry, probes: &Vec<Probe>) -> (removed: Vec<
    String,
>)
    ensures
        final(registry)@ == after_sweep(old(registry)@, probes.deep_view()),
        removed.deep_view() == swept(old(registry)@, probes.deep_view()),
        old(registry).wf() ==> final(registry).wf(),
{
    let mut removed: Vec<String> = Vec::new();
    let mut i: usize = 0;
    assert(probes.deep_view().take(0) =~= Seq::<ProbeView>::empty());
    assert(removed.deep_view() =~= Seq::<Seq<char>>::empty());
    while i < probes.len()
        invariant
            0 <= i <= probes.len(),
            registry@ == after_sweep(old(registry)@, probes.deep_view().take(i as int)),
            removed.deep_view() == swept(old(registry)@, probes.deep_view().take(i as int)),
            old(registry).wf() ==> registry.wf(),
        decreases probes.len() - i,
    {
        let ghost before = probes.deep_view().take(i as int);
        let ghost next = probes.deep_view().take(i + 1);
        assert(next.drop_last() =~= before);
        assert(next.last() == probes[i as int]@);
        if !probes[i].reachable {
            let held = registry.remove(probes[i].peer.as_str());
            if held {
                let ghost shorter = removed.deep_view();
                removed.push(probes[i].peer.clone());
                assert(removed.deep_view() =~= shorter.push(probes[i as int].peer@));
            }
        }
        i += 1;
    }
    assert(probes.deep_view().take(i as int) =~= probes.deep_view());
    removed
}

/// An announcement is read back as the address it was written for, trimmed; one
/// written for an address of white space alone announces nothing.
pub proof fn lemma_announcement_read_back(address: Seq<char>)
    ensures
        announced(announcement_text(address)) == if trimmed(address).len() > 0 {
            Some(trimmed(address))
        } else {
            None
        },
{
    reveal_strlit("ANNOUNCE ");
    let datagram = announcement_text(address);
    assert(datagram.subrange(0, 9) =~= "ANNOUNCE "@);
    assert(tail_from(datagram, 9) =~= address);
}

/// A datagram that carries no address is ignored: the bare verb, or the verb
/// with nothing but white space after it, leaves the registry as it was.
pub proof fn lemma_empty_announcement_ignored(peers: Addresses, datagram: Seq<char>)
    requires
        datagram.len() <= 9 || trimmed(tail_from(datagram, 9)).len() == 0,
    ensures
        announced(datagram).is_none(),
        peers_after(peers, datagram) == peers,
{
    reveal_strlit("ANNOUNCE ");
    if datagram.len() <= 9 && "ANNOUNCE "@.is_prefix_of(datagram) {
        assert(tail_from(datagram, 9) =~= Seq::<char>::empty());
    }
}

/// A node that receives the announcement of a peer holds that peer's address
/// afterwards, whatever it held before.
pub proof fn lemma_announced_peer_is_held(peers: Addresses, host: Seq<char>, port: nat)
    requires
        host.len() > 0 ==> !is_space(host.first()),
    ensures
        announced(announcement_text(address_text(host, port))) == Some(address_text(host, port)),
        peers_after(peers, announcement_text(address_text(host, port))).contains(
            address_text(host, port),
        ),
        peers_after(peers, announcement_text(address_text(host, port))).to_set() == peers.to_set().insert(
            address_text(host, port),
        ),
{
    let address = address_text(host, port);
    lemma_announcement_read_back(address);
    lemma_decimal_solid(port);
    assert(address.last() == decimal(port).last());
    if host.len() > 0 {
        assert(address.first() == host.first());
    } else {
        assert(address.first() == ':');
    }
    lemma_trimmed_fixed(address);
    lemma_with_address(peers, address);
    let after = with_address(peers, address);
    assert(after.to_set().contains(address));
}

/// Two nodes that each receive the other's announcement each hold the other's address.
pub proof fn lemma_mutual_discovery(
    first_peers: Addresses,
    first_host: Seq<char>,
    first_port: nat,
    second_peers: Addresses,
    second_host: Seq<char>,
    second_port: nat,
)
    requires
        first_host.len() > 0 ==> !is_space(first_host.first()),
        second_host.len() > 0 ==> !is_space(second_host.first()),
    ensures
        peers_after(
            first_peers,
            announcement_text(address_text(second_host, second_port)),
        ).contains(address_text(second_host, second_port)),
        peers_after(
            second_peers,
            announcement_text(address_text(first_host, first_port)),
        ).contains(address_text(first_host, first_port)),
{
    lemma_announced_peer_is_held(first_peers, second_host, second_port);
    lemma_announced_peer_is_held(second_peers, first_host, first_port);
}

/// A sweep removes exactly the peers that a probe found unreachable: the others
/// stay, in their order, and no address comes to be held twice.
pub proof fn lemma_sweep(peers: Addresses, probes: Seq<ProbeView>)
    ensures
        after_sweep(peers, probes).to_set() == peers.to_set().difference(unreachable(probes)),
        peers.no_duplicates() ==> after_sweep(peers, probes).no_duplicates(),
        forall|a: Seq<char>| unreachable(probes).contains(a) ==> !after_sweep(peers, probes).contains(a),
    decreases probes.len(),
{
    let after = after_sweep(peers, probes);
    if probes.len() == 0 {
        assert(unreachable(probes) =~= Set::<Seq<char>>::empty());
        assert(after.to_set() =~= peers.to_set().difference(unreachable(probes)));
    } else {
        let earlier = probes.drop_last();
        let last = probes.last();
        let mid = after_sweep(peers, earlier);
        lemma_sweep(peers, earlier);
        lemma_without_address(mid, last.0);
        assert forall|a: Seq<char>| #[trigger]
            unreachable(probes).contains(a) == (unreachable(earlier).contains(a) || (a == last.0
                && !last.1)) by {
            if unreachable(earlier).contains(a) {
                let i = choose|i: int| 0 <= i < earlier.len() && earlier[i] == (a, false);
                assert(probes[i] == (a, false));
            }
            if a == last.0 && !last.1 {
                assert(probes[probes.len() - 1] == (a, false));
            }
            if unreachable(probes).contains(a) {
                let i = choose|i: int| 0 <= i < probes.len() && probes[i] == (a, false);
                if i < earlier.len() {
                    assert(earlier[i] == (a, false));
                }
            }
        }
        assert(after.to_set() =~= peers.to_set().difference(unreachable(probes)));
        assert forall|a: Seq<char>| unreachable(probes).contains(a) implies !after.contains(a) by {
            if after.contains(a) {
                assert(after.to_set().contains(a));
            }
        }
    }
}

/// A peer whose probe fails is gone from the registry after the sweep.
pub proof fn lemma_unreachable_peer_is_dropped(
    peers: Addresses,
    probes: Seq<ProbeView>,
    address: Seq<char>,
    i: int,
)
    requires
        0 <= i < probes.len(),
        probes[i] == (address, false),
    ensures
        !after_sweep(peers, probes).contains(address),
{
    lemma_sweep(peers, probes);
    assert(unreachable(probes).contains(address));
}

} // verus!
