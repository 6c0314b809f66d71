//! The peer registry: the addresses of the nodes this node believes to exist,
//! each held once, in the order in which they were first announced.

use vstd::prelude::*;

verus! {

/// The mathematical form of a registry: addresses in order of discovery.
pub type Addresses = Seq<Seq<char>>;

/// The addresses after `address` was announced: unchanged when it is known already.
pub open spec fn with_address(peers: Addresses, address: Seq<char>) -> Addresses {
    if peers.contains(address) {
        peers
    } else {
        peers.push(address)
    }
}

/// The addresses without `address`, the others in their order.
pub open spec fn without_address(peers: Addresses, address: Seq<char>) -> Addresses
    decreases peers.len(),
{
    if peers.len() == 0 {
        peers
    } else if peers.last() == address {
        without_address(peers.drop_last(), address)
    } else {
        without_address(peers.drop_last(), address).push(peers.last())
    }
}

/// Announcing an address adds it to the set of peers, whether or not it was known,
/// and keeps each address held once.
pub proof fn lemma_with_address(peers: Addresses, address: Seq<char>)
    ensures
        with_address(peers, address).to_set() == peers.to_set().insert(address),
        peers.no_duplicates() ==> with_address(peers, address).no_duplicates(),
        with_address(with_address(peers, address), address) == with_address(peers, address),
{
    let after = with_address(peers, address);
    if !peers.contains(address) {
        assert(after.last() == address);
        assert forall|a: Seq<char>| #[trigger]
            after.to_set().contains(a) == peers.to_set().insert(address).contains(a) by {
            if a == address {
                assert(after[peers.len() as int] == a);
            } else if peers.contains(a) {
                let i = choose|i: int| 0 <= i < peers.len() && peers[i] == a;
                assert(after[i] == a);
            } else if after.contains(a) {
                let i = choose|i: int| 0 <= i < after.len() && after[i] == a;
                assert(peers[i] == a);
            }
        }
        assert(after.contains(address));
    }
    assert(after.to_set() =~= peers.to_set().insert(address));
}

/// Removal takes exactly `address` out of the set of peers, leaves the order of the
/// rest, and keeps each address held once.
pub proof fn lemma_without_address(peers: Addresses, address: Seq<char>)
    ensures
        without_address(peers, address).to_set() == peers.to_set().remove(address),
        !without_address(peers, address).contains(address),
        without_address(peers, address).len() <= peers.len(),
        peers.no_duplicates() ==> without_address(peers, address).no_duplicates(),
        !peers.contains(address) ==> without_address(peers, address) == peers,
    decreases peers.len(),
{
    let after = without_address(peers, address);
    if peers.len() == 0 {
        assert(after.to_set() =~= peers.to_set().remove(address));
    } else {
        let rest = peers.drop_last();
        let last = peers.last();
        let short = without_address(rest, address);
        lemma_without_address(rest, address);
        assert(rest.push(last) =~= peers);
        assert forall|a: Seq<char>| #[trigger] peers.to_set().contains(a) == (rest.to_set().contains(a)
            || a == last) by {
            if rest.contains(a) {
                let i = choose|i: int| 0 <= i < rest.len() && rest[i] == a;
                assert(peers[i] == a);
            }
            if a == last {
                assert(peers[peers.len() - 1] == a);
            }
            if peers.contains(a) {
                let i = choose|i: int| 0 <= i < peers.len() && peers[i] == a;
                if i < rest.len() {
                    assert(rest[i] == a);
                }
            }
        }
        if last == address {
            assert(after.to_set() =~= peers.to_set().remove(address));
            if !peers.contains(address) {
                assert(peers[peers.len() - 1] == address);
            }
        } else {
            assert forall|a: Seq<char>| #[trigger]
                after.to_set().contains(a) == (short.to_set().contains(a) || a == last) by {
                if short.contains(a) {
                    let i = choose|i: int| 0 <= i < short.len() && short[i] == a;
                    assert(after[i] == a);
                }
                if a == last {
                    assert(after[after.len() - 1] == a);
                }
                if after.contains(a) {
                    let i = choose|i: int| 0 <= i < after.len() && after[i] == a;
                    if i < short.len() {
                        assert(short[i] == a);
                    }
                }
            }
            assert(after.to_set() =~= peers.to_set().remove(address));
            if after.contains(address) {
                let i = choose|i: int| 0 <= i < after.len() && after[i] == address;
                assert(short[i] == address);
            }
            if peers.no_duplicates() {
                assert(rest.no_duplicates());
                assert(!rest.contains(last)) by {
                    if rest.contains(last) {
                        let i = choose|i: int| 0 <= i < rest.len() && rest[i] == last;
                        assert(peers[i] == peers[peers.len() - 1]);
                    }
                }
                assert(!short.to_set().contains(last));
                assert forall|i: int, j: int| 0 <= i < j < after.len() implies after[i]
                    != after[j] by {
                    if j == after.len() - 1 {
                        assert(short[i] == after[i]);
                        assert(short.contains(after[i]));
                    } else {
                        assert(short[i] != short[j]);
                    }
                }
            }
            if !peers.contains(address) {
                assert(!rest.contains(address)) by {
                    if rest.contains(address) {
                        let i = choose|i: int| 0 <= i < rest.len() && rest[i] == address;
                        assert(peers[i] == address);
                    }
                }
                assert(after =~= peers);
            }
        }
    }
}

/// The registry of peers known to one node.
#[derive(Debug)]
pub struct PeerRegistry {
    addresses: Vec<String>,
}

impl View for PeerRegistry {
    type V = Addresses;

    closed spec fn view(&self) -> Addresses {
        self.addresses.deep_view()
    }
}

impl PeerRegistry {
    /// The registry's invariant: no address is held twice.
    pub open spec fn wf(&self) -> bool {
        self@.no_duplicates()
    }

    /// The set of peers, the order of discovery left aside.
    pub open spec fn peers(&self) -> Set<Seq<char>> {
        self@.to_set()
    }

    /// An empty registry.
    pub fn new() -> (r: Self)
        ensures
            r@ == Seq::<Seq<char>>::empty(),
            r.wf(),
    {
        let r = PeerRegistry { addresses: Vec::new() };
        assert(r@ =~= Seq::<Seq<char>>::empty());
        r
    }

    /// The number of addresses held.
    pub fn len(&self) -> (n: usize)
        ensures
            n == self@.len(),
    {
        self.addresses.len()
    }

    /// Whether `address` is held.
    pub fn contains(&self, address: &str) -> (b: bool)
        ensures
            b == self@.contains(address@),
            b == self.peers().contains(address@),
    {
        let owned = address.to_owned();
        let mut i: usize = 0;
        while i < self.addresses.len()
            invariant
                0 <= i <= self.addresses.len(),
                owned@ == address@,
                forall|k: int| 0 <= k < i ==> self@[k] != address@,
            decreases self.addresses.len() - i,
        {
            if self.addresses[i].eq(&owned) {
                assert(self@[i as int] == address@);
                return true;
            }
            i += 1;
        }
        false
    }

    /// Takes `address` in; a known address changes nothing. Tells whether it was new.
    pub fn insert(&mut self, address: String) -> (fresh: bool)
        ensures
            final(self)@ == with_address(old(self)@, address@),
            final(self).peers() == old(self).peers().insert(address@),
            fresh == !old(self)@.contains(address@),
            old(self).wf() ==> final(self).wf(),
    {
        proof {
            lemma_with_address(self@, address@);
        }
        if self.contains(address.as_str()) {
            false
        } else {
            self.addresses.push(address);
            assert(self@ =~= old(self)@.push(address@));
            true
        }
    }

    /// Drops `address`; an unknown address changes nothing. Tells whether it was held.
    pub fn remove(&mut self, address: &str) -> (held: bool)
        ensures
            final(self)@ == without_address(old(self)@, address@),
            final(self).peers() == old(self).peers().remove(address@),
            held == old(self)@.contains(address@),
            old(self).wf() ==> final(self).wf(),
    {
        proof {
            lemma_without_address(self@, address@);
        }
        let owned = address.to_owned();
        let mut kept: Vec<String> = Vec::new();
        let mut held = false;
        let mut i: usize = 0;
        while i < self.addresses.len()
            invariant
                0 <= i <= self.addresses.len(),
                owned@ == address@,
                kept.deep_view() == without_address(self@.take(i as int), address@),
                held == self@.take(i as int).contains(address@),
            decreases self.addresses.len() - i,
        {
            let ghost before = self@.take(i as int);
            let ghost next = self@.take(i + 1);
            assert(next.drop_last() =~= before);
            assert(next.last() == self@[i as int]);
            if self.addresses[i].eq(&owned) {
                held = true;
                assert(next[i as int] == address@);
            } else {
                let ghost shorter = kept.deep_view();
                kept.push(self.addresses[i].clone());
                assert(kept.deep_view() =~= shorter.push(self@[i as int]));
                assert(next.contains(address@) == before.contains(address@)) by {
                    if next.contains(address@) {
                        let k = choose|k: int| 0 <= k < next.len() && next[k] == address@;
                        assert(before[k] == address@);
                    }
                    if before.contains(address@) {
                        let k = choose|k: int| 0 <= k < before.len() && before[k] == address@;
                        assert(next[k] == address@);
                    }
                }
            }
            i += 1;
        }
        assert(self@.take(i as int) =~= self@);
        self.addresses = kept;
        held
    }

    /// A point-in-time copy of the addresses, free to be walked while the registry changes.
    pub fn snapshot(&self) -> (copy: Vec<String>)
        ensures
            copy.deep_view() == self@,
    {
        let mut copy: Vec<String> = Vec::new();
        let mut i: usize = 0;
        while i < self.addresses.len()
            invariant
                0 <= i <= self.addresses.len(),
                copy.len() == i,
                forall|k: int| 0 <= k < i ==> copy[k]@ == self@[k],
            decreases self.addresses.len() - i,
        {
            copy.push(self.addresses[i].clone());
            i += 1;
        }
        assert(copy.deep_view() =~= self@);
        copy
    }
}

} // verus!
