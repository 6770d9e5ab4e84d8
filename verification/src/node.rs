//! The table of known peers, and the rules by which a node keeps it.
use vstd::prelude::*;
use crate::peer::{spec_handshake_message, spec_pong_message, Peer, PeerDirection};
use crate::protocols::{
    spec_decode_base, spec_decode_handshake, spec_decode_peer_info, spec_encode_base,
    spec_encode_peer_info, Base, BaseView, Handshake, ProtoImpl, PeerInfo, PeerInfoView, KIND_HANDSHAKE,
    KIND_PEER_INFO, KIND_PING, KIND_PONG, KIND_TEST, lemma_kinds_distinct, lemma_base_roundtrip,
    lemma_handshake_roundtrip, lemma_peer_info_roundtrip, spec_encode_handshake,
};
use crate::peer::spec_ping_message;
use crate::varint::lemma_varint_bytes_len_u64;
use crate::wire::{key_bytes, lemma_utf8_len_bound, WIRE_LEN, WIRE_VARINT};
use crate::varint::varint_bytes;
use vstd::utf8::encode_utf8;
use crate::utils::{parse_u64, spec_parse_u64, text_eq};
use vstd::pervasive::VecAdditionalExecFns;

verus! {

broadcast use {vstd::seq_lib::group_seq_properties, vstd::string::group_string_axioms};

/// The peers a node knows, by ip. `T` is the sending end of a connection.
pub struct PeerTable<T> {
    names: Vec<String>,
    peers: Vec<Peer<T>>,
    model: Ghost<Map<Seq<char>, Peer<T>>>,
}

impl<T> View for PeerTable<T> {
    type V = Map<Seq<char>, Peer<T>>;

    closed spec fn view(&self) -> Map<Seq<char>, Peer<T>> {
        self.model@
    }
}

impl<T> PeerTable<T> {
    /// The ip of the entry stored at `i`, in the order the table stores
    /// them.
    pub closed spec fn key_at(&self, i: int) -> Seq<char> {
        self.names@[i]@
    }

    /// The ips, in the order the table stores them.
    spec fn keys(&self) -> Seq<Seq<char>> {
        self.names@.map_values(|s: String| s@)
    }

    /// The table's invariant: one entry per ip, and the entries are what the
    /// view holds.
    pub closed spec fn wf(&self) -> bool {
        &&& self.names@.len() == self.peers@.len()
        &&& forall|i: int, j: int|
            #![trigger self.names@[i], self.names@[j]]
            0 <= i < j < self.names@.len() ==> self.names@[i]@ != self.names@[j]@
        &&& forall|i: int|
            #![trigger self.names@[i]]
            0 <= i < self.names@.len() ==> self.model@.contains_key(self.names@[i]@)
                && self.model@[self.names@[i]@] == self.peers@[i]
        &&& forall|k: Seq<char>|
            #[trigger] self.model@.contains_key(k) ==> exists|i: int|
                0 <= i < self.names@.len() && self.names@[i]@ == k
    }

    /// An empty table.
    pub fn new() -> (r: PeerTable<T>)
        ensures
            r.wf(),
            r@ == Map::<Seq<char>, Peer<T>>::empty(),
            r@.dom().finite(),
    {
        PeerTable { names: Vec::new(), peers: Vec::new(), model: Ghost(Map::empty()) }
    }

    /// The ips in order form exactly the set of known ips, once each.
    proof fn lemma_keys(&self)
        requires
            self.wf(),
        ensures
            self.keys().no_duplicates(),
            self.keys().to_set() == self@.dom(),
            self.keys().len() == self@.dom().len(),
    {
        let keys = self.keys();
        assert forall|i: int, j: int| 0 <= i < keys.len() && 0 <= j < keys.len() && i != j implies keys[i]
            != keys[j] by {
            if i < j {
                assert(self.names@[i]@ != self.names@[j]@);
            } else {
                assert(self.names@[j]@ != self.names@[i]@);
            }
        }
        assert forall|k: Seq<char>| self@.dom().contains(k) implies keys.to_set().contains(k) by {
            let i = choose|i: int| 0 <= i < self.names@.len() && self.names@[i]@ == k;
            assert(keys[i] == k);
        }
        assert forall|k: Seq<char>| keys.to_set().contains(k) implies self@.dom().contains(k) by {
            let i = choose|i: int| 0 <= i < keys.len() && keys[i] == k;
            assert(self.names@[i]@ == k);
        }
        assert(keys.to_set() =~= self@.dom());
        keys.unique_seq_to_set();
    }

    /// How many peers the table knows.
    pub fn len(&self) -> (r: usize)
        requires
            self.wf(),
        ensures
            r == self@.dom().len(),
    {
        proof {
            self.lemma_keys();
        }
        self.names.len()
    }

    /// The `i`-th entry of the table, in the order it stores them: an ip and
    /// its peer.
    pub fn entry(&self, i: usize) -> (r: (&String, &Peer<T>))
        requires
            self.wf(),
            i < self@.dom().len(),
        ensures
            r.0@ == self.key_at(i as int),
            self@.contains_key(r.0@),
            *r.1 == self@[r.0@],
    {
        proof {
            self.lemma_keys();
        }
        (&self.names[i], &self.peers[i])
    }

    /// The entries `0 .. len` hold each known ip exactly once, and the table
    /// knows finitely many peers.
    pub proof fn lemma_key_at(&self)
        requires
            self.wf(),
        ensures
            self@.dom().finite(),
            forall|i: int, j: int|
                #![trigger self.key_at(i), self.key_at(j)]
                0 <= i < self@.dom().len() && 0 <= j < self@.dom().len() && i != j ==> self.key_at(i)
                    != self.key_at(j),
            forall|i: int|
                0 <= i < self@.dom().len() ==> #[trigger] self@.contains_key(self.key_at(i)),
            forall|k: Seq<char>|
                #[trigger] self@.contains_key(k) ==> exists|i: int|
                    0 <= i < self@.dom().len() && self.key_at(i) == k,
    {
        self.lemma_keys();
        assert forall|i: int, j: int|
            #![trigger self.key_at(i), self.key_at(j)]
            0 <= i < self@.dom().len() && 0 <= j < self@.dom().len() && i != j implies self.key_at(i)
            != self.key_at(j) by {
            if i < j {
                assert(self.names@[i]@ != self.names@[j]@);
            } else {
                assert(self.names@[j]@ != self.names@[i]@);
            }
        }
        assert forall|i: int| 0 <= i < self@.dom().len() implies #[trigger] self@.contains_key(
            self.key_at(i),
        ) by {
            assert(self.model@.contains_key(self.names@[i]@));
        }
        assert forall|k: Seq<char>| #[trigger] self@.contains_key(k) implies exists|i: int|
            0 <= i < self@.dom().len() && self.key_at(i) == k by {
            let i = choose|i: int| 0 <= i < self.names@.len() && self.names@[i]@ == k;
            assert(self.key_at(i) == k);
        }
    }

    /// Where the table stores the peer `ip`, if it knows one.
    fn find(&self, ip: &str) -> (r: Option<usize>)
        requires
            self.wf(),
        ensures
            r is None <==> !self@.contains_key(ip@),
            r matches Some(i) ==> i < self.names@.len() && self.key_at(i as int) == ip@,
    {
        let mut i: usize = 0;
        while i < self.names.len()
            invariant
                self.wf(),
                i <= self.names@.len(),
                forall|j: int| 0 <= j < i ==> self.names@[j]@ != ip@,
            decreases self.names@.len() - i,
        {
            if text_eq(self.names[i].as_str(), ip) {
                return Some(i);
            }
            i = i + 1;
        }
        proof {
            if self@.contains_key(ip@) {
                let j = choose|j: int| 0 <= j < self.names@.len() && self.names@[j]@ == ip@;
                assert(self.names@[j]@ != ip@);
            }
        }
        None
    }

    /// The peer `ip`, if the table knows one.
    pub fn get(&self, ip: &str) -> (r: Option<&Peer<T>>)
        requires
            self.wf(),
        ensures
            r is Some <==> self@.contains_key(ip@),
            r matches Some(p) ==> *p == self@[ip@],
    {
        match self.find(ip) {
            Some(i) => {
                assert(self.names@[i as int]@ == ip@);
                Some(&self.peers[i])
            },
            None => None,
        }
    }

    /// Adds a peer under an ip the table does not know yet.
    fn add(&mut self, ip: String, peer: Peer<T>)
        requires
            old(self).wf(),
            !old(self)@.contains_key(ip@),
        ensures
            final(self).wf(),
            final(self)@ == old(self)@.insert(ip@, peer),
    {
        let ghost k = ip@;
        let ghost p = peer;
        let ghost old_names = self.names@;
        self.names.push(ip);
        self.peers.push(peer);
        self.model = Ghost(self.model@.insert(k, p));
        proof {
            let n = old_names.len() as int;
            assert(self.names@[n]@ == k);
            assert forall|i: int, j: int|
                0 <= i < j < self.names@.len() implies self.names@[i]@ != self.names@[j]@ by {
                if j == n {
                    assert(self.names@[i] == old_names[i]);
                    assert(old(self).model@.contains_key(old_names[i]@));
                } else {
                    assert(self.names@[i] == old_names[i] && self.names@[j] == old_names[j]);
                    assert(old_names[i]@ != old_names[j]@);
                }
            }
            assert forall|i: int| 0 <= i < self.names@.len() implies self.model@.contains_key(
                self.names@[i]@,
            ) && self.model@[self.names@[i]@] == self.peers@[i] by {
                if i < n {
                    assert(self.names@[i] == old_names[i]);
                    assert(old(self).model@.contains_key(old_names[i]@));
                    assert(old(self).model@[old_names[i]@] == old(self).peers@[i]);
                }
            }
            assert forall|key: Seq<char>| #[trigger] self.model@.contains_key(key) implies exists|i: int|
                0 <= i < self.names@.len() && self.names@[i]@ == key by {
                if key != k {
                    let i = choose|i: int| 0 <= i < old_names.len() && old_names[i]@ == key;
                    assert(self.names@[i] == old_names[i]);
                }
            }
        }
    }

    /// Replaces the peer stored at `i`, and gives back the one it held.
    fn replace_at(&mut self, i: usize, peer: Peer<T>) -> (r: Peer<T>)
        requires
            old(self).wf(),
            i < old(self).names@.len(),
        ensures
            final(self).wf(),
            final(self).names@ == old(self).names@,
            r == old(self)@[old(self).key_at(i as int)],
            final(self)@ == old(self)@.insert(old(self).key_at(i as int), peer),
    {
        let ghost k = self.names@[i as int]@;
        let ghost p = peer;
        let mut held = peer;
        assert(self.model@[k] == self.peers@[i as int]);
        self.peers.set_and_swap(i, &mut held);
        self.model = Ghost(self.model@.insert(k, p));
        proof {
            assert forall|j: int| 0 <= j < self.names@.len() implies self.model@.contains_key(
                self.names@[j]@,
            ) && self.model@[self.names@[j]@] == self.peers@[j] by {
                if j != i {
                    assert(self.names@[j]@ != k) by {
                        if j < i {
                            assert(self.names@[j]@ != self.names@[i as int]@);
                        } else {
                            assert(self.names@[i as int]@ != self.names@[j]@);
                        }
                    }
                }
            }
        }
        held
    }

    /// Forgets the peer `ip`.
    fn forget(&mut self, ip: &str)
        requires
            old(self).wf(),
        ensures
            final(self).wf(),
            final(self)@ == old(self)@.remove(ip@),
    {
        match self.find(ip) {
            None => {
                assert(self.model@.remove(ip@) =~= self.model@);
            },
            Some(i) => {
                let ghost old_names = self.names@;
                let ghost old_peers = self.peers@;
                let ghost n = old_names.len() as int;
                let ghost k = ip@;
                self.names.swap_remove(i);
                self.peers.swap_remove(i);
                self.model = Ghost(self.model@.remove(k));
                proof {
                    // entry `j` now holds what was at `j`, or the last one when `j == i`
                    assert forall|j: int| 0 <= j < self.names@.len() implies {
                        let s = if j == i {
                            n - 1
                        } else {
                            j
                        };
                        &&& #[trigger] self.names@[j] == old_names[s]
                        &&& self.peers@[j] == old_peers[s]
                        &&& s != i
                        &&& old_names[s]@ != k
                        &&& self.model@.contains_key(self.names@[j]@)
                        &&& self.model@[self.names@[j]@] == self.peers@[j]
                    } by {
                        let s = if j == i {
                            n - 1
                        } else {
                            j
                        };
                        if s < i {
                            assert(old_names[s]@ != old_names[i as int]@);
                        } else {
                            assert(old_names[i as int]@ != old_names[s]@);
                        }
                        assert(old(self).model@.contains_key(old_names[s]@));
                    }
                    assert forall|a: int, b: int|
                        0 <= a < b < self.names@.len() implies self.names@[a]@
                        != self.names@[b]@ by {
                        let sa = if a == i {
                            n - 1
                        } else {
                            a
                        };
                        let sb = if b == i {
                            n - 1
                        } else {
                            b
                        };
                        assert(self.names@[a] == old_names[sa] && self.names@[b] == old_names[sb]);
                        if sa < sb {
                            assert(old_names[sa]@ != old_names[sb]@);
                        } else {
                            assert(old_names[sb]@ != old_names[sa]@);
                        }
                    }
                    assert forall|key: Seq<char>| #[trigger] self.model@.contains_key(key) implies exists|
                        j: int,
                    | 0 <= j < self.names@.len() && self.names@[j]@ == key by {
                        let s = choose|s: int| 0 <= s < old_names.len() && old_names[s]@ == key;
                        assert(s != i);
                        if s == n - 1 {
                            assert(self.names@[i as int] == old_names[s]);
                        } else {
                            assert(self.names@[s] == old_names[s]);
                        }
                    }
                }
            },
        }
    }
}

// ----- changes to one peer -----
/// `p`, heard from at `now`.
pub open spec fn spec_touch<T>(p: Peer<T>, now: u64) -> Peer<T> {
    Peer { port: p.port, ts: now, direction: p.direction, tx: p.tx }
}

/// `p`, listening on `port`.
pub open spec fn spec_with_port<T>(p: Peer<T>, port: u16) -> Peer<T> {
    Peer { port, ts: p.ts, direction: p.direction, tx: p.tx }
}

/// `p`, connected through `tx` in `direction`.
pub open spec fn spec_connected<T>(p: Peer<T>, tx: T, direction: PeerDirection) -> Peer<T> {
    Peer { port: p.port, ts: p.ts, direction, tx: Some(tx) }
}

/// A peer that was just heard of and is not connected.
pub open spec fn spec_new_peer<T>(port: u16, now: u64) -> Peer<T> {
    Peer { port, ts: now, direction: PeerDirection::UNKNOWN, tx: None }
}

impl<T> PeerTable<T> {
    /// The peer stored at `i`.
    fn peer_at(&self, i: usize) -> (r: &Peer<T>)
        requires
            self.wf(),
            i < self.names@.len(),
        ensures
            *r == self@[self.key_at(i as int)],
    {
        &self.peers[i]
    }

    /// Records that the peer stored at `i` was heard from at `now`.
    fn touch_at(&mut self, i: usize, now: u64)
        requires
            old(self).wf(),
            i < old(self).names@.len(),
        ensures
            final(self).wf(),
            final(self).names@ == old(self).names@,
            final(self)@ == old(self)@.insert(
                old(self).key_at(i as int),
                spec_touch(old(self)@[old(self).key_at(i as int)], now),
            ),
    {
        let placeholder = Peer { port: 0, ts: 0, direction: PeerDirection::UNKNOWN, tx: None };
        let mut p = self.replace_at(i, placeholder);
        p.ts = now;
        self.replace_at(i, p);
    }

    /// Records that the peer stored at `i` listens on `port`.
    fn set_port_at(&mut self, i: usize, port: u16)
        requires
            old(self).wf(),
            i < old(self).names@.len(),
        ensures
            final(self).wf(),
            final(self).names@ == old(self).names@,
            final(self)@ == old(self)@.insert(
                old(self).key_at(i as int),
                spec_with_port(old(self)@[old(self).key_at(i as int)], port),
            ),
    {
        let placeholder = Peer { port: 0, ts: 0, direction: PeerDirection::UNKNOWN, tx: None };
        let mut p = self.replace_at(i, placeholder);
        p.port = port;
        self.replace_at(i, p);
    }

    /// Records that the peer stored at `i` is connected through `tx`.
    fn connect_at(&mut self, i: usize, tx: T, direction: PeerDirection)
        requires
            old(self).wf(),
            i < old(self).names@.len(),
        ensures
            final(self).wf(),
            final(self).names@ == old(self).names@,
            final(self)@ == old(self)@.insert(
                old(self).key_at(i as int),
                spec_connected(old(self)@[old(self).key_at(i as int)], tx, direction),
            ),
    {
        let placeholder = Peer { port: 0, ts: 0, direction: PeerDirection::UNKNOWN, tx: None };
        let mut p = self.replace_at(i, placeholder);
        p.tx = Some(tx);
        p.direction = direction;
        self.replace_at(i, p);
    }

    /// The ips of the connected peers other than `ip`, once each.
    fn connected_except(&self, ip: &str) -> (r: Vec<String>)
        requires
            self.wf(),
        ensures
            spec_broadcast_targets(r@, self@, ip@),
    {
        let mut targets: Vec<String> = Vec::new();
        let mut i: usize = 0;
        while i < self.names.len()
            invariant
                self.wf(),
                i <= self.names@.len(),
                forall|j: int|
                    0 <= j < targets@.len() ==> exists|x: int|
                        0 <= x < i && #[trigger] targets@[j]@ == self.names@[x]@,
                forall|a: int, b: int|
                    0 <= a < b < targets@.len() ==> targets@[a]@ != targets@[b]@,
                forall|j: int|
                    0 <= j < targets@.len() ==> self@.contains_key(#[trigger] targets@[j]@)
                        && self@[targets@[j]@].tx is Some && targets@[j]@ != ip@,
                forall|x: int|
                    #![trigger self.names@[x]]
                    0 <= x < i && self.peers@[x].tx is Some && self.names@[x]@ != ip@ ==> exists|
                        j: int,
                    | 0 <= j < targets@.len() && targets@[j]@ == self.names@[x]@,
            decreases self.names@.len() - i,
        {
            let ghost before = targets@;
            proof {
                assert forall|j: int| 0 <= j < targets@.len() implies exists|x: int|
                    0 <= x < i + 1 && #[trigger] targets@[j]@ == self.names@[x]@ by {
                    let x = choose|x: int| 0 <= x < i && targets@[j]@ == self.names@[x]@;
                }
            }
            if self.peers[i].tx.is_some() && !text_eq(self.names[i].as_str(), ip) {
                let name = self.names[i].clone();
                targets.push(name);
                proof {
                    let n = before.len() as int;
                    assert(targets@[n]@ == self.names@[i as int]@);
                    assert forall|a: int, b: int|
                        0 <= a < b < targets@.len() implies targets@[a]@ != targets@[b]@ by {
                        if b == n {
                            assert(targets@[a] == before[a]);
                            let x = choose|x: int| 0 <= x < i && before[a]@ == self.names@[x]@;
                            assert(self.names@[x]@ != self.names@[i as int]@);
                        } else {
                            assert(targets@[a] == before[a] && targets@[b] == before[b]);
                        }
                    }
                    assert forall|j: int| 0 <= j < targets@.len() implies exists|x: int|
                        0 <= x < i + 1 && #[trigger] targets@[j]@ == self.names@[x]@ by {
                        if j < n {
                            assert(targets@[j] == before[j]);
                            let x = choose|x: int| 0 <= x < i && before[j]@ == self.names@[x]@;
                            assert(targets@[j]@ == self.names@[x]@);
                        } else {
                            assert(targets@[j]@ == self.names@[i as int]@);
                        }
                    }
                    assert forall|j: int| 0 <= j < targets@.len() implies self@.contains_key(
                        #[trigger] targets@[j]@,
                    ) && self@[targets@[j]@].tx is Some && targets@[j]@ != ip@ by {
                        if j < n {
                            assert(targets@[j] == before[j]);
                        }
                    }
                    assert forall|x: int|
                        #![trigger self.names@[x]]
                        0 <= x < i + 1 && self.peers@[x].tx is Some && self.names@[x]@
                            != ip@ implies exists|j: int|
                        0 <= j < targets@.len() && targets@[j]@ == self.names@[x]@ by {
                        if x < i {
                            let j = choose|j: int|
                                0 <= j < before.len() && before[j]@ == self.names@[x]@;
                            assert(targets@[j] == before[j]);
                        } else {
                            assert(targets@[n]@ == self.names@[x]@);
                        }
                    }
                }
            }
            i = i + 1;
        }
        proof {
            assert forall|k: Seq<char>|
                self@.contains_key(k) && self@[k].tx is Some && k != ip@ implies exists|j: int|
                0 <= j < targets@.len() && targets@[j]@ == k by {
                let x = choose|x: int| 0 <= x < self.names@.len() && self.names@[x]@ == k;
                assert(self.peers@[x].tx is Some);
            }
        }
        targets
    }
}

// ----- messages -----
/// A message the node can act on: it decodes, and so does the inner
/// message of a handshake or a peer announcement.
pub open spec fn spec_message_well_formed(b: Seq<u8>) -> bool {
    match spec_decode_base(b) {
        Some(base) => (base.kind == KIND_HANDSHAKE@ ==> spec_decode_handshake(base.data) is Some)
            && (base.kind == KIND_PEER_INFO@ ==> spec_decode_peer_info(base.data) is Some),
        None => false,
    }
}

/// The announcement, sent to the other peers, that `ip` listens on `port`.
pub open spec fn spec_peer_info_message(port: u32, ip: Seq<char>) -> Seq<u8> {
    spec_encode_base(
        BaseView {
            kind: KIND_PEER_INFO@,
            data: spec_encode_peer_info(PeerInfoView { port, ip }),
        },
    )
}

/// `targets` are the ips of the connected peers of `m` other than `ip`, each
/// once.
pub open spec fn spec_broadcast_targets<T>(
    targets: Seq<String>,
    m: Map<Seq<char>, Peer<T>>,
    ip: Seq<char>,
) -> bool {
    &&& forall|a: int, b: int| 0 <= a < b < targets.len() ==> targets[a]@ != targets[b]@
    &&& forall|j: int|
        0 <= j < targets.len() ==> m.contains_key(#[trigger] targets[j]@) && m[targets[j]@].tx is Some
            && targets[j]@ != ip
    &&& forall|k: Seq<char>|
        m.contains_key(k) && m[k].tx is Some && k != ip ==> exists|j: int|
            0 <= j < targets.len() && targets[j]@ == k
}

/// The table after a message of `base` from `ip` at `now`: a handshake
/// records the sender's port, a peer announcement adds a peer not yet
/// known, a ping or a pong records that the sender was heard from.
pub open spec fn spec_after_message<T>(
    m: Map<Seq<char>, Peer<T>>,
    base: BaseView,
    ip: Seq<char>,
    now: u64,
) -> Map<Seq<char>, Peer<T>> {
    if base.kind == KIND_HANDSHAKE@ {
        let hs = spec_decode_handshake(base.data).unwrap();
        if m.contains_key(ip) {
            m.insert(ip, spec_with_port(m[ip], hs.port as u16))
        } else {
            m
        }
    } else if base.kind == KIND_PEER_INFO@ {
        let info = spec_decode_peer_info(base.data).unwrap();
        if m.contains_key(info.ip) {
            m
        } else {
            m.insert(info.ip, spec_new_peer(info.port as u16, now))
        }
    } else if base.kind == KIND_PING@ || base.kind == KIND_PONG@ {
        if m.contains_key(ip) {
            m.insert(ip, spec_touch(m[ip], now))
        } else {
            m
        }
    } else {
        m
    }
}

/// What the node does after handling a message.
pub enum MessageAction {
    /// Wait a moment before reading on (a test message).
    Pause,
    /// Send `message` to each peer in `targets`.
    Broadcast { message: Vec<u8>, targets: Vec<String> },
    /// Send this message back to the sender.
    Reply(Vec<u8>),
    /// Nothing more to do.
    Nothing,
    /// The message is of a kind the node does not know.
    Unknown,
}

/// `r` is what the node does, and `m2` its table, after the message
/// `buffer` from `ip` at `now` when its table was `m`.
pub open spec fn spec_message_handled<T>(
    m: Map<Seq<char>, Peer<T>>,
    m2: Map<Seq<char>, Peer<T>>,
    buffer: Seq<u8>,
    ip: Seq<char>,
    now: u64,
    r: MessageAction,
) -> bool {
    let base = spec_decode_base(buffer).unwrap();
    &&& m2 == spec_after_message(m, base, ip, now)
    &&& base.kind == KIND_TEST@ ==> r is Pause
    &&& base.kind == KIND_HANDSHAKE@ ==> (r matches MessageAction::Broadcast { message, targets }
        && message@ == spec_peer_info_message(spec_decode_handshake(base.data).unwrap().port, ip)
        && spec_broadcast_targets(targets@, m2, ip))
    &&& base.kind == KIND_PING@ ==> if m.contains_key(ip) && m[ip].tx is Some {
        (r matches MessageAction::Reply(msg) && msg@ == spec_pong_message())
    } else {
        r is Nothing
    }
    &&& (base.kind == KIND_PEER_INFO@ || base.kind == KIND_PONG@) ==> r is Nothing
    &&& (base.kind != KIND_TEST@ && base.kind != KIND_HANDSHAKE@ && base.kind != KIND_PEER_INFO@
        && base.kind != KIND_PING@ && base.kind != KIND_PONG@) ==> r is Unknown
}

/// A node: its own address and the peers it knows. `T` is the sending end
/// of a connection.
pub struct Node<T> {
    pub ip: String,
    pub port: u16,
    pub peers: PeerTable<T>,
}

/// The pause, in seconds, between outbound connection attempts unless set.
pub const DEFAULT_OUTBOUND_SECS: u64 = 5;

/// The pause, in seconds, between two reports of the peer table unless set.
pub const DEFAULT_LOGGING_SECS: u64 = 5;

/// The pause, in seconds, between two pings unless set.
pub const DEFAULT_PINGING_SECS: u64 = 300;

/// The pauses, in seconds, of a node's periodic tasks.
#[derive(Debug, Clone, Copy, PartialEq, Eq)]
pub struct Intervals {
    pub outbound: u64,
    pub logging: u64,
    pub pinging: u64,
}

/// An optional setting: its value, or the default when it is absent.
pub open spec fn spec_setting(opt: Option<Seq<char>>, default: u64) -> u64 {
    match opt {
        Some(s) => spec_parse_u64(s).unwrap(),
        None => default,
    }
}

/// A setting that is present reads as a number.
pub open spec fn spec_setting_ok(opt: Option<Seq<char>>) -> bool {
    opt matches Some(s) ==> spec_parse_u64(s) is Some
}

/// The view of an optional text.
pub open spec fn opt_view(opt: Option<&str>) -> Option<Seq<char>> {
    match opt {
        Some(s) => Some(s@),
        None => None,
    }
}

fn setting(opt: Option<&str>, default: u64) -> (r: u64)
    requires
        spec_setting_ok(opt_view(opt)),
    ensures
        r == spec_setting(opt_view(opt), default),
{
    match opt {
        Some(s) => match parse_u64(s) {
            Some(v) => v,
            None => default,
        },
        None => default,
    }
}

/// Whether `buffer` is a message the node can act on.
pub fn message_is_well_formed(buffer: &[u8]) -> (r: bool)
    ensures
        r == spec_message_well_formed(buffer@),
{
    match Base::from_bytes(buffer) {
        Ok(base) => {
            proof {
                lemma_kinds_distinct();
            }
            if text_eq(base.kind.as_str(), KIND_HANDSHAKE) {
                Handshake::from_bytes(base.data.as_slice()).is_ok()
            } else if text_eq(base.kind.as_str(), KIND_PEER_INFO) {
                PeerInfo::from_bytes(base.data.as_slice()).is_ok()
            } else {
                true
            }
        },
        Err(_) => false,
    }
}

impl<T> Node<T> {
    /// A node listening at `ip:port` that knows only the seed peer, if one is
    /// given, as heard of at `now`.
    pub fn init(ip: String, port: u16, seed: Option<(String, u16)>, now: u64) -> (r: Node<T>)
        ensures
            r.ip@ == ip@,
            r.port == port,
            r.peers.wf(),
            r.peers@ == match seed {
                Some((sip, sport)) => Map::<Seq<char>, Peer<T>>::empty().insert(
                    sip@,
                    spec_new_peer(sport, now),
                ),
                None => Map::<Seq<char>, Peer<T>>::empty(),
            },
    {
        let mut peers = PeerTable::new();
        match seed {
            Some((sip, sport)) => {
                peers.add(
                    sip,
                    Peer { port: sport, ts: now, direction: PeerDirection::UNKNOWN, tx: None },
                );
            },
            None => {},
        }
        Node { ip, port, peers }
    }

    /// Handles a message from the peer `ip`, received at `now`, if it is one
    /// the node can act on (as `handle_message` does); `None`, with the table
    /// unchanged, when it is not.
    pub fn handle_message_checked(peers: &mut PeerTable<T>, buffer: &[u8], ip: &str, now: u64) -> (r:
        Option<MessageAction>)
        requires
            old(peers).wf(),
        ensures
            final(peers).wf(),
            r is None <==> !spec_message_well_formed(buffer@),
            r is None ==> final(peers)@ == old(peers)@,
            r matches Some(a) ==> spec_message_handled(
                old(peers)@,
                final(peers)@,
                buffer@,
                ip@,
                now,
                a,
            ),
            old(peers)@.dom().subset_of(final(peers)@.dom()),
            final(peers)@.dom().len() <= old(peers)@.dom().len() + 1,
            forall|k: Seq<char>| #[trigger]
                old(peers)@.contains_key(k) ==> final(peers)@[k].tx == old(peers)@[k].tx
                    && final(peers)@[k].direction == old(peers)@[k].direction,
    {
        if message_is_well_formed(buffer) {
            Some(Self::handle_message(peers, buffer, ip, now))
        } else {
            None
        }
    }

    /// Handles a message from the peer `ip`, received at `now`: updates the
    /// table and says what to do next.
    pub fn handle_message(peers: &mut PeerTable<T>, buffer: &[u8], ip: &str, now: u64) -> (r:
        MessageAction)
        requires
            old(peers).wf(),
            spec_message_well_formed(buffer@),
        ensures
            final(peers).wf(),
            spec_message_handled(old(peers)@, final(peers)@, buffer@, ip@, now, r),
            old(peers)@.dom().subset_of(final(peers)@.dom()),
            final(peers)@.dom().len() <= old(peers)@.dom().len() + 1,
            forall|k: Seq<char>| #[trigger]
                old(peers)@.contains_key(k) ==> final(peers)@[k].tx == old(peers)@[k].tx
                    && final(peers)@[k].direction == old(peers)@[k].direction,
    {
        proof {
            old(peers).lemma_key_at();
            let b = spec_decode_base(buffer@).unwrap();
            lemma_messages_add_at_most_one_peer(old(peers)@, b, ip@, now);
            lemma_messages_keep_peers(old(peers)@, b, ip@, now);
        }
        let base = match Base::from_bytes(buffer) {
            Ok(b) => b,
            Err(_) => {
                proof {
                    assert(false);
                }
                return MessageAction::Nothing;
            },
        };
        proof {
            lemma_kinds_distinct();
        }
        let kind = base.kind.as_str();
        if text_eq(kind, KIND_TEST) {
            MessageAction::Pause
        } else if text_eq(kind, KIND_HANDSHAKE) {
            let hs = match Handshake::from_bytes(base.data.as_slice()) {
                Ok(h) => h,
                Err(_) => {
                    proof {
                        assert(false);
                    }
                    return MessageAction::Nothing;
                },
            };
            match peers.find(ip) {
                Some(i) => peers.set_port_at(i, hs.port as u16),
                None => {},
            }
            let info = PeerInfo { port: hs.port, ip: ip.to_owned() };
            let message = Base { kind: KIND_PEER_INFO.to_owned(), data: info.to_bytes() }.to_bytes();
            let targets = peers.connected_except(ip);
            MessageAction::Broadcast { message, targets }
        } else if text_eq(kind, KIND_PEER_INFO) {
            let info = match PeerInfo::from_bytes(base.data.as_slice()) {
                Ok(p) => p,
                Err(_) => {
                    proof {
                        assert(false);
                    }
                    return MessageAction::Nothing;
                },
            };
            if peers.find(info.ip.as_str()).is_none() {
                let port = info.port as u16;
                peers.add(
                    info.ip,
                    Peer { port, ts: now, direction: PeerDirection::UNKNOWN, tx: None },
                );
            }
            MessageAction::Nothing
        } else if text_eq(kind, KIND_PING) {
            match peers.find(ip) {
                Some(i) => {
                    peers.touch_at(i, now);
                    match peers.peer_at(i).send_pong() {
                        Some(msg) => MessageAction::Reply(msg),
                        None => MessageAction::Nothing,
                    }
                },
                None => MessageAction::Nothing,
            }
        } else if text_eq(kind, KIND_PONG) {
            match peers.find(ip) {
                Some(i) => peers.touch_at(i, now),
                None => {},
            }
            MessageAction::Nothing
        } else {
            MessageAction::Unknown
        }
    }
}

impl<T> Node<T> {
    /// Registers an inbound connection from `ip` through `tx`, at `now`: a
    /// known peer without a connection takes it, an unknown ip becomes a
    /// connected peer with port 0. Says whether the connection is kept;
    /// it is not when the peer already has one.
    pub fn register_inbound(peers: &mut PeerTable<T>, ip: String, tx: T, now: u64) -> (r: bool)
        requires
            old(peers).wf(),
        ensures
            final(peers).wf(),
            ({
                let m = old(peers)@;
                &&& r == (!m.contains_key(ip@) || m[ip@].tx is None)
                &&& final(peers)@ == if !m.contains_key(ip@) {
                    m.insert(
                        ip@,
                        Peer { port: 0, ts: now, direction: PeerDirection::INBOUND, tx: Some(tx) },
                    )
                } else if m[ip@].tx is None {
                    m.insert(ip@, spec_connected(m[ip@], tx, PeerDirection::INBOUND))
                } else {
                    m
                }
            }),
            forall|k: Seq<char>| #[trigger]
                old(peers)@.contains_key(k) ==> final(peers)@.contains_key(k)
                    && final(peers)@[k].port == old(peers)@[k].port
                    && final(peers)@[k].ts == old(peers)@[k].ts,
            final(peers)@.contains_key(ip@),
            r ==> final(peers)@[ip@].tx == Some(tx) && final(peers)@[ip@].direction
                == PeerDirection::INBOUND,
    {
        proof {
            lemma_connecting_keeps_port_and_time(old(peers)@[ip@], tx, PeerDirection::INBOUND);
        }
        match peers.find(ip.as_str()) {
            Some(i) => {
                if peers.peer_at(i).tx.is_none() {
                    peers.connect_at(i, tx, PeerDirection::INBOUND);
                    true
                } else {
                    false
                }
            },
            None => {
                peers.add(
                    ip,
                    Peer { tx: Some(tx), port: 0, direction: PeerDirection::INBOUND, ts: now },
                );
                true
            },
        }
    }

    /// Registers an outbound connection to `ip` through `tx`: only a known
    /// peer without a connection takes it. Gives the handshake to send it,
    /// announcing `node_port`, when the connection is kept.
    pub fn register_outbound(peers: &mut PeerTable<T>, ip: &str, tx: T, node_port: u16) -> (r:
        Option<Vec<u8>>)
        requires
            old(peers).wf(),
        ensures
            final(peers).wf(),
            ({
                let m = old(peers)@;
                let kept = m.contains_key(ip@) && m[ip@].tx is None;
                &&& r is Some <==> kept
                &&& r matches Some(msg) ==> msg@ == spec_handshake_message(node_port)
                &&& final(peers)@ == if kept {
                    m.insert(ip@, spec_connected(m[ip@], tx, PeerDirection::OUTBOUND))
                } else {
                    m
                }
            }),
            forall|k: Seq<char>| #[trigger]
                old(peers)@.contains_key(k) ==> final(peers)@.contains_key(k)
                    && final(peers)@[k].port == old(peers)@[k].port
                    && final(peers)@[k].ts == old(peers)@[k].ts,
            final(peers)@.dom() == old(peers)@.dom(),
            r is Some ==> final(peers)@[ip@].tx == Some(tx) && final(peers)@[ip@].direction
                == PeerDirection::OUTBOUND,
    {
        proof {
            lemma_connecting_keeps_port_and_time(old(peers)@[ip@], tx, PeerDirection::OUTBOUND);
        }
        match peers.find(ip) {
            Some(i) => {
                if peers.peer_at(i).tx.is_none() {
                    peers.connect_at(i, tx, PeerDirection::OUTBOUND);
                    peers.peer_at(i).send_handshake(node_port)
                } else {
                    None
                }
            },
            None => None,
        }
    }

    /// Forgets the peer `ip` once its connection is closed.
    pub fn disconnect(peers: &mut PeerTable<T>, ip: &str)
        requires
            old(peers).wf(),
        ensures
            final(peers).wf(),
            final(peers)@ == old(peers)@.remove(ip@),
    {
        peers.forget(ip);
    }

    /// The peer heard from least recently, which the node pings next;
    /// `None` when it knows no peer.
    pub fn ping_target(peers: &PeerTable<T>) -> (r: Option<&Peer<T>>)
        requires
            peers.wf(),
        ensures
            r is None <==> peers@.dom().is_empty(),
            r matches Some(p) ==> (exists|k: Seq<char>| peers@.contains_key(k) && peers@[k] == *p)
                && forall|k: Seq<char>| #[trigger] peers@.contains_key(k) ==> p.ts <= peers@[k].ts,
    {
        let n = peers.names.len();
        if n == 0 {
            proof {
                if !peers@.dom().is_empty() {
                    let k = peers@.dom().choose();
                    assert(peers@.contains_key(k));
                }
            }
            return None;
        }
        let mut best: usize = 0;
        let mut i: usize = 1;
        while i < n
            invariant
                peers.wf(),
                n == peers.names@.len(),
                1 <= i <= n,
                best < i,
                forall|j: int| 0 <= j < i ==> peers.peers@[best as int].ts <= #[trigger] peers.peers@[j].ts,
            decreases n - i,
        {
            if peers.peers[i].ts < peers.peers[best].ts {
                best = i;
            }
            i = i + 1;
        }
        proof {
            assert(peers@.contains_key(peers.names@[best as int]@));
            assert forall|k: Seq<char>| #[trigger] peers@.contains_key(k) implies peers.peers@[best as int].ts <= peers@[k].ts by {
                let j = choose|j: int| 0 <= j < peers.names@.len() && peers.names@[j]@ == k;
                assert(peers.peers@[j] == peers@[k]);
            }
        }
        Some(&peers.peers[best])
    }

    /// A known peer without a connection, which the node connects to next,
    /// with its ip and port; `None` when every known peer is connected.
    pub fn outbound_target(peers: &PeerTable<T>) -> (r: Option<(String, u16)>)
        requires
            peers.wf(),
        ensures
            r is None <==> forall|k: Seq<char>| #[trigger] peers@.contains_key(k) ==> peers@[k].tx is Some,
            r matches Some((ip, port)) ==> peers@.contains_key(ip@) && peers@[ip@].tx is None
                && port == peers@[ip@].port,
    {
        let mut i: usize = 0;
        while i < peers.names.len()
            invariant
                peers.wf(),
                i <= peers.names@.len(),
                forall|j: int| 0 <= j < i ==> (#[trigger] peers.peers@[j]).tx is Some,
            decreases peers.names@.len() - i,
        {
            if peers.peers[i].tx.is_none() {
                assert(peers@[peers.names@[i as int]@] == peers.peers@[i as int]);
                return Some((peers.names[i].clone(), peers.peers[i].port));
            }
            i = i + 1;
        }
        proof {
            assert forall|k: Seq<char>| #[trigger] peers@.contains_key(k) implies peers@[k].tx is Some by {
                let j = choose|j: int| 0 <= j < peers.names@.len() && peers.names@[j]@ == k;
                assert(peers.peers@[j] == peers@[k]);
            }
        }
        None
    }

    /// The pauses of the node's periodic tasks: each setting that is given,
    /// or else its default.
    pub fn run_intervals(opt_outbound: Option<&str>, opt_log: Option<&str>, opt_ping: Option<&str>) -> (r: Intervals)
        requires
            spec_setting_ok(opt_view(opt_outbound)),
            spec_setting_ok(opt_view(opt_log)),
            spec_setting_ok(opt_view(opt_ping)),
        ensures
            r.outbound == spec_setting(opt_view(opt_outbound), DEFAULT_OUTBOUND_SECS),
            r.logging == spec_setting(opt_view(opt_log), DEFAULT_LOGGING_SECS),
            r.pinging == spec_setting(opt_view(opt_ping), DEFAULT_PINGING_SECS),
            opt_outbound matches Some(s) ==> spec_parse_u64(s@) == Some(r.outbound),
            opt_log matches Some(s) ==> spec_parse_u64(s@) == Some(r.logging),
            opt_ping matches Some(s) ==> spec_parse_u64(s@) == Some(r.pinging),
            opt_outbound is None ==> r.outbound == DEFAULT_OUTBOUND_SECS,
            opt_log is None ==> r.logging == DEFAULT_LOGGING_SECS,
            opt_ping is None ==> r.pinging == DEFAULT_PINGING_SECS,
    {
        proof {
            lemma_setting_is_given_value(opt_view(opt_outbound), DEFAULT_OUTBOUND_SECS);
            lemma_setting_is_given_value(opt_view(opt_log), DEFAULT_LOGGING_SECS);
            lemma_setting_is_given_value(opt_view(opt_ping), DEFAULT_PINGING_SECS);
        }
        Intervals {
            outbound: setting(opt_outbound, DEFAULT_OUTBOUND_SECS),
            logging: setting(opt_log, DEFAULT_LOGGING_SECS),
            pinging: setting(opt_ping, DEFAULT_PINGING_SECS),
        }
    }
}

/// The ips of the connected peers of `m`.
pub open spec fn spec_connected_ips<T>(m: Map<Seq<char>, Peer<T>>) -> Set<Seq<char>> {
    m.dom().filter(|k: Seq<char>| m[k].tx is Some)
}

impl<T> PeerTable<T> {
    /// `k` is the ip of a connected peer among the first `i` entries.
    spec fn connected_among(&self, k: Seq<char>, i: int) -> bool {
        exists|x: int| 0 <= x < i && self.names@[x]@ == k && self.peers@[x].tx is Some
    }

    /// `act` lists, once each, the ips of the connected peers among the
    /// first `i` entries.
    #[verifier::opaque]
    spec fn counted(&self, act: Seq<Seq<char>>, i: int) -> bool {
        &&& act.no_duplicates()
        &&& forall|j: int| 0 <= j < act.len() ==> self.connected_among(#[trigger] act[j], i)
        &&& forall|x: int|
            0 <= x < i && self.peers@[x].tx is Some ==> act.contains(#[trigger] self.names@[x]@)
    }

    proof fn lemma_counted_step(&self, act: Seq<Seq<char>>, i: int)
        requires
            self.wf(),
            0 <= i < self.names@.len(),
            self.counted(act, i),
        ensures
            self.counted(
                if self.peers@[i].tx is Some {
                    act.push(self.names@[i]@)
                } else {
                    act
                },
                i + 1,
            ),
    {
        reveal(PeerTable::counted);
        let next = if self.peers@[i].tx is Some {
            act.push(self.names@[i]@)
        } else {
            act
        };
        let m = act.len() as int;
        assert forall|a: int, b: int|
            0 <= a < next.len() && 0 <= b < next.len() && a != b implies next[a] != next[b] by {
            if b == m || a == m {
                let c = if b == m {
                    a
                } else {
                    b
                };
                assert(next[c] == act[c]);
                assert(self.connected_among(act[c], i));
                let x = choose|x: int|
                    0 <= x < i && self.names@[x]@ == act[c] && self.peers@[x].tx is Some;
                assert(self.names@[x]@ != self.names@[i]@);
            } else {
                assert(next[a] == act[a] && next[b] == act[b]);
            }
        }
        assert forall|j: int| 0 <= j < next.len() implies self.connected_among(#[trigger] next[j], i + 1) by {
            if j < m {
                assert(next[j] == act[j]);
                assert(self.connected_among(act[j], i));
                let x = choose|x: int|
                    0 <= x < i && self.names@[x]@ == act[j] && self.peers@[x].tx is Some;
                assert(self.names@[x]@ == next[j]);
            } else {
                assert(next[j] == self.names@[i]@);
            }
        }
        assert forall|x: int|
            0 <= x < i + 1 && self.peers@[x].tx is Some implies next.contains(
            #[trigger] self.names@[x]@,
        ) by {
            if x < i {
                assert(act.contains(self.names@[x]@));
                let j = choose|j: int| 0 <= j < act.len() && act[j] == self.names@[x]@;
                assert(next[j] == act[j]);
            } else {
                assert(next[m] == self.names@[x]@);
            }
        }
    }

    /// Once every entry is counted, `act` lists the connected ips.
    proof fn lemma_counted_all(&self, act: Seq<Seq<char>>)
        requires
            self.wf(),
            self.counted(act, self.names@.len() as int),
        ensures
            act.len() == spec_connected_ips(self@).len(),
    {
        reveal(PeerTable::counted);
        let n = self.names@.len() as int;
        let conn = spec_connected_ips(self@);
        assert forall|k: Seq<char>| act.to_set().contains(k) implies conn.contains(k) by {
            let j = choose|j: int| 0 <= j < act.len() && act[j] == k;
            assert(self.connected_among(act[j], n));
            let x = choose|x: int|
                0 <= x < n && self.names@[x]@ == act[j] && self.peers@[x].tx is Some;
            assert(self@.contains_key(self.names@[x]@));
        }
        assert forall|k: Seq<char>| conn.contains(k) implies act.to_set().contains(k) by {
            let x = choose|x: int| 0 <= x < n && self.names@[x]@ == k;
            assert(self.peers@[x] == self@[k]);
            assert(act.contains(self.names@[x]@));
        }
        assert(act.to_set() =~= conn);
        act.unique_seq_to_set();
    }
}

impl<T> Node<T> {
    /// How many known peers are connected, and how many peers are known.
    pub fn peer_counts(peers: &PeerTable<T>) -> (r: (u32, u32))
        requires
            peers.wf(),
            peers@.dom().len() <= u32::MAX,
        ensures
            r.0 == spec_connected_ips(peers@).len(),
            r.1 == peers@.dom().len(),
    {
        proof {
            peers.lemma_keys();
            reveal(PeerTable::counted);
        }
        let n = peers.names.len();
        let mut total: u32 = 0;
        let mut active: u32 = 0;
        let ghost mut act: Seq<Seq<char>> = Seq::empty();
        let mut i: usize = 0;
        while i < n
            invariant
                peers.wf(),
                n == peers.names@.len(),
                n <= u32::MAX,
                i <= n,
                total == i,
                active as nat == act.len(),
                act.len() <= i,
                peers.counted(act, i as int),
            decreases n - i,
        {
            proof {
                peers.lemma_counted_step(act, i as int);
            }
            if peers.peers[i].tx.is_some() {
                active = active + 1;
                proof {
                    act = act.push(peers.names@[i as int]@);
                }
            }
            total = total + 1;
            i = i + 1;
        }
        proof {
            peers.lemma_counted_all(act);
        }
        (active, total)
    }
}

// ----- laws -----
/// Handling a message never forgets a peer, and never opens, closes or
/// turns around a connection.
pub proof fn lemma_messages_keep_peers<T>(
    m: Map<Seq<char>, Peer<T>>,
    base: BaseView,
    ip: Seq<char>,
    now: u64,
)
    ensures
        forall|k: Seq<char>| #[trigger]
            m.contains_key(k) ==> spec_after_message(m, base, ip, now).contains_key(k)
                && spec_after_message(m, base, ip, now)[k].tx == m[k].tx
                && spec_after_message(m, base, ip, now)[k].direction == m[k].direction,
{
}

/// Handling a message adds at most one peer to a table of finitely many
/// (only a peer announcement adds one), and forgets none.
pub proof fn lemma_messages_add_at_most_one_peer<T>(
    m: Map<Seq<char>, Peer<T>>,
    base: BaseView,
    ip: Seq<char>,
    now: u64,
)
    requires
        m.dom().finite(),
    ensures
        m.dom().subset_of(spec_after_message(m, base, ip, now).dom()),
        spec_after_message(m, base, ip, now).dom().finite(),
        spec_after_message(m, base, ip, now).dom().len() <= m.dom().len() + 1,
        base.kind != KIND_PEER_INFO@ ==> spec_after_message(m, base, ip, now).dom() == m.dom(),
{
    let after = spec_after_message(m, base, ip, now);
    if base.kind == KIND_HANDSHAKE@ {
        if m.contains_key(ip) {
            assert(after.dom() =~= m.dom());
        }
    } else if base.kind == KIND_PEER_INFO@ {
        let info = spec_decode_peer_info(base.data).unwrap();
        if !m.contains_key(info.ip) {
            assert(after.dom() =~= m.dom().insert(info.ip));
        }
    } else if base.kind == KIND_PING@ || base.kind == KIND_PONG@ {
        if m.contains_key(ip) {
            assert(after.dom() =~= m.dom());
        }
    }
}

/// A peer announcement adds the announced peer, not connected and heard of
/// at `now`, when its ip is unknown, and leaves the table as it is when the
/// ip is already known: it never overwrites a known peer.
pub proof fn lemma_peer_info_adds_only_unknown<T>(
    m: Map<Seq<char>, Peer<T>>,
    base: BaseView,
    info: PeerInfoView,
    ip: Seq<char>,
    now: u64,
)
    requires
        base.kind == KIND_PEER_INFO@,
        spec_decode_peer_info(base.data) == Some(info),
    ensures
        m.contains_key(info.ip) ==> spec_after_message(m, base, ip, now) == m,
        !m.contains_key(info.ip) ==> spec_after_message(m, base, ip, now) == m.insert(
            info.ip,
            Peer { port: info.port as u16, ts: now, direction: PeerDirection::UNKNOWN, tx: None },
        ),
{
    lemma_kinds_distinct();
}

/// A handshake from a known peer records the port it announces (cut to 16
/// bits) and changes nothing else; from an unknown ip it changes nothing.
pub proof fn lemma_handshake_records_port<T>(
    m: Map<Seq<char>, Peer<T>>,
    base: BaseView,
    hs: Handshake,
    ip: Seq<char>,
    now: u64,
)
    requires
        base.kind == KIND_HANDSHAKE@,
        spec_decode_handshake(base.data) == Some(hs),
    ensures
        m.contains_key(ip) ==> spec_after_message(m, base, ip, now) == m.insert(
            ip,
            Peer { port: hs.port as u16, ts: m[ip].ts, direction: m[ip].direction, tx: m[ip].tx },
        ),
        !m.contains_key(ip) ==> spec_after_message(m, base, ip, now) == m,
{
}

/// Only a handshake changes a known peer's port, and only the sender's;
/// only a ping or a pong changes a known peer's time, and only the
/// sender's, to `now`.
pub proof fn lemma_messages_change_only_the_sender<T>(
    m: Map<Seq<char>, Peer<T>>,
    base: BaseView,
    ip: Seq<char>,
    now: u64,
)
    ensures
        forall|k: Seq<char>| #[trigger]
            m.contains_key(k) ==> {
                let after = spec_after_message(m, base, ip, now)[k];
                &&& (k != ip || base.kind != KIND_HANDSHAKE@) ==> after.port == m[k].port
                &&& (k != ip || (base.kind != KIND_PING@ && base.kind != KIND_PONG@)) ==> after.ts
                    == m[k].ts
                &&& (k == ip && (base.kind == KIND_PING@ || base.kind == KIND_PONG@)) ==> after.ts
                    == now
            },
{
    lemma_kinds_distinct();
}

/// Connecting a peer changes only its connection: its port and the time it
/// was last heard from stay.
pub proof fn lemma_connecting_keeps_port_and_time<T>(p: Peer<T>, tx: T, direction: PeerDirection)
    ensures
        spec_connected(p, tx, direction).port == p.port,
        spec_connected(p, tx, direction).ts == p.ts,
        spec_connected(p, tx, direction).tx == Some(tx),
        spec_connected(p, tx, direction).direction == direction,
{
}

/// A setting that is given is the number it reads as, whatever the default;
/// one that is absent is the default.
pub proof fn lemma_setting_is_given_value(opt: Option<Seq<char>>, default: u64)
    ensures
        opt matches Some(s) ==> (spec_parse_u64(s) matches Some(v) ==> spec_setting(opt, default)
            == v),
        opt is None ==> spec_setting(opt, default) == default,
{
}

/// Each kind the node sends takes at most 36 bytes in UTF-8.
proof fn lemma_kind_lengths()
    ensures
        encode_utf8(KIND_HANDSHAKE@).len() <= 36,
        encode_utf8(KIND_PEER_INFO@).len() <= 36,
        encode_utf8(KIND_PING@).len() <= 36,
        encode_utf8(KIND_PONG@).len() <= 36,
{
    reveal_strlit("HANDSHAKE");
    reveal_strlit("PEER_INFO");
    reveal_strlit("PING");
    reveal_strlit("PONG");
    lemma_utf8_len_bound(KIND_HANDSHAKE@);
    lemma_utf8_len_bound(KIND_PEER_INFO@);
    lemma_utf8_len_bound(KIND_PING@);
    lemma_utf8_len_bound(KIND_PONG@);
}

/// A peer that reads the handshake announcing `port` learns that port, and
/// can act on the message.
pub proof fn lemma_handshake_message_reads_back(port: u16)
    ensures
        spec_decode_base(spec_handshake_message(port)) == Some(
            BaseView {
                kind: KIND_HANDSHAKE@,
                data: spec_encode_handshake(Handshake { port: port as u32 }),
            },
        ),
        spec_decode_handshake(spec_encode_handshake(Handshake { port: port as u32 })) == Some(
            Handshake { port: port as u32 },
        ),
        spec_message_well_formed(spec_handshake_message(port)),
{
    let hs = Handshake { port: port as u32 };
    lemma_kind_lengths();
    lemma_kinds_distinct();
    lemma_handshake_roundtrip(hs);
    let data = spec_encode_handshake(hs);
    assert(data.len() <= 20) by {
        if hs.port != 0 {
            lemma_varint_bytes_len_u64(8);
            lemma_varint_bytes_len_u64(port as u64);
            assert(key_bytes(1, WIRE_VARINT) == varint_bytes(8));
        }
    }
    lemma_base_roundtrip(BaseView { kind: KIND_HANDSHAKE@, data });
}

/// A peer that reads a ping (or a pong) reads a ping (or a pong) with
/// nothing in it, and can act on it.
pub proof fn lemma_ping_pong_messages_read_back()
    ensures
        spec_decode_base(spec_ping_message()) == Some(
            BaseView { kind: KIND_PING@, data: Seq::empty() },
        ),
        spec_decode_base(spec_pong_message()) == Some(
            BaseView { kind: KIND_PONG@, data: Seq::empty() },
        ),
        spec_message_well_formed(spec_ping_message()),
        spec_message_well_formed(spec_pong_message()),
{
    lemma_kind_lengths();
    lemma_kinds_distinct();
    lemma_base_roundtrip(BaseView { kind: KIND_PING@, data: Seq::empty() });
    lemma_base_roundtrip(BaseView { kind: KIND_PONG@, data: Seq::empty() });
}

/// The peers that read the announcement sent in answer to a handshake
/// learn the sender's ip and port, and can act on the message (every Rust
/// string is at most `isize::MAX` bytes long).
pub proof fn lemma_peer_info_message_reads_back(port: u32, ip: Seq<char>)
    requires
        encode_utf8(ip).len() <= isize::MAX,
    ensures
        spec_decode_base(spec_peer_info_message(port, ip)) == Some(
            BaseView {
                kind: KIND_PEER_INFO@,
                data: spec_encode_peer_info(PeerInfoView { port, ip }),
            },
        ),
        spec_decode_peer_info(spec_encode_peer_info(PeerInfoView { port, ip })) == Some(
            PeerInfoView { port, ip },
        ),
        spec_message_well_formed(spec_peer_info_message(port, ip)),
{
    let info = PeerInfoView { port, ip };
    lemma_kind_lengths();
    lemma_kinds_distinct();
    lemma_peer_info_roundtrip(info);
    let data = spec_encode_peer_info(info);
    assert(data.len() <= encode_utf8(ip).len() + 40) by {
        lemma_varint_bytes_len_u64(8);
        lemma_varint_bytes_len_u64(18);
        lemma_varint_bytes_len_u64(port as u64);
        lemma_varint_bytes_len_u64(encode_utf8(ip).len() as u64);
        assert(key_bytes(1, WIRE_VARINT) == varint_bytes(8));
        assert(key_bytes(2, WIRE_LEN) == varint_bytes(18));
    }
    lemma_base_roundtrip(BaseView { kind: KIND_PEER_INFO@, data });
}

} // verus!
