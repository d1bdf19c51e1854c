//! Registry of the peers of one torrent, keyed by address.

use crate::lengths::{ChunkInfo, ValidPieceIndex};
use vstd::prelude::*;

verus! {

/// A peer's socket address: an IPv6 address (IPv4 as mapped IPv6) and a port.
#[derive(Clone, Copy, Debug, PartialEq, Eq, Hash, Structural)]
pub struct PeerAddr {
    pub ip: u128,
    pub port: u16,
}

/// Opaque identifier of a peer; its address.
pub type PeerHandle = PeerAddr;

/// A chunk that was requested from a peer and has not arrived yet.
#[derive(Clone, Copy, Debug, PartialEq, Eq, Hash, Structural)]
pub struct InflightRequest {
    pub piece: ValidPieceIndex,
    pub chunk: u32,
}

impl InflightRequest {
    pub fn from(c: &ChunkInfo) -> (r: InflightRequest)
        ensures
            r.piece == c.piece_index,
            r.chunk == c.chunk_index,
    {
        InflightRequest { piece: c.piece_index, chunk: c.chunk_index }
    }
}

/// What we know of a peer after its handshake.
#[derive(Debug)]
pub struct LivePeerState {
    pub peer_id: [u8; 20],
    pub i_am_choked: bool,
    pub they_are_choked: bool,
    pub i_am_interested: bool,
    pub they_are_interested: bool,
    /// Pieces the peer announced; absent until its `Bitfield` message.
    pub bitfield: Option<Vec<bool>>,
    /// Chunks this peer owes us, without repetition.
    pub inflight_requests: Vec<InflightRequest>,
}

impl LivePeerState {
    pub fn new(peer_id: [u8; 20]) -> (r: LivePeerState)
        ensures
            r.peer_id == peer_id,
            r.i_am_choked,
            r.they_are_choked,
            !r.i_am_interested,
            !r.they_are_interested,
            r.bitfield.is_none(),
            r.inflight_requests@.len() == 0,
    {
        LivePeerState {
            peer_id,
            i_am_choked: true,
            they_are_choked: true,
            i_am_interested: false,
            they_are_interested: false,
            bitfield: None,
            inflight_requests: Vec::new(),
        }
    }

    /// Whether the peer owes us a chunk of `piece`.
    pub fn has_request_for_piece(&self, piece: u32) -> (r: bool)
        ensures
            r == self.has_request_for(piece as int),
    {
        let mut k: usize = 0;
        while k < self.inflight_requests.len()
            invariant
                k <= self.inflight_requests@.len(),
                forall|j: int| 0 <= j < k
                    ==> #[trigger] self.inflight_requests@[j].piece.0 != piece,
            decreases self.inflight_requests@.len() - k,
        {
            if self.inflight_requests[k].piece.0 == piece {
                return true;
            }
            k = k + 1;
        }
        false
    }

    /// The peer owes us at least one chunk of `piece`.
    pub open spec fn has_request_for(&self, piece: int) -> bool {
        exists|k: int|
            0 <= k < self.inflight_requests@.len() && #[trigger] self.inflight_requests@[k].piece.0
                == piece
    }
}

#[derive(Debug)]
pub enum PeerState {
    Connecting(PeerAddr),
    Live(LivePeerState),
}

/// Number of peers in each state.
#[derive(Clone, Copy, Debug, PartialEq, Eq, Structural)]
pub struct AggregatePeerStats {
    pub connecting: usize,
    pub live: usize,
}

/// The state registered for `h`: the last entry with that key.
pub open spec fn lookup(s: Seq<(PeerHandle, PeerState)>, h: PeerHandle) -> Option<PeerState>
    decreases s.len(),
{
    if s.len() == 0 {
        None
    } else if s.last().0 == h {
        Some(s.last().1)
    } else {
        lookup(s.drop_last(), h)
    }
}

pub open spec fn keys_unique(s: Seq<(PeerHandle, PeerState)>) -> bool {
    forall|i: int, j: int| 0 <= i < j < s.len() ==> s[i].0 != s[j].0
}

/// With unique keys, `lookup` finds the one entry with the key, or nothing.
pub proof fn lemma_lookup(s: Seq<(PeerHandle, PeerState)>, h: PeerHandle)
    requires
        keys_unique(s),
    ensures
        forall|i: int| 0 <= i < s.len() && s[i].0 == h ==> lookup(s, h) == Some(#[trigger] s[i].1),
        (forall|i: int| 0 <= i < s.len() ==> #[trigger] s[i].0 != h) ==> lookup(s, h).is_none(),
    decreases s.len(),
{
    if s.len() > 0 {
        lemma_lookup(s.drop_last(), h);
        assert forall|i: int| 0 <= i < s.len() && s[i].0 == h implies lookup(s, h) == Some(
            #[trigger] s[i].1,
        ) by {
            if i < s.len() - 1 {
                assert(s.drop_last()[i] == s[i]);
            }
        }
        if forall|i: int| 0 <= i < s.len() ==> #[trigger] s[i].0 != h {
            assert(s.last().0 != h);
            assert forall|i: int| 0 <= i < s.drop_last().len() implies #[trigger] s.drop_last()[i].0
                != h by {
                assert(s[i].0 != h);
            }
        }
    }
}

pub struct PeerStates {
    pub states: Vec<(PeerHandle, PeerState)>,
    /// Every address ever admitted.
    pub seen_peers: Vec<PeerAddr>,
    /// Pieces reserved by some peer and not verified yet, by piece index.
    pub inflight_pieces: Vec<bool>,
}

impl PeerStates {
    pub open spec fn wf(&self) -> bool {
        &&& keys_unique(self.states@)
        &&& forall|i: int|
            0 <= i < self.states@.len() ==> self.seen_peers@.contains(#[trigger] self.states@[i].0)
    }

    pub open spec fn state(&self, h: PeerHandle) -> Option<PeerState> {
        lookup(self.states@, h)
    }

    pub open spec fn live(&self, h: PeerHandle) -> Option<LivePeerState> {
        match self.state(h) {
            Some(PeerState::Live(l)) => Some(l),
            _ => None,
        }
    }

    pub fn new(total_pieces: u32) -> (r: PeerStates)
        ensures
            r.wf(),
            r.states@.len() == 0,
            r.seen_peers@.len() == 0,
            r.inflight_pieces@.len() == total_pieces,
            forall|p: int| 0 <= p < total_pieces ==> !#[trigger] r.inflight_pieces@[p],
    {
        let mut inflight_pieces: Vec<bool> = Vec::new();
        let mut i: u32 = 0;
        while i < total_pieces
            invariant
                i <= total_pieces,
                inflight_pieces@.len() == i,
                forall|p: int| 0 <= p < i ==> !#[trigger] inflight_pieces@[p],
            decreases total_pieces - i,
        {
            inflight_pieces.push(false);
            i = i + 1;
        }
        PeerStates { states: Vec::new(), seen_peers: Vec::new(), inflight_pieces }
    }

    /// Position of `h` in the registry.
    pub fn find(&self, h: PeerHandle) -> (r: Option<usize>)
        requires
            self.wf(),
        ensures
            r matches Some(i) ==> i < self.states@.len() && self.states@[i as int].0 == h
                && self.state(h) == Some(self.states@[i as int].1),
            r is None ==> self.state(h).is_none() && forall|i: int|
                0 <= i < self.states@.len() ==> #[trigger] self.states@[i].0 != h,
    {
        proof {
            lemma_lookup(self.states@, h);
        }
        let mut i: usize = 0;
        while i < self.states.len()
            invariant
                self.wf(),
                i <= self.states@.len(),
                forall|j: int| 0 <= j < i ==> #[trigger] self.states@[j].0 != h,
            decreases self.states@.len() - i,
        {
            if self.states[i].0 == h {
                proof {
                    lemma_lookup(self.states@, h);
                }
                return Some(i);
            }
            i = i + 1;
        }
        None
    }

    pub fn seen(&self, addr: PeerAddr) -> (r: bool)
        ensures
            r == self.seen_peers@.contains(addr),
    {
        let mut i: usize = 0;
        while i < self.seen_peers.len()
            invariant
                i <= self.seen_peers@.len(),
                forall|j: int| 0 <= j < i ==> #[trigger] self.seen_peers@[j] != addr,
            decreases self.seen_peers@.len() - i,
        {
            if self.seen_peers[i] == addr {
                return true;
            }
            i = i + 1;
        }
        false
    }

    pub fn stats(&self) -> (r: AggregatePeerStats)
        ensures
            r.connecting + r.live == self.states@.len(),
            r.live == count_live(self.states@),
    {
        let mut s = AggregatePeerStats { connecting: 0, live: 0 };
        let mut i: usize = 0;
        while i < self.states.len()
            invariant
                i <= self.states@.len(),
                s.connecting + s.live == i,
                s.live == count_live(self.states@.take(i as int)),
            decreases self.states@.len() - i,
        {
            assert(self.states@.take(i + 1).drop_last() =~= self.states@.take(i as int));
            match &self.states[i].1 {
                PeerState::Connecting(_) => s.connecting = s.connecting + 1,
                PeerState::Live(_) => s.live = s.live + 1,
            }
            i = i + 1;
        }
        assert(self.states@.take(i as int) =~= self.states@);
        s
    }

    /// Replaces the state stored at position `i`, handing back the one that was there.
    pub fn swap_state(&mut self, i: usize, st: PeerState) -> (r: PeerState)
        requires
            old(self).wf(),
            i < old(self).states@.len(),
        ensures
            final(self).wf(),
            final(self).seen_peers == old(self).seen_peers,
            final(self).inflight_pieces == old(self).inflight_pieces,
            r == old(self).states@[i as int].1,
            final(self).states@ == old(self).states@.update(i as int,
                (old(self).states@[i as int].0, st)),
            final(self).state(old(self).states@[i as int].0) == Some(st),
            forall|g: PeerHandle|
                g != old(self).states@[i as int].0 ==> final(self).state(g) == old(self).state(g),
    {
        let ghost key = self.states@[i as int].0;
        let mut tmp = (self.states[i].0, st);
        self.states.set_and_swap(i, &mut tmp);
        proof {
            assert forall|a: int| 0 <= a < self.states@.len() implies self.seen_peers@.contains(
                #[trigger] self.states@[a].0,
            ) by {
                assert(self.states@[a].0 == old(self).states@[a].0);
            }
            assert forall|a: int, b: int| 0 <= a < b < self.states@.len() implies self.states@[a].0
                != self.states@[b].0 by {
                assert(self.states@[a].0 == old(self).states@[a].0);
                assert(self.states@[b].0 == old(self).states@[b].0);
            }
            lemma_lookup(self.states@, key);
            assert(self.states@[i as int].0 == key);
            assert(self.states@[i as int].1 == st);
            assert forall|g: PeerHandle| g != key implies self.state(g) == old(self).state(g) by {
                lemma_lookup(self.states@, g);
                lemma_lookup(old(self).states@, g);
                if exists|a: int| 0 <= a < self.states@.len() && self.states@[a].0 == g {
                    let a = choose|a: int| 0 <= a < self.states@.len() && self.states@[a].0 == g;
                    assert(old(self).states@[a] == self.states@[a]);
                    assert(self.state(g) == Some(self.states@[a].1));
                    assert(old(self).state(g) == Some(old(self).states@[a].1));
                } else {
                    assert forall|a: int| 0 <= a < old(self).states@.len()
                        implies #[trigger] old(self).states@[a].0 != g by {
                        assert(self.states@[a].0 == old(self).states@[a].0);
                    }
                }
            }
        }
        tmp.1
    }

    pub fn get_live(&self, h: PeerHandle) -> (r: Option<&LivePeerState>)
        requires
            self.wf(),
        ensures
            r matches Some(l) ==> self.live(h) == Some(*l),
            r is None ==> self.live(h).is_none(),
    {
        match self.find(h) {
            None => None,
            Some(i) => match &self.states[i].1 {
                PeerState::Live(l) => Some(l),
                PeerState::Connecting(_) => None,
            },
        }
    }

    /// Drops `h` from the registry; its address stays seen.
    pub fn drop_peer(&mut self, h: PeerHandle) -> (r: Option<PeerState>)
        requires
            old(self).wf(),
        ensures
            final(self).wf(),
            final(self).seen_peers == old(self).seen_peers,
            final(self).inflight_pieces == old(self).inflight_pieces,
            r == old(self).state(h),
            r is None ==> *final(self) == *old(self),
            final(self).state(h).is_none(),
            forall|g: PeerHandle| g != h ==> final(self).state(g) == old(self).state(g),
            forall|a: int|
                0 <= a < final(self).states@.len() ==> old(self).states@.contains(
                    #[trigger] final(self).states@[a],
                ),
    {
        match self.find(h) {
            None => None,
            Some(i) => {
                let e = self.states.remove(i);
                proof {
                    let o = old(self).states@;
                    let s = self.states@;
                    assert forall|a: int| 0 <= a < s.len() implies s[a] == if a < i {
                        o[a]
                    } else {
                        o[a + 1]
                    } by {}
                    assert forall|a: int| 0 <= a < s.len() implies #[trigger] s[a].0 != h by {
                        if a < i {
                            assert(o[a].0 != o[i as int].0);
                        } else {
                            assert(o[i as int].0 != o[a + 1].0);
                        }
                    }
                    assert forall|a: int| 0 <= a < s.len() implies o.contains(#[trigger] s[a]) by {
                        if a < i {
                            assert(o[a] == s[a]);
                        } else {
                            assert(o[a + 1] == s[a]);
                        }
                    }
                    assert forall|a: int, b: int| 0 <= a < b < s.len() implies s[a].0 != s[b].0 by {
                        let a2 = if a < i { a } else { a + 1 };
                        let b2 = if b < i { b } else { b + 1 };
                        assert(o[a2].0 != o[b2].0);
                    }
                    assert forall|a: int| 0 <= a < s.len() implies self.seen_peers@.contains(
                        #[trigger] s[a].0,
                    ) by {
                        let a2 = if a < i { a } else { a + 1 };
                        assert(old(self).seen_peers@.contains(o[a2].0));
                    }
                    lemma_lookup(s, h);
                    assert forall|g: PeerHandle| g != h implies self.state(g)
                        == old(self).state(g) by {
                        lemma_lookup(s, g);
                        lemma_lookup(o, g);
                        if exists|a: int| 0 <= a < o.len() && o[a].0 == g {
                            let a = choose|a: int| 0 <= a < o.len() && o[a].0 == g;
                            assert(a != i);
                            let a2 = if a < i { a } else { a - 1 };
                            assert(s[a2] == o[a]);
                            assert(self.state(g) == Some(s[a2].1));
                            assert(old(self).state(g) == Some(o[a].1));
                        } else {
                            assert forall|a: int| 0 <= a < s.len()
                                implies #[trigger] s[a].0 != g by {
                                let a2 = if a < i { a } else { a + 1 };
                                assert(s[a] == o[a2]);
                            }
                        }
                    }
                }
                Some(e.1)
            },
        }
    }

    /// `st` is `old` with only the entries of `h` changed by `f`; `f` keeps the variant.
    pub open spec fn changed_only_at(old: Seq<(PeerHandle, PeerState)>, new: Seq<(PeerHandle,
        PeerState)>, h: PeerHandle) -> bool {
        &&& new.len() == old.len()
        &&& forall|a: int| 0 <= a < new.len() ==> (#[trigger] new[a]).0 == old[a].0
        &&& forall|a: int| 0 <= a < new.len() && old[a].0 != h ==> #[trigger] new[a] == old[a]
    }

    /// Records whether the peer chokes us; hands back the previous value, or nothing when
    /// the peer is not live.
    pub fn mark_i_am_choked(&mut self, handle: PeerHandle, is_choked: bool) -> (r: Option<bool>)
        requires
            old(self).wf(),
        ensures
            final(self).wf(),
            final(self).seen_peers == old(self).seen_peers,
            final(self).inflight_pieces == old(self).inflight_pieces,
            Self::changed_only_at(old(self).states@, final(self).states@, handle),
            forall|a: int| 0 <= a < final(self).states@.len() && old(self).states@[a].0
                == handle ==> match (old(self).states@[a].1, #[trigger] final(self).states@[a].1) {
                (PeerState::Live(l), PeerState::Live(l2)) => l2
                    == (LivePeerState { i_am_choked: is_choked, ..l }),
                (PeerState::Connecting(x), PeerState::Connecting(y)) => x == y,
                _ => false,
            },
            forall|h: PeerHandle| h != handle ==> final(self).state(h) == old(self).state(h),
            old(self).live(handle) is None ==> r is None && *final(self) == *old(self),
            old(self).live(handle) matches Some(l) ==> r == Some(l.i_am_choked)
                && final(self).live(handle) == Some(LivePeerState { i_am_choked: is_choked, ..l }),
    {
        let i = match self.find(handle) {
            Some(i) => i,
            None => return None,
        };
        if let PeerState::Connecting(_) = &self.states[i].1 {
            return None;
        }
        let st = self.swap_state(i, PeerState::Connecting(handle));
        match st {
            PeerState::Live(mut l) => {
                let prev = l.i_am_choked;
                l.i_am_choked = is_choked;
                self.swap_state(i, PeerState::Live(l));
                proof {
                    lemma_lookup(old(self).states@, handle);
                    assert forall|a: int| 0 <= a < self.states@.len()
                        && old(self).states@[a].0 != handle implies #[trigger] self.states@[a]
                        == old(self).states@[a] by {
                        assert(a != i);
                    }
                    assert forall|a: int| 0 <= a < self.states@.len() && old(self).states@[a].0
                        == handle implies a == i by {
                        if a != i {
                            assert(old(self).states@[a].0 != old(self).states@[i as int].0);
                        }
                    }
                }
                Some(prev)
            },
            PeerState::Connecting(_) => None,
        }
    }

    /// Replaces the bitfield of a live peer, handing back the previous one; nothing happens
    /// when the peer is not live.
    pub fn update_bitfield_from_vec(&mut self, handle: PeerHandle,
        bitfield: Vec<bool>) -> (r: Option<Option<Vec<bool>>>)
        requires
            old(self).wf(),
        ensures
            final(self).wf(),
            final(self).seen_peers == old(self).seen_peers,
            final(self).inflight_pieces == old(self).inflight_pieces,
            Self::changed_only_at(old(self).states@, final(self).states@, handle),
            forall|a: int| 0 <= a < final(self).states@.len() && old(self).states@[a].0
                == handle ==> match (old(self).states@[a].1, #[trigger] final(self).states@[a].1) {
                (PeerState::Live(l), PeerState::Live(l2)) => l2
                    == (LivePeerState { bitfield: Some(bitfield), ..l }),
                (PeerState::Connecting(x), PeerState::Connecting(y)) => x == y,
                _ => false,
            },
            forall|h: PeerHandle| h != handle ==> final(self).state(h) == old(self).state(h),
            old(self).live(handle) is None ==> r is None && *final(self) == *old(self),
            old(self).live(handle) matches Some(l) ==> r == Some(l.bitfield)
                && final(self).live(handle) == Some(LivePeerState { bitfield: Some(bitfield),
                ..l }),
    {
        let i = match self.find(handle) {
            Some(i) => i,
            None => return None,
        };
        if let PeerState::Connecting(_) = &self.states[i].1 {
            return None;
        }
        let st = self.swap_state(i, PeerState::Connecting(handle));
        match st {
            PeerState::Live(mut l) => {
                let prev = l.bitfield;
                l.bitfield = Some(bitfield);
                self.swap_state(i, PeerState::Live(l));
                proof {
                    lemma_lookup(old(self).states@, handle);
                    assert forall|a: int| 0 <= a < self.states@.len()
                        && old(self).states@[a].0 != handle implies #[trigger] self.states@[a]
                        == old(self).states@[a] by {
                        assert(a != i);
                    }
                    assert forall|a: int| 0 <= a < self.states@.len() && old(self).states@[a].0
                        == handle implies a == i by {
                        if a != i {
                            assert(old(self).states@[a].0 != old(self).states@[i as int].0);
                        }
                    }
                }
                Some(prev)
            },
            PeerState::Connecting(_) => None,
        }
    }

    /// Marks a piece as no longer reserved; says whether it was.
    pub fn remove_inflight_piece(&mut self, piece: ValidPieceIndex) -> (r: bool)
        requires
            piece.0 < old(self).inflight_pieces@.len(),
        ensures
            r == old(self).inflight_pieces@[piece.0 as int],
            final(self).inflight_pieces@ == old(self).inflight_pieces@.update(piece.0 as int,
                false),
            final(self).states == old(self).states,
            final(self).seen_peers == old(self).seen_peers,
    {
        let was = self.inflight_pieces[piece.0 as usize];
        self.inflight_pieces.set(piece.0 as usize, false);
        was
    }

    /// Admits a new address as connecting, unless it was seen before.
    pub fn add_if_not_seen(&mut self, addr: PeerAddr) -> (r: Option<PeerHandle>)
        requires
            old(self).wf(),
        ensures
            final(self).wf(),
            final(self).inflight_pieces == old(self).inflight_pieces,
            final(self).seen_peers@.contains(addr),
            old(self).seen_peers@.contains(addr) ==> r.is_none() && *final(self) == *old(self),
            !old(self).seen_peers@.contains(addr) ==> final(self).seen_peers@ == old(
                self,
            ).seen_peers@.push(addr),
            !old(self).seen_peers@.contains(addr) ==> final(self).states@ == old(self).states@.push(
                (addr, PeerState::Connecting(addr)),
            ),
            !old(self).seen_peers@.contains(addr) ==> r == Some(addr) && final(self).state(addr)
                == Some(PeerState::Connecting(addr)) && forall|h: PeerHandle|
                h != addr ==> final(self).state(h) == old(self).state(h),
    {
        if self.seen(addr) {
            return None;
        }
        proof {
            lemma_lookup(self.states@, addr);
            assert forall|i: int| 0 <= i < self.states@.len() implies #[trigger] self.states@[i].0
                != addr by {
                assert(self.seen_peers@.contains(self.states@[i].0));
            }
        }
        let handle = self.add(addr);
        self.seen_peers.push(addr);
        proof {
            assert forall|i: int| 0 <= i < self.states@.len() implies self.seen_peers@.contains(
                #[trigger] self.states@[i].0,
            ) by {
                if self.states@[i].0 != addr {
                    let j = choose|j: int|
                        0 <= j < old(self).seen_peers@.len() && old(self).seen_peers@[j]
                            == self.states@[i].0;
                    assert(self.seen_peers@[j] == self.states@[i].0);
                } else {
                    assert(self.seen_peers@[self.seen_peers@.len() - 1] == addr);
                }
            }
        }
        assert(self.seen_peers@[self.seen_peers@.len() - 1] == addr);
        handle
    }

    /// Registers `addr` as connecting unless it is registered already.
    pub fn add(&mut self, addr: PeerAddr) -> (r: Option<PeerHandle>)
        requires
            keys_unique(old(self).states@),
        ensures
            keys_unique(final(self).states@),
            final(self).seen_peers == old(self).seen_peers,
            final(self).inflight_pieces == old(self).inflight_pieces,
            old(self).state(addr).is_some() ==> r.is_none() && *final(self) == *old(self),
            old(self).state(addr).is_none() ==> r == Some(addr) && final(self).states@
                == old(self).states@.push((addr, PeerState::Connecting(addr))),
            final(self).state(addr).is_some(),
            forall|h: PeerHandle| h != addr ==> final(self).state(h) == old(self).state(h),
            old(self).state(addr).is_none() ==> final(self).state(addr) == Some(
                PeerState::Connecting(addr),
            ),
    {
        proof {
            lemma_lookup(self.states@, addr);
        }
        let mut i: usize = 0;
        while i < self.states.len()
            invariant
                *self == *old(self),
                keys_unique(self.states@),
                i <= self.states@.len(),
                forall|j: int| 0 <= j < i ==> #[trigger] self.states@[j].0 != addr,
            decreases self.states@.len() - i,
        {
            if self.states[i].0 == addr {
                proof {
                    lemma_lookup(self.states@, addr);
                    assert(self.state(addr) == Some(self.states@[i as int].1));
                }
                return None;
            }
            i = i + 1;
        }
        self.states.push((addr, PeerState::Connecting(addr)));
        proof {
            assert(self.states@.drop_last() =~= old(self).states@);
        }
        Some(addr)
    }
}

/// Number of live entries.
pub open spec fn count_live(s: Seq<(PeerHandle, PeerState)>) -> nat
    decreases s.len(),
{
    if s.len() == 0 {
        0
    } else {
        count_live(s.drop_last()) + if s.last().1 is Live {
            1nat
        } else {
            0nat
        }
    }
}

} // verus!
