//! The coordinator: progress, reservations and peer churn of one torrent.

use crate::accounting::{
    have_bytes, lemma_have_bytes_bounded, lemma_have_bytes_le_total, lemma_have_bytes_mono,
    lemma_have_bytes_split, lemma_have_bytes_update,
};
use crate::bitfield::{bitfield_from_bytes, count_true, lemma_count_true_all,
    lemma_count_true_disjoint3, wire_bit, wire_len};
use crate::chunk_tracker::{ChunkTracker, PieceOutcome};
use crate::credit::{
    lemma_chunk_ids_disjoint, lemma_chunk_sum_frame, lemma_chunk_sum_set,
    lemma_chunk_sum_zero, lemma_piece_sum_full, lemma_sum_int_nonneg, lemma_sum_int_update,
    lemma_sum_int_zeros, piece_sum, sum_int,
};
use crate::lengths::{lemma_piece_facts, ChunkInfo, Lengths, ValidPieceIndex};
use crate::piece_check::{check_piece, sha1_of};
use crate::peer_state::{
    count_live, lemma_lookup, AggregatePeerStats, InflightRequest, LivePeerState, PeerAddr,
        PeerHandle,
    PeerState, PeerStates,
};
use vstd::prelude::*;

verus! {

/// Byte counters of a torrent.
pub struct AtomicStats {
    /// Bytes of the pieces we have.
    pub have: u64,
    /// Bytes of the pieces downloaded and verified in this session.
    pub downloaded_and_checked: u64,
    pub uploaded: u64,
    /// Bytes received, including those that later failed their hash check.
    pub fetched_bytes: u64,
}

/// The state that the engine lock guards.
pub struct TorrentStateLocked {
    pub peers: PeerStates,
    pub chunks: ChunkTracker,
}

pub struct TorrentState {
    pub info_hash: [u8; 20],
    pub peer_id: [u8; 20],
    /// Expected SHA-1 of each piece.
    pub piece_hashes: Vec<[u8; 20]>,
    pub lengths: Lengths,
    pub locked: TorrentStateLocked,
    /// Bytes that were still wanted when the session started.
    pub needed: u64,
    pub stats: AtomicStats,
    /// Pieces this session is concerned with: those had and those wanted.
    pub selected: Ghost<Seq<bool>>,
    /// Bytes fetched toward each piece since its chunks were last forgotten.
    pub credit: Ghost<Seq<int>>,
    /// Pieces had when the session started.
    pub initially_had: Ghost<Seq<bool>>,
}

/// `p` is the first piece that is both needed and announced by the peer.
pub open spec fn is_first_needed(needed: Seq<bool>, bf: Seq<bool>, p: int) -> bool {
    &&& 0 <= p < needed.len()
    &&& needed[p] && bf[p]
    &&& forall|q: int| 0 <= q < p ==> !(#[trigger] needed[q] && bf[q])
}

/// Relation between a peer's state before and after dropping its requests for `piece`.
pub open spec fn without_piece(a: PeerState, b: PeerState, piece: int) -> bool {
    match (a, b) {
        (PeerState::Connecting(x), PeerState::Connecting(y)) => x == y,
        (PeerState::Live(la), PeerState::Live(lb)) => {
            &&& lb.peer_id == la.peer_id
            &&& lb.i_am_choked == la.i_am_choked
            &&& lb.they_are_choked == la.they_are_choked
            &&& lb.i_am_interested == la.i_am_interested
            &&& lb.they_are_interested == la.they_are_interested
            &&& lb.bitfield == la.bitfield
            &&& forall|r: InflightRequest|
                #[trigger] lb.inflight_requests@.contains(r) <==> (la.inflight_requests@.contains(r)
                    && r.piece.0 != piece)
        },
        _ => false,
    }
}

impl TorrentState {
    pub open spec fn have(&self) -> Seq<bool> {
        self.locked.chunks.have@
    }

    pub open spec fn needed_pieces(&self) -> Seq<bool> {
        self.locked.chunks.needed@
    }

    pub open spec fn inflight(&self) -> Seq<bool> {
        self.locked.peers.inflight_pieces@
    }

    pub open spec fn live(&self, h: PeerHandle) -> Option<LivePeerState> {
        self.locked.peers.live(h)
    }

    /// The peer `h` is live and owes us a chunk of piece `q`.
    pub open spec fn owes(&self, h: PeerHandle, q: int) -> bool {
        self.live(h) matches Some(l) && l.has_request_for(q)
    }

    /// No chunk of piece `p` is marked received.
    pub open spec fn piece_chunks_clear(&self, p: int) -> bool {
        forall|c: int|
            0 <= c < self.lengths.spec_chunks_in_piece(p)
                ==> !self.locked.chunks.chunk_status@[#[trigger] self.lengths.spec_chunk_id(p, c)]
    }

    pub open spec fn live_ok(&self, l: LivePeerState) -> bool {
        &&& (l.bitfield matches Some(b) ==> b@.len() == self.lengths.total_pieces)
        &&& forall|k: int|
            0 <= k < l.inflight_requests@.len() ==> self.lengths.valid_piece(
                (#[trigger] l.inflight_requests@[k]).piece.0 as int,
            ) && self.inflight()[l.inflight_requests@[k].piece.0 as int]
    }

    pub open spec fn wf(&self) -> bool {
        let n = self.lengths.total_pieces as int;
        &&& self.lengths.wf()
        &&& self.locked.chunks.wf()
        &&& self.locked.chunks.lengths == self.lengths
        &&& self.locked.peers.wf()
        &&& self.inflight().len() == n
        &&& self.piece_hashes@.len() == n
        &&& self.selected@.len() == n
        &&& forall|p: int|
            0 <= p < n ==> (#[trigger] self.have()[p] as int) + (self.needed_pieces()[p] as int) + (
            self.inflight()[p] as int) == (self.selected@[p] as int)
        &&& forall|i: int|
            0 <= i < self.locked.peers.states@.len()
                ==> ((#[trigger] self.locked.peers.states@[i]).1 matches PeerState::Live(l)
                ==> self.live_ok(l))
        &&& self.stats.have == have_bytes(self.lengths, self.have())
        &&& self.stats.downloaded_and_checked <= self.stats.have
        &&& self.initially_had@.len() == n
        &&& forall|p: int| 0 <= p < n && #[trigger] self.initially_had@[p] ==> self.have()[p]
        &&& self.stats.downloaded_and_checked == self.stats.have - have_bytes(self.lengths,
            self.initially_had@)
        &&& self.needed == have_bytes(self.lengths, Seq::new(n as nat,
            |p: int| self.selected@[p] && !self.initially_had@[p]))
        &&& self.credit@.len() == n
        &&& forall|p: int|
            0 <= p < n ==> #[trigger] self.credit@[p] >= piece_sum(
                self.lengths,
                self.locked.chunks.chunk_status@,
                p,
            ) && self.credit@[p] >= 0
        &&& self.stats.fetched_bytes == u64::MAX || self.stats.downloaded_and_checked + sum_int(
            self.credit@,
        ) <= self.stats.fetched_bytes
    }

    /// Starts a session that has the pieces in `have` and wants the pieces of `selected`.
    pub fn new(
        lengths: Lengths,
        piece_hashes: Vec<[u8; 20]>,
        info_hash: [u8; 20],
        peer_id: [u8; 20],
        have: Vec<bool>,
        selected: &Vec<bool>,
    ) -> (r: TorrentState)
        requires
            lengths.wf(),
            piece_hashes@.len() == lengths.total_pieces,
            have@.len() == lengths.total_pieces,
            selected@.len() == lengths.total_pieces,
        ensures
            r.wf(),
            r.lengths == lengths,
            r.piece_hashes@ == piece_hashes@,
            r.have() == have@,
            forall|p: int|
                0 <= p < have@.len() ==> #[trigger] r.needed_pieces()[p] == (selected@[p]
                    && !have@[p]),
            forall|p: int| 0 <= p < have@.len() ==> !#[trigger] r.inflight()[p],
            r.locked.peers.states@.len() == 0,
            r.locked.peers.seen_peers@.len() == 0,
            r.needed == have_bytes(lengths, r.needed_pieces()),
            r.stats.have == have_bytes(lengths, have@),
            r.stats.downloaded_and_checked == 0,
            r.stats.uploaded == 0,
            r.stats.fetched_bytes == 0,
    {
        let chunks = ChunkTracker::new(lengths, have, selected);
        let peers = PeerStates::new(lengths.total_pieces);
        let have_total = bytes_of(&lengths, &chunks.have);
        let needed_total = bytes_of(&lengths, &chunks.needed);
        proof {
            lemma_sum_int_zeros(lengths.total_pieces as nat);
            assert forall|p: int| 0 <= p < lengths.total_pieces implies piece_sum(lengths,
                chunks.chunk_status@, p) == 0 by {
                lemma_piece_facts(lengths, p);
                assert forall|c: int| 0 <= c < lengths.spec_chunks_in_piece(p)
                    implies !chunks.chunk_status@[#[trigger] lengths.spec_chunk_id(p, c)] by {
                    crate::lengths::lemma_chunk_facts(lengths, p, c);
                }
                lemma_chunk_sum_zero(lengths, chunks.chunk_status@, p,
                    lengths.spec_chunks_in_piece(p));
            }
        }
        let ghost sel = Seq::new(
            lengths.total_pieces as nat,
            |p: int| chunks.have@[p] || chunks.needed@[p],
        );
        assert(Seq::new(lengths.total_pieces as nat, |p: int| sel[p]
            && !chunks.have@[p]) =~= chunks.needed@);
        TorrentState {
            info_hash,
            peer_id,
            piece_hashes,
            lengths,
            locked: TorrentStateLocked { peers, chunks },
            needed: needed_total,
            stats: AtomicStats {
                have: have_total,
                downloaded_and_checked: 0,
                uploaded: 0,
                fetched_bytes: 0,
            },
            selected: Ghost(sel),
            credit: Ghost(Seq::new(lengths.total_pieces as nat, |p: int| 0int)),
            initially_had: Ghost(chunks.have@),
        }
    }

    /// Admits a new address as connecting, unless it was seen before.
    pub fn add_if_not_seen(&mut self, addr: PeerAddr) -> (r: Option<PeerHandle>)
        requires
            old(self).wf(),
        ensures
            final(self).wf(),
            final(self).locked.chunks == old(self).locked.chunks,
            final(self).inflight() == old(self).inflight(),
            final(self).stats == old(self).stats,
            final(self).locked.peers.seen_peers@.contains(addr),
            old(self).locked.peers.seen_peers@.contains(addr) ==> r.is_none()
                && final(self).locked.peers == old(self).locked.peers,
            !old(self).locked.peers.seen_peers@.contains(addr)
                ==> final(self).locked.peers.seen_peers@
                == old(self).locked.peers.seen_peers@.push(addr),
            !old(self).locked.peers.seen_peers@.contains(addr) ==> r == Some(addr)
                && final(self).locked.peers.state(addr) == Some(PeerState::Connecting(addr))
                && forall|h: PeerHandle|
                h != addr ==> final(self).locked.peers.state(h) == old(self).locked.peers.state(h),
    {
        let r = self.locked.peers.add_if_not_seen(addr);
        proof {
            let s = self.locked.peers.states@;
            assert forall|i: int| 0 <= i < s.len()
                implies ((#[trigger] s[i]).1 matches PeerState::Live(
                l,
            ) ==> self.live_ok(l)) by {
                if i < old(self).locked.peers.states@.len() {
                    assert(s[i] == old(self).locked.peers.states@[i]);
                }
            }
        }
        r
    }

    /// Moves a connecting peer to live after its handshake; any other state is left alone.
    pub fn set_peer_live(&mut self, handle: PeerHandle, peer_id: [u8; 20])
        requires
            old(self).wf(),
        ensures
            final(self).wf(),
            final(self).locked.chunks == old(self).locked.chunks,
            final(self).inflight() == old(self).inflight(),
            final(self).stats == old(self).stats,
            final(self).locked.peers.seen_peers == old(self).locked.peers.seen_peers,
            forall|h: PeerHandle|
                h != handle ==> final(self).locked.peers.state(h)
                    == old(self).locked.peers.state(h),
            old(self).locked.peers.state(handle) is Some
                && old(self).locked.peers.state(handle).unwrap() is Connecting
                ==> (final(self).live(handle) matches Some(l) && l.peer_id == peer_id
                && l.i_am_choked
                && l.they_are_choked && !l.i_am_interested && !l.they_are_interested
                && l.bitfield is None && l.inflight_requests@.len() == 0),
            !(old(self).locked.peers.state(handle) is Some
                && old(self).locked.peers.state(handle).unwrap() is Connecting)
                ==> final(self).locked.peers == old(self).locked.peers,
    {
        let i = match self.locked.peers.find(handle) {
            Some(i) => i,
            None => return,
        };
        if let PeerState::Connecting(_) = &self.locked.peers.states[i].1 {
            let ghost before = *self;
            self.locked.peers.swap_state(i, PeerState::Live(LivePeerState::new(peer_id)));
            proof {
                lemma_states_update_wf(before, *self, i as int);
            }
        }
    }

    /// Records whether the peer chokes us; hands back the previous value, or nothing
    /// when the peer is not live.
    pub fn mark_i_am_choked(&mut self, handle: PeerHandle, is_choked: bool) -> (r: Option<bool>)
        requires
            old(self).wf(),
        ensures
            final(self).wf(),
            final(self).locked.chunks == old(self).locked.chunks,
            final(self).inflight() == old(self).inflight(),
            final(self).stats == old(self).stats,
            forall|h: PeerHandle|
                h != handle ==> final(self).locked.peers.state(h)
                    == old(self).locked.peers.state(h),
            old(self).live(handle) is None ==> r is None && final(self).locked.peers
                == old(self).locked.peers,
            old(self).live(handle) matches Some(l) ==> r == Some(l.i_am_choked) && final(self).live(
                handle,
            ) == Some(LivePeerState { i_am_choked: is_choked, ..l }),
    {
        let ghost before = *self;
        let r = self.locked.peers.mark_i_am_choked(handle, is_choked);
        proof {
            lemma_states_reshape_wf(before, *self, handle);
        }
        r
    }

    /// Takes the payload of the peer's `Bitfield` message. A payload of the wrong length or
    /// with a padding bit set is refused and nothing changes: the caller then drops the peer.
    pub fn update_bitfield_from_vec(&mut self, handle: PeerHandle, bitfield: &Vec<u8>) -> (r: bool)
        requires
            old(self).wf(),
        ensures
            final(self).wf(),
            final(self).locked.chunks == old(self).locked.chunks,
            final(self).inflight() == old(self).inflight(),
            final(self).stats == old(self).stats,
            forall|h: PeerHandle|
                h != handle ==> final(self).locked.peers.state(h)
                    == old(self).locked.peers.state(h),
            r <==> (old(self).live(handle) is Some && bitfield@.len() == wire_len(
                old(self).lengths.total_pieces as nat,
            ) && forall|i: int|
                old(self).lengths.total_pieces <= i < 8 * bitfield@.len() ==> !#[trigger] wire_bit(
                    bitfield@,
                    i,
                )),
            !r ==> final(self).locked.peers == old(self).locked.peers,
            r ==> (old(self).live(handle) matches Some(l) && final(self).live(handle) is Some
                && final(self).live(handle).unwrap() == (LivePeerState {
                bitfield: final(self).live(handle).unwrap().bitfield,
                ..l
            }) && final(self).live(handle).unwrap().bitfield is Some && final(self).live(
                handle,
            ).unwrap().bitfield.unwrap()@.len() == old(self).lengths.total_pieces && forall|i: int|
                0 <= i < old(self).lengths.total_pieces ==> #[trigger] final(self).live(
                    handle,
                ).unwrap().bitfield.unwrap()@[i] == wire_bit(bitfield@, i)),
    {
        if self.locked.peers.get_live(handle).is_none() {
            return false;
        }
        let bits = match bitfield_from_bytes(bitfield, self.lengths.total_pieces) {
            Some(b) => b,
            None => return false,
        };
        let ghost before = *self;
        let ghost b = bits;
        self.locked.peers.update_bitfield_from_vec(handle, bits);
        proof {
            lemma_states_reshape_wf(before, *self, handle);
            assert(self.live(handle).unwrap().bitfield == Some(b));
        }
        true
    }

    pub fn am_i_choked(&self, handle: PeerHandle) -> (r: Option<bool>)
        requires
            self.wf(),
        ensures
            r == match self.live(handle) {
                Some(l) => Some(l.i_am_choked),
                None => None,
            },
    {
        match self.locked.peers.get_live(handle) {
            Some(l) => Some(l.i_am_choked),
            None => None,
        }
    }

    /// The first piece, in index order, that is still needed and that the peer announced.
    /// Nothing is reserved.
    pub fn get_next_needed_piece(&self, handle: PeerHandle) -> (r: Option<ValidPieceIndex>)
        requires
            self.wf(),
        ensures
            r matches Some(v) ==> (self.live(handle) matches Some(l) && l.bitfield is Some
                && is_first_needed(self.needed_pieces(), l.bitfield.unwrap()@, v.0 as int)),
            r is None ==> match self.live(handle) {
                Some(l) => match l.bitfield {
                    Some(b) => forall|p: int|
                        0 <= p < self.lengths.total_pieces ==> !(#[trigger] self.needed_pieces()[p]
                            && b@[p]),
                    None => true,
                },
                None => true,
            },
    {
        let l = match self.locked.peers.get_live(handle) {
            Some(l) => l,
            None => return None,
        };
        proof {
            self.lemma_live_ok(handle);
        }
        let bf = match &l.bitfield {
            Some(b) => b,
            None => return None,
        };
        let needed = self.locked.chunks.get_needed_pieces();
        let n = self.lengths.total_pieces;
        let mut p: u32 = 0;
        while p < n
            invariant
                self.wf(),
                self.live(handle) == Some(*l),
                l.bitfield == Some(*bf),
                needed@ == self.needed_pieces(),
                n == self.lengths.total_pieces,
                needed@.len() == n,
                bf@.len() == n,
                p <= n,
                forall|q: int| 0 <= q < p ==> !(#[trigger] needed@[q] && bf@[q]),
            decreases n - p,
        {
            if needed[p as usize] && bf[p as usize] {
                return Some(ValidPieceIndex(p));
            }
            p = p + 1;
        }
        None
    }

    pub fn am_i_interested_in_peer(&self, handle: PeerHandle) -> (r: bool)
        requires
            self.wf(),
        ensures
            r == (self.live(handle) matches Some(l) && l.bitfield is Some && exists|p: int|
                0 <= p < self.lengths.total_pieces && #[trigger] self.needed_pieces()[p]
                    && l.bitfield.unwrap()@[p]),
    {
        let r = self.get_next_needed_piece(handle);
        proof {
            if let Some(v) = r {
                assert(self.needed_pieces()[v.0 as int]);
            }
        }
        r.is_some()
    }

    /// Reserves for the peer the first piece it announced that is still needed, so that
    /// no other peer picks it. Nothing happens when the peer is not live, chokes us, has
    /// not sent its bitfield or offers nothing needed.
    pub fn reserve_next_needed_piece(&mut self, handle: PeerHandle) -> (r: Option<ValidPieceIndex>)
        requires
            old(self).wf(),
        ensures
            final(self).wf(),
            r matches Some(v) ==> {
                &&& (old(self).live(handle) matches Some(l) && !l.i_am_choked
                    && l.bitfield is Some && is_first_needed(
                    old(self).needed_pieces(),
                    l.bitfield.unwrap()@,
                    v.0 as int,
                ))
                &&& !old(self).inflight()[v.0 as int]
                &&& final(self).inflight() == old(self).inflight().update(v.0 as int, true)
                &&& final(self).needed_pieces() == old(self).needed_pieces().update(
                    v.0 as int,
                    false,
                )
                &&& final(self).have() == old(self).have()
                &&& final(self).locked.chunks.chunk_status@ == old(self).locked.chunks.chunk_status@
                &&& final(self).locked.peers.states == old(self).locked.peers.states
                &&& final(self).stats == old(self).stats
            },
            r is None ==> *final(self) == *old(self) && match old(self).live(handle) {
                Some(l) => l.i_am_choked || match l.bitfield {
                    Some(b) => forall|p: int|
                        0 <= p < old(self).lengths.total_pieces ==> !(
                        #[trigger] old(self).needed_pieces()[p] && b@[p]),
                    None => true,
                },
                None => true,
            },
    {
        match self.am_i_choked(handle) {
            None => return None,
            Some(true) => return None,
            Some(false) => {},
        }
        let v = match self.get_next_needed_piece(handle) {
            Some(v) => v,
            None => return None,
        };
        let ghost before = *self;
        self.locked.peers.inflight_pieces.set(v.0 as usize, true);
        self.locked.chunks.reserve_needed_piece(v);
        proof {
            let p = v.0 as int;
            assert(before.needed_pieces()[p]);
            assert(before.have()[p] as int + before.needed_pieces()[p] as int
                + before.inflight()[p] as int == before.selected@[p] as int);
            assert forall|q: int| 0 <= q < self.lengths.total_pieces implies (
            #[trigger] self.have()[q] as int) + (self.needed_pieces()[q] as int) + (
            self.inflight()[q] as int) == (self.selected@[q] as int) by {
                assert(before.have()[q] as int + before.needed_pieces()[q] as int
                    + before.inflight()[q] as int == before.selected@[q] as int);
            }
            let s = self.locked.peers.states@;
            assert forall|i: int| 0 <= i < s.len()
                implies ((#[trigger] s[i]).1 matches PeerState::Live(
                l,
            ) ==> self.live_ok(l)) by {
                assert(s[i] == before.locked.peers.states@[i]);
                if let PeerState::Live(l) = s[i].1 {
                    assert(before.live_ok(l));
                    assert forall|k: int| 0 <= k < l.inflight_requests@.len()
                        implies self.inflight()[(#[trigger] l.inflight_requests@[k]).piece.0 as int] by {
                        assert(before.inflight()[l.inflight_requests@[k].piece.0 as int]);
                    }
                }
            }
        }
        Some(v)
    }

    /// What `wf` says of the live state of one peer.
    pub proof fn lemma_live_ok(&self, h: PeerHandle)
        requires
            self.wf(),
        ensures
            self.live(h) matches Some(l) ==> self.live_ok(l),
    {
        let s = self.locked.peers.states@;
        lemma_lookup(s, h);
        if exists|i: int| 0 <= i < s.len() && s[i].0 == h {
            let i = choose|i: int| 0 <= i < s.len() && s[i].0 == h;
            assert(self.locked.peers.state(h) == Some(s[i].1));
        }
    }

    /// Removes every request for `piece` from every live peer.
    fn clear_requests_for_piece(&mut self, piece: u32)
        requires
            old(self).wf(),
        ensures
            final(self).wf(),
            final(self).locked.chunks == old(self).locked.chunks,
            final(self).locked.peers.inflight_pieces == old(self).locked.peers.inflight_pieces,
            final(self).locked.peers.seen_peers == old(self).locked.peers.seen_peers,
            final(self).stats == old(self).stats,
            final(self).lengths == old(self).lengths,
            final(self).piece_hashes == old(self).piece_hashes,
            final(self).needed == old(self).needed,
            final(self).selected == old(self).selected,
            final(self).credit == old(self).credit,
            final(self).locked.peers.states@.len() == old(self).locked.peers.states@.len(),
            forall|a: int|
                0 <= a < final(self).locked.peers.states@.len()
                    ==> (#[trigger] final(self).locked.peers.states@[a]).0
                    == old(self).locked.peers.states@[a].0 && without_piece(
                    old(self).locked.peers.states@[a].1,
                    final(self).locked.peers.states@[a].1,
                    piece as int,
                ),
            forall|g: PeerHandle|
                #[trigger] final(self).locked.peers.state(g).is_none()
                    == old(self).locked.peers.state(
                    g,
                ).is_none(),
    {
        let mut i: usize = 0;
        while i < self.locked.peers.states.len()
            invariant
                self.wf(),
                self.locked.chunks == old(self).locked.chunks,
                self.locked.peers.inflight_pieces == old(self).locked.peers.inflight_pieces,
                self.locked.peers.seen_peers == old(self).locked.peers.seen_peers,
                self.stats == old(self).stats,
                self.lengths == old(self).lengths,
                self.piece_hashes == old(self).piece_hashes,
                self.needed == old(self).needed,
                self.selected == old(self).selected,
                self.credit == old(self).credit,
                self.locked.peers.states@.len() == old(self).locked.peers.states@.len(),
                i <= self.locked.peers.states@.len(),
                forall|a: int|
                    0 <= a < self.locked.peers.states@.len()
                        ==> (#[trigger] self.locked.peers.states@[a]).0
                        == old(self).locked.peers.states@[a].0,
                forall|a: int|
                    0 <= a < i ==> without_piece(
                        old(self).locked.peers.states@[a].1,
                        #[trigger] self.locked.peers.states@[a].1,
                        piece as int,
                    ),
                forall|a: int|
                    i <= a < self.locked.peers.states@.len()
                        ==> #[trigger] self.locked.peers.states@[a]
                        == old(self).locked.peers.states@[a],
            decreases self.locked.peers.states@.len() - i,
        {
            if let PeerState::Live(_) = &self.locked.peers.states[i].1 {
                let ghost before = *self;
                let key = self.locked.peers.states[i].0;
                let st = self.locked.peers.swap_state(i, PeerState::Connecting(key));
                if let PeerState::Live(mut l) = st {
                    let ghost lold = l;
                    let kept = requests_without_piece(&l.inflight_requests, piece);
                    l.inflight_requests = kept;
                    self.locked.peers.swap_state(i, PeerState::Live(l));
                    proof {
                        assert(self.locked.peers.states@ =~= before.locked.peers.states@.update(
                            i as int,
                            (before.locked.peers.states@[i as int].0,
                                self.locked.peers.states@[i as int].1),
                        ));
                        assert(before.live_ok(lold));
                        assert forall|k: int| 0 <= k < l.inflight_requests@.len()
                            implies before.lengths.valid_piece(
                            (#[trigger] l.inflight_requests@[k]).piece.0 as int,
                        ) && before.inflight()[l.inflight_requests@[k].piece.0 as int] by {
                            assert(l.inflight_requests@.contains(l.inflight_requests@[k]));
                            let m = choose|m: int| 0 <= m < lold.inflight_requests@.len()
                                && lold.inflight_requests@[m] == l.inflight_requests@[k];
                            assert(lold.inflight_requests@[m] == l.inflight_requests@[k]);
                        }
                        lemma_states_update_wf(before, *self, i as int);
                    }
                }
            }
            i = i + 1;
        }
        proof {
            assert forall|g: PeerHandle|
                #[trigger] self.locked.peers.state(g).is_none()
                    == old(self).locked.peers.state(g).is_none() by {
                let s = self.locked.peers.states@;
                let o = old(self).locked.peers.states@;
                lemma_lookup(s, g);
                lemma_lookup(o, g);
                if exists|a: int| 0 <= a < s.len() && s[a].0 == g {
                    let a = choose|a: int| 0 <= a < s.len() && s[a].0 == g;
                    assert(self.locked.peers.state(g) == Some(s[a].1));
                    assert(old(self).locked.peers.state(g) == Some(o[a].1));
                } else {
                    assert forall|a: int| 0 <= a < o.len() implies #[trigger] o[a].0 != g by {
                        assert(s[a].0 == o[a].0);
                    }
                }
            }
        }
    }

    /// Returns a piece to the pool: needed again, its chunks forgotten, no peer owing it.
    fn release_piece(&mut self, piece: ValidPieceIndex, chunk: u32)
        requires
            old(self).wf(),
            old(self).lengths.valid_piece(piece.0 as int),
            old(self).inflight()[piece.0 as int] || old(self).needed_pieces()[piece.0 as int],
        ensures
            final(self).wf(),
            final(self).have() == old(self).have(),
            final(self).needed_pieces() == old(self).needed_pieces().update(piece.0 as int, true),
            final(self).inflight() == old(self).inflight().update(piece.0 as int, false),
            final(self).locked.chunks.chunk_status@
                == old(self).locked.chunks.cleared_chunks(piece.0 as int),
            final(self).stats == old(self).stats,
            final(self).lengths == old(self).lengths,
            final(self).credit@ == old(self).credit@.update(piece.0 as int, 0),
            final(self).selected == old(self).selected,
            final(self).locked.peers.seen_peers == old(self).locked.peers.seen_peers,
            forall|g: PeerHandle|
                #[trigger] final(self).locked.peers.state(g).is_none()
                    == old(self).locked.peers.state(
                    g,
                ).is_none(),
            forall|a: int|
                0 <= a < final(self).locked.peers.states@.len()
                    ==> ((#[trigger] final(self).locked.peers.states@[a]).1 matches PeerState::Live(l) ==> !l.has_request_for(piece.0 as int)),
    {
        let ghost p = piece.0 as int;
        self.clear_requests_for_piece(piece.0);
        proof {
            assert(self.have()[p] as int + self.needed_pieces()[p] as int
                + self.inflight()[p] as int == self.selected@[p] as int);
        }
        let ghost before = *self;
        self.locked.chunks.mark_chunk_request_cancelled(piece, chunk);
        self.locked.peers.inflight_pieces.set(piece.0 as usize, false);
        self.credit = Ghost(self.credit@.update(p, 0));
        proof {
            lemma_cleared_piece_sums(before.locked.chunks, p);
            lemma_sum_int_update(before.credit@, p, 0);
            assert forall|q: int| 0 <= q < self.lengths.total_pieces
                implies #[trigger] self.credit@[q] >= piece_sum(
                self.lengths,
                self.locked.chunks.chunk_status@,
                q,
            ) && self.credit@[q] >= 0 by {
                assert(before.credit@[q] >= piece_sum(before.lengths,
                    before.locked.chunks.chunk_status@, q));
            }
            assert forall|g: PeerHandle|
                #[trigger] self.locked.peers.state(g).is_none()
                    == old(self).locked.peers.state(g).is_none() by {
                assert(before.locked.peers.state(g).is_none()
                    == old(self).locked.peers.state(g).is_none());
            }
            assert forall|q: int| 0 <= q < self.lengths.total_pieces implies (
            #[trigger] self.have()[q] as int) + (self.needed_pieces()[q] as int) + (
            self.inflight()[q] as int) == (self.selected@[q] as int) by {
                assert(before.have()[q] as int + before.needed_pieces()[q] as int
                    + before.inflight()[q] as int == before.selected@[q] as int);
            }
            let s = self.locked.peers.states@;
            assert forall|i: int| 0 <= i < s.len()
                implies ((#[trigger] s[i]).1 matches PeerState::Live(
                l,
            ) ==> self.live_ok(l) && !l.has_request_for(p)) by {
                if let PeerState::Live(l) = s[i].1 {
                    assert(before.live_ok(l));
                    let lo = old(self).locked.peers.states@[i].1;
                    assert(without_piece(lo, s[i].1, p));
                    assert forall|k: int| 0 <= k < l.inflight_requests@.len()
                        implies self.lengths.valid_piece(
                        (#[trigger] l.inflight_requests@[k]).piece.0 as int,
                    ) && self.inflight()[l.inflight_requests@[k].piece.0 as int] by {
                        assert(l.inflight_requests@.contains(l.inflight_requests@[k]));
                        assert(before.inflight()[l.inflight_requests@[k].piece.0 as int]);
                    }
                    if l.has_request_for(p) {
                        let k = choose|k: int| 0 <= k < l.inflight_requests@.len()
                            && #[trigger] l.inflight_requests@[k].piece.0 == p;
                        assert(l.inflight_requests@.contains(l.inflight_requests@[k]));
                    }
                }
            }
        }
    }

    /// Removes a peer. Every piece it owed chunks of goes back to the pool. Returns whether
    /// the peer was registered.
    pub fn drop_peer(&mut self, handle: PeerHandle) -> (r: bool)
        requires
            old(self).wf(),
        ensures
            final(self).wf(),
            r == old(self).locked.peers.state(handle).is_some(),
            !r ==> *final(self) == *old(self),
            final(self).locked.peers.state(handle).is_none(),
            final(self).have() == old(self).have(),
            final(self).stats == old(self).stats,
            final(self).selected == old(self).selected,
            final(self).locked.peers.seen_peers == old(self).locked.peers.seen_peers,
            old(self).live(handle) matches Some(l) ==> forall|k: int|
                0 <= k < l.inflight_requests@.len() ==> {
                    let p = (#[trigger] l.inflight_requests@[k]).piece.0 as int;
                    &&& final(self).needed_pieces()[p]
                    &&& !final(self).inflight()[p]
                    &&& final(self).piece_chunks_clear(p)
                },
            forall|q: int|
                0 <= q < old(self).lengths.total_pieces && !old(self).owes(handle, q)
                    ==> #[trigger] final(self).needed_pieces()[q] == old(self).needed_pieces()[q]
                    && final(self).inflight()[q] == old(self).inflight()[q],
            forall|g: PeerHandle|
                g != handle ==> (#[trigger] final(self).locked.peers.state(g)).is_none()
                    == old(self).locked.peers.state(g).is_none(),
    {
        let ghost before = *self;
        let st = match self.locked.peers.drop_peer(handle) {
            None => return false,
            Some(st) => st,
        };
        proof {
            let s = self.locked.peers.states@;
            assert forall|i: int| 0 <= i < s.len()
                implies ((#[trigger] s[i]).1 matches PeerState::Live(
                l,
            ) ==> self.live_ok(l)) by {
                assert(before.locked.peers.states@.contains(s[i]));
                let j = choose|j: int| 0 <= j < before.locked.peers.states@.len()
                    && before.locked.peers.states@[j] == s[i];
                assert(before.locked.peers.states@[j] == s[i]);
            }
            before.lemma_live_ok(handle);
        }
        if let PeerState::Live(l) = st {
            let mut k: usize = 0;
            while k < l.inflight_requests.len()
                invariant
                    self.wf(),
                    before.wf(),
                    before.live_ok(l),
                    self.lengths == before.lengths,
                    self.have() == before.have(),
                    self.stats == before.stats,
                    self.locked.peers.state(handle).is_none(),
                    forall|g: PeerHandle|
                        g != handle ==> (#[trigger] self.locked.peers.state(g)).is_none()
                            == before.locked.peers.state(g).is_none(),
                    self.selected == before.selected,
                    self.locked.peers.seen_peers == before.locked.peers.seen_peers,
                    before.live(handle) == Some(l),
                    forall|q: int|
                        0 <= q < before.lengths.total_pieces && !before.owes(handle, q)
                            ==> #[trigger] self.needed_pieces()[q] == before.needed_pieces()[q]
                            && self.inflight()[q] == before.inflight()[q],
                    forall|m: int|
                        0 <= m < k ==> {
                            let p = (#[trigger] l.inflight_requests@[m]).piece.0 as int;
                            &&& !self.inflight()[p]
                            &&& self.piece_chunks_clear(p)
                        },
                    k <= l.inflight_requests@.len(),
                    forall|m: int|
                        k <= m < l.inflight_requests@.len()
                            ==> self.inflight()[(#[trigger] l.inflight_requests@[m]).piece.0 as int]
                            || self.needed_pieces()[l.inflight_requests@[m].piece.0 as int],
                    forall|m: int|
                        0 <= m < k ==> self.needed_pieces()[(#[trigger] l.inflight_requests@[m]).piece.0 as int],
                decreases l.inflight_requests@.len() - k,
            {
                let req = l.inflight_requests[k];
                let ghost mid = *self;
                self.release_piece(req.piece, req.chunk);
                proof {
                    assert forall|m: int|
                        k + 1 <= m < l.inflight_requests@.len()
                            implies self.inflight()[(#[trigger] l.inflight_requests@[m]).piece.0 as int]
                            || self.needed_pieces()[l.inflight_requests@[m].piece.0 as int] by {
                        assert(mid.inflight()[l.inflight_requests@[m].piece.0 as int]
                            || mid.needed_pieces()[l.inflight_requests@[m].piece.0 as int]);
                    }
                    assert forall|m: int|
                        0 <= m < k + 1 implies self.needed_pieces()[(#[trigger] l.inflight_requests@[m]).piece.0 as int] by {
                        if m < k {
                            assert(mid.needed_pieces()[l.inflight_requests@[m].piece.0 as int]);
                        }
                    }
                    let pk = req.piece.0 as int;
                    assert(l.inflight_requests@[k as int] == req);
                    assert(before.owes(handle, pk));
                    assert forall|q: int|
                        0 <= q < before.lengths.total_pieces && !before.owes(handle, q)
                            implies #[trigger] self.needed_pieces()[q] == before.needed_pieces()[q]
                            && self.inflight()[q] == before.inflight()[q] by {
                        assert(q != pk);
                        assert(mid.needed_pieces()[q] == before.needed_pieces()[q]);
                    }
                    assert forall|m: int| 0 <= m < k + 1 implies {
                        let p = (#[trigger] l.inflight_requests@[m]).piece.0 as int;
                        &&& !self.inflight()[p]
                        &&& self.piece_chunks_clear(p)
                    } by {
                        let p = l.inflight_requests@[m].piece.0 as int;
                        assert(before.lengths.valid_piece(p));
                        lemma_piece_facts(self.lengths, p);
                        assert forall|c: int| 0 <= c < self.lengths.spec_chunks_in_piece(p)
                            implies !self.locked.chunks.chunk_status@[#[trigger] self.lengths.spec_chunk_id(p, c)] by {
                            lemma_chunk_ids_disjoint(self.lengths, p, c, p, c);
                            if m < k {
                                assert(!mid.locked.chunks.chunk_status@[self.lengths.spec_chunk_id(p, c)]);
                            }
                        }
                        if m < k {
                            assert(!mid.inflight()[p]);
                        }
                    }
                }
                k = k + 1;
            }
        }
        true
    }

    /// Records that `chunk` was requested from the peer. Allowed only for a live peer and a
    /// piece that some peer has reserved; a repeated request is recorded once.
    pub fn request_chunk(&mut self, handle: PeerHandle, chunk: &ChunkInfo) -> (r: bool)
        requires
            old(self).wf(),
            old(self).lengths.valid_chunk(*chunk),
        ensures
            final(self).wf(),
            final(self).locked.chunks == old(self).locked.chunks,
            final(self).inflight() == old(self).inflight(),
            final(self).stats == old(self).stats,
            r == (old(self).live(handle) is Some
                && old(self).inflight()[chunk.piece_index.0 as int]),
            !r ==> final(self).locked.peers == old(self).locked.peers,
            r ==> (final(self).live(handle) matches Some(l) && l.inflight_requests@.contains(
                InflightRequest { piece: chunk.piece_index, chunk: chunk.chunk_index },
            )),
            forall|h: PeerHandle|
                h != handle ==> final(self).locked.peers.state(h)
                    == old(self).locked.peers.state(h),
    {
        let i = match self.locked.peers.find(handle) {
            Some(i) => i,
            None => return false,
        };
        if let PeerState::Connecting(_) = &self.locked.peers.states[i].1 {
            return false;
        }
        if !self.locked.peers.inflight_pieces[chunk.piece_index.0 as usize] {
            return false;
        }
        let req = InflightRequest::from(chunk);
        let ghost before = *self;
        let st = self.locked.peers.swap_state(i, PeerState::Connecting(handle));
        match st {
            PeerState::Live(mut l) => {
                let ghost lold = l;
                if !contains_request(&l.inflight_requests, &req) {
                    l.inflight_requests.push(req);
                }
                assert(l.inflight_requests@.contains(req)) by {
                    if lold.inflight_requests@.contains(req) {
                    } else {
                        assert(l.inflight_requests@[l.inflight_requests@.len() - 1] == req);
                    }
                }
                self.locked.peers.swap_state(i, PeerState::Live(l));
                proof {
                    assert(self.locked.peers.states@ =~= before.locked.peers.states@.update(
                        i as int,
                        (before.locked.peers.states@[i as int].0,
                            self.locked.peers.states@[i as int].1),
                    ));
                    assert(before.live_ok(lold));
                    assert forall|k: int| 0 <= k < l.inflight_requests@.len()
                        implies before.lengths.valid_piece(
                        (#[trigger] l.inflight_requests@[k]).piece.0 as int,
                    ) && before.inflight()[l.inflight_requests@[k].piece.0 as int] by {
                        if k < lold.inflight_requests@.len() {
                            assert(l.inflight_requests@[k] == lold.inflight_requests@[k]);
                        }
                    }
                    lemma_states_update_wf(before, *self, i as int);
                }
                true
            },
            PeerState::Connecting(_) => false,
        }
    }

    /// Takes a chunk that the peer delivered and that was written to storage. The peer must
    /// owe it; otherwise nothing changes and the result is `None`. The request is settled,
    /// the bytes are counted as fetched and the chunk is marked received.
    pub fn on_chunk_received(&mut self, handle: PeerHandle,
        chunk: &ChunkInfo) -> (r: Option<PieceOutcome>)
        requires
            old(self).wf(),
            old(self).lengths.valid_chunk(*chunk),
        ensures
            final(self).wf(),
            final(self).have() == old(self).have(),
            final(self).needed_pieces() == old(self).needed_pieces(),
            final(self).inflight() == old(self).inflight(),
            final(self).stats.have == old(self).stats.have,
            final(self).stats.downloaded_and_checked == old(self).stats.downloaded_and_checked,
            final(self).stats.uploaded == old(self).stats.uploaded,
            r is None <==> !(old(self).live(handle) matches Some(l)
                && l.inflight_requests@.contains(
                InflightRequest { piece: chunk.piece_index, chunk: chunk.chunk_index },
            )),
            r is None ==> *final(self) == *old(self),
            r matches Some(o) ==> {
                &&& o != PieceOutcome::AlreadyHave
                &&& (o == PieceOutcome::PieceComplete
                    <==> final(self).locked.chunks.piece_chunks_done(
                    chunk.piece_index.0 as int,
                ))
                &&& final(self).locked.chunks.chunk_status@
                    == old(self).locked.chunks.chunk_status@.update(
                    old(self).lengths.spec_chunk_id(chunk.piece_index.0 as int,
                        chunk.chunk_index as int),
                    true,
                )
                &&& final(self).stats.fetched_bytes == if old(self).stats.fetched_bytes
                    <= u64::MAX - chunk.size {
                    old(self).stats.fetched_bytes + chunk.size
                } else {
                    u64::MAX as int
                }
            },
            forall|h: PeerHandle|
                h != handle ==> final(self).locked.peers.state(h)
                    == old(self).locked.peers.state(h),
    {
        let i = match self.locked.peers.find(handle) {
            Some(i) => i,
            None => return None,
        };
        if let PeerState::Connecting(_) = &self.locked.peers.states[i].1 {
            return None;
        }
        let req = InflightRequest::from(chunk);
        let ghost before = *self;
        let k = match &self.locked.peers.states[i].1 {
            PeerState::Live(l) => match position_of_request(&l.inflight_requests, &req) {
                Some(k) => k,
                None => return None,
            },
            PeerState::Connecting(_) => return None,
        };
        let st = self.locked.peers.swap_state(i, PeerState::Connecting(handle));
        match st {
            PeerState::Live(mut l) => {
                let ghost lold = l;
                l.inflight_requests.remove(k);
                self.locked.peers.swap_state(i, PeerState::Live(l));
                proof {
                    assert(self.locked.peers.states@ =~= before.locked.peers.states@.update(
                        i as int,
                        (before.locked.peers.states@[i as int].0,
                            self.locked.peers.states@[i as int].1),
                    ));
                    assert(before.live_ok(lold));
                    assert forall|j: int| 0 <= j < l.inflight_requests@.len()
                        implies before.lengths.valid_piece(
                        (#[trigger] l.inflight_requests@[j]).piece.0 as int,
                    ) && before.inflight()[l.inflight_requests@[j].piece.0 as int] by {
                        if j < k {
                            assert(l.inflight_requests@[j] == lold.inflight_requests@[j]);
                        } else {
                            assert(l.inflight_requests@[j] == lold.inflight_requests@[j + 1]);
                        }
                    }
                    lemma_states_update_wf(before, *self, i as int);
                    let p = chunk.piece_index.0 as int;
                    lemma_set_chunk_sums(self.locked.chunks, *chunk);
                    assert(lold.inflight_requests@[k as int] == req);
                    assert(before.inflight()[p]);
                    assert(before.have()[p] as int + before.needed_pieces()[p] as int
                        + before.inflight()[p] as int == before.selected@[p] as int);
                }
                if self.stats.fetched_bytes <= u64::MAX - chunk.size as u64 {
                    self.stats.fetched_bytes = self.stats.fetched_bytes + chunk.size as u64;
                } else {
                    self.stats.fetched_bytes = u64::MAX;
                }
                let ghost mid = *self;
                let outcome = self.locked.chunks.mark_chunk_downloaded(chunk);
                let ghost p = chunk.piece_index.0 as int;
                self.credit = Ghost(self.credit@.update(p, self.credit@[p] + chunk.size));
                proof {
                    lemma_sum_int_update(mid.credit@, p, mid.credit@[p] + chunk.size);
                    assert forall|q: int| 0 <= q < self.lengths.total_pieces
                        implies #[trigger] self.credit@[q] >= piece_sum(
                        self.lengths,
                        self.locked.chunks.chunk_status@,
                        q,
                    ) && self.credit@[q] >= 0 by {
                        assert(mid.credit@[q] >= piece_sum(mid.lengths,
                            mid.locked.chunks.chunk_status@, q));
                    }
                }
                Some(outcome)
            },
            PeerState::Connecting(_) => None,
        }
    }

    /// A hash check result for `p` is taken: the piece is wanted and not had, and a valid
    /// result comes with every chunk of the piece received.
    pub open spec fn takes_check(&self, p: int, valid: bool) -> bool {
        &&& !self.have()[p]
        &&& self.needed_pieces()[p] || self.inflight()[p]
        &&& valid ==> self.locked.chunks.piece_chunks_done(p)
    }

    /// Takes the result of the hash check of a piece whose chunks all arrived. A valid
    /// piece becomes had and is counted; an invalid one goes back to the pool with its
    /// chunks forgotten. Either way no peer owes it any more. A piece that is had already,
    /// that this session does not want, or whose chunks were forgotten since (a valid
    /// result then speaks of no download), is left alone. Returns whether the piece became
    /// had, in which case peers are to be told.
    pub fn on_piece_checked(&mut self, piece: ValidPieceIndex, valid: bool) -> (r: bool)
        requires
            old(self).wf(),
            old(self).lengths.valid_piece(piece.0 as int),
        ensures
            final(self).wf(),
            final(self).stats.fetched_bytes == old(self).stats.fetched_bytes,
            final(self).stats.uploaded == old(self).stats.uploaded,
            final(self).stats.downloaded_and_checked >= old(self).stats.downloaded_and_checked,
            !old(self).takes_check(piece.0 as int, valid) ==> !r && *final(self) == *old(self),
            old(self).takes_check(piece.0 as int, valid) ==> {
                &&& r == valid
                &&& final(self).inflight() == old(self).inflight().update(piece.0 as int, false)
                &&& final(self).have() == old(self).have().update(piece.0 as int, valid)
                &&& final(self).needed_pieces() == old(self).needed_pieces().update(piece.0 as int,
                    !valid)
                &&& final(self).stats.downloaded_and_checked
                    == old(self).stats.downloaded_and_checked + if valid {
                    old(self).lengths.spec_piece_length(piece.0 as int)
                } else {
                    0
                }
                &&& forall|a: int| 0 <= a < final(self).locked.peers.states@.len()
                    ==> ((#[trigger] final(self).locked.peers.states@[a]).1 matches PeerState::Live(l) ==> !l.has_request_for(piece.0 as int))
            },
    {
        let p = piece.0 as usize;
        if self.locked.chunks.have[p] || !(self.locked.chunks.needed[p] || self.locked.peers.inflight_pieces[p]) {
            return false;
        }
        if valid && !self.locked.chunks.is_piece_complete(piece) {
            return false;
        }
        if valid {
            proof {
                let l = self.lengths;
                lemma_piece_facts(l, p as int);
                lemma_piece_sum_full(l, self.locked.chunks.chunk_status@, p as int,
                    l.spec_chunks_in_piece(p as int));
                assert(self.credit@[p as int] >= piece_sum(l, self.locked.chunks.chunk_status@,
                    p as int));
                lemma_sum_int_update(self.credit@, p as int, 0);
            }
            self.release_piece(piece, 0);
            let ghost before = *self;
            let len = self.lengths.piece_length(piece);
            proof {
                lemma_have_bytes_update(self.lengths, self.have(), p as int);
                lemma_have_bytes_le_total(self.lengths, self.have().update(p as int, true));
            }
            self.locked.chunks.mark_piece_have(piece);
            self.locked.peers.inflight_pieces.set(p, false);
            self.stats.have = self.stats.have + len as u64;
            self.stats.downloaded_and_checked = self.stats.downloaded_and_checked + len as u64;
            proof {
                assert(self.locked.chunks.have@ =~= old(self).have().update(p as int, true));
                assert(self.locked.chunks.needed@ =~= old(self).needed_pieces().update(p as int,
                    false));
                assert(self.locked.peers.inflight_pieces@ =~= old(self).inflight().update(p as int,
                    false));
                assert forall|q: int| 0 <= q < self.lengths.total_pieces implies (
                #[trigger] self.have()[q] as int) + (self.needed_pieces()[q] as int) + (
                self.inflight()[q] as int) == (self.selected@[q] as int) by {
                    assert(before.have()[q] as int + before.needed_pieces()[q] as int
                        + before.inflight()[q] as int == before.selected@[q] as int);
                }
                let s = self.locked.peers.states@;
                assert forall|i: int| 0 <= i < s.len()
                    implies ((#[trigger] s[i]).1 matches PeerState::Live(
                    l,
                ) ==> self.live_ok(l)) by {
                    assert(s[i] == before.locked.peers.states@[i]);
                }
            }
            true
        } else {
            self.release_piece(piece, 0);
            false
        }
    }

    /// The reserved pieces below `k` that `l` owes nothing of, ascending.
    pub open spec fn candidates(&self, l: LivePeerState, k: int) -> Seq<ValidPieceIndex>
        decreases k,
    {
        if k <= 0 {
            seq![]
        } else {
            let rest = self.candidates(l, k - 1);
            if self.inflight()[k - 1] && !l.has_request_for(k - 1) {
                rest.push(ValidPieceIndex((k - 1) as u32))
            } else {
                rest
            }
        }
    }

    /// A piece is a candidate below `k` exactly when it is reserved and not owed by `l`.
    pub proof fn lemma_candidates(&self, l: LivePeerState, k: int)
        requires
            0 <= k <= u32::MAX + 1,
        ensures
            forall|p: int|
                0 <= p < k ==> (self.inflight()[p] && !l.has_request_for(p)
                    <==> #[trigger] self.candidates(l, k).contains(ValidPieceIndex(p as u32))),
            forall|a: int| 0 <= a < self.candidates(l, k).len() ==> (#[trigger] self.candidates(l,
                k)[a]).0 < k,
        decreases k,
    {
        if k > 0 {
            self.lemma_candidates(l, k - 1);
            let rest = self.candidates(l, k - 1);
            let all = self.candidates(l, k);
            assert forall|p: int| 0 <= p < k implies (self.inflight()[p] && !l.has_request_for(p)
                <==> #[trigger] all.contains(ValidPieceIndex(p as u32))) by {
                if all.contains(ValidPieceIndex(p as u32)) {
                    let j = choose|j: int| 0 <= j < all.len() && all[j]
                        == ValidPieceIndex(p as u32);
                    if j < rest.len() {
                        assert(rest[j] == all[j]);
                        assert(rest.contains(ValidPieceIndex(p as u32)));
                    }
                }
                if p < k - 1 && rest.contains(ValidPieceIndex(p as u32)) {
                    let j = choose|j: int| 0 <= j < rest.len() && rest[j]
                        == ValidPieceIndex(p as u32);
                    assert(all[j] == rest[j]);
                }
                if p == k - 1 && self.inflight()[p] && !l.has_request_for(p) {
                    assert(all[all.len() - 1] == ValidPieceIndex(p as u32));
                }
                if p < k - 1 && all.contains(ValidPieceIndex(p as u32)) {
                    let j = choose|j: int| 0 <= j < all.len() && all[j]
                        == ValidPieceIndex(p as u32);
                    if j == rest.len() {
                        assert(all[j].0 == k - 1);
                    }
                }
            }
            assert forall|a: int| 0 <= a < all.len() implies (#[trigger] all[a]).0 < k by {
                if a < rest.len() {
                    assert(all[a] == rest[a]);
                }
            }
        }
    }

    /// Pieces that some peer has reserved and that this peer owes nothing of, ascending;
    /// `None` when the peer is not live.
    pub fn steal_candidates(&self, handle: PeerHandle) -> (r: Option<Vec<ValidPieceIndex>>)
        requires
            self.wf(),
        ensures
            r is None <==> self.live(handle) is None,
            r matches Some(v) ==> self.live(handle) matches Some(l) && v@ == self.candidates(l,
                self.lengths.total_pieces as int),
    {
        let l = match self.locked.peers.get_live(handle) {
            Some(l) => l,
            None => return None,
        };
        let n = self.lengths.total_pieces;
        let mut v: Vec<ValidPieceIndex> = Vec::new();
        let mut p: u32 = 0;
        while p < n
            invariant
                self.wf(),
                self.live(handle) == Some(*l),
                n == self.lengths.total_pieces,
                p <= n,
                v@ == self.candidates(*l, p as int),
            decreases n - p,
        {
            if self.locked.peers.inflight_pieces[p as usize] && !l.has_request_for_piece(p) {
                v.push(ValidPieceIndex(p));
            }
            p = p + 1;
        }
        Some(v)
    }

    /// The steal candidate at position `choice` modulo their number.
    pub fn try_steal_piece_with(&self, handle: PeerHandle,
        choice: usize) -> (r: Option<ValidPieceIndex>)
        requires
            self.wf(),
        ensures
            r == match self.live(handle) {
                None => None,
                Some(l) => {
                    let c = self.candidates(l, self.lengths.total_pieces as int);
                    if c.len() == 0 {
                        None
                    } else {
                        Some(c[choice as int % c.len() as int])
                    }
                },
            },
    {
        let v = match self.steal_candidates(handle) {
            Some(v) => v,
            None => return None,
        };
        if v.len() == 0 {
            return None;
        }
        let idx = choice % v.len();
        Some(v[idx])
    }

    /// A piece, drawn uniformly at random among the steal candidates, that this peer can
    /// help finish.
    pub fn try_steal_piece(&self, handle: PeerHandle) -> (r: Option<ValidPieceIndex>)
        requires
            self.wf(),
        ensures
            r is None <==> (self.live(handle) matches Some(l) ==> forall|p: int|
                0 <= p < self.lengths.total_pieces ==> !(#[trigger] self.inflight()[p]
                    && !l.has_request_for(p))),
            r matches Some(v) ==> self.live(handle) matches Some(l)
                && v.0 < self.lengths.total_pieces && self.inflight()[v.0 as int]
                && !l.has_request_for(v.0 as int),
    {
        let n = match self.steal_candidates(handle) {
            Some(v) => v.len(),
            None => return None,
        };
        proof {
            let l = self.live(handle).unwrap();
            self.lemma_candidates(l, self.lengths.total_pieces as int);
            let c = self.candidates(l, self.lengths.total_pieces as int);
            if c.len() > 0 {
                assert(c.contains(c[0]));
                assert(c[0] == ValidPieceIndex(c[0].0 as u32));
            } else {
                assert forall|p: int| 0 <= p < self.lengths.total_pieces implies !(
                #[trigger] self.inflight()[p] && !l.has_request_for(p)) by {
                    assert(!c.contains(ValidPieceIndex(p as u32)));
                }
            }
        }
        if n == 0 {
            return None;
        }
        let choice = random_below(n);
        let r = self.try_steal_piece_with(handle, choice);
        proof {
            let l = self.live(handle).unwrap();
            let c = self.candidates(l, self.lengths.total_pieces as int);
            let x = c[choice as int % c.len() as int];
            assert(c.contains(x));
            assert(x == ValidPieceIndex(x.0 as u32));
        }
        r
    }

    /// Whether `data`, the stored bytes of `piece`, has the piece's length and hash.
    pub fn check_piece_blocking(&self, piece: ValidPieceIndex, data: &Vec<u8>) -> (r: bool)
        requires
            self.wf(),
            self.lengths.valid_piece(piece.0 as int),
        ensures
            r == (data@.len() == self.lengths.spec_piece_length(piece.0 as int) && sha1_of(data@)
                == self.piece_hashes@[piece.0 as int]@),
    {
        let len = self.lengths.piece_length(piece);
        if data.len() != len as usize {
            return false;
        }
        check_piece(data, &self.piece_hashes[piece.0 as usize])
    }

    pub fn get_uploaded(&self) -> (r: u64)
        ensures
            r == self.stats.uploaded,
    {
        self.stats.uploaded
    }

    pub fn get_downloaded(&self) -> (r: u64)
        ensures
            r == self.stats.downloaded_and_checked,
    {
        self.stats.downloaded_and_checked
    }

    /// Bytes still wanted: what was needed at the start less what was verified since.
    pub fn get_left_to_download(&self) -> (r: u64)
        requires
            self.wf(),
        ensures
            r == self.needed - self.stats.downloaded_and_checked,
    {
        proof {
            let n = self.lengths.total_pieces as nat;
            let h0 = self.initially_had@;
            let gained = Seq::new(n, |p: int| self.have()[p] && !h0[p]);
            let wanted = Seq::new(n, |p: int| self.selected@[p] && !h0[p]);
            lemma_have_bytes_split(self.lengths, self.have(), h0);
            assert forall|p: int| 0 <= p < n && #[trigger] gained[p] implies wanted[p] by {
                assert(self.have()[p] as int + self.needed_pieces()[p] as int
                    + self.inflight()[p] as int == self.selected@[p] as int);
            }
            lemma_have_bytes_mono(self.lengths, gained, wanted);
        }
        self.needed - self.stats.downloaded_and_checked
    }

    /// Counts bytes served to peers; the counter stops at its maximum.
    pub fn add_uploaded(&mut self, bytes: u32)
        ensures
            final(self).stats.uploaded == if old(self).stats.uploaded <= u64::MAX - bytes {
                old(self).stats.uploaded + bytes
            } else {
                u64::MAX as int
            },
            final(self).stats.have == old(self).stats.have,
            final(self).stats.downloaded_and_checked == old(self).stats.downloaded_and_checked,
            final(self).stats.fetched_bytes == old(self).stats.fetched_bytes,
            final(self).locked == old(self).locked,
            final(self).lengths == old(self).lengths,
            final(self).piece_hashes == old(self).piece_hashes,
            final(self).needed == old(self).needed,
            final(self).selected == old(self).selected,
    {
        if self.stats.uploaded <= u64::MAX - bytes as u64 {
            self.stats.uploaded = self.stats.uploaded + bytes as u64;
        } else {
            self.stats.uploaded = u64::MAX;
        }
    }

    pub fn peer_stats(&self) -> (r: AggregatePeerStats)
        ensures
            r.connecting + r.live == self.locked.peers.states@.len(),
            r.live == count_live(self.locked.peers.states@),
    {
        self.locked.peers.stats()
    }
}

/// Every piece the session is concerned with is exactly one of had, needed or reserved.
/// So the three counts add up to the number of such pieces, and to the number of all
/// pieces when every piece is wanted or had.
pub proof fn lemma_piece_accounting(st: &TorrentState)
    requires
        st.wf(),
    ensures
        count_true(st.have()) + count_true(st.needed_pieces()) + count_true(st.inflight())
            == count_true(st.selected@),
        (forall|p: int| 0 <= p < st.lengths.total_pieces ==> #[trigger] st.selected@[p])
            ==> count_true(st.have()) + count_true(st.needed_pieces()) + count_true(st.inflight())
            == st.lengths.total_pieces,
{
    assert forall|i: int| 0 <= i < st.selected@.len() implies (st.have()[i] as int) + (
    st.needed_pieces()[i] as int) + (st.inflight()[i] as int)
        == (#[trigger] st.selected@[i]) as int by {
        assert(st.have()[i] as int + st.needed_pieces()[i] as int + st.inflight()[i] as int
            == st.selected@[i] as int);
    }
    lemma_count_true_disjoint3(st.have(), st.needed_pieces(), st.inflight(), st.selected@);
    if forall|p: int| 0 <= p < st.lengths.total_pieces ==> #[trigger] st.selected@[p] {
        lemma_count_true_all(st.selected@);
    }
}

/// Bytes fetched are never fewer than bytes downloaded and verified: every verified piece
/// was fetched in full since its chunks were last forgotten.
pub proof fn lemma_fetched_covers_downloaded(st: &TorrentState)
    requires
        st.wf(),
    ensures
        st.stats.downloaded_and_checked <= st.stats.fetched_bytes,
{
    if st.stats.fetched_bytes != u64::MAX {
        assert forall|i: int| 0 <= i < st.credit@.len() implies #[trigger] st.credit@[i] >= 0 by {}
        lemma_sum_int_nonneg(st.credit@);
    }
}

/// A reserved piece is not needed, so no reservation can pick it again until it is
/// released: reservation is exclusive.
pub proof fn lemma_reservation_exclusive(st: &TorrentState, p: int, bf: Seq<bool>)
    requires
        st.wf(),
        0 <= p < st.lengths.total_pieces,
        st.inflight()[p],
    ensures
        !st.needed_pieces()[p],
        !st.have()[p],
        !is_first_needed(st.needed_pieces(), bf, p),
{
    assert(st.have()[p] as int + st.needed_pieces()[p] as int + st.inflight()[p] as int
        == st.selected@[p] as int);
}

/// Changing only the choke flags or the bitfield (to one of the right length) of one
/// peer's entries keeps the coordinator well formed.
proof fn lemma_states_reshape_wf(a: TorrentState, b: TorrentState, h: PeerHandle)
    requires
        a.wf(),
        b.locked.peers.wf(),
        PeerStates::changed_only_at(a.locked.peers.states@, b.locked.peers.states@, h),
        forall|i: int| 0 <= i < b.locked.peers.states@.len() && a.locked.peers.states@[i].0
            == h ==> match (a.locked.peers.states@[i].1, #[trigger] b.locked.peers.states@[i].1) {
            (PeerState::Live(l), PeerState::Live(l2)) => l2.inflight_requests
                == l.inflight_requests && (l2.bitfield matches Some(bf) ==> bf@.len()
                == a.lengths.total_pieces),
            (PeerState::Connecting(_), PeerState::Connecting(_)) => true,
            _ => false,
        },
        b.locked.peers.inflight_pieces == a.locked.peers.inflight_pieces,
        b.locked.chunks == a.locked.chunks,
        b.lengths == a.lengths,
        b.stats == a.stats,
        b.piece_hashes == a.piece_hashes,
        b.selected == a.selected,
        b.credit == a.credit,
        b.initially_had == a.initially_had,
        b.needed == a.needed,
    ensures
        b.wf(),
{
    let s = b.locked.peers.states@;
    assert forall|j: int| 0 <= j < s.len() implies ((#[trigger] s[j]).1 matches PeerState::Live(
        l,
    ) ==> b.live_ok(l)) by {
        let o = a.locked.peers.states@[j];
        assert(a.locked.peers.states@[j] == o);
        if o.0 != h {
            assert(s[j] == o);
        } else {
            if let PeerState::Live(l2) = s[j].1 {
                if let PeerState::Live(l) = o.1 {
                    assert(a.live_ok(l));
                }
            }
        }
    }
}

/// Forgetting the chunks of `p` empties its sum and leaves the other pieces' sums alone.
proof fn lemma_cleared_piece_sums(ct: ChunkTracker, p: int)
    requires
        ct.wf(),
        ct.lengths.valid_piece(p),
    ensures
        piece_sum(ct.lengths, ct.cleared_chunks(p), p) == 0,
        forall|q: int|
            0 <= q < ct.lengths.total_pieces && q != p ==> #[trigger] piece_sum(ct.lengths,
                ct.cleared_chunks(p), q)
                == piece_sum(ct.lengths, ct.chunk_status@, q),
{
    let l = ct.lengths;
    let m = l.chunks_per_piece as int;
    let cl = ct.cleared_chunks(p);
    lemma_piece_facts(l, p);
    assert forall|c: int| 0 <= c < l.spec_chunks_in_piece(p)
        implies !cl[#[trigger] l.spec_chunk_id(p, c)] by {
        lemma_chunk_ids_disjoint(l, p, c, p, c);
        crate::lengths::lemma_chunk_facts(l, p, c);
    }
    lemma_chunk_sum_zero(l, cl, p, l.spec_chunks_in_piece(p));
    assert forall|q: int| 0 <= q < l.total_pieces && q != p implies #[trigger] piece_sum(l, cl, q)
        == piece_sum(l, ct.chunk_status@, q) by {
        lemma_piece_facts(l, q);
        assert forall|c: int| 0 <= c < l.spec_chunks_in_piece(q)
            implies cl[#[trigger] l.spec_chunk_id(q, c)]
            == ct.chunk_status@[l.spec_chunk_id(q, c)] by {
            lemma_chunk_ids_disjoint(l, q, c, q, c);
            crate::lengths::lemma_chunk_facts(l, q, c);
            if q < p {
                assert((q + 1) * m <= p * m) by (nonlinear_arith)
                    requires q + 1 <= p, m >= 0;
            } else {
                assert((p + 1) * m <= q * m) by (nonlinear_arith)
                    requires p + 1 <= q, m >= 0;
            }
        }
        lemma_chunk_sum_frame(l, cl, ct.chunk_status@, q, l.spec_chunks_in_piece(q));
    }
}

/// Marking a chunk received adds at most its size to its piece's sum and leaves the other
/// pieces' sums alone.
proof fn lemma_set_chunk_sums(ct: ChunkTracker, chunk: ChunkInfo)
    requires
        ct.wf(),
        ct.lengths.valid_chunk(chunk),
    ensures
        ({
            let l = ct.lengths;
            let p = chunk.piece_index.0 as int;
            let cs2 = ct.chunk_status@.update(l.spec_chunk_id(p, chunk.chunk_index as int), true);
            &&& piece_sum(l, cs2, p) <= piece_sum(l, ct.chunk_status@, p) + chunk.size
            &&& forall|q: int|
                0 <= q < l.total_pieces && q != p ==> #[trigger] piece_sum(l, cs2, q) == piece_sum(
                    l,
                    ct.chunk_status@,
                    q,
                )
        }),
{
    let l = ct.lengths;
    let p = chunk.piece_index.0 as int;
    let c0 = chunk.chunk_index as int;
    let id = l.spec_chunk_id(p, c0);
    let cs2 = ct.chunk_status@.update(id, true);
    lemma_piece_facts(l, p);
    crate::lengths::lemma_chunk_facts(l, p, c0);
    lemma_chunk_sum_set(l, ct.chunk_status@, p, c0, l.spec_chunks_in_piece(p));
    assert forall|q: int| 0 <= q < l.total_pieces && q != p implies #[trigger] piece_sum(l, cs2, q)
        == piece_sum(l, ct.chunk_status@, q) by {
        lemma_piece_facts(l, q);
        assert forall|c: int| 0 <= c < l.spec_chunks_in_piece(q)
            implies cs2[#[trigger] l.spec_chunk_id(q, c)]
            == ct.chunk_status@[l.spec_chunk_id(q, c)] by {
            lemma_chunk_ids_disjoint(l, q, c, p, c0);
        }
        lemma_chunk_sum_frame(l, cs2, ct.chunk_status@, q, l.spec_chunks_in_piece(q));
    }
}

/// Replacing the state at one position keeps the coordinator well formed, if the new
/// state is well formed.
proof fn lemma_states_update_wf(a: TorrentState, b: TorrentState, i: int)
    requires
        a.wf(),
        b.locked.peers.wf(),
        0 <= i < a.locked.peers.states@.len(),
        b.locked.peers.states@ == a.locked.peers.states@.update(
            i,
            (a.locked.peers.states@[i].0, b.locked.peers.states@[i].1),
        ),
        b.locked.peers.inflight_pieces == a.locked.peers.inflight_pieces,
        b.locked.chunks == a.locked.chunks,
        b.lengths == a.lengths,
        b.stats == a.stats,
        b.piece_hashes == a.piece_hashes,
        b.selected == a.selected,
        b.credit == a.credit,
        b.initially_had == a.initially_had,
        b.needed == a.needed,
        b.locked.peers.states@[i].1 matches PeerState::Live(l) ==> b.live_ok(l),
    ensures
        b.wf(),
{
    let s = b.locked.peers.states@;
    assert forall|j: int| 0 <= j < s.len() implies ((#[trigger] s[j]).1 matches PeerState::Live(
        l,
    ) ==> b.live_ok(l)) by {
        if j != i {
            assert(s[j] == a.locked.peers.states@[j]);
        }
    }
}

/// The requests whose piece is not `piece`.
fn requests_without_piece(reqs: &Vec<InflightRequest>, piece: u32) -> (r: Vec<InflightRequest>)
    ensures
        forall|x: InflightRequest| #[trigger] r@.contains(x) <==> (reqs@.contains(x)
            && x.piece.0 != piece),
{
    let mut kept: Vec<InflightRequest> = Vec::new();
    let mut k: usize = 0;
    while k < reqs.len()
        invariant
            k <= reqs@.len(),
            forall|j: int| 0 <= j < kept@.len() ==> reqs@.contains(#[trigger] kept@[j])
                && kept@[j].piece.0 != piece,
            forall|m: int| 0 <= m < k && (#[trigger] reqs@[m]).piece.0 != piece
                ==> kept@.contains(reqs@[m]),
        decreases reqs@.len() - k,
    {
        let x = reqs[k];
        if x.piece.0 != piece {
            let ghost prev = kept@;
            kept.push(x);
            proof {
                assert(reqs@[k as int] == x);
                assert(kept@[kept@.len() - 1] == x);
                assert forall|m: int| 0 <= m < k + 1
                    && (#[trigger] reqs@[m]).piece.0 != piece implies kept@.contains(reqs@[m]) by {
                    if m < k {
                        let j = choose|j: int| 0 <= j < prev.len() && prev[j] == reqs@[m];
                        assert(kept@[j] == reqs@[m]);
                    }
                }
                assert forall|j: int| 0 <= j < kept@.len()
                    implies reqs@.contains(#[trigger] kept@[j]) && kept@[j].piece.0 != piece by {
                    if j < prev.len() {
                        assert(kept@[j] == prev[j]);
                    }
                }
            }
        }
        k = k + 1;
    }
    proof {
        assert forall|x: InflightRequest| #[trigger] kept@.contains(x) <==> (reqs@.contains(x)
            && x.piece.0 != piece) by {
            if reqs@.contains(x) && x.piece.0 != piece {
                let m = choose|m: int| 0 <= m < reqs@.len() && reqs@[m] == x;
                assert(reqs@[m].piece.0 != piece);
            }
            if kept@.contains(x) {
                let j = choose|j: int| 0 <= j < kept@.len() && kept@[j] == x;
                assert(reqs@.contains(kept@[j]));
            }
        }
    }
    kept
}

/// Relies on rand 0.8's `Rng::gen_range` over `0..n` on the thread-local generator: a
/// value drawn uniformly below `n`; it panics on an empty range, which `requires` excludes.
#[verifier::external_body]
fn random_below(n: usize) -> (r: usize)
    requires
        n > 0,
    ensures
        r < n,
{
    rand::Rng::gen_range(&mut rand::thread_rng(), 0..n)
}

fn contains_request(reqs: &Vec<InflightRequest>, req: &InflightRequest) -> (r: bool)
    ensures
        r == reqs@.contains(*req),
{
    match position_of_request(reqs, req) {
        Some(_) => true,
        None => false,
    }
}

fn position_of_request(reqs: &Vec<InflightRequest>, req: &InflightRequest) -> (r: Option<usize>)
    ensures
        r matches Some(k) ==> k < reqs@.len() && reqs@[k as int] == *req,
        r is None <==> !reqs@.contains(*req),
{
    let mut k: usize = 0;
    while k < reqs.len()
        invariant
            k <= reqs@.len(),
            forall|j: int| 0 <= j < k ==> #[trigger] reqs@[j] != *req,
        decreases reqs@.len() - k,
    {
        if reqs[k] == *req {
            return Some(k);
        }
        k = k + 1;
    }
    None
}

/// Total length of the pieces set in `bits`.
fn bytes_of(lengths: &Lengths, bits: &Vec<bool>) -> (r: u64)
    requires
        lengths.wf(),
        bits@.len() == lengths.total_pieces,
    ensures
        r == have_bytes(*lengths, bits@),
{
    let mut acc: u64 = 0;
    let mut i: u32 = 0;
    while i < lengths.total_pieces
        invariant
            lengths.wf(),
            bits@.len() == lengths.total_pieces,
            i <= lengths.total_pieces,
            acc == have_bytes(*lengths, bits@.take(i as int)),
        decreases lengths.total_pieces - i,
    {
        let ghost next = bits@.take(i + 1);
        assert(next.drop_last() =~= bits@.take(i as int));
        proof {
            lemma_have_bytes_bounded(*lengths, next);
            crate::accounting::lemma_prefix_le_total(*lengths, (i + 1) as nat);
        }
        if bits[i as usize] {
            acc = acc + lengths.piece_length(ValidPieceIndex(i)) as u64;
        }
        i = i + 1;
    }
    assert(bits@.take(i as int) =~= bits@);
    acc
}

} // verus!
