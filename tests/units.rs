use rqbit_core::bitfield::bitfield_from_bytes;
use rqbit_core::chunk_tracker::{ChunkTracker, PieceOutcome};
use rqbit_core::files::file_segments;
use rqbit_core::lengths::{Lengths, ValidPieceIndex, CHUNK_LENGTH};
use rqbit_core::peer_state::{InflightRequest, PeerAddr, PeerStates};
use rqbit_core::piece_check::{check_piece, digest_matches};
use rqbit_core::torrent_state::TorrentState;

fn peer(n: u8) -> PeerAddr {
    PeerAddr { ip: n as u128, port: 51413 }
}

#[test]
fn lengths_geometry() {
    assert!(Lengths::new(0, 16384).is_none());
    assert!(Lengths::new(100, 0).is_none());
    let l = Lengths::new(100_000, 32768).unwrap();
    assert_eq!(l.total_pieces, 4);
    assert_eq!(l.chunks_per_piece, 2);
    let last = l.validate_piece_index(3).unwrap();
    assert_eq!(l.piece_length(last), 100_000 - 3 * 32768);
    assert_eq!(l.piece_offset(last), 3 * 32768);
    assert_eq!(l.chunks_per_piece(last), 1);
    assert!(l.validate_piece_index(4).is_none());
    let first = ValidPieceIndex(0);
    let chunks = l.chunk_info_iter(first);
    assert_eq!(chunks.len(), 2);
    assert_eq!(chunks[1].offset, CHUNK_LENGTH);
    assert_eq!(chunks[1].absolute_offset, 16384);
    assert_eq!(chunks[1].size, CHUNK_LENGTH);
    assert_eq!(l.chunk_id(&chunks[1]), 1);
}

#[test]
fn short_last_piece_chunks_reconstruct_it() {
    let l = Lengths::new(3 * 40000 + 20000, 40000).unwrap();
    let last = l.validate_piece_index(3).unwrap();
    let chunks = l.chunk_info_iter(last);
    assert_eq!(chunks.iter().map(|c| c.size).collect::<Vec<_>>(), vec![16384, 3616]);
    let piece: Vec<u8> = (0..20000u32).map(|i| (i % 251) as u8).collect();
    let mut stored = vec![0u8; 20000];
    for c in &chunks {
        let off = c.offset as usize;
        stored[off..off + c.size as usize].copy_from_slice(&piece[off..off + c.size as usize]);
    }
    assert_eq!(stored, piece);
}

#[test]
fn received_data_validation() {
    let l = Lengths::new(40000, 32768).unwrap();
    assert!(l.chunk_info_from_received_data(0, 16384, 16384).is_some());
    assert!(l.chunk_info_from_received_data(0, 100, 16384).is_none());
    assert!(l.chunk_info_from_received_data(0, 32768, 16384).is_none());
    assert!(l.chunk_info_from_received_data(1, 0, 16384).is_none());
    assert_eq!(l.chunk_info_from_received_data(1, 0, 40000 - 32768).unwrap().size, 7232);
    assert!(l.chunk_info_from_received_data(2, 0, 1).is_none());
}

#[test]
fn bitfield_decoding() {
    assert_eq!(bitfield_from_bytes(&vec![0b1010_0000], 3), Some(vec![true, false, true]));
    // wrong length
    assert_eq!(bitfield_from_bytes(&vec![0b1010_0000, 0], 3), None);
    assert_eq!(bitfield_from_bytes(&vec![], 3), None);
    // padding bit set: 8k + r pieces with r = 3
    assert_eq!(bitfield_from_bytes(&vec![0xff, 0b1110_0000], 11).map(|b| b.len()), Some(11));
    assert_eq!(bitfield_from_bytes(&vec![0xff, 0b1111_0000], 11), None);
    assert_eq!(bitfield_from_bytes(&vec![0xff, 0b1110_0001], 11), None);
    assert_eq!(bitfield_from_bytes(&vec![0x80], 8), Some(vec![true, false, false, false, false, false, false, false]));
}

#[test]
fn bad_bitfield_changes_nothing() {
    let l = Lengths::new(32768, 16384).unwrap();
    let mut st = TorrentState::new(l, vec![[0; 20]; 2], [0; 20], [0; 20], vec![false; 2], &vec![true; 2]);
    let a = peer(1);
    st.add_if_not_seen(a);
    // not live yet
    assert!(!st.update_bitfield_from_vec(a, &vec![0b1100_0000]));
    st.set_peer_live(a, [3; 20]);
    assert!(!st.update_bitfield_from_vec(a, &vec![0b1100_0000, 0]));
    assert!(!st.update_bitfield_from_vec(a, &vec![0b1110_0000]));
    assert!(st.locked.peers.get_live(a).unwrap().bitfield.is_none());
    assert!(st.update_bitfield_from_vec(a, &vec![0b0100_0000]));
    assert_eq!(st.locked.peers.get_live(a).unwrap().bitfield, Some(vec![false, true]));
}

#[test]
fn chunk_tracker_outcomes() {
    let l = Lengths::new(65536, 32768).unwrap();
    let mut ct = ChunkTracker::new(l, vec![true, false], &vec![true, true]);
    assert_eq!(ct.get_needed_pieces(), &vec![false, true]);
    let first = ValidPieceIndex(0);
    let second = ValidPieceIndex(1);
    assert!(ct.is_piece_have(first));
    assert_eq!(ct.mark_chunk_downloaded(&l.chunk_info(first, 0)), PieceOutcome::AlreadyHave);
    ct.reserve_needed_piece(second);
    assert_eq!(ct.get_needed_pieces(), &vec![false, false]);
    assert_eq!(ct.mark_chunk_downloaded(&l.chunk_info(second, 1)), PieceOutcome::NotLastChunk);
    assert_eq!(ct.mark_chunk_downloaded(&l.chunk_info(second, 0)), PieceOutcome::PieceComplete);
    assert!(ct.is_piece_complete(second));
    ct.mark_chunk_request_cancelled(second, 0);
    assert_eq!(ct.get_needed_pieces(), &vec![false, true]);
    assert!(!ct.is_piece_complete(second));
    ct.mark_chunk_request_cancelled(first, 0);
    assert_eq!(ct.get_needed_pieces(), &vec![false, true]);
    ct.mark_piece_have(second);
    assert!(ct.is_piece_have(second));
    assert_eq!(ct.get_needed_pieces(), &vec![false, false]);
}

#[test]
fn peer_registry() {
    let mut ps = PeerStates::new(4);
    let a = peer(1);
    assert_eq!(ps.add_if_not_seen(a), Some(a));
    assert_eq!(ps.add_if_not_seen(a), None);
    assert_eq!(ps.add(a), None);
    let s = ps.stats();
    assert_eq!((s.connecting, s.live), (1, 0));
    assert!(ps.get_live(a).is_none());
    assert!(ps.drop_peer(a).is_some());
    assert!(ps.drop_peer(a).is_none());
    assert_eq!(ps.add_if_not_seen(a), None);
    assert!(ps.seen(a));
    assert_eq!(ps.add(peer(2)), Some(peer(2)));
    assert_eq!(ps.find(peer(2)), Some(0));
}

#[test]
fn choke_interest_and_counters() {
    let l = Lengths::new(49152, 16384).unwrap();
    let mut st = TorrentState::new(l, vec![[0; 20]; 3], [0; 20], [0; 20], vec![false, true, false], &vec![true, true, false]);
    assert_eq!(st.needed, 16384);
    assert_eq!(st.stats.have, 16384);
    let a = peer(5);
    assert_eq!(st.am_i_choked(a), None);
    st.add_if_not_seen(a);
    st.set_peer_live(a, [9; 20]);
    assert_eq!(st.am_i_choked(a), Some(true));
    assert!(st.update_bitfield_from_vec(a, &vec![0b1110_0000]));
    assert!(st.am_i_interested_in_peer(a));
    assert_eq!(st.get_next_needed_piece(a), Some(ValidPieceIndex(0)));
    // choked: no reservation
    assert_eq!(st.reserve_next_needed_piece(a), None);
    st.mark_i_am_choked(a, false);
    assert_eq!(st.reserve_next_needed_piece(a), Some(ValidPieceIndex(0)));
    assert!(!st.am_i_interested_in_peer(a));
    assert_eq!(st.steal_candidates(a), Some(vec![ValidPieceIndex(0)]));
    assert_eq!(st.try_steal_piece_with(a, 5), Some(ValidPieceIndex(0)));
    st.add_uploaded(100);
    assert_eq!(st.get_uploaded(), 100);
    let c = l.chunk_info(ValidPieceIndex(0), 0);
    // not requested: refused
    assert_eq!(st.on_chunk_received(a, &c), None);
    assert!(st.request_chunk(a, &c));
    assert!(st.locked.peers.get_live(a).unwrap().inflight_requests.contains(&InflightRequest::from(&c)));
    assert_eq!(st.on_chunk_received(a, &c), Some(PieceOutcome::PieceComplete));
    assert!(st.on_piece_checked(ValidPieceIndex(0), true));
    assert_eq!(st.get_downloaded(), 16384);
    assert_eq!(st.get_left_to_download(), 0);
    // a piece outside the selection is left alone
    assert!(!st.on_piece_checked(ValidPieceIndex(2), true));
    let ps = st.peer_stats();
    assert_eq!((ps.connecting, ps.live), (0, 1));
}

#[test]
fn piece_accounting_counts() {
    let l = Lengths::new(4 * 16384, 16384).unwrap();
    let mut st = TorrentState::new(l, vec![[0; 20]; 4], [0; 20], [0; 20], vec![false, true, false, false], &vec![true; 4]);
    let a = peer(1);
    st.add_if_not_seen(a);
    st.set_peer_live(a, [1; 20]);
    st.mark_i_am_choked(a, false);
    st.update_bitfield_from_vec(a, &vec![0xf0]);
    st.reserve_next_needed_piece(a);
    st.reserve_next_needed_piece(a);
    let count = |v: &Vec<bool>| v.iter().filter(|b| **b).count();
    let total = count(&st.locked.chunks.have) + count(&st.locked.chunks.needed) + count(&st.locked.peers.inflight_pieces);
    assert_eq!(total, 4);
    assert_eq!(count(&st.locked.peers.inflight_pieces), 2);
}

#[test]
fn hashing_and_segments() {
    let data = b"abc".to_vec();
    let digest = sha1_smol::Sha1::from(&data).digest().bytes();
    assert!(check_piece(&data, &digest));
    assert!(!check_piece(&b"abd".to_vec(), &digest));
    assert_eq!(digest[0], 0xa9);
    assert!(digest_matches(&digest, &digest));
    assert!(!digest_matches(&digest, &[0; 20]));
    assert!(file_segments(&vec![10, 10], 15, 6).is_none());
    assert_eq!(file_segments(&vec![10, 0, 10], 5, 10).unwrap().len(), 2);
    assert_eq!(file_segments(&vec![10], 3, 0), Some(vec![]));
}

#[test]
fn peer_registry_live_fields() {
    let mut ps = PeerStates::new(3);
    let a = peer(4);
    ps.add_if_not_seen(a);
    assert_eq!(ps.mark_i_am_choked(a, false), None);
    assert_eq!(ps.update_bitfield_from_vec(a, vec![true, false, true]), None);
    assert!(!ps.remove_inflight_piece(ValidPieceIndex(1)));
    ps.inflight_pieces[1] = true;
    assert!(ps.remove_inflight_piece(ValidPieceIndex(1)));
    assert_eq!(ps.inflight_pieces, vec![false; 3]);
}

#[test]
fn torrent_choke_and_bitfield_delegation() {
    let l = Lengths::new(3 * 16384, 16384).unwrap();
    let mut st = TorrentState::new(l, vec![[0; 20]; 3], [0; 20], [0; 20], vec![false; 3], &vec![true; 3]);
    let a = peer(6);
    st.add_if_not_seen(a);
    st.set_peer_live(a, [4; 20]);
    assert_eq!(st.locked.peers.update_bitfield_from_vec(a, vec![true, true, false]), Some(None));
    assert_eq!(st.locked.peers.mark_i_am_choked(a, false), Some(true));
    assert_eq!(st.mark_i_am_choked(a, true), Some(false));
    assert_eq!(st.am_i_choked(a), Some(true));
    assert_eq!(st.get_next_needed_piece(a), Some(ValidPieceIndex(0)));
    // set_peer_live on a live peer leaves it alone
    st.set_peer_live(a, [5; 20]);
    assert_eq!(st.locked.peers.get_live(a).unwrap().peer_id, [4; 20]);
}

#[test]
fn steal_choice_by_position() {
    let l = Lengths::new(4 * 16384, 16384).unwrap();
    let mut st = TorrentState::new(l, vec![[0; 20]; 4], [0; 20], [0; 20], vec![false; 4], &vec![true; 4]);
    let (a, b) = (peer(1), peer(2));
    for h in [a, b] {
        st.add_if_not_seen(h);
        st.set_peer_live(h, [0; 20]);
        st.mark_i_am_choked(h, false);
        assert!(st.update_bitfield_from_vec(h, &vec![0b1011_0000]));
    }
    assert_eq!(st.reserve_next_needed_piece(a), Some(ValidPieceIndex(0)));
    assert_eq!(st.reserve_next_needed_piece(a), Some(ValidPieceIndex(2)));
    assert_eq!(st.reserve_next_needed_piece(b), Some(ValidPieceIndex(3)));
    let c3 = l.chunk_info(ValidPieceIndex(3), 0);
    assert!(st.request_chunk(b, &c3));
    assert_eq!(st.steal_candidates(b), Some(vec![ValidPieceIndex(0), ValidPieceIndex(2)]));
    assert_eq!(st.try_steal_piece_with(b, 0), Some(ValidPieceIndex(0)));
    assert_eq!(st.try_steal_piece_with(b, 3), Some(ValidPieceIndex(2)));
    let s = st.try_steal_piece(b).unwrap();
    assert!(s == ValidPieceIndex(0) || s == ValidPieceIndex(2));
    assert_eq!(st.try_steal_piece_with(peer(9), 0), None);
}

#[test]
fn lengths_limits() {
    // more pieces than a u32 can index
    assert!(Lengths::new(u64::MAX, 1).is_none());
    // pieces times chunks per piece must fit a u32
    assert!(Lengths::new(1 << 50, 1 << 24).is_none());
    let l = Lengths::new(1 << 40, 1 << 24).unwrap();
    assert_eq!(l.total_pieces, 1 << 16);
    assert_eq!(l.chunks_per_piece, 1 << 10);
    let one = Lengths::new(1, 16384).unwrap();
    assert_eq!(one.total_pieces, 1);
    assert_eq!(one.chunk_info_iter(ValidPieceIndex(0))[0].size, 1);
}

#[test]
fn drop_keeps_seen_and_ignores_unknown() {
    let l = Lengths::new(2 * 16384, 16384).unwrap();
    let mut st = TorrentState::new(l, vec![[0; 20]; 2], [0; 20], [0; 20], vec![false; 2], &vec![true; 2]);
    assert!(st.locked.peers.seen_peers.is_empty());
    assert!(!st.drop_peer(peer(3)));
    assert_eq!(st.locked.chunks.needed, vec![true, true]);
    let a = peer(3);
    st.add_if_not_seen(a);
    assert_eq!(st.locked.peers.seen_peers, vec![a]);
    assert!(st.drop_peer(a));
    assert_eq!(st.locked.peers.seen_peers, vec![a]);
    assert_eq!(st.locked.chunks.needed, vec![true, true]);
    assert_eq!(st.locked.peers.inflight_pieces, vec![false, false]);
}
