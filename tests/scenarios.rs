use rqbit_core::chunk_tracker::PieceOutcome;
use rqbit_core::files::{file_segments, FileSegment};
use rqbit_core::lengths::{ChunkInfo, Lengths, ValidPieceIndex};
use rqbit_core::peer_state::PeerAddr;
use rqbit_core::piece_check::check_piece;
use rqbit_core::torrent_state::TorrentState;

fn sha1(data: &[u8]) -> [u8; 20] {
    sha1_smol::Sha1::from(data).digest().bytes()
}

fn addr(last: u8) -> PeerAddr {
    PeerAddr { ip: 0xffff_7f00_0000 | last as u128, port: 6881 }
}

fn piece_bytes(len: usize, seed: u8) -> Vec<u8> {
    (0..len).map(|i| (i as u8).wrapping_mul(31).wrapping_add(seed)).collect()
}

fn live_peer(st: &mut TorrentState, a: PeerAddr, bitfield: &Vec<u8>) {
    assert_eq!(st.add_if_not_seen(a), Some(a));
    st.set_peer_live(a, [7u8; 20]);
    assert_eq!(st.mark_i_am_choked(a, false), Some(true));
    assert!(st.update_bitfield_from_vec(a, bitfield));
}

fn two_piece_torrent(data: &[Vec<u8>]) -> TorrentState {
    let lengths = Lengths::new(32768, 16384).unwrap();
    let hashes = data.iter().map(|d| sha1(d)).collect();
    TorrentState::new(lengths, hashes, [1u8; 20], [2u8; 20], vec![false, false], &vec![true, true])
}

/// Reserves, requests and delivers the single chunk of a piece of the two-piece torrent.
fn deliver_one_chunk_piece(st: &mut TorrentState, a: PeerAddr) -> ValidPieceIndex {
    let piece = st.reserve_next_needed_piece(a).unwrap();
    let chunks = st.lengths.chunk_info_iter(piece);
    assert_eq!(chunks.len(), 1);
    assert!(st.request_chunk(a, &chunks[0]));
    assert_eq!(st.on_chunk_received(a, &chunks[0]), Some(PieceOutcome::PieceComplete));
    piece
}

#[test]
fn full_download_of_two_pieces() {
    let data = vec![piece_bytes(16384, 1), piece_bytes(16384, 2)];
    let mut st = two_piece_torrent(&data);
    let a = addr(1);
    live_peer(&mut st, a, &vec![0b1100_0000]);
    let mut haves = Vec::new();
    for _ in 0..2 {
        let piece = deliver_one_chunk_piece(&mut st, a);
        let stored = &data[piece.get() as usize];
        assert!(st.check_piece_blocking(piece, stored));
        if st.on_piece_checked(piece, true) {
            haves.push(piece.get());
        }
    }
    assert_eq!(st.locked.chunks.have, vec![true, true]);
    assert_eq!(st.get_downloaded(), 32768);
    assert_eq!(st.stats.have, 32768);
    assert_eq!(haves, vec![0, 1]);
    assert_eq!(st.get_left_to_download(), 0);
    assert_eq!(st.reserve_next_needed_piece(a), None);
}

#[test]
fn corrupt_second_piece_is_rearmed() {
    let data = vec![piece_bytes(16384, 1), piece_bytes(16384, 2)];
    let mut st = two_piece_torrent(&data);
    let a = addr(1);
    live_peer(&mut st, a, &vec![0b1100_0000]);
    let first = deliver_one_chunk_piece(&mut st, a);
    assert!(st.check_piece_blocking(first, &data[0]));
    assert!(st.on_piece_checked(first, true));
    let second = deliver_one_chunk_piece(&mut st, a);
    let mut corrupt = data[1].clone();
    corrupt[100] ^= 0xff;
    let ok = st.check_piece_blocking(second, &corrupt);
    assert!(!ok);
    assert!(!st.on_piece_checked(second, ok));
    assert_eq!(st.locked.chunks.have, vec![true, false]);
    assert_eq!(st.locked.chunks.needed, vec![false, true]);
    assert_eq!(st.locked.peers.inflight_pieces, vec![false, false]);
    assert_eq!(st.stats.fetched_bytes, 32768);
    assert_eq!(st.get_downloaded(), 16384);
}

#[test]
fn second_peer_steals_reserved_piece() {
    let data = vec![piece_bytes(16384, 1), piece_bytes(16384, 2)];
    let mut st = two_piece_torrent(&data);
    let (a, b) = (addr(1), addr(2));
    live_peer(&mut st, a, &vec![0b1000_0000]);
    live_peer(&mut st, b, &vec![0b1000_0000]);
    assert_eq!(st.reserve_next_needed_piece(a), Some(ValidPieceIndex(0)));
    assert_eq!(st.reserve_next_needed_piece(b), None);
    let stolen = st.try_steal_piece(b);
    assert_eq!(stolen, Some(ValidPieceIndex(0)));
    let chunk = st.lengths.chunk_info(stolen.unwrap(), 0);
    assert!(st.request_chunk(b, &chunk));
    assert!(st.request_chunk(a, &chunk));
    assert_eq!(st.try_steal_piece(b), None);
}

#[test]
fn disconnect_mid_piece_returns_it() {
    let lengths = Lengths::new(6 * 65536, 65536).unwrap();
    let hashes = vec![[0u8; 20]; 6];
    let mut st = TorrentState::new(lengths, hashes, [1; 20], [2; 20], vec![false; 6], &vec![true; 6]);
    let a = addr(1);
    live_peer(&mut st, a, &vec![0b0000_0100]);
    let piece = st.reserve_next_needed_piece(a).unwrap();
    assert_eq!(piece, ValidPieceIndex(5));
    assert!(!st.locked.chunks.needed[5]);
    let chunks = st.lengths.chunk_info_iter(piece);
    assert_eq!(chunks.len(), 4);
    for c in &chunks {
        assert!(st.request_chunk(a, c));
    }
    for c in &chunks[..3] {
        assert_eq!(st.on_chunk_received(a, c), Some(PieceOutcome::NotLastChunk));
    }
    assert!(st.drop_peer(a));
    assert!(st.locked.chunks.needed[5]);
    assert!(!st.locked.peers.inflight_pieces[5]);
    assert!(st.locked.chunks.chunk_status[20..24].iter().all(|b| !*b));
    assert!(st.locked.peers.states.is_empty());
    assert!(!st.drop_peer(a));
    assert_eq!(st.add_if_not_seen(a), None);
}

#[test]
fn chunk_spanning_two_files() {
    let lens = vec![10000u64, 30000];
    let segs = file_segments(&lens, 0, 16384).unwrap();
    assert_eq!(
        segs,
        vec![
            FileSegment { file_index: 0, file_offset: 0, len: 10000 },
            FileSegment { file_index: 1, file_offset: 0, len: 6384 },
        ]
    );
    // Write through the segments into in-memory files, then read back.
    let data = piece_bytes(16384, 9);
    let mut files = vec![vec![0u8; 10000], vec![0u8; 30000]];
    let mut at = 0usize;
    for s in &segs {
        let off = s.file_offset as usize;
        let n = s.len as usize;
        files[s.file_index][off..off + n].copy_from_slice(&data[at..at + n]);
        at += n;
    }
    let mut back = Vec::new();
    for s in &segs {
        let off = s.file_offset as usize;
        back.extend_from_slice(&files[s.file_index][off..off + s.len as usize]);
    }
    assert_eq!(back, data);
    assert_eq!(files[1][..6384], data[10000..]);
}

#[test]
fn one_byte_last_piece() {
    let lengths = Lengths::new(16385, 16384).unwrap();
    assert_eq!(lengths.total_pieces, 2);
    let last = lengths.validate_piece_index(1).unwrap();
    let chunks = lengths.chunk_info_iter(last);
    assert_eq!(
        chunks,
        vec![ChunkInfo { piece_index: last, chunk_index: 0, offset: 0, absolute_offset: 16384, size: 1 }]
    );
    let data = vec![0x5au8];
    assert!(check_piece(&data, &sha1(&data)));
    let st = TorrentState::new(lengths, vec![[0; 20], sha1(&data)], [1; 20], [2; 20], vec![false; 2], &vec![true; 2]);
    assert!(st.check_piece_blocking(last, &data));
    assert!(!st.check_piece_blocking(last, &vec![0x5a, 0]));
}
