use piece_exchange::EngineError;
use piece_exchange::hashing::hash_full_file;
use piece_exchange::choke::{choke_peers, select_unchoked};
use piece_exchange::dedup::{DedupCatalog, check_tracker_for_file};
use piece_exchange::delta::{apply, diff};
use piece_exchange::erasure::{decode, encode};
use piece_exchange::orchestrator::{StoreOutcome, store_and_distribute};
use piece_exchange::pieces::{reassemble, split, verify_piece};
use piece_exchange::tracker::{AvailabilityTracker, File, PeerState};

fn sample_bytes(len: usize) -> Vec<u8> {
    (0..len).map(|i| (i % 251) as u8).collect()
}

#[test]
fn split_is_deterministic() {
    let data = sample_bytes(10_000);
    let a = split(&data, 1024).unwrap();
    let b = split(&data, 1024).unwrap();
    assert_eq!(a.len(), b.len());
    for (x, y) in a.iter().zip(b.iter()) {
        assert_eq!(x.meta.index, y.meta.index);
        assert_eq!(x.meta.hash, y.meta.hash);
        assert_eq!(x.meta.size, y.meta.size);
        assert_eq!(x.data, y.data);
    }
}

#[test]
fn split_chunk_layout() {
    let data = sample_bytes(2500);
    let pieces = split(&data, 1024).unwrap();
    assert_eq!(pieces.len(), 3);
    assert_eq!(pieces[0].meta.index, 0);
    assert_eq!(pieces[1].meta.index, 1);
    assert_eq!(pieces[2].meta.index, 2);
    assert_eq!(pieces[0].meta.size, 1024);
    assert_eq!(pieces[1].meta.size, 1024);
    assert_eq!(pieces[2].meta.size, 452);
}

#[test]
fn pieces_are_really_compressed() {
    // highly repetitive input must shrink under the block codec
    let data = vec![7u8; 4096];
    let pieces = split(&data, 1024).unwrap();
    for p in &pieces {
        assert!(p.data.len() < 1024, "piece {} not compressed", p.meta.index);
    }
    assert_eq!(reassemble(&pieces, 1024).unwrap(), data);
}

#[test]
fn reassemble_round_trip_various_lengths() {
    for len in [0usize, 1, 7, 1024, 1025, 4096, 10_000] {
        let data = sample_bytes(len);
        let pieces = split(&data, 1024).unwrap();
        let back = reassemble(&pieces, 1024).unwrap();
        assert_eq!(back, data, "length {len}");
    }
}

#[test]
fn piece_hash_matches_compressed_content() {
    let data = sample_bytes(3000);
    let pieces = split(&data, 1024).unwrap();
    for p in &pieces {
        assert!(verify_piece(&p.data, &p.meta).is_ok());
        let mut corrupted = p.data.clone();
        corrupted.push(0xFF);
        assert_eq!(
            verify_piece(&corrupted, &p.meta),
            Err(EngineError::IntegrityError)
        );
    }
}

#[test]
fn full_file_hash_is_deterministic_sha256() {
    // SHA-256("abc")
    let expected: [u8; 32] = [
        0xba, 0x78, 0x16, 0xbf, 0x8f, 0x01, 0xcf, 0xea, 0x41, 0x41, 0x40, 0xde, 0x5d, 0xae,
        0x22, 0x23, 0xb0, 0x03, 0x61, 0xa3, 0x96, 0x17, 0x7a, 0x9c, 0xb4, 0x10, 0xff, 0x61,
        0xf2, 0x00, 0x15, 0xad,
    ];
    assert_eq!(hash_full_file(b"abc"), expected.to_vec());
    assert_eq!(hash_full_file(b"abc"), hash_full_file(b"abc"));
    assert_ne!(hash_full_file(b"abd"), hash_full_file(b"abc"));
}

#[test]
fn content_hash_is_sha256() {
    // SHA-256("abc")
    let expected: [u8; 32] = [
        0xba, 0x78, 0x16, 0xbf, 0x8f, 0x01, 0xcf, 0xea, 0x41, 0x41, 0x40, 0xde, 0x5d, 0xae,
        0x22, 0x23, 0xb0, 0x03, 0x61, 0xa3, 0x96, 0x17, 0x7a, 0x9c, 0xb4, 0x10, 0xff, 0x61,
        0xf2, 0x00, 0x15, 0xad,
    ];
    let catalog = DedupCatalog::new();
    let tracker = AvailabilityTracker::new();
    let outcome = store_and_distribute(&catalog, &tracker, b"abc", 4, 0, 0).unwrap();
    match outcome {
        StoreOutcome::Stored { record, .. } => assert_eq!(record.content_hash, expected.to_vec()),
        _ => panic!("expected a stored outcome"),
    }
}

#[test]
fn rarest_first_picks_least_held_piece() {
    let data = sample_bytes(2500);
    let pieces = split(&data, 1024).unwrap();
    let metas = pieces.into_iter().map(|p| p.meta).collect::<Vec<_>>();
    let mut file = File::new(metas);
    file.update_peer(&"A".to_string(), 0);
    file.update_peer(&"B".to_string(), 0);
    file.update_peer(&"B".to_string(), 1);
    let next = file.rarest_first_piece(&"C".to_string()).unwrap();
    assert_eq!(next.index, 2);
}

#[test]
fn rarest_first_tie_breaks_on_lower_index() {
    let data = sample_bytes(3 * 512);
    let pieces = split(&data, 512).unwrap();
    let metas: Vec<_> = pieces.into_iter().map(|p| p.meta).collect();
    // all three pieces equally rare (held by nobody): index 0 wins,
    // whatever order the peer reports arrived in
    for order in [[0usize, 1, 2], [2, 1, 0], [1, 2, 0], [2, 0, 1]] {
        let metas2: Vec<_> = metas
            .iter()
            .map(|m| piece_exchange::pieces::PieceMetadata {
                index: m.index,
                hash: m.hash.clone(),
                size: m.size,
            })
            .collect();
        let mut file = File::new(metas2);
        for &ix in &order {
            file.update_peer(&"D".to_string(), ix);
            file.update_peer(&"E".to_string(), ix);
        }
        let next = file.rarest_first_piece(&"C".to_string()).unwrap();
        assert_eq!(next.index, 0, "order {order:?}");
    }
}

#[test]
fn rarest_first_none_when_peer_holds_all() {
    let data = sample_bytes(2048);
    let pieces = split(&data, 1024).unwrap();
    let metas: Vec<_> = pieces.into_iter().map(|p| p.meta).collect();
    let mut file = File::new(metas);
    file.update_peer(&"A".to_string(), 0);
    file.update_peer(&"A".to_string(), 1);
    assert!(file.rarest_first_piece(&"A".to_string()).is_none());
    assert!(file.rarest_first_piece(&"B".to_string()).is_some());
}

fn peer(id: &str, score: u64) -> PeerState {
    PeerState { peer_id: id.to_string(), held_pieces: Vec::new(), score }
}

#[test]
fn choke_selects_top_scores() {
    let peers = vec![peer("p1", 10), peer("p2", 5), peer("p3", 8)];
    let unchoked = select_unchoked(&peers, 2);
    assert_eq!(unchoked, vec!["p1".to_string(), "p3".to_string()]);
}

#[test]
fn choke_peers_adds_optimistic_slot() {
    let peers = vec![peer("p1", 10), peer("p2", 5), peer("p3", 8)];
    let unchoked = choke_peers(&peers, 2);
    assert_eq!(unchoked.len(), 3);
    assert_eq!(unchoked[0], "p1".to_string());
    assert_eq!(unchoked[1], "p3".to_string());
    // the optimistic slot can only come from the choked remainder
    assert_eq!(unchoked[2], "p2".to_string());
}

#[test]
fn choke_equal_scores_keep_input_order() {
    let peers = vec![peer("a", 7), peer("b", 7), peer("c", 7)];
    let unchoked = select_unchoked(&peers, 2);
    assert_eq!(unchoked, vec!["a".to_string(), "b".to_string()]);
}

#[test]
fn choke_capacity_larger_than_peer_count() {
    let peers = vec![peer("a", 1), peer("b", 2)];
    let unchoked = select_unchoked(&peers, 10);
    assert_eq!(unchoked, vec!["b".to_string(), "a".to_string()]);
    // nobody is left choked, so no optimistic slot either
    let all = choke_peers(&peers, 10);
    assert_eq!(all.len(), 2);
}

#[test]
fn erasure_round_trip_all_drop_pairs() {
    let shards: Vec<Vec<u8>> = (0..4u8).map(|s| vec![s; 64]).collect();
    let set = encode(shards.clone(), 2).unwrap();
    assert_eq!(set.k, 4);
    assert_eq!(set.m, 2);
    let mut full: Vec<Vec<u8>> = set.data_shards.clone();
    full.extend(set.parity_shards.iter().cloned());
    assert_eq!(full.len(), 6);
    for i in 0..6 {
        for j in (i + 1)..6 {
            let avail: Vec<Option<Vec<u8>>> = full
                .iter()
                .enumerate()
                .map(|(k, s)| if k == i || k == j { None } else { Some(s.clone()) })
                .collect();
            let data = decode(avail, 4, 2).unwrap();
            assert_eq!(data, shards, "dropped {i} and {j}");
        }
    }
}

#[test]
fn erasure_rejects_bad_parameters() {
    let shards: Vec<Vec<u8>> = (0..4u8).map(|s| vec![s; 16]).collect();
    assert_eq!(
        encode(shards.clone(), 0).unwrap_err(),
        EngineError::ConfigurationError
    );
    assert_eq!(
        encode(Vec::new(), 2).unwrap_err(),
        EngineError::ConfigurationError
    );
    let uneven = vec![vec![1u8; 16], vec![2u8; 8]];
    assert_eq!(encode(uneven, 2).unwrap_err(), EngineError::ConfigurationError);
    assert_eq!(
        encode(shards, 300).unwrap_err(),
        EngineError::ConfigurationError
    );
}

#[test]
fn erasure_too_few_shards() {
    let shards: Vec<Vec<u8>> = (0..4u8).map(|s| vec![s; 16]).collect();
    let set = encode(shards, 2).unwrap();
    let mut avail: Vec<Option<Vec<u8>>> = vec![None; 6];
    avail[0] = Some(set.data_shards[0].clone());
    avail[1] = Some(set.data_shards[1].clone());
    avail[5] = Some(set.parity_shards[1].clone());
    assert_eq!(
        decode(avail, 4, 2).unwrap_err(),
        EngineError::InsufficientShardsError
    );
}

#[test]
fn delta_round_trip() {
    let old = sample_bytes(5000);
    let mut new = old.clone();
    new[100] = 0xAA;
    new.extend_from_slice(b"tail bytes added in the new revision");
    let patch = diff(&old, &new);
    let applied = apply(&old, &patch).unwrap();
    assert_eq!(applied, new);
}

#[test]
fn delta_round_trip_unrelated_inputs() {
    let old = b"completely different".to_vec();
    let new = sample_bytes(333);
    let patch = diff(&old, &new);
    assert_eq!(apply(&old, &patch).unwrap(), new);
}

#[test]
fn delta_rejects_wrong_base() {
    let old = sample_bytes(1000);
    let new = sample_bytes(1200);
    let patch = diff(&old, &new);
    let wrong_base = sample_bytes(999);
    assert_eq!(
        apply(&wrong_base, &patch).unwrap_err(),
        EngineError::PatchMismatchError
    );
}

#[test]
fn dedup_register_and_lookup() {
    let mut catalog = DedupCatalog::new();
    let hash = vec![1u8; 32];
    let other = vec![2u8; 32];
    assert!(catalog.lookup(&hash).is_none());
    catalog.register(&hash, &"ref-a".to_string()).unwrap();
    assert_eq!(catalog.lookup(&hash), Some("ref-a".to_string()));
    assert_eq!(check_tracker_for_file(&catalog, &hash), Some("ref-a".to_string()));
    assert!(check_tracker_for_file(&catalog, &other).is_none());
    // same reference again: accepted, nothing changes
    catalog.register(&hash, &"ref-a".to_string()).unwrap();
    // a different reference for the same content is a conflict
    assert_eq!(
        catalog.register(&hash, &"ref-b".to_string()).unwrap_err(),
        EngineError::DuplicateError
    );
    assert_eq!(catalog.lookup(&hash), Some("ref-a".to_string()));
}

#[test]
fn dedup_idempotent_store() {
    let data = sample_bytes(4000);
    let mut catalog = DedupCatalog::new();
    let tracker = AvailabilityTracker::new();
    let first = store_and_distribute(&catalog, &tracker, &data, 1024, 0, 2).unwrap();
    let hash1 = match first {
        StoreOutcome::Stored { ref record, .. } => record.content_hash.clone(),
        _ => panic!("first store must not be deduplicated"),
    };
    catalog.register(&hash1, &"stored-here".to_string()).unwrap();
    let second = store_and_distribute(&catalog, &tracker, &data, 1024, 0, 2).unwrap();
    match second {
        StoreOutcome::Deduplicated { reference } => {
            assert_eq!(reference, "stored-here".to_string());
        }
        _ => panic!("second store of identical bytes must hit the catalog"),
    }
}

#[test]
fn store_and_distribute_full_pipeline() {
    let data = sample_bytes(4096);
    let catalog = DedupCatalog::new();
    let mut tracker = AvailabilityTracker::new();
    tracker.update_score(&"fast".to_string(), 100);
    tracker.update_score(&"slow".to_string(), 1);
    tracker.record(&"fast".to_string(), 0);
    let outcome = store_and_distribute(&catalog, &tracker, &data, 1024, 2, 1).unwrap();
    match outcome {
        StoreOutcome::Stored { record, blocks, shards, unchoked, assignments } => {
            assert_eq!(record.total_size, 4096);
            assert_eq!(record.pieces.len(), 4);
            assert_eq!(blocks.len(), 4);
            assert_eq!(unchoked, vec!["fast".to_string(), "slow".to_string()]);
            let set = shards.expect("redundancy was requested");
            assert_eq!(set.k, 4);
            assert_eq!(set.m, 2);
            assert_eq!(set.parity_shards.len(), 2);
            for a in &assignments {
                assert!(a.piece_index < record.pieces.len());
            }
            // "fast" is unchoked and misses pieces 1..3; its rarest missing
            // piece is piece 1 (all unheld pieces tie at rarity 0)
            assert_eq!(assignments.len(), 2);
            assert_eq!(assignments[0].peer_id, "fast".to_string());
            assert_eq!(assignments[0].piece_index, 1);
            // the optimistic slot let "slow" in; piece 0 is already held
            // by "fast", so the rarest missing piece is piece 1 here too
            assert_eq!(assignments[1].peer_id, "slow".to_string());
            assert_eq!(assignments[1].piece_index, 1);
            // reassembly of the stored blocks returns the original bytes
            assert_eq!(reassemble(&blocks, 1024).unwrap(), data);
        }
        _ => panic!("catalog is empty; the store cannot deduplicate"),
    }
}

#[test]
fn tracker_rarity_and_holders() {
    let mut t = AvailabilityTracker::new();
    assert_eq!(t.rarity(0), 0);
    t.record(&"a".to_string(), 0);
    t.record(&"a".to_string(), 0); // idempotent
    t.record(&"b".to_string(), 0);
    t.record(&"b".to_string(), 1);
    assert_eq!(t.rarity(0), 2);
    assert_eq!(t.rarity(1), 1);
    assert_eq!(t.rarity(2), 0);
    let mut holders = t.holders(0);
    holders.sort();
    assert_eq!(holders, vec!["a".to_string(), "b".to_string()]);
    assert!(t.holds_piece(&"b".to_string(), 1));
    assert!(!t.holds_piece(&"a".to_string(), 1));
    t.remove_peer(&"b".to_string());
    assert_eq!(t.rarity(0), 1);
    assert_eq!(t.rarity(1), 0);
    assert_eq!(t.holders(0), vec!["a".to_string()]);
}

#[test]
fn tracker_scores_update() {
    let mut t = AvailabilityTracker::new();
    t.update_score(&"a".to_string(), 3);
    t.update_score(&"b".to_string(), 9);
    t.update_score(&"a".to_string(), 12);
    let unchoked = select_unchoked(&t.peers, 1);
    assert_eq!(unchoked, vec!["a".to_string()]);
}
