use drillx_2::equix::SolverMemory;
use pool_miner::search::{
    best_of, core_takes_part, first_nonce_of, hash_power, search, total_fits, DrillHash, Report,
    Search,
};
use std::time::{Duration, Instant};

fn hash_with(first: u8, second: u8) -> DrillHash {
    let mut h = [0xffu8; 32];
    h[0] = first;
    h[1] = second;
    DrillHash { d: [first; 16], h }
}

fn report(nonce: u64, difficulty: u32, hashes: u64) -> Option<Report> {
    Some(Report { nonce, difficulty, hash: hash_with(nonce as u8, 1), hashes, readings: vec![] })
}

/// The best nonce, difficulty and digest of some nonces, and the number of hashes.
fn by_hand(challenge: &[u8; 32], first: u64, last: u64) -> (u64, u32, [u8; 16], u64) {
    let mut memory = SolverMemory::new();
    let mut best = (first, 0, [0u8; 16], 0);
    for nonce in first..=last {
        let hashes =
            drillx_2::get_hashes_with_memory(&mut memory, challenge, &nonce.to_le_bytes());
        for hx in hashes {
            best.3 += 1;
            if hx.difficulty() > best.1 {
                best = (nonce, hx.difficulty(), hx.d, best.3);
            }
        }
    }
    best
}

#[test]
fn difficulty_counts_leading_zero_bits() {
    assert_eq!(hash_with(0xff, 0).difficulty(), 0);
    assert_eq!(hash_with(0x40, 0).difficulty(), 1);
    assert_eq!(hash_with(0x01, 0).difficulty(), 7);
    assert_eq!(hash_with(0x00, 0xff).difficulty(), 8);
    assert_eq!(hash_with(0x00, 0x08).difficulty(), 12);
    assert_eq!(DrillHash::zero().difficulty(), 256);
    assert_eq!(DrillHash::zero().d, [0; 16]);
}

#[test]
fn search_keeps_the_first_of_the_best() {
    let mut s = Search::start(7);
    assert_eq!((s.nonce, s.best_nonce, s.best_difficulty, s.hashes), (7, 7, 0, 0));
    assert!(s.absorb(&vec![hash_with(0xff, 1), hash_with(0xff, 2)]));
    assert_eq!((s.best_nonce, s.best_difficulty, s.hashes), (7, 0, 2));
    assert_eq!(s.best_hash.d, [0; 16]);
    s.nonce = 8;
    assert!(s.absorb(&vec![hash_with(0x20, 1), hash_with(0x10, 2), hash_with(0x11, 3)]));
    assert_eq!((s.best_nonce, s.best_difficulty, s.hashes), (8, 3, 5));
    assert_eq!(s.best_hash.h[1], 2);
    s.nonce = 9;
    assert!(s.absorb(&vec![hash_with(0x12, 4)]));
    assert_eq!((s.best_nonce, s.best_difficulty, s.hashes), (8, 3, 6));
    s.hashes = u64::MAX;
    assert!(!s.absorb(&vec![hash_with(0, 0)]));
    assert_eq!((s.best_nonce, s.best_difficulty, s.hashes), (8, 3, u64::MAX));
    assert!(s.absorb(&vec![]));
}

#[test]
fn search_stops_at_the_end_or_when_time_is_up() {
    let mut s = Search::start(99);
    assert!(!s.needs_clock(200));
    assert!(s.advance(200, 1_000, 5));
    assert_eq!(s.nonce, 100);
    assert!(s.needs_clock(200));
    assert!(!s.needs_clock(100));
    assert!(!s.advance(200, 5, 5));
    assert_eq!(s.nonce, 100);
    assert!(s.advance(200, 4, 5));
    assert!(!s.advance(101, 0, 5));
    assert!(!s.advance(3, 0, 5));
    assert_eq!(s.nonce, 101);
}

#[test]
fn cores_and_their_first_nonces() {
    assert!(core_takes_part(0, 1));
    assert!(!core_takes_part(1, 1));
    assert!(core_takes_part(1usize << 32, 1));
    assert!(!core_takes_part(0, 0));
    assert_eq!(first_nonce_of(5, 0), Some(5));
    assert_eq!(first_nonce_of(5, 3), Some(30_005));
    assert_eq!(first_nonce_of(u64::MAX, 0), Some(u64::MAX));
    assert_eq!(first_nonce_of(u64::MAX - 9_999, 1), None);
    assert_eq!(first_nonce_of(u64::MAX - 10_000, 1), Some(u64::MAX));
    assert_eq!(first_nonce_of(0, usize::MAX), None);
}

#[test]
fn search_of_a_range() {
    let challenge = [3u8; 32];
    let timer = Instant::now();
    let found = search(&challenge, &(1..5), 0, 1, &timer, u64::MAX).unwrap();
    let (nonce, difficulty, digest, hashes) = by_hand(&challenge, 1, 5);
    assert_eq!(found.nonce, nonce);
    assert_eq!(found.difficulty, difficulty);
    assert_eq!(found.hash.d, digest);
    assert_eq!(found.hashes, hashes);
    assert!(found.readings.is_empty());
    assert!(found.difficulty > 0);
    let nonce_bytes = found.nonce.to_le_bytes();
    assert!(drillx_2::is_valid_digest(&challenge, &nonce_bytes, &found.hash.d));
    assert_eq!(drillx_2::hashv(&found.hash.d, &nonce_bytes), found.hash.h);
}

#[test]
fn search_behind_the_end_tries_one_nonce() {
    let challenge = [4u8; 32];
    let timer = Instant::now();
    let found = search(&challenge, &(0..2), 1, 2, &timer, u64::MAX).unwrap();
    let (nonce, difficulty, digest, hashes) = by_hand(&challenge, 10_000, 10_000);
    assert_eq!((found.nonce, found.difficulty, found.hash.d), (nonce, difficulty, digest));
    assert_eq!(found.hashes, hashes);
}

#[test]
fn search_without_time_stops_at_a_multiple_of_fifty() {
    let challenge = [5u8; 32];
    let timer = Instant::now();
    let found = search(&challenge, &(48..1_000_000), 0, 1, &timer, 0).unwrap();
    let (nonce, difficulty, digest, hashes) = by_hand(&challenge, 48, 50);
    assert_eq!((found.nonce, found.difficulty, found.hash.d), (nonce, difficulty, digest));
    assert_eq!(found.hashes, hashes);
    assert_eq!(found.readings.len(), 1);
    let earlier = Instant::now().checked_sub(Duration::from_secs(3)).unwrap();
    let late = search(&challenge, &(50..1_000_000), 0, 1, &earlier, 3).unwrap();
    assert_eq!(late.readings.len(), 1);
    assert!(late.readings[0] >= 3);
}

#[test]
fn search_goes_on_while_there_is_time() {
    let challenge = [9u8; 32];
    let timer = Instant::now();
    let found = search(&challenge, &(49..52), 0, 1, &timer, 1_000_000).unwrap();
    let (nonce, difficulty, digest, hashes) = by_hand(&challenge, 49, 52);
    assert_eq!((found.nonce, found.difficulty, found.hash.d), (nonce, difficulty, digest));
    assert_eq!(found.hashes, hashes);
    assert!(found.hashes <= 4 * 8);
    assert_eq!(found.readings.len(), 1);
    assert!(found.readings[0] < 1_000_000);
    let to_the_end = search(&challenge, &(49..50), 0, 1, &timer, 0).unwrap();
    assert!(to_the_end.readings.is_empty());
    assert_eq!(to_the_end.hashes, by_hand(&challenge, 49, 50).3);
}

#[test]
fn search_that_takes_no_part() {
    let timer = Instant::now();
    assert!(search(&[0; 32], &(0..1), 1, 1, &timer, 1).is_none());
    assert!(search(&[0; 32], &(u64::MAX..u64::MAX), 1, 2, &timer, 1).is_none());
}

#[test]
fn best_of_reports() {
    let best = best_of(&vec![None, report(3, 5, 10), report(4, 9, 20), None, report(5, 9, 30)]);
    assert_eq!((best.nonce, best.difficulty, best.hashes), (4, 9, 60));
    assert_eq!(best.hash.d, [4; 16]);
    let best = best_of(&vec![report(3, 0, 10), None]);
    assert_eq!((best.nonce, best.difficulty, best.hashes), (0, 0, 10));
    assert_eq!(best.hash.d, [0; 16]);
    let best = best_of(&vec![]);
    assert_eq!((best.nonce, best.difficulty, best.hashes), (0, 0, 0));
}

#[test]
fn hashes_per_second() {
    assert_eq!(hash_power(100, 0), None);
    assert_eq!(hash_power(100, 3), Some(33));
    assert_eq!(hash_power(0, 3), Some(0));
}

#[test]
fn round_over_two_cores() {
    let challenge = [6u8; 32];
    let timer = Instant::now();
    let reports: Vec<Option<Report>> = (0usize..3)
        .map(|core| search(&challenge, &(0..2), core, 2, &timer, u64::MAX))
        .collect();
    assert!(reports[2].is_none());
    let (a, b) = (by_hand(&challenge, 0, 2), by_hand(&challenge, 10_000, 10_000));
    let best = best_of(&reports);
    let expected = if b.1 > a.1 { b } else { a };
    assert_eq!((best.nonce, best.difficulty, best.hash.d), (expected.0, expected.1, expected.2));
    assert_eq!(best.hashes, a.3 + b.3);
    assert!(drillx_2::is_valid_digest(&challenge, &best.nonce.to_le_bytes(), &best.hash.d));
}

#[test]
fn search_again_finds_the_same() {
    let challenge = [8u8; 32];
    let timer = Instant::now();
    let a = search(&challenge, &(1..3), 0, 1, &timer, u64::MAX).unwrap();
    let b = search(&challenge, &(1..3), 0, 1, &timer, u64::MAX).unwrap();
    assert_eq!((a.nonce, a.difficulty, a.hash.d), (b.nonce, b.difficulty, b.hash.d));
    assert_eq!((a.hash.h, a.hashes), (b.hash.h, b.hashes));
}

#[test]
fn counts_that_fit() {
    assert!(total_fits(&vec![]));
    assert!(total_fits(&vec![report(1, 1, u64::MAX), None, report(2, 1, 0)]));
    assert!(!total_fits(&vec![report(1, 1, u64::MAX), None, report(2, 1, 1)]));
}
