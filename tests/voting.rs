use audio_fingerprint::fingerprint::FingerprintInfo;
use audio_fingerprint::voting::{vote_best_matches, VoteResult, DEFAULT_TOP_K};
use std::collections::HashMap;

fn fp(hash: u64, anchor_time_us: u64) -> FingerprintInfo {
    FingerprintInfo { hash, anchor_time_us, song_id: 0 }
}

fn matches(entries: &[(u64, &[(u32, u64)])]) -> HashMap<u64, Vec<(u32, u64)>> {
    let mut m = HashMap::new();
    for (hash, rows) in entries {
        m.insert(*hash, rows.to_vec());
    }
    m
}

#[test]
fn vote_of_an_empty_query_is_empty() {
    let m = matches(&[(1, &[(3, 0)])]);
    assert!(vote_best_matches(&[], &m, DEFAULT_TOP_K).is_empty());
}

#[test]
fn vote_without_collisions_is_empty() {
    let m = matches(&[(1, &[(3, 0)])]);
    assert!(vote_best_matches(&[fp(2, 0), fp(5, 10)], &m, 5).is_empty());
    assert!(vote_best_matches(&[fp(2, 0)], &HashMap::new(), 5).is_empty());
}

#[test]
fn vote_ranks_by_score_then_by_song_id() {
    let m = matches(&[
        (1, &[(7, 500_000), (3, 100_000)]),
        (2, &[(7, 500_000), (3, 100_000)]),
        (3, &[(5, 1_000_000)]),
    ]);
    let query = [fp(1, 0), fp(2, 0), fp(3, 1_000_000)];
    let all = vote_best_matches(&query, &m, 5);
    assert_eq!(
        all,
        vec![
            VoteResult { song_id: 3, score: 2, offset_bin: 5 },
            VoteResult { song_id: 7, score: 2, offset_bin: 25 },
            VoteResult { song_id: 5, score: 1, offset_bin: 0 },
        ]
    );
    assert_eq!(vote_best_matches(&query, &m, 2), all[..2].to_vec());
    assert!(vote_best_matches(&query, &m, 0).is_empty());
}

#[test]
fn vote_takes_the_bin_with_most_votes_and_the_earliest_among_equals() {
    // Song 1: bin 10 twice and bin -3 once. Song 2: bin 4 twice.
    let m = matches(&[(1, &[(1, 200_000), (2, 80_000)]), (2, &[(1, 1_000_000)])]);
    let query = [fp(1, 0), fp(1, 0), fp(2, 1_060_000)];
    let r = vote_best_matches(&query, &m, 5);
    assert_eq!(
        r,
        vec![
            VoteResult { song_id: 1, score: 2, offset_bin: 10 },
            VoteResult { song_id: 2, score: 2, offset_bin: 4 },
        ]
    );
    // Song 2: bins 4 and -6 once each.
    let tie = matches(&[(1, &[(2, 80_000)]), (2, &[(2, 1_000_000)])]);
    let r = vote_best_matches(&[fp(1, 0), fp(2, 1_120_000)], &tie, 5);
    assert_eq!(r, vec![VoteResult { song_id: 2, score: 1, offset_bin: -6 }]);
}

#[test]
fn vote_offsets_round_half_away_from_zero() {
    let m = matches(&[(1, &[(4, 0)]), (2, &[(4, 30_000)]), (3, &[(4, 29_999)])]);
    let r = vote_best_matches(&[fp(1, 30_000)], &m, 1);
    assert_eq!(r, vec![VoteResult { song_id: 4, score: 1, offset_bin: -2 }]);
    assert_eq!(r[0].time_offset_us(), -40_000);
    let r = vote_best_matches(&[fp(2, 0)], &m, 1);
    assert_eq!(r[0].offset_bin, 2);
    let r = vote_best_matches(&[fp(3, 0)], &m, 1);
    assert_eq!(r[0].offset_bin, 1);
}

#[test]
fn vote_puts_the_song_a_query_came_from_first() {
    // Every query fingerprint finds its own row of song 9, among rows of other songs.
    let query: Vec<FingerprintInfo> = (0..50u64).map(|i| fp(1000 + i % 7, i * 92_880)).collect();
    let mut m: HashMap<u64, Vec<(u32, u64)>> = HashMap::new();
    for f in &query {
        let rows = m.entry(f.hash).or_default();
        rows.push((9, f.anchor_time_us));
        rows.push((4, f.anchor_time_us * 3 + 17));
    }
    let r = vote_best_matches(&query, &m, 3);
    assert_eq!(r[0].song_id, 9);
    assert!(r[0].score >= 50);
    assert_eq!(r[0].offset_bin, 0);
}

#[test]
fn vote_recovers_the_offset_of_a_shifted_query() {
    // The query is a stretch of song 4 that starts 20 s into it.
    let query: Vec<FingerprintInfo> = (0..40u64).map(|i| fp(500 + i, i * 92_880)).collect();
    let mut m: HashMap<u64, Vec<(u32, u64)>> = HashMap::new();
    for f in &query {
        m.insert(f.hash, vec![(4, f.anchor_time_us + 20_000_000)]);
    }
    let r = vote_best_matches(&query, &m, 5);
    assert_eq!(r, vec![VoteResult { song_id: 4, score: 40, offset_bin: 1000 }]);
    assert_eq!(r[0].time_offset_us(), 20_000_000);
}
