use audio_fingerprint::fingerprint::FingerprintInfo;
use audio_fingerprint::index::{dedup_fingerprints, group_matches_by_hash, song_title_from_path};
use audio_fingerprint::visualization::svg_escape;

fn fp(hash: u64, anchor_time_us: u64) -> FingerprintInfo {
    FingerprintInfo { hash, anchor_time_us, song_id: 0 }
}

#[test]
fn dedup_drops_repeats_of_hash_and_10ms_bucket() {
    let input = vec![fp(1, 0), fp(1, 4_999), fp(1, 5_000), fp(2, 0), fp(1, 14_999), fp(1, 15_000)];
    let rows = dedup_fingerprints(42, &input);
    assert_eq!(
        rows,
        vec![
            FingerprintInfo { hash: 1, anchor_time_us: 0, song_id: 42 },
            FingerprintInfo { hash: 1, anchor_time_us: 5_000, song_id: 42 },
            FingerprintInfo { hash: 2, anchor_time_us: 0, song_id: 42 },
            FingerprintInfo { hash: 1, anchor_time_us: 15_000, song_id: 42 },
        ]
    );
    assert!(dedup_fingerprints(1, &Vec::new()).is_empty());
}

#[test]
fn dedup_of_stored_rows_changes_nothing() {
    let input: Vec<FingerprintInfo> =
        (0..200u64).map(|i| fp(i % 13, (i % 17) * 7_000)).collect();
    let rows = dedup_fingerprints(3, &input);
    assert!(rows.len() < input.len());
    assert_eq!(dedup_fingerprints(3, &rows), rows);
}

#[test]
fn group_matches_by_hash_keeps_row_order() {
    let rows = vec![(5u64, 1u32, 10u64), (6, 2, 20), (5, 3, 30), (5, 1, 40)];
    let m = group_matches_by_hash(&rows);
    assert_eq!(m.len(), 2);
    assert_eq!(m[&5], vec![(1, 10), (3, 30), (1, 40)]);
    assert_eq!(m[&6], vec![(2, 20)]);
    assert!(group_matches_by_hash(&Vec::new()).is_empty());
}

#[test]
fn song_title_is_the_last_path_component() {
    assert_eq!(song_title_from_path("/music/album/track one.mp3"), "track one.mp3");
    assert_eq!(song_title_from_path("plain.wav"), "plain.wav");
    assert_eq!(song_title_from_path("dir/"), "");
    assert_eq!(song_title_from_path(""), "");
    assert_eq!(song_title_from_path("ä/ö/ü.flac"), "ü.flac");
}

#[test]
fn svg_escape_replaces_markup_characters() {
    assert_eq!(
        svg_escape("<a & 'b'> \"c\""),
        "&lt;a &amp; &apos;b&apos;&gt; &quot;c&quot;"
    );
    assert_eq!(svg_escape("plain title"), "plain title");
    assert_eq!(svg_escape(""), "");
}
