//! Offset-histogram voting: turns the index's hash collisions into a ranked,
//! time-aligned list of matching songs.
//!
//! Each query fingerprint votes once for every stored row with the same hash,
//! for that row's song and for the difference between the row's time and the
//! query fingerprint's time, rounded to 20 ms bins. A song's score is the
//! largest number of votes any one of its bins received; that bin (the
//! earliest among equals) is the song's offset.
use crate::arith::{lemma_div_at_most, round_div};
use crate::fingerprint::FingerprintInfo;
use crate::ranking::{lemma_top_k_exists, lemma_top_k_same_entries, top_k_of};
use std::collections::HashMap;
use vstd::prelude::*;

verus! {

broadcast use vstd::std_specs::hash::group_hash_axioms;

/// Width of an offset-histogram bin, in microseconds (20 ms).
pub const OFFSET_BIN_US: u64 = 20_000;

/// How many songs a recognition reports unless asked otherwise.
pub const DEFAULT_TOP_K: usize = 5;

/// One recognised song.
#[derive(Clone, Copy, Debug, PartialEq, Eq, Structural)]
pub struct VoteResult {
    pub song_id: u32,
    /// Votes in the song's best offset bin.
    pub score: usize,
    /// The best offset bin: the query starts `offset_bin * 20 ms` into the song.
    pub offset_bin: i64,
}

impl VoteResult {
    /// The centre of the best offset bin, in microseconds.
    pub fn time_offset_us(&self) -> (r: i128)
        ensures
            r == self.offset_bin * OFFSET_BIN_US,
    {
        self.offset_bin as i128 * 20_000
    }
}

/// The bin of an offset of `offset` microseconds: `offset / 20 ms` rounded to
/// nearest, halves away from zero.
pub open spec fn offset_bin_of(offset: int) -> int {
    if offset >= 0 {
        round_div(offset, OFFSET_BIN_US as int)
    } else {
        -round_div(-offset, OFFSET_BIN_US as int)
    }
}

/// The votes of one query fingerprint: one per stored row with its hash, in
/// the order the rows are listed.
pub open spec fn fingerprint_votes(f: FingerprintInfo, matches: Map<u64, Vec<(u32, u64)>>) -> Seq<
    (u32, i64),
> {
    if matches.contains_key(f.hash) {
        matches[f.hash]@.map_values(
            |e: (u32, u64)| (e.0, offset_bin_of(e.1 - f.anchor_time_us) as i64),
        )
    } else {
        Seq::empty()
    }
}

/// The votes of the first `upto` query fingerprints, in order.
pub open spec fn votes_upto(
    query: Seq<FingerprintInfo>,
    matches: Map<u64, Vec<(u32, u64)>>,
    upto: int,
) -> Seq<(u32, i64)>
    decreases upto,
{
    if upto <= 0 {
        Seq::empty()
    } else {
        votes_upto(query, matches, upto - 1) + fingerprint_votes(query[upto - 1], matches)
    }
}

/// Every vote a query casts, as `(song, offset bin)` pairs.
pub open spec fn query_votes(query: Seq<FingerprintInfo>, matches: Map<u64, Vec<(u32, u64)>>) -> Seq<
    (u32, i64),
> {
    votes_upto(query, matches, query.len() as int)
}

/// How many of the first `upto` votes are `e`.
pub open spec fn count_upto(v: Seq<(u32, i64)>, upto: int, e: (u32, i64)) -> nat
    decreases upto,
{
    if upto <= 0 {
        0
    } else {
        count_upto(v, upto - 1, e) + if v[upto - 1] == e {
            1nat
        } else {
            0nat
        }
    }
}

/// The votes for bin `bin` of song `song`.
pub open spec fn vote_count(v: Seq<(u32, i64)>, song: u32, bin: i64) -> nat {
    count_upto(v, v.len() as int, (song, bin))
}

/// The largest vote count of a bin of `song` that one of the first `upto` votes names.
pub open spec fn max_count_upto(v: Seq<(u32, i64)>, song: u32, upto: int) -> nat
    decreases upto,
{
    if upto <= 0 {
        0
    } else {
        let prev = max_count_upto(v, song, upto - 1);
        let c = if v[upto - 1].0 == song {
            vote_count(v, song, v[upto - 1].1)
        } else {
            0
        };
        if c > prev {
            c
        } else {
            prev
        }
    }
}

/// The score of `song`: the largest vote count of any of its bins.
pub open spec fn song_score(v: Seq<(u32, i64)>, song: u32) -> nat {
    max_count_upto(v, song, v.len() as int)
}

/// `bin` is the best bin of `song`: it has the song's score, and no earlier bin does.
pub open spec fn is_best_bin(v: Seq<(u32, i64)>, song: u32, bin: i64) -> bool {
    &&& vote_count(v, song, bin) == song_score(v, song)
    &&& forall|b: i64| b < bin ==> #[trigger] vote_count(v, song, b) < song_score(v, song)
}

/// The songs that received votes, as `(score, song)` pairs for ranking.
pub open spec fn vote_candidates(v: Seq<(u32, i64)>) -> Seq<(u64, u64)> {
    v.map_values(|e: (u32, i64)| (song_score(v, e.0) as u64, e.0 as u64))
}

/// The key of a vote in the histogram.
spec fn vote_key(e: (u32, i64)) -> int {
    e.0 * 0x1_0000_0000_0000_0000 + (e.1 + 0x8000_0000_0000_0000)
}

proof fn lemma_vote_key_injective(e1: (u32, i64), e2: (u32, i64))
    ensures
        vote_key(e1) == vote_key(e2) ==> e1 == e2,
        0 <= vote_key(e1) < 0x1_0000_0000 * 0x1_0000_0000_0000_0000,
{
    let l1 = e1.1 + 0x8000_0000_0000_0000;
    let l2 = e2.1 + 0x8000_0000_0000_0000;
    let song_a = e1.0 as int;
    let other = e2.0 as int;
    assert(song_a * 0x1_0000_0000_0000_0000 + l1 == other * 0x1_0000_0000_0000_0000 + l2 ==> song_a == other)
        by (nonlinear_arith)
        requires
            0 <= l1 < 0x1_0000_0000_0000_0000,
            0 <= l2 < 0x1_0000_0000_0000_0000,
    ;
    assert(0 <= vote_key(e1) < 0x1_0000_0000 * 0x1_0000_0000_0000_0000) by (nonlinear_arith)
        requires
            0 <= l1 < 0x1_0000_0000_0000_0000,
            0 <= song_a < 0x1_0000_0000,
            vote_key(e1) == song_a * 0x1_0000_0000_0000_0000 + l1,
    ;
}

proof fn lemma_count_bounds(v: Seq<(u32, i64)>, upto: int, e: (u32, i64))
    requires
        0 <= upto <= v.len(),
    ensures
        count_upto(v, upto, e) <= upto,
        count_upto(v, upto, e) > 0 ==> exists|j: int| 0 <= j < upto && v[j] == e,
        (exists|j: int| 0 <= j < upto && v[j] == e) ==> count_upto(v, upto, e) > 0,
    decreases upto,
{
    if upto > 0 {
        lemma_count_bounds(v, upto - 1, e);
        if exists|j: int| 0 <= j < upto && v[j] == e {
            let j = choose|j: int| 0 <= j < upto && v[j] == e;
            if j < upto - 1 {
                assert(exists|j: int| 0 <= j < upto - 1 && v[j] == e);
            }
        }
    }
}

proof fn lemma_max_count_absent(v: Seq<(u32, i64)>, song: u32, upto: int)
    requires
        forall|j: int| 0 <= j < upto ==> #[trigger] v[j].0 != song,
    ensures
        max_count_upto(v, song, upto) == 0,
    decreases upto,
{
    if upto > 0 {
        lemma_max_count_absent(v, song, upto - 1);
    }
}

/// What the best-bin table holds for `song` after the first `upto` votes:
/// `(count, bin)` with the largest count seen and, among equals, the earliest bin.
spec fn best_so_far(v: Seq<(u32, i64)>, song: u32, upto: int, best: (usize, i64)) -> bool {
    &&& best.0 == max_count_upto(v, song, upto)
    &&& best.0 == vote_count(v, song, best.1)
    &&& exists|j: int| 0 <= j < upto && v[j] == (song, best.1)
    &&& forall|j: int|
        0 <= j < upto && #[trigger] v[j].0 == song ==> vote_count(v, song, v[j].1) <= best.0 && (
        vote_count(v, song, v[j].1) == best.0 ==> best.1 <= v[j].1)
}

proof fn lemma_best_so_far_is_best_bin(v: Seq<(u32, i64)>, song: u32, best: (usize, i64))
    requires
        best_so_far(v, song, v.len() as int, best),
    ensures
        is_best_bin(v, song, best.1),
        best.0 == song_score(v, song),
{
    assert forall|b: i64| b < best.1 implies #[trigger] vote_count(v, song, b) < song_score(
        v,
        song,
    ) by {
        lemma_count_bounds(v, v.len() as int, (song, b));
        lemma_count_bounds(v, v.len() as int, (song, best.1));
        if vote_count(v, song, b) > 0 {
            let j = choose|j: int| 0 <= j < v.len() && v[j] == (song, b);
            assert(v[j].0 == song);
        }
    }
}

fn offset_bin(db_time: u64, query_time: u64) -> (r: i64)
    ensures
        r == offset_bin_of(db_time - query_time),
{
    if db_time >= query_time {
        let d = (db_time - query_time) as u128;
        proof {
            lemma_div_at_most(2 * d + 20000, 40000, 0x4_0000_0000_0000);
        }
        ((2 * d + 20000) / 40000) as i64
    } else {
        let d = (query_time - db_time) as u128;
        proof {
            lemma_div_at_most(2 * d + 20000, 40000, 0x4_0000_0000_0000);
        }
        -(((2 * d + 20000) / 40000) as i64)
    }
}

fn vote_key_of(e: (u32, i64)) -> (k: u128)
    ensures
        k == vote_key(e),
{
    proof {
        lemma_vote_key_injective(e, e);
    }
    (e.0 as u128) * 0x1_0000_0000_0000_0000 + ((e.1 as i128) + 0x8000_0000_0000_0000) as u128
}

/// Every vote of the query, in order of query fingerprint and then of stored row.
fn collect_votes(
    query_fingerprints: &[FingerprintInfo],
    db_matches_by_hash: &HashMap<u64, Vec<(u32, u64)>>,
) -> (v: Vec<(u32, i64)>)
    ensures
        v@ == query_votes(query_fingerprints@, db_matches_by_hash@),
{
    let ghost q = query_fingerprints@;
    let ghost m = db_matches_by_hash@;
    let mut v: Vec<(u32, i64)> = Vec::new();
    let mut i: usize = 0;
    while i < query_fingerprints.len()
        invariant
            q == query_fingerprints@,
            m == db_matches_by_hash@,
            i <= q.len(),
            v@ == votes_upto(q, m, i as int),
        decreases q.len() - i,
    {
        let f = query_fingerprints[i];
        match db_matches_by_hash.get(&f.hash) {
            Some(rows) => {
                let ghost start = v@;
                let mut j: usize = 0;
                while j < rows.len()
                    invariant
                        m.contains_key(f.hash),
                        rows == m[f.hash],
                        j <= rows.len(),
                        v@ == start + rows@.subrange(0, j as int).map_values(
                            |e: (u32, u64)| (e.0, offset_bin_of(e.1 - f.anchor_time_us) as i64),
                        ),
                    decreases rows.len() - j,
                {
                    let e = rows[j];
                    let b = offset_bin(e.1, f.anchor_time_us);
                    v.push((e.0, b));
                    proof {
                        assert(rows@.subrange(0, j + 1) =~= rows@.subrange(0, j as int).push(e));
                        assert(v@ =~= start + rows@.subrange(0, j + 1).map_values(
                            |e: (u32, u64)| (e.0, offset_bin_of(e.1 - f.anchor_time_us) as i64),
                        ));
                    }
                    j = j + 1;
                }
                proof {
                    assert(rows@.subrange(0, rows.len() as int) =~= rows@);
                }
            },
            None => {
                proof {
                    assert(votes_upto(q, m, i + 1) =~= votes_upto(q, m, i as int));
                }
            },
        }
        i = i + 1;
    }
    v
}

/// The best-ranked songs of a query: the `top_k` songs with the highest
/// scores (the lower song id first among equal scores), best first, each
/// with its score and best offset bin.
///
/// `db_matches_by_hash` maps each hash to the stored rows that have it, as
/// `(song, anchor time in microseconds)`. A query without fingerprints, or
/// whose hashes match nothing, yields no result.
pub fn vote_best_matches(
    query_fingerprints: &[FingerprintInfo],
    db_matches_by_hash: &HashMap<u64, Vec<(u32, u64)>>,
    top_k: usize,
) -> (r: Vec<VoteResult>)
    ensures
        ({
            let v = query_votes(query_fingerprints@, db_matches_by_hash@);
            &&& r@.map_values(|x: VoteResult| (x.score as u64, x.song_id as u64)) == top_k_of(
                vote_candidates(v),
                top_k as nat,
            )
            &&& forall|i: int|
                0 <= i < r.len() ==> #[trigger] r@[i].score == song_score(v, r@[i].song_id)
                    && is_best_bin(v, r@[i].song_id, r@[i].offset_bin)
        }),
{
    let votes = collect_votes(query_fingerprints, db_matches_by_hash);
    let ghost v = votes@;
    assert(v == query_votes(query_fingerprints@, db_matches_by_hash@));
    let n = votes.len();

    // Votes per (song, bin).
    let mut counts: HashMap<u128, usize> = HashMap::new();
    let mut i: usize = 0;
    while i < n
        invariant
            v == votes@,
            n == v.len(),
            i <= n,
            forall|e: (u32, i64)|
                #[trigger] count_upto(v, i as int, e) == if counts@.contains_key(
                    vote_key(e) as u128,
                ) {
                    counts@[vote_key(e) as u128] as nat
                } else {
                    0nat
                },
        decreases n - i,
    {
        let e = votes[i];
        let key = vote_key_of(e);
        let c = match counts.get(&key) {
            Some(c) => *c,
            None => 0,
        };
        proof {
            lemma_count_bounds(v, i as int, e);
            assert(c == count_upto(v, i as int, e));
        }
        let ghost old_counts = counts@;
        counts.insert(key, c + 1);
        proof {
            assert forall|e2: (u32, i64)| #[trigger]
                count_upto(v, i + 1, e2) == if counts@.contains_key(vote_key(e2) as u128) {
                    counts@[vote_key(e2) as u128] as nat
                } else {
                    0nat
                } by {
                lemma_vote_key_injective(e, e2);
                lemma_vote_key_injective(e2, e2);
                assert(count_upto(v, i as int, e2) == if old_counts.contains_key(
                    vote_key(e2) as u128,
                ) {
                    old_counts[vote_key(e2) as u128] as nat
                } else {
                    0nat
                });
                if e2 != e {
                    assert(vote_key(e2) as u128 != key);
                }
            }
        }
        i = i + 1;
    }

    // Best (count, bin) per song, and the songs in order of their first vote.
    let mut best: HashMap<u32, (usize, i64)> = HashMap::new();
    let mut songs: Vec<u32> = Vec::new();
    let mut i: usize = 0;
    while i < n
        invariant
            v == votes@,
            n == v.len(),
            i <= n,
            forall|e: (u32, i64)|
                #[trigger] count_upto(v, n as int, e) == if counts@.contains_key(
                    vote_key(e) as u128,
                ) {
                    counts@[vote_key(e) as u128] as nat
                } else {
                    0nat
                },
            forall|s: u32| #[trigger] best@.contains_key(s) <==> songs@.contains(s),
            forall|s: u32|
                #[trigger] songs@.contains(s) <==> exists|j: int| 0 <= j < i && v[j].0 == s,
            forall|s: u32| #[trigger]
                best@.contains_key(s) ==> best_so_far(v, s, i as int, best@[s]),
        decreases n - i,
    {
        let e = votes[i];
        let s = e.0;
        let b = e.1;
        let key = vote_key_of(e);
        proof {
            lemma_count_bounds(v, n as int, e);
            assert(v[i as int] == e);
        }
        let c = match counts.get(&key) {
            Some(c) => *c,
            None => 0,
        };
        assert(c == vote_count(v, s, b));
        let ghost old_best = best@;
        let ghost old_songs = songs@;
        match best.get(&s) {
            Some(cur) => {
                let (bc, bb) = *cur;
                if c > bc || (c == bc && b < bb) {
                    best.insert(s, (c, b));
                }
                proof {
                    assert(best_so_far(v, s, i + 1, best@[s])) by {
                        let nb = best@[s];
                        assert forall|j: int|
                            0 <= j < i + 1 && #[trigger] v[j].0 == s implies vote_count(
                            v,
                            s,
                            v[j].1,
                        ) <= nb.0 && (vote_count(v, s, v[j].1) == nb.0 ==> nb.1 <= v[j].1) by {
                            if j < i {
                                assert(best_so_far(v, s, i as int, old_best[s]));
                            }
                        }
                        assert(best_so_far(v, s, i as int, old_best[s]));
                        if nb == (c, b) {
                            assert(v[i as int] == (s, nb.1));
                        } else {
                            let j0 = choose|j: int| 0 <= j < i && v[j] == (s, nb.1);
                            assert(0 <= j0 < i + 1 && v[j0] == (s, nb.1));
                        }
                    }
                }
            },
            None => {
                best.insert(s, (c, b));
                songs.push(s);
                proof {
                    assert forall|j: int| 0 <= j < i implies #[trigger] v[j].0 != s by {
                        if v[j].0 == s {
                            assert(old_songs.contains(s));
                        }
                    }
                    lemma_max_count_absent(v, s, i as int);
                    assert(v[i as int] == (s, b));
                    assert(best_so_far(v, s, i + 1, (c, b)));
                }
            },
        }
        proof {
            assert forall|other: u32| #[trigger]
                best@.contains_key(other) implies best_so_far(v, other, i + 1, best@[other]) by {
                if other != s {
                    assert(old_best.contains_key(other));
                    assert(best@[other] == old_best[other]);
                    let bs = old_best[other];
                    assert(best_so_far(v, other, i as int, bs));
                    let j0 = choose|j: int| 0 <= j < i && v[j] == (other, bs.1);
                    assert(0 <= j0 < i + 1 && v[j0] == (other, bs.1));
                }
            }
            assert forall|other: u32| #[trigger] songs@.contains(other) <==> exists|j: int|
                0 <= j < i + 1 && v[j].0 == other by {
                if songs@.contains(other) && other != s {
                    let k = choose|k: int| 0 <= k < songs.len() && songs@[k] == other;
                    assert(old_songs[k] == other);
                    assert(old_songs.contains(other));
                }
                if other == s {
                    assert(v[i as int].0 == s);
                    if old_songs.contains(s) {
                        let k = choose|k: int| 0 <= k < old_songs.len() && old_songs[k] == s;
                        assert(songs@[k] == s);
                    } else {
                        assert(!old_best.contains_key(s));
                        assert(songs@[songs.len() - 1] == s);
                    }
                }
                if exists|j: int| 0 <= j < i + 1 && v[j].0 == other {
                    let j = choose|j: int| 0 <= j < i + 1 && v[j].0 == other;
                    if j < i {
                        assert(old_songs.contains(other));
                        let k = choose|k: int| 0 <= k < old_songs.len() && old_songs[k] == other;
                        assert(songs@[k] == other);
                    } else {
                        assert(other == s);
                        assert(best@.contains_key(s));
                    }
                }
            }
            assert forall|other: u32| #[trigger] best@.contains_key(other) <==> songs@.contains(other) by {
                if other != s {
                    if old_songs.contains(other) {
                        let k = choose|k: int| 0 <= k < old_songs.len() && old_songs[k] == other;
                        assert(songs@[k] == other);
                    }
                    if songs@.contains(other) {
                        let k = choose|k: int| 0 <= k < songs.len() && songs@[k] == other;
                        assert(old_songs[k] == other);
                    }
                } else {
                    assert(best@.contains_key(s));
                    if !old_songs.contains(s) {
                        assert(songs@[songs.len() - 1] == s);
                    } else {
                        let k = choose|k: int| 0 <= k < old_songs.len() && old_songs[k] == s;
                        assert(songs@[k] == s);
                    }
                }
            }
        }
        i = i + 1;
    }

    // Rank the songs by score.
    let mut cands: Vec<(u64, u64)> = Vec::new();
    let mut k: usize = 0;
    while k < songs.len()
        invariant
            v == votes@,
            n == v.len(),
            forall|s: u32|
                #[trigger] songs@.contains(s) <==> exists|j: int| 0 <= j < n && v[j].0 == s,
            forall|s: u32| #[trigger]
                best@.contains_key(s) ==> best_so_far(v, s, n as int, best@[s]),
            k <= songs.len(),
            cands.len() == k,
            forall|s: u32| #[trigger] best@.contains_key(s) <==> songs@.contains(s),
            forall|j: int|
                0 <= j < k ==> best@.contains_key(songs@[j]) && #[trigger] cands@[j] == (
                    best@[songs@[j]].0 as u64,
                    songs@[j] as u64,
                ),
        decreases songs.len() - k,
    {
        let s = songs[k];
        assert(songs@.contains(s));
        let entry = match best.get(&s) {
            Some(cur) => *cur,
            None => (0, 0),
        };
        cands.push((entry.0 as u64, s as u64));
        k = k + 1;
    }
    proof {
        let vc = vote_candidates(v);
        assert forall|x: (u64, u64)| cands@.contains(x) <==> vc.contains(x) by {
            if cands@.contains(x) {
                let j = choose|j: int| 0 <= j < cands.len() && cands@[j] == x;
                let s = songs@[j];
                assert(songs@.contains(s));
                let jv = choose|jv: int| 0 <= jv < n && v[jv].0 == s;
                assert(best@.contains_key(s));
                lemma_best_so_far_is_best_bin(v, s, best@[s]);
                assert(vc[jv] == x);
            }
            if vc.contains(x) {
                let jv = choose|jv: int| 0 <= jv < vc.len() && vc[jv] == x;
                let s = v[jv].0;
                assert(songs@.contains(s));
                let j = choose|j: int| 0 <= j < songs.len() && songs@[j] == s;
                assert(best@.contains_key(s));
                lemma_best_so_far_is_best_bin(v, s, best@[s]);
                assert(cands@[j] == x);
            }
        }
        lemma_top_k_exists(cands@, top_k as nat);
        lemma_top_k_same_entries(cands@, vc, top_k as nat);
    }
    let top = crate::ranking::top_k(&cands, top_k);

    let mut r: Vec<VoteResult> = Vec::new();
    let mut i: usize = 0;
    while i < top.len()
        invariant
            v == query_votes(query_fingerprints@, db_matches_by_hash@),
            top@ == top_k_of(vote_candidates(v), top_k as nat),
            i <= top.len(),
            r.len() == i,
            forall|x: (u64, u64)| top@.contains(x) ==> cands@.contains(x),
            forall|j: int|
                0 <= j < cands.len() ==> best@.contains_key(songs@[j]) && #[trigger] cands@[j] == (
                    best@[songs@[j]].0 as u64,
                    songs@[j] as u64,
                ),
            forall|s: u32| #[trigger]
                best@.contains_key(s) ==> best_so_far(v, s, n as int, best@[s]),
            n == v.len(),
            forall|j: int|
                0 <= j < i ==> (#[trigger] r@[j].score as u64, r@[j].song_id as u64) == top@[j]
                    && r@[j].score == song_score(v, r@[j].song_id) && is_best_bin(
                    v,
                    r@[j].song_id,
                    r@[j].offset_bin,
                ),
        decreases top.len() - i,
    {
        let (score, song) = top[i];
        proof {
            assert(top@.contains(top@[i as int]));
        }
        let ghost jc = choose|j: int| 0 <= j < cands.len() && cands@[j] == top@[i as int];
        let s = song as u32;
        let entry = match best.get(&s) {
            Some(cur) => *cur,
            None => (0, 0),
        };
        proof {
            assert(s == songs@[jc]);
            lemma_best_so_far_is_best_bin(v, s, best@[s]);
        }
        r.push(VoteResult { song_id: s, score: score as usize, offset_bin: entry.1 });
        i = i + 1;
    }
    proof {
        assert(r@.map_values(|x: VoteResult| (x.score as u64, x.song_id as u64)) =~= top@);
    }
    r
}

/// A song has one best bin.
pub proof fn lemma_best_bin_unique(v: Seq<(u32, i64)>, song: u32, b1: i64, b2: i64)
    requires
        is_best_bin(v, song, b1),
        is_best_bin(v, song, b2),
    ensures
        b1 == b2,
{
    if b1 < b2 {
        assert(vote_count(v, song, b1) < song_score(v, song));
    } else if b2 < b1 {
        assert(vote_count(v, song, b2) < song_score(v, song));
    }
}

proof fn lemma_max_count_at_least(v: Seq<(u32, i64)>, song: u32, upto: int, j: int)
    requires
        0 <= j < upto,
        v[j].0 == song,
    ensures
        max_count_upto(v, song, upto) >= vote_count(v, song, v[j].1),
    decreases upto,
{
    if j < upto - 1 {
        lemma_max_count_at_least(v, song, upto - 1, j);
    }
}

proof fn lemma_votes_of_shifted_query(
    q: Seq<FingerprintInfo>,
    m: Map<u64, Vec<(u32, u64)>>,
    song: u32,
    shift: int,
    upto: int,
)
    requires
        0 <= upto <= q.len(),
        forall|i: int|
            0 <= i < q.len() ==> 0 <= #[trigger] q[i].anchor_time_us + shift <= u64::MAX
                && m.contains_key(q[i].hash) && m[q[i].hash]@.contains(
                (song, (q[i].anchor_time_us + shift) as u64),
            ),
    ensures
        upto > 0 ==> votes_upto(q, m, upto).contains((song, offset_bin_of(shift) as i64)),
        count_upto(
            votes_upto(q, m, upto),
            votes_upto(q, m, upto).len() as int,
            (song, offset_bin_of(shift) as i64),
        ) >= upto,
    decreases upto,
{
    if upto > 0 {
        let e = (song, offset_bin_of(shift) as i64);
        lemma_votes_of_shifted_query(q, m, song, shift, upto - 1);
        let prev = votes_upto(q, m, upto - 1);
        let f = q[upto - 1];
        assert(0 <= q[upto - 1].anchor_time_us + shift <= u64::MAX);
        let rows = m[f.hash]@;
        let own = (song, (f.anchor_time_us + shift) as u64);
        let mine = fingerprint_votes(f, m);
        let jr = choose|jr: int| 0 <= jr < rows.len() && rows[jr] == own;
        assert(mine[jr] == e);
        let cur = votes_upto(q, m, upto);
        assert(cur == prev + mine);
        assert(cur[prev.len() + jr] == e);
        assert(cur.contains(e));
        lemma_count_concat(prev, mine, e);
        lemma_count_bounds(mine, mine.len() as int, e);
        assert(count_upto(mine, mine.len() as int, e) > 0);
    }
}

proof fn lemma_count_concat(a: Seq<(u32, i64)>, b: Seq<(u32, i64)>, e: (u32, i64))
    ensures
        count_upto(a + b, (a + b).len() as int, e) == count_upto(a, a.len() as int, e) + count_upto(
            b,
            b.len() as int,
            e,
        ),
    decreases b.len(),
{
    if b.len() > 0 {
        let b0 = b.drop_last();
        lemma_count_concat(a, b0, e);
        assert((a + b).drop_last() =~= a + b0);
        lemma_count_prefix(a + b, (a + b).len() - 1, e);
        lemma_count_prefix(b, b.len() - 1, e);
        assert((a + b)[(a + b).len() - 1] == b[b.len() - 1]);
    }
}

proof fn lemma_count_prefix(v: Seq<(u32, i64)>, upto: int, e: (u32, i64))
    requires
        0 <= upto <= v.len(),
    ensures
        count_upto(v, upto, e) == count_upto(v.subrange(0, upto), upto, e),
    decreases upto,
{
    if upto > 0 {
        lemma_count_prefix(v, upto - 1, e);
        lemma_count_prefix(v.subrange(0, upto), upto - 1, e);
        assert(v.subrange(0, upto).subrange(0, upto - 1) =~= v.subrange(0, upto - 1));
    }
}

/// A query each of whose fingerprints finds its own row among the stored
/// rows of `song`, at its own time moved by `shift` microseconds (0 when the
/// very same audio was ingested): the song gets a vote from every query
/// fingerprint in the bin of `shift`, so its score is at least the number of
/// query fingerprints, and so is the score of the best-ranked result, which
/// exists whenever at least one result is asked for.
pub proof fn lemma_self_match_score(
    q: Seq<FingerprintInfo>,
    m: Map<u64, Vec<(u32, u64)>>,
    song: u32,
    shift: int,
    k: nat,
)
    requires
        0 < q.len(),
        0 < k,
        forall|i: int|
            0 <= i < q.len() ==> 0 <= #[trigger] q[i].anchor_time_us + shift <= u64::MAX
                && m.contains_key(q[i].hash) && m[q[i].hash]@.contains(
                (song, (q[i].anchor_time_us + shift) as u64),
            ),
        query_votes(q, m).len() <= usize::MAX,
    ensures
        vote_count(query_votes(q, m), song, offset_bin_of(shift) as i64) >= q.len(),
        song_score(query_votes(q, m), song) >= q.len(),
        top_k_of(vote_candidates(query_votes(q, m)), k).len() > 0,
        top_k_of(vote_candidates(query_votes(q, m)), k)[0].0 >= q.len(),
{
    let v = query_votes(q, m);
    let e = (song, offset_bin_of(shift) as i64);
    lemma_votes_of_shifted_query(q, m, song, shift, q.len() as int);
    assert(v.contains(e));
    let j = choose|j: int| 0 <= j < v.len() && v[j] == e;
    lemma_max_count_at_least(v, song, v.len() as int, j);
    lemma_song_score_bound(v, song, v.len() as int);
    let vc = vote_candidates(v);
    let x = vc[j];
    assert(x == (song_score(v, song) as u64, song as u64));
    assert(vc.contains(x));
    lemma_top_k_exists(vc, k);
    let r = top_k_of(vc, k);
    if !r.contains(x) {
        assert(crate::ranking::ranks_before(r[0], x));
    } else {
        let i = choose|i: int| 0 <= i < r.len() && r[i] == x;
        if i > 0 {
            assert(crate::ranking::ranks_before(r[0], r[i]));
        }
    }
}

proof fn lemma_song_score_bound(v: Seq<(u32, i64)>, song: u32, upto: int)
    requires
        0 <= upto <= v.len(),
    ensures
        max_count_upto(v, song, upto) <= v.len(),
    decreases upto,
{
    if upto > 0 {
        lemma_song_score_bound(v, song, upto - 1);
        lemma_count_bounds(v, v.len() as int, (song, v[upto - 1].1));
    }
}

/// The offset bin of `shift` lies within half a bin (10 ms) of it.
pub proof fn lemma_offset_bin_error(shift: int)
    ensures
        -10_000 <= offset_bin_of(shift) * OFFSET_BIN_US - shift <= 10_000,
{
    let a = if shift >= 0 {
        shift
    } else {
        -shift
    };
    let b = round_div(a, 20000);
    vstd::arithmetic::div_mod::lemma_fundamental_div_mod(2 * a + 20000, 40000);
    vstd::arithmetic::div_mod::lemma_mod_pos_bound(2 * a + 20000, 40000);
    assert(-10_000 <= b * 20000 - a <= 10_000);
}

proof fn lemma_uniform_votes(v: Seq<(u32, i64)>, e: (u32, i64), upto: int)
    requires
        0 <= upto <= v.len(),
        forall|j: int| 0 <= j < v.len() ==> #[trigger] v[j] == e,
    ensures
        count_upto(v, upto, e) == upto,
        forall|e2: (u32, i64)| e2 != e ==> #[trigger] count_upto(v, upto, e2) == 0,
    decreases upto,
{
    if upto > 0 {
        lemma_uniform_votes(v, e, upto - 1);
        assert(v[upto - 1] == e);
        assert forall|e2: (u32, i64)| e2 != e implies #[trigger] count_upto(v, upto, e2) == 0 by {
            assert(count_upto(v, upto - 1, e2) == 0);
        }
    }
}

proof fn lemma_uniform_max(v: Seq<(u32, i64)>, e: (u32, i64), upto: int)
    requires
        0 < upto <= v.len(),
        forall|j: int| 0 <= j < v.len() ==> #[trigger] v[j] == e,
        vote_count(v, e.0, e.1) == v.len(),
    ensures
        max_count_upto(v, e.0, upto) == v.len(),
    decreases upto,
{
    assert(v[upto - 1] == e);
    let c = vote_count(v, e.0, v[upto - 1].1);
    assert(c == v.len());
    if upto > 1 {
        lemma_uniform_max(v, e, upto - 1);
    } else {
        assert(max_count_upto(v, e.0, upto - 1) == 0);
    }
}

/// A query that is a stretch of song `song` moved by `shift` microseconds,
/// against an index that holds each of its hashes once, for that song at the
/// moved time: `song` is the one result, with one vote per query
/// fingerprint, and its best bin is `shift` rounded to 20 ms, within 10 ms
/// of `shift`.
pub proof fn lemma_offset_recovered(
    q: Seq<FingerprintInfo>,
    m: Map<u64, Vec<(u32, u64)>>,
    song: u32,
    shift: int,
    k: nat,
)
    requires
        0 < q.len() <= usize::MAX,
        0 < k,
        forall|i: int|
            0 <= i < q.len() ==> 0 <= #[trigger] q[i].anchor_time_us + shift <= u64::MAX
                && m.contains_key(q[i].hash) && m[q[i].hash]@ == seq![
                (song, (q[i].anchor_time_us + shift) as u64),
            ],
    ensures
        top_k_of(vote_candidates(query_votes(q, m)), k) == seq![(q.len() as u64, song as u64)],
        song_score(query_votes(q, m), song) == q.len(),
        is_best_bin(query_votes(q, m), song, offset_bin_of(shift) as i64),
        -10_000 <= offset_bin_of(shift) * OFFSET_BIN_US - shift <= 10_000,
{
    let v = query_votes(q, m);
    let b = offset_bin_of(shift);
    lemma_offset_bin_error(shift);
    assert(-0x8000_0000_0000_0000 <= b <= 0x7FFF_FFFF_FFFF_FFFF);
    let e = (song, b as i64);
    lemma_votes_are_single(q, m, song, shift, q.len() as int);
    lemma_uniform_votes(v, e, v.len() as int);
    lemma_uniform_max(v, e, v.len() as int);
    assert forall|b2: i64| b2 < e.1 implies #[trigger] vote_count(v, song, b2) < song_score(
        v,
        song,
    ) by {
        assert((song, b2) != e);
    }
    let vc = vote_candidates(v);
    let x = (q.len() as u64, song as u64);
    assert forall|j: int| 0 <= j < vc.len() implies #[trigger] vc[j] == x by {
        assert(v[j] == e);
    }
    let r = seq![x];
    assert(vc[0] == x);
    assert(r[0] == x);
    assert forall|y: (u64, u64)| vc.contains(y) implies r.contains(y) by {
        assert(r[0] == x);
    }
    assert(crate::ranking::is_top_k(vc, k, r));
    crate::ranking::lemma_top_k_of(vc, k, r);
}

proof fn lemma_votes_are_single(
    q: Seq<FingerprintInfo>,
    m: Map<u64, Vec<(u32, u64)>>,
    song: u32,
    shift: int,
    upto: int,
)
    requires
        0 <= upto <= q.len(),
        -0x8000_0000_0000_0000 <= offset_bin_of(shift) <= 0x7FFF_FFFF_FFFF_FFFF,
        forall|i: int|
            0 <= i < q.len() ==> 0 <= #[trigger] q[i].anchor_time_us + shift <= u64::MAX
                && m.contains_key(q[i].hash) && m[q[i].hash]@ == seq![
                (song, (q[i].anchor_time_us + shift) as u64),
            ],
    ensures
        votes_upto(q, m, upto).len() == upto,
        forall|j: int|
            0 <= j < upto ==> #[trigger] votes_upto(q, m, upto)[j] == (
                song,
                offset_bin_of(shift) as i64,
            ),
    decreases upto,
{
    if upto > 0 {
        lemma_votes_are_single(q, m, song, shift, upto - 1);
        let f = q[upto - 1];
        assert(0 <= q[upto - 1].anchor_time_us + shift <= u64::MAX);
        let mine = fingerprint_votes(f, m);
        assert(mine.len() == 1);
        assert(mine[0] == (song, offset_bin_of(shift) as i64));
        let cur = votes_upto(q, m, upto);
        let prev = votes_upto(q, m, upto - 1);
        assert forall|j: int| 0 <= j < upto implies #[trigger] cur[j] == (
            song,
            offset_bin_of(shift) as i64,
        ) by {
            if j < upto - 1 {
                assert(cur[j] == prev[j]);
            } else {
                assert(cur[j] == mine[0]);
            }
        }
    }
}

} // verus!
