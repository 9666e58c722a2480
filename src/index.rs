//! The bookkeeping on either side of the relational index: which rows an
//! ingest writes, how looked-up rows are grouped for voting, and the title a
//! song file is stored under.
use crate::arith::{lemma_div_at_most, round_div};
use crate::fingerprint::FingerprintInfo;
use std::collections::{HashMap, HashSet};
use vstd::prelude::*;

verus! {

broadcast use vstd::std_specs::hash::group_hash_axioms;

/// Width of the time buckets of ingest deduplication, in microseconds (10 ms).
pub const DEDUP_BUCKET_US: u64 = 10_000;

/// Rows written per statement when fingerprints are stored.
pub const FINGERPRINT_BATCH_SIZE: usize = 15_000;

/// Hashes loaded per statement when matches are looked up.
pub const LOOKUP_BATCH_SIZE: usize = 5_000;

/// The 10 ms bucket of a time of `t` microseconds, rounded to nearest.
pub open spec fn time_bucket_of(t: int) -> int {
    round_div(t, DEDUP_BUCKET_US as int)
}

/// Two fingerprints are duplicates when they share a hash and a time bucket.
pub open spec fn dedup_key(f: FingerprintInfo) -> (u64, int) {
    (f.hash, time_bucket_of(f.anchor_time_us as int))
}

/// Fingerprint `i` of `fps` repeats the key of an earlier one.
pub open spec fn repeats_earlier(fps: Seq<FingerprintInfo>, i: int) -> bool {
    exists|j: int| 0 <= j < i && dedup_key(#[trigger] fps[j]) == dedup_key(fps[i])
}

/// The rows an ingest of song `song_id` writes for the first `upto`
/// fingerprints: the first of each key, in order, assigned to the song.
pub open spec fn rows_upto(fps: Seq<FingerprintInfo>, song_id: u32, upto: int) -> Seq<
    FingerprintInfo,
>
    decreases upto,
{
    if upto <= 0 {
        Seq::empty()
    } else {
        let prev = rows_upto(fps, song_id, upto - 1);
        if repeats_earlier(fps, upto - 1) {
            prev
        } else {
            prev.push(FingerprintInfo { song_id, ..fps[upto - 1] })
        }
    }
}

/// The rows an ingest of song `song_id` writes for `fps`.
pub open spec fn ingest_rows(fps: Seq<FingerprintInfo>, song_id: u32) -> Seq<FingerprintInfo> {
    rows_upto(fps, song_id, fps.len() as int)
}

spec fn dedup_key_code(f: FingerprintInfo) -> int {
    f.hash * 0x1_0000_0000_0000_0000 + time_bucket_of(f.anchor_time_us as int)
}

proof fn lemma_dedup_key_code(f: FingerprintInfo, g: FingerprintInfo)
    ensures
        0 <= time_bucket_of(f.anchor_time_us as int) < 0x1_0000_0000_0000_0000,
        0 <= dedup_key_code(f) <= u128::MAX,
        dedup_key_code(f) == dedup_key_code(g) <==> dedup_key(f) == dedup_key(g),
{
    let t = f.anchor_time_us as int;
    lemma_div_at_most(2 * t + 10000, 20000, 0xFFFF_FFFF_FFFF_FFFF);
    let u = g.anchor_time_us as int;
    lemma_div_at_most(2 * u + 10000, 20000, 0xFFFF_FFFF_FFFF_FFFF);
    let bf = time_bucket_of(t);
    let bg = time_bucket_of(u);
    let hf = f.hash as int;
    let hg = g.hash as int;
    assert(hf * 0x1_0000_0000_0000_0000 + bf == hg * 0x1_0000_0000_0000_0000 + bg ==> hf == hg)
        by (nonlinear_arith)
        requires
            0 <= bf < 0x1_0000_0000_0000_0000,
            0 <= bg < 0x1_0000_0000_0000_0000,
    ;
    assert(hf * 0x1_0000_0000_0000_0000 + bf <= u128::MAX) by (nonlinear_arith)
        requires
            0 <= bf < 0x1_0000_0000_0000_0000,
            0 <= hf <= u64::MAX,
    ;
}

fn dedup_key_code_of(f: &FingerprintInfo) -> (k: u128)
    ensures
        k == dedup_key_code(*f),
{
    proof {
        lemma_dedup_key_code(*f, *f);
    }
    let t = f.anchor_time_us as u128;
    (f.hash as u128) * 0x1_0000_0000_0000_0000 + (2 * t + 10000) / 20000
}

/// The rows that storing `fingerprints` for song `song_id` writes: each
/// fingerprint whose hash and 10 ms time bucket no earlier one shares, in
/// order, assigned to the song.
pub fn dedup_fingerprints(song_id: u32, fingerprints: &Vec<FingerprintInfo>) -> (r: Vec<
    FingerprintInfo,
>)
    ensures
        r@ == ingest_rows(fingerprints@, song_id),
{
    let ghost fps = fingerprints@;
    let mut seen: HashSet<u128> = HashSet::new();
    let mut r: Vec<FingerprintInfo> = Vec::new();
    let mut i: usize = 0;
    while i < fingerprints.len()
        invariant
            fps == fingerprints@,
            i <= fps.len(),
            r@ == rows_upto(fps, song_id, i as int),
            forall|k: u128|
                #[trigger] seen@.contains(k) <==> exists|j: int|
                    0 <= j < i && dedup_key_code(fps[j]) == k,
        decreases fps.len() - i,
    {
        let f = fingerprints[i];
        let key = dedup_key_code_of(&f);
        let ghost old_seen = seen@;
        let fresh = seen.insert(key);
        proof {
            if repeats_earlier(fps, i as int) {
                let j = choose|j: int| 0 <= j < i && dedup_key(#[trigger] fps[j]) == dedup_key(fps[i as int]);
                lemma_dedup_key_code(fps[j], f);
                assert(old_seen.contains(key));
            } else if old_seen.contains(key) {
                let j = choose|j: int| 0 <= j < i && dedup_key_code(fps[j]) == key;
                lemma_dedup_key_code(fps[j], f);
            }
            assert forall|k: u128| #[trigger] seen@.contains(k) <==> exists|j: int|
                0 <= j < i + 1 && dedup_key_code(fps[j]) == k by {
                if k == key {
                    assert(dedup_key_code(fps[i as int]) == k);
                }
                if exists|j: int| 0 <= j < i + 1 && dedup_key_code(fps[j]) == k {
                    let j = choose|j: int| 0 <= j < i + 1 && dedup_key_code(fps[j]) == k;
                    if j < i {
                        assert(old_seen.contains(k));
                    }
                }
            }
        }
        if fresh {
            r.push(FingerprintInfo { song_id, ..f });
        }
        i = i + 1;
    }
    r
}

proof fn lemma_rows_facts(fps: Seq<FingerprintInfo>, song_id: u32, upto: int)
    requires
        0 <= upto <= fps.len(),
    ensures
        forall|x: int|
            0 <= x < rows_upto(fps, song_id, upto).len() ==> (#[trigger] rows_upto(
                fps,
                song_id,
                upto,
            )[x]).song_id == song_id && exists|j: int|
                0 <= j < upto && dedup_key(rows_upto(fps, song_id, upto)[x]) == dedup_key(fps[j]),
        forall|x: int, y: int|
            0 <= x < y < rows_upto(fps, song_id, upto).len() ==> dedup_key(
                #[trigger] rows_upto(fps, song_id, upto)[x],
            ) != dedup_key(#[trigger] rows_upto(fps, song_id, upto)[y]),
    decreases upto,
{
    if upto > 0 {
        lemma_rows_facts(fps, song_id, upto - 1);
        let prev = rows_upto(fps, song_id, upto - 1);
        let cur = rows_upto(fps, song_id, upto);
        if !repeats_earlier(fps, upto - 1) {
            let u = upto - 1;
            assert forall|x: int| 0 <= x < cur.len() implies (#[trigger] cur[x]).song_id == song_id
                && exists|j: int| 0 <= j < upto && dedup_key(cur[x]) == dedup_key(fps[j]) by {
                if x < prev.len() {
                    assert(cur[x] == prev[x]);
                    let j = choose|j: int|
                        0 <= j < upto - 1 && dedup_key(prev[x]) == dedup_key(fps[j]);
                    assert(0 <= j < upto && dedup_key(cur[x]) == dedup_key(fps[j]));
                } else {
                    assert(dedup_key(cur[x]) == dedup_key(fps[u]));
                }
            }
            assert forall|x: int, y: int| 0 <= x < y < cur.len() implies dedup_key(
                #[trigger] cur[x],
            ) != dedup_key(#[trigger] cur[y]) by {
                assert(cur[x] == prev[x]);
                if y < prev.len() {
                    assert(cur[y] == prev[y]);
                } else {
                    let j = choose|j: int|
                        0 <= j < upto - 1 && dedup_key(prev[x]) == dedup_key(fps[j]);
                    if dedup_key(cur[x]) == dedup_key(cur[y]) {
                        assert(dedup_key(cur[y]) == dedup_key(fps[u]));
                        assert(dedup_key(fps[j]) == dedup_key(fps[u]));
                        assert(repeats_earlier(fps, u));
                    }
                }
            }
        }
    }
}

proof fn lemma_rows_of_distinct(r: Seq<FingerprintInfo>, song_id: u32, upto: int)
    requires
        0 <= upto <= r.len(),
        forall|x: int| 0 <= x < r.len() ==> (#[trigger] r[x]).song_id == song_id,
        forall|x: int, y: int|
            0 <= x < y < r.len() ==> dedup_key(#[trigger] r[x]) != dedup_key(#[trigger] r[y]),
    ensures
        rows_upto(r, song_id, upto) == r.subrange(0, upto),
    decreases upto,
{
    if upto > 0 {
        lemma_rows_of_distinct(r, song_id, upto - 1);
        assert(!repeats_earlier(r, upto - 1));
        assert(FingerprintInfo { song_id, ..r[upto - 1] } == r[upto - 1]);
        assert(r.subrange(0, upto) =~= r.subrange(0, upto - 1).push(r[upto - 1]));
    } else {
        assert(r.subrange(0, 0) =~= Seq::<FingerprintInfo>::empty());
    }
}

/// No two rows of an ingest share a hash and a 10 ms time bucket, so
/// deduplicating them again, for the same song, gives them back unchanged:
/// storing a song's rows a second time has nothing new to add.
pub proof fn lemma_ingest_rows_idempotent(fps: Seq<FingerprintInfo>, song_id: u32)
    ensures
        forall|x: int, y: int|
            0 <= x < y < ingest_rows(fps, song_id).len() ==> dedup_key(
                #[trigger] ingest_rows(fps, song_id)[x],
            ) != dedup_key(#[trigger] ingest_rows(fps, song_id)[y]),
        ingest_rows(ingest_rows(fps, song_id), song_id) == ingest_rows(fps, song_id),
{
    let r = ingest_rows(fps, song_id);
    lemma_rows_facts(fps, song_id, fps.len() as int);
    lemma_rows_of_distinct(r, song_id, r.len() as int);
    assert(r.subrange(0, r.len() as int) =~= r);
}

/// The rows of `rows`, among the first `upto`, whose hash is `hash`, as
/// `(song, anchor time)` pairs in order.
pub open spec fn matches_upto(rows: Seq<(u64, u32, u64)>, hash: u64, upto: int) -> Seq<(u32, u64)>
    decreases upto,
{
    if upto <= 0 {
        Seq::empty()
    } else {
        let prev = matches_upto(rows, hash, upto - 1);
        let row = rows[upto - 1];
        if row.0 == hash {
            prev.push((row.1, row.2))
        } else {
            prev
        }
    }
}

/// Looked-up rows `(hash, song, anchor time in microseconds)` grouped by
/// hash: each hash that occurs maps to its rows' `(song, anchor time)`, in
/// the order of `rows`.
pub fn group_matches_by_hash(rows: &Vec<(u64, u32, u64)>) -> (r: HashMap<u64, Vec<(u32, u64)>>)
    ensures
        forall|h: u64| #[trigger]
            r@.contains_key(h) <==> exists|j: int| 0 <= j < rows.len() && rows@[j].0 == h,
        forall|h: u64| #[trigger]
            r@.contains_key(h) ==> r@[h]@ == matches_upto(rows@, h, rows.len() as int),
{
    let mut map: HashMap<u64, Vec<(u32, u64)>> = HashMap::new();
    let mut i: usize = 0;
    while i < rows.len()
        invariant
            i <= rows.len(),
            forall|h: u64| #[trigger]
                map@.contains_key(h) <==> exists|j: int| 0 <= j < i && rows@[j].0 == h,
            forall|h: u64| #[trigger]
                map@.contains_key(h) ==> map@[h]@ == matches_upto(rows@, h, i as int),
        decreases rows.len() - i,
    {
        let (hash, song, time) = rows[i];
        let ghost old_map = map@;
        let mut list = match map.remove(&hash) {
            Some(list) => list,
            None => Vec::new(),
        };
        proof {
            if !old_map.contains_key(hash) {
                assert forall|j: int| 0 <= j < i implies #[trigger] rows@[j].0 != hash by {
                    if rows@[j].0 == hash {
                        assert(old_map.contains_key(hash));
                    }
                }
                lemma_matches_absent(rows@, hash, i as int);
            }
        }
        list.push((song, time));
        map.insert(hash, list);
        proof {
            assert forall|h: u64| #[trigger]
                map@.contains_key(h) <==> exists|j: int| 0 <= j < i + 1 && rows@[j].0 == h by {
                if h == hash {
                    assert(rows@[i as int].0 == h);
                } else if exists|j: int| 0 <= j < i + 1 && rows@[j].0 == h {
                    let j = choose|j: int| 0 <= j < i + 1 && rows@[j].0 == h;
                    assert(old_map.contains_key(h));
                }
            }
            assert forall|h: u64| #[trigger] map@.contains_key(h) implies map@[h]@ == matches_upto(
                rows@,
                h,
                i + 1,
            ) by {
                if h != hash {
                    assert(old_map.contains_key(h));
                }
            }
        }
        i = i + 1;
    }
    map
}

proof fn lemma_matches_absent(rows: Seq<(u64, u32, u64)>, hash: u64, upto: int)
    requires
        forall|j: int| 0 <= j < upto ==> #[trigger] rows[j].0 != hash,
    ensures
        matches_upto(rows, hash, upto) == Seq::<(u32, u64)>::empty(),
    decreases upto,
{
    if upto > 0 {
        lemma_matches_absent(rows, hash, upto - 1);
    }
}

/// Where the last `'/'` among the first `upto` characters of `p` ends: the
/// index after it, or 0 when there is none.
pub open spec fn name_start(p: Seq<char>, upto: int) -> int
    decreases upto,
{
    if upto <= 0 {
        0
    } else if p[upto - 1] == '/' {
        upto
    } else {
        name_start(p, upto - 1)
    }
}

/// The title a song file is stored under: the part of its path after the last `'/'`.
pub fn song_title_from_path(path: &str) -> (r: String)
    ensures
        r@ == path@.subrange(name_start(path@, path@.len() as int), path@.len() as int),
{
    let len = path.unicode_len();
    let mut start: usize = 0;
    let mut i: usize = 0;
    while i < len
        invariant
            len == path@.len(),
            i <= len,
            start == name_start(path@, i as int),
            start <= i,
        decreases len - i,
    {
        if path.get_char(i) == '/' {
            start = i + 1;
        }
        i = i + 1;
    }
    String::from_str(path.substring_char(start, len))
}

} // verus!
