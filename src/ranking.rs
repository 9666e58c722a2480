//! Selection of the best-ranked entries of a list of `(key, id)` pairs.
//!
//! Entries are ranked by key, largest first; equal keys are ranked by id,
//! smallest first. Both the spectral peaks of a band and the songs of a vote
//! are chosen this way.
use vstd::prelude::*;

verus! {

/// `a` ranks ahead of `b`: a larger key first, and on equal keys the smaller id.
pub open spec fn ranks_before(a: (u64, u64), b: (u64, u64)) -> bool {
    a.0 > b.0 || (a.0 == b.0 && a.1 < b.1)
}

/// `r` lists, best first and without repetition, the `k` best-ranked entries
/// of `cands`, or all of them when `cands` holds fewer than `k` distinct entries.
pub open spec fn is_top_k(cands: Seq<(u64, u64)>, k: nat, r: Seq<(u64, u64)>) -> bool {
    &&& r.len() <= k
    &&& forall|i: int, j: int| 0 <= i < j < r.len() ==> ranks_before(r[i], r[j])
    &&& forall|i: int| 0 <= i < r.len() ==> cands.contains(#[trigger] r[i])
    &&& forall|x: (u64, u64)|
        cands.contains(x) && !r.contains(x) ==> r.len() == k && forall|i: int|
            0 <= i < r.len() ==> ranks_before(#[trigger] r[i], x)
}

/// The `k` best-ranked entries of `cands`, best first (unique by `lemma_top_k_unique`).
pub open spec fn top_k_of(cands: Seq<(u64, u64)>, k: nat) -> Seq<(u64, u64)> {
    choose|r: Seq<(u64, u64)>| is_top_k(cands, k, r)
}

proof fn lemma_ranks_total(a: (u64, u64), b: (u64, u64))
    ensures
        a != b ==> ranks_before(a, b) || ranks_before(b, a),
        !(ranks_before(a, b) && ranks_before(b, a)),
        !ranks_before(a, a),
{
}

proof fn lemma_top_k_prefix_agrees(
    cands: Seq<(u64, u64)>,
    k: nat,
    r1: Seq<(u64, u64)>,
    r2: Seq<(u64, u64)>,
    n: int,
)
    requires
        is_top_k(cands, k, r1),
        is_top_k(cands, k, r2),
        0 <= n <= r1.len(),
        n <= r2.len(),
    ensures
        forall|j: int| 0 <= j < n ==> r1[j] == r2[j],
    decreases n,
{
    if n > 0 {
        lemma_top_k_prefix_agrees(cands, k, r1, r2, n - 1);
        let i = n - 1;
        let x = r1[i];
        let y = r2[i];
        if x != y {
            lemma_ranks_total(x, y);
            if ranks_before(x, y) {
                assert(cands.contains(r1[i]));
                if r2.contains(x) {
                    let j = choose|j: int| 0 <= j < r2.len() && r2[j] == x;
                    if j < i {
                        assert(ranks_before(r1[j], r1[i]));
                        lemma_ranks_total(r1[j], r1[i]);
                    } else {
                        assert(ranks_before(r2[i], r2[j]));
                        lemma_ranks_total(x, y);
                    }
                }
                assert(ranks_before(r2[i], x));
            } else {
                assert(cands.contains(r2[i]));
                if r1.contains(y) {
                    let j = choose|j: int| 0 <= j < r1.len() && r1[j] == y;
                    if j < i {
                        assert(ranks_before(r2[j], r2[i]));
                        lemma_ranks_total(r2[j], r2[i]);
                    } else {
                        assert(ranks_before(r1[i], r1[j]));
                        lemma_ranks_total(x, y);
                    }
                }
                assert(ranks_before(r1[i], y));
            }
        }
    }
}

/// Whatever meets `is_top_k` for given candidates and bound is one and the
/// same sequence: the selection leaves nothing open, ties included.
pub proof fn lemma_top_k_unique(
    cands: Seq<(u64, u64)>,
    k: nat,
    r1: Seq<(u64, u64)>,
    r2: Seq<(u64, u64)>,
)
    requires
        is_top_k(cands, k, r1),
        is_top_k(cands, k, r2),
    ensures
        r1 == r2,
{
    let m = if r1.len() <= r2.len() { r1.len() as int } else { r2.len() as int };
    lemma_top_k_prefix_agrees(cands, k, r1, r2, m);
    if r1.len() > r2.len() {
        let x = r1[m];
        assert(cands.contains(x));
        if r2.contains(x) {
            let j = choose|j: int| 0 <= j < r2.len() && r2[j] == x;
            assert(r1[j] == r2[j]);
            assert(ranks_before(r1[j], r1[m]));
            lemma_ranks_total(x, x);
        }
    } else if r2.len() > r1.len() {
        let y = r2[m];
        assert(cands.contains(y));
        if r1.contains(y) {
            let j = choose|j: int| 0 <= j < r1.len() && r1[j] == y;
            assert(r1[j] == r2[j]);
            assert(ranks_before(r2[j], r2[m]));
            lemma_ranks_total(y, y);
        }
    }
    assert(r1 =~= r2);
}

/// A selection that meets `is_top_k` is the one `top_k_of` names.
pub proof fn lemma_top_k_of(cands: Seq<(u64, u64)>, k: nat, r: Seq<(u64, u64)>)
    requires
        is_top_k(cands, k, r),
    ensures
        top_k_of(cands, k) == r,
        is_top_k(cands, k, top_k_of(cands, k)),
{
    lemma_top_k_unique(cands, k, r, top_k_of(cands, k));
}

/// The selection depends on which entries the candidates hold, not on their
/// order or repetition.
pub proof fn lemma_top_k_same_entries(c1: Seq<(u64, u64)>, c2: Seq<(u64, u64)>, k: nat)
    requires
        forall|x: (u64, u64)| c1.contains(x) <==> c2.contains(x),
        exists|r: Seq<(u64, u64)>| is_top_k(c1, k, r),
    ensures
        top_k_of(c1, k) == top_k_of(c2, k),
{
    let r = top_k_of(c1, k);
    assert(is_top_k(c2, k, r));
    lemma_top_k_of(c2, k, r);
}

/// `c` may follow the last entry of `r`: `r` is empty or its last entry ranks ahead of `c`.
spec fn follows_last(r: Seq<(u64, u64)>, c: (u64, u64)) -> bool {
    r.len() == 0 || ranks_before(r[r.len() - 1], c)
}

/// The best-ranked entry of `c` that may follow the last entry of `r`, if any.
proof fn lemma_best_following(c: Seq<(u64, u64)>, r: Seq<(u64, u64)>) -> (b: Option<(u64, u64)>)
    ensures
        match b {
            Some(x) => {
                &&& c.contains(x)
                &&& follows_last(r, x)
                &&& forall|y: (u64, u64)|
                    c.contains(y) && follows_last(r, y) ==> !ranks_before(y, x)
            },
            None => forall|y: (u64, u64)| c.contains(y) ==> !follows_last(r, y),
        },
    decreases c.len(),
{
    if c.len() == 0 {
        None
    } else {
        let init = c.drop_last();
        let z = c.last();
        let prev = lemma_best_following(init, r);
        assert forall|y: (u64, u64)| c.contains(y) implies init.contains(y) || y == z by {
            let j = choose|j: int| 0 <= j < c.len() && c[j] == y;
            if j < c.len() - 1 {
                assert(init[j] == y);
            }
        }
        assert forall|y: (u64, u64)| init.contains(y) implies c.contains(y) by {
            let j = choose|j: int| 0 <= j < init.len() && init[j] == y;
            assert(c[j] == y);
        }
        assert(c.contains(z)) by {
            assert(c[c.len() - 1] == z);
        }
        match prev {
            Some(x) => {
                if follows_last(r, z) && ranks_before(z, x) {
                    assert forall|y: (u64, u64)|
                        c.contains(y) && follows_last(r, y) implies !ranks_before(y, z) by {
                        lemma_ranks_total(y, x);
                        lemma_ranks_total(z, x);
                        lemma_ranks_total(y, z);
                    }
                    Some(z)
                } else {
                    assert forall|y: (u64, u64)|
                        c.contains(y) && follows_last(r, y) implies !ranks_before(y, x) by {
                        if y == z {
                            lemma_ranks_total(z, x);
                        }
                    }
                    Some(x)
                }
            },
            None => {
                if follows_last(r, z) {
                    lemma_ranks_total(z, z);
                    Some(z)
                } else {
                    None
                }
            },
        }
    }
}

/// Every list of candidates has a selection of its `k` best entries.
pub proof fn lemma_top_k_exists(cands: Seq<(u64, u64)>, k: nat)
    ensures
        is_top_k(cands, k, top_k_of(cands, k)),
    decreases k,
{
    if k == 0 {
        assert(is_top_k(cands, 0, Seq::empty()));
    } else {
        lemma_top_k_exists(cands, (k - 1) as nat);
        let r = top_k_of(cands, (k - 1) as nat);
        if r.len() < k - 1 {
            assert(is_top_k(cands, k, r));
        } else {
            match lemma_best_following(cands, r) {
                None => {
                    assert forall|x: (u64, u64)| cands.contains(x) implies r.contains(x) by {
                        if !r.contains(x) {
                            if r.len() > 0 {
                                assert(ranks_before(r[r.len() - 1], x));
                            }
                        }
                    }
                    assert(is_top_k(cands, k, r));
                },
                Some(b) => {
                    if r.contains(b) {
                        let i = choose|i: int| 0 <= i < r.len() && r[i] == b;
                        if i < r.len() - 1 {
                            assert(ranks_before(r[i], r[r.len() - 1]));
                        }
                        lemma_ranks_total(r[i], r[r.len() - 1]);
                    }
                    let r2 = r.push(b);
                    assert forall|x: (u64, u64)|
                        cands.contains(x) && !r2.contains(x) implies r2.len() == k && forall|i: int|
                        0 <= i < r2.len() ==> ranks_before(#[trigger] r2[i], x) by {
                        assert(!r.contains(x)) by {
                            if r.contains(x) {
                                let i = choose|i: int| 0 <= i < r.len() && r[i] == x;
                                assert(r2[i] == x);
                            }
                        }
                        assert(x != b) by {
                            assert(r2[r.len() as int] == b);
                        }
                        if r.len() > 0 {
                            assert(ranks_before(r[r.len() - 1], x));
                        }
                        lemma_ranks_total(b, x);
                        assert forall|i: int| 0 <= i < r2.len() implies ranks_before(
                            #[trigger] r2[i],
                            x,
                        ) by {
                            if i < r.len() {
                                assert(r2[i] == r[i]);
                            }
                        }
                    }
                    assert forall|i: int| 0 <= i < r2.len() implies cands.contains(
                        #[trigger] r2[i],
                    ) by {
                        if i < r.len() {
                            assert(r2[i] == r[i]);
                        }
                    }
                    assert forall|i: int, j: int| 0 <= i < j < r2.len() implies ranks_before(
                        r2[i],
                        r2[j],
                    ) by {
                        assert(r2[i] == r[i]);
                        if j < r.len() {
                            assert(r2[j] == r[j]);
                        } else {
                            assert(cands.contains(b) && !r.contains(b));
                        }
                    }
                    assert(is_top_k(cands, k, r2));
                },
            }
        }
        lemma_top_k_of(cands, k, choose|r: Seq<(u64, u64)>| is_top_k(cands, k, r));
    }
}

fn ranks_ahead(a: (u64, u64), b: (u64, u64)) -> (r: bool)
    ensures
        r == ranks_before(a, b),
{
    a.0 > b.0 || (a.0 == b.0 && a.1 < b.1)
}

/// The `k` best-ranked entries of `cands`, best first, each once.
pub fn top_k(cands: &Vec<(u64, u64)>, k: usize) -> (r: Vec<(u64, u64)>)
    ensures
        is_top_k(cands@, k as nat, r@),
        r@ == top_k_of(cands@, k as nat),
{
    let mut r: Vec<(u64, u64)> = Vec::new();
    let mut exhausted = false;
    while r.len() < k && !exhausted
        invariant
            r.len() <= k,
            forall|i: int, j: int| 0 <= i < j < r.len() ==> ranks_before(r@[i], r@[j]),
            forall|i: int| 0 <= i < r.len() ==> cands@.contains(#[trigger] r@[i]),
            forall|x: (u64, u64)|
                cands@.contains(x) && !r@.contains(x) ==> forall|i: int|
                    0 <= i < r.len() ==> ranks_before(#[trigger] r@[i], x),
            exhausted ==> forall|x: (u64, u64)| cands@.contains(x) ==> r@.contains(x),
        decreases (k - r.len()) as int + if exhausted { 0int } else { 1int },
    {
        let mut best: Option<(u64, u64)> = None;
        let n = r.len();
        let mut j: usize = 0;
        while j < cands.len()
            invariant
                n == r.len(),
                j <= cands.len(),
                match best {
                    Some(b) => {
                        &&& cands@.contains(b)
                        &&& follows_last(r@, b)
                        &&& forall|jj: int|
                            0 <= jj < j && follows_last(r@, #[trigger] cands@[jj])
                                ==> !ranks_before(cands@[jj], b)
                    },
                    None => forall|jj: int|
                        0 <= jj < j ==> !follows_last(r@, #[trigger] cands@[jj]),
                },
            decreases cands.len() - j,
        {
            let c = cands[j];
            let after_last = n == 0 || ranks_ahead(r[n - 1], c);
            assert(cands@.contains(cands@[j as int]));
            if after_last {
                match best {
                    Some(b) => {
                        if ranks_ahead(c, b) {
                            best = Some(c);
                            proof {
                                assert forall|jj: int|
                                    0 <= jj < j + 1 && follows_last(r@, #[trigger] cands@[jj])
                                        implies !ranks_before(cands@[jj], c) by {
                                    lemma_ranks_total(cands@[jj], b);
                                    lemma_ranks_total(c, b);
                                    lemma_ranks_total(c, c);
                                }
                            }
                        }
                    },
                    None => {
                        best = Some(c);
                        proof {
                            lemma_ranks_total(c, c);
                        }
                    },
                }
            }
            j = j + 1;
        }
        match best {
            Some(b) => {
                proof {
                    if r@.contains(b) {
                        let i = choose|i: int| 0 <= i < r.len() && r@[i] == b;
                        if i < n - 1 {
                            assert(ranks_before(r@[i], r@[n - 1]));
                        }
                        lemma_ranks_total(r@[i], r@[n - 1]);
                    }
                }
                let ghost old_r = r@;
                r.push(b);
                proof {
                    assert forall|x: (u64, u64)|
                        cands@.contains(x) && !r@.contains(x) implies forall|i: int|
                        0 <= i < r.len() ==> ranks_before(#[trigger] r@[i], x) by {
                        assert(!old_r.contains(x)) by {
                            if old_r.contains(x) {
                                let i = choose|i: int| 0 <= i < old_r.len() && old_r[i] == x;
                                assert(r@[i] == x);
                            }
                        }
                        let jj = choose|jj: int| 0 <= jj < cands.len() && cands@[jj] == x;
                        assert(x != b) by {
                            assert(r@[n as int] == b);
                        }
                        lemma_ranks_total(b, x);
                        assert(r@[n as int] == b);
                    }
                    assert forall|i: int| 0 <= i < r.len() implies cands@.contains(
                        #[trigger] r@[i],
                    ) by {
                        if i < n {
                            assert(r@[i] == old_r[i]);
                        }
                    }
                    assert forall|i: int, j: int| 0 <= i < j < r.len() implies ranks_before(
                        r@[i],
                        r@[j],
                    ) by {
                        if j == n {
                            assert(r@[i] == old_r[i]);
                        } else {
                            assert(r@[i] == old_r[i]);
                            assert(r@[j] == old_r[j]);
                        }
                    }
                }
            },
            None => {
                exhausted = true;
                proof {
                    assert forall|x: (u64, u64)| cands@.contains(x) implies r@.contains(x) by {
                        if !r@.contains(x) {
                            let jj = choose|jj: int| 0 <= jj < cands.len() && cands@[jj] == x;
                            if n > 0 {
                                assert(ranks_before(r@[n - 1], x));
                            }
                        }
                    }
                }
            },
        }
    }
    proof {
        lemma_top_k_of(cands@, k as nat, r@);
    }
    r
}

} // verus!
