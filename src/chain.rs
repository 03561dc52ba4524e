use vstd::prelude::*;
use vstd::seq_lib::to_multiset_update;

verus! {

/// A pair of matching intervals: `((bgn1, end1, orientation1), (bgn2, end2, orientation2))`,
/// the first in query space, the second in target space.
pub type HitPair = ((u32, u32, u8), (u32, u32, u8));

/// The gap penalty coefficient as the exact fraction `num / den`.
///
/// Chain scores are reported in units of `1 / den`, so that every score is exact.
#[derive(Clone, Copy, Debug, PartialEq, Eq)]
pub struct Penalty {
    pub num: u32,
    pub den: u32,
}

/// Why chaining refused its input.
#[derive(Clone, Copy, Debug, PartialEq, Eq)]
pub enum ChainError {
    /// Fewer than two hit pairs were given.
    PreconditionViolation,
}

/// Largest magnitude of a vertex's own score (a length times a denominator).
pub open spec fn score_unit() -> int {
    0x1_0000_0000_0000_0000
}

pub open spec fn abs_diff(a: u32, b: u32) -> int {
    if a >= b { a - b } else { b - a }
}

/// A vertex's own score: its query length, in units of `1 / den`.
pub open spec fn own_score(h: HitPair, pen: Penalty) -> int {
    (h.0.1 as int - h.0.0 as int) * pen.den as int
}

/// Distance between a predecessor `p` and the hit `h`, in query plus target space.
/// A hit whose two orientations differ runs antiparallel in target space.
pub open spec fn gap(p: HitPair, h: HitPair) -> int {
    abs_diff(h.0.0, p.0.1) + if h.0.2 == h.1.2 {
        abs_diff(h.1.0, p.1.1)
    } else {
        abs_diff(h.1.1, p.1.0)
    }
}

/// Score of `h` when it extends a chain ending at `p`, whose score is `ps`.
pub open spec fn link_score(ps: int, p: HitPair, h: HitPair, pen: Penalty) -> int {
    ps + own_score(h, pen) - pen.num as int * gap(p, h)
}

pub open spec fn sorted_by_qbgn(s: Seq<HitPair>) -> bool {
    forall|a: int, b: int| 0 <= a <= b < s.len() ==> s[a].0.0 <= s[b].0.0
}

/// Number of steps between distinct query-begin coordinates in `s[lo..=i]`; on a
/// sorted sequence, the number of distinct query-begin coordinates in `s[lo..i]`
/// other than that of `s[i]`.
pub open spec fn distinct_before(s: Seq<HitPair>, lo: int, i: int) -> nat
    decreases i - lo,
{
    if lo >= i {
        0
    } else {
        distinct_before(s, lo + 1, i) + if s[lo].0.0 != s[lo + 1].0.0 {
            1nat
        } else {
            0nat
        }
    }
}

/// Whether `j` is a predecessor candidate of `i`: it comes earlier, starts at another
/// query coordinate, and the backward scan from `i` reaches it before `max_span`
/// distinct query-begin coordinates have been seen (at least one is always scanned).
pub open spec fn in_window(s: Seq<HitPair>, j: int, i: int, max_span: u32) -> bool {
    &&& 0 <= j < i < s.len()
    &&& s[j].0.0 != s[i].0.0
    &&& distinct_before(s, j + 1, i) < (if max_span == 0 { 1 } else { max_span as int })
}

/// Score of vertex `i` when chained after candidate `j`.
pub open spec fn cand(s: Seq<HitPair>, scores: Seq<i128>, j: int, i: int, pen: Penalty) -> int {
    link_score(scores[j] as int, s[j], s[i], pen)
}

/// The chaining recurrence at vertex `i`: the best candidate wins if its score is
/// positive (the nearest one on ties); otherwise `i` starts a chain of its own.
pub open spec fn vertex_ok(
    s: Seq<HitPair>,
    scores: Seq<i128>,
    preds: Seq<Option<usize>>,
    i: int,
    max_span: u32,
    pen: Penalty,
) -> bool {
    match preds[i] {
        None => {
            &&& scores[i] == own_score(s[i], pen)
            &&& forall|k: int| #[trigger]
                in_window(s, k, i, max_span) ==> cand(s, scores, k, i, pen) <= 0
        },
        Some(p) => {
            &&& in_window(s, p as int, i, max_span)
            &&& scores[i] == cand(s, scores, p as int, i, pen)
            &&& scores[i] > 0
            &&& forall|k: int| #[trigger]
                in_window(s, k, i, max_span) ==> cand(s, scores, k, i, pen) <= scores[i]
            &&& forall|k: int|
                #![trigger in_window(s, k, i, max_span)]
                in_window(s, k, i, max_span) && p < k ==> cand(s, scores, k, i, pen) < scores[i]
        },
    }
}

proof fn lemma_distinct_before_mono(s: Seq<HitPair>, lo: int, hi: int, i: int)
    requires
        lo <= hi <= i < s.len(),
        0 <= lo,
    ensures
        distinct_before(s, lo, i) >= distinct_before(s, hi, i),
    decreases hi - lo,
{
    if lo < hi {
        lemma_distinct_before_mono(s, lo + 1, hi, i);
    }
}

proof fn lemma_distinct_before_pos(s: Seq<HitPair>, m: int, i: int)
    requires
        0 <= m < i < s.len(),
        s[m].0.0 != s[i].0.0,
    ensures
        distinct_before(s, m, i) >= 1,
    decreases i - m,
{
    if s[m].0.0 == s[m + 1].0.0 {
        lemma_distinct_before_pos(s, m + 1, i);
    }
}

fn abs_diff_exec(a: u32, b: u32) -> (r: u64)
    ensures
        r == abs_diff(a, b),
{
    if a >= b {
        (a - b) as u64
    } else {
        (b - a) as u64
    }
}

fn gap_exec(p: HitPair, h: HitPair) -> (r: u64)
    ensures
        r == gap(p, h),
        r < 0x2_0000_0000,
{
    let q = abs_diff_exec(h.0.0, p.0.1);
    let t = if h.0.2 == h.1.2 {
        abs_diff_exec(h.1.0, p.1.1)
    } else {
        abs_diff_exec(h.1.1, p.1.0)
    };
    q + t
}

fn own_score_exec(h: HitPair, pen: Penalty) -> (r: i128)
    ensures
        r == own_score(h, pen),
        -score_unit() < r < score_unit(),
{
    let len: i128 = h.0.1 as i128 - h.0.0 as i128;
    proof {
        let d = pen.den as int;
        assert(-0x1_0000_0000 < len < 0x1_0000_0000);
        assert(0 <= d < 0x1_0000_0000);
        assert(-score_unit() < len * d < score_unit()) by (nonlinear_arith)
            requires
                -0x1_0000_0000 < len < 0x1_0000_0000,
                0 <= d < 0x1_0000_0000,
        ;
    }
    len * (pen.den as i128)
}

/// Computes, for each vertex of `s` (sorted by query begin), its best chain score
/// and best predecessor by the banded recurrence `vertex_ok`.
pub fn chain_scores(s: &Vec<HitPair>, max_span: u32, pen: Penalty) -> (r: (
    Vec<i128>,
    Vec<Option<usize>>,
))
    requires
        sorted_by_qbgn(s@),
        s@.len() <= u32::MAX,
    ensures
        r.0@.len() == s@.len(),
        r.1@.len() == s@.len(),
        forall|i: int| 0 <= i < s@.len() ==> #[trigger] vertex_ok(s@, r.0@, r.1@, i, max_span, pen),
        forall|i: int|
            0 <= i < s@.len() ==> -score_unit() <= #[trigger] r.0@[i] <= (i + 1) * score_unit(),
{
    let n = s.len();
    let mut scores: Vec<i128> = Vec::new();
    let mut preds: Vec<Option<usize>> = Vec::new();
    let mut i: usize = 0;
    while i < n
        invariant
            i <= n == s@.len() <= u32::MAX,
            sorted_by_qbgn(s@),
            scores@.len() == i,
            preds@.len() == i,
            forall|k: int| 0 <= k < i ==> #[trigger] vertex_ok(s@, scores@, preds@, k, max_span, pen),
            forall|k: int|
                0 <= k < i ==> -score_unit() <= #[trigger] scores@[k] <= (k + 1) * score_unit(),
        decreases n - i,
    {
        let hp = s[i];
        let own = own_score_exec(hp, pen);
        let mut best_s: i128 = 0;
        let mut best_p: Option<usize> = None;
        let mut j: usize = i;
        let mut cnt: u64 = 0;
        let mut done = false;
        let limit: Ghost<int> = Ghost(if max_span == 0 { 1 } else { max_span as int });
        while j > 0 && !done
            invariant
                i < n == s@.len() <= u32::MAX,
                sorted_by_qbgn(s@),
                hp == s@[i as int],
                own == own_score(hp, pen),
                -score_unit() < own < score_unit(),
                limit@ == (if max_span == 0 { 1 } else { max_span as int }),
                scores@.len() == i,
                forall|k: int|
                    0 <= k < i ==> -score_unit() <= #[trigger] scores@[k] <= (k + 1) * score_unit(),
                j <= i,
                cnt == distinct_before(s@, j as int, i as int),
                !done ==> cnt < limit@,
                done ==> forall|k: int| 0 <= k < j ==> !#[trigger] in_window(s@, k, i as int, max_span),
                forall|k: int|
                    j <= k < i && #[trigger] in_window(s@, k, i as int, max_span) ==> cand(
                        s@,
                        scores@,
                        k,
                        i as int,
                        pen,
                    ) <= best_s,
                best_p is None ==> best_s == 0,
                best_p matches Some(p) ==> {
                    &&& j <= p < i
                    &&& in_window(s@, p as int, i as int, max_span)
                    &&& best_s == cand(s@, scores@, p as int, i as int, pen)
                    &&& best_s > 0
                    &&& forall|k: int|
                        #![trigger in_window(s@, k, i as int, max_span)]
                        p < k < i && in_window(s@, k, i as int, max_span) ==> cand(
                            s@,
                            scores@,
                            k,
                            i as int,
                            pen,
                        ) < best_s
                },
                -score_unit() <= best_s <= (i + 1) * score_unit(),
            decreases j,
        {
            j = j - 1;
            let pre = s[j];
            proof {
                assert(s@[j as int].0.0 <= s@[j as int + 1].0.0);
                assert(s@[j as int + 1].0.0 <= s@[i as int].0.0);
            }
            if pre.0.0 != hp.0.0 {
                let g = gap_exec(pre, hp);
                let ps = scores[j];
                proof {
                    let num = pen.num as int;
                    let gi = g as int;
                    assert(0 <= num * gi <= 0x1_0000_0000 * 0x2_0000_0000) by (nonlinear_arith)
                        requires
                            0 <= num < 0x1_0000_0000,
                            0 <= gi < 0x2_0000_0000,
                    ;
                    assert((j + 1) * score_unit() <= i * score_unit()) by (nonlinear_arith)
                        requires
                            j + 1 <= i,
                    ;
                }
                let c: i128 = ps + own - (pen.num as i128) * (g as i128);
                assert(c == cand(s@, scores@, j as int, i as int, pen));
                assert(in_window(s@, j as int, i as int, max_span));
                if c > best_s {
                    best_s = c;
                    best_p = Some(j);
                }
                if s[j].0.0 != s[j + 1].0.0 {
                    cnt = cnt + 1;
                }
                if cnt >= max_span as u64 {
                    done = true;
                    proof {
                        assert forall|k: int| 0 <= k < j implies !#[trigger] in_window(
                            s@,
                            k,
                            i as int,
                            max_span,
                        ) by {
                            lemma_distinct_before_mono(s@, k + 1, j as int, i as int);
                            lemma_distinct_before_pos(s@, j as int, i as int);
                        }
                    }
                }
            }
        }
        proof {
            assert forall|k: int| 0 <= k < j implies !#[trigger] in_window(
                s@,
                k,
                i as int,
                max_span,
            ) by {
                if !done {
                    assert(j == 0);
                }
            }
        }
        let ghost old_scores = scores@;
        let ghost old_preds = preds@;
        if best_s > 0 {
            scores.push(best_s);
            preds.push(best_p);
        } else {
            scores.push(own);
            preds.push(None);
        }
        proof {
            assert((1 as int) * score_unit() <= (i + 1) * score_unit()) by (nonlinear_arith)
                requires
                    i >= 0,
            ;
            assert forall|k: int| 0 <= k <= i implies #[trigger] vertex_ok(
                s@,
                scores@,
                preds@,
                k,
                max_span,
                pen,
            ) by {
                if k < i {
                    assert(vertex_ok(s@, old_scores, old_preds, k, max_span, pen));
                    assert(preds@[k] == old_preds[k]);
                    assert forall|m: int| #[trigger] in_window(s@, m, k, max_span) implies cand(
                        s@,
                        scores@,
                        m,
                        k,
                        pen,
                    ) == cand(s@, old_scores, m, k, pen) by {}
                }
            }
        }
        i = i + 1;
    }
    (scores, preds)
}

/// Whether vertex `v` lies on one of the chains of `out`.
pub open spec fn in_chains(out: Seq<(i128, Vec<usize>)>, v: int) -> bool {
    exists|k: int, t: int|
        0 <= k < out.len() && 0 <= t < out[k].1@.len() && #[trigger] out[k].1@[t] == v
}

/// The `k`-th chain of `out`, peeled after those before it: a path of predecessor
/// links over vertices that no earlier chain holds, ending at an unconsumed vertex of
/// highest score and starting where the path meets a consumed vertex or its start;
/// its score is that of its last vertex minus that of its first.
pub open spec fn chain_ok(
    scores: Seq<i128>,
    preds: Seq<Option<usize>>,
    out: Seq<(i128, Vec<usize>)>,
    k: int,
) -> bool {
    let c = out[k].1@;
    let done = out.take(k);
    &&& c.len() > 0
    &&& forall|t: int| 0 <= t < c.len() ==> #[trigger] c[t] < scores.len()
    &&& forall|t: int| 0 <= t < c.len() ==> !in_chains(done, #[trigger] c[t] as int)
    &&& forall|t: int| 0 <= t < c.len() - 1 ==> preds[#[trigger] c[t + 1] as int] == Some(c[t])
    &&& match preds[c[0] as int] {
        None => true,
        Some(p) => in_chains(done, p as int),
    }
    &&& scores[c.last() as int] > 0
    &&& out[k].0 == scores[c.last() as int] - scores[c[0] as int]
    &&& out[k].0 >= 0
    &&& forall|v: int|
        0 <= v < scores.len() && !in_chains(done, v) ==> #[trigger] scores[v] <= scores[c.last()
            as int]
}

/// Predecessor links point backward, and scores are small enough to subtract.
pub open spec fn peelable(scores: Seq<i128>, preds: Seq<Option<usize>>) -> bool {
    &&& scores.len() == preds.len()
    &&& forall|i: int|
        0 <= i < preds.len() ==> match #[trigger] preds[i] {
            None => true,
            Some(p) => p < i,
        }
    &&& forall|i: int|
        0 <= i < scores.len() ==> -0x1_0000_0000_0000_0000_0000_0000_0000 <= #[trigger] scores[i]
            <= 0x1_0000_0000_0000_0000_0000_0000_0000
}

spec fn count_open(vis: Seq<bool>, k: int) -> nat
    decreases k,
{
    if k <= 0 {
        0
    } else {
        count_open(vis, k - 1) + if vis[k - 1] {
            0nat
        } else {
            1nat
        }
    }
}

proof fn lemma_count_open_set(vis: Seq<bool>, p: int, k: int)
    requires
        0 <= p < vis.len(),
        0 <= k <= vis.len(),
    ensures
        count_open(vis.update(p, true), k) == count_open(vis, k) - (if p < k && !vis[p] {
            1int
        } else {
            0int
        }),
    decreases k,
{
    if k > 0 {
        lemma_count_open_set(vis, p, k - 1);
    }
}

proof fn lemma_in_chains_push(out: Seq<(i128, Vec<usize>)>, x: (i128, Vec<usize>), v: int)
    ensures
        in_chains(out.push(x), v) <==> (in_chains(out, v) || exists|t: int|
            0 <= t < x.1@.len() && x.1@[t] == v),
{
    let o2 = out.push(x);
    if in_chains(o2, v) {
        let (k, t) = choose|k: int, t: int|
            0 <= k < o2.len() && 0 <= t < o2[k].1@.len() && #[trigger] o2[k].1@[t] == v;
        if k < out.len() {
            assert(out[k].1@[t] == v);
        } else {
            assert(x.1@[t] == v);
        }
    }
    if in_chains(out, v) {
        let (k, t) = choose|k: int, t: int|
            0 <= k < out.len() && 0 <= t < out[k].1@.len() && #[trigger] out[k].1@[t] == v;
        assert(o2[k].1@[t] == v);
    }
    if exists|t: int| 0 <= t < x.1@.len() && x.1@[t] == v {
        let t = choose|t: int| 0 <= t < x.1@.len() && x.1@[t] == v;
        assert(o2[out.len() as int].1@[t] == v);
    }
}

fn best_open(scores: &Vec<i128>, visited: &Vec<bool>) -> (r: Option<usize>)
    requires
        scores@.len() == visited@.len(),
    ensures
        r is None ==> forall|u: int|
            0 <= u < scores@.len() && !visited@[u] ==> #[trigger] scores@[u] <= 0,
        r matches Some(b) ==> {
            &&& b < scores@.len()
            &&& !visited@[b as int]
            &&& scores@[b as int] > 0
            &&& forall|u: int|
                0 <= u < scores@.len() && !visited@[u] ==> #[trigger] scores@[u] <= scores@[b as int]
        },
{
    let n = scores.len();
    let mut best_s: i128 = 0;
    let mut best_v: Option<usize> = None;
    let mut v: usize = 0;
    while v < n
        invariant
            n == scores@.len() == visited@.len(),
            v <= n,
            best_v is None ==> best_s == 0,
            best_v matches Some(b) ==> b < n && !visited@[b as int] && scores@[b as int] == best_s
                && best_s > 0,
            forall|u: int| 0 <= u < v && !visited@[u] ==> #[trigger] scores@[u] <= best_s,
        decreases n - v,
    {
        if !visited[v] && scores[v] > best_s {
            best_s = scores[v];
            best_v = Some(v);
        }
        v = v + 1;
    }
    best_v
}

fn walk_back(preds: &Vec<Option<usize>>, visited: &Vec<bool>, b: usize) -> (c: Vec<usize>)
    requires
        preds@.len() == visited@.len(),
        forall|i: int|
            0 <= i < preds@.len() ==> match #[trigger] preds@[i] {
                None => true,
                Some(p) => p < i,
            },
        b < preds@.len(),
        !visited@[b as int],
    ensures
        c@.len() >= 1,
        c@.last() == b,
        forall|t: int| 0 <= t < c@.len() ==> #[trigger] c@[t] < preds@.len(),
        forall|t: int| 0 <= t < c@.len() ==> !visited@[#[trigger] c@[t] as int],
        forall|t: int| 0 <= t < c@.len() - 1 ==> preds@[#[trigger] c@[t + 1] as int] == Some(c@[t]),
        match preds@[c@[0] as int] {
            None => true,
            Some(p) => visited@[p as int],
        },
{
    let n = preds.len();
    let mut track: Vec<usize> = Vec::new();
    track.push(b);
    let mut cur: usize = b;
    let mut stop = false;
    while !stop
        invariant
            n == preds@.len() == visited@.len(),
            forall|i: int|
                0 <= i < preds@.len() ==> match #[trigger] preds@[i] {
                    None => true,
                    Some(p) => p < i,
                },
            track@.len() >= 1,
            track@[0] == b,
            cur == track@.last(),
            forall|t: int| 0 <= t < track@.len() ==> #[trigger] track@[t] < n,
            forall|t: int| 0 <= t < track@.len() ==> !visited@[#[trigger] track@[t] as int],
            forall|t: int|
                0 <= t < track@.len() - 1 ==> preds@[#[trigger] track@[t] as int] == Some(
                    track@[t + 1],
                ),
            stop ==> match preds@[cur as int] {
                None => true,
                Some(p) => visited@[p as int],
            },
        decreases cur * 2 + if stop {
            0int
        } else {
            1int
        },
    {
        match preds[cur] {
            Some(p) => {
                if visited[p] {
                    stop = true;
                } else {
                    track.push(p);
                    cur = p;
                }
            },
            None => {
                stop = true;
            },
        }
    }
    let m = track.len();
    let mut c: Vec<usize> = Vec::new();
    while c.len() < m
        invariant
            m == track@.len(),
            c@.len() <= m,
            forall|t: int| 0 <= t < c@.len() ==> #[trigger] c@[t] == track@[m - 1 - t],
        decreases m - c@.len(),
    {
        c.push(track[m - 1 - c.len()]);
    }
    proof {
        assert forall|t: int| 0 <= t < m - 1 implies preds@[#[trigger] c@[t + 1] as int] == Some(
            c@[t],
        ) by {
            assert(c@[t + 1] == track@[m - 2 - t]);
            assert(c@[t] == track@[m - 1 - t]);
        }
        assert forall|t: int| 0 <= t < m implies !visited@[#[trigger] c@[t] as int] && c@[t] < n by {
            assert(c@[t] == track@[m - 1 - t]);
        }
        assert(c@[0] == track@[m - 1]);
    }
    c
}

fn mark_all(visited: &mut Vec<bool>, c: &Vec<usize>)
    requires
        c@.len() >= 1,
        forall|t: int| 0 <= t < c@.len() ==> #[trigger] c@[t] < old(visited)@.len(),
        !old(visited)@[c@.last() as int],
    ensures
        final(visited)@.len() == old(visited)@.len(),
        count_open(final(visited)@, final(visited)@.len() as int) < count_open(
            old(visited)@,
            old(visited)@.len() as int,
        ),
        forall|v: int|
            0 <= v < old(visited)@.len() ==> #[trigger] final(visited)@[v] == (old(visited)@[v]
                || exists|u: int| 0 <= u < c@.len() && c@[u] == v),
{
    let ghost old_vis = visited@;
    let n = visited.len();
    let m = c.len();
    let b = c[m - 1];
    visited.set(b, true);
    proof {
        lemma_count_open_set(old_vis, b as int, n as int);
    }
    let mut t: usize = 0;
    while t < m
        invariant
            m == c@.len(),
            t <= m,
            visited@.len() == n == old_vis.len(),
            b == c@[m - 1],
            forall|u: int| 0 <= u < m ==> #[trigger] c@[u] < n,
            count_open(visited@, n as int) < count_open(old_vis, n as int),
            forall|v: int|
                0 <= v < n ==> #[trigger] visited@[v] == (old_vis[v] || v == b || exists|u: int|
                    0 <= u < t && c@[u] == v),
        decreases m - t,
    {
        let ghost before = visited@;
        visited.set(c[t], true);
        proof {
            lemma_count_open_set(before, c@[t as int] as int, n as int);
            assert forall|v: int| 0 <= v < n implies #[trigger] visited@[v] == (old_vis[v] || v
                == b || exists|u: int| 0 <= u < t + 1 && c@[u] == v) by {
                if v == c@[t as int] {
                    assert(c@[t as int] == v);
                }
            }
        }
        t = t + 1;
    }
    proof {
        assert forall|v: int| 0 <= v < n implies #[trigger] visited@[v] == (old_vis[v] || exists|
            u: int,
        | 0 <= u < m && c@[u] == v) by {
            if v == b {
                assert(c@[m - 1] == v);
            }
        }
    }
}

/// Repeatedly takes the unconsumed vertex of highest score (the lowest index on ties),
/// follows its predecessor links back while they lead to unconsumed vertices, and
/// records that path as one chain, until no unconsumed vertex has a positive score.
pub fn peel_chains(scores: &Vec<i128>, preds: &Vec<Option<usize>>) -> (out: Vec<(i128, Vec<usize>)>)
    requires
        peelable(scores@, preds@),
    ensures
        forall|k: int| 0 <= k < out@.len() ==> #[trigger] chain_ok(scores@, preds@, out@, k),
        forall|v: int|
            0 <= v < scores@.len() && !in_chains(out@, v) ==> #[trigger] scores@[v] <= 0,
{
    let n = scores.len();
    let mut visited: Vec<bool> = Vec::new();
    while visited.len() < n
        invariant
            visited@.len() <= n,
            forall|v: int| 0 <= v < visited@.len() ==> !#[trigger] visited@[v],
        decreases n - visited@.len(),
    {
        visited.push(false);
    }
    let mut out: Vec<(i128, Vec<usize>)> = Vec::new();
    let mut finished = false;
    while !finished
        invariant
            peelable(scores@, preds@),
            n == scores@.len(),
            visited@.len() == n,
            forall|v: int| 0 <= v < n ==> #[trigger] visited@[v] == in_chains(out@, v),
            forall|v: int| #![auto] in_chains(out@, v) ==> 0 <= v < n,
            forall|k: int| 0 <= k < out@.len() ==> #[trigger] chain_ok(scores@, preds@, out@, k),
            finished ==> forall|v: int|
                0 <= v < n && !in_chains(out@, v) ==> #[trigger] scores@[v] <= 0,
        decreases count_open(visited@, n as int) + if finished {
            0int
        } else {
            1int
        },
    {
        match best_open(scores, &visited) {
            None => {
                finished = true;
            },
            Some(b) => {
                let c = walk_back(preds, &visited, b);
                let ghost old_vis = visited@;
                let ghost old_out = out@;
                let ghost m = c@.len() as int;
                let ghost cs = c@;
                mark_all(&mut visited, &c);
                let sc = scores[b] - scores[c[0]];
                let entry = (sc, c);
                out.push(entry);
                proof {
                    assert forall|v: int| 0 <= v < n implies #[trigger] visited@[v] == in_chains(
                        out@,
                        v,
                    ) by {
                        lemma_in_chains_push(old_out, entry, v);
                        assert(entry.1@ == cs);
                        if exists|u: int| 0 <= u < m && cs[u] == v {
                            let u = choose|u: int| 0 <= u < m && cs[u] == v;
                            assert(entry.1@[u] == v);
                        }
                        if exists|u: int| 0 <= u < m && entry.1@[u] == v {
                            let u = choose|u: int| 0 <= u < m && entry.1@[u] == v;
                            assert(cs[u] == v);
                        }
                    }
                    assert forall|v: int| #![auto] in_chains(out@, v) implies 0 <= v < n by {
                        lemma_in_chains_push(old_out, entry, v);
                        if !in_chains(old_out, v) {
                            let u = choose|u: int| 0 <= u < m && entry.1@[u] == v;
                            assert(entry.1@[u] < n);
                        }
                    }
                    assert(out@.take(old_out.len() as int) == old_out);
                    assert forall|k: int| 0 <= k < out@.len() implies #[trigger] chain_ok(
                        scores@,
                        preds@,
                        out@,
                        k,
                    ) by {
                        if k < old_out.len() {
                            assert(out@.take(k) == old_out.take(k));
                            assert(chain_ok(scores@, preds@, old_out, k));
                        }
                    }
                }
            },
        }
    }
    out
}

proof fn lemma_swap_multiset(s: Seq<HitPair>, i: int, j: int)
    requires
        0 <= i < s.len(),
        0 <= j < s.len(),
    ensures
        s.update(i, s[j]).update(j, s[i]).to_multiset() == s.to_multiset(),
{
    broadcast use vstd::multiset::group_multiset_axioms;

    let s1 = s.update(i, s[j]);
    to_multiset_update(s, i, s[j]);
    to_multiset_update(s1, j, s[i]);
    if i == j {
        assert(s1 =~= s);
        assert(s1.update(j, s[i]) =~= s);
    } else {
        assert(s1[j] == s[j]);
        assert(s.to_multiset().count(s[j]) > 0) by {
            vstd::seq_lib::to_multiset_contains(s, s[j]);
            assert(s.contains(s[j]));
        }
        assert(s.to_multiset().count(s[i]) > 0) by {
            vstd::seq_lib::to_multiset_contains(s, s[i]);
            assert(s.contains(s[i]));
        }
        assert(s1.update(j, s[i]).to_multiset() =~= s.to_multiset());
    }
}

/// Whether `fin` holds the hit pairs of `orig` rearranged by `perm` (`fin[i]` is
/// `orig[perm[i]]`), with hit pairs of equal query begin in their order in `orig`.
pub open spec fn stable_rearrangement(fin: Seq<HitPair>, orig: Seq<HitPair>, perm: Seq<int>) -> bool {
    &&& fin.len() == orig.len()
    &&& perm.len() == fin.len()
    &&& forall|a: int| 0 <= a < perm.len() ==> 0 <= #[trigger] perm[a] < orig.len()
    &&& forall|a: int, b: int| 0 <= a < b < perm.len() ==> perm[a] != perm[b]
    &&& forall|a: int| 0 <= a < fin.len() ==> #[trigger] fin[a] == orig[perm[a]]
    &&& forall|a: int, b: int|
        0 <= a < b < fin.len() && fin[a].0.0 == fin[b].0.0 ==> perm[a] < perm[b]
}

/// Sorts hit pairs by query-begin coordinate, keeping the order of equal ones.
fn sort_by_qbgn(v: &mut Vec<HitPair>)
    ensures
        sorted_by_qbgn(final(v)@),
        final(v)@.to_multiset() == old(v)@.to_multiset(),
        final(v)@.len() == old(v)@.len(),
        exists|perm: Seq<int>| #[trigger] stable_rearrangement(final(v)@, old(v)@, perm),
{
    let n = v.len();
    let ghost orig = v@;
    let ghost mut p: Seq<int> = Seq::new(n as nat, |a: int| a);
    let mut i: usize = 0;
    while i < n
        invariant
            n == v@.len() == orig.len(),
            orig == old(v)@,
            i <= n,
            v@.to_multiset() == old(v)@.to_multiset(),
            forall|a: int, b: int| 0 <= a <= b < i ==> v@[a].0.0 <= v@[b].0.0,
            p.len() == n,
            forall|a: int| 0 <= a < n ==> 0 <= #[trigger] p[a] < n,
            forall|a: int, b: int| 0 <= a < b < n ==> p[a] != p[b],
            forall|a: int| 0 <= a < n ==> #[trigger] v@[a] == orig[p[a]],
            forall|a: int| i <= a < n ==> #[trigger] p[a] == a,
            forall|a: int| 0 <= a < i ==> #[trigger] p[a] < i,
            forall|a: int, b: int| 0 <= a < b < i && v@[a].0.0 == v@[b].0.0 ==> p[a] < p[b],
        decreases n - i,
    {
        let mut j: usize = i;
        while j > 0 && v[j - 1].0.0 > v[j].0.0
            invariant
                n == v@.len() == orig.len(),
                j <= i < n,
                v@.to_multiset() == old(v)@.to_multiset(),
                forall|a: int, b: int|
                    0 <= a <= b <= i && a != j && b != j ==> v@[a].0.0 <= v@[b].0.0,
                forall|b: int| j < b <= i ==> v@[j as int].0.0 < v@[b].0.0,
                p.len() == n,
                forall|a: int| 0 <= a < n ==> 0 <= #[trigger] p[a] < n,
                forall|a: int, b: int| 0 <= a < b < n ==> p[a] != p[b],
                forall|a: int| 0 <= a < n ==> #[trigger] v@[a] == orig[p[a]],
                forall|a: int| i < a < n ==> #[trigger] p[a] == a,
                p[j as int] == i,
                forall|a: int| 0 <= a <= i && a != j ==> #[trigger] p[a] < i,
                forall|a: int, b: int|
                    0 <= a < b <= i && a != j && b != j && v@[a].0.0 == v@[b].0.0 ==> p[a] < p[b],
            decreases j,
        {
            let x = v[j - 1];
            let y = v[j];
            proof {
                lemma_swap_multiset(v@, j - 1, j as int);
                p = p.update(j - 1, p[j as int]).update(j as int, p[j - 1]);
            }
            v.set(j - 1, y);
            v.set(j, x);
            j = j - 1;
        }
        proof {
            assert forall|a: int, b: int| 0 <= a <= b <= i implies v@[a].0.0 <= v@[b].0.0 by {
                if a == j && b != j && j > 0 {
                    assert(v@[j - 1].0.0 <= v@[j as int].0.0);
                } else if b == j && a != j && j > 0 {
                    assert(v@[a].0.0 <= v@[j - 1].0.0);
                }
            }
            assert forall|a: int, b: int|
                0 <= a < b < i + 1 && v@[a].0.0 == v@[b].0.0 implies p[a] < p[b] by {
                if a == j {
                    assert(v@[j as int].0.0 < v@[b].0.0);
                }
            }
        }
        i = i + 1;
    }
    proof {
        assert(stable_rearrangement(v@, old(v)@, p));
    }
}

/// Whether `out` is what chaining makes of the sorted hits `s`: `scores` and `preds`
/// follow the recurrence at every vertex, `ix` is the peeling of them, and `out` holds
/// the chains of `ix` with each vertex replaced by its hit pair.
pub open spec fn chained(
    s: Seq<HitPair>,
    max_span: u32,
    pen: Penalty,
    scores: Seq<i128>,
    preds: Seq<Option<usize>>,
    ix: Seq<(i128, Vec<usize>)>,
    out: Seq<(i128, Vec<HitPair>)>,
) -> bool {
    &&& scores.len() == s.len()
    &&& preds.len() == s.len()
    &&& forall|i: int| 0 <= i < s.len() ==> #[trigger] vertex_ok(s, scores, preds, i, max_span, pen)
    &&& forall|k: int| 0 <= k < ix.len() ==> #[trigger] chain_ok(scores, preds, ix, k)
    &&& forall|v: int| 0 <= v < s.len() && !in_chains(ix, v) ==> #[trigger] scores[v] <= 0
    &&& out.len() == ix.len()
    &&& forall|k: int|
        0 <= k < ix.len() ==> {
            &&& (#[trigger] out[k]).0 == ix[k].0
            &&& out[k].1@.len() == ix[k].1@.len()
            &&& forall|t: int| 0 <= t < ix[k].1@.len() ==> out[k].1@[t] == s[#[trigger] ix[k].1@[t] as int]
        }
}

fn to_hit_chains(s: &Vec<HitPair>, ix: &Vec<(i128, Vec<usize>)>) -> (out: Vec<(i128, Vec<HitPair>)>)
    requires
        forall|k: int, t: int|
            0 <= k < ix@.len() && 0 <= t < ix@[k].1@.len() ==> #[trigger] ix@[k].1@[t] < s@.len(),
    ensures
        out@.len() == ix@.len(),
        forall|k: int|
            0 <= k < ix@.len() ==> {
                &&& (#[trigger] out@[k]).0 == ix@[k].0
                &&& out@[k].1@.len() == ix@[k].1@.len()
                &&& forall|t: int|
                    0 <= t < ix@[k].1@.len() ==> out@[k].1@[t] == s@[#[trigger] ix@[k].1@[t] as int]
            },
{
    let mut out: Vec<(i128, Vec<HitPair>)> = Vec::new();
    let mut k: usize = 0;
    while k < ix.len()
        invariant
            k <= ix@.len(),
            out@.len() == k,
            forall|k2: int, t: int|
                0 <= k2 < ix@.len() && 0 <= t < ix@[k2].1@.len() ==> #[trigger] ix@[k2].1@[t]
                    < s@.len(),
            forall|k2: int|
                0 <= k2 < k ==> {
                    &&& (#[trigger] out@[k2]).0 == ix@[k2].0
                    &&& out@[k2].1@.len() == ix@[k2].1@.len()
                    &&& forall|t: int|
                        0 <= t < ix@[k2].1@.len() ==> out@[k2].1@[t] == s@[#[trigger] ix@[k2].1@[t] as int]
                },
        decreases ix@.len() - k,
    {
        let c = &ix[k].1;
        let mut hs: Vec<HitPair> = Vec::new();
        let mut t: usize = 0;
        while t < c.len()
            invariant
                c@ == ix@[k as int].1@,
                k < ix@.len(),
                t <= c@.len(),
                hs@.len() == t,
                forall|k2: int, t2: int|
                    0 <= k2 < ix@.len() && 0 <= t2 < ix@[k2].1@.len() ==> #[trigger] ix@[k2].1@[t2]
                        < s@.len(),
                forall|t2: int| 0 <= t2 < t ==> hs@[t2] == s@[#[trigger] c@[t2] as int],
            decreases c@.len() - t,
        {
            assert(c@[t as int] == ix@[k as int].1@[t as int]);
            hs.push(s[c[t]]);
            t = t + 1;
        }
        out.push((ix[k].0, hs));
        k = k + 1;
    }
    out
}

/// Whether no two places of `s` hold the same hit pair.
pub open spec fn distinct(s: Seq<HitPair>) -> bool {
    forall|a: int, b: int| 0 <= a < b < s.len() ==> s[a] != s[b]
}

/// Whether no hit pair stands at two places of the chains `out`, in one chain or two.
pub open spec fn distinct_hits(out: Seq<(i128, Vec<HitPair>)>) -> bool {
    forall|a: int, i: int, b: int, k: int|
        0 <= a < out.len() && 0 <= i < out[a].1@.len() && 0 <= b < out.len() && 0 <= k
            < out[b].1@.len() && (a != b || i != k) ==> #[trigger] out[a].1@[i] != #[trigger] out[b].1@[k]
}

fn hit_eq(a: HitPair, b: HitPair) -> (r: bool)
    ensures
        r == (a == b),
{
    a.0.0 == b.0.0 && a.0.1 == b.0.1 && a.0.2 == b.0.2 && a.1.0 == b.1.0 && a.1.1 == b.1.1
        && a.1.2 == b.1.2
}

/// Keeps the first copy of each hit pair of the sorted `v`, in order.
fn dedup_sorted(v: &mut Vec<HitPair>)
    requires
        sorted_by_qbgn(old(v)@),
    ensures
        sorted_by_qbgn(final(v)@),
        distinct(final(v)@),
        final(v)@.len() <= old(v)@.len(),
        forall|x: HitPair| #[trigger] final(v)@.contains(x) <==> old(v)@.contains(x),
{
    let mut u: Vec<HitPair> = Vec::new();
    let mut i: usize = 0;
    while i < v.len()
        invariant
            i <= v@.len(),
            sorted_by_qbgn(v@),
            sorted_by_qbgn(u@),
            distinct(u@),
            u@.len() <= i,
            u@.len() > 0 && i < v@.len() ==> u@.last().0.0 <= v@[i as int].0.0,
            forall|x: HitPair| #[trigger] u@.contains(x) <==> v@.take(i as int).contains(x),
        decreases v@.len() - i,
    {
        let x = v[i];
        let mut a: usize = 0;
        let mut seen = false;
        while a < u.len()
            invariant
                a <= u@.len(),
                seen <==> exists|b: int| 0 <= b < a && u@[b] == x,
            decreases u@.len() - a,
        {
            if hit_eq(u[a], x) {
                seen = true;
            }
            a = a + 1;
        }
        let ghost u0 = u@;
        if !seen {
            u.push(x);
        }
        proof {
            assert(v@.take(i + 1) =~= v@.take(i as int).push(x));
            assert forall|y: HitPair| #[trigger] u@.contains(y) <==> v@.take(i + 1).contains(y) by {
                if v@.take(i + 1).contains(y) {
                    let j = choose|j: int| 0 <= j < i + 1 && #[trigger] v@.take(i + 1)[j] == y;
                    if j < i {
                        assert(v@.take(i as int)[j] == y);
                        assert(u0.contains(y));
                        let b = choose|b: int| 0 <= b < u0.len() && #[trigger] u0[b] == y;
                        assert(u@[b] == y);
                    } else if !seen {
                        assert(u@[u0.len() as int] == y);
                    } else {
                        let b = choose|b: int| 0 <= b < a && #[trigger] u@[b] == x;
                    }
                }
                if u@.contains(y) {
                    let b = choose|b: int| 0 <= b < u@.len() && #[trigger] u@[b] == y;
                    if b < u0.len() {
                        assert(u0[b] == y);
                        assert(u0.contains(y));
                        assert(v@.take(i as int).contains(y));
                        let j = choose|j: int| 0 <= j < i && #[trigger] v@.take(i as int)[j] == y;
                        assert(v@.take(i + 1)[j] == y);
                    } else {
                        assert(v@.take(i + 1)[i as int] == y);
                    }
                }
            }
            if i + 1 < v@.len() {
                assert(v@[i as int].0.0 <= v@[i + 1].0.0);
            }
        }
        i = i + 1;
    }
    proof {
        assert(v@.take(v@.len() as int) =~= v@);
    }
    *v = u;
}

/// Whether `out` is what chaining returns for the hit pairs `hs`, once sorted with each
/// repeated hit pair kept once; no hit pair stands twice in `out`.
pub open spec fn chains_of(
    hs: Seq<HitPair>,
    max_span: u32,
    pen: Penalty,
    out: Seq<(i128, Vec<HitPair>)>,
) -> bool {
    &&& distinct_hits(out)
    &&& exists|
        s: Seq<HitPair>,
        scores: Seq<i128>,
        preds: Seq<Option<usize>>,
        ix: Seq<(i128, Vec<usize>)>,
    |
        {
            &&& sorted_by_qbgn(s)
            &&& distinct(s)
            &&& forall|x: HitPair| #[trigger] s.contains(x) <==> hs.contains(x)
            &&& #[trigger] chained(s, max_span, pen, scores, preds, ix, out)
        }
}

fn copy_hits(v: &Vec<HitPair>) -> (r: Vec<HitPair>)
    ensures
        r@ == v@,
{
    let mut r: Vec<HitPair> = Vec::new();
    let mut i: usize = 0;
    while i < v.len()
        invariant
            i <= v@.len(),
            r@ == v@.take(i as int),
        decreases v@.len() - i,
    {
        r.push(v[i]);
        proof {
            assert(v@.take(i + 1) =~= v@.take(i as int).push(v@[i as int]));
        }
        i = i + 1;
    }
    assert(v@.take(v@.len() as int) =~= v@);
    r
}

/// Groups the hit pairs of one query and one target into chains.
///
/// `sp_hits` is left sorted by query begin, equal begins in their given order. Each
/// repeated hit pair is chained once. Each vertex is scored by the banded recurrence
/// (`max_span` distinct earlier query-begin coordinates are scanned), then chains are
/// peeled best-first. Each result pairs a chain's score, in units of `1 / penalty.den`,
/// with its hit pairs in increasing query-begin order; no hit pair is used twice. Fewer
/// than two hit pairs are refused.
pub fn sparse_aln(sp_hits: &mut Vec<HitPair>, max_span: u32, penalty: Penalty) -> (r: Result<
    Vec<(i128, Vec<HitPair>)>,
    ChainError,
>)
    requires
        old(sp_hits)@.len() <= u32::MAX,
        penalty.den > 0,
    ensures
        sorted_by_qbgn(final(sp_hits)@),
        final(sp_hits)@.to_multiset() == old(sp_hits)@.to_multiset(),
        exists|perm: Seq<int>| #[trigger] stable_rearrangement(final(sp_hits)@, old(sp_hits)@, perm),
        old(sp_hits)@.len() < 2 <==> r == Err::<Vec<(i128, Vec<HitPair>)>, ChainError>(
            ChainError::PreconditionViolation,
        ),
        r matches Ok(out) ==> chains_of(old(sp_hits)@, max_span, penalty, out@),
        r matches Ok(out) ==> forall|a: int, i: int|
            0 <= a < out@.len() && 0 <= i < out@[a].1@.len() ==> old(sp_hits)@.contains(
                #[trigger] out@[a].1@[i],
            ),
{
    let n0 = sp_hits.len();
    sort_by_qbgn(sp_hits);
    if n0 < 2 {
        return Err(ChainError::PreconditionViolation);
    }
    let mut hits = copy_hits(sp_hits);
    let ghost sorted = hits@;
    dedup_sorted(&mut hits);
    proof {
        assert forall|x: HitPair| #[trigger] hits@.contains(x) <==> old(sp_hits)@.contains(x) by {
            vstd::seq_lib::to_multiset_contains(sorted, x);
            vstd::seq_lib::to_multiset_contains(old(sp_hits)@, x);
        }
    }
    let (scores, preds) = chain_scores(&hits, max_span, penalty);
    proof {
        assert forall|i: int| 0 <= i < scores@.len() implies -0x1_0000_0000_0000_0000_0000_0000_0000
            <= #[trigger] scores@[i] <= 0x1_0000_0000_0000_0000_0000_0000_0000 by {
            assert((i + 1) * score_unit() <= 0x1_0000_0000 * score_unit()) by (nonlinear_arith)
                requires
                    0 <= i < 0x1_0000_0000,
            ;
        }
        assert forall|i: int| 0 <= i < preds@.len() implies match #[trigger] preds@[i] {
            None => true,
            Some(p) => p < i,
        } by {
            assert(vertex_ok(hits@, scores@, preds@, i, max_span, penalty));
        }
    }
    let ix = peel_chains(&scores, &preds);
    proof {
        assert forall|k: int, t: int|
            0 <= k < ix@.len() && 0 <= t < ix@[k].1@.len() implies #[trigger] ix@[k].1@[t]
            < hits@.len() by {
            assert(chain_ok(scores@, preds@, ix@, k));
        }
    }
    let out = to_hit_chains(&hits, &ix);
    let r = Ok(out);
    proof {
        assert(chained(hits@, max_span, penalty, scores@, preds@, ix@, out@));
        lemma_distinct_hits(hits@, max_span, penalty, scores@, preds@, ix@, out@);
        assert forall|a: int, i: int|
            0 <= a < out@.len() && 0 <= i < out@[a].1@.len() implies old(sp_hits)@.contains(
            #[trigger] out@[a].1@[i],
        ) by {
            assert(chain_ok(scores@, preds@, ix@, a));
            assert(ix@[a].1@[i] < hits@.len());
            assert(hits@.contains(hits@[ix@[a].1@[i] as int]));
        }
        assert(chains_of(old(sp_hits)@, max_span, penalty, out@));
        assert(r matches Ok(o) && o@ == out@);
    }
    r
}

/// Along every chain that chaining returns, hit pairs strictly increase in query-begin
/// coordinate.
pub proof fn lemma_chain_monotone(
    s: Seq<HitPair>,
    max_span: u32,
    pen: Penalty,
    scores: Seq<i128>,
    preds: Seq<Option<usize>>,
    ix: Seq<(i128, Vec<usize>)>,
    out: Seq<(i128, Vec<HitPair>)>,
    k: int,
    t: int,
)
    requires
        sorted_by_qbgn(s),
        chained(s, max_span, pen, scores, preds, ix, out),
        0 <= k < out.len(),
        0 <= t < out[k].1@.len() - 1,
    ensures
        out[k].1@[t].0.0 < out[k].1@[t + 1].0.0,
        ix[k].1@[t] < ix[k].1@[t + 1],
{
    assert(chain_ok(scores, preds, ix, k));
    let c = ix[k].1@;
    assert(preds[c[t + 1] as int] == Some(c[t]));
    assert(vertex_ok(s, scores, preds, c[t + 1] as int, max_span, pen));
    assert(out[k].1@[t] == s[c[t] as int]);
    assert(out[k].1@[t + 1] == s[c[t + 1] as int]);
}

/// No vertex lies on two chains, nor twice on one: the chains of one target are a
/// disjoint selection of its hit pairs.
pub proof fn lemma_chains_disjoint(
    s: Seq<HitPair>,
    max_span: u32,
    pen: Penalty,
    scores: Seq<i128>,
    preds: Seq<Option<usize>>,
    ix: Seq<(i128, Vec<usize>)>,
    out: Seq<(i128, Vec<HitPair>)>,
    k1: int,
    t1: int,
    k2: int,
    t2: int,
)
    requires
        sorted_by_qbgn(s),
        chained(s, max_span, pen, scores, preds, ix, out),
        0 <= k1 < ix.len(),
        0 <= t1 < ix[k1].1@.len(),
        0 <= k2 < ix.len(),
        0 <= t2 < ix[k2].1@.len(),
        k1 != k2 || t1 != t2,
    ensures
        ix[k1].1@[t1] != ix[k2].1@[t2],
{
    if k1 < k2 {
        assert(chain_ok(scores, preds, ix, k2));
        assert(ix.take(k2)[k1].1@[t1] == ix[k1].1@[t1]);
        assert(in_chains(ix.take(k2), ix[k1].1@[t1] as int));
    } else if k2 < k1 {
        assert(chain_ok(scores, preds, ix, k1));
        assert(ix.take(k1)[k2].1@[t2] == ix[k2].1@[t2]);
        assert(in_chains(ix.take(k1), ix[k2].1@[t2] as int));
    } else if t1 < t2 {
        lemma_chain_index_increasing(s, max_span, pen, scores, preds, ix, out, k1, t1, t2);
    } else {
        lemma_chain_index_increasing(s, max_span, pen, scores, preds, ix, out, k1, t2, t1);
    }
}

proof fn lemma_chain_index_increasing(
    s: Seq<HitPair>,
    max_span: u32,
    pen: Penalty,
    scores: Seq<i128>,
    preds: Seq<Option<usize>>,
    ix: Seq<(i128, Vec<usize>)>,
    out: Seq<(i128, Vec<HitPair>)>,
    k: int,
    a: int,
    b: int,
)
    requires
        sorted_by_qbgn(s),
        chained(s, max_span, pen, scores, preds, ix, out),
        0 <= k < ix.len(),
        0 <= a < b < ix[k].1@.len(),
    ensures
        ix[k].1@[a] < ix[k].1@[b],
    decreases b - a,
{
    lemma_chain_monotone(s, max_span, pen, scores, preds, ix, out, k, b - 1);
    if a < b - 1 {
        lemma_chain_index_increasing(s, max_span, pen, scores, preds, ix, out, k, a, b - 1);
    }
}

/// No hit pair stands at two places of the chains, in one chain or in two: the chains
/// of one target are a disjoint selection of its (repeat-free) hit pairs.
pub proof fn lemma_distinct_hits(
    s: Seq<HitPair>,
    max_span: u32,
    pen: Penalty,
    scores: Seq<i128>,
    preds: Seq<Option<usize>>,
    ix: Seq<(i128, Vec<usize>)>,
    out: Seq<(i128, Vec<HitPair>)>,
)
    requires
        sorted_by_qbgn(s),
        distinct(s),
        chained(s, max_span, pen, scores, preds, ix, out),
    ensures
        distinct_hits(out),
{
    assert forall|a: int, i: int, b: int, k: int|
        0 <= a < out.len() && 0 <= i < out[a].1@.len() && 0 <= b < out.len() && 0 <= k
            < out[b].1@.len() && (a != b || i != k) implies #[trigger] out[a].1@[i]
        != #[trigger] out[b].1@[k] by {
        lemma_chains_disjoint(s, max_span, pen, scores, preds, ix, out, a, i, b, k);
        assert(chain_ok(scores, preds, ix, a));
        assert(chain_ok(scores, preds, ix, b));
        let p = ix[a].1@[i] as int;
        let q = ix[b].1@[k] as int;
        assert(out[a].1@[i] == s[p]);
        assert(out[b].1@[k] == s[q]);
        if p < q {
            assert(s[p] != s[q]);
        } else {
            assert(s[q] != s[p]);
        }
    }
}

/// The score reported for a chain is the score of its last vertex minus that of its
/// first, and is never negative.
pub proof fn lemma_chain_score(
    s: Seq<HitPair>,
    max_span: u32,
    pen: Penalty,
    scores: Seq<i128>,
    preds: Seq<Option<usize>>,
    ix: Seq<(i128, Vec<usize>)>,
    out: Seq<(i128, Vec<HitPair>)>,
    k: int,
)
    requires
        chained(s, max_span, pen, scores, preds, ix, out),
        0 <= k < out.len(),
    ensures
        out[k].1@.len() >= 1,
        out[k].0 == scores[ix[k].1@.last() as int] - scores[ix[k].1@[0] as int],
        out[k].0 >= 0,
{
    assert(chain_ok(scores, preds, ix, k));
    assert(out[k].0 == ix[k].0);
}

} // verus!
