use crate::chain::{chains_of, sparse_aln, ChainError, HitPair, Penalty};
use crate::counts::{
    target_frag_counts_get, target_frag_counts_new, target_frag_counts_set, target_frag_table,
    target_map_get, target_map_new, target_map_set, target_table,
};
use vstd::prelude::*;

verus! {

/// A match of a query window in the index:
/// `(fragment id, target sequence id, target begin, target end, orientation)`.
pub type TargetMatch = (u32, u32, u32, u32, u8);

/// One index lookup of a query: the minimizer-pair key, the query interval it spans,
/// and every match of that key in the store.
pub type FragmentHit = ((u64, u64), (u32, u32, u8), Vec<TargetMatch>);

/// One (lookup, match) pair: key, query interval, target match.
pub type FlatHit = ((u64, u64), (u32, u32, u8), TargetMatch);

/// Frequency ceiling applied to target sequences, and to (target, fragment) pairs unless the caller
/// gives another.
pub const DEFAULT_CEILING: u32 = 8;

/// Span bound handed to chaining.
pub const DEFAULT_SPAN: u32 = 8;

/// Every (lookup, match) pair of `r`, in order.
pub open spec fn flat(r: Seq<FragmentHit>) -> Seq<FlatHit>
    decreases r.len(),
{
    if r.len() == 0 {
        Seq::empty()
    } else {
        let d = r.last();
        flat(r.drop_last()) + d.2@.map_values(|v: TargetMatch| (d.0, d.1, v))
    }
}

/// Number of matches of `f` against target sequence `sid`.
pub open spec fn target_count(f: Seq<FlatHit>, sid: u32) -> nat
    decreases f.len(),
{
    if f.len() == 0 {
        0
    } else {
        target_count(f.drop_last(), sid) + if f.last().2.1 == sid {
            1nat
        } else {
            0nat
        }
    }
}

/// Number of matches of `f` against fragment `fid` of target sequence `sid`.
pub open spec fn target_frag_count(f: Seq<FlatHit>, sid: u32, fid: u32) -> nat
    decreases f.len(),
{
    if f.len() == 0 {
        0
    } else {
        target_frag_count(f.drop_last(), sid, fid) + if f.last().2.1 == sid && f.last().2.0
            == fid {
            1nat
        } else {
            0nat
        }
    }
}

/// Whether a match of the matches `all` passes both frequency ceilings: its target
/// sequence is matched at most `target_ceiling` times, and its (target sequence,
/// fragment) pair at most `frag_ceiling` times.
pub open spec fn passes(all: Seq<FlatHit>, x: FlatHit, target_ceiling: u32, frag_ceiling: u32) -> bool {
    target_count(all, x.2.1) <= target_ceiling && target_frag_count(all, x.2.1, x.2.0)
        <= frag_ceiling
}

/// The matches of `f` that pass the ceilings counted over `all`, in order.
pub open spec fn kept(
    all: Seq<FlatHit>,
    f: Seq<FlatHit>,
    target_ceiling: u32,
    frag_ceiling: u32,
) -> Seq<FlatHit>
    decreases f.len(),
{
    if f.len() == 0 {
        Seq::empty()
    } else {
        kept(all, f.drop_last(), target_ceiling, frag_ceiling) + if passes(
            all,
            f.last(),
            target_ceiling,
            frag_ceiling,
        ) {
            seq![f.last()]
        } else {
            Seq::empty()
        }
    }
}

/// The hit pair that a (lookup, match) pair stands for.
pub open spec fn to_hit(x: FlatHit) -> HitPair {
    (x.1, (x.2.2, x.2.3, x.2.4))
}

/// The hit pairs of `f` against target sequence `sid`, in order.
pub open spec fn hits_for(f: Seq<FlatHit>, sid: u32) -> Seq<HitPair>
    decreases f.len(),
{
    if f.len() == 0 {
        Seq::empty()
    } else {
        hits_for(f.drop_last(), sid) + if f.last().2.1 == sid {
            seq![to_hit(f.last())]
        } else {
            Seq::empty()
        }
    }
}

proof fn lemma_target_count_le(f: Seq<FlatHit>, sid: u32)
    ensures
        target_count(f, sid) <= f.len(),
    decreases f.len(),
{
    if f.len() > 0 {
        lemma_target_count_le(f.drop_last(), sid);
    }
}

proof fn lemma_target_frag_count_le(f: Seq<FlatHit>, sid: u32, fid: u32)
    ensures
        target_frag_count(f, sid, fid) <= f.len(),
    decreases f.len(),
{
    if f.len() > 0 {
        lemma_target_frag_count_le(f.drop_last(), sid, fid);
    }
}

proof fn lemma_hits_for_le(f: Seq<FlatHit>, sid: u32)
    ensures
        hits_for(f, sid).len() <= f.len(),
    decreases f.len(),
{
    if f.len() > 0 {
        lemma_hits_for_le(f.drop_last(), sid);
    }
}

proof fn lemma_kept_le(all: Seq<FlatHit>, f: Seq<FlatHit>, kc: u32, sc: u32)
    ensures
        kept(all, f, kc, sc).len() <= f.len(),
    decreases f.len(),
{
    if f.len() > 0 {
        lemma_kept_le(all, f.drop_last(), kc, sc);
    }
}

/// Lists every (lookup, match) pair of `r`, in order.
pub fn flatten_hits(r: &Vec<FragmentHit>) -> (f: Vec<FlatHit>)
    ensures
        f@ == flat(r@),
{
    let mut f: Vec<FlatHit> = Vec::new();
    let mut i: usize = 0;
    while i < r.len()
        invariant
            i <= r@.len(),
            f@ == flat(r@.take(i as int)),
        decreases r@.len() - i,
    {
        let d = &r[i];
        let ghost base = f@;
        let mut j: usize = 0;
        while j < d.2.len()
            invariant
                j <= d.2@.len(),
                f@ == base + d.2@.take(j as int).map_values(|v: TargetMatch| (d.0, d.1, v)),
            decreases d.2@.len() - j,
        {
            f.push((d.0, d.1, d.2[j]));
            proof {
                assert(d.2@.take(j + 1).map_values(|v: TargetMatch| (d.0, d.1, v)) =~= d.2@.take(
                    j as int,
                ).map_values(|v: TargetMatch| (d.0, d.1, v)).push((d.0, d.1, d.2@[j as int])));
            }
            j = j + 1;
        }
        proof {
            assert(r@.take(i + 1).drop_last() =~= r@.take(i as int));
            assert(d.2@.take(j as int) =~= d.2@);
        }
        i = i + 1;
    }
    assert(r@.take(r@.len() as int) =~= r@);
    f
}

/// Keeps the matches of `f` that pass both ceilings: a target sequence matched more
/// than `target_ceiling` times, or a fragment of it matched more than `frag_ceiling`
/// times, loses those matches.
pub fn filter_repeats(f: &Vec<FlatHit>, target_ceiling: u32, frag_ceiling: u32) -> (k: Vec<FlatHit>)
    requires
        f@.len() <= u32::MAX,
    ensures
        k@ == kept(f@, f@, target_ceiling, frag_ceiling),
{
    let mut targets = target_map_new();
    let mut frags = target_frag_counts_new();
    let mut j: usize = 0;
    while j < f.len()
        invariant
            j <= f@.len() <= u32::MAX,
            forall|q: u32|
                #![trigger target_table(targets).dom().contains(q)]
                target_table(targets).dom().contains(q) <==> target_count(f@.take(j as int), q) > 0,
            forall|q: u32|
                target_table(targets).dom().contains(q) ==> #[trigger] target_table(targets)[q]
                    == target_count(f@.take(j as int), q),
            forall|q: (u32, u32)|
                #![trigger target_frag_table(frags).dom().contains(q)]
                target_frag_table(frags).dom().contains(q) <==> target_frag_count(
                    f@.take(j as int),
                    q.0,
                    q.1,
                ) > 0,
            forall|q: (u32, u32)|
                target_frag_table(frags).dom().contains(q) ==> #[trigger] target_frag_table(
                    frags,
                )[q] == target_frag_count(f@.take(j as int), q.0, q.1),
        decreases f@.len() - j,
    {
        let x = f[j];
        let sid = x.2.1;
        let q = (sid, x.2.0);
        proof {
            assert(f@.take(j + 1).drop_last() =~= f@.take(j as int));
            lemma_target_count_le(f@.take(j as int), sid);
            lemma_target_frag_count_le(f@.take(j as int), sid, x.2.0);
        }
        match target_map_get(&targets, sid) {
            Some(c) => target_map_set(&mut targets, sid, c + 1),
            None => target_map_set(&mut targets, sid, 1),
        }
        match target_frag_counts_get(&frags, q) {
            Some(c) => target_frag_counts_set(&mut frags, q, c + 1),
            None => target_frag_counts_set(&mut frags, q, 1),
        }
        j = j + 1;
    }
    assert(f@.take(f@.len() as int) =~= f@);
    let mut out: Vec<FlatHit> = Vec::new();
    let mut t: usize = 0;
    while t < f.len()
        invariant
            t <= f@.len(),
            out@ == kept(f@, f@.take(t as int), target_ceiling, frag_ceiling),
            forall|q: u32|
                #![trigger target_table(targets).dom().contains(q)]
                target_table(targets).dom().contains(q) <==> target_count(f@, q) > 0,
            forall|q: u32|
                target_table(targets).dom().contains(q) ==> #[trigger] target_table(targets)[q]
                    == target_count(f@, q),
            forall|q: (u32, u32)|
                #![trigger target_frag_table(frags).dom().contains(q)]
                target_frag_table(frags).dom().contains(q) <==> target_frag_count(f@, q.0, q.1)
                    > 0,
            forall|q: (u32, u32)|
                target_frag_table(frags).dom().contains(q) ==> #[trigger] target_frag_table(
                    frags,
                )[q] == target_frag_count(f@, q.0, q.1),
        decreases f@.len() - t,
    {
        let x = f[t];
        let tc: u32 = match target_map_get(&targets, x.2.1) {
            Some(c) => c,
            None => 0,
        };
        let fc: u32 = match target_frag_counts_get(&frags, (x.2.1, x.2.0)) {
            Some(c) => c,
            None => 0,
        };
        proof {
            assert(f@.take(t + 1).drop_last() =~= f@.take(t as int));
        }
        if tc <= target_ceiling && fc <= frag_ceiling {
            out.push(x);
        }
        proof {
            assert(out@ =~= kept(f@, f@.take(t + 1), target_ceiling, frag_ceiling));
        }
        t = t + 1;
    }
    assert(f@.take(f@.len() as int) =~= f@);
    out
}

/// The hit pairs of `f` against target sequence `sid`, in order.
pub fn collect_for(f: &Vec<FlatHit>, sid: u32) -> (h: Vec<HitPair>)
    ensures
        h@ == hits_for(f@, sid),
{
    let mut h: Vec<HitPair> = Vec::new();
    let mut t: usize = 0;
    while t < f.len()
        invariant
            t <= f@.len(),
            h@ == hits_for(f@.take(t as int), sid),
        decreases f@.len() - t,
    {
        let x = f[t];
        proof {
            assert(f@.take(t + 1).drop_last() =~= f@.take(t as int));
        }
        if x.2.1 == sid {
            h.push((x.1, (x.2.2, x.2.3, x.2.4)));
        }
        proof {
            assert(h@ =~= hits_for(f@.take(t + 1), sid));
        }
        t = t + 1;
    }
    assert(f@.take(f@.len() as int) =~= f@);
    h
}

/// The target sequence ids that `f` holds, each once.
pub fn target_ids(f: &Vec<FlatHit>) -> (ids: Vec<u32>)
    requires
        f@.len() <= u32::MAX,
    ensures
        forall|a: int, b: int| 0 <= a < b < ids@.len() ==> ids@[a] != ids@[b],
        forall|sid: u32| #[trigger] ids@.contains(sid) <==> hits_for(f@, sid).len() > 0,
{
    let mut ids: Vec<u32> = Vec::new();
    let mut pos = target_map_new();
    let mut t: usize = 0;
    while t < f.len()
        invariant
            t <= f@.len() <= u32::MAX,
            ids@.len() <= t,
            forall|q: u32|
                #![trigger target_table(pos).dom().contains(q)]
                target_table(pos).dom().contains(q) <==> ids@.contains(q),
            forall|q: u32|
                target_table(pos).dom().contains(q) ==> #[trigger] target_table(pos)[q]
                    < ids@.len() && ids@[target_table(pos)[q] as int] == q,
            forall|a: int, b: int| 0 <= a < b < ids@.len() ==> ids@[a] != ids@[b],
            forall|sid: u32| #[trigger]
                ids@.contains(sid) <==> hits_for(f@.take(t as int), sid).len() > 0,
        decreases f@.len() - t,
    {
        let sid = f[t].2.1;
        proof {
            assert(f@.take(t + 1).drop_last() =~= f@.take(t as int));
        }
        let seen = match target_map_get(&pos, sid) {
            Some(_) => true,
            None => false,
        };
        let ghost old_ids = ids@;
        if !seen {
            let at = ids.len() as u32;
            ids.push(sid);
            target_map_set(&mut pos, sid, at);
            proof {
                assert(ids@[at as int] == sid);
                assert forall|q: u32|
                    target_table(pos).dom().contains(q) implies #[trigger] target_table(pos)[q]
                    < ids@.len() && ids@[target_table(pos)[q] as int] == q by {
                    if q != sid {
                        assert(old_ids[target_table(pos)[q] as int] == q);
                    }
                }
                assert forall|q: u32|
                    target_table(pos).dom().contains(q) <==> #[trigger] ids@.contains(q) by {
                    if ids@.contains(q) && q != sid {
                        let b = choose|b: int| 0 <= b < ids@.len() && ids@[b] == q;
                        assert(old_ids[b] == q);
                        assert(old_ids.contains(q));
                    }
                    if old_ids.contains(q) {
                        let b = choose|b: int| 0 <= b < old_ids.len() && old_ids[b] == q;
                        assert(ids@[b] == q);
                    }
                }
                assert forall|b: int| 0 <= b < old_ids.len() implies old_ids[b] != sid by {
                    assert(old_ids.contains(old_ids[b]));
                }
            }
        }
        proof {
            assert forall|s2: u32| #[trigger]
                ids@.contains(s2) <==> hits_for(f@.take(t + 1), s2).len() > 0 by {
                assert(f@.take(t + 1).last() == f@[t as int]);
                assert(hits_for(f@.take(t + 1), s2).len() == hits_for(f@.take(t as int), s2).len()
                    + if sid == s2 {
                    1int
                } else {
                    0int
                });
                if !seen {
                    assert(ids@ == old_ids.push(sid));
                    if ids@.contains(s2) && s2 != sid {
                        let b = choose|b: int| 0 <= b < ids@.len() && ids@[b] == s2;
                        assert(old_ids[b] == s2);
                    }
                    if old_ids.contains(s2) {
                        let b = choose|b: int| 0 <= b < old_ids.len() && old_ids[b] == s2;
                        assert(ids@[b] == s2);
                    }
                    assert(ids@[old_ids.len() as int] == sid);
                }
            }
        }
        t = t + 1;
    }
    assert(f@.take(f@.len() as int) =~= f@);
    ids
}

/// The ceiling on (target, fragment) pairs: the caller's, or the default one.
pub open spec fn repeat_ceiling(max_repeat_count: Option<u32>) -> u32 {
    match max_repeat_count {
        Some(c) => c,
        None => DEFAULT_CEILING,
    }
}

/// Turns the index lookups `r` of a query into chains, per target sequence.
///
/// All matches against a target sequence matched more than `DEFAULT_CEILING` times are
/// dropped, and so are all matches against a fragment of a target matched more than
/// `max_repeat_count` times (`DEFAULT_CEILING` if absent). The remaining matches are grouped by target sequence;
/// each target with at least two hit pairs is chained with span bound `DEFAULT_SPAN`.
pub fn query_fragment_to_hps(
    r: &Vec<FragmentHit>,
    penalty: Penalty,
    max_repeat_count: Option<u32>,
) -> (out: Vec<(u32, Vec<(i128, Vec<HitPair>)>)>)
    requires
        flat(r@).len() <= u32::MAX,
        penalty.den > 0,
    ensures
        ({
            let kf = kept(flat(r@), flat(r@), DEFAULT_CEILING, repeat_ceiling(max_repeat_count));
            &&& forall|a: int, b: int| 0 <= a < b < out@.len() ==> out@[a].0 != out@[b].0
            &&& forall|a: int|
                0 <= a < out@.len() ==> hits_for(kf, #[trigger] out@[a].0).len() >= 2
                    && chains_of(hits_for(kf, out@[a].0), DEFAULT_SPAN, penalty, out@[a].1@)
            &&& forall|sid: u32|
                hits_for(kf, sid).len() >= 2 ==> exists|a: int|
                    0 <= a < out@.len() && #[trigger] out@[a].0 == sid
        }),
{
    let f = flatten_hits(r);
    let seq_ceiling: u32 = match max_repeat_count {
        Some(c) => c,
        None => DEFAULT_CEILING,
    };
    let kf = filter_repeats(&f, DEFAULT_CEILING, seq_ceiling);
    proof {
        lemma_kept_le(f@, f@, DEFAULT_CEILING, seq_ceiling);
    }
    let ids = target_ids(&kf);
    let mut out: Vec<(u32, Vec<(i128, Vec<HitPair>)>)> = Vec::new();
    let ghost mut taken: Seq<int> = Seq::empty();
    let mut a: usize = 0;
    while a < ids.len()
        invariant
            a <= ids@.len(),
            kf@ == kept(flat(r@), flat(r@), DEFAULT_CEILING, repeat_ceiling(max_repeat_count)),
            kf@.len() <= u32::MAX,
            forall|x: int, y: int| 0 <= x < y < ids@.len() ==> ids@[x] != ids@[y],
            forall|sid: u32| #[trigger] ids@.contains(sid) <==> hits_for(kf@, sid).len() > 0,
            penalty.den > 0,
            taken.len() == out@.len(),
            forall|b: int|
                0 <= b < out@.len() ==> 0 <= #[trigger] taken[b] < a && out@[b].0 == ids@[taken[b]],
            forall|b: int, c: int| 0 <= b < c < out@.len() ==> taken[b] < taken[c],
            forall|b: int|
                0 <= b < out@.len() ==> hits_for(kf@, #[trigger] out@[b].0).len() >= 2
                    && chains_of(hits_for(kf@, out@[b].0), DEFAULT_SPAN, penalty, out@[b].1@),
            forall|x: int|
                0 <= x < a && hits_for(kf@, #[trigger] ids@[x]).len() >= 2 ==> exists|b: int|
                    0 <= b < out@.len() && taken[b] == x,
        decreases ids@.len() - a,
    {
        let sid = ids[a];
        let mut hs = collect_for(&kf, sid);
        proof {
            lemma_hits_for_le(kf@, sid);
        }
        if hs.len() >= 2 {
            let ghost hs0 = hs@;
            let res = sparse_aln(&mut hs, DEFAULT_SPAN, penalty);
            match res {
                Ok(chains) => {
                    proof {
                        assert(chains_of(hs0, DEFAULT_SPAN, penalty, chains@));
                    }
                    let ghost old_out = out@;
                    let ghost old_taken = taken;
                    out.push((sid, chains));
                    proof {
                        taken = taken.push(a as int);
                        assert forall|b: int|
                            0 <= b < out@.len() implies hits_for(kf@, #[trigger] out@[b].0).len()
                            >= 2 && chains_of(
                            hits_for(kf@, out@[b].0),
                            DEFAULT_SPAN,
                            penalty,
                            out@[b].1@,
                        ) by {
                            if b < old_out.len() {
                                assert(out@[b] == old_out[b]);
                            }
                        }
                        assert forall|x: int|
                            0 <= x < a + 1 && hits_for(kf@, #[trigger] ids@[x]).len() >= 2 implies exists|
                            b: int,
                        | 0 <= b < out@.len() && taken[b] == x by {
                            if x == a {
                                assert(taken[out@.len() - 1] == x);
                            } else {
                                let b = choose|b: int| 0 <= b < old_out.len() && old_taken[b] == x;
                                assert(taken[b] == x);
                            }
                        }
                    }
                },
                Err(e) => {
                    assert(e == ChainError::PreconditionViolation);
                },
            }
        } else {
            assert(hits_for(kf@, ids@[a as int]).len() < 2);
        }
        a = a + 1;
    }
    proof {
        assert forall|x: int, y: int| 0 <= x < y < out@.len() implies out@[x].0 != out@[y].0 by {
            assert(taken[x] < taken[y]);
            assert(ids@[taken[x]] != ids@[taken[y]]);
        }
        assert forall|sid: u32|
            hits_for(kf@, sid).len() >= 2 implies exists|b: int|
                0 <= b < out@.len() && #[trigger] out@[b].0 == sid by {
            assert(ids@.contains(sid));
            let x = choose|x: int| 0 <= x < ids@.len() && ids@[x] == sid;
            assert(hits_for(kf@, ids@[x]).len() >= 2);
            let b = choose|b: int| 0 <= b < out@.len() && taken[b] == x;
            assert(out@[b].0 == sid);
        }
    }
    out
}

} // verus!
