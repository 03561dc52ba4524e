use vstd::prelude::*;

verus! {

/// One edit of an alignment of a base sequence to a target sequence, at base position
/// `x` and target position `y`. `dk > 0` deletes `dk` base bytes, `dk < 0` inserts
/// `-dk` target bytes, and `dk == 0` substitutes one byte.
#[derive(Clone, Copy, Debug, PartialEq, Eq)]
pub struct DeltaPoint {
    pub x: u32,
    pub y: u32,
    pub dk: i32,
}

/// One step of rebuilding a sequence from a base: copy `base[b..e]`, or emit a byte.
#[derive(Clone, Copy, Debug, PartialEq, Eq)]
pub enum AlnSegment {
    Match(u32, u32),
    Insertion(u8),
}

/// An alignment of `seq0[bgn0..end0]` to `seq1[bgn1..end1]`, with its edits if asked.
#[derive(Debug)]
pub struct OvlpMatch {
    pub bgn0: u32,
    pub end0: u32,
    pub bgn1: u32,
    pub end1: u32,
    pub deltas: Option<Vec<DeltaPoint>>,
}

pub open spec fn seg_bytes(base: Seq<u8>, s: AlnSegment) -> Seq<u8> {
    match s {
        AlnSegment::Match(b, e) => base.subrange(b as int, e as int),
        AlnSegment::Insertion(c) => seq![c],
    }
}

/// The bytes that replaying `segs` over `base` produces.
pub open spec fn replay(base: Seq<u8>, segs: Seq<AlnSegment>) -> Seq<u8>
    decreases segs.len(),
{
    if segs.len() == 0 {
        Seq::empty()
    } else {
        replay(base, segs.drop_last()) + seg_bytes(base, segs.last())
    }
}

/// Every copy of `segs` lies within `base`.
pub open spec fn segs_fit(base: Seq<u8>, segs: Seq<AlnSegment>) -> bool {
    forall|i: int|
        0 <= i < segs.len() ==> match #[trigger] segs[i] {
            AlnSegment::Match(b, e) => b <= e <= base.len(),
            AlnSegment::Insertion(_) => true,
        }
}

/// Base position after the edit `p`.
pub open spec fn next_x(p: DeltaPoint) -> int {
    if p.dk > 0 {
        p.x + p.dk
    } else if p.dk == 0 {
        p.x + 1
    } else {
        p.x as int
    }
}

/// Target position after the edit `p`.
pub open spec fn next_y(p: DeltaPoint) -> int {
    if p.dk < 0 {
        p.y - p.dk
    } else if p.dk == 0 {
        p.y + 1
    } else {
        p.y as int
    }
}

/// The segments that emit the target bytes of the edit `p`.
pub open spec fn op_segs(p: DeltaPoint, frg: Seq<u8>) -> Seq<AlnSegment> {
    if p.dk > 0 {
        Seq::empty()
    } else {
        frg.subrange(p.y as int, next_y(p)).map_values(|c: u8| AlnSegment::Insertion(c))
    }
}

/// The segments for the edits `d`, with the base cursor at `x` and the base aligned up
/// to `end0`: a copy of each unedited run, then the bytes that each edit brings in.
pub open spec fn segs_of(d: Seq<DeltaPoint>, x: int, end0: int, frg: Seq<u8>) -> Seq<AlnSegment>
    decreases d.len(),
{
    if d.len() == 0 {
        if x < end0 {
            seq![AlnSegment::Match(x as u32, end0 as u32)]
        } else {
            Seq::empty()
        }
    } else {
        let p = d[0];
        (if x < p.x {
            seq![AlnSegment::Match(x as u32, p.x)]
        } else {
            Seq::empty()
        }) + op_segs(p, frg) + segs_of(d.drop_first(), next_x(p), end0, frg)
    }
}

/// The edits `d` align `base[x..end0]` to `frg[y..end1]`: the runs between edits are
/// equal, and each edit stays inside both sequences.
pub open spec fn valid_deltas(
    base: Seq<u8>,
    frg: Seq<u8>,
    d: Seq<DeltaPoint>,
    x: int,
    y: int,
    end0: int,
    end1: int,
) -> bool
    decreases d.len(),
{
    if d.len() == 0 {
        &&& 0 <= x <= end0 <= base.len()
        &&& 0 <= y <= end1 <= frg.len()
        &&& base.subrange(x, end0) == frg.subrange(y, end1)
    } else {
        let p = d[0];
        &&& 0 <= x <= p.x
        &&& 0 <= y <= p.y
        &&& p.x - x == p.y - y
        &&& next_x(p) <= base.len()
        &&& next_y(p) <= frg.len()
        &&& base.subrange(x, p.x as int) == frg.subrange(y, p.y as int)
        &&& valid_deltas(base, frg, d.drop_first(), next_x(p), next_y(p), end0, end1)
    }
}

/// Each edit of `d` reads inside `frg` and moves the base cursor within `u32`.
pub open spec fn deltas_in_range(d: Seq<DeltaPoint>, frg: Seq<u8>) -> bool {
    forall|i: int|
        0 <= i < d.len() ==> #[trigger] next_y(d[i]) <= frg.len() && next_x(d[i]) <= u32::MAX
            && d[i].dk > i32::MIN
}

proof fn lemma_valid_bounds(
    base: Seq<u8>,
    frg: Seq<u8>,
    d: Seq<DeltaPoint>,
    x: int,
    y: int,
    end0: int,
    end1: int,
)
    requires
        valid_deltas(base, frg, d, x, y, end0, end1),
    ensures
        x <= end0 <= base.len(),
        y <= end1 <= frg.len(),
    decreases d.len(),
{
    if d.len() > 0 {
        lemma_valid_bounds(base, frg, d.drop_first(), next_x(d[0]), next_y(d[0]), end0, end1);
    }
}

proof fn lemma_replay_concat(base: Seq<u8>, a: Seq<AlnSegment>, b: Seq<AlnSegment>)
    ensures
        replay(base, a + b) == replay(base, a) + replay(base, b),
    decreases b.len(),
{
    if b.len() == 0 {
        assert(a + b =~= a);
    } else {
        assert((a + b).drop_last() =~= a + b.drop_last());
        lemma_replay_concat(base, a, b.drop_last());
    }
}

proof fn lemma_replay_insertions(base: Seq<u8>, s: Seq<u8>)
    ensures
        replay(base, s.map_values(|c: u8| AlnSegment::Insertion(c))) == s,
    decreases s.len(),
{
    if s.len() > 0 {
        assert(s.map_values(|c: u8| AlnSegment::Insertion(c)).drop_last() =~= s.drop_last().map_values(
            |c: u8| AlnSegment::Insertion(c),
        ));
        lemma_replay_insertions(base, s.drop_last());
        assert(s =~= s.drop_last().push(s.last()));
    }
}

/// Replaying the segments made from a valid set of edits over the base gives back the
/// aligned part of the target, byte for byte.
pub proof fn lemma_round_trip(
    base: Seq<u8>,
    frg: Seq<u8>,
    d: Seq<DeltaPoint>,
    x: int,
    y: int,
    end0: int,
    end1: int,
)
    requires
        valid_deltas(base, frg, d, x, y, end0, end1),
        base.len() <= u32::MAX,
        frg.len() <= u32::MAX,
    ensures
        replay(base, segs_of(d, x, end0, frg)) == frg.subrange(y, end1),
    decreases d.len(),
{
    if d.len() == 0 {
        if x < end0 {
            let s = seq![AlnSegment::Match(x as u32, end0 as u32)];
            assert(s.drop_last() =~= Seq::<AlnSegment>::empty());
            assert(replay(base, s.drop_last()) == Seq::<u8>::empty());
            assert(segs_of(d, x, end0, frg) == s);
            assert(replay(base, s) =~= base.subrange(x, end0));
        } else {
            assert(frg.subrange(y, end1) =~= Seq::<u8>::empty());
        }
    } else {
        let p = d[0];
        let a: Seq<AlnSegment> = if x < p.x {
            seq![AlnSegment::Match(x as u32, p.x)]
        } else {
            Seq::empty()
        };
        let b = op_segs(p, frg);
        let c = segs_of(d.drop_first(), next_x(p), end0, frg);
        lemma_round_trip(base, frg, d.drop_first(), next_x(p), next_y(p), end0, end1);
        lemma_valid_bounds(base, frg, d.drop_first(), next_x(p), next_y(p), end0, end1);
        lemma_replay_concat(base, a + b, c);
        lemma_replay_concat(base, a, b);
        if x < p.x {
            assert(a.drop_last() =~= Seq::<AlnSegment>::empty());
            assert((x as u32) as int == x);
            assert(a.last() == AlnSegment::Match(x as u32, p.x));
            assert(replay(base, a.drop_last()) == Seq::<u8>::empty());
            assert(replay(base, a) =~= base.subrange(x, p.x as int));
        } else {
            assert(replay(base, a) =~= frg.subrange(y, p.y as int));
        }
        if p.dk > 0 {
            assert(replay(base, b) =~= frg.subrange(p.y as int, next_y(p)));
        } else {
            lemma_replay_insertions(base, frg.subrange(p.y as int, next_y(p)));
        }
        assert(frg.subrange(y, end1) =~= frg.subrange(y, p.y as int) + frg.subrange(
            p.y as int,
            next_y(p),
        ) + frg.subrange(next_y(p), end1));
        assert(segs_of(d, x, end0, frg) == a + b + c);
    }
}

/// Rebuilds a sequence by replaying `aln_segs` over `base_seq`.
pub fn reconstruct_seq_from_aln_segs(base_seq: &Vec<u8>, aln_segs: &Vec<AlnSegment>) -> (r: Vec<u8>)
    requires
        segs_fit(base_seq@, aln_segs@),
    ensures
        r@ == replay(base_seq@, aln_segs@),
{
    let mut r: Vec<u8> = Vec::new();
    let mut i: usize = 0;
    while i < aln_segs.len()
        invariant
            i <= aln_segs@.len(),
            segs_fit(base_seq@, aln_segs@),
            r@ == replay(base_seq@, aln_segs@.take(i as int)),
        decreases aln_segs@.len() - i,
    {
        proof {
            assert(aln_segs@.take(i + 1).drop_last() =~= aln_segs@.take(i as int));
        }
        match aln_segs[i] {
            AlnSegment::Match(b, e) => {
                let ghost r0 = r@;
                let mut k: u32 = b;
                while k < e
                    invariant
                        b <= k <= e <= base_seq@.len(),
                        r@ == r0 + base_seq@.subrange(b as int, k as int),
                    decreases e - k,
                {
                    r.push(base_seq[k as usize]);
                    proof {
                        assert(base_seq@.subrange(b as int, k + 1) =~= base_seq@.subrange(
                            b as int,
                            k as int,
                        ).push(base_seq@[k as int]));
                    }
                    k = k + 1;
                }
            },
            AlnSegment::Insertion(c) => {
                r.push(c);
            },
        }
        i = i + 1;
    }
    assert(aln_segs@.take(aln_segs@.len() as int) =~= aln_segs@);
    r
}

/// Turns the edits `deltas` of an alignment of `base[..end0]` to `frg[..end1]` into
/// segments that rebuild the aligned part of `frg` from the base.
pub fn deltas_to_aln_segs(
    deltas: &Vec<DeltaPoint>,
    end0: usize,
    end1: usize,
    frg: &Vec<u8>,
) -> (segs: Vec<AlnSegment>)
    requires
        deltas_in_range(deltas@, frg@),
        end0 <= u32::MAX,
    ensures
        segs@ == segs_of(deltas@, 0, end0 as int, frg@),
{
    let ghost target = segs_of(deltas@, 0, end0 as int, frg@);
    let mut segs: Vec<AlnSegment> = Vec::new();
    let mut x: u32 = 0;
    let mut i: usize = 0;
    proof {
        assert(deltas@.skip(0) =~= deltas@);
    }
    while i < deltas.len()
        invariant
            i <= deltas@.len(),
            deltas_in_range(deltas@, frg@),
            end0 <= u32::MAX,
            target == segs_of(deltas@, 0, end0 as int, frg@),
            target == segs@ + segs_of(deltas@.skip(i as int), x as int, end0 as int, frg@),
        decreases deltas@.len() - i,
    {
        let p = deltas[i];
        let ghost rest = deltas@.skip(i as int);
        let ghost s0 = segs@;
        proof {
            assert(rest[0] == p);
            assert(rest.drop_first() =~= deltas@.skip(i + 1));
            assert(next_y(deltas@[i as int]) <= frg@.len());
        }
        let ghost a: Seq<AlnSegment> = if x < p.x {
            seq![AlnSegment::Match(x, p.x)]
        } else {
            Seq::empty()
        };
        if x < p.x {
            segs.push(AlnSegment::Match(x, p.x));
        }
        assert(segs@ == s0 + a);
        if p.dk <= 0 {
            assert(p == deltas@[i as int]);
            let flen = frg.len();
            assert(next_y(p) <= flen);
            let stop: usize = if p.dk == 0 {
                p.y as usize + 1
            } else {
                p.y as usize + ((0 - p.dk) as u32) as usize
            };
            assert(stop == next_y(p));
            let mut k: usize = p.y as usize;
            let ghost s1 = segs@;
            while k < stop
                invariant
                    p.y <= k <= stop <= frg@.len(),
                    segs@ == s1 + frg@.subrange(p.y as int, k as int).map_values(
                        |c: u8| AlnSegment::Insertion(c),
                    ),
                decreases stop - k,
            {
                segs.push(AlnSegment::Insertion(frg[k]));
                proof {
                    assert(frg@.subrange(p.y as int, k + 1).map_values(|c: u8| AlnSegment::Insertion(c))
                        =~= frg@.subrange(p.y as int, k as int).map_values(
                        |c: u8| AlnSegment::Insertion(c),
                    ).push(AlnSegment::Insertion(frg@[k as int])));
                }
                k = k + 1;
            }
        }
        proof {
            assert(segs@ == s0 + a + op_segs(p, frg@));
            assert(segs_of(rest, x as int, end0 as int, frg@) == a + op_segs(p, frg@) + segs_of(
                deltas@.skip(i + 1),
                next_x(p),
                end0 as int,
                frg@,
            ));
        }
        x = if p.dk > 0 {
            x_after(p.x, p.dk)
        } else if p.dk == 0 {
            p.x + 1
        } else {
            p.x
        };
        proof {
            assert(x == next_x(p));
        }
        i = i + 1;
    }
    proof {
        assert(deltas@.skip(i as int) =~= Seq::<DeltaPoint>::empty());
    }
    if (x as usize) < end0 {
        segs.push(AlnSegment::Match(x, end0 as u32));
    }
    proof {
        assert(segs@ =~= target);
    }
    segs
}

fn x_after(x: u32, dk: i32) -> (r: u32)
    requires
        dk > 0,
        x + dk <= u32::MAX,
    ensures
        r == x + dk,
{
    x + dk as u32
}

/// A minimal end-to-end aligner, standing in for an approximate pairwise aligner:
/// the common prefix and suffix are kept, the base bytes between them deleted and the
/// target bytes between them inserted. It makes no attempt at a short edit script; it
/// only yields edits that `valid_deltas` accepts. Sequences longer than `i32::MAX` are
/// not aligned.
pub fn match_reads(seq0: &Vec<u8>, seq1: &Vec<u8>, get_delta: bool) -> (r: Option<OvlpMatch>)
    ensures
        r is Some <==> (seq0@.len() <= i32::MAX && seq1@.len() <= i32::MAX),
        r matches Some(m) ==> {
            &&& m.bgn0 == 0 && m.bgn1 == 0
            &&& m.end0 == seq0@.len() && m.end1 == seq1@.len()
            &&& (m.deltas is Some <==> get_delta)
            &&& m.deltas matches Some(d) ==> valid_deltas(
                seq0@,
                seq1@,
                d@,
                0,
                0,
                seq0@.len() as int,
                seq1@.len() as int,
            ) && deltas_in_range(d@, seq1@)
        },
{
    let n0 = seq0.len();
    let n1 = seq1.len();
    if n0 > 0x7fff_ffff || n1 > 0x7fff_ffff {
        return None;
    }
    let mut p: usize = 0;
    while p < n0 && p < n1 && seq0[p] == seq1[p]
        invariant
            p <= n0 == seq0@.len(),
            p <= n1 == seq1@.len(),
            seq0@.subrange(0, p as int) == seq1@.subrange(0, p as int),
        decreases n0 - p,
    {
        proof {
            assert(seq0@.subrange(0, p + 1) =~= seq0@.subrange(0, p as int).push(seq0@[p as int]));
            assert(seq1@.subrange(0, p + 1) =~= seq1@.subrange(0, p as int).push(seq1@[p as int]));
        }
        p = p + 1;
    }
    let mut s: usize = 0;
    while s < n0 - p && s < n1 - p && seq0[n0 - 1 - s] == seq1[n1 - 1 - s]
        invariant
            p <= n0 == seq0@.len() <= 0x7fff_ffff,
            p <= n1 == seq1@.len() <= 0x7fff_ffff,
            s <= n0 - p,
            s <= n1 - p,
            seq0@.subrange(n0 - s, n0 as int) == seq1@.subrange(n1 - s, n1 as int),
        decreases n0 - s,
    {
        proof {
            assert(seq0@.subrange(n0 - s - 1, n0 as int) =~= seq![seq0@[n0 - 1 - s]] + seq0@.subrange(
                n0 - s,
                n0 as int,
            ));
            assert(seq1@.subrange(n1 - s - 1, n1 as int) =~= seq![seq1@[n1 - 1 - s]] + seq1@.subrange(
                n1 - s,
                n1 as int,
            ));
        }
        s = s + 1;
    }
    let m0 = n0 - p - s;
    let m1 = n1 - p - s;
    let mut d: Vec<DeltaPoint> = Vec::new();
    if m0 > 0 {
        d.push(DeltaPoint { x: p as u32, y: p as u32, dk: m0 as i32 });
    }
    if m1 > 0 {
        let dk: i32 = 0 - (m1 as i32);
        d.push(DeltaPoint { x: (p + m0) as u32, y: p as u32, dk });
    }
    proof {
        let a = seq0@;
        let b = seq1@;
        let e0 = n0 as int;
        let e1 = n1 as int;
        let q0 = (p + m0) as int;
        let q1 = (p + m1) as int;
        assert(a.subrange(q0, e0) == b.subrange(q1, e1));
        assert(valid_deltas(a, b, Seq::<DeltaPoint>::empty(), q0, q1, e0, e1));
        if m1 > 0 {
            let di = d@.last();
            assert(seq![di].drop_first() =~= Seq::<DeltaPoint>::empty());
            assert(a.subrange(q0, q0) =~= b.subrange(p as int, p as int));
            assert(valid_deltas(a, b, seq![di], q0, p as int, e0, e1));
            if m0 > 0 {
                let dd = d@[0];
                assert(seq![dd, di].drop_first() =~= seq![di]);
                assert(valid_deltas(a, b, seq![dd, di], 0, 0, e0, e1));
                assert(d@ =~= seq![dd, di]);
            } else {
                assert(d@ =~= seq![di]);
                assert(a.subrange(0, q0) =~= b.subrange(0, p as int));
            }
        } else if m0 > 0 {
            let dd = d@[0];
            assert(seq![dd].drop_first() =~= Seq::<DeltaPoint>::empty());
            assert(valid_deltas(a, b, seq![dd], 0, 0, e0, e1));
            assert(d@ =~= seq![dd]);
        } else {
            assert(d@ =~= Seq::<DeltaPoint>::empty());
            assert(a =~= a.subrange(0, p as int) + a.subrange(p as int, e0));
            assert(b =~= b.subrange(0, p as int) + b.subrange(p as int, e1));
            assert(a.subrange(0, e0) =~= a);
            assert(b.subrange(0, e1) =~= b);
        }
    }
    let deltas = if get_delta {
        Some(d)
    } else {
        None
    };
    Some(OvlpMatch { bgn0: 0, end0: n0 as u32, bgn1: 0, end1: n1 as u32, deltas })
}

} // verus!
