use crate::segments::{
    lemma_round_trip, reconstruct_seq_from_aln_segs, replay, segs_fit, segs_of, valid_deltas,
    AlnSegment, DeltaPoint,
};
use vstd::prelude::*;

verus! {

/// A stored unit of sequence content.
pub enum Fragment {
    /// Literal bytes at the start of a sequence.
    Prefix(Vec<u8>),
    /// Literal bytes at the end of a sequence.
    Suffix(Vec<u8>),
    /// Literal bytes between two minimizer landmarks.
    Internal(Vec<u8>),
    /// A near copy of an `Internal` fragment: its id, whether it is read reverse
    /// complemented, and the segments that rebuild this fragment from it.
    AlnSegments((u32, bool, Vec<AlnSegment>)),
}

/// Why a fragment could not be rebuilt.
#[derive(Clone, Copy, Debug, PartialEq, Eq)]
pub enum StoreError {
    /// A delta fragment's base is not an `Internal` fragment, or its segments reach
    /// outside the base; or a fragment is shorter than the overlap it must drop.
    CorruptReference,
}

/// An append-only arena of fragments; ids are positions and never change.
pub struct FragmentStore {
    pub k: u32,
    pub frags: Vec<Fragment>,
}

pub open spec fn complement(c: u8) -> u8 {
    if c == 65 {
        84u8
    } else if c == 84 {
        65u8
    } else if c == 67 {
        71u8
    } else if c == 71 {
        67u8
    } else if c == 97 {
        116u8
    } else if c == 116 {
        97u8
    } else if c == 99 {
        103u8
    } else if c == 103 {
        99u8
    } else {
        78u8
    }
}

/// The reverse complement of `s`; bytes other than `ACGTacgt` become `N`.
pub open spec fn revcomp(s: Seq<u8>) -> Seq<u8> {
    Seq::new(s.len(), |i: int| complement(s[s.len() - 1 - i]))
}

/// The bytes that a delta fragment's base gives, read in the stated direction.
pub open spec fn base_bytes(frags: Seq<Fragment>, base: u32, rev: bool) -> Option<Seq<u8>> {
    if base < frags.len() {
        match frags[base as int] {
            Fragment::Internal(b) => Some(if rev { revcomp(b@) } else { b@ }),
            _ => None,
        }
    } else {
        None
    }
}

/// The bytes of fragment `fid`, if it can be rebuilt.
pub open spec fn fragment_bytes(frags: Seq<Fragment>, fid: int) -> Option<Seq<u8>> {
    match frags[fid] {
        Fragment::Prefix(b) => Some(b@),
        Fragment::Suffix(b) => Some(b@),
        Fragment::Internal(b) => Some(b@),
        Fragment::AlnSegments((base, rev, segs)) => match base_bytes(frags, base, rev) {
            Some(bs) => if segs_fit(bs, segs@) {
                Some(replay(bs, segs@))
            } else {
                None
            },
            None => None,
        },
    }
}

/// Whether a fragment overlaps the one before it by `k` bytes.
pub open spec fn overlaps(f: Fragment) -> bool {
    f is Internal || f is AlnSegments
}

/// The bytes that fragment `ids[i]` adds to a sequence: all of them for the first
/// fragment and for prefixes and suffixes, all but the first `k` otherwise.
pub open spec fn piece(frags: Seq<Fragment>, ids: Seq<u32>, i: int, k: u32) -> Option<Seq<u8>> {
    match fragment_bytes(frags, ids[i] as int) {
        Some(b) => if i == 0 || !overlaps(frags[ids[i] as int]) {
            Some(b)
        } else if b.len() >= k {
            Some(b.subrange(k as int, b.len() as int))
        } else {
            None
        },
        None => None,
    }
}

/// The bytes of a sequence made of the fragments `ids`, if every one can be rebuilt.
pub open spec fn sequence_bytes(frags: Seq<Fragment>, ids: Seq<u32>, k: u32) -> Option<Seq<u8>>
    decreases ids.len(),
{
    if ids.len() == 0 {
        Some(Seq::empty())
    } else {
        match sequence_bytes(frags, ids.drop_last(), k) {
            Some(s) => match piece(frags, ids, ids.len() - 1, k) {
                Some(p) => Some(s + p),
                None => None,
            },
            None => None,
        }
    }
}

fn complement_byte(c: u8) -> (r: u8)
    ensures
        r == complement(c),
{
    if c == 65 {
        84
    } else if c == 84 {
        65
    } else if c == 67 {
        71
    } else if c == 71 {
        67
    } else if c == 97 {
        116
    } else if c == 116 {
        97
    } else if c == 99 {
        103
    } else if c == 103 {
        99
    } else {
        78
    }
}

/// The reverse complement of `s`.
pub fn reverse_complement(s: &Vec<u8>) -> (r: Vec<u8>)
    ensures
        r@ == revcomp(s@),
{
    let n = s.len();
    let mut r: Vec<u8> = Vec::new();
    let mut i: usize = 0;
    while i < n
        invariant
            n == s@.len(),
            i <= n,
            r@.len() == i,
            forall|j: int| 0 <= j < i ==> #[trigger] r@[j] == complement(s@[n - 1 - j]),
        decreases n - i,
    {
        r.push(complement_byte(s[n - 1 - i]));
        i = i + 1;
    }
    assert(r@ =~= revcomp(s@));
    r
}

fn copy_bytes(b: &Vec<u8>, from: usize) -> (r: Vec<u8>)
    requires
        from <= b@.len(),
    ensures
        r@ == b@.subrange(from as int, b@.len() as int),
        from == 0 ==> r@ == b@,
{
    assert(b@.subrange(0, b@.len() as int) =~= b@);
    let mut r: Vec<u8> = Vec::new();
    let mut i: usize = from;
    while i < b.len()
        invariant
            from <= i <= b@.len(),
            r@ == b@.subrange(from as int, i as int),
        decreases b@.len() - i,
    {
        r.push(b[i]);
        proof {
            assert(b@.subrange(from as int, i + 1) =~= b@.subrange(from as int, i as int).push(
                b@[i as int],
            ));
        }
        i = i + 1;
    }
    r
}

fn copy_range(b: &Vec<u8>, from: usize, to: usize) -> (r: Vec<u8>)
    requires
        from <= to <= b@.len(),
    ensures
        r@ == b@.subrange(from as int, to as int),
{
    let mut r: Vec<u8> = Vec::new();
    let mut i: usize = from;
    while i < to
        invariant
            from <= i <= to <= b@.len(),
            r@ == b@.subrange(from as int, i as int),
        decreases to - i,
    {
        r.push(b[i]);
        proof {
            assert(b@.subrange(from as int, i + 1) =~= b@.subrange(from as int, i as int).push(
                b@[i as int],
            ));
        }
        i = i + 1;
    }
    r
}

/// Whether `cuts` are landmark positions at which `seq` can be split for a store with
/// overlap `k`: strictly increasing, inside `seq`, and none before `k`.
pub open spec fn valid_cuts(seq: Seq<u8>, cuts: Seq<usize>, k: u32) -> bool {
    &&& forall|i: int, j: int| 0 <= i < j < cuts.len() ==> cuts[i] < cuts[j]
    &&& forall|i: int| 0 <= i < cuts.len() ==> k <= #[trigger] cuts[i] <= seq.len()
}

proof fn lemma_sequence_frame(frags: Seq<Fragment>, f: Fragment, ids: Seq<u32>, k: u32)
    requires
        forall|i: int|
            0 <= i < ids.len() ==> #[trigger] ids[i] < frags.len() && !(frags[ids[i] as int] is AlnSegments),
    ensures
        sequence_bytes(frags.push(f), ids, k) == sequence_bytes(frags, ids, k),
    decreases ids.len(),
{
    if ids.len() > 0 {
        let last = ids.len() - 1;
        assert(ids[last] < frags.len());
        assert(frags.push(f)[ids[last] as int] == frags[ids[last] as int]);
        assert forall|i: int| 0 <= i < ids.drop_last().len() implies #[trigger] ids.drop_last()[i]
            < frags.len() && !(frags[ids.drop_last()[i] as int] is AlnSegments) by {
            assert(ids.drop_last()[i] == ids[i]);
        }
        lemma_sequence_frame(frags, f, ids.drop_last(), k);
    }
}
fn segs_fit_exec(base: &Vec<u8>, segs: &Vec<AlnSegment>) -> (r: bool)
    ensures
        r == segs_fit(base@, segs@),
{
    let mut i: usize = 0;
    while i < segs.len()
        invariant
            i <= segs@.len(),
            forall|j: int|
                0 <= j < i ==> match #[trigger] segs@[j] {
                    AlnSegment::Match(b, e) => b <= e <= base@.len(),
                    AlnSegment::Insertion(_) => true,
                },
        decreases segs@.len() - i,
    {
        match segs[i] {
            AlnSegment::Match(b, e) => {
                if !(b <= e && (e as usize) <= base.len()) {
                    return false;
                }
            },
            AlnSegment::Insertion(_) => {},
        }
        i = i + 1;
    }
    true
}

impl FragmentStore {
    /// An empty store whose overlapping fragments share `k` bytes with their neighbour.
    pub fn new(k: u32) -> (r: FragmentStore)
        ensures
            r.k == k,
            r.frags@.len() == 0,
    {
        FragmentStore { k, frags: Vec::new() }
    }

    /// Appends a fragment and returns its id.
    pub fn append(&mut self, f: Fragment) -> (id: u32)
        requires
            old(self).frags@.len() < u32::MAX,
        ensures
            id == old(self).frags@.len(),
            final(self).frags@ == old(self).frags@.push(f),
            final(self).k == old(self).k,
    {
        let id = self.frags.len() as u32;
        self.frags.push(f);
        id
    }

    /// Appends a delta fragment against the fragment `base`, which must already be
    /// stored; returns its id, or `None` for a reference to a fragment not stored yet.
    pub fn append_delta(&mut self, base: u32, rev: bool, segs: Vec<AlnSegment>) -> (id: Option<u32>)
        requires
            old(self).frags@.len() < u32::MAX,
        ensures
            (base < old(self).frags@.len()) <==> id is Some,
            id is Some ==> id == Some(old(self).frags@.len() as u32) && final(self).frags@
                == old(self).frags@.push(Fragment::AlnSegments((base, rev, segs))),
            id is None ==> final(self).frags@ == old(self).frags@,
            final(self).k == old(self).k,
    {
        if (base as usize) < self.frags.len() {
            Some(self.append(Fragment::AlnSegments((base, rev, segs))))
        } else {
            None
        }
    }

    /// The bytes of fragment `fid`; a delta fragment is its base, reverse complemented if
    /// flagged, with its segments replayed over it.
    pub fn reconstruct(&self, fid: u32) -> (r: Result<Vec<u8>, StoreError>)
        requires
            fid < self.frags@.len(),
        ensures
            match fragment_bytes(self.frags@, fid as int) {
                Some(b) => r matches Ok(v) && v@ == b,
                None => r == Err::<Vec<u8>, StoreError>(StoreError::CorruptReference),
            },
    {
        match &self.frags[fid as usize] {
            Fragment::Prefix(b) => Ok(copy_bytes(b, 0)),
            Fragment::Suffix(b) => Ok(copy_bytes(b, 0)),
            Fragment::Internal(b) => Ok(copy_bytes(b, 0)),
            Fragment::AlnSegments((base, rev, segs)) => {
                if (*base as usize) >= self.frags.len() {
                    return Err(StoreError::CorruptReference);
                }
                match &self.frags[*base as usize] {
                    Fragment::Internal(bs) => {
                        let bs2 = if *rev {
                            reverse_complement(bs)
                        } else {
                            copy_bytes(bs, 0)
                        };
                        if segs_fit_exec(&bs2, segs) {
                            Ok(reconstruct_seq_from_aln_segs(&bs2, segs))
                        } else {
                            Err(StoreError::CorruptReference)
                        }
                    },
                    _ => Err(StoreError::CorruptReference),
                }
            },
        }
    }

    /// The bytes of a sequence made of the fragments `seq_frags`: each fragment's bytes
    /// in order, where an `Internal` or delta fragment after the first drops its first
    /// `k` bytes, which the fragment before it already holds.
    pub fn reconstruct_sequence(&self, seq_frags: &Vec<u32>) -> (r: Result<Vec<u8>, StoreError>)
        requires
            forall|i: int| 0 <= i < seq_frags@.len() ==> #[trigger] seq_frags@[i] < self.frags@.len(),
        ensures
            match sequence_bytes(self.frags@, seq_frags@, self.k) {
                Some(b) => r matches Ok(v) && v@ == b,
                None => r == Err::<Vec<u8>, StoreError>(StoreError::CorruptReference),
            },
    {
        let mut out: Vec<u8> = Vec::new();
        let mut i: usize = 0;
        while i < seq_frags.len()
            invariant
                i <= seq_frags@.len(),
                forall|j: int| 0 <= j < seq_frags@.len() ==> #[trigger] seq_frags@[j] < self.frags@.len(),
                sequence_bytes(self.frags@, seq_frags@.take(i as int), self.k) == Some(out@),
            decreases seq_frags@.len() - i,
        {
            let fid = seq_frags[i];
            proof {
                assert(seq_frags@.take(i + 1).drop_last() =~= seq_frags@.take(i as int));
                assert(seq_frags@.take(i + 1)[i as int] == fid);
                assert(piece(self.frags@, seq_frags@.take(i + 1), i as int, self.k) == piece(
                    self.frags@,
                    seq_frags@,
                    i as int,
                    self.k,
                ));
            }
            let b = match self.reconstruct(fid) {
                Ok(b) => b,
                Err(e) => {
                    proof {
                        lemma_sequence_none_extends(self.frags@, seq_frags@, i as int + 1, self.k);
                    }
                    return Err(e);
                },
            };
            let ov = match &self.frags[fid as usize] {
                Fragment::Internal(_) => true,
                Fragment::AlnSegments(_) => true,
                _ => false,
            };
            if i == 0 || !ov {
                let ghost o0 = out@;
                append_all(&mut out, &b, 0);
                assert(out@ == o0 + b@.subrange(0, b@.len() as int));
                assert(b@.subrange(0, b@.len() as int) =~= b@);
            } else if b.len() >= self.k as usize {
                append_all(&mut out, &b, self.k as usize);
            } else {
                proof {
                    lemma_sequence_none_extends(self.frags@, seq_frags@, i as int + 1, self.k);
                }
                return Err(StoreError::CorruptReference);
            }
            i = i + 1;
        }
        assert(seq_frags@.take(seq_frags@.len() as int) =~= seq_frags@);
        Ok(out)
    }
}

impl FragmentStore {
    /// Stores `seq` split at the landmark positions `cuts`: a prefix up to the first cut,
    /// an internal fragment from `k` bytes before each cut to the next cut, and a suffix
    /// from the last cut. Returns the fragment ids, which rebuild `seq` exactly.
    pub fn store_sequence(&mut self, seq: &Vec<u8>, cuts: &Vec<usize>) -> (ids: Vec<u32>)
        requires
            valid_cuts(seq@, cuts@, old(self).k),
            old(self).frags@.len() + cuts@.len() + 2 < u32::MAX,
        ensures
            final(self).k == old(self).k,
            final(self).frags@.len() == old(self).frags@.len() + ids@.len(),
            forall|i: int| 0 <= i < old(self).frags@.len() ==> final(self).frags@[i] == old(self).frags@[i],
            ids@.len() == cuts@.len() + 1,
            forall|i: int| 0 <= i < ids@.len() ==> #[trigger] ids@[i] < final(self).frags@.len(),
            sequence_bytes(final(self).frags@, ids@, final(self).k) == Some(seq@),
    {
        let ghost f0 = self.frags@;
        let n = seq.len();
        let m = cuts.len();
        let mut ids: Vec<u32> = Vec::new();
        let first_end: usize = if m == 0 { n } else { cuts[0] };
        let pb = copy_range(seq, 0, first_end);
        let ghost pv = pb@;
        let id0 = self.append(Fragment::Prefix(pb));
        ids.push(id0);
        proof {
            assert(ids@.drop_last() =~= Seq::<u32>::empty());
            assert(fragment_bytes(self.frags@, id0 as int) == Some(pv));
            assert(piece(self.frags@, ids@, 0, self.k) == Some(pv));
            assert(Seq::<u8>::empty() + pv =~= pv);
            assert(sequence_bytes(self.frags@, ids@.drop_last(), self.k) == Some(Seq::<u8>::empty()));
            assert(sequence_bytes(self.frags@, ids@, self.k) == Some(pv));
        }
        let mut cur: usize = first_end;
        let mut j: usize = 0;
        while m > 0 && j < m - 1
            invariant
                valid_cuts(seq@, cuts@, self.k),
                m == cuts@.len(),
                n == seq@.len(),
                self.k == old(self).k,
                f0 == old(self).frags@,
                m > 0 ==> j < m,
                m == 0 ==> cur == n && j == 0,
                m > 0 ==> cur == cuts@[j as int],
                cur <= n,
                self.frags@.len() == f0.len() + ids@.len(),
                self.frags@.len() + m - j + 1 < u32::MAX,
                ids@.len() == j + 1,
                forall|i: int| 0 <= i < f0.len() ==> self.frags@[i] == f0[i],
                forall|i: int|
                    0 <= i < ids@.len() ==> #[trigger] ids@[i] < self.frags@.len() && !(
                    self.frags@[ids@[i] as int] is AlnSegments),
                sequence_bytes(self.frags@, ids@, self.k) == Some(seq@.subrange(0, cur as int)),
            decreases m - j,
        {
            let next = cuts[j + 1];
            let start = cur - self.k as usize;
            let bytes = copy_range(seq, start, next);
            let ghost fr = self.frags@;
            let ghost bv = bytes@;
            let id = self.append(Fragment::Internal(bytes));
            proof {
                lemma_sequence_frame(fr, Fragment::Internal(bytes), ids@, self.k);
            }
            let ghost old_ids = ids@;
            ids.push(id);
            proof {
                assert(ids@.drop_last() =~= old_ids);
                assert(fragment_bytes(self.frags@, id as int) == Some(bv));
                assert(bv.subrange(self.k as int, bv.len() as int) =~= seq@.subrange(
                    cur as int,
                    next as int,
                ));
                assert(seq@.subrange(0, next as int) =~= seq@.subrange(0, cur as int) + seq@.subrange(
                    cur as int,
                    next as int,
                ));
                assert(cuts@[j as int] < cuts@[j + 1]);
            }
            cur = next;
            j = j + 1;
        }
        assert(m > 0 ==> j == m - 1);
        if m > 0 {
            let ghost fr = self.frags@;
            let bytes = copy_range(seq, cur, n);
            let ghost bv = bytes@;
            let id = self.append(Fragment::Suffix(bytes));
            proof {
                lemma_sequence_frame(fr, Fragment::Suffix(bytes), ids@, self.k);
            }
            let ghost old_ids = ids@;
            ids.push(id);
            proof {
                assert(ids@.drop_last() =~= old_ids);
                assert(fragment_bytes(self.frags@, id as int) == Some(bv));
                assert(piece(self.frags@, ids@, ids@.len() - 1, self.k) == Some(bv));
                assert(seq@.subrange(0, n as int) =~= seq@.subrange(0, cur as int) + bv);
                assert(sequence_bytes(self.frags@, ids@, self.k) == Some(seq@.subrange(0, n as int)));
                assert(ids@.len() == m + 1);
            }
        } else {
            assert(cur == n);
            assert(ids@.len() == 1);
        }
        assert(seq@.subrange(0, n as int) =~= seq@);
        ids
    }
}

fn append_all(out: &mut Vec<u8>, b: &Vec<u8>, from: usize)
    requires
        from <= b@.len(),
    ensures
        final(out)@ == old(out)@ + b@.subrange(from as int, b@.len() as int),
{
    let mut i: usize = from;
    while i < b.len()
        invariant
            from <= i <= b@.len(),
            out@ == old(out)@ + b@.subrange(from as int, i as int),
        decreases b@.len() - i,
    {
        out.push(b[i]);
        proof {
            assert(b@.subrange(from as int, i + 1) =~= b@.subrange(from as int, i as int).push(
                b@[i as int],
            ));
        }
        i = i + 1;
    }
}

proof fn lemma_sequence_none_extends(frags: Seq<Fragment>, ids: Seq<u32>, n: int, k: u32)
    requires
        0 < n <= ids.len(),
        sequence_bytes(frags, ids.take(n), k) is None,
    ensures
        sequence_bytes(frags, ids, k) is None,
    decreases ids.len() - n,
{
    if n < ids.len() {
        assert(ids.take(n + 1).drop_last() =~= ids.take(n));
        lemma_sequence_none_extends(frags, ids, n + 1, k);
    } else {
        assert(ids.take(n) =~= ids);
    }
}

/// A delta fragment stored from edits that align its base (read in the stated
/// direction) to a target rebuilds that target exactly.
pub proof fn lemma_delta_fragment_round_trip(
    frags: Seq<Fragment>,
    fid: int,
    target: Seq<u8>,
    d: Seq<DeltaPoint>,
)
    requires
        0 <= fid < frags.len(),
        frags[fid] matches Fragment::AlnSegments((base, rev, segs)) && {
            &&& base_bytes(frags, base, rev) matches Some(bs) && {
                &&& bs.len() <= u32::MAX
                &&& target.len() <= u32::MAX
                &&& valid_deltas(bs, target, d, 0, 0, bs.len() as int, target.len() as int)
                &&& segs@ == segs_of(d, 0, bs.len() as int, target)
            }
        },
    ensures
        fragment_bytes(frags, fid) == Some(target),
{
    if let Fragment::AlnSegments((base, rev, segs)) = frags[fid] {
        let bs = base_bytes(frags, base, rev).unwrap();
        lemma_round_trip(bs, target, d, 0, 0, bs.len() as int, target.len() as int);
        assert(target.subrange(0, target.len() as int) =~= target);
        lemma_segs_of_fit(bs, target, d, 0, 0, bs.len() as int, target.len() as int);
    }
}

proof fn lemma_segs_of_fit(
    base: Seq<u8>,
    frg: Seq<u8>,
    d: Seq<DeltaPoint>,
    x: int,
    y: int,
    end0: int,
    end1: int,
)
    requires
        valid_deltas(base, frg, d, x, y, end0, end1),
        base.len() <= u32::MAX,
    ensures
        segs_fit(base, segs_of(d, x, end0, frg)),
    decreases d.len(),
{
    let s = segs_of(d, x, end0, frg);
    if d.len() > 0 {
        let p = d[0];
        lemma_segs_of_fit(base, frg, d.drop_first(), crate::segments::next_x(p), crate::segments::next_y(p), end0, end1);
        assert forall|i: int| 0 <= i < s.len() implies match #[trigger] s[i] {
            AlnSegment::Match(b, e) => b <= e <= base.len(),
            AlnSegment::Insertion(_) => true,
        } by {
            let a: Seq<AlnSegment> = if x < p.x {
                seq![AlnSegment::Match(x as u32, p.x)]
            } else {
                Seq::empty()
            };
            let o = crate::segments::op_segs(p, frg);
            let c = segs_of(d.drop_first(), crate::segments::next_x(p), end0, frg);
            assert(s == a + o + c);
            if i >= a.len() + o.len() {
                assert(s[i] == c[i - a.len() - o.len()]);
            } else if i >= a.len() {
                assert(s[i] == o[i - a.len()]);
            }
        }
    }
}

} // verus!
