use pgr_chain::chain::{sparse_aln, ChainError, HitPair, Penalty};

const HALF: Penalty = Penalty { num: 1, den: 2 };

#[test]
fn concrete_scenario_scores() {
    let mut hits: Vec<HitPair> = vec![
        ((30, 40, 0), (300, 310, 0)),
        ((0, 10, 0), (100, 110, 0)),
        ((10, 20, 0), (110, 120, 0)),
    ];
    let out = sparse_aln(&mut hits, 8, HALF).unwrap();
    // scores are in halves: the pair chains to 40 - 20 = 20 (that is 10.0)
    assert_eq!(out.len(), 2);
    assert_eq!(out[0].0, 20);
    assert_eq!(out[0].1, vec![((0, 10, 0), (100, 110, 0)), ((10, 20, 0), (110, 120, 0))]);
    assert_eq!(out[1].0, 0);
    assert_eq!(out[1].1, vec![((30, 40, 0), (300, 310, 0))]);
    assert_eq!(hits[0].0 .0, 0);
    assert_eq!(hits[1].0 .0, 10);
    assert_eq!(hits[2].0 .0, 30);
}

#[test]
fn single_hit_is_refused() {
    let mut hits: Vec<HitPair> = vec![((0, 10, 0), (100, 110, 0))];
    assert_eq!(sparse_aln(&mut hits, 8, HALF), Err(ChainError::PreconditionViolation));
    let mut none: Vec<HitPair> = vec![];
    assert_eq!(sparse_aln(&mut none, 8, HALF), Err(ChainError::PreconditionViolation));
}

#[test]
fn reverse_orientation_gap() {
    // query runs forward, target runs backward: the target gap is |end2 - pred.bgn2|
    let mut hits: Vec<HitPair> = vec![((0, 10, 0), (190, 200, 1)), ((10, 20, 0), (180, 190, 1))];
    let out = sparse_aln(&mut hits, 8, Penalty { num: 1, den: 1 }).unwrap();
    assert_eq!(out.len(), 1);
    assert_eq!(out[0].0, 10);
    assert_eq!(out[0].1.len(), 2);
}

#[test]
fn large_gap_splits_chains() {
    let mut hits: Vec<HitPair> = vec![((0, 10, 0), (0, 10, 0)), ((1000, 1010, 0), (5000, 5010, 0))];
    let out = sparse_aln(&mut hits, 8, Penalty { num: 1, den: 1 }).unwrap();
    assert_eq!(out.len(), 2);
    for (s, c) in out.iter() {
        assert_eq!(*s, 0);
        assert_eq!(c.len(), 1);
    }
}

#[test]
fn equal_begins_are_not_linked() {
    let mut hits: Vec<HitPair> = vec![((5, 15, 0), (5, 15, 0)), ((5, 15, 0), (50, 60, 0))];
    let out = sparse_aln(&mut hits, 8, Penalty { num: 0, den: 1 }).unwrap();
    assert_eq!(out.len(), 2);
    assert!(out.iter().all(|(_, c)| c.len() == 1));
}

#[test]
fn span_bound_limits_predecessors() {
    // with span 1 only the nearest earlier begin is scanned
    let mut hits: Vec<HitPair> = vec![
        ((0, 100, 0), (0, 100, 0)),
        ((100, 101, 0), (900, 901, 0)),
        ((101, 111, 0), (101, 111, 0)),
    ];
    let wide = sparse_aln(&mut hits.clone(), 8, Penalty { num: 1, den: 1 }).unwrap();
    let narrow = sparse_aln(&mut hits, 1, Penalty { num: 1, den: 1 }).unwrap();
    assert!(wide.iter().any(|(_, c)| c.len() == 2 && c[0].0 .0 == 0 && c[1].0 .0 == 101));
    assert!(!narrow.iter().any(|(_, c)| c.len() == 2 && c[0].0 .0 == 0 && c[1].0 .0 == 101));
}

#[test]
fn chains_are_monotone_and_disjoint() {
    let mut hits: Vec<HitPair> = Vec::new();
    for i in 0..40u32 {
        let b = (i * 37) % 400;
        let t = (i * 53) % 500;
        hits.push(((b, b + 12, 0), (t, t + 12, (i % 2) as u8)));
    }
    let n = hits.len();
    let out = sparse_aln(&mut hits, 8, Penalty { num: 1, den: 4 }).unwrap();
    let mut seen = 0usize;
    for (s, c) in out.iter() {
        assert!(*s >= 0);
        assert!(!c.is_empty());
        for w in c.windows(2) {
            assert!(w[0].0 .0 < w[1].0 .0);
        }
        seen += c.len();
    }
    assert!(seen <= n);
    let mut all: Vec<HitPair> = out.iter().flat_map(|(_, c)| c.iter().copied()).collect();
    let before = all.len();
    all.sort();
    all.dedup();
    assert_eq!(all.len(), before);
}

#[test]
fn repeated_hit_pair_is_used_once() {
    let mut hits: Vec<HitPair> = vec![((0, 10, 0), (0, 10, 0)), ((0, 10, 0), (0, 10, 0))];
    let out = sparse_aln(&mut hits, 8, HALF).unwrap();
    assert_eq!(hits, vec![((0, 10, 0), (0, 10, 0)), ((0, 10, 0), (0, 10, 0))]);
    assert_eq!(out.len(), 1);
    assert_eq!(out[0].1, vec![((0, 10, 0), (0, 10, 0))]);
    assert_eq!(out[0].0, 0);
}

#[test]
fn sort_keeps_every_hit_in_stable_order() {
    let a: HitPair = ((5, 9, 0), (1, 2, 0));
    let b: HitPair = ((5, 7, 0), (3, 4, 0));
    let c: HitPair = ((1, 3, 0), (9, 9, 0));
    let mut hits: Vec<HitPair> = vec![a, b, c, a];
    let _ = sparse_aln(&mut hits, 8, HALF).unwrap();
    assert_eq!(hits, vec![c, a, b, a]);
}
