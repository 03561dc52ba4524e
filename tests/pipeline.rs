use pgr_chain::chain::Penalty;
use pgr_chain::query::{query_fragment_to_hps, FragmentHit};

fn lookup(key: u64, q: u32, matches: Vec<(u32, u32, u32, u32, u8)>) -> FragmentHit {
    ((key, key + 1), (q, q + 10, 0), matches)
}

#[test]
fn repetitive_key_is_dropped() {
    let mut r: Vec<FragmentHit> = Vec::new();
    // target 7 is matched nine times
    for i in 0..9u32 {
        r.push(lookup(42, i * 10, vec![(1, 7, i * 10, i * 10 + 10, 0)]));
    }
    // two distinct keys against target 3
    r.push(lookup(100, 200, vec![(2, 3, 1000, 1010, 0)]));
    r.push(lookup(101, 210, vec![(3, 3, 1010, 1020, 0)]));
    let out = query_fragment_to_hps(&r, Penalty { num: 1, den: 2 }, None);
    assert_eq!(out.len(), 1);
    assert_eq!(out[0].0, 3);
    assert_eq!(out[0].1.len(), 1);
    assert_eq!(out[0].1[0].0, 20);
    assert_eq!(out[0].1[0].1.len(), 2);
}

#[test]
fn eight_lookups_are_kept() {
    let mut r: Vec<FragmentHit> = Vec::new();
    for i in 0..8u32 {
        r.push(lookup(42, i * 10, vec![(1, 7, i * 10, i * 10 + 10, 0)]));
    }
    let out = query_fragment_to_hps(&r, Penalty { num: 1, den: 2 }, None);
    assert_eq!(out.len(), 1);
    assert_eq!(out[0].0, 7);
    let total: usize = out[0].1.iter().map(|(_, c)| c.len()).sum();
    assert_eq!(total, 8);
}

#[test]
fn repeat_ceiling_from_caller() {
    // one lookup whose key matches target 5 three times
    // fragment 1 of target 5 is matched three times
    let r: Vec<FragmentHit> = vec![
        lookup(9, 0, vec![(1, 5, 0, 10, 0), (1, 5, 100, 110, 0), (1, 5, 200, 210, 0)]),
        lookup(11, 10, vec![(4, 6, 10, 20, 0)]),
        lookup(12, 20, vec![(5, 6, 20, 30, 0)]),
    ];
    let strict = query_fragment_to_hps(&r, Penalty { num: 1, den: 2 }, Some(2));
    assert_eq!(strict.len(), 1);
    assert_eq!(strict[0].0, 6);
    let loose = query_fragment_to_hps(&r, Penalty { num: 1, den: 2 }, Some(3));
    assert_eq!(loose.len(), 2);
    assert_eq!(loose[0].0, 5);
    assert_eq!(loose[1].0, 6);
}

#[test]
fn single_hit_target_is_skipped() {
    let r: Vec<FragmentHit> = vec![lookup(1, 0, vec![(1, 4, 0, 10, 0)])];
    assert!(query_fragment_to_hps(&r, Penalty { num: 1, den: 2 }, None).is_empty());
    let empty: Vec<FragmentHit> = vec![];
    assert!(query_fragment_to_hps(&empty, Penalty { num: 1, den: 2 }, None).is_empty());
}

#[test]
fn nine_matches_under_distinct_keys_are_dropped() {
    let mut r: Vec<FragmentHit> = Vec::new();
    for i in 0..9u32 {
        r.push(lookup(1000 + i as u64, i * 10, vec![(i, 7, i * 10, i * 10 + 10, 0)]));
    }
    r.push(lookup(5, 300, vec![(50, 8, 300, 310, 0)]));
    r.push(lookup(6, 310, vec![(51, 8, 310, 320, 0)]));
    let out = query_fragment_to_hps(&r, Penalty { num: 1, den: 2 }, None);
    assert_eq!(out.len(), 1);
    assert_eq!(out[0].0, 8);
}

#[test]
fn fragment_ceiling_counts_across_keys() {
    // two matches of fragment 4 of target 2, under two keys; ceiling 1 drops both
    let r: Vec<FragmentHit> = vec![
        lookup(1, 0, vec![(4, 2, 0, 10, 0)]),
        lookup(2, 10, vec![(4, 2, 10, 20, 0)]),
    ];
    assert!(query_fragment_to_hps(&r, Penalty { num: 1, den: 2 }, Some(1)).is_empty());
    let kept = query_fragment_to_hps(&r, Penalty { num: 1, den: 2 }, Some(2));
    assert_eq!(kept.len(), 1);
    assert_eq!(kept[0].1[0].1.len(), 2);
}

#[test]
fn repeated_match_is_chained_once() {
    let r: Vec<FragmentHit> = vec![
        lookup(1, 0, vec![(4, 2, 0, 10, 0), (4, 2, 0, 10, 0)]),
        lookup(2, 10, vec![(5, 2, 10, 20, 0)]),
    ];
    let out = query_fragment_to_hps(&r, Penalty { num: 1, den: 2 }, None);
    assert_eq!(out.len(), 1);
    let total: usize = out[0].1.iter().map(|(_, c)| c.len()).sum();
    assert_eq!(total, 2);
}
