use pgr_chain::segments::{
    deltas_to_aln_segs, match_reads, reconstruct_seq_from_aln_segs, AlnSegment, DeltaPoint,
};

#[test]
fn reconstruct_test1() {
    let base_frg = "TATTTATATTTATTTATATATATTTATATATTTATATATATATTTATATATAAATAT"
        .as_bytes()
        .to_vec();
    let frg = "TTTTTATTTTTTTAATTAATTAATTATTTATTTATTTATTTATTTATTTATTTATTT"
        .as_bytes()
        .to_vec();
    let m = match_reads(&base_frg, &frg, true);
    if let Some(m) = m {
        let deltas: Vec<DeltaPoint> = m.deltas.unwrap();
        let aln_segs = deltas_to_aln_segs(&deltas, m.end0 as usize, m.end1 as usize, &frg);
        println!("{} {} {} {}", m.bgn0, m.end0, m.bgn1, m.end1);
        println!("{:?}", deltas);
        println!("{:?}", aln_segs);
        assert_eq!(frg, reconstruct_seq_from_aln_segs(&base_frg, &aln_segs));
    }
}

#[test]
fn reconstruct_test2() {
    let base_frg = "TATTTATATTTATTTATATATATTTATATATTTATATATATATTTATATATAAATAT"
        .as_bytes()
        .to_vec();
    let frg = "TTTTTTATTTTTTTAATTAATTAATTATTTATTTATTTATTTATTTATTTATTTATT"
        .as_bytes()
        .to_vec();
    let m = match_reads(&base_frg, &frg, true);
    if let Some(m) = m {
        let deltas: Vec<DeltaPoint> = m.deltas.unwrap();
        let aln_segs = deltas_to_aln_segs(&deltas, m.end0 as usize, m.end1 as usize, &frg);
        println!("{} {} {} {}", m.bgn0, m.end0, m.bgn1, m.end1);
        println!("{:?}", deltas);
        println!("{:?}", aln_segs);
        assert_eq!(frg, reconstruct_seq_from_aln_segs(&base_frg, &aln_segs));
    }
}

#[test]
fn aligner_keeps_common_ends() {
    let a = b"ACGTACGTTTGCA".to_vec();
    let b = b"ACGTAGGGTTGCA".to_vec();
    let m = match_reads(&a, &b, true).unwrap();
    assert_eq!((m.bgn0, m.end0, m.bgn1, m.end1), (0, 13, 0, 13));
    let d = m.deltas.unwrap();
    assert_eq!(
        d,
        vec![DeltaPoint { x: 5, y: 5, dk: 3 }, DeltaPoint { x: 8, y: 5, dk: -3 }]
    );
    let segs = deltas_to_aln_segs(&d, 13, 13, &b);
    assert_eq!(
        segs,
        vec![
            AlnSegment::Match(0, 5),
            AlnSegment::Insertion(b'G'),
            AlnSegment::Insertion(b'G'),
            AlnSegment::Insertion(b'G'),
            AlnSegment::Match(8, 13)
        ]
    );
    assert_eq!(reconstruct_seq_from_aln_segs(&a, &segs), b);
    assert!(match_reads(&a, &b, false).unwrap().deltas.is_none());
}

#[test]
fn identical_sequences_copy_once() {
    let a = b"GATTACA".to_vec();
    let m = match_reads(&a, &a, true).unwrap();
    let d = m.deltas.unwrap();
    assert!(d.is_empty());
    let segs = deltas_to_aln_segs(&d, 7, 7, &a);
    assert_eq!(segs, vec![AlnSegment::Match(0, 7)]);
    assert_eq!(reconstruct_seq_from_aln_segs(&a, &segs), a);
}

#[test]
fn substitution_and_insertion_replay() {
    let base = b"AAAACCCC".to_vec();
    let target = b"AAGATTCCCC".to_vec();
    // substitute base[2] by target[2], then insert target[4..6] before base[4]
    let d = vec![DeltaPoint { x: 2, y: 2, dk: 0 }, DeltaPoint { x: 4, y: 4, dk: -2 }];
    let segs = deltas_to_aln_segs(&d, 8, 10, &target);
    assert_eq!(
        segs,
        vec![
            AlnSegment::Match(0, 2),
            AlnSegment::Insertion(b'G'),
            AlnSegment::Match(3, 4),
            AlnSegment::Insertion(b'T'),
            AlnSegment::Insertion(b'T'),
            AlnSegment::Match(4, 8)
        ]
    );
    assert_eq!(reconstruct_seq_from_aln_segs(&base, &segs), target);
}

#[test]
fn empty_segments_give_empty_sequence() {
    let base = b"ACGT".to_vec();
    assert!(reconstruct_seq_from_aln_segs(&base, &vec![]).is_empty());
}
