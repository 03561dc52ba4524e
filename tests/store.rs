use pgr_chain::segments::{deltas_to_aln_segs, match_reads, AlnSegment};
use pgr_chain::store::{reverse_complement, Fragment, FragmentStore, StoreError};

#[test]
fn literal_fragments_round_trip() {
    let mut st = FragmentStore::new(3);
    let p = st.append(Fragment::Prefix(b"GGAC".to_vec()));
    let i = st.append(Fragment::Internal(b"GACTTTA".to_vec()));
    let s = st.append(Fragment::Suffix(b"CC".to_vec()));
    assert_eq!((p, i, s), (0, 1, 2));
    assert_eq!(st.reconstruct(i), Ok(b"GACTTTA".to_vec()));
    // the internal fragment drops the 3 bytes it shares with the prefix
    assert_eq!(st.reconstruct_sequence(&vec![p, i, s]), Ok(b"GGACTTTACC".to_vec()));
    // a leading internal fragment keeps all its bytes
    assert_eq!(st.reconstruct_sequence(&vec![i, s]), Ok(b"GACTTTACC".to_vec()));
    assert_eq!(st.reconstruct_sequence(&vec![]), Ok(vec![]));
}

#[test]
fn delta_fragment_round_trip() {
    let base = b"ACGTTGCAAC".to_vec();
    let target = b"ACGTAAGCAAC".to_vec();
    let mut st = FragmentStore::new(4);
    let b = st.append(Fragment::Internal(base.clone()));
    let m = match_reads(&base, &target, true).unwrap();
    let segs = deltas_to_aln_segs(&m.deltas.unwrap(), m.end0 as usize, m.end1 as usize, &target);
    let d = st.append_delta(b, false, segs).unwrap();
    assert_eq!(d, 1);
    assert_eq!(st.reconstruct(d), Ok(target.clone()));
    assert_eq!(st.reconstruct_sequence(&vec![b, d]), Ok(b"ACGTTGCAACAAGCAAC".to_vec()));
}

#[test]
fn reverse_complement_base() {
    assert_eq!(reverse_complement(&b"AACGTx".to_vec()), b"NACGTT".to_vec());
    let base = b"AAACCG".to_vec();
    let target = b"CGGTTA".to_vec();
    let rc = reverse_complement(&base);
    assert_eq!(rc, b"CGGTTT".to_vec());
    let mut st = FragmentStore::new(2);
    let b = st.append(Fragment::Internal(base));
    let m = match_reads(&rc, &target, true).unwrap();
    let segs = deltas_to_aln_segs(&m.deltas.unwrap(), m.end0 as usize, m.end1 as usize, &target);
    let d = st.append_delta(b, true, segs).unwrap();
    assert_eq!(st.reconstruct(d), Ok(target));
}

#[test]
fn corrupt_references() {
    let mut st = FragmentStore::new(2);
    let p = st.append(Fragment::Prefix(b"AC".to_vec()));
    // base is not an internal fragment
    let d = st.append_delta(p, false, vec![AlnSegment::Match(0, 2)]).unwrap();
    assert_eq!(st.reconstruct(d), Err(StoreError::CorruptReference));
    // segments reach past the base
    let i = st.append(Fragment::Internal(b"ACG".to_vec()));
    let d2 = st.append_delta(i, false, vec![AlnSegment::Match(1, 9)]).unwrap();
    assert_eq!(st.reconstruct(d2), Err(StoreError::CorruptReference));
    assert_eq!(st.reconstruct_sequence(&vec![i, d2]), Err(StoreError::CorruptReference));
    // forward references are refused
    assert_eq!(st.append_delta(99, false, vec![]), None);
    // an overlapping fragment shorter than k
    let mut st2 = FragmentStore::new(5);
    let a = st2.append(Fragment::Prefix(b"AAAAA".to_vec()));
    let short = st2.append(Fragment::Internal(b"AAA".to_vec()));
    assert_eq!(st2.reconstruct_sequence(&vec![a, short]), Err(StoreError::CorruptReference));
}

#[test]
fn stored_sequence_round_trip() {
    let seq = b"TTGACCATGGTACCGATTACAGG".to_vec();
    let mut st = FragmentStore::new(4);
    let ids = st.store_sequence(&seq, &vec![5, 11, 18]);
    assert_eq!(ids, vec![0, 1, 2, 3]);
    assert!(matches!(&st.frags[0], Fragment::Prefix(b) if b == &b"TTGAC".to_vec()));
    assert!(matches!(&st.frags[1], Fragment::Internal(b) if b == &b"TGACCATGGT".to_vec()));
    assert!(matches!(&st.frags[3], Fragment::Suffix(b) if b == &b"ACAGG".to_vec()));
    assert_eq!(st.reconstruct_sequence(&ids), Ok(seq.clone()));
    let single = st.store_sequence(&seq, &vec![]);
    assert_eq!(single, vec![4]);
    assert_eq!(st.reconstruct_sequence(&single), Ok(seq));
}

#[test]
fn stored_sequence_with_delta_fragment() {
    let first = b"AAAACCGGTTTTGGGG".to_vec();
    let second = b"AAAACCGATTTTGGGG".to_vec();
    let mut st = FragmentStore::new(2);
    let ids1 = st.store_sequence(&first, &vec![4, 12]);
    // the second sequence reuses the first one's internal fragment as a base
    let base_id = ids1[1];
    let base = match &st.frags[base_id as usize] {
        Fragment::Internal(b) => b.clone(),
        _ => panic!("expected an internal fragment"),
    };
    let middle = second[2..12].to_vec();
    let m = match_reads(&base, &middle, true).unwrap();
    let segs = deltas_to_aln_segs(&m.deltas.unwrap(), m.end0 as usize, m.end1 as usize, &middle);
    let d = st.append_delta(base_id, false, segs).unwrap();
    let p = st.append(Fragment::Prefix(second[0..4].to_vec()));
    let s = st.append(Fragment::Suffix(second[12..].to_vec()));
    assert_eq!(st.reconstruct_sequence(&vec![p, d, s]), Ok(second));
    assert_eq!(st.reconstruct_sequence(&ids1), Ok(first));
}
