use tmto_tables::plan::{plan_reductions, reductions_from_sample, Progress};

#[test]
fn reductions_from_sample_shift_by_one() {
    assert_eq!(reductions_from_sample(&[0, 254, 9]), vec![1, 255, 10]);
    assert!(reductions_from_sample(&[]).is_empty());
}

#[test]
fn plan_gives_distinct_indices_in_range() {
    for n in [0u8, 1, 2, 17, 255] {
        let rs = plan_reductions(n);
        assert_eq!(rs.len(), n as usize);
        let mut seen = [false; 256];
        for &r in &rs {
            assert!(r >= 1);
            assert!(!seen[r as usize]);
            seen[r as usize] = true;
        }
    }
}

#[test]
fn plan_of_all_tables_is_a_permutation() {
    let mut rs = plan_reductions(255);
    rs.sort();
    assert_eq!(rs, (1..=255u8).collect::<Vec<u8>>());
}

#[test]
fn unseeded_plans_differ() {
    let a = plan_reductions(3);
    let b = plan_reductions(3);
    let c = plan_reductions(3);
    assert!(a != b || b != c);
}

#[test]
fn progress_counts_each_table_once() {
    let mut p = Progress::new(vec![5, 9, 200]);
    assert!(!p.is_complete());
    assert!(p.record(9));
    assert!(!p.record(9));
    assert!(!p.record(6));
    assert!(p.record(200));
    assert!(!p.is_complete());
    assert!(p.record(5));
    assert!(p.is_complete());
    assert_eq!(p.finished_count(), 3);
}

#[test]
fn progress_of_no_table_is_complete() {
    let p = Progress::new(vec![]);
    assert!(p.is_complete());
    assert_eq!(p.finished_count(), 0);
}
