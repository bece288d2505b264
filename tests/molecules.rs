use molecules::select::{sumth_element, sumth_element_with};
use molecules::subset::{assert_correct, find_subset, find_subset2};

fn test(l: u32, u: u32, w: &[u32], solvable: bool) {
    assert!(assert_correct(&find_subset(l, u, w), l, u, w, solvable));
    assert!(assert_correct(&find_subset2(l, u, w), l, u, w, solvable));
}

fn distinct(ans: &[u32]) -> bool {
    let mut seen = ans.to_vec();
    seen.sort();
    seen.windows(2).all(|p| p[0] != p[1])
}

#[test]
fn t_1() {
    test(15, 17, &[6, 8, 8, 7], true);
    test(15, 17, &[8, 7, 8, 6], true);
    test(15, 17, &[8, 8, 6, 7], true);
}

#[test]
fn t_2() {
    test(14, 15, &[5, 5, 6, 6], false);
    test(14, 15, &[5, 6, 5, 6], false);
    test(14, 15, &[6, 6, 5, 5], false);
}

#[test]
fn t_3() {
    test(10, 20, &[15, 17, 16, 18], true);
    test(10, 20, &[17, 16, 15, 18], true);
}

#[test]
fn t_4() {
    test(13, 13, &[2, 2, 2, 2, 2, 2, 2], false);
}

#[test]
fn t_5() {
    test(13, 14, &[2, 2, 2, 2, 2, 2, 2], true);
}

#[test]
fn t_6() {
    test(10, 10, &[5, 5, 5], true);
}

#[test]
fn t_7() {
    test(6, 9, &[5, 5, 5], false);
}

#[test]
fn t_8() {
    test(2, 3, &[5, 5, 5], false);
}

#[test]
fn t_9() {
    test(100, 110, &[12, 18, 18, 17, 19, 13, 16, 11, 11, 20], true);
}

#[test]
fn test_empty() {
    let mut a = [];
    assert_eq!(sumth_element(&mut a, 23), (0, 23));
}

#[test]
fn test_decreasing_0() {
    let mut a = [7, 6, 5, 4, 3, 2, 1, 0];
    assert_eq!(sumth_element(&mut a, 0), (1, 0));
}

#[test]
fn test_decreasing_1() {
    let mut a = [7, 6, 5, 4, 3, 2, 1, 0];
    assert_eq!(sumth_element(&mut a, 1), (2, 0));
}

#[test]
fn test_decreasing_2() {
    let mut a = [7, 6, 5, 4, 3, 2, 1, 0];
    assert_eq!(sumth_element(&mut a, 3), (3, 0));
}

#[test]
fn test_decreasing_3() {
    let mut a = [7, 6, 5, 4, 3, 2, 1, 0];
    assert_eq!(sumth_element(&mut a, 4), (3, 1));
}

#[test]
fn test_decreasing_4() {
    let mut a = [7, 6, 5, 4, 3, 2, 1, 0];
    assert_eq!(sumth_element(&mut a, 28), (8, 0));
}

#[test]
fn test_stateful_1() {
    let mut a = [3, 2, 1, 0];
    assert_eq!(sumth_element(&mut a, 2), (2, 1));
    assert_eq!(sumth_element(&mut a, 2), (2, 1));
    assert_eq!(sumth_element(&mut a, 2), (2, 1));
    assert_eq!(sumth_element(&mut a, 3), (3, 0));
    assert_eq!(sumth_element(&mut a, 6), (4, 0));
    assert_eq!(sumth_element(&mut a, 7), (4, 1));
}

#[test]
fn test_stateful_2() {
    let mut a = [6, 7, 8, 2];
    assert_eq!(sumth_element(&mut a, 23), (4, 0));
    assert_eq!(sumth_element(&mut a, 1), (0, 1));
}

#[test]
fn empty_input_keeps_whole_threshold() {
    let mut a: [u32; 0] = [];
    assert_eq!(sumth_element(&mut a, 0), (0, 0));
    assert_eq!(sumth_element(&mut a, u64::MAX), (0, u64::MAX));
    let mut ind: [u32; 0] = [];
    assert_eq!(sumth_element_with(&mut ind, 9, &[4, 5]), (0, 9));
}

#[test]
fn selector_leaves_smallest_items_first() {
    let mut a = [9, 1, 8, 2, 7, 3];
    let (count, slack) = sumth_element(&mut a, 7);
    assert_eq!((count, slack), (3, 1));
    let mut low = a[..3].to_vec();
    low.sort();
    assert_eq!(low, vec![1, 2, 3]);
    assert_eq!(a[3], 7);
}

#[test]
fn selector_count_grows_with_threshold() {
    let base = [5, 1, 4, 2, 3];
    let mut last = 0;
    for threshold in 0..20u64 {
        let mut a = base;
        let (count, _) = sumth_element(&mut a, threshold);
        assert!(count >= last);
        last = count;
    }
    assert_eq!(last, 5);
}

#[test]
fn selector_reuse_matches_fresh_copy() {
    let base = [10, 3, 7, 1, 8, 2, 9];
    let mut reused = base;
    for threshold in [40u64, 25, 13, 13, 6, 0] {
        let mut fresh = base;
        assert_eq!(sumth_element(&mut reused, threshold), sumth_element(&mut fresh, threshold));
    }
}

#[test]
fn index_selector_matches_plain_selector() {
    let w = [7, 6, 5, 4, 3, 2, 1, 0];
    for threshold in [0u64, 1, 3, 4, 28, 100] {
        let mut a = w;
        let mut ind: Vec<u32> = (0..8).collect();
        let plain = sumth_element(&mut a, threshold);
        let indexed = sumth_element_with(&mut ind, threshold, &w);
        assert_eq!(plain, indexed);
        let mut picked: Vec<u32> = ind[..indexed.0].iter().map(|&i| w[i as usize]).collect();
        let mut expected = a[..plain.0].to_vec();
        picked.sort();
        expected.sort();
        assert_eq!(picked, expected);
    }
}

#[test]
fn worked_scenarios() {
    test(15, 17, &[6, 8, 8, 7], true);
    test(14, 15, &[5, 5, 6, 6], false);
    test(10, 20, &[15, 17, 16, 18], true);
    test(13, 13, &[2, 2, 2, 2, 2, 2, 2], false);
    test(13, 14, &[2, 2, 2, 2, 2, 2, 2], true);
    test(100, 110, &[12, 18, 18, 17, 19, 13, 16, 11, 11, 20], true);
}

#[test]
fn witnesses_are_distinct_and_in_range() {
    let w = [12, 18, 18, 17, 19, 13, 16, 11, 11, 20];
    for ans in [find_subset(100, 110, &w), find_subset2(100, 110, &w)] {
        assert!(!ans.is_empty());
        assert!(distinct(&ans));
        let total: u32 = ans.iter().map(|&i| w[i as usize]).sum();
        assert!((100..=110).contains(&total));
    }
}

#[test]
fn verdict_ignores_input_order() {
    let orders = [[6, 8, 8, 7], [7, 8, 8, 6], [8, 6, 7, 8], [8, 8, 7, 6]];
    for w in orders {
        test(15, 17, &w, true);
        test(21, 23, &w, true);
        test(30, 32, &w, false);
    }
}

#[test]
fn zero_lower_bound_takes_empty_subset() {
    assert!(find_subset(0, 5, &[9, 9]).is_empty());
    assert!(find_subset2(0, 0, &[]).is_empty());
    assert!(assert_correct(&[], 0, 5, &[9, 9], true));
}

#[test]
fn empty_weights_are_infeasible() {
    test(1, 10, &[], false);
}

#[test]
fn total_below_lower_bound_is_infeasible() {
    test(16, 20, &[5, 5, 5], false);
}

#[test]
fn overshooting_trade_is_rejected() {
    // Trading 1 for 10 jumps from 1 straight past [5, 6].
    assert!(find_subset(5, 6, &[1, 10]).is_empty());
    assert!(find_subset2(5, 6, &[10, 1]).is_empty());
}

#[test]
fn trade_reaches_range() {
    // 3 + 4 stays below 9 and 3 + 4 + 5 overshoots 11, so the finder trades 3 for 5.
    test(9, 11, &[3, 4, 5], true);
    test(9, 11, &[5, 4, 3], true);
    let mut ans = find_subset(9, 11, &[3, 4, 5]);
    ans.sort();
    assert_eq!(ans, vec![1, 2]);
}

#[test]
fn spread_wider_than_range_may_be_missed() {
    // {9} lies in [9, 10], but the weights spread further apart than the range is
    // wide, and the single trade of 1 for 9 overshoots.
    assert!(find_subset(9, 10, &[1, 7, 9]).is_empty());
    assert!(find_subset2(9, 10, &[1, 7, 9]).is_empty());
}

#[test]
fn large_weights_do_not_overflow() {
    let w = [u32::MAX, u32::MAX, u32::MAX];
    test(u32::MAX, u32::MAX, &w, true);
    let mut a = w;
    assert_eq!(sumth_element(&mut a, 2 * u32::MAX as u64 + 5), (2, 5));
}

#[test]
fn checker_rejects_bad_answers() {
    let w = [4, 5, 6];
    assert!(!assert_correct(&[0, 1], 10, 12, &w, true));
    assert!(assert_correct(&[1, 2], 10, 12, &w, true));
    assert!(!assert_correct(&[1, 2], 10, 10, &w, true));
    assert!(!assert_correct(&[7], 1, 100, &w, true));
    assert!(!assert_correct(&[0], 1, 100, &w, false));
    assert!(assert_correct(&[], 1, 100, &w, false));
}
