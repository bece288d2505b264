use molecules::subset::{assert_correct, find_subset, find_subset2};

fn feasible(l: u32, u: u32, w: &[u32]) -> bool {
    (0u32..(1 << w.len())).any(|mask| {
        let total: u32 = (0..w.len()).filter(|&i| mask & (1 << i) != 0).map(|i| w[i]).sum();
        l <= total && total <= u
    })
}

fn all_weight_lists(n: usize, lo: u32, hi: u32) -> Vec<Vec<u32>> {
    let mut out = vec![vec![]];
    for _ in 0..n {
        let mut next = Vec::new();
        for v in &out {
            for x in lo..=hi {
                let mut v2 = v.clone();
                v2.push(x);
                next.push(v2);
            }
        }
        out = next;
    }
    out
}

#[test]
fn small_inputs_match_brute_force() {
    let mut misses = Vec::new();
    for n in 1..=5 {
        for w in all_weight_lists(n, 3, 6) {
            let spread = w.iter().max().unwrap() - w.iter().min().unwrap();
            for l in 1..=30u32 {
                for u in l..=l + 4 {
                    let truth = feasible(l, u, &w);
                    for ans in [find_subset(l, u, &w), find_subset2(l, u, &w)] {
                        if !ans.is_empty() {
                            assert!(assert_correct(&ans, l, u, &w, true));
                        }
                        if truth && ans.is_empty() && spread <= u - l {
                            misses.push((w.clone(), l, u));
                        }
                    }
                }
            }
        }
    }
    assert!(misses.is_empty(), "{} misses, first {:?}", misses.len(), &misses[..misses.len().min(8)]);
}
