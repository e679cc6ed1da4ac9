use fleet_suggest::search::{
    comb, combinations, total_evaluations, ComponentSearchParams, PartSearchParams, SearchType,
};

#[test]
fn binomials() {
    assert_eq!(comb(5, 2), 10);
    assert_eq!(comb(5, 0), 1);
    assert_eq!(comb(5, 5), 1);
    assert_eq!(comb(3, 5), 0);
    assert_eq!(comb(0, 0), 1);
    assert_eq!(comb(60, 30), 118264581564861424);
    assert_eq!(comb(22, 19), 1540);
}

#[test]
fn combinations_in_lexicographic_order() {
    assert_eq!(
        combinations(4, 2),
        vec![vec![0, 1], vec![0, 2], vec![0, 3], vec![1, 2], vec![1, 3], vec![2, 3]]
    );
    assert_eq!(combinations(3, 0), vec![Vec::<usize>::new()]);
    assert_eq!(combinations(2, 3), Vec::<Vec<usize>>::new());
    assert_eq!(combinations(0, 0), vec![Vec::<usize>::new()]);
    assert_eq!(combinations(3, 3), vec![vec![0, 1, 2]]);
}

#[test]
fn combination_count_is_binomial() {
    for n in 0..9usize {
        for k in 0..10usize {
            assert_eq!(combinations(n, k).len() as u64, comb(n as u64, k as u64));
        }
    }
}

#[test]
fn materials_space_is_all_booster_counts() {
    assert_eq!(total_evaluations(&SearchType::Materials, 20), 1 << 20);
    let n = 10usize;
    let sum: usize = (0..=n).map(|b| combinations(n, b).len()).sum();
    assert_eq!(sum as u64, total_evaluations(&SearchType::Materials, n));
}

#[test]
fn parts_and_components_spaces() {
    let p = SearchType::Parts(PartSearchParams { mat_tiles: 3, parts_tiles: 3 });
    assert_eq!(total_evaluations(&p, 22), 97796751360);
    let c = SearchType::Components(ComponentSearchParams { mat_tiles: 3, parts_tiles: 1, comp_tiles: 1 });
    assert_eq!(total_evaluations(&c, 22), 69033000960);
    let all = SearchType::Parts(PartSearchParams { mat_tiles: 2, parts_tiles: 1 });
    assert_eq!(total_evaluations(&all, 3), 3);
}

#[test]
fn every_increasing_list_is_a_combination() {
    let n = 6usize;
    for k in 0..=n {
        let all = combinations(n, k);
        for mask in 0u32..(1 << n) {
            if mask.count_ones() as usize == k {
                let c: Vec<usize> = (0..n).filter(|&i| mask & (1 << i) != 0).collect();
                assert!(all.contains(&c));
            }
        }
    }
}
