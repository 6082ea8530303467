use group_rounds::relation::{check_square, check_symmetric};
use group_rounds::{
    group_sizes, make_assignments, potential_groups, single_assignment, BitRow, ConfigError,
};
use std::collections::HashSet;

fn diagonal(n: usize) -> Vec<BitRow> {
    (0..n)
        .map(|i| {
            let mut row = BitRow::repeat(false, n);
            row.set(i, true);
            row
        })
        .collect()
}

fn snapshot(conflicts: &Vec<BitRow>) -> Vec<Vec<bool>> {
    conflicts
        .iter()
        .map(|row| (0..row.len()).map(|i| row.get(i)).collect())
        .collect()
}

fn forbid(conflicts: &mut Vec<BitRow>, a: usize, b: usize) {
    conflicts[a].set(b, true);
    conflicts[b].set(a, true);
}

#[test]
fn no_conflicts() {
    let n = 5;
    let k = 3;
    let mut conflicts = diagonal(n);
    let skip = BitRow::repeat(false, n);
    let res = potential_groups(&mut conflicts, k, &skip);
    assert_eq!(res.len(), 10);
}

fn test_single_assignment(n: usize, k: usize) {
    let mut conflicts = diagonal(n);
    let group_sizes = group_sizes(n, k).unwrap();
    let res = single_assignment(&mut conflicts, &group_sizes);
    for groups in res {
        let mut seen: HashSet<usize> = HashSet::new();
        let mut count = 0;
        for g in groups {
            count += g.len();
            seen.extend(&g);
        }
        assert_eq!(count, n);
        assert_eq!(seen.len(), count);
    }
}

#[test]
fn odd_complete_graph_single_assignment() {
    let tests = [(3, 2), (5, 2)];
    for (n, k) in tests {
        test_single_assignment(n, k);
    }
}

#[test]
fn even_complete_graph_single_assignment() {
    let tests = [(2, 2), (4, 2), (6, 2), (6, 3), (6, 6)];
    for (n, k) in tests {
        test_single_assignment(n, k);
    }
}

fn test_all_assignment(n: usize, k: usize, exp_rounds: usize, exp_sizes: &[usize]) {
    let mut conflicts = diagonal(n);
    let res = make_assignments(&mut conflicts, k).unwrap();
    let nrounds = res[0].len();
    assert_eq!(nrounds, exp_rounds, "Expected {exp_rounds} rounds but found {nrounds}");
    for possibility in res {
        for i in 0..exp_rounds {
            let group_sizes = possibility[i].iter().map(|v| v.len());
            assert!(group_sizes.eq(exp_sizes.iter().copied()));
        }
    }
}

#[test]
fn even_complete_all_assignments() {
    let tests = [(4, 2, 3, vec![2, 2]), (4, 3, 1, vec![4]), (6, 3, 1, vec![3, 3])];
    for (n, k, exp_rounds, exp_sizes) in tests {
        test_all_assignment(n, k, exp_rounds, &exp_sizes);
    }
}

#[test]
fn odd_complete_all_assignments() {
    let tests = [
        (3, 2, 1, vec![3]),
        (5, 2, 1, vec![3, 2]),
        (5, 3, 1, vec![5]),
        (7, 2, 3, vec![3, 2, 2]),
    ];
    for (n, k, exp_rounds, exp_sizes) in tests {
        test_all_assignment(n, k, exp_rounds, &exp_sizes);
    }
}

#[test]
fn bit_row_repeat_len_get_set() {
    let mut row = BitRow::repeat(false, 70);
    assert_eq!(row.len(), 70);
    assert!((0..70).all(|i| !row.get(i)));
    row.set(0, true);
    row.set(64, true);
    row.set(69, true);
    for i in 0..70 {
        assert_eq!(row.get(i), i == 0 || i == 64 || i == 69);
    }
    row.set(64, false);
    assert!(!row.get(64));
    assert!(row.get(69));
    assert_eq!(row.len(), 70);
    let ones = BitRow::repeat(true, 3);
    assert_eq!(ones.len(), 3);
    assert!(ones.get(0) && ones.get(1) && ones.get(2));
    assert_eq!(BitRow::repeat(true, 0).len(), 0);
}

#[test]
fn group_sizes_exact_plans() {
    assert_eq!(group_sizes(7, 2), Ok(vec![3, 2, 2]));
    assert_eq!(group_sizes(5, 3), Ok(vec![5]));
    assert_eq!(group_sizes(4, 2), Ok(vec![2, 2]));
    assert_eq!(group_sizes(6, 3), Ok(vec![3, 3]));
    assert_eq!(group_sizes(6, 6), Ok(vec![6]));
    assert_eq!(group_sizes(11, 4), Ok(vec![6, 5]));
    assert_eq!(group_sizes(14, 4), Ok(vec![5, 5, 4]));
    assert_eq!(group_sizes(3, 1), Ok(vec![1, 1, 1]));
    assert_eq!(group_sizes(1, 1), Ok(vec![1]));
}

#[test]
fn group_sizes_refuses_infeasible_minimum() {
    assert_eq!(group_sizes(3, 4), Err(ConfigError::InfeasibleMinimum));
    assert_eq!(group_sizes(0, 1), Err(ConfigError::InfeasibleMinimum));
    assert_eq!(group_sizes(5, 0), Err(ConfigError::InfeasibleMinimum));
    assert_eq!(group_sizes(0, 0), Err(ConfigError::InfeasibleMinimum));
}

#[test]
fn group_sizes_add_up_and_stay_balanced() {
    for n in 1..40usize {
        for min in 1..=n {
            let sizes = group_sizes(n, min).unwrap();
            assert_eq!(sizes.len(), n / min);
            assert_eq!(sizes.iter().sum::<usize>(), n);
            assert!(sizes.iter().all(|s| *s >= min));
            let most = *sizes.iter().max().unwrap();
            let least = *sizes.iter().min().unwrap();
            assert!(most - least <= 1);
            assert!(sizes.windows(2).all(|w| w[0] >= w[1]));
        }
    }
}

#[test]
fn potential_groups_lists_in_dictionary_order() {
    let mut conflicts = diagonal(4);
    let skip = BitRow::repeat(false, 4);
    let res = potential_groups(&mut conflicts, 2, &skip);
    assert_eq!(
        res,
        vec![vec![0, 1], vec![0, 2], vec![0, 3], vec![1, 2], vec![1, 3], vec![2, 3]]
    );
    let res = potential_groups(&mut conflicts, 3, &skip);
    assert_eq!(res, vec![vec![0, 1, 2], vec![0, 1, 3], vec![0, 2, 3], vec![1, 2, 3]]);
    let res = potential_groups(&mut conflicts, 4, &skip);
    assert_eq!(res, vec![vec![0, 1, 2, 3]]);
}

#[test]
fn potential_groups_of_one_item() {
    let mut conflicts = diagonal(3);
    let mut skip = BitRow::repeat(false, 3);
    skip.set(1, true);
    let res = potential_groups(&mut conflicts, 1, &skip);
    assert_eq!(res, vec![vec![0], vec![2]]);
}

#[test]
fn potential_groups_too_few_items() {
    let mut conflicts = diagonal(3);
    let skip = BitRow::repeat(false, 3);
    assert!(potential_groups(&mut conflicts, 4, &skip).is_empty());
    let mut skip = BitRow::repeat(false, 3);
    skip.set(0, true);
    skip.set(2, true);
    assert!(potential_groups(&mut conflicts, 2, &skip).is_empty());
    let mut none: Vec<BitRow> = Vec::new();
    let skip = BitRow::repeat(false, 0);
    assert!(potential_groups(&mut none, 1, &skip).is_empty());
}

#[test]
fn potential_groups_respects_conflicts_and_skips() {
    let mut conflicts = diagonal(5);
    forbid(&mut conflicts, 0, 1);
    forbid(&mut conflicts, 2, 4);
    let mut skip = BitRow::repeat(false, 5);
    skip.set(3, true);
    let before = snapshot(&conflicts);
    let res = potential_groups(&mut conflicts, 2, &skip);
    assert_eq!(res, vec![vec![0, 2], vec![0, 4], vec![1, 2], vec![1, 4]]);
    assert_eq!(snapshot(&conflicts), before);
    let res = potential_groups(&mut conflicts, 3, &skip);
    assert!(res.is_empty());
    let skip = BitRow::repeat(false, 5);
    let res = potential_groups(&mut conflicts, 3, &skip);
    assert_eq!(res, vec![vec![0, 2, 3], vec![0, 3, 4], vec![1, 2, 3], vec![1, 3, 4]]);
    assert_eq!(snapshot(&conflicts), before);
}

#[test]
fn single_assignment_lists_in_dictionary_order() {
    let mut conflicts = diagonal(4);
    let res = single_assignment(&mut conflicts, &[2, 2]);
    assert_eq!(
        res,
        vec![
            vec![vec![0, 1], vec![2, 3]],
            vec![vec![0, 2], vec![1, 3]],
            vec![vec![0, 3], vec![1, 2]],
            vec![vec![1, 2], vec![0, 3]],
            vec![vec![1, 3], vec![0, 2]],
            vec![vec![2, 3], vec![0, 1]],
        ]
    );
    let res = single_assignment(&mut conflicts, &[3, 1]);
    assert_eq!(
        res,
        vec![
            vec![vec![0, 1, 2], vec![3]],
            vec![vec![0, 1, 3], vec![2]],
            vec![vec![0, 2, 3], vec![1]],
            vec![vec![1, 2, 3], vec![0]],
        ]
    );
}

#[test]
fn single_assignment_with_forbidden_pairs() {
    let mut conflicts = diagonal(4);
    forbid(&mut conflicts, 0, 1);
    let before = snapshot(&conflicts);
    let res = single_assignment(&mut conflicts, &[2, 2]);
    assert_eq!(
        res,
        vec![
            vec![vec![0, 2], vec![1, 3]],
            vec![vec![0, 3], vec![1, 2]],
            vec![vec![1, 2], vec![0, 3]],
            vec![vec![1, 3], vec![0, 2]],
        ]
    );
    assert_eq!(snapshot(&conflicts), before);
    forbid(&mut conflicts, 0, 2);
    forbid(&mut conflicts, 0, 3);
    assert!(single_assignment(&mut conflicts, &[2, 2]).is_empty());
}

#[test]
fn single_assignment_edge_plans() {
    let mut conflicts = diagonal(3);
    assert_eq!(single_assignment(&mut conflicts, &[]), vec![Vec::<Vec<usize>>::new()]);
    assert!(single_assignment(&mut conflicts, &[2, 2]).is_empty());
    let mut none: Vec<BitRow> = Vec::new();
    assert_eq!(single_assignment(&mut none, &[]), vec![Vec::<Vec<usize>>::new()]);
    assert!(single_assignment(&mut none, &[1]).is_empty());
}

#[test]
fn single_assignment_rounds_are_partitions() {
    for (n, min) in [(5usize, 2usize), (6, 2), (6, 3), (7, 3)] {
        let mut conflicts = diagonal(n);
        let plan = group_sizes(n, min).unwrap();
        let res = single_assignment(&mut conflicts, &plan);
        assert!(!res.is_empty());
        for round in &res {
            assert_eq!(round.len(), plan.len());
            let mut seen = vec![false; n];
            for (g, size) in round.iter().zip(plan.iter()) {
                assert_eq!(g.len(), *size);
                assert!(g.windows(2).all(|w| w[0] < w[1]));
                for item in g {
                    assert!(!seen[*item]);
                    seen[*item] = true;
                }
            }
            assert!(seen.iter().all(|s| *s));
        }
        assert!(res.windows(2).all(|w| w[0] < w[1]));
    }
}

#[test]
fn single_assignment_counts() {
    let mut conflicts = diagonal(6);
    assert_eq!(single_assignment(&mut conflicts, &[3, 3]).len(), 20);
    assert_eq!(single_assignment(&mut conflicts, &[2, 2, 2]).len(), 90);
    let mut conflicts = diagonal(7);
    assert_eq!(single_assignment(&mut conflicts, &[3, 2, 2]).len(), 210);
}

#[test]
fn make_assignments_refusals() {
    let mut none: Vec<BitRow> = Vec::new();
    assert_eq!(make_assignments(&mut none, 2), Err(ConfigError::EmptyPopulation));
    assert_eq!(make_assignments(&mut none, 0), Err(ConfigError::EmptyPopulation));

    let mut ragged = vec![BitRow::repeat(false, 2), BitRow::repeat(false, 3)];
    assert_eq!(make_assignments(&mut ragged, 2), Err(ConfigError::MalformedRelation));
    let mut wide = vec![BitRow::repeat(false, 3), BitRow::repeat(false, 3)];
    assert_eq!(make_assignments(&mut wide, 5), Err(ConfigError::MalformedRelation));

    let mut lopsided = diagonal(3);
    lopsided[0].set(2, true);
    assert_eq!(make_assignments(&mut lopsided, 2), Err(ConfigError::MalformedRelation));
    assert_eq!(make_assignments(&mut lopsided, 9), Err(ConfigError::MalformedRelation));

    let mut conflicts = diagonal(3);
    assert_eq!(make_assignments(&mut conflicts, 4), Err(ConfigError::InfeasibleMinimum));
    assert_eq!(make_assignments(&mut conflicts, 0), Err(ConfigError::InfeasibleMinimum));
    assert_eq!(make_assignments(&mut conflicts, 1), Err(ConfigError::UnboundedRounds));
    let mut single = diagonal(1);
    assert_eq!(make_assignments(&mut single, 1), Err(ConfigError::UnboundedRounds));
    assert_eq!(make_assignments(&mut single, 2), Err(ConfigError::InfeasibleMinimum));
    assert_eq!(snapshot(&conflicts), snapshot(&diagonal(3)));
}

#[test]
fn make_assignments_four_items_in_pairs() {
    let mut conflicts = diagonal(4);
    let res = make_assignments(&mut conflicts, 2).unwrap();
    assert_eq!(res.len(), 48);
    assert_eq!(
        res[0],
        vec![
            vec![vec![0, 1], vec![2, 3]],
            vec![vec![0, 2], vec![1, 3]],
            vec![vec![0, 3], vec![1, 2]],
        ]
    );
    assert_eq!(
        res[47],
        vec![
            vec![vec![2, 3], vec![0, 1]],
            vec![vec![1, 3], vec![0, 2]],
            vec![vec![1, 2], vec![0, 3]],
        ]
    );
    assert!(res.windows(2).all(|w| w[0] < w[1]));
    for schedule in &res {
        assert_eq!(schedule.len(), 3);
        let mut matchings: Vec<Vec<Vec<usize>>> = schedule
            .iter()
            .map(|round| {
                let mut groups = round.clone();
                groups.sort();
                groups
            })
            .collect();
        matchings.sort();
        assert_eq!(
            matchings,
            vec![
                vec![vec![0, 1], vec![2, 3]],
                vec![vec![0, 2], vec![1, 3]],
                vec![vec![0, 3], vec![1, 2]],
            ]
        );
    }
}

#[test]
fn make_assignments_one_group_of_all() {
    let mut conflicts = diagonal(5);
    let res = make_assignments(&mut conflicts, 3).unwrap();
    assert_eq!(res, vec![vec![vec![vec![0, 1, 2, 3, 4]]]]);
}

#[test]
fn make_assignments_six_items_in_threes() {
    let mut conflicts = diagonal(6);
    let res = make_assignments(&mut conflicts, 3).unwrap();
    assert_eq!(res.len(), 20);
    assert!(res.iter().all(|schedule| schedule.len() == 1));
    assert_eq!(res[0], vec![vec![vec![0, 1, 2], vec![3, 4, 5]]]);
}

#[test]
fn make_assignments_no_round_possible() {
    let mut conflicts = diagonal(2);
    forbid(&mut conflicts, 0, 1);
    let res = make_assignments(&mut conflicts, 2).unwrap();
    assert_eq!(res, vec![Vec::<Vec<Vec<usize>>>::new()]);
}

#[test]
fn make_assignments_with_forbidden_pairs() {
    let mut conflicts = diagonal(4);
    forbid(&mut conflicts, 0, 1);
    let before = snapshot(&conflicts);
    let res = make_assignments(&mut conflicts, 2).unwrap();
    assert_eq!(
        res,
        vec![
            vec![vec![vec![0, 2], vec![1, 3]], vec![vec![0, 3], vec![1, 2]]],
            vec![vec![vec![0, 2], vec![1, 3]], vec![vec![1, 2], vec![0, 3]]],
            vec![vec![vec![0, 3], vec![1, 2]], vec![vec![0, 2], vec![1, 3]]],
            vec![vec![vec![0, 3], vec![1, 2]], vec![vec![1, 3], vec![0, 2]]],
            vec![vec![vec![1, 2], vec![0, 3]], vec![vec![0, 2], vec![1, 3]]],
            vec![vec![vec![1, 2], vec![0, 3]], vec![vec![1, 3], vec![0, 2]]],
            vec![vec![vec![1, 3], vec![0, 2]], vec![vec![0, 3], vec![1, 2]]],
            vec![vec![vec![1, 3], vec![0, 2]], vec![vec![1, 2], vec![0, 3]]],
        ]
    );
    assert_eq!(snapshot(&conflicts), before);
}

#[test]
fn make_assignments_restores_the_relation() {
    for (n, min) in [(4usize, 2usize), (5, 2), (6, 3), (7, 3)] {
        let mut conflicts = diagonal(n);
        let before = snapshot(&conflicts);
        let res = make_assignments(&mut conflicts, min).unwrap();
        assert!(!res.is_empty());
        assert_eq!(snapshot(&conflicts), before);
        let mut clear: Vec<BitRow> = (0..n).map(|_| BitRow::repeat(false, n)).collect();
        let again = make_assignments(&mut clear, min).unwrap();
        assert_eq!(again, res);
        assert!(snapshot(&clear).iter().all(|row| row.iter().all(|bit| !bit)));
    }
}

#[test]
fn make_assignments_schedules_repeat_no_pair() {
    for (n, min) in [(4usize, 2usize), (5, 2), (6, 3), (7, 2)] {
        let mut conflicts = diagonal(n);
        let plan = group_sizes(n, min).unwrap();
        let res = make_assignments(&mut conflicts, min).unwrap();
        let length = res[0].len();
        for schedule in &res {
            assert_eq!(schedule.len(), length);
            let mut met = vec![vec![false; n]; n];
            for round in schedule {
                let mut seen = vec![false; n];
                assert_eq!(round.len(), plan.len());
                for (g, size) in round.iter().zip(plan.iter()) {
                    assert_eq!(g.len(), *size);
                    for a in g {
                        assert!(!seen[*a]);
                        seen[*a] = true;
                        for b in g {
                            if a < b {
                                assert!(!met[*a][*b]);
                                met[*a][*b] = true;
                            }
                        }
                    }
                }
                assert!(seen.iter().all(|s| *s));
            }
        }
    }
}

#[test]
fn relation_shape_checks() {
    let none: Vec<BitRow> = Vec::new();
    assert!(check_square(&none));
    assert!(check_symmetric(&none));
    let mut conflicts = diagonal(4);
    assert!(check_square(&conflicts));
    assert!(check_symmetric(&conflicts));
    forbid(&mut conflicts, 1, 3);
    assert!(check_symmetric(&conflicts));
    conflicts[3].set(0, true);
    assert!(check_square(&conflicts));
    assert!(!check_symmetric(&conflicts));
    conflicts[0].set(3, true);
    assert!(check_symmetric(&conflicts));
    let ragged = vec![BitRow::repeat(false, 2), BitRow::repeat(false, 1)];
    assert!(!check_square(&ragged));
    let tall = vec![BitRow::repeat(false, 1), BitRow::repeat(false, 1)];
    assert!(!check_square(&tall));
}
