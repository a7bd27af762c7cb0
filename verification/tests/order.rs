use mork::{create_computation_order, try_create_computation_order, dependency_graph_is_square,
    OrderError, SCC};

/// Builds an s-by-s dependency matrix from a list of (reader, read) pairs.
fn matrix(s: usize, edges: &[(usize, usize)]) -> Vec<Vec<bool>> {
    let mut g = vec![vec![false; s]; s];
    for &(i, j) in edges {
        g[i][j] = true;
    }
    g
}

fn members_of(unit: &SCC) -> Vec<usize> {
    match unit {
        SCC::Explicit(i) => vec![*i],
        SCC::Implicit(members, _) => members.clone(),
    }
}

#[test]
fn empty_graph_yields_empty_order() {
    let order = create_computation_order(&matrix(0, &[]));
    assert!(order.is_empty());
}

#[test]
fn acyclic_chain_is_fully_explicit() {
    let mut g = matrix(4, &[]);
    for i in 0..4 {
        for j in 0..4 {
            g[i][j] = j < i;
        }
    }
    let order = create_computation_order(&g);
    assert_eq!(
        order,
        vec![SCC::Explicit(0), SCC::Explicit(1), SCC::Explicit(2), SCC::Explicit(3)]
    );
}

#[test]
fn mutual_pair_between_lone_stages() {
    let g = matrix(4, &[(1, 2), (2, 1), (3, 1), (3, 2)]);
    let order = create_computation_order(&g);
    assert_eq!(
        order,
        vec![
            SCC::Explicit(0),
            SCC::Implicit(vec![1, 2], vec![0, 3]),
            SCC::Explicit(3),
        ]
    );
}

#[test]
fn self_loop_singleton_is_implicit() {
    let g = matrix(1, &[(0, 0)]);
    let order = create_computation_order(&g);
    assert_eq!(order, vec![SCC::Implicit(vec![0], vec![])]);
}

#[test]
fn relay_follows_dependencies() {
    let g = matrix(3, &[(0, 1), (2, 0)]);
    let order = create_computation_order(&g);
    assert_eq!(order, vec![SCC::Explicit(1), SCC::Explicit(0), SCC::Explicit(2)]);
}

#[test]
fn units_partition_the_stages() {
    let s = 6;
    let g = matrix(s, &[(0, 3), (3, 4), (4, 3), (4, 5), (5, 5), (2, 0), (1, 1), (1, 4)]);
    let order = create_computation_order(&g);
    let mut seen = vec![0usize; s];
    for unit in &order {
        for i in members_of(unit) {
            assert!(i < s);
            seen[i] += 1;
        }
    }
    assert_eq!(seen, vec![1; s]);
}

#[test]
fn dependencies_point_at_or_before() {
    let s = 6;
    let g = matrix(s, &[(0, 3), (3, 4), (4, 3), (4, 5), (5, 5), (2, 0), (1, 1), (1, 4)]);
    let order = create_computation_order(&g);
    let mut position = vec![0usize; s];
    for (k, unit) in order.iter().enumerate() {
        for i in members_of(unit) {
            position[i] = k;
        }
    }
    for i in 0..s {
        for j in 0..s {
            if g[i][j] {
                assert!(position[j] <= position[i]);
            }
        }
    }
}

#[test]
fn classification_follows_size_and_self_loops() {
    let s = 6;
    let g = matrix(s, &[(0, 3), (3, 4), (4, 3), (4, 5), (5, 5), (2, 0), (1, 1), (1, 4)]);
    let order = create_computation_order(&g);
    for unit in &order {
        let members = members_of(unit);
        let has_self_loop = members.iter().any(|&i| g[i][i]);
        let expect_implicit = members.len() > 1 || has_self_loop;
        match unit {
            SCC::Implicit(members, complement) => {
                assert!(expect_implicit);
                let mut all: Vec<usize> = members.clone();
                all.extend(complement.iter().copied());
                all.sort();
                assert_eq!(all, (0..s).collect::<Vec<usize>>());
            }
            SCC::Explicit(_) => assert!(!expect_implicit),
        }
    }
}

#[test]
fn repeated_calls_agree() {
    let g = matrix(5, &[(0, 1), (1, 2), (2, 0), (3, 0), (4, 4), (4, 3)]);
    let first = create_computation_order(&g);
    let second = create_computation_order(&g);
    assert_eq!(first, second);
}

#[test]
fn three_cycle_collapses_into_one_unit() {
    let g = matrix(5, &[(0, 1), (1, 2), (2, 0), (3, 0), (4, 4), (4, 3)]);
    let order = create_computation_order(&g);
    assert_eq!(
        order,
        vec![
            SCC::Implicit(vec![0, 1, 2], vec![3, 4]),
            SCC::Explicit(3),
            SCC::Implicit(vec![4], vec![0, 1, 2, 3]),
        ]
    );
}

#[test]
fn square_check_accepts_square_matrices() {
    assert!(dependency_graph_is_square(&matrix(0, &[])));
    assert!(dependency_graph_is_square(&matrix(3, &[(0, 1)])));
}

#[test]
fn square_check_rejects_ragged_matrices() {
    let mut g = matrix(3, &[]);
    g[1].pop();
    assert!(!dependency_graph_is_square(&g));
}

#[test]
fn invalid_graph_is_rejected() {
    let mut g = matrix(2, &[(0, 1)]);
    g[0].push(false);
    let res = try_create_computation_order(&g);
    assert_eq!(res, Err(OrderError::InvalidDependencyGraph));
}

#[test]
fn valid_graph_passes_validation() {
    let g = matrix(3, &[(0, 1), (2, 0)]);
    let res = try_create_computation_order(&g);
    assert_eq!(
        res,
        Ok(vec![SCC::Explicit(1), SCC::Explicit(0), SCC::Explicit(2)])
    );
}

#[test]
fn complete_graph_is_one_implicit_unit() {
    let mut g = matrix(3, &[]);
    for i in 0..3 {
        for j in 0..3 {
            g[i][j] = true;
        }
    }
    let order = create_computation_order(&g);
    assert_eq!(order, vec![SCC::Implicit(vec![0, 1, 2], vec![])]);
}

#[test]
fn isolated_stages_come_out_ascending() {
    let order = create_computation_order(&matrix(3, &[]));
    assert_eq!(order, vec![SCC::Explicit(0), SCC::Explicit(1), SCC::Explicit(2)]);
}
