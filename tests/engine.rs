use cluster_route::edges::{
    find_edges_by_oracle, find_edges_by_uf, oracle_edges, oracle_plan, OracleStep,
};
use cluster_route::protocol::{answer_text, push_decimal, query_line};
use cluster_route::geometry::{distance, int_sqrt, midpoints, squared_distance, SCALE};
use cluster_route::rng::Rng;
use cluster_route::score::{climb, delta_score, full_score, path_length};
use cluster_route::tour::{
    cheapest_insertion, choose_order, init_greedy, init_mo, initial_order, split_groups,
};
use cluster_route::union_find::UnionFind;

fn square() -> (Vec<u32>, Vec<u32>) {
    (vec![0, 10, 10, 0], vec![0, 0, 10, 10])
}

/// Coordinates scattered by the generator itself.
fn scattered(n: usize, seed: u64) -> (Vec<u32>, Vec<u32>) {
    let mut rng = Rng::new(seed);
    let mut x = Vec::new();
    let mut y = Vec::new();
    for _ in 0..n {
        x.push(rng.next() % 1000);
        y.push(rng.next() % 1000);
    }
    (x, y)
}

fn is_partition(groups: &[Vec<usize>], n: usize) -> bool {
    let mut seen = vec![false; n];
    let mut total = 0;
    for g in groups {
        for &c in g {
            if c >= n || seen[c] {
                return false;
            }
            seen[c] = true;
            total += 1;
        }
    }
    total == n
}

fn is_permutation(order: &[usize], n: usize) -> bool {
    is_partition(&[order.to_vec()], n)
}

fn sample_tour(n: usize, sizes: &[usize], seed: u64) -> (Vec<u32>, Vec<u32>, Vec<Vec<usize>>) {
    let (x, y) = scattered(n, seed);
    let order: Vec<usize> = (0..n).collect();
    let groups = split_groups(&order, sizes);
    (x, y, groups)
}

#[test]
fn integer_square_root_values() {
    assert_eq!(int_sqrt(0), 0);
    assert_eq!(int_sqrt(1), 1);
    assert_eq!(int_sqrt(15), 3);
    assert_eq!(int_sqrt(16), 4);
    assert_eq!(int_sqrt(u128::MAX), u64::MAX as u128);
}

#[test]
fn distances_in_fixed_point() {
    let x = vec![0, 3, 1];
    let y = vec![0, 4, 1];
    assert_eq!(squared_distance(&x, &y, 0, 1), 25);
    assert_eq!(distance(&x, &y, 0, 1), 5 * SCALE);
    assert_eq!(distance(&x, &y, 1, 0), 5 * SCALE);
    assert_eq!(distance(&x, &y, 0, 2), 92681);
    assert_eq!(distance(&x, &y, 2, 2), 0);
}

#[test]
fn midpoints_round_down() {
    assert_eq!(midpoints(&[0, 3, u32::MAX], &[10, 4, u32::MAX]), vec![5, 3, u32::MAX]);
}

#[test]
fn rng_is_reproducible() {
    let mut a = Rng::new(0xc0ba_e964);
    assert_eq!(a.next(), 3467074795);
    assert_eq!(a.x, 13962242007460061629);
    assert_eq!(a.next(), 817097525);
    assert_eq!(a.next(), 2249613864);
    let mut b = Rng::new(0xc0ba_e964);
    let mut c = Rng::new(0xc0ba_e964);
    for _ in 0..100 {
        assert_eq!(b.next(), c.next());
    }
}

#[test]
fn path_length_is_open() {
    let (x, y) = square();
    assert_eq!(path_length(&x, &y, &[0, 1, 2, 3]), 30 * SCALE);
    assert_eq!(path_length(&x, &y, &[2]), 0);
    assert_eq!(path_length(&x, &y, &[]), 0);
}

#[test]
fn square_scenario() {
    let (x, y) = square();
    let stripe = init_mo(&x, &y, 20);
    assert_eq!(stripe, vec![0, 3, 2, 1]);
    assert_eq!(path_length(&x, &y, &stripe), 30 * SCALE);
    let greedy = init_greedy(&x, &y);
    assert_eq!(greedy, vec![3, 2, 1, 0]);
    assert_eq!(path_length(&x, &y, &greedy), 30 * SCALE);
    let order = initial_order(&x, &y, 20);
    assert_eq!(order, greedy);
    let mut groups = split_groups(&order, &[4]);
    let before = groups.clone();
    let mut rng = Rng::new(1);
    let score = climb(0, &x, &y, &mut rng, &mut groups);
    assert_eq!(groups, before);
    assert_eq!(score, 30 * SCALE);
    assert_eq!(rng.x, 1);
}

#[test]
fn stripe_order_alternates() {
    // w = 8: stripes of width 4; the second stripe runs downwards.
    let x = vec![1, 1, 5, 5, 9];
    let y = vec![1, 6, 6, 1, 1];
    assert_eq!(init_mo(&x, &y, 8), vec![0, 1, 2, 3, 4]);
}

#[test]
fn initial_orders_are_permutations() {
    for n in [0usize, 1, 2, 7, 30] {
        let (x, y) = scattered(n, 5 + n as u64);
        assert!(is_permutation(&init_mo(&x, &y, 1000), n));
        assert!(is_permutation(&init_greedy(&x, &y), n));
        assert!(is_permutation(&initial_order(&x, &y, 1000), n));
    }
}

#[test]
fn choose_keeps_strictly_shorter() {
    let (x, y) = square();
    let short = vec![0, 1, 2, 3];
    let long = vec![0, 2, 1, 3];
    assert_eq!(choose_order(&x, &y, short.clone(), long.clone()), short);
    assert_eq!(choose_order(&x, &y, long.clone(), short.clone()), short);
    let same = vec![3, 2, 1, 0];
    assert_eq!(choose_order(&x, &y, short.clone(), same.clone()), same);
}

#[test]
fn split_into_groups() {
    let order = vec![5, 4, 3, 2, 1, 0];
    let groups = split_groups(&order, &[2, 3, 1]);
    assert_eq!(groups, vec![vec![5, 4], vec![3, 2, 1], vec![0]]);
    assert!(is_partition(&groups, 6));
    assert_eq!(split_groups(&[], &[]), Vec::<Vec<usize>>::new());
}

#[test]
fn delta_matches_full_rescoring() {
    let (x, y, mut groups) = sample_tour(40, &[5, 1, 12, 2, 20], 11);
    let mut rng = Rng::new(99);
    for _ in 0..500 {
        let i = rng.next() as usize % groups.len();
        let j = rng.next() as usize % groups.len();
        if i == j {
            continue;
        }
        let ii = rng.next() as usize % groups[i].len();
        let jj = rng.next() as usize % groups[j].len();
        let before = full_score(&x, &y, &groups);
        let tmp = groups[i][ii];
        groups[i][ii] = groups[j][jj];
        groups[j][jj] = tmp;
        let after = full_score(&x, &y, &groups);
        let delta = delta_score(&x, &y, &groups, i, ii, j, jj);
        assert_eq!(delta, after as i128 - before as i128);
    }
}

#[test]
fn climbing_never_lengthens() {
    let sizes = [6, 6, 6, 6, 6];
    let (x, y, mut groups) = sample_tour(30, &sizes, 3);
    let mut rng = Rng::new(0xc0ba_e964);
    let mut last = full_score(&x, &y, &groups);
    for _ in 0..200 {
        let score = climb(1, &x, &y, &mut rng, &mut groups);
        assert!(score <= last);
        assert_eq!(score, full_score(&x, &y, &groups));
        assert!(is_partition(&groups, 30));
        last = score;
    }
    let start = full_score(&x, &y, &groups);
    let score = climb(5000, &x, &y, &mut rng, &mut groups);
    assert!(score <= start);
    assert!(is_partition(&groups, 30));
    for (g, &s) in groups.iter().zip(sizes.iter()) {
        assert_eq!(g.len(), s);
    }
}

#[test]
fn climbing_improves_a_crossed_tour() {
    // Each group spans the long way; trading cities makes both short.
    let x = vec![0, 100, 0, 100];
    let y = vec![0, 0, 1, 1];
    let mut groups = vec![vec![0, 3], vec![2, 1]];
    let start = full_score(&x, &y, &groups);
    let mut rng = Rng::new(7);
    let score = climb(200, &x, &y, &mut rng, &mut groups);
    assert!(score < start);
    assert_eq!(score, 2 * SCALE);
}

#[test]
fn union_find_operations() {
    let mut uf = UnionFind::new(6);
    assert!(!uf.is_same_set(0, 1));
    assert_eq!(uf.size(3), 1);
    uf.unite(0, 1);
    uf.unite(2, 3);
    uf.unite(3, 4);
    assert!(uf.is_same_set(0, 1));
    assert!(uf.is_same_set(2, 4));
    assert!(!uf.is_same_set(1, 2));
    assert_eq!(uf.size(4), 3);
    uf.unite(1, 4);
    assert!(uf.is_same_set(0, 3));
    assert_eq!(uf.size(0), 5);
    uf.unite(0, 2);
    assert_eq!(uf.size(2), 5);
    assert_eq!(uf.root(5), 5);
    assert_eq!(uf.size(5), 1);
}

#[test]
fn spanning_edges_form_a_tree() {
    let (x, y, groups) = sample_tour(25, &[1, 4, 8, 12], 17);
    let edges = find_edges_by_uf(&groups, &x, &y);
    assert_eq!(edges.len(), groups.len());
    for (g, es) in groups.iter().zip(edges.iter()) {
        assert_eq!(es.len(), g.len() - 1);
        let mut uf = UnionFind::new(25);
        for &(a, b) in es {
            assert!(g.contains(&a) && g.contains(&b));
            assert!(!uf.is_same_set(a, b));
            uf.unite(a, b);
        }
        for &c in g {
            assert!(uf.is_same_set(c, g[0]));
        }
    }
}

#[test]
fn spanning_edges_take_shortest_pairs() {
    let x = vec![0, 1, 10, 11];
    let y = vec![0, 0, 0, 0];
    let edges = find_edges_by_uf(&[vec![0, 2, 1, 3]], &x, &y);
    assert_eq!(edges, vec![vec![(0, 1), (2, 3), (2, 1)]]);
    assert_eq!(find_edges_by_uf(&[vec![]], &x, &y), vec![Vec::<(usize, usize)>::new()]);
}

#[test]
fn oracle_plan_windows() {
    assert_eq!(oracle_plan(2, 3), vec![OracleStep::Direct(0)]);
    assert_eq!(oracle_plan(1, 3), vec![]);
    assert_eq!(oracle_plan(3, 3), vec![OracleStep::Query(0, 3)]);
    assert_eq!(
        oracle_plan(5, 4),
        vec![OracleStep::Query(0, 4), OracleStep::Direct(3)]
    );
    assert_eq!(
        oracle_plan(8, 3),
        vec![OracleStep::Query(0, 3), OracleStep::Query(2, 5), OracleStep::Query(4, 7), OracleStep::Direct(6)]
    );
}

#[test]
fn oracle_plan_counts() {
    for m in 2usize..40 {
        for l in 3usize..9 {
            let plan = oracle_plan(m, l);
            let mut queries = 0;
            let mut edges = 0;
            for step in &plan {
                match *step {
                    OracleStep::Query(a, b) => {
                        assert!(b - a >= 3 && b - a <= l && b <= m);
                        queries += 1;
                        edges += b - a - 1;
                    }
                    OracleStep::Direct(a) => {
                        assert_eq!(a + 2, m);
                        edges += 1;
                    }
                }
            }
            assert_eq!(edges, m - 1);
            assert_eq!(queries, (m - 2 + l - 2) / (l - 1));
        }
    }
}

#[test]
fn oracle_plans_per_group() {
    let groups = vec![vec![4, 2, 0], vec![1], vec![3, 5]];
    let plans = find_edges_by_oracle(&groups, 3);
    assert_eq!(
        plans,
        vec![vec![OracleStep::Query(0, 3)], vec![], vec![OracleStep::Direct(0)]]
    );
}

#[test]
fn cheapest_insertion_picks_first_minimum() {
    let (x, y) = square();
    // Cities 1 and 3 are both 10 from city 0: the first position and the
    // first candidate win.
    assert_eq!(cheapest_insertion(&x, &y, &vec![0], &vec![1, 2, 3]), (0, 0));
    // Between 1 and 0, city 2 costs 10 + 14.14 - 10; before 1 it costs 10.
    assert_eq!(cheapest_insertion(&x, &y, &vec![1, 0], &vec![2, 3]), (0, 0));
    // City 3 fits best after city 0 (index 1 in the candidates).
    assert_eq!(cheapest_insertion(&x, &y, &vec![1, 0], &vec![2, 3][1..].to_vec()), (2, 0));
}

#[test]
fn decimal_digits() {
    let mut out = b"x".to_vec();
    push_decimal(&mut out, 0);
    push_decimal(&mut out, 7);
    push_decimal(&mut out, 10);
    push_decimal(&mut out, 40213);
    assert_eq!(out, b"x071040213".to_vec());
    let mut big = Vec::new();
    push_decimal(&mut big, usize::MAX);
    assert_eq!(big, usize::MAX.to_string().into_bytes());
}

#[test]
fn query_line_format() {
    assert_eq!(query_line(&[4, 12, 0]), b"? 3 4 12 0\n".to_vec());
    assert_eq!(query_line(&[]), b"? 0\n".to_vec());
}

#[test]
fn answer_format() {
    let groups = vec![vec![3, 2, 1], vec![0], vec![]];
    let edges = vec![vec![(3, 2), (2, 1)], vec![], vec![]];
    assert_eq!(answer_text(&groups, &edges), b"!\n3 2 1\n3 2\n2 1\n0\n\n".to_vec());
}

#[test]
fn stripe_order_keeps_ties_by_id() {
    let x = vec![5, 5, 0, 5];
    let y = vec![5, 5, 0, 5];
    assert_eq!(init_mo(&x, &y, 20), vec![2, 0, 1, 3]);
}

#[test]
fn greedy_two_cities() {
    // Both positions cost the same; the first position wins.
    assert_eq!(init_greedy(&[0, 5], &[0, 0]), vec![1, 0]);
    assert_eq!(init_greedy(&[7], &[7]), vec![0]);
    assert_eq!(init_greedy(&[], &[]), Vec::<usize>::new());
}

#[test]
fn spanning_edges_on_a_line() {
    let x = vec![0, 1, 3];
    let y = vec![0, 0, 0];
    assert_eq!(find_edges_by_uf(&[vec![0, 1, 2]], &x, &y), vec![vec![(0, 1), (1, 2)]]);
    // The group's order only decides how each pair is written.
    assert_eq!(find_edges_by_uf(&[vec![2, 0, 1]], &x, &y), vec![vec![(0, 1), (2, 1)]]);
}

#[test]
fn union_find_sizes_and_survivor() {
    let mut uf = UnionFind::new(4);
    for v in 0..4 {
        assert_eq!(uf.size(v), 1);
    }
    // Equal weights: the root of the second argument survives.
    uf.unite(0, 1);
    assert_eq!(uf.root(0), 1);
    // The heavier root survives.
    uf.unite(1, 2);
    assert_eq!(uf.root(2), 1);
    assert_eq!(uf.size(2), 3);
    uf.unite(3, 0);
    assert_eq!(uf.root(3), 1);
    assert_eq!(uf.size(3), 4);
    assert!(uf.is_same_set(3, 2));
    assert_eq!(uf.size(0), 4);
}

#[test]
fn climb_with_one_group_draws_but_keeps_tour() {
    let (x, y) = square();
    let mut groups = vec![vec![3, 2, 1, 0]];
    let mut rng = Rng::new(5);
    let mut expected = Rng::new(5);
    let score = climb(10, &x, &y, &mut rng, &mut groups);
    assert_eq!(groups, vec![vec![3, 2, 1, 0]]);
    assert_eq!(score, 30 * SCALE);
    // Two draws per round when the two group indices are equal.
    for _ in 0..20 {
        expected.next();
    }
    assert_eq!(rng.x, expected.x);
}

#[test]
fn climb_with_zero_rounds_keeps_generator() {
    let (x, y) = square();
    let mut groups = vec![vec![0, 1], vec![2, 3]];
    let mut rng = Rng::new(0xc0ba_e964);
    climb(0, &x, &y, &mut rng, &mut groups);
    assert_eq!(rng.x, 0xc0ba_e964);
    assert_eq!(groups, vec![vec![0, 1], vec![2, 3]]);
}

#[test]
fn climb_depends_only_on_seed_and_inputs() {
    let (x, y, groups) = sample_tour(30, &[10, 10, 10], 23);
    let mut g1 = groups.clone();
    let mut g2 = groups.clone();
    let mut r1 = Rng::new(42);
    let mut r2 = Rng::new(42);
    let s1 = climb(300, &x, &y, &mut r1, &mut g1);
    // Rounds one at a time give the same run.
    let mut s2 = 0;
    for _ in 0..300 {
        s2 = climb(1, &x, &y, &mut r2, &mut g2);
    }
    assert_eq!(g1, g2);
    assert_eq!(r1.x, r2.x);
    assert_eq!(s1, s2);
}

#[test]
fn full_score_adds_over_parts() {
    let (x, y) = square();
    let whole = vec![vec![0, 1], vec![2, 3], vec![], vec![1]];
    let a = full_score(&x, &y, &whole[..2]);
    let b = full_score(&x, &y, &whole[2..]);
    assert_eq!(a, 20 * SCALE);
    assert_eq!(b, 0);
    assert_eq!(full_score(&x, &y, &whole[..3]), a + b);
}

#[test]
fn oracle_edges_from_replies() {
    let group = vec![7, 5, 9, 2, 4];
    let plan = oracle_plan(5, 3);
    assert_eq!(plan, vec![OracleStep::Query(0, 3), OracleStep::Query(2, 5)]);
    let replies = vec![vec![(7, 5), (5, 9)], vec![(9, 2), (4, 2)]];
    assert_eq!(oracle_edges(&group, &plan, &replies), vec![(7, 5), (5, 9), (9, 2), (4, 2)]);
    let plan = oracle_plan(4, 3);
    assert_eq!(plan, vec![OracleStep::Query(0, 3), OracleStep::Direct(2)]);
    assert_eq!(
        oracle_edges(&group[..4].to_vec(), &plan, &vec![vec![(7, 9), (9, 5)]]),
        vec![(7, 9), (9, 5), (9, 2)]
    );
}
