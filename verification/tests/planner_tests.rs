use rover_planner::merge_find::MergeFindSet;
use rover_planner::spanning::{
    build_connections, connections_list, dist, find_closest, kruskal, por, position_of, sort_connections,
    Connection,
};

fn conn(cost: usize, start: (usize, usize), end: (usize, usize)) -> Connection {
    Connection { cost, start, end }
}

#[test]
fn testa() {
    let map_size = 50;
    let _ = map_size;
}

#[test]
fn merge_find_starts_with_singletons() {
    let mut s = MergeFindSet::new(4);
    for i in 0..4 {
        assert_eq!(s.find(i), i);
    }
}

#[test]
fn merge_find_union_joins_and_ties_go_to_second_root() {
    let mut s = MergeFindSet::new(5);
    s.union(0, 1);
    assert_eq!(s.find(0), 1);
    assert_eq!(s.find(1), 1);
    // the root of rank one absorbs the singleton whatever the argument order
    s.union(1, 2);
    assert_eq!(s.find(2), 1);
    s.union(3, 1);
    assert_eq!(s.find(3), 1);
    assert_eq!(s.find(4), 4);
}

#[test]
fn merge_find_union_merges_only_the_two_classes() {
    let mut s = MergeFindSet::new(6);
    s.union(0, 1);
    s.union(2, 3);
    assert_ne!(s.find(0), s.find(2));
    s.union(1, 3);
    assert_eq!(s.find(0), s.find(2));
    assert_eq!(s.find(1), s.find(3));
    assert_ne!(s.find(4), s.find(0));
    assert_ne!(s.find(4), s.find(5));
}

#[test]
fn merge_find_find_is_idempotent_and_union_of_same_class_changes_nothing() {
    let mut s = MergeFindSet::new(4);
    s.union(0, 1);
    s.union(1, 2);
    let r = s.find(2);
    assert_eq!(s.find(r), r);
    s.union(0, 2);
    assert_eq!(s.find(0), r);
    assert_eq!(s.find(3), 3);
}

#[test]
fn dist_is_manhattan() {
    assert_eq!(dist((1, 5), (4, 2)), 6);
    assert_eq!(dist((7, 7), (7, 7)), 0);
    assert_eq!(dist((0, 0), (0, 9)), 9);
}

#[test]
fn connection_getters() {
    let c = conn(3, (0, 1), (2, 5));
    assert_eq!(c.start_as_coordinate(), (0, 1));
    assert_eq!(c.end_as_coordinate(), (2, 5));
}

#[test]
fn position_of_gives_first_occurrence() {
    let cs = vec![(1, 1), (2, 2), (1, 1)];
    assert_eq!(position_of(&cs, (1, 1)), 0);
    assert_eq!(position_of(&cs, (2, 2)), 1);
}

#[test]
fn sort_is_ascending_and_stable() {
    let cs = vec![conn(3, (0, 0), (0, 1)), conn(1, (0, 0), (0, 2)), conn(3, (0, 0), (0, 3)), conn(1, (0, 0), (0, 4))];
    let sorted = sort_connections(&cs);
    let ends: Vec<(usize, usize)> = sorted.iter().map(|c| c.end).collect();
    assert_eq!(ends, vec![(0, 2), (0, 4), (0, 1), (0, 3)]);
}

#[test]
fn kruskal_keeps_the_cheapest_spanning_connections() {
    let a = (0, 0);
    let b = (0, 2);
    let c = (3, 0);
    let d = (3, 3);
    let conns = vec![conn(2, a, b), conn(3, a, c), conn(4, b, d), conn(3, c, d), conn(6, a, d), conn(5, b, c)];
    let tree = kruskal(vec![a, b, c, d], conns);
    assert_eq!(tree, vec![conn(2, a, b), conn(3, a, c), conn(3, c, d)]);
    let total: usize = tree.iter().map(|c| c.cost).sum();
    assert_eq!(total, 8);
}

#[test]
fn kruskal_leaves_a_forest_for_disconnected_points() {
    let a = (0, 0);
    let b = (0, 1);
    let c = (5, 5);
    let d = (5, 6);
    let conns = vec![conn(1, a, b), conn(1, c, d), conn(2, b, a)];
    let tree = kruskal(vec![a, b, c, d], conns);
    assert_eq!(tree, vec![conn(1, a, b), conn(1, c, d)]);
    assert!(tree.len() < 4);
}

#[test]
fn kruskal_of_nothing_is_empty() {
    assert_eq!(kruskal(vec![], vec![]), vec![]);
    assert_eq!(kruskal(vec![(1, 1)], vec![]), vec![]);
}

#[test]
fn find_closest_orders_by_distance() {
    let cs = vec![(0, 0), (5, 5), (1, 0), (3, 3)];
    assert_eq!(find_closest(&cs, 0), vec![2, 3, 1]);
    assert_eq!(find_closest(&cs, 1), vec![3, 2]);
    assert_eq!(find_closest(&cs, 3), Vec::<usize>::new());
}

#[test]
fn find_closest_with_ties_lists_each_follower_once() {
    let cs = vec![(2, 2), (2, 3), (3, 2), (2, 1), (9, 9)];
    let order = find_closest(&cs, 0);
    assert_eq!(order.len(), 4);
    let mut sorted = order.clone();
    sorted.sort();
    assert_eq!(sorted, vec![1, 2, 3, 4]);
    assert_eq!(order[3], 4);
}

#[test]
fn connections_list_links_each_point_to_its_nearest_followers() {
    let a = (0, 0);
    let b = (0, 2);
    let c = (3, 0);
    let d = (3, 3);
    let conns = connections_list(&vec![a, b, c, d]);
    assert_eq!(
        conns,
        vec![conn(2, a, b), conn(3, a, c), conn(6, a, d), conn(4, b, d), conn(5, b, c), conn(3, c, d)]
    );
}

#[test]
fn connections_list_adds_one_link_once_a_point_has_four() {
    let cs: Vec<(usize, usize)> = (0..6).map(|j| (0, j)).collect();
    let conns = connections_list(&cs);
    let pairs: Vec<((usize, usize), (usize, usize), usize)> = conns.iter().map(|c| (c.start, c.end, c.cost)).collect();
    assert_eq!(
        pairs,
        vec![
            ((0, 0), (0, 1), 1),
            ((0, 0), (0, 2), 2),
            ((0, 0), (0, 3), 3),
            ((0, 0), (0, 4), 4),
            ((0, 1), (0, 2), 1),
            ((0, 1), (0, 3), 2),
            ((0, 1), (0, 4), 3),
            ((0, 2), (0, 3), 1),
            ((0, 2), (0, 4), 2),
            ((0, 3), (0, 4), 1),
            ((0, 4), (0, 5), 1),
        ]
    );
}

#[test]
fn build_connections_follows_the_given_order() {
    let cs = vec![(0, 0), (0, 1), (0, 2)];
    let closest = vec![vec![2, 1], vec![2]];
    let conns = build_connections(&cs, &closest);
    assert_eq!(conns, vec![conn(2, (0, 0), (0, 2)), conn(1, (0, 0), (0, 1)), conn(1, (0, 1), (0, 2))]);
}

#[test]
fn connections_list_of_one_or_no_point_is_empty() {
    assert_eq!(connections_list(&vec![]), vec![]);
    assert_eq!(connections_list(&vec![(4, 4)]), vec![]);
}

#[test]
fn por_plans_the_minimum_spanning_tree() {
    let a = (0, 0);
    let b = (0, 2);
    let c = (3, 0);
    let d = (3, 3);
    let tree = por(vec![a, b, c, d]);
    assert_eq!(tree, vec![conn(2, a, b), conn(3, a, c), conn(3, c, d)]);
}

#[test]
fn por_on_a_line_is_the_chain_of_neighbours() {
    let cs: Vec<(usize, usize)> = (0..6).map(|j| (0, j)).collect();
    let tree = por(cs);
    let total: usize = tree.iter().map(|c| c.cost).sum();
    assert_eq!(tree.len(), 5);
    assert_eq!(total, 5);
}

#[test]
fn por_with_repeated_points_leaves_the_copy_alone() {
    let tree = por(vec![(0, 0), (0, 0), (1, 1)]);
    assert_eq!(tree, vec![conn(2, (0, 0), (1, 1))]);
}

#[test]
fn por_of_distinct_points_is_a_spanning_tree() {
    let points = vec![(2, 9), (7, 1), (0, 0), (5, 5), (9, 9), (3, 3), (8, 4)];
    let tree = por(points.clone());
    assert_eq!(tree.len(), points.len() - 1);
    let mut costs: Vec<usize> = tree.iter().map(|c| c.cost).collect();
    let sorted = {
        let mut s = costs.clone();
        s.sort();
        s
    };
    assert_eq!(costs, sorted);
    costs.clear();
}

#[test]
fn find_closest_needs_only_distances_from_the_given_point() {
    let far = usize::MAX;
    let cs = vec![(0, 0), (far, 0), (0, far - 1)];
    assert_eq!(find_closest(&cs, 0), vec![2, 1]);
}

#[test]
fn kruskal_with_distinct_costs_ignores_the_input_order() {
    let a = (0, 0);
    let b = (0, 2);
    let c = (3, 0);
    let d = (3, 3);
    let conns = vec![conn(2, a, b), conn(3, a, c), conn(4, b, d), conn(1, c, d), conn(6, a, d), conn(5, b, c)];
    let mut reversed = conns.clone();
    reversed.reverse();
    let points = vec![a, b, c, d];
    let first = kruskal(points.clone(), conns);
    assert_eq!(first, vec![conn(1, c, d), conn(2, a, b), conn(3, a, c)]);
    assert_eq!(kruskal(points, reversed), first);
}

#[test]
fn merge_find_second_find_agrees() {
    let mut s = MergeFindSet::new(5);
    s.union(0, 1);
    s.union(2, 3);
    s.union(0, 2);
    let r = s.find(0);
    assert_eq!(s.find(0), r);
    assert_eq!(s.find(3), r);
    assert_eq!(s.find(4), 4);
}
