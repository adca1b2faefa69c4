use graphity::sort::{topological_sort, Cycle};

fn place(order: &[usize], node: usize) -> usize {
    order.iter().position(|&item| item == node).unwrap()
}

///     [0]  [1]
///     / \       |
///  [2]   [3]    |
///     \ /  \    V
///     [4]  [5]
#[test]
fn sort() {
    let nodes: Vec<usize> = (0..=5).collect();
    let edges = vec![(3, 5), (2, 4), (0, 2), (3, 4), (0, 3)];
    let mut first_group: Vec<usize> = vec![0, 1];
    let mut second_group: Vec<usize> = vec![2, 3];
    let mut third_group: Vec<usize> = vec![4, 5];

    let sorted_nodes = match topological_sort(nodes, edges) {
        Ok(sorted_nodes) => sorted_nodes,
        Err(_) => panic!("Failed sorting nodes"),
    };

    assert_eq!(sorted_nodes.len(), 6);

    let mut iter = sorted_nodes.into_iter();

    let item = iter.next().unwrap();
    assert!(first_group.contains(&item));
    first_group.retain(|&node| node != item);

    let item = iter.next().unwrap();
    assert!(first_group.contains(&item));
    first_group.retain(|&node| node != item);

    let item = iter.next().unwrap();
    assert!(second_group.contains(&item));
    second_group.retain(|&node| node != item);

    let item = iter.next().unwrap();
    assert!(second_group.contains(&item));
    second_group.retain(|&node| node != item);

    let item = iter.next().unwrap();
    assert!(third_group.contains(&item));
    third_group.retain(|&node| node != item);

    let item = iter.next().unwrap();
    assert!(third_group.contains(&item));
    third_group.retain(|&node| node != item);
}

///      [0]
///  |  /   \  A
///  | |     | |
///  V  \   /  |
///      [1]
#[test]
fn find_cycle() {
    let nodes: Vec<usize> = vec![0, 1];
    let edges = vec![(0, 1), (1, 0)];

    match topological_sort(nodes, edges) {
        Err(Cycle) => (),
        Ok(_) => panic!("Must fail"),
    }
}

#[test]
fn sort_of_nothing_is_empty() {
    assert_eq!(topological_sort(vec![], vec![]).unwrap(), Vec::<usize>::new());
}

#[test]
fn sort_lists_free_nodes_each_once() {
    let mut order = topological_sort(vec![2, 0, 1], vec![]).unwrap();
    order.sort();
    assert_eq!(order, vec![0, 1, 2]);
}

#[test]
fn sort_puts_every_producer_before_its_consumer() {
    let edges = vec![(3, 5), (2, 4), (0, 2), (3, 4), (0, 3)];
    let order = topological_sort((0..=5).collect(), edges.clone()).unwrap();
    assert_eq!(order.len(), 6);
    for (producer, consumer) in edges {
        assert!(place(&order, producer) < place(&order, consumer));
    }
}

#[test]
fn sort_lists_repeated_nodes_and_edges_once() {
    let order = topological_sort(vec![1, 0, 1, 0], vec![(0, 1), (0, 1)]).unwrap();
    assert_eq!(order, vec![0, 1]);
}

#[test]
fn sort_takes_in_consumers_that_are_not_listed() {
    let order = topological_sort(vec![0], vec![(0, 7), (7, 9)]).unwrap();
    assert_eq!(order, vec![0, 7, 9]);
}

#[test]
fn sort_refuses_an_edge_from_nowhere() {
    assert!(topological_sort(vec![1], vec![(0, 1)]).is_err());
}

#[test]
fn sort_refuses_a_loop_on_one_node() {
    assert!(topological_sort(vec![0], vec![(0, 0)]).is_err());
}

#[test]
fn sort_refuses_a_cycle_behind_a_chain() {
    let edges = vec![(0, 1), (1, 2), (2, 3), (3, 1)];
    assert!(topological_sort(vec![0, 1, 2, 3], edges).is_err());
}

#[test]
fn sort_is_the_same_every_time() {
    let edges = vec![(0, 3), (1, 3), (2, 3), (3, 4), (1, 4)];
    let first = topological_sort(vec![2, 1, 0, 3, 4], edges.clone()).unwrap();
    for _ in 0..10 {
        assert_eq!(topological_sort(vec![2, 1, 0, 3, 4], edges.clone()).unwrap(), first);
    }
    assert_eq!(first[3..], [3, 4]);
}
