use testdiff::project::traversal::{distances_from, Traversal};

fn chain() -> Vec<Vec<usize>> {
    // 0 -> 1 -> 2 -> 3, and 0 -> 2
    vec![vec![1, 2], vec![2], vec![3], vec![]]
}

#[test]
fn distances_are_shortest_walks() {
    let table = distances_from(&chain(), &vec![0], None);
    assert_eq!(table, vec![Some(0), Some(1), Some(1), Some(2)]);
}

#[test]
fn limit_gates_spreading_not_counting() {
    let table = distances_from(&chain(), &vec![0], Some(1));
    assert_eq!(table, vec![Some(0), Some(1), Some(1), None]);
    let table = distances_from(&chain(), &vec![0], Some(0));
    assert_eq!(table, vec![Some(0), None, None, None]);
    let table = distances_from(&chain(), &vec![0], Some(2));
    assert_eq!(table, vec![Some(0), Some(1), Some(1), Some(2)]);
}

#[test]
fn several_seeds_and_unreachable_nodes() {
    let adj = vec![vec![1], vec![], vec![3], vec![], vec![0]];
    let table = distances_from(&adj, &vec![2, 0, 2], None);
    assert_eq!(table, vec![Some(0), Some(1), Some(0), Some(1), None]);
    let table = distances_from(&adj, &vec![], None);
    assert_eq!(table, vec![None; 5]);
}

#[test]
fn self_loops_and_repeated_edges_are_harmless() {
    let adj = vec![vec![0, 1, 1], vec![1, 0]];
    let table = distances_from(&adj, &vec![0], None);
    assert_eq!(table, vec![Some(0), Some(1)]);
}

#[test]
fn recorded_distances_never_change() {
    let adj = chain();
    let seeds = vec![0];
    let mut search = Traversal::start(&adj, &seeds, None);
    assert_eq!(search.distances, vec![Some(0), None, None, None]);
    let mut seen = search.distances.clone();
    let mut steps = 0;
    while search.step(&adj, &seeds, None) {
        for (before, after) in seen.iter().zip(search.distances.iter()) {
            if before.is_some() {
                assert_eq!(before, after);
            }
        }
        seen = search.distances.clone();
        steps += 1;
    }
    assert!(search.is_finished());
    assert_eq!(steps, 4);
    assert_eq!(seen, vec![Some(0), Some(1), Some(1), Some(2)]);
}

#[test]
fn empty_graph_has_empty_table() {
    let table = distances_from(&vec![], &vec![], Some(3));
    assert!(table.is_empty());
}
