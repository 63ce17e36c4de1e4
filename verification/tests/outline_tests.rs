use pvz_manager::models::{GameData, ManagerData, Node, Timestamp};
use pvz_manager::outline::TreeRow;

fn node(id: u32, parent_id: i32) -> Node {
    Node {
        id,
        name: format!("n{}", id),
        parent_id,
        created_at: Timestamp { secs: 0, nanos: 0 },
        note: String::new(),
        file_deleted: false,
    }
}

fn manager_with(nodes: Vec<Node>) -> ManagerData {
    let mut m = ManagerData::new();
    m.data.insert(1, GameData { nodes, cur: 0 });
    m
}

fn open(depth: usize, index: usize) -> TreeRow {
    TreeRow { depth, index, closing: false }
}

fn close(depth: usize, index: usize) -> TreeRow {
    TreeRow { depth, index, closing: true }
}

#[test]
fn rows_walk_the_tree_in_preorder() {
    // 0 -> {1 -> 3, 2}
    let m = manager_with(vec![node(0, -1), node(1, 0), node(2, 0), node(3, 1)]);
    let rows = m.tree_rows(1, 0, true);
    assert_eq!(
        rows,
        vec![
            open(0, 0),
            open(1, 1),
            open(2, 3),
            close(2, 3),
            close(1, 1),
            open(1, 2),
            close(1, 2),
            close(0, 0),
        ]
    );
    assert_eq!(m.tree_rows(1, 0, false), rows);
}

#[test]
fn rows_of_a_subtree_start_at_depth_zero() {
    let m = manager_with(vec![node(0, -1), node(1, 0), node(2, 1)]);
    assert_eq!(m.tree_rows(1, 1, true), vec![open(0, 1), open(1, 2), close(1, 2), close(0, 1)]);
}

#[test]
fn rows_are_empty_for_a_missing_node_or_game() {
    let m = manager_with(vec![node(0, -1)]);
    assert!(m.tree_rows(1, 5, true).is_empty());
    assert!(m.tree_rows(2, 0, true).is_empty());
}

#[test]
fn following_ids_shows_the_first_node_of_an_id() {
    // Two nodes with id 1: the second hangs under the root too.
    let m = manager_with(vec![node(0, -1), node(1, 5), node(1, 0)]);
    let by_id: Vec<usize> = m.tree_rows(1, 0, true).iter().filter(|r| !r.closing).map(|r| r.index).collect();
    assert_eq!(by_id, vec![0, 1]);
    let by_node: Vec<usize> = m.tree_rows(1, 0, false).iter().filter(|r| !r.closing).map(|r| r.index).collect();
    assert_eq!(by_node, vec![0, 2]);
}

#[test]
fn rows_stop_on_a_cycle() {
    // 1 and 2 are each other's parent.
    let m = manager_with(vec![node(0, -1), node(1, 2), node(2, 1)]);
    let rows = m.tree_rows(1, 1, true);
    assert_eq!(rows.iter().filter(|r| !r.closing).count(), 3);
}
