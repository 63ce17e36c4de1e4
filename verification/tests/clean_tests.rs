use pvz_manager::models::{GameData, ManagerData, Node, Timestamp};
use pvz_manager::tree::{kept_flags, parent_key};

fn node(id: u32, parent_id: i32, deleted: bool) -> Node {
    Node {
        id,
        name: format!("n{}", id),
        parent_id,
        created_at: Timestamp { secs: 1_700_000_000, nanos: 0 },
        note: String::new(),
        file_deleted: deleted,
    }
}

fn manager_with(nodes: Vec<Node>, cur: i32) -> ManagerData {
    let mut m = ManagerData::new();
    m.data.insert(1, GameData { nodes, cur });
    m
}

fn ids(m: &ManagerData) -> Vec<u32> {
    m.data[&1].nodes.iter().map(|n| n.id).collect()
}

fn sorted(mut v: Vec<u32>) -> Vec<u32> {
    v.sort();
    v
}

#[test]
fn clean_of_a_missing_game_does_nothing() {
    let mut m = ManagerData::new();
    assert!(m.clean_empty_nodes(3).is_empty());
    assert!(m.data.is_empty());
}

#[test]
fn clean_removes_deleted_leaves_and_their_deleted_parents() {
    // 0 -> 1(deleted) -> 2(deleted); 0 -> 3(present)
    let mut m = manager_with(vec![node(0, -1, false), node(1, 0, true), node(2, 1, true), node(3, 0, false)], 3);
    let removed = sorted(m.clean_empty_nodes(1));
    assert_eq!(removed, vec![1, 2]);
    assert_eq!(ids(&m), vec![0, 3]);
    assert_eq!(m.data[&1].cur, 3);
}

#[test]
fn clean_keeps_a_deleted_node_with_a_present_descendant() {
    // 0 -> 1(deleted) -> 2(deleted) -> 3(present)
    let mut m = manager_with(vec![node(0, -1, false), node(1, 0, true), node(2, 1, true), node(3, 2, false)], 0);
    assert!(m.clean_empty_nodes(1).is_empty());
    assert_eq!(ids(&m), vec![0, 1, 2, 3]);
}

#[test]
fn clean_keeps_the_current_node() {
    // 0 -> 1(deleted, current) -> 2(deleted)
    let mut m = manager_with(vec![node(0, -1, false), node(1, 0, true), node(2, 1, true)], 1);
    assert_eq!(m.clean_empty_nodes(1), vec![2]);
    assert_eq!(ids(&m), vec![0, 1]);
}

#[test]
fn clean_never_removes_the_root() {
    let mut m = manager_with(vec![node(0, -1, true), node(1, 0, true)], -1);
    assert_eq!(m.clean_empty_nodes(1), vec![1]);
    assert_eq!(ids(&m), vec![0]);
}

#[test]
fn clean_leaves_nodes_not_below_the_root() {
    // Node 5 hangs from no parent and node 6 from a missing one.
    let mut m = manager_with(vec![node(0, -1, false), node(5, -1, true), node(6, 40, true)], 0);
    assert!(m.clean_empty_nodes(1).is_empty());
    assert_eq!(ids(&m), vec![0, 5, 6]);
}

#[test]
fn clean_takes_whole_subtrees() {
    // 0 -> 1(deleted) -> {2(deleted), 3(deleted) -> 4(deleted)}
    let mut m = manager_with(
        vec![node(0, -1, false), node(1, 0, true), node(2, 1, true), node(3, 1, true), node(4, 3, true)],
        0,
    );
    assert_eq!(sorted(m.clean_empty_nodes(1)), vec![1, 2, 3, 4]);
    assert_eq!(ids(&m), vec![0]);
}

#[test]
fn clean_twice_removes_nothing_the_second_time() {
    let mut m = manager_with(
        vec![node(0, -1, false), node(1, 0, true), node(2, 1, false), node(3, 1, true), node(4, 0, true)],
        0,
    );
    assert_eq!(sorted(m.clean_empty_nodes(1)), vec![3, 4]);
    assert!(m.clean_empty_nodes(1).is_empty());
    assert_eq!(ids(&m), vec![0, 1, 2]);
}

#[test]
fn clean_ends_on_a_cycle_below_the_root() {
    // 1 and 2 are each other's parent, and 1 hangs below the root too.
    let mut m = manager_with(vec![node(0, -1, false), node(1, 0, true), node(1, 2, true), node(2, 1, true)], 0);
    assert_eq!(sorted(m.clean_empty_nodes(1)), vec![1, 2]);
    assert_eq!(ids(&m), vec![0]);
}

#[test]
fn clean_keeps_ids_unique() {
    let mut m = ManagerData::new();
    m.get_root_id(1);
    for i in 0..5 {
        let parent = m.get_current_parent(1);
        let id = m.create_node(1, parent, format!("s{}", i), String::new());
        m.set_current_parent(1, id as i32);
    }
    m.find_node_mut(1, 5).unwrap().file_deleted = true;
    m.find_node_mut(1, 4).unwrap().file_deleted = true;
    m.set_current_parent(1, 3);
    assert_eq!(sorted(m.clean_empty_nodes(1)), vec![4, 5]);
    let id = m.create_node(1, 3, "again".to_string(), String::new());
    assert_eq!(id, 4);
    let mut all = ids(&m);
    all.sort();
    all.dedup();
    assert_eq!(all.len(), m.data[&1].nodes.len());
}

#[test]
fn parent_key_reads_large_ids_as_negative() {
    assert_eq!(parent_key(0), 0);
    assert_eq!(parent_key(0x7fff_ffff), i32::MAX);
    assert_eq!(parent_key(0x8000_0000), i32::MIN);
    assert_eq!(parent_key(u32::MAX), -1);
}

#[test]
fn clean_matches_children_by_the_id_read_as_i32() {
    // Node u32::MAX is read as parent -1 by its children.
    let mut m = manager_with(
        vec![node(0, -1, false), node(u32::MAX, 0, true), node(7, -1, true)],
        0,
    );
    // 7 and the root hang from -1, which is how id u32::MAX reads: 7 is removed,
    // while u32::MAX has the root below it and stays.
    assert_eq!(m.clean_empty_nodes(1), vec![7]);
    assert_eq!(ids(&m), vec![0, u32::MAX]);
}

#[test]
fn an_id_that_no_node_has_is_not_kept() {
    // No node 0; node 1 (present) hangs under the missing 0.
    let nodes = vec![node(1, 0, false)];
    assert_eq!(kept_flags(&nodes, -1, &vec![0, 1]), vec![false, true]);
}

#[test]
fn kept_flags_follow_present_descendants() {
    // 0 -> 1(deleted) -> 2(present); 0 -> 3(deleted)
    let nodes = vec![node(0, -1, false), node(1, 0, true), node(2, 1, false), node(3, 0, true)];
    assert_eq!(kept_flags(&nodes, -1, &vec![0, 1, 2, 3]), vec![true, true, true, false]);
}

#[test]
fn marking_a_leaf_deleted_removes_it() {
    // 0 -> 1 -> 2, all present, current 0
    let mut m = manager_with(vec![node(0, -1, false), node(1, 0, false), node(2, 1, false)], 0);
    assert_eq!(m.mark_deleted_and_clean(1, 2), vec![2]);
    assert_eq!(ids(&m), vec![0, 1]);
    assert_eq!(m.mark_deleted_and_clean(1, 1), vec![1]);
    assert_eq!(ids(&m), vec![0]);
    assert_eq!(m.data[&1].cur, 0);
}

#[test]
fn marking_an_inner_node_deleted_keeps_it_for_its_children() {
    // 0 -> 1 -> 2, all present
    let mut m = manager_with(vec![node(0, -1, false), node(1, 0, false), node(2, 1, false)], 0);
    assert!(m.mark_deleted_and_clean(1, 1).is_empty());
    assert_eq!(ids(&m), vec![0, 1, 2]);
    assert!(m.data[&1].nodes[1].file_deleted);
    assert!(!m.data[&1].nodes[2].file_deleted);
}

#[test]
fn marking_the_current_node_keeps_it() {
    let mut m = manager_with(vec![node(0, -1, false), node(1, 0, false)], 1);
    assert!(m.mark_deleted_and_clean(1, 1).is_empty());
    assert_eq!(ids(&m), vec![0, 1]);
    assert!(m.data[&1].nodes[1].file_deleted);
}

#[test]
fn marking_a_missing_node_only_cleans() {
    // 0 -> 1(deleted) is already dead; node 7 does not exist.
    let mut m = manager_with(vec![node(0, -1, false), node(1, 0, true)], 0);
    assert_eq!(m.mark_deleted_and_clean(1, 7), vec![1]);
    assert_eq!(ids(&m), vec![0]);
}

#[test]
fn marking_in_a_missing_game_does_nothing() {
    let mut m = ManagerData::new();
    assert!(m.mark_deleted_and_clean(4, 1).is_empty());
    assert!(m.data.is_empty());
}

#[test]
fn cleaning_keeps_the_survivors_attached_to_the_root() {
    // 0 -> 1(deleted) -> 2(deleted) -> 3(present); 1 -> 4(deleted)
    let mut m = manager_with(
        vec![node(0, -1, false), node(1, 0, true), node(2, 1, true), node(3, 2, false), node(4, 1, true)],
        0,
    );
    assert_eq!(m.clean_empty_nodes(1), vec![4]);
    let nodes = &m.data[&1].nodes;
    for n in nodes.iter().skip(1) {
        assert!(nodes.iter().any(|p| parent_key(p.id) == n.parent_id));
    }
    assert_eq!(ids(&m), vec![0, 1, 2, 3]);
}
