use pvz_manager::models::{GameData, ManagerData, Node, Timestamp};

fn node(id: u32, parent_id: i32, deleted: bool) -> Node {
    Node {
        id,
        name: format!("n{}", id),
        parent_id,
        created_at: Timestamp { secs: 1_700_000_000, nanos: 0 },
        note: String::new(),
        file_deleted: deleted,
    }
}

fn manager_with(game_id: u32, nodes: Vec<Node>, cur: i32) -> ManagerData {
    let mut m = ManagerData::new();
    m.data.insert(game_id, GameData { nodes, cur });
    m
}

#[test]
fn new_manager_is_empty() {
    let m = ManagerData::new();
    assert!(m.user_id.is_none());
    assert!(m.data.is_empty());
}

#[test]
fn get_or_create_game_data_creates_the_root() {
    let mut m = ManagerData::new();
    let g = m.get_or_create_game_data(7);
    assert_eq!(g.cur, 0);
    assert_eq!(g.nodes.len(), 1);
    let root = &g.nodes[0];
    assert_eq!(root.id, 0);
    assert_eq!(root.parent_id, -1);
    assert_eq!(root.name, "空");
    assert_eq!(root.note, "根节点，表示没有存档");
    assert!(!root.file_deleted);
    assert!(root.created_at.secs > 0);
    assert_eq!(m.data.len(), 1);
}

#[test]
fn get_or_create_game_data_keeps_an_existing_game() {
    let mut m = manager_with(3, vec![node(0, -1, false), node(4, 0, false)], 4);
    let g = m.get_or_create_game_data(3);
    assert_eq!(g.nodes.len(), 2);
    assert_eq!(g.cur, 4);
    g.cur = 0;
    assert_eq!(m.data[&3].cur, 0);
}

#[test]
fn get_root_id_is_zero_and_creates_the_game() {
    let mut m = ManagerData::new();
    assert_eq!(m.get_root_id(5), 0);
    assert!(m.find_node(5, 0).is_some());
    assert_eq!(m.find_node(5, 0).unwrap().name, "空");
}

#[test]
fn create_node_takes_the_least_free_id() {
    let mut m = ManagerData::new();
    assert_eq!(m.create_node(1, 0, "a".to_string(), "x".to_string()), 1);
    assert_eq!(m.create_node(1, 1, "b".to_string(), "y".to_string()), 2);
    assert_eq!(m.create_node(1, 1, "c".to_string(), "z".to_string()), 3);
    let mut m2 = manager_with(1, vec![node(0, -1, false), node(1, 0, false), node(3, 1, false)], 3);
    assert_eq!(m2.create_node(1, 3, "d".to_string(), String::new()), 2);
    assert_eq!(m2.create_node(1, 3, "e".to_string(), String::new()), 4);
}

#[test]
fn create_node_on_a_new_game_adds_the_root_first() {
    let mut m = ManagerData::new();
    let id = m.create_node(9, -1, "first".to_string(), "note".to_string());
    assert_eq!(id, 1);
    let g = &m.data[&9];
    assert_eq!(g.nodes.len(), 2);
    assert_eq!(g.nodes[0].id, 0);
    assert_eq!(g.nodes[1].parent_id, -1);
    assert_eq!(g.cur, 0);
}

#[test]
fn created_node_is_found_by_its_id() {
    let mut m = ManagerData::new();
    m.get_root_id(2);
    let id = m.create_node(2, 0, "save".to_string(), "before boss".to_string());
    let n = m.find_node(2, id).unwrap();
    assert_eq!(n.id, id);
    assert_eq!(n.name, "save");
    assert_eq!(n.note, "before boss");
    assert_eq!(n.parent_id, 0);
    assert!(!n.file_deleted);
}

#[test]
fn find_node_gives_the_first_node_with_the_id() {
    let mut dup = node(5, 0, true);
    dup.name = "second".to_string();
    let m = manager_with(1, vec![node(0, -1, false), node(5, 0, false), dup], 0);
    assert_eq!(m.find_node(1, 5).unwrap().name, "n5");
    assert!(!m.find_node(1, 5).unwrap().file_deleted);
    assert!(m.find_node(1, 6).is_none());
    assert!(m.find_node(2, 0).is_none());
}

#[test]
fn find_node_mut_changes_the_node_in_place() {
    let mut m = manager_with(1, vec![node(0, -1, false), node(5, 0, false), node(5, 0, false)], 0);
    {
        let n = m.find_node_mut(1, 5).unwrap();
        n.name = "renamed".to_string();
        n.file_deleted = true;
    }
    let n = m.find_node(1, 5).unwrap();
    assert_eq!(n.name, "renamed");
    assert!(n.file_deleted);
    assert_eq!(m.data[&1].nodes[2].name, "n5");
    assert!(m.find_node_mut(1, 8).is_none());
    assert!(m.find_node_mut(4, 0).is_none());
    assert_eq!(m.data.len(), 1);
}

#[test]
fn current_parent_is_minus_one_without_data() {
    let m = ManagerData::new();
    assert_eq!(m.get_current_parent(3), -1);
}

#[test]
fn set_current_parent_then_get_gives_it_back() {
    let mut m = manager_with(1, vec![node(0, -1, false), node(1, 0, false)], 0);
    m.set_current_parent(1, 1);
    assert_eq!(m.get_current_parent(1), 1);
    assert_eq!(m.data[&1].nodes.len(), 2);
}

#[test]
fn set_current_parent_creates_a_missing_game() {
    let mut m = ManagerData::new();
    m.set_current_parent(6, 12);
    assert_eq!(m.get_current_parent(6), 12);
    assert_eq!(m.data[&6].nodes.len(), 1);
    assert_eq!(m.data[&6].nodes[0].id, 0);
}

#[test]
fn get_children_keeps_the_order() {
    let m = manager_with(
        1,
        vec![node(0, -1, false), node(3, 0, false), node(1, 3, false), node(2, 0, false), node(4, 0, true)],
        0,
    );
    let ids: Vec<u32> = m.get_children(1, 0).iter().map(|n| n.id).collect();
    assert_eq!(ids, vec![3, 2, 4]);
    let top: Vec<u32> = m.get_children(1, -1).iter().map(|n| n.id).collect();
    assert_eq!(top, vec![0]);
    assert!(m.get_children(1, 9).is_empty());
    assert!(m.get_children(2, 0).is_empty());
}

#[test]
fn adjacency_list_groups_nodes_by_parent() {
    let m = manager_with(
        1,
        vec![node(0, -1, false), node(3, 0, false), node(1, 3, false), node(2, 0, false)],
        0,
    );
    let adj = m.build_adjacency_list(1);
    assert_eq!(adj.len(), 3);
    let under0: Vec<u32> = adj[&0].iter().map(|n| n.id).collect();
    assert_eq!(under0, vec![3, 2]);
    let under3: Vec<u32> = adj[&3].iter().map(|n| n.id).collect();
    assert_eq!(under3, vec![1]);
    assert_eq!(adj[&-1].len(), 1);
    for (k, v) in &adj {
        let children: Vec<u32> = m.get_children(1, *k).iter().map(|n| n.id).collect();
        let listed: Vec<u32> = v.iter().map(|n| n.id).collect();
        assert_eq!(children, listed);
    }
    assert!(m.build_adjacency_list(2).is_empty());
}
