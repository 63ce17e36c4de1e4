use pvz_manager::commands::{
    backup_list, backup_name_or_default, node_status, parent_display_name, parent_node_id, parse_u32,
    plan_edit, plan_restore, user_id_from_input, EditPlan, NodeStatus, RestorePlan, UserIdError,
};
use pvz_manager::models::{GameData, ManagerData, Node, Timestamp};

fn node(id: u32, parent_id: i32, deleted: bool) -> Node {
    Node {
        id,
        name: format!("n{}", id),
        parent_id,
        created_at: Timestamp { secs: 1_700_000_000, nanos: 0 },
        note: String::new(),
        file_deleted: deleted,
    }
}

fn sample() -> ManagerData {
    let mut m = ManagerData::new();
    m.data.insert(
        1,
        GameData {
            nodes: vec![node(0, -1, false), node(1, 0, false), node(2, 1, true), node(3, 9, false)],
            cur: 1,
        },
    );
    m
}

#[test]
fn restore_plans() {
    let m = sample();
    assert_eq!(plan_restore(&m, 1, 7), RestorePlan::NodeNotFound);
    assert_eq!(plan_restore(&m, 2, 1), RestorePlan::NodeNotFound);
    assert_eq!(plan_restore(&m, 1, 2), RestorePlan::BackupDeleted);
    assert_eq!(plan_restore(&m, 1, 0), RestorePlan::ClearGameFile);
    assert_eq!(plan_restore(&m, 1, 1), RestorePlan::CopyBackup);
}

#[test]
fn edit_plans() {
    let m = sample();
    assert_eq!(plan_edit(&m, 1, 7), EditPlan::NodeNotFound);
    assert_eq!(plan_edit(&m, 1, 0), EditPlan::RootNode);
    assert_eq!(plan_edit(&m, 1, 2), EditPlan::Proceed);
}

#[test]
fn parent_names() {
    let m = sample();
    let g = &m.data[&1];
    assert_eq!(parent_display_name(&m, 1, &g.nodes[0]), "无");
    assert_eq!(parent_display_name(&m, 1, &g.nodes[2]), "n1");
    assert_eq!(parent_display_name(&m, 1, &g.nodes[3]), "未知");
}

#[test]
fn parent_ids_read_as_u32() {
    assert_eq!(parent_node_id(0), 0);
    assert_eq!(parent_node_id(17), 17);
    assert_eq!(parent_node_id(-1), u32::MAX);
    assert_eq!(parent_node_id(i32::MIN), 0x8000_0000);
}

#[test]
fn node_statuses() {
    assert_eq!(node_status(&node(0, -1, true)), NodeStatus::Root);
    assert_eq!(node_status(&node(1, 0, true)), NodeStatus::Deleted);
    assert_eq!(node_status(&node(1, 0, false)), NodeStatus::Present);
}

#[test]
fn backup_table_lists_present_backups() {
    let m = sample();
    let ids: Vec<u32> = backup_list(&m, 1).iter().map(|n| n.id).collect();
    assert_eq!(ids, vec![1, 3]);
    assert!(backup_list(&m, 5).is_empty());
}

#[test]
fn backup_names_default_when_empty() {
    assert_eq!(backup_name_or_default(String::new()), "未命名备份");
    assert_eq!(backup_name_or_default("第一关".to_string()), "第一关");
}

#[test]
fn parse_u32_reads_like_str_parse() {
    for s in ["", "+", "-", "-5", "-0", " 5", "5 ", "12a", "4294967296", "99999999999", "１"] {
        assert_eq!(parse_u32(s), s.parse::<u32>().ok(), "{:?}", s);
    }
    assert_eq!(parse_u32("0"), Some(0));
    assert_eq!(parse_u32("+5"), Some(5));
    assert_eq!(parse_u32("007"), Some(7));
    assert_eq!(parse_u32("4294967295"), Some(u32::MAX));
    assert_eq!(parse_u32("4294967296"), None);
}

#[test]
fn user_ids_must_be_positive_numbers() {
    assert_eq!(user_id_from_input("1"), Ok(1));
    assert_eq!(user_id_from_input("0"), Err(UserIdError::NotPositive));
    assert_eq!(user_id_from_input("abc"), Err(UserIdError::NotANumber));
    assert_eq!(user_id_from_input(""), Err(UserIdError::NotANumber));
}
