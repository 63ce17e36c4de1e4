//! The decisions the command line and the window make about a request,
//! before and after the file work that carries it out.

use vstd::prelude::*;
use crate::models::{ManagerData, Node, find_in_vec};
use crate::tree::key_of;
use crate::text::{chars_of, digits_value, is_digit};

verus! {

/// What restoring a node comes to.
#[derive(Clone, Copy, Debug, PartialEq, Eq, Structural)]
pub enum RestorePlan {
    /// The game has no node with that id.
    NodeNotFound,
    /// The node's backup file was deleted, so there is nothing to restore.
    BackupDeleted,
    /// The node is the root: restoring it removes the game's save file.
    ClearGameFile,
    /// The node's backup file is copied over the game's save file.
    CopyBackup,
}

/// What restoring node `node_id` of game `game_id` comes to.
pub open spec fn restore_plan_of(data: ManagerData, game_id: u32, node_id: u32) -> RestorePlan {
    match data.spec_find_node(game_id, node_id) {
        None => RestorePlan::NodeNotFound,
        Some(n) => if n.file_deleted {
            RestorePlan::BackupDeleted
        } else if node_id == 0 {
            RestorePlan::ClearGameFile
        } else {
            RestorePlan::CopyBackup
        },
    }
}

/// Decides how to restore node `node_id` of game `game_id`.
pub fn plan_restore(data: &ManagerData, game_id: u32, node_id: u32) -> (p: RestorePlan)
    ensures
        p == restore_plan_of(*data, game_id, node_id),
{
    match data.find_node(game_id, node_id) {
        None => RestorePlan::NodeNotFound,
        Some(n) => if n.file_deleted {
            RestorePlan::BackupDeleted
        } else if node_id == 0 {
            RestorePlan::ClearGameFile
        } else {
            RestorePlan::CopyBackup
        },
    }
}

/// Whether a node may be renamed or have its backup deleted.
#[derive(Clone, Copy, Debug, PartialEq, Eq, Structural)]
pub enum EditPlan {
    /// The game has no node with that id.
    NodeNotFound,
    /// The node has no parent: it is the root, which stays as it is.
    RootNode,
    /// The node may be changed.
    Proceed,
}

/// Whether node `node_id` of game `game_id` may be renamed or have its backup
/// deleted from the command line.
pub open spec fn edit_plan_of(data: ManagerData, game_id: u32, node_id: u32) -> EditPlan {
    match data.spec_find_node(game_id, node_id) {
        None => EditPlan::NodeNotFound,
        Some(n) => if n.parent_id == -1 {
            EditPlan::RootNode
        } else {
            EditPlan::Proceed
        },
    }
}

/// Decides whether node `node_id` of game `game_id` may be changed.
pub fn plan_edit(data: &ManagerData, game_id: u32, node_id: u32) -> (p: EditPlan)
    ensures
        p == edit_plan_of(*data, game_id, node_id),
{
    match data.find_node(game_id, node_id) {
        None => EditPlan::NodeNotFound,
        Some(n) => if n.parent_id == -1 {
            EditPlan::RootNode
        } else {
            EditPlan::Proceed
        },
    }
}

/// The id that a `parent_id` names: `parent_id as u32`.
pub open spec fn id_of_key(parent_id: i32) -> u32 {
    if parent_id >= 0 {
        parent_id as u32
    } else {
        (parent_id + 0x1_0000_0000int) as u32
    }
}

/// Computes `parent_id as u32`.
pub fn parent_node_id(parent_id: i32) -> (id: u32)
    ensures
        id == id_of_key(parent_id),
        key_of(id) == parent_id,
{
    if parent_id >= 0 {
        parent_id as u32
    } else {
        ((parent_id + 0x7fff_ffff + 1) as u32) + 0x8000_0000
    }
}

/// How a node is shown in a tree.
#[derive(Clone, Copy, Debug, PartialEq, Eq, Structural)]
pub enum NodeStatus {
    /// The node has no parent.
    Root,
    /// The node's backup file was deleted.
    Deleted,
    /// The node's backup file exists.
    Present,
}

/// How `n` is shown: a node without parent as the root, else by whether its
/// backup file was deleted.
pub open spec fn status_of(n: Node) -> NodeStatus {
    if n.parent_id == -1 {
        NodeStatus::Root
    } else if n.file_deleted {
        NodeStatus::Deleted
    } else {
        NodeStatus::Present
    }
}

/// How a node is shown in a tree (see `status_of`).
pub fn node_status(n: &Node) -> (s: NodeStatus)
    ensures
        s == status_of(*n),
{
    if n.parent_id == -1 {
        NodeStatus::Root
    } else if n.file_deleted {
        NodeStatus::Deleted
    } else {
        NodeStatus::Present
    }
}

/// The name shown for the parent of `n` in game `game_id`: `无` for a node
/// without parent, the parent's name when the game has the parent, else `未知`.
pub open spec fn parent_name_of(data: ManagerData, game_id: u32, n: Node) -> Seq<char> {
    if n.parent_id == -1 {
        "无"@
    } else {
        match data.spec_find_node(game_id, id_of_key(n.parent_id)) {
            Some(p) => p.name@,
            None => "未知"@,
        }
    }
}

/// The name shown for the parent of `n` (see `parent_name_of`).
pub fn parent_display_name(data: &ManagerData, game_id: u32, n: &Node) -> (r: String)
    ensures
        r@ == parent_name_of(*data, game_id, *n),
{
    if n.parent_id == -1 {
        String::from_str("无")
    } else {
        match data.find_node(game_id, parent_node_id(n.parent_id)) {
            Some(p) => p.name.clone(),
            None => String::from_str("未知"),
        }
    }
}

/// The backups a game lists in its table: the nodes with a parent whose
/// backup file exists, in order.
pub open spec fn listed_backups(nodes: Seq<Node>) -> Seq<Node> {
    nodes.filter(|n: Node| n.parent_id != -1 && !n.file_deleted)
}

/// The backups game `game_id` lists in its table (see `listed_backups`);
/// none when the game has no data.
pub fn backup_list(data: &ManagerData, game_id: u32) -> (r: Vec<&Node>)
    ensures
        r@.map_values(|n: &Node| *n) == match data.game(game_id) {
            Some(g) => listed_backups(g.nodes@),
            None => Seq::empty(),
        },
{
    let mut r: Vec<&Node> = Vec::new();
    match data.data.get(&game_id) {
        Some(g) => {
            let nodes = &g.nodes;
            let mut i: usize = 0;
            while i < nodes.len()
                invariant
                    i <= nodes@.len(),
                    r@.map_values(|n: &Node| *n) == listed_backups(nodes@.take(i as int)),
                decreases nodes@.len() - i,
            {
                proof {
                    assert(nodes@.take(i + 1) =~= nodes@.take(i as int).push(nodes@[i as int]));
                    nodes@.take(i as int).lemma_filter_push(
                        nodes@[i as int],
                        |n: Node| n.parent_id != -1 && !n.file_deleted,
                    );
                }
                if nodes[i].parent_id != -1 && !nodes[i].file_deleted {
                    r.push(&nodes[i]);
                }
                proof {
                    assert(r@.map_values(|n: &Node| *n) =~= listed_backups(nodes@.take(i + 1)));
                }
                i += 1;
            }
            proof {
                assert(nodes@.take(nodes@.len() as int) =~= nodes@);
            }
        },
        None => {},
    }
    r
}

/// The name a new backup gets: the name typed, or `未命名备份` when none was.
pub fn backup_name_or_default(name: String) -> (r: String)
    ensures
        r@ == if name@.len() == 0 {
            "未命名备份"@
        } else {
            name@
        },
{
    if name.as_str().is_empty() {
        String::from_str("未命名备份")
    } else {
        name
    }
}

/// The digits of a numeral: the text after a leading `+`, if any.
pub open spec fn numeral_digits(s: Seq<char>) -> Seq<char> {
    if s.len() > 0 && s[0] == '+' {
        s.drop_first()
    } else {
        s
    }
}

/// What `str::parse::<u32>` gives for `s`: the value of an optional `+`
/// followed by one or more ASCII digits, when it fits in a `u32`.
pub open spec fn parsed_u32(s: Seq<char>) -> Option<u32> {
    let d = numeral_digits(s);
    if d.len() > 0 && (forall|i: int| 0 <= i < d.len() ==> is_digit(#[trigger] d[i])) && digits_value(d)
        <= u32::MAX {
        Some(digits_value(d) as u32)
    } else {
        None
    }
}

/// A run of digits has a value at least that of any of its prefixes.
proof fn lemma_digits_value_prefix(s: Seq<char>, k: int)
    requires
        0 <= k <= s.len(),
        forall|i: int| 0 <= i < s.len() ==> is_digit(#[trigger] s[i]),
    ensures
        digits_value(s.take(k)) <= digits_value(s),
    decreases s.len() - k,
{
    if k < s.len() {
        lemma_digits_value_prefix(s, k + 1);
        assert(s.take(k + 1).drop_last() =~= s.take(k));
        assert(is_digit(s[k]));
    } else {
        assert(s.take(k) =~= s);
    }
}

/// Reads a `u32` as `str::parse::<u32>` does (see `parsed_u32`).
pub fn parse_u32(s: &str) -> (r: Option<u32>)
    ensures
        r == parsed_u32(s@),
{
    let cs = chars_of(s);
    let mut start: usize = 0;
    if cs.len() > 0 && cs[0] == '+' {
        start = 1;
    }
    let ghost d = numeral_digits(s@);
    proof {
        assert(d =~= cs@.skip(start as int));
    }
    if start >= cs.len() {
        return None;
    }
    let mut value: u64 = 0;
    let mut i: usize = start;
    while i < cs.len()
        invariant
            cs@ == s@,
            d == numeral_digits(s@),
            d == cs@.skip(start as int),
            start <= i <= cs@.len(),
            value == digits_value(d.take(i - start)),
            value <= u32::MAX,
            forall|j: int| 0 <= j < i - start ==> is_digit(#[trigger] d[j]),
        decreases cs@.len() - i,
    {
        let c = cs[i];
        assert(d[i - start] == c);
        if !('0' <= c && c <= '9') {
            proof {
                assert(!is_digit(d[i - start]));
            }
            return None;
        }
        let digit = (c as u64) - ('0' as u64);
        proof {
            assert(d.take(i - start + 1).drop_last() =~= d.take(i - start));
        }
        let next = value * 10 + digit;
        if next > 0xffff_ffff {
            proof {
                assert(digits_value(d.take(i - start + 1)) == next);
                if forall|j: int| 0 <= j < d.len() ==> is_digit(#[trigger] d[j]) {
                    lemma_digits_value_prefix(d, i - start + 1);
                }
            }
            return None;
        }
        value = next;
        i += 1;
    }
    proof {
        assert(d.take(d.len() as int) =~= d);
    }
    Some(value as u32)
}

/// Why a typed user id is refused.
#[derive(Clone, Copy, Debug, PartialEq, Eq, Structural)]
pub enum UserIdError {
    /// The text is not a number that fits in a `u32`.
    NotANumber,
    /// The number is `0`; user ids start at `1`.
    NotPositive,
}

/// Reads the user id typed by the player: a number (see `parsed_u32`) of at
/// least `1`.
pub fn user_id_from_input(s: &str) -> (r: Result<u32, UserIdError>)
    ensures
        r == match parsed_u32(s@) {
            None => Err(UserIdError::NotANumber),
            Some(n) => if n >= 1 {
                Ok(n)
            } else {
                Err(UserIdError::NotPositive)
            },
        },
{
    match parse_u32(s) {
        None => Err(UserIdError::NotANumber),
        Some(n) => if n >= 1 {
            Ok(n)
        } else {
            Err(UserIdError::NotPositive)
        },
    }
}

} // verus!
