//! Properties of the backup trees that hold across operations.

use vstd::prelude::*;
use crate::models::{ManagerData, Node, find_in, first_index, has_free_id, has_id, is_new_root, lemma_first_index, marked_deleted};
use crate::commands::{EditPlan, RestorePlan, edit_plan_of, restore_plan_of};
use crate::tree::{
    cleaned, ids_of, is_base, is_child, is_kept, is_path, is_removable, is_step, key_of, lemma_child_reaches,
    lemma_path_prefix, lemma_path_single, lemma_path_suffix, lemma_reached_is_node,
    lemma_reaches_child, lemma_reaches_trans, lemma_unique_within, reaches,
};

verus! {

broadcast use {vstd::seq_lib::group_seq_properties, vstd::seq_lib::group_filter_ensures};

/// No two nodes share an id.
pub open spec fn ids_unique(nodes: Seq<Node>) -> bool {
    forall|i: int, j: int| 0 <= i < j < nodes.len() ==> #[trigger] nodes[i].id != #[trigger] nodes[j].id
}

/// A position that holds `d`, after positions that do not, is the first.
proof fn lemma_first_index_is(nodes: Seq<Node>, d: u32, i: int)
    requires
        0 <= i < nodes.len(),
        nodes[i].id == d,
        forall|j: int| 0 <= j < i ==> #[trigger] nodes[j].id != d,
    ensures
        first_index(nodes, d) == i,
{
    lemma_first_index(nodes, d);
    assert(has_id(nodes, d));
    let f = first_index(nodes, d);
    if f < i {
        assert(nodes[f].id == d);
    }
}

/// Looking an id up after appending a node.
pub proof fn lemma_find_in_push(s: Seq<Node>, n: Node, d: u32)
    ensures
        find_in(s.push(n), d) == if has_id(s, d) {
            find_in(s, d)
        } else if n.id == d {
            Some(n)
        } else {
            None::<Node>
        },
{
    let t = s.push(n);
    lemma_first_index(s, d);
    lemma_first_index(t, d);
    if has_id(s, d) {
        let f = first_index(s, d);
        assert forall|j: int| 0 <= j < f implies #[trigger] t[j].id != d by {
            assert(t[j] == s[j]);
        }
        lemma_first_index_is(t, d, f);
    } else if n.id == d {
        assert forall|j: int| 0 <= j < s.len() implies #[trigger] t[j].id != d by {
            assert(t[j] == s[j]);
            if s[j].id == d {
                assert(has_id(s, d));
            }
        }
        lemma_first_index_is(t, d, s.len() as int);
    } else {
        assert(!has_id(t, d)) by {
            if has_id(t, d) {
                let i = choose|i: int| 0 <= i < t.len() && #[trigger] t[i].id == d;
                if i < s.len() {
                    assert(s[i].id == d);
                }
            }
        }
    }
}

/// Filtering out no node with id `d` leaves the lookup of `d` unchanged.
pub proof fn lemma_find_in_filter(s: Seq<Node>, pred: spec_fn(Node) -> bool, d: u32)
    requires
        forall|i: int| 0 <= i < s.len() && #[trigger] s[i].id == d ==> pred(s[i]),
    ensures
        find_in(s.filter(pred), d) == find_in(s, d),
    decreases s.len(),
{
    if s.len() == 0 {
        assert(s.filter(pred).len() == 0);
        lemma_first_index(s.filter(pred), d);
        lemma_first_index(s, d);
    } else {
        let t = s.drop_last();
        let l = s.last();
        assert(t.push(l) =~= s);
        assert forall|i: int| 0 <= i < t.len() && #[trigger] t[i].id == d implies pred(t[i]) by {
            assert(s[i] == t[i]);
        }
        lemma_find_in_filter(t, pred, d);
        t.lemma_filter_push(l, pred);
        let tf = t.filter(pred);
        assert(has_id(tf, d) == has_id(t, d)) by {
            if has_id(t, d) {
                let i = choose|i: int| 0 <= i < t.len() && #[trigger] t[i].id == d;
                assert(tf.contains(t[i]));
                let k = choose|k: int| 0 <= k < tf.len() && tf[k] == t[i];
                assert(tf[k].id == d);
            }
            if has_id(tf, d) {
                let k = choose|k: int| 0 <= k < tf.len() && #[trigger] tf[k].id == d;
                assert(tf.contains(tf[k]));
                t.lemma_filter_contains_rev(pred, tf[k]);
                let i = choose|i: int| 0 <= i < t.len() && t[i] == tf[k];
                assert(t[i].id == d);
            }
        }
        lemma_find_in_push(t, l, d);
        lemma_find_in_push(tf, l, d);
        lemma_first_index(t, d);
        if pred(l) {
        } else {
            assert(l.id != d);
        }
    }
}

/// An id is kept exactly when some node has it and that node must stay for
/// its own sake or one of its children is kept; an id that no node has is
/// never kept.
pub proof fn law_kept_step(nodes: Seq<Node>, cur: i32, x: u32)
    ensures
        is_kept(nodes, cur, x) <==> has_id(nodes, x) && (is_base(nodes, cur, x) || exists|c: u32|
            #[trigger] is_child(nodes, x, c) && is_kept(nodes, cur, c)),
        !has_id(nodes, x) ==> !is_kept(nodes, cur, x),
{
    if is_kept(nodes, cur, x) {
        let d = choose|d: u32| #[trigger] reaches(nodes, x, d) && is_base(nodes, cur, d);
        let p = choose|p: Seq<u32>| #[trigger] is_path(nodes, p) && p[0] == x && p.last() == d;
        if p.len() > 1 {
            let c = p[1];
            assert(is_step(nodes, p, 0));
            lemma_path_suffix(nodes, p, 1);
            let q = p.subrange(1, p.len() as int);
            assert(q[0] == c && q.last() == d);
            assert(reaches(nodes, c, d));
            assert(is_kept(nodes, cur, c));
        }
    }
    if is_base(nodes, cur, x) {
        lemma_path_single(nodes, x);
        lemma_first_index(nodes, x);
    }
    if exists|c: u32| #[trigger] is_child(nodes, x, c) && is_kept(nodes, cur, c) {
        let c = choose|c: u32| #[trigger] is_child(nodes, x, c) && is_kept(nodes, cur, c);
        let d = choose|d: u32| #[trigger] reaches(nodes, c, d) && is_base(nodes, cur, d);
        lemma_child_reaches(nodes, x, c, d);
    }
}

/// What cleaning removes is never the root, never the current node, and
/// never a node whose backup file still exists.
pub proof fn law_removed_nodes_are_dead_backups(nodes: Seq<Node>, cur: i32, x: u32)
    requires
        is_removable(nodes, cur, x),
    ensures
        x != 0,
        find_in(nodes, x) is Some,
        find_in(nodes, x).unwrap().file_deleted,
        cur == -1 || key_of(x) != cur,
{
    lemma_reached_is_node(nodes, 0, x);
    lemma_first_index(nodes, x);
    let i = choose|i: int| 0 <= i < nodes.len() && #[trigger] nodes[i].id == x;
    assert(has_id(nodes, x));
    lemma_path_single(nodes, x);
    assert(!is_base(nodes, cur, x));
}

/// Cleaning removes whole subtrees: below a removed node, every node is
/// removed too.
pub proof fn law_removal_takes_subtrees(nodes: Seq<Node>, cur: i32, x: u32, c: u32)
    requires
        is_removable(nodes, cur, x),
        is_child(nodes, x, c),
    ensures
        is_removable(nodes, cur, c),
{
    lemma_reaches_child(nodes, 0, x, c);
    lemma_reached_is_node(nodes, 0, x);
    law_kept_step(nodes, cur, x);
    if c == 0 {
        let i = choose|i: int| 0 <= i < nodes.len() && #[trigger] nodes[i].parent_id == key_of(x) && nodes[i].id == c;
        assert(has_id(nodes, 0));
        lemma_first_index(nodes, 0);
        lemma_path_single(nodes, 0);
        assert(is_base(nodes, cur, 0));
        assert(is_kept(nodes, cur, c));
    }
}

/// A child edge of a filtered tree is a child edge of the tree.
proof fn lemma_child_of_filter(nodes: Seq<Node>, pred: spec_fn(Node) -> bool, a: u32, b: u32)
    requires
        is_child(nodes.filter(pred), a, b),
    ensures
        is_child(nodes, a, b),
{
    let f = nodes.filter(pred);
    let i = choose|i: int| 0 <= i < f.len() && #[trigger] f[i].parent_id == key_of(a) && f[i].id == b;
    assert(f.contains(f[i]));
    nodes.lemma_filter_contains_rev(pred, f[i]);
    let j = choose|j: int| 0 <= j < nodes.len() && nodes[j] == f[i];
    assert(nodes[j].parent_id == key_of(a));
}

/// A path of a filtered tree is a path of the tree.
proof fn lemma_path_of_filter(nodes: Seq<Node>, pred: spec_fn(Node) -> bool, p: Seq<u32>)
    requires
        is_path(nodes.filter(pred), p),
    ensures
        is_path(nodes, p),
{
    assert forall|k: int| 0 <= k < p.len() - 1 implies #[trigger] is_step(nodes, p, k) by {
        assert(is_step(nodes.filter(pred), p, k));
        lemma_child_of_filter(nodes, pred, p[k], p[k + 1]);
    }
}

/// Cleaning a cleaned tree removes nothing: after one cleaning no node is
/// removable.
pub proof fn law_clean_is_idempotent(nodes: Seq<Node>, cur: i32, x: u32)
    ensures
        !is_removable(cleaned(nodes, cur), cur, x),
{
    let pred = |n: Node| !is_removable(nodes, cur, n.id);
    let c = cleaned(nodes, cur);
    assert(c == nodes.filter(pred));
    if is_removable(c, cur, x) {
        // x lies below the root in the cleaned tree, so it is a kept node of the tree.
        let p = choose|p: Seq<u32>| #[trigger] is_path(c, p) && p[0] == 0 && p.last() == x;
        lemma_path_of_filter(nodes, pred, p);
        assert(reaches(nodes, 0, x));
        assert(is_step(c, p, p.len() - 2));
        let i = choose|i: int| 0 <= i < c.len() && #[trigger] c[i].parent_id == key_of(p[p.len() - 2]) && c[i].id == x;
        assert(pred(c[i]));
        assert(has_id(c, x));
        assert(is_kept(nodes, cur, x));
        let d = choose|d: u32| #[trigger] reaches(nodes, x, d) && is_base(nodes, cur, d);
        let q = choose|q: Seq<u32>| #[trigger] is_path(nodes, q) && q[0] == x && q.last() == d;
        // Every node of the path from x to d stays, so the path stays.
        assert forall|k: int| 0 <= k < q.len() - 1 implies #[trigger] is_step(c, q, k) by {
            assert(is_step(nodes, q, k));
            let y = q[k + 1];
            let j = choose|j: int| 0 <= j < nodes.len() && #[trigger] nodes[j].parent_id == key_of(q[k]) && nodes[j].id == y;
            lemma_path_prefix(nodes, q, k + 1);
            assert(q.subrange(0, k + 2).last() == y);
            assert(reaches(nodes, x, y));
            lemma_reaches_trans(nodes, 0, x, y);
            lemma_path_suffix(nodes, q, k + 1);
            assert(q.subrange(k + 1, q.len() as int)[0] == y);
            assert(reaches(nodes, y, d));
            assert(is_kept(nodes, cur, y));
            assert(pred(nodes[j]));
            assert(c.contains(nodes[j]));
            let m = choose|m: int| 0 <= m < c.len() && c[m] == nodes[j];
            assert(c[m].parent_id == key_of(q[k]) && c[m].id == y);
        }
        assert(is_path(c, q));
        // The node that decides whether d stays is the same in both trees.
        assert forall|j: int| 0 <= j < nodes.len() && #[trigger] nodes[j].id == d implies pred(nodes[j]) by {
            if d != 0 {
                lemma_path_single(nodes, d);
                assert(is_kept(nodes, cur, d));
            }
        }
        lemma_find_in_filter(nodes, pred, d);
        assert(is_base(c, cur, d));
        assert(reaches(c, x, d));
        assert(is_kept(c, cur, x));
    }
}

/// Cleaning cuts no surviving node off the root: a node that the root
/// reached before cleaning, and that cleaning keeps, the root still reaches
/// in the cleaned tree.
pub proof fn law_clean_keeps_reachable(nodes: Seq<Node>, cur: i32, x: u32)
    requires
        reaches(nodes, 0, x),
        !is_removable(nodes, cur, x),
    ensures
        reaches(cleaned(nodes, cur), 0, x),
{
    let pred = |n: Node| !is_removable(nodes, cur, n.id);
    let c = cleaned(nodes, cur);
    assert(c == nodes.filter(pred));
    let p = choose|p: Seq<u32>| #[trigger] is_path(nodes, p) && p[0] == 0 && p.last() == x;
    if x == 0 {
        lemma_path_single(c, 0);
    } else {
        // x is kept, so is every node on the way down to it, and so is each edge.
        assert(is_kept(nodes, cur, x));
        let d = choose|d: u32| #[trigger] reaches(nodes, x, d) && is_base(nodes, cur, d);
        assert forall|k: int| 0 <= k < p.len() - 1 implies #[trigger] is_step(c, p, k) by {
            assert(is_step(nodes, p, k));
            let y = p[k + 1];
            let j = choose|j: int| 0 <= j < nodes.len() && #[trigger] nodes[j].parent_id == key_of(p[k]) && nodes[j].id == y;
            lemma_path_prefix(nodes, p, k + 1);
            assert(p.subrange(0, k + 2).last() == y);
            assert(reaches(nodes, 0, y));
            lemma_path_suffix(nodes, p, k + 1);
            assert(p.subrange(k + 1, p.len() as int)[0] == y);
            assert(p.subrange(k + 1, p.len() as int).last() == x);
            assert(reaches(nodes, y, x));
            lemma_reaches_trans(nodes, y, x, d);
            assert(has_id(nodes, y));
            assert(is_kept(nodes, cur, y));
            assert(pred(nodes[j]));
            assert(c.contains(nodes[j]));
            let m = choose|m: int| 0 <= m < c.len() && c[m] == nodes[j];
            assert(c[m].parent_id == key_of(p[k]) && c[m].id == y);
        }
        assert(is_path(c, p));
    }
}

/// A new node whose id is the least free one keeps the ids unique.
pub proof fn law_fresh_id_keeps_ids_unique(nodes: Seq<Node>, n: Node)
    requires
        ids_unique(nodes),
        !has_id(nodes, n.id),
    ensures
        ids_unique(nodes.push(n)),
{
    let t = nodes.push(n);
    assert forall|i: int, j: int| 0 <= i < j < t.len() implies #[trigger] t[i].id != #[trigger] t[j].id by {
        if j == nodes.len() {
            assert(t[i] == nodes[i]);
            if nodes[i].id == n.id {
                assert(has_id(nodes, n.id));
            }
        } else {
            assert(t[i] == nodes[i] && t[j] == nodes[j]);
        }
    }
}

/// Filtering keeps the ids unique.
pub proof fn lemma_filter_keeps_ids_unique(nodes: Seq<Node>, pred: spec_fn(Node) -> bool)
    requires
        ids_unique(nodes),
    ensures
        ids_unique(nodes.filter(pred)),
    decreases nodes.len(),
{
    if nodes.len() > 0 {
        let t = nodes.drop_last();
        let l = nodes.last();
        assert(t.push(l) =~= nodes);
        assert(ids_unique(t)) by {
            assert forall|i: int, j: int| 0 <= i < j < t.len() implies #[trigger] t[i].id != #[trigger] t[j].id by {
                assert(t[i] == nodes[i] && t[j] == nodes[j]);
            }
        }
        lemma_filter_keeps_ids_unique(t, pred);
        t.lemma_filter_push(l, pred);
        if pred(l) {
            let tf = t.filter(pred);
            assert(!has_id(tf, l.id)) by {
                if has_id(tf, l.id) {
                    let k = choose|k: int| 0 <= k < tf.len() && #[trigger] tf[k].id == l.id;
                    assert(tf.contains(tf[k]));
                    t.lemma_filter_contains_rev(pred, tf[k]);
                    let i = choose|i: int| 0 <= i < t.len() && t[i] == tf[k];
                    assert(nodes[i].id == nodes[nodes.len() - 1].id);
                }
            }
            law_fresh_id_keeps_ids_unique(tf, l);
        }
    } else {
        assert(nodes.filter(pred).len() == 0);
    }
}

/// Cleaning keeps the ids of a tree unique.
pub proof fn law_clean_keeps_ids_unique(nodes: Seq<Node>, cur: i32)
    requires
        ids_unique(nodes),
    ensures
        ids_unique(cleaned(nodes, cur)),
{
    lemma_filter_keeps_ids_unique(nodes, |n: Node| !is_removable(nodes, cur, n.id));
}

/// A node changed in place through `find_node_mut`, keeping its id, is what
/// `find_node` then gives for that id.
pub proof fn law_update_then_find(old: ManagerData, new: ManagerData, game_id: u32, node_id: u32, n: Node)
    requires
        old.spec_find_node(game_id, node_id) is Some,
        old.only_game_changed(new, game_id),
        new.data@[game_id].nodes@ == old.data@[game_id].nodes@.update(
            first_index(old.data@[game_id].nodes@, node_id),
            n,
        ),
        n.id == node_id,
    ensures
        new.spec_find_node(game_id, node_id) == Some(n),
{
    let s = old.data@[game_id].nodes@;
    let t = new.data@[game_id].nodes@;
    lemma_first_index(s, node_id);
    let f = first_index(s, node_id);
    assert forall|j: int| 0 <= j < f implies #[trigger] t[j].id != node_id by {
        assert(t[j] == s[j]);
    }
    lemma_first_index_is(t, node_id, f);
}

/// After the current node is set, reading it gives it back.
pub proof fn law_current_parent_read_back(old: ManagerData, new: ManagerData, game_id: u32, parent_id: i32)
    requires
        old.only_game_changed(new, game_id),
        new.data@[game_id].cur == parent_id,
    ensures
        (new.game(game_id) matches Some(g) && g.cur == parent_id),
{
}

/// Once `get_root_id` has run, `find_node` finds under id `0` the new root
/// of a game that had no data, and the same node as before otherwise.
pub proof fn law_root_found_after_get_root_id(old: ManagerData, new: ManagerData, game_id: u32)
    requires
        old.only_game_changed(new, game_id),
        old.is_start_of(game_id, new.data@[game_id].nodes@, new.data@[game_id].cur),
    ensures
        old.game(game_id) is None ==> (new.spec_find_node(game_id, 0) matches Some(r) && is_new_root(r)),
        old.game(game_id) is Some ==> new.spec_find_node(game_id, 0) == old.spec_find_node(game_id, 0),
{
    let t = new.data@[game_id].nodes@;
    if old.game(game_id) is None {
        lemma_first_index_is(t, 0, 0);
    }
}

/// A game with fewer than `u32::MAX` nodes has a free positive id, so a node
/// can be added to it.
pub proof fn law_short_game_has_free_id(nodes: Seq<Node>)
    requires
        nodes.len() < u32::MAX,
    ensures
        has_free_id(nodes),
{
    let n = nodes.len();
    let s = Seq::new((n + 1) as nat, |i: int| (i + 1) as u32);
    if !has_free_id(nodes) {
        assert forall|i: int| 0 <= i < s.len() implies ids_of(nodes).contains(#[trigger] s[i]) by {
            let k = s[i];
            assert(k >= 1);
            assert(has_id(nodes, k));
            let j = choose|j: int| 0 <= j < nodes.len() && #[trigger] nodes[j].id == k;
            assert(ids_of(nodes)[j] == k);
        }
        assert(s.no_duplicates());
        lemma_unique_within(s, ids_of(nodes));
    }
}

/// Position `k` holds the first node of `nodes` with id `id`.
pub open spec fn is_first_with_id(nodes: Seq<Node>, id: u32, k: int) -> bool {
    &&& 0 <= k < nodes.len()
    &&& nodes[k].id == id
    &&& forall|j: int| 0 <= j < k ==> #[trigger] nodes[j].id != id
}

/// Cleaning removes every node below the root that nothing keeps: a node
/// other than the root, reached from the root, such that no node at or below
/// it is the root, the current node, or the first node of its id with its
/// backup file present, is removed.  In particular a deleted backup that is
/// not current and has no child is removed.
pub proof fn law_dead_subtree_is_removed(nodes: Seq<Node>, cur: i32, x: u32)
    requires
        reaches(nodes, 0, x),
        x != 0,
        forall|d: u32| #[trigger] reaches(nodes, x, d) ==> d != 0 && (cur == -1 || key_of(d) != cur),
        forall|d: u32, k: int| reaches(nodes, x, d) && #[trigger] is_first_with_id(nodes, d, k) ==> nodes[k].file_deleted,
    ensures
        is_removable(nodes, cur, x),
{
    if is_kept(nodes, cur, x) {
        let d = choose|d: u32| #[trigger] reaches(nodes, x, d) && is_base(nodes, cur, d);
        lemma_first_index(nodes, d);
        let k = first_index(nodes, d);
        assert(is_first_with_id(nodes, d, k));
    }
}

/// Cleaning keeps every node at or above a node that must stay: a node with
/// an id, from which a node is reached that is the root, the current node, or
/// the first node of its id with its backup file present, is not removed.
pub proof fn law_live_below_is_kept(nodes: Seq<Node>, cur: i32, x: u32, d: u32, k: int)
    requires
        has_id(nodes, x),
        reaches(nodes, x, d),
        is_first_with_id(nodes, d, k),
        d == 0 || (cur != -1 && key_of(d) == cur) || !nodes[k].file_deleted,
    ensures
        !is_removable(nodes, cur, x),
{
    lemma_first_index_is(nodes, d, k);
    assert(is_base(nodes, cur, d));
}

/// Restoring is decided by the node with the requested id: the node is not
/// found exactly when the game has no node with that id; otherwise, for the
/// first node with that id, a deleted backup cannot be restored, the root
/// clears the save, and any other node has its backup copied.
pub proof fn law_restore_follows_the_node(data: ManagerData, game_id: u32, node_id: u32, k: int)
    ensures
        restore_plan_of(data, game_id, node_id) == RestorePlan::NodeNotFound <==> !data.data@.contains_key(game_id)
            || !has_id(data.data@[game_id].nodes@, node_id),
        data.data@.contains_key(game_id) && is_first_with_id(data.data@[game_id].nodes@, node_id, k) ==> restore_plan_of(
            data,
            game_id,
            node_id,
        ) == if data.data@[game_id].nodes@[k].file_deleted {
            RestorePlan::BackupDeleted
        } else if node_id == 0 {
            RestorePlan::ClearGameFile
        } else {
            RestorePlan::CopyBackup
        },
{
    if data.data@.contains_key(game_id) {
        let nodes = data.data@[game_id].nodes@;
        lemma_first_index(nodes, node_id);
        if is_first_with_id(nodes, node_id, k) {
            lemma_first_index_is(nodes, node_id, k);
        }
    }
}

/// Only the root is refused an edit: the node is not found exactly when the
/// game has no node with that id; otherwise the first node with that id is
/// refused exactly when it has no parent (`parent_id` is `-1`), and any
/// other node, a child of the root among them, may be changed.
pub proof fn law_edit_refuses_only_the_root(data: ManagerData, game_id: u32, node_id: u32, k: int)
    ensures
        edit_plan_of(data, game_id, node_id) == EditPlan::NodeNotFound <==> !data.data@.contains_key(game_id)
            || !has_id(data.data@[game_id].nodes@, node_id),
        data.data@.contains_key(game_id) && is_first_with_id(data.data@[game_id].nodes@, node_id, k) ==> edit_plan_of(
            data,
            game_id,
            node_id,
        ) == if data.data@[game_id].nodes@[k].parent_id == -1 {
            EditPlan::RootNode
        } else {
            EditPlan::Proceed
        },
{
    if data.data@.contains_key(game_id) {
        let nodes = data.data@[game_id].nodes@;
        lemma_first_index(nodes, node_id);
        if is_first_with_id(nodes, node_id, k) {
            lemma_first_index_is(nodes, node_id, k);
        }
    }
}

/// Marking a node deleted changes only the first node with its id, and of
/// it only the deleted flag: every other node keeps its place and value, and
/// nothing changes when no node has the id.
pub proof fn law_marking_changes_only_that_node(nodes: Seq<Node>, id: u32)
    ensures
        marked_deleted(nodes, id).len() == nodes.len(),
        forall|k: int| 0 <= k < nodes.len() && !#[trigger] is_first_with_id(nodes, id, k) ==> marked_deleted(nodes, id)[k] == nodes[k],
        forall|k: int| #[trigger] is_first_with_id(nodes, id, k) ==> marked_deleted(nodes, id)[k] == (Node {
            file_deleted: true,
            ..nodes[k]
        }),
        !has_id(nodes, id) ==> marked_deleted(nodes, id) == nodes,
{
    lemma_first_index(nodes, id);
    let f = first_index(nodes, id);
    if f >= 0 {
        assert(is_first_with_id(nodes, id, f));
        assert forall|k: int| #[trigger] is_first_with_id(nodes, id, k) implies k == f by {
            if k < f {
                assert(nodes[k].id != id);
            } else if k > f {
                assert(nodes[f].id != id);
            }
        }
    }
}

} // verus!
