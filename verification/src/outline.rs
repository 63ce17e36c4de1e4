//! The order in which a backup tree is shown: each node, then its children
//! in order, each with its own subtree, one level deeper.

use vstd::prelude::*;
use crate::models::{ManagerData, Node, first_index, index_in_vec, lemma_first_index};
use crate::tree::{key_of, parent_key};
use crate::laws::is_first_with_id;

verus! {

/// One line of a shown tree: node `index` (a position in the game's nodes)
/// at depth `depth`; `closing` marks the point after its subtree.
#[derive(Clone, Copy, Debug, PartialEq, Eq, Structural)]
pub struct TreeRow {
    pub depth: usize,
    pub index: usize,
    pub closing: bool,
}

/// The position shown for the child at position `j`: the child itself, or,
/// when children are looked up by id, the first node with the child's id.
pub open spec fn shown_index(nodes: Seq<Node>, j: int, follow_ids: bool) -> int {
    if follow_ids {
        first_index(nodes, nodes[j].id)
    } else {
        j
    }
}

/// The rows of the subtree of node `i`, `fuel` levels deep at most.
pub open spec fn walk(nodes: Seq<Node>, i: int, depth: nat, fuel: nat, follow_ids: bool) -> Seq<TreeRow>
    decreases fuel, 0int, 0int,
{
    if fuel == 0 {
        Seq::empty()
    } else {
        seq![TreeRow { depth: depth as usize, index: i as usize, closing: false }] + walk_children(
            nodes,
            key_of(nodes[i].id),
            0,
            depth + 1,
            (fuel - 1) as nat,
            follow_ids,
        ) + seq![TreeRow { depth: depth as usize, index: i as usize, closing: true }]
    }
}

/// The rows of the subtrees of the nodes at positions `j..` whose parent is `key`.
pub open spec fn walk_children(
    nodes: Seq<Node>,
    key: i32,
    j: int,
    depth: nat,
    fuel: nat,
    follow_ids: bool,
) -> Seq<TreeRow>
    decreases fuel, 1int, nodes.len() - j,
{
    if j < 0 || j >= nodes.len() {
        Seq::empty()
    } else {
        (if nodes[j].parent_id == key {
            walk(nodes, shown_index(nodes, j, follow_ids), depth, fuel, follow_ids)
        } else {
            Seq::empty()
        }) + walk_children(nodes, key, j + 1, depth, fuel, follow_ids)
    }
}

/// Appends the rows of the subtree of node `i` (see `walk`).
fn walk_into(
    nodes: &Vec<Node>,
    i: usize,
    depth: usize,
    fuel: usize,
    follow_ids: bool,
    out: &mut Vec<TreeRow>,
)
    requires
        i < nodes@.len(),
        depth + fuel <= usize::MAX,
    ensures
        final(out)@ == old(out)@ + walk(nodes@, i as int, depth as nat, fuel as nat, follow_ids),
    decreases fuel, 0int, 0int,
{
    if fuel == 0 {
        proof {
            assert(old(out)@ + Seq::<TreeRow>::empty() =~= old(out)@);
        }
        return;
    }
    let ghost start = out@;
    out.push(TreeRow { depth, index: i, closing: false });
    let key = parent_key(nodes[i].id);
    walk_children_into(nodes, key, 0, depth + 1, fuel - 1, follow_ids, out);
    out.push(TreeRow { depth, index: i, closing: true });
    proof {
        assert(out@ =~= start + walk(nodes@, i as int, depth as nat, fuel as nat, follow_ids));
    }
}

/// Appends the rows of the subtrees of the nodes at positions `j..` whose
/// parent is `key` (see `walk_children`).
fn walk_children_into(
    nodes: &Vec<Node>,
    key: i32,
    j: usize,
    depth: usize,
    fuel: usize,
    follow_ids: bool,
    out: &mut Vec<TreeRow>,
)
    requires
        j <= nodes@.len(),
        depth + fuel <= usize::MAX,
    ensures
        final(out)@ == old(out)@ + walk_children(nodes@, key, j as int, depth as nat, fuel as nat, follow_ids),
    decreases fuel, 1int, nodes@.len() - j,
{
    if j >= nodes.len() {
        proof {
            assert(old(out)@ + Seq::<TreeRow>::empty() =~= old(out)@);
        }
        return;
    }
    let ghost start = out@;
    if nodes[j].parent_id == key {
        let target = if follow_ids {
            proof {
                lemma_first_index(nodes@, nodes@[j as int].id);
                assert(crate::models::has_id(nodes@, nodes@[j as int].id));
            }
            match index_in_vec(nodes, nodes[j].id) {
                Some(t) => t,
                None => j,
            }
        } else {
            j
        };
        walk_into(nodes, target, depth, fuel, follow_ids, out);
    }
    let ghost mid = out@;
    walk_children_into(nodes, key, j + 1, depth, fuel, follow_ids, out);
    proof {
        assert(out@ =~= start + walk_children(nodes@, key, j as int, depth as nat, fuel as nat, follow_ids));
    }
}

impl ManagerData {
    /// The rows of the subtree of the first node of game `game_id` with id
    /// `node_id`, as many levels deep as the game has nodes; each
    /// child is shown as found by its id when `follow_ids` is set, else as
    /// itself.  No rows when the game or the node is missing.
    pub fn tree_rows(&self, game_id: u32, node_id: u32, follow_ids: bool) -> (r: Vec<TreeRow>)
        ensures
            r@ == match self.game(game_id) {
                Some(g) => {
                    let i = first_index(g.nodes@, node_id);
                    if i >= 0 {
                        walk(g.nodes@, i, 0, g.nodes@.len(), follow_ids)
                    } else {
                        Seq::empty()
                    }
                },
                None => Seq::empty(),
            },
    {
        let mut out: Vec<TreeRow> = Vec::new();
        match self.data.get(&game_id) {
            Some(g) => {
                match index_in_vec(&g.nodes, node_id) {
                    Some(i) => {
                        let fuel = g.nodes.len();
                        walk_into(&g.nodes, i, 0, fuel, follow_ids, &mut out);
                        proof {
                            assert(Seq::<TreeRow>::empty() + walk(g.nodes@, i as int, 0, fuel as nat, follow_ids)
                                =~= out@);
                        }
                    },
                    None => {},
                }
            },
            None => {},
        }
        out
    }
}

/// Node `t` is shown as a child of node `i`.
pub open spec fn shown_child(nodes: Seq<Node>, i: int, t: int, follow_ids: bool) -> bool {
    exists|j: int|
        0 <= j < nodes.len() && #[trigger] nodes[j].parent_id == key_of(nodes[i].id) && shown_index(
            nodes,
            j,
            follow_ids,
        ) == t
}

/// Step `k` of `c` goes from a node to a node shown as its child.
pub open spec fn is_chain_step(nodes: Seq<Node>, c: Seq<int>, k: int, follow_ids: bool) -> bool {
    shown_child(nodes, c[k], c[k + 1], follow_ids)
}

/// `c` is a chain of positions, each shown as a child of the one before.
pub open spec fn is_chain(nodes: Seq<Node>, c: Seq<int>, follow_ids: bool) -> bool {
    &&& c.len() >= 1
    &&& forall|k: int| 0 <= k < c.len() - 1 ==> #[trigger] is_chain_step(nodes, c, k, follow_ids)
    &&& forall|k: int| 0 <= k < c.len() ==> 0 <= #[trigger] c[k] < nodes.len()
}

/// No node is shown below itself.
pub open spec fn shown_acyclic(nodes: Seq<Node>, follow_ids: bool) -> bool {
    forall|c: Seq<int>| #[trigger] is_chain(nodes, c, follow_ids) && c.len() >= 2 ==> c[0] != c.last()
}

/// `fuel` levels are enough to show the whole subtree of node `i`.
pub open spec fn fuel_enough(nodes: Seq<Node>, i: int, fuel: nat, follow_ids: bool) -> bool
    decreases fuel,
{
    fuel > 0 && forall|j: int|
        0 <= j < nodes.len() && #[trigger] nodes[j].parent_id == key_of(nodes[i].id) ==> fuel_enough(
            nodes,
            shown_index(nodes, j, follow_ids),
            (fuel - 1) as nat,
            follow_ids,
        )
}

/// The position shown for a child is a position of the nodes.
proof fn lemma_shown_index_valid(nodes: Seq<Node>, j: int, follow_ids: bool)
    requires
        0 <= j < nodes.len(),
    ensures
        0 <= shown_index(nodes, j, follow_ids) < nodes.len(),
{
    lemma_first_index(nodes, nodes[j].id);
    assert(crate::models::has_id(nodes, nodes[j].id));
}

/// With enough fuel, more fuel shows the same rows.
proof fn lemma_walk_stable(nodes: Seq<Node>, i: int, depth: nat, fuel: nat, more: nat, follow_ids: bool)
    requires
        fuel_enough(nodes, i, fuel, follow_ids),
        fuel <= more,
    ensures
        walk(nodes, i, depth, more, follow_ids) == walk(nodes, i, depth, fuel, follow_ids),
    decreases fuel, 0int, 0int,
{
    lemma_walk_children_stable(nodes, i, 0, depth + 1, (fuel - 1) as nat, (more - 1) as nat, follow_ids);
}

/// With enough fuel for each child, more fuel shows the same rows of the
/// children at positions `j..`.
proof fn lemma_walk_children_stable(
    nodes: Seq<Node>,
    i: int,
    j: int,
    depth: nat,
    fuel: nat,
    more: nat,
    follow_ids: bool,
)
    requires
        forall|k: int|
            0 <= k < nodes.len() && #[trigger] nodes[k].parent_id == key_of(nodes[i].id) ==> fuel_enough(
                nodes,
                shown_index(nodes, k, follow_ids),
                fuel,
                follow_ids,
            ),
        fuel <= more,
        0 <= j,
    ensures
        walk_children(nodes, key_of(nodes[i].id), j, depth, more, follow_ids) == walk_children(
            nodes,
            key_of(nodes[i].id),
            j,
            depth,
            fuel,
            follow_ids,
        ),
    decreases fuel, 1int, nodes.len() - j,
{
    if j < nodes.len() {
        if nodes[j].parent_id == key_of(nodes[i].id) {
            lemma_walk_stable(nodes, shown_index(nodes, j, follow_ids), depth, fuel, more, follow_ids);
        }
        lemma_walk_children_stable(nodes, i, j + 1, depth, fuel, more, follow_ids);
    }
}

/// When `fuel` levels are not enough below node `i`, a chain of `fuel + 1`
/// positions starts at `i`.
proof fn lemma_chain_from_shortfall(nodes: Seq<Node>, i: int, fuel: nat, follow_ids: bool) -> (c: Seq<int>)
    requires
        0 <= i < nodes.len(),
        !fuel_enough(nodes, i, fuel, follow_ids),
    ensures
        is_chain(nodes, c, follow_ids),
        c.len() == fuel + 1,
        c[0] == i,
    decreases fuel,
{
    if fuel == 0 {
        seq![i]
    } else {
        let j = choose|j: int|
            0 <= j < nodes.len() && #[trigger] nodes[j].parent_id == key_of(nodes[i].id) && !fuel_enough(
                nodes,
                shown_index(nodes, j, follow_ids),
                (fuel - 1) as nat,
                follow_ids,
            );
        let t = shown_index(nodes, j, follow_ids);
        lemma_shown_index_valid(nodes, j, follow_ids);
        let rest = lemma_chain_from_shortfall(nodes, t, (fuel - 1) as nat, follow_ids);
        let c = seq![i] + rest;
        assert forall|k: int| 0 <= k < c.len() - 1 implies #[trigger] is_chain_step(nodes, c, k, follow_ids) by {
            if k == 0 {
                assert(shown_child(nodes, i, t, follow_ids));
            } else {
                assert(is_chain_step(nodes, rest, k - 1, follow_ids));
            }
        }
        assert forall|k: int| 0 <= k < c.len() implies 0 <= #[trigger] c[k] < nodes.len() by {
            if k > 0 {
                assert(c[k] == rest[k - 1]);
            }
        }
        c
    }
}

/// A sequence of more than `n` positions below `n` repeats one.
proof fn lemma_positions_repeat(c: Seq<int>, n: nat)
    requires
        c.len() > n,
        forall|k: int| 0 <= k < c.len() ==> 0 <= #[trigger] c[k] < n,
    ensures
        exists|a: int, b: int| 0 <= a < b < c.len() && c[a] == c[b],
{
    if !(exists|a: int, b: int| 0 <= a < b < c.len() && c[a] == c[b]) {
        assert(c.no_duplicates()) by {
            assert forall|a: int, b: int| 0 <= a < c.len() && 0 <= b < c.len() && a != b implies c[a] != c[b] by {
                if a < b {
                    assert(!(c[a] == c[b]));
                } else {
                    assert(!(c[b] == c[a]));
                }
            }
        }
        c.unique_seq_to_set();
        vstd::set_lib::lemma_int_range(0, n as int);
        assert(c.to_set().subset_of(vstd::set_lib::set_int_range(0, n as int)));
        vstd::set_lib::lemma_len_subset(c.to_set(), vstd::set_lib::set_int_range(0, n as int));
    }
}

/// When no node is shown below itself, as many levels as there are nodes
/// show the whole subtree of any node: more levels show the same rows.
pub proof fn law_rows_show_whole_subtrees(nodes: Seq<Node>, i: int, depth: nat, more: nat, follow_ids: bool)
    requires
        shown_acyclic(nodes, follow_ids),
        0 <= i < nodes.len(),
        more >= nodes.len(),
    ensures
        walk(nodes, i, depth, more, follow_ids) == walk(nodes, i, depth, nodes.len(), follow_ids),
{
    if !fuel_enough(nodes, i, nodes.len(), follow_ids) {
        let c = lemma_chain_from_shortfall(nodes, i, nodes.len(), follow_ids);
        lemma_positions_repeat(c, nodes.len());
        let (a, b) = choose|a: int, b: int| 0 <= a < b < c.len() && c[a] == c[b];
        let d = c.subrange(a, b + 1);
        assert forall|k: int| 0 <= k < d.len() - 1 implies #[trigger] is_chain_step(nodes, d, k, follow_ids) by {
            assert(is_chain_step(nodes, c, a + k, follow_ids));
        }
        assert(is_chain(nodes, d, follow_ids));
        assert(d[0] == d.last());
    }
    lemma_walk_stable(nodes, i, depth, nodes.len(), more, follow_ids);
}

/// The opening row of node `i` at depth `depth`.
pub open spec fn opening_row(i: int, depth: int) -> TreeRow {
    TreeRow { depth: depth as usize, index: i as usize, closing: false }
}

/// Each row of the subtree of a child at position `j >= j0` whose parent is
/// `key` is a row of the subtrees of the children from `j0` on.
proof fn lemma_child_rows_in_children(
    nodes: Seq<Node>,
    key: i32,
    j0: int,
    j: int,
    depth: nat,
    fuel: nat,
    follow_ids: bool,
    r: TreeRow,
)
    requires
        0 <= j0 <= j < nodes.len(),
        nodes[j].parent_id == key,
        walk(nodes, shown_index(nodes, j, follow_ids), depth, fuel, follow_ids).contains(r),
    ensures
        walk_children(nodes, key, j0, depth, fuel, follow_ids).contains(r),
    decreases j - j0,
{
    let head = if nodes[j0].parent_id == key {
        walk(nodes, shown_index(nodes, j0, follow_ids), depth, fuel, follow_ids)
    } else {
        Seq::empty()
    };
    let rest = walk_children(nodes, key, j0 + 1, depth, fuel, follow_ids);
    assert(walk_children(nodes, key, j0, depth, fuel, follow_ids) == head + rest);
    if j0 == j {
        let m = choose|m: int| 0 <= m < head.len() && head[m] == r;
        assert((head + rest)[m] == r);
    } else {
        lemma_child_rows_in_children(nodes, key, j0 + 1, j, depth, fuel, follow_ids, r);
        let m = choose|m: int| 0 <= m < rest.len() && rest[m] == r;
        assert((head + rest)[head.len() + m] == r);
    }
}

/// Every node at the end of a chain of shown children from node `c[0]` that
/// `fuel` levels reach has its opening row in the rows of `c[0]`, at the depth
/// of its place in the chain, whatever its flags: no child is left out.
pub proof fn law_rows_show_every_child(nodes: Seq<Node>, c: Seq<int>, depth: nat, fuel: nat, follow_ids: bool)
    requires
        is_chain(nodes, c, follow_ids),
        c.len() <= fuel,
    ensures
        walk(nodes, c[0], depth, fuel, follow_ids).contains(opening_row(c.last(), depth + c.len() - 1)),
    decreases c.len(),
{
    let i = c[0];
    let w = walk(nodes, i, depth, fuel, follow_ids);
    let kids = walk_children(nodes, key_of(nodes[i].id), 0, depth + 1, (fuel - 1) as nat, follow_ids);
    let open = seq![TreeRow { depth: depth as usize, index: i as usize, closing: false }];
    let close = seq![TreeRow { depth: depth as usize, index: i as usize, closing: true }];
    assert(w == open + kids + close);
    if c.len() == 1 {
        assert(w[0] == opening_row(c.last(), depth + c.len() - 1));
    } else {
        let rest = c.drop_first();
        assert(is_chain(nodes, rest, follow_ids)) by {
            assert forall|k: int| 0 <= k < rest.len() - 1 implies #[trigger] is_chain_step(nodes, rest, k, follow_ids) by {
                assert(is_chain_step(nodes, c, k + 1, follow_ids));
            }
            assert forall|k: int| 0 <= k < rest.len() implies 0 <= #[trigger] rest[k] < nodes.len() by {
                assert(rest[k] == c[k + 1]);
            }
        }
        law_rows_show_every_child(nodes, rest, depth + 1, (fuel - 1) as nat, follow_ids);
        let r = opening_row(c.last(), depth + c.len() - 1);
        assert(rest.last() == c.last());
        assert(opening_row(rest.last(), depth + 1 + rest.len() - 1) == r);
        assert(is_chain_step(nodes, c, 0, follow_ids));
        let j = choose|j: int|
            0 <= j < nodes.len() && #[trigger] nodes[j].parent_id == key_of(nodes[i].id) && shown_index(
                nodes,
                j,
                follow_ids,
            ) == c[1];
        lemma_child_rows_in_children(nodes, key_of(nodes[i].id), 0, j, depth + 1, (fuel - 1) as nat, follow_ids, r);
        let m = choose|m: int| 0 <= m < kids.len() && kids[m] == r;
        assert(w[1 + m] == r);
    }
}

/// When no node is shown below itself, the rows that `tree_rows` gives for a
/// node (as many levels as the game has nodes) hold an opening row for every
/// node below it, deleted backups and their subtrees included.
pub proof fn law_tree_rows_show_whole_subtree(nodes: Seq<Node>, c: Seq<int>, follow_ids: bool)
    requires
        shown_acyclic(nodes, follow_ids),
        is_chain(nodes, c, follow_ids),
    ensures
        walk(nodes, c[0], 0, nodes.len(), follow_ids).contains(opening_row(c.last(), c.len() - 1)),
{
    if c.len() > nodes.len() {
        lemma_positions_repeat(c, nodes.len());
        let (a, b) = choose|a: int, b: int| 0 <= a < b < c.len() && c[a] == c[b];
        let d = c.subrange(a, b + 1);
        assert forall|k: int| 0 <= k < d.len() - 1 implies #[trigger] is_chain_step(nodes, d, k, follow_ids) by {
            assert(is_chain_step(nodes, c, a + k, follow_ids));
        }
        assert(is_chain(nodes, d, follow_ids));
        assert(d[0] == d.last());
    }
    law_rows_show_every_child(nodes, c, 0, nodes.len(), follow_ids);
}

/// A child is shown as itself, or, when children are looked up by id, as
/// the first node with the child's id.
pub proof fn law_shown_child_is_found_by_id(nodes: Seq<Node>, j: int, follow_ids: bool)
    requires
        0 <= j < nodes.len(),
    ensures
        !follow_ids ==> shown_index(nodes, j, follow_ids) == j,
        follow_ids ==> is_first_with_id(nodes, nodes[j].id, shown_index(nodes, j, follow_ids)),
{
    lemma_first_index(nodes, nodes[j].id);
    assert(crate::models::has_id(nodes, nodes[j].id));
}

} // verus!
