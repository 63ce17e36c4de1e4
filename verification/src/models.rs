//! The manager's data: one backup tree per game mode, and the operations on it.

use vstd::prelude::*;
use std::collections::HashMap;
use crate::tree::{cleaned, drop_listed, is_removable, not_listed, removable_ids};
use crate::laws::lemma_find_in_push;

verus! {

broadcast use vstd::std_specs::hash::group_hash_axioms;

/// A point in time, as seconds and nanoseconds since the Unix epoch.
#[derive(Clone, Copy, Debug, PartialEq, Eq, Structural)]
pub struct Timestamp {
    pub secs: i64,
    pub nanos: u32,
}

/// One node of a game's backup tree.
#[derive(Clone, Debug)]
pub struct Node {
    pub id: u32,
    pub name: String,
    pub parent_id: i32,
    pub created_at: Timestamp,
    pub note: String,
    pub file_deleted: bool,
}

/// The backup tree of one game mode, and the node the current save came from.
#[derive(Clone, Debug)]
pub struct GameData {
    pub nodes: Vec<Node>,
    pub cur: i32,
}

/// Everything the manager remembers: the player's user id and one tree per game.
#[derive(Clone, Debug)]
pub struct ManagerData {
    pub user_id: Option<u32>,
    pub data: HashMap<u32, GameData>,
}

/// Reads the system clock with `std::time::SystemTime::now()` and turns the
/// reading into a `chrono::DateTime<Utc>` with its `From<SystemTime>` impl,
/// which also takes readings from before 1970; the result is given as
/// seconds and nanoseconds since the Unix epoch.  That conversion unwraps
/// only for instants more than 262,143 years away from the epoch, which no
/// system clock reads.  The clock may give any value, so nothing is stated
/// of the result.
#[verifier::external_body]
fn current_time() -> (t: Timestamp) {
    let now = chrono::DateTime::<chrono::Utc>::from(std::time::SystemTime::now());
    Timestamp { secs: now.timestamp(), nanos: now.timestamp_subsec_nanos() }
}

/// The name the root node is given.
pub open spec fn root_name() -> Seq<char> {
    "空"@
}

/// The note the root node is given.
pub open spec fn root_note() -> Seq<char> {
    "根节点，表示没有存档"@
}

/// `n` is a root node as a new game gets it (its creation time is free).
pub open spec fn is_new_root(n: Node) -> bool {
    &&& n.id == 0
    &&& n.parent_id == -1
    &&& n.name@ == root_name()
    &&& n.note@ == root_note()
    &&& !n.file_deleted
}

/// `g` is the game data of a game seen for the first time: the root alone,
/// and the root as the current node.
pub open spec fn is_new_game(g: GameData) -> bool {
    &&& g.nodes@.len() == 1
    &&& is_new_root(g.nodes@[0])
    &&& g.cur == 0
}

/// The game data of a game seen for the first time.
fn new_game_data() -> (g: GameData)
    ensures
        is_new_game(g),
{
    let mut nodes: Vec<Node> = Vec::new();
    nodes.push(Node {
        id: 0,
        name: String::from_str("空"),
        parent_id: -1,
        created_at: current_time(),
        note: String::from_str("根节点，表示没有存档"),
        file_deleted: false,
    });
    GameData { nodes, cur: 0 }
}

/// The position of the first node of `nodes` whose id is `id`, or `-1`.
pub open spec fn first_index(nodes: Seq<Node>, id: u32) -> int
    decreases nodes.len(),
{
    if nodes.len() == 0 {
        -1
    } else if nodes[0].id == id {
        0
    } else {
        let r = first_index(nodes.drop_first(), id);
        if r < 0 {
            -1
        } else {
            r + 1
        }
    }
}

/// The first node of `nodes` whose id is `id`.
pub open spec fn find_in(nodes: Seq<Node>, id: u32) -> Option<Node> {
    let i = first_index(nodes, id);
    if i >= 0 {
        Some(nodes[i])
    } else {
        None
    }
}

/// Some node of `nodes` has id `id`.
pub open spec fn has_id(nodes: Seq<Node>, id: u32) -> bool {
    exists|i: int| 0 <= i < nodes.len() && #[trigger] nodes[i].id == id
}

/// `first_index` is the least position holding `id`, or `-1` when none does.
pub proof fn lemma_first_index(nodes: Seq<Node>, id: u32)
    ensures
        -1 <= first_index(nodes, id) < nodes.len(),
        first_index(nodes, id) >= 0 ==> nodes[first_index(nodes, id)].id == id,
        forall|j: int| 0 <= j < first_index(nodes, id) ==> #[trigger] nodes[j].id != id,
        first_index(nodes, id) == -1 <==> !has_id(nodes, id),
    decreases nodes.len(),
{
    if nodes.len() > 0 && nodes[0].id != id {
        let rest = nodes.drop_first();
        lemma_first_index(rest, id);
        assert forall|j: int| 0 <= j < first_index(nodes, id) implies #[trigger] nodes[j].id != id by {
            if j > 0 {
                assert(nodes[j] == rest[j - 1]);
            }
        }
        if has_id(nodes, id) {
            let i = choose|i: int| 0 <= i < nodes.len() && #[trigger] nodes[i].id == id;
            assert(rest[i - 1].id == id);
        }
        if has_id(rest, id) {
            let i = choose|i: int| 0 <= i < rest.len() && #[trigger] rest[i].id == id;
            assert(nodes[i + 1].id == id);
        }
    } else if nodes.len() > 0 {
        assert(nodes[0].id == id);
    }
}

/// The position of the first node with the given id.
pub fn index_in_vec(nodes: &Vec<Node>, id: u32) -> (r: Option<usize>)
    ensures
        match r {
            Some(i) => i < nodes@.len() && i as int == first_index(nodes@, id),
            None => first_index(nodes@, id) == -1,
        },
{
    proof {
        lemma_first_index(nodes@, id);
    }
    let mut i: usize = 0;
    while i < nodes.len()
        invariant
            i <= nodes@.len(),
            forall|j: int| 0 <= j < i ==> #[trigger] nodes@[j].id != id,
            -1 <= first_index(nodes@, id) < nodes@.len(),
            first_index(nodes@, id) >= 0 ==> nodes@[first_index(nodes@, id)].id == id,
            forall|j: int| 0 <= j < first_index(nodes@, id) ==> #[trigger] nodes@[j].id != id,
            first_index(nodes@, id) == -1 <==> !has_id(nodes@, id),
        decreases nodes@.len() - i,
    {
        if nodes[i].id == id {
            assert(has_id(nodes@, id));
            assert(nodes@[i as int].id == id);
            return Some(i);
        }
        i += 1;
    }
    None
}

/// Finds the first node with the given id.
pub fn find_in_vec(nodes: &Vec<Node>, id: u32) -> (r: Option<&Node>)
    ensures
        match r {
            Some(n) => find_in(nodes@, id) == Some(*n),
            None => find_in(nodes@, id) is None,
        },
{
    match index_in_vec(nodes, id) {
        Some(i) => Some(&nodes[i]),
        None => None,
    }
}

/// Whether some node has the given id.
pub fn has_node_id(nodes: &Vec<Node>, id: u32) -> (r: bool)
    ensures
        r == has_id(nodes@, id),
{
    proof {
        lemma_first_index(nodes@, id);
    }
    index_in_vec(nodes, id).is_some()
}

/// Some positive id is not used by `nodes`.
pub open spec fn has_free_id(nodes: Seq<Node>) -> bool {
    exists|k: u32| k >= 1 && !#[trigger] has_id(nodes, k)
}

/// `id` is the least positive id that `nodes` does not use.
pub open spec fn is_first_free(nodes: Seq<Node>, id: u32) -> bool {
    &&& id >= 1
    &&& !has_id(nodes, id)
    &&& forall|k: u32| 1 <= k < id ==> #[trigger] has_id(nodes, k)
}

/// The least positive id that `nodes` does not use.
pub fn first_free_id(nodes: &Vec<Node>) -> (id: u32)
    requires
        has_free_id(nodes@),
    ensures
        is_first_free(nodes@, id),
{
    let mut c: u32 = 1;
    while has_node_id(nodes, c)
        invariant
            c >= 1,
            has_free_id(nodes@),
            forall|k: u32| 1 <= k < c ==> #[trigger] has_id(nodes@, k),
        decreases u32::MAX - c,
    {
        proof {
            let k = choose|k: u32| k >= 1 && !#[trigger] has_id(nodes@, k);
            assert(k > c);
        }
        c = c + 1;
    }
    c
}

/// Filtering by a predicate that holds of every element changes nothing.
pub proof fn lemma_filter_keeps_all(s: Seq<Node>, pred: spec_fn(Node) -> bool)
    requires
        forall|i: int| 0 <= i < s.len() ==> pred(#[trigger] s[i]),
    ensures
        s.filter(pred) == s,
    decreases s.len(),
{
    if s.len() > 0 {
        let t = s.drop_last();
        lemma_filter_keeps_all(t, pred);
        assert(t.push(s.last()) =~= s);
        t.lemma_filter_push(s.last(), pred);
    } else {
        assert(s.filter(pred) =~= s) by {
            s.lemma_filter_len(pred);
        }
    }
}

/// The nodes of `nodes` whose parent is `parent_id`, in order.
pub open spec fn children_of(nodes: Seq<Node>, parent_id: i32) -> Seq<Node> {
    nodes.filter(|n: Node| n.parent_id == parent_id)
}

/// The nodes that a sequence of references points at.
pub open spec fn derefs(s: Seq<&Node>) -> Seq<Node> {
    s.map_values(|n: &Node| *n)
}

/// `nodes` with the backup file of the first node with id `id` marked as
/// deleted; unchanged when no node has that id.
pub open spec fn marked_deleted(nodes: Seq<Node>, id: u32) -> Seq<Node> {
    let i = first_index(nodes, id);
    if i >= 0 {
        nodes.update(i, Node { file_deleted: true, ..nodes[i] })
    } else {
        nodes
    }
}

impl ManagerData {
    /// The game data of `game_id`, if the manager has any.
    pub open spec fn game(self, game_id: u32) -> Option<GameData> {
        if self.data@.contains_key(game_id) {
            Some(self.data@[game_id])
        } else {
            None
        }
    }

    /// The node that `find_node` returns.
    pub open spec fn spec_find_node(self, game_id: u32, node_id: u32) -> Option<Node> {
        match self.game(game_id) {
            Some(g) => find_in(g.nodes@, node_id),
            None => None,
        }
    }

    /// An empty manager: no user id and no game data.
    pub fn new() -> (r: Self)
        ensures
            r.user_id is None,
            r.data@ == Map::<u32, GameData>::empty(),
    {
        ManagerData { user_id: None, data: HashMap::new() }
    }

    /// `nodes` and `cur` are what game `game_id` holds once it has been
    /// created if it was missing: its old nodes and current node, or a new
    /// root alone, current.
    pub open spec fn is_start_of(self, game_id: u32, nodes: Seq<Node>, cur: i32) -> bool {
        match self.game(game_id) {
            Some(g) => nodes == g.nodes@ && cur == g.cur,
            None => nodes.len() == 1 && is_new_root(nodes[0]) && cur == 0,
        }
    }

    /// `new` differs from this manager at most in game `game_id`, which it holds.
    pub open spec fn only_game_changed(self, new: ManagerData, game_id: u32) -> bool {
        &&& new.user_id == self.user_id
        &&& new.data@.contains_key(game_id)
        &&& new.data@ == self.data@.insert(game_id, new.data@[game_id])
    }

    /// The game data of `game_id`, created (see `is_new_game`) when the
    /// manager has none yet.
    pub fn get_or_create_game_data(&mut self, game_id: u32) -> (r: &mut GameData)
        ensures
            old(self).data@.contains_key(game_id) ==> *r == old(self).data@[game_id],
            !old(self).data@.contains_key(game_id) ==> is_new_game(*r),
            final(self).data@ == old(self).data@.insert(game_id, *final(r)),
            final(self).user_id == old(self).user_id,
    {
        match self.data.entry(game_id) {
            std::collections::hash_map::Entry::Occupied(o) => o.into_mut(),
            std::collections::hash_map::Entry::Vacant(v) => v.insert(new_game_data()),
        }
    }

    /// The first node of game `game_id` whose id is `node_id`.
    pub fn find_node(&self, game_id: u32, node_id: u32) -> (r: Option<&Node>)
        ensures
            match r {
                Some(n) => self.spec_find_node(game_id, node_id) == Some(*n),
                None => self.spec_find_node(game_id, node_id) is None,
            },
    {
        match self.data.get(&game_id) {
            Some(g) => find_in_vec(&g.nodes, node_id),
            None => None,
        }
    }

    /// The id of the root of game `game_id`, which is always `0`; the game
    /// data is created first if it is missing.
    pub fn get_root_id(&mut self, game_id: u32) -> (r: u32)
        ensures
            r == 0,
            old(self).only_game_changed(*final(self), game_id),
            old(self).is_start_of(
                game_id,
                final(self).data@[game_id].nodes@,
                final(self).data@[game_id].cur,
            ),
    {
        self.get_or_create_game_data(game_id);
        0
    }

    /// Adds a node under `parent_id` to game `game_id` (created first if it
    /// is missing), with the least positive id the game does not use yet, the
    /// current time, and its backup file present.  Returns the new id.
    pub fn create_node(&mut self, game_id: u32, parent_id: i32, name: String, note: String) -> (id: u32)
        requires
            old(self).data@.contains_key(game_id) ==> has_free_id(old(self).data@[game_id].nodes@),
        ensures
            old(self).only_game_changed(*final(self), game_id),
            ({
                let after = final(self).data@[game_id];
                let before = after.nodes@.drop_last();
                let n = after.nodes@.last();
                &&& after.nodes@.len() >= 1
                &&& old(self).is_start_of(game_id, before, after.cur)
                &&& is_first_free(before, id)
                &&& n.id == id
                &&& n.name == name
                &&& n.parent_id == parent_id
                &&& n.note == note
                &&& !n.file_deleted
                &&& final(self).spec_find_node(game_id, id) == Some(n)
            }),
    {
        let gd = self.get_or_create_game_data(game_id);
        proof {
            if !old(self).data@.contains_key(game_id) {
                assert(!has_id(gd.nodes@, 1)) by {
                    if has_id(gd.nodes@, 1) {
                        let i = choose|i: int| 0 <= i < gd.nodes@.len() && #[trigger] gd.nodes@[i].id == 1;
                    }
                }
            }
        }
        let node_id = first_free_id(&gd.nodes);
        let created_at = current_time();
        let ghost before = gd.nodes@;
        gd.nodes.push(Node { id: node_id, name, parent_id, created_at, note, file_deleted: false });
        proof {
            assert(gd.nodes@.drop_last() =~= before);
            lemma_find_in_push(before, gd.nodes@.last(), node_id);
        }
        node_id
    }

    /// The first node of game `game_id` whose id is `node_id`, to be changed
    /// in place.
    pub fn find_node_mut(&mut self, game_id: u32, node_id: u32) -> (r: Option<&mut Node>)
        ensures
            match r {
                Some(n) => {
                    let g = old(self).data@[game_id];
                    let i = first_index(g.nodes@, node_id);
                    &&& old(self).spec_find_node(game_id, node_id) == Some(*n)
                    &&& old(self).only_game_changed(*final(self), game_id)
                    &&& final(self).data@[game_id].cur == g.cur
                    &&& final(self).data@[game_id].nodes@ == g.nodes@.update(i, *final(n))
                },
                None => {
                    &&& old(self).spec_find_node(game_id, node_id) is None
                    &&& final(self).user_id == old(self).user_id
                    &&& final(self).data@ == old(self).data@
                },
            },
    {
        match self.data.entry(game_id) {
            std::collections::hash_map::Entry::Occupied(o) => {
                let gd = o.into_mut();
                match index_in_vec(&gd.nodes, node_id) {
                    Some(i) => Some(&mut gd.nodes[i]),
                    None => None,
                }
            },
            std::collections::hash_map::Entry::Vacant(_) => None,
        }
    }

    /// The current node of game `game_id`, or `-1` when the game has no data.
    pub fn get_current_parent(&self, game_id: u32) -> (r: i32)
        ensures
            r == match self.game(game_id) {
                Some(g) => g.cur,
                None => -1i32,
            },
    {
        match self.data.get(&game_id) {
            Some(g) => g.cur,
            None => -1,
        }
    }

    /// Makes `parent_id` the current node of game `game_id` (created first if
    /// it is missing).
    pub fn set_current_parent(&mut self, game_id: u32, parent_id: i32)
        ensures
            old(self).only_game_changed(*final(self), game_id),
            final(self).data@[game_id].cur == parent_id,
            old(self).is_start_of(
                game_id,
                final(self).data@[game_id].nodes@,
                match old(self).game(game_id) {
                    Some(g) => g.cur,
                    None => 0i32,
                },
            ),
    {
        let gd = self.get_or_create_game_data(game_id);
        gd.cur = parent_id;
    }

    /// The nodes of game `game_id` whose parent is `parent_id`, in order.
    pub fn get_children(&self, game_id: u32, parent_id: i32) -> (r: Vec<&Node>)
        ensures
            derefs(r@) == match self.game(game_id) {
                Some(g) => children_of(g.nodes@, parent_id),
                None => Seq::empty(),
            },
    {
        let mut r: Vec<&Node> = Vec::new();
        match self.data.get(&game_id) {
            Some(g) => {
                let mut i: usize = 0;
                while i < g.nodes.len()
                    invariant
                        i <= g.nodes@.len(),
                        derefs(r@) == children_of(g.nodes@.take(i as int), parent_id),
                    decreases g.nodes@.len() - i,
                {
                    proof {
                        assert(g.nodes@.take(i + 1) =~= g.nodes@.take(i as int).push(g.nodes@[i as int]));
                        g.nodes@.take(i as int).lemma_filter_push(
                            g.nodes@[i as int],
                            |n: Node| n.parent_id == parent_id,
                        );
                    }
                    if g.nodes[i].parent_id == parent_id {
                        r.push(&g.nodes[i]);
                    }
                    proof {
                        assert(derefs(r@) =~= children_of(g.nodes@.take(i + 1), parent_id));
                    }
                    i += 1;
                }
                proof {
                    assert(g.nodes@.take(g.nodes@.len() as int) =~= g.nodes@);
                }
            },
            None => {},
        }
        r
    }

    /// The nodes of game `game_id` grouped by parent: each `parent_id` that
    /// some node has maps to those nodes, in order.  Empty when the game has
    /// no data.
    pub fn build_adjacency_list(&self, game_id: u32) -> (r: HashMap<i32, Vec<&Node>>)
        ensures
            match self.game(game_id) {
                Some(g) => forall|k: i32|
                    (#[trigger] r@.contains_key(k) <==> children_of(g.nodes@, k).len() > 0) && (
                    r@.contains_key(k) ==> derefs(r@[k]@) == children_of(g.nodes@, k)),
                None => r@ == Map::<i32, Vec<&Node>>::empty(),
            },
    {
        let mut adj: HashMap<i32, Vec<&Node>> = HashMap::new();
        match self.data.get(&game_id) {
            Some(g) => {
                let nodes = &g.nodes;
                let mut i: usize = 0;
                while i < nodes.len()
                    invariant
                        i <= nodes@.len(),
                        forall|k: i32|
                            (#[trigger] adj@.contains_key(k) <==> children_of(nodes@.take(i as int), k).len()
                                > 0) && (adj@.contains_key(k) ==> derefs(adj@[k]@) == children_of(
                                nodes@.take(i as int),
                                k,
                            )),
                    decreases nodes@.len() - i,
                {
                    let node = &nodes[i];
                    let ghost pre = adj@;
                    let ghost before = nodes@.take(i as int);
                    proof {
                        assert(nodes@.take(i + 1) =~= before.push(*node));
                        assert forall|k: i32| #[trigger]
                            children_of(nodes@.take(i + 1), k) == if node.parent_id == k {
                                children_of(before, k).push(*node)
                            } else {
                                children_of(before, k)
                            } by {
                            before.lemma_filter_push(*node, |n: Node| n.parent_id == k);
                        }
                    }
                    match adj.entry(node.parent_id) {
                        std::collections::hash_map::Entry::Occupied(o) => {
                            let v = o.into_mut();
                            v.push(node);
                        },
                        std::collections::hash_map::Entry::Vacant(e) => {
                            let mut v: Vec<&Node> = Vec::new();
                            v.push(node);
                            e.insert(v);
                        },
                    }
                    proof {
                        assert forall|k: i32|
                            (#[trigger] adj@.contains_key(k) <==> children_of(nodes@.take(i + 1), k).len()
                                > 0) && (adj@.contains_key(k) ==> derefs(adj@[k]@) == children_of(
                                nodes@.take(i + 1),
                                k,
                            )) by {
                            if k == node.parent_id {
                                if pre.contains_key(k) {
                                    assert(derefs(adj@[k]@) =~= derefs(pre[k]@).push(*node));
                                } else {
                                    assert(children_of(before, k).len() == 0);
                                    assert(derefs(adj@[k]@) =~= seq![*node]);
                                    assert(children_of(nodes@.take(i + 1), k) =~= seq![*node]);
                                }
                            }
                        }
                    }
                    i += 1;
                }
                proof {
                    assert(nodes@.take(nodes@.len() as int) =~= nodes@);
                }
            },
            None => {},
        }
        adj
    }

    /// Drops from game `game_id` the nodes below the root that nothing keeps
    /// (see `is_removable`), and returns their ids, each once.  A game
    /// without data is left alone and gives no ids.
    pub fn clean_empty_nodes(&mut self, game_id: u32) -> (r: Vec<u32>)
        ensures
            r@.no_duplicates(),
            final(self).user_id == old(self).user_id,
            match old(self).game(game_id) {
                Some(g) => {
                    &&& forall|x: u32| r@.contains(x) <==> is_removable(g.nodes@, g.cur, x)
                    &&& old(self).only_game_changed(*final(self), game_id)
                    &&& final(self).data@[game_id].cur == g.cur
                    &&& final(self).data@[game_id].nodes@ == cleaned(g.nodes@, g.cur)
                },
                None => {
                    &&& r@.len() == 0
                    &&& final(self).data@ == old(self).data@
                },
            },
    {
        let to_delete = match self.data.get(&game_id) {
            Some(g) => removable_ids(&g.nodes, g.cur),
            None => {
                return Vec::new();
            },
        };
        let ghost g = self.data@[game_id];
        proof {
            assert(not_listed(to_delete@) =~= (|n: Node| !is_removable(g.nodes@, g.cur, n.id)));
        }
        if to_delete.len() == 0 {
            proof {
                assert(g.nodes@.filter(not_listed(to_delete@)) =~= g.nodes@) by {
                    lemma_filter_keeps_all(g.nodes@, not_listed(to_delete@));
                }
                assert(self.data@ =~= self.data@.insert(game_id, self.data@[game_id]));
            }
            return to_delete;
        }
        match self.data.remove(&game_id) {
            Some(gd) => {
                let GameData { nodes, cur } = gd;
                let kept = drop_listed(nodes, &to_delete);
                self.data.insert(game_id, GameData { nodes: kept, cur });
                proof {
                    assert(self.data@ =~= old(self).data@.insert(game_id, self.data@[game_id]));
                }
            },
            None => {},
        }
        to_delete
    }
    /// Records that the backup file of node `node_id` of game `game_id` is
    /// gone (the first node with that id, when there is one), then drops the
    /// nodes that nothing keeps any more (see `clean_empty_nodes`) and
    /// returns their ids, each once.
    pub fn mark_deleted_and_clean(&mut self, game_id: u32, node_id: u32) -> (r: Vec<u32>)
        ensures
            r@.no_duplicates(),
            final(self).user_id == old(self).user_id,
            match old(self).game(game_id) {
                Some(g) => {
                    let marked = marked_deleted(g.nodes@, node_id);
                    &&& forall|x: u32| r@.contains(x) <==> is_removable(marked, g.cur, x)
                    &&& old(self).only_game_changed(*final(self), game_id)
                    &&& final(self).data@[game_id].cur == g.cur
                    &&& final(self).data@[game_id].nodes@ == cleaned(marked, g.cur)
                },
                None => {
                    &&& r@.len() == 0
                    &&& final(self).data@ == old(self).data@
                },
            },
    {
        match self.find_node_mut(game_id, node_id) {
            Some(n) => {
                n.file_deleted = true;
            },
            None => {},
        }
        proof {
            if old(self).game(game_id) is Some {
                assert(self.data@ =~= old(self).data@.insert(game_id, self.data@[game_id]));
                assert(self.data@[game_id].nodes@ == marked_deleted(old(self).data@[game_id].nodes@, node_id));
            }
        }
        let r = self.clean_empty_nodes(game_id);
        proof {
            if old(self).game(game_id) is Some {
                assert(self.data@ =~= old(self).data@.insert(game_id, self.data@[game_id]));
            }
        }
        r
    }
}

} // verus!
