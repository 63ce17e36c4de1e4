//! The shape of a backup tree, and which of its nodes are worth keeping.
//!
//! A node names its parent by the parent's id read as an `i32`, so the
//! children of the node with id `x` are the nodes whose `parent_id` is
//! `key_of(x)`.  Node `0` is the root.  An id is kept when some node has it
//! and that node, or a node below it, is the root, the current node, or
//! still has its backup file.

use vstd::prelude::*;
use crate::models::{Node, find_in, find_in_vec, has_id, has_node_id, lemma_first_index};

verus! {

broadcast use vstd::seq_lib::group_seq_properties;

/// The value `id as i32` has: `id` read as a two's-complement `i32`.
pub open spec fn key_of(id: u32) -> i32 {
    if id <= 0x7fff_ffff {
        id as i32
    } else {
        (id - 0x1_0000_0000int) as i32
    }
}

/// Computes `id as i32`.
pub fn parent_key(id: u32) -> (k: i32)
    ensures
        k == key_of(id),
{
    if id <= 0x7fff_ffff {
        id as i32
    } else {
        ((id - 0x8000_0000u32) as i32) - 0x7fff_ffff - 1
    }
}

/// The ids of `nodes`, in order.
pub open spec fn ids_of(nodes: Seq<Node>) -> Seq<u32> {
    nodes.map_values(|n: Node| n.id)
}

/// Some node of `nodes` with id `c` has `x` as its parent.
pub open spec fn is_child(nodes: Seq<Node>, x: u32, c: u32) -> bool {
    exists|i: int| 0 <= i < nodes.len() && #[trigger] nodes[i].parent_id == key_of(x) && nodes[i].id == c
}

/// Step `k` of `p` goes from a node to one of its children.
pub open spec fn is_step(nodes: Seq<Node>, p: Seq<u32>, k: int) -> bool {
    is_child(nodes, p[k], p[k + 1])
}

/// `p` is a downward path: each id after the first is a child of the one before.
pub open spec fn is_path(nodes: Seq<Node>, p: Seq<u32>) -> bool {
    &&& p.len() >= 1
    &&& forall|k: int| 0 <= k < p.len() - 1 ==> #[trigger] is_step(nodes, p, k)
}

/// `b` is `a` or lies below `a`.
pub open spec fn reaches(nodes: Seq<Node>, a: u32, b: u32) -> bool {
    exists|p: Seq<u32>| #[trigger] is_path(nodes, p) && p[0] == a && p.last() == b
}

/// The node `d` must stay for its own sake: it is the root, the current
/// node, or its backup file still exists (as the first node with id `d` says).
pub open spec fn is_base(nodes: Seq<Node>, cur: i32, d: u32) -> bool {
    match find_in(nodes, d) {
        Some(n) => d == 0 || (cur != -1 && key_of(d) == cur) || !n.file_deleted,
        None => false,
    }
}

/// `x` must stay: it is the id of a node, and some node at or below it must
/// stay for its own sake.
pub open spec fn is_kept(nodes: Seq<Node>, cur: i32, x: u32) -> bool {
    &&& has_id(nodes, x)
    &&& exists|d: u32| #[trigger] reaches(nodes, x, d) && is_base(nodes, cur, d)
}

/// `x` is a node below the root that nothing keeps.
pub open spec fn is_removable(nodes: Seq<Node>, cur: i32, x: u32) -> bool {
    &&& x != 0
    &&& reaches(nodes, 0, x)
    &&& !is_kept(nodes, cur, x)
}

/// A one-element path.
pub proof fn lemma_path_single(nodes: Seq<Node>, x: u32)
    ensures
        is_path(nodes, seq![x]),
        reaches(nodes, x, x),
{
    assert(is_path(nodes, seq![x]));
}

/// A path followed by a child of its last id is a path.
pub proof fn lemma_path_push(nodes: Seq<Node>, p: Seq<u32>, c: u32)
    requires
        is_path(nodes, p),
        is_child(nodes, p.last(), c),
    ensures
        is_path(nodes, p.push(c)),
        p.push(c)[0] == p[0],
        p.push(c).last() == c,
{
    let q = p.push(c);
    assert forall|k: int| 0 <= k < q.len() - 1 implies #[trigger] is_step(nodes, q, k) by {
        if k < p.len() - 1 {
            assert(is_step(nodes, p, k));
        }
    }
}

/// An id followed by a path from one of its children is a path.
pub proof fn lemma_path_prepend(nodes: Seq<Node>, x: u32, p: Seq<u32>)
    requires
        is_path(nodes, p),
        is_child(nodes, x, p[0]),
    ensures
        is_path(nodes, seq![x] + p),
        (seq![x] + p)[0] == x,
        (seq![x] + p).last() == p.last(),
{
    let q = seq![x] + p;
    assert forall|k: int| 0 <= k < q.len() - 1 implies #[trigger] is_step(nodes, q, k) by {
        if k > 0 {
            assert(is_step(nodes, p, k - 1));
        }
    }
}

/// `reaches` is transitive through a child.
pub proof fn lemma_reaches_child(nodes: Seq<Node>, a: u32, x: u32, c: u32)
    requires
        reaches(nodes, a, x),
        is_child(nodes, x, c),
    ensures
        reaches(nodes, a, c),
{
    let p = choose|p: Seq<u32>| #[trigger] is_path(nodes, p) && p[0] == a && p.last() == x;
    lemma_path_push(nodes, p, c);
}

/// A node that reaches `d` through one of its children reaches `d` itself.
pub proof fn lemma_child_reaches(nodes: Seq<Node>, x: u32, c: u32, d: u32)
    requires
        is_child(nodes, x, c),
        reaches(nodes, c, d),
    ensures
        reaches(nodes, x, d),
{
    let p = choose|p: Seq<u32>| #[trigger] is_path(nodes, p) && p[0] == c && p.last() == d;
    lemma_path_prepend(nodes, x, p);
}

/// A stretch `p[k..]` of a path is a path.
pub proof fn lemma_path_suffix(nodes: Seq<Node>, p: Seq<u32>, k: int)
    requires
        is_path(nodes, p),
        0 <= k < p.len(),
    ensures
        is_path(nodes, p.subrange(k, p.len() as int)),
{
    let q = p.subrange(k, p.len() as int);
    assert forall|m: int| 0 <= m < q.len() - 1 implies #[trigger] is_step(nodes, q, m) by {
        assert(is_step(nodes, p, k + m));
    }
}

/// A stretch `p[..=k]` of a path is a path.
pub proof fn lemma_path_prefix(nodes: Seq<Node>, p: Seq<u32>, k: int)
    requires
        is_path(nodes, p),
        0 <= k < p.len(),
    ensures
        is_path(nodes, p.subrange(0, k + 1)),
{
    let q = p.subrange(0, k + 1);
    assert forall|m: int| 0 <= m < q.len() - 1 implies #[trigger] is_step(nodes, q, m) by {
        assert(is_step(nodes, p, m));
    }
}

/// `reaches` is transitive.
pub proof fn lemma_reaches_trans(nodes: Seq<Node>, a: u32, b: u32, c: u32)
    requires
        reaches(nodes, a, b),
        reaches(nodes, b, c),
    ensures
        reaches(nodes, a, c),
{
    let p = choose|p: Seq<u32>| #[trigger] is_path(nodes, p) && p[0] == a && p.last() == b;
    let q = choose|q: Seq<u32>| #[trigger] is_path(nodes, q) && q[0] == b && q.last() == c;
    let r = p + q.drop_first();
    assert(is_path(nodes, r)) by {
        assert forall|m: int| 0 <= m < r.len() - 1 implies #[trigger] is_step(nodes, r, m) by {
            if m < p.len() - 1 {
                assert(is_step(nodes, p, m));
            } else {
                assert(is_step(nodes, q, m - p.len() + 1));
            }
        }
    }
    if q.len() == 1 {
        assert(r =~= p);
    }
}

/// A node below the root is the id of some node.
pub proof fn lemma_reached_is_node(nodes: Seq<Node>, a: u32, x: u32)
    requires
        reaches(nodes, a, x),
        x != a,
    ensures
        exists|i: int| 0 <= i < nodes.len() && #[trigger] nodes[i].id == x,
{
    let p = choose|p: Seq<u32>| #[trigger] is_path(nodes, p) && p[0] == a && p.last() == x;
    assert(is_step(nodes, p, p.len() - 2));
}

/// A set of ids that holds the first id of a path, and the children of all
/// its ids, holds the whole path.
pub proof fn lemma_closed_holds_path(nodes: Seq<Node>, s: Seq<u32>, p: Seq<u32>)
    requires
        is_path(nodes, p),
        s.contains(p[0]),
        forall|x: u32, c: u32| s.contains(x) && #[trigger] is_child(nodes, x, c) ==> s.contains(c),
    ensures
        forall|k: int| 0 <= k < p.len() ==> s.contains(#[trigger] p[k]),
    decreases p.len(),
{
    if p.len() > 1 {
        let q = p.drop_last();
        assert(is_path(nodes, q)) by {
            assert forall|k: int| 0 <= k < q.len() - 1 implies #[trigger] is_step(nodes, q, k) by {
                assert(is_step(nodes, p, k));
            }
        }
        lemma_closed_holds_path(nodes, s, q);
        assert(is_step(nodes, p, p.len() - 2));
        assert(s.contains(q[q.len() - 1]));
        assert forall|k: int| 0 <= k < p.len() implies s.contains(#[trigger] p[k]) by {
            if k < p.len() - 1 {
                assert(p[k] == q[k]);
            }
        }
    }
}

/// A duplicate-free sequence whose elements all occur in `t` is no longer than `t`.
pub proof fn lemma_unique_within(s: Seq<u32>, t: Seq<u32>)
    requires
        s.no_duplicates(),
        forall|i: int| 0 <= i < s.len() ==> t.contains(#[trigger] s[i]),
    ensures
        s.len() <= t.len(),
{
    broadcast use vstd::seq_lib::seq_to_set_is_finite;
    s.unique_seq_to_set();
    t.lemma_cardinality_of_set();
    assert(s.to_set().subset_of(t.to_set())) by {
        assert forall|x: u32| s.to_set().contains(x) implies t.to_set().contains(x) by {
            let i = choose|i: int| 0 <= i < s.len() && s[i] == x;
            assert(t.contains(s[i]));
        }
    }
    vstd::set_lib::lemma_len_subset(s.to_set(), t.to_set());
}

/// Whether `v` holds `x`.
pub fn vec_contains(v: &Vec<u32>, x: u32) -> (r: bool)
    ensures
        r == v@.contains(x),
{
    let mut i: usize = 0;
    while i < v.len()
        invariant
            i <= v@.len(),
            forall|j: int| 0 <= j < i ==> v@[j] != x,
        decreases v@.len() - i,
    {
        if v[i] == x {
            return true;
        }
        i += 1;
    }
    false
}

/// The position of `x` in `v`, if any.
pub fn vec_index_of(v: &Vec<u32>, x: u32) -> (r: Option<usize>)
    ensures
        match r {
            Some(i) => i < v@.len() && v@[i as int] == x,
            None => !v@.contains(x),
        },
{
    let mut i: usize = 0;
    while i < v.len()
        invariant
            i <= v@.len(),
            forall|j: int| 0 <= j < i ==> v@[j] != x,
        decreases v@.len() - i,
    {
        if v[i] == x {
            return Some(i);
        }
        i += 1;
    }
    None
}

/// The ids at or below the root, each once, the root first.
pub fn reachable_ids(nodes: &Vec<Node>) -> (r: Vec<u32>)
    ensures
        r@.len() >= 1,
        r@[0] == 0,
        r@.no_duplicates(),
        forall|x: u32| r@.contains(x) <==> reaches(nodes@, 0, x),
{
    let ghost t = ids_of(nodes@).push(0);
    let mut visited: Vec<u32> = Vec::new();
    visited.push(0);
    proof {
        lemma_path_single(nodes@, 0);
    }
    let mut i: usize = 0;
    while i < visited.len()
        invariant
            visited@.len() >= 1,
            visited@[0] == 0,
            visited@.no_duplicates(),
            i <= visited@.len(),
            visited@.len() <= nodes@.len() + 1,
            t == ids_of(nodes@).push(0),
            forall|k: int| 0 <= k < visited@.len() ==> t.contains(#[trigger] visited@[k]),
            forall|k: int| 0 <= k < visited@.len() ==> reaches(nodes@, 0, #[trigger] visited@[k]),
            forall|k: int, j: int|
                0 <= k < i && 0 <= j < nodes@.len() && #[trigger] nodes@[j].parent_id == key_of(
                    #[trigger] visited@[k],
                ) ==> visited@.contains(nodes@[j].id),
        decreases nodes@.len() + 1 - i,
    {
        let x = visited[i];
        let kx = parent_key(x);
        let mut j: usize = 0;
        while j < nodes.len()
            invariant
                visited@.len() >= 1,
                visited@[0] == 0,
                visited@.no_duplicates(),
                i < visited@.len(),
                visited@.len() <= nodes@.len() + 1,
                x == visited@[i as int],
                kx == key_of(x),
                j <= nodes@.len(),
                t == ids_of(nodes@).push(0),
                forall|k: int| 0 <= k < visited@.len() ==> t.contains(#[trigger] visited@[k]),
                forall|k: int| 0 <= k < visited@.len() ==> reaches(nodes@, 0, #[trigger] visited@[k]),
                forall|k: int, j2: int|
                    0 <= k < i && 0 <= j2 < nodes@.len() && #[trigger] nodes@[j2].parent_id == key_of(
                        #[trigger] visited@[k],
                    ) ==> visited@.contains(nodes@[j2].id),
                forall|j2: int|
                    0 <= j2 < j && #[trigger] nodes@[j2].parent_id == kx ==> visited@.contains(
                        nodes@[j2].id,
                    ),
            decreases nodes@.len() - j,
        {
            if nodes[j].parent_id == kx {
                let c = nodes[j].id;
                if !vec_contains(&visited, c) {
                    proof {
                        assert(is_child(nodes@, x, c)) by {
                            assert(nodes@[j as int].parent_id == key_of(x));
                        }
                        lemma_reaches_child(nodes@, 0, x, c);
                        assert(ids_of(nodes@)[j as int] == c);
                        assert(t.contains(c)) by {
                            assert(t[j as int] == c);
                        }
                    }
                    let ghost old_visited = visited@;
                    visited.push(c);
                    proof {
                        assert forall|k: int| 0 <= k < visited@.len() implies t.contains(
                            #[trigger] visited@[k],
                        ) by {
                            if k < old_visited.len() {
                                assert(visited@[k] == old_visited[k]);
                            }
                        }
                        lemma_unique_within(visited@, t);
                        assert forall|k: int, j2: int|
                            0 <= k < i && 0 <= j2 < nodes@.len() && #[trigger] nodes@[j2].parent_id
                                == key_of(#[trigger] visited@[k]) implies visited@.contains(
                            nodes@[j2].id,
                        ) by {
                            assert(visited@[k] == old_visited[k]);
                            assert(old_visited.contains(nodes@[j2].id));
                        }
                    }
                }
            }
            j += 1;
        }
        i += 1;
    }
    proof {
        assert forall|x: u32| reaches(nodes@, 0, x) implies visited@.contains(x) by {
            let p = choose|p: Seq<u32>| #[trigger] is_path(nodes@, p) && p[0] == 0 && p.last() == x;
            assert forall|y: u32, c: u32|
                visited@.contains(y) && #[trigger] is_child(nodes@, y, c) implies visited@.contains(
                c,
            ) by {
                let k = choose|k: int| 0 <= k < visited@.len() && visited@[k] == y;
                let j2 = choose|j2: int|
                    0 <= j2 < nodes@.len() && #[trigger] nodes@[j2].parent_id == key_of(y)
                        && nodes@[j2].id == c;
                assert(nodes@[j2].parent_id == key_of(visited@[k]));
            }
            assert(visited@.contains(p[0])) by {
                assert(visited@[0] == 0);
            }
            lemma_closed_holds_path(nodes@, visited@, p);
            assert(visited@.contains(p[p.len() - 1]));
        }
    }
    visited
}


/// Whether node `d` must stay for its own sake (see `is_base`).
pub fn is_base_node(nodes: &Vec<Node>, cur: i32, d: u32) -> (r: bool)
    ensures
        r == is_base(nodes@, cur, d),
{
    match find_in_vec(nodes, d) {
        Some(n) => d == 0 || (cur != -1 && parent_key(d) == cur) || !n.file_deleted,
        None => false,
    }
}

/// The number of `true` entries of `s`.
pub open spec fn count_true(s: Seq<bool>) -> nat
    decreases s.len(),
{
    if s.len() == 0 {
        0
    } else {
        count_true(s.drop_last()) + if s.last() {
            1nat
        } else {
            0nat
        }
    }
}

/// `count_true` is at most the length, and setting a `false` entry adds one.
pub proof fn lemma_count_true(s: Seq<bool>, k: int)
    requires
        0 <= k < s.len(),
    ensures
        count_true(s) <= s.len(),
        !s[k] ==> count_true(s.update(k, true)) == count_true(s) + 1,
    decreases s.len(),
{
    let t = s.update(k, true);
    if k < s.len() - 1 {
        assert(t.drop_last() =~= s.drop_last().update(k, true));
        lemma_count_true(s.drop_last(), k);
    } else {
        assert(t.drop_last() =~= s.drop_last());
        if s.len() > 1 {
            lemma_count_true(s.drop_last(), 0);
        } else {
            assert(s.drop_last().len() == 0);
            assert(count_true(s.drop_last()) == 0);
        }
    }
}

/// Some entry of `ids` equal to `x` is flagged.
pub open spec fn is_flagged(ids: Seq<u32>, flags: Seq<bool>, x: u32) -> bool {
    exists|m: int| 0 <= m < ids.len() && #[trigger] ids[m] == x && flags[m]
}

/// Some child of `x` is flagged.
pub open spec fn child_flagged(nodes: Seq<Node>, ids: Seq<u32>, flags: Seq<bool>, x: u32) -> bool {
    exists|j: int|
        0 <= j < nodes.len() && #[trigger] nodes[j].parent_id == key_of(x) && is_flagged(
            ids,
            flags,
            nodes[j].id,
        )
}

/// Whether some child of `x` is flagged.
pub fn has_flagged_child(nodes: &Vec<Node>, ids: &Vec<u32>, flags: &Vec<bool>, x: u32) -> (r: bool)
    requires
        ids@.no_duplicates(),
        flags@.len() == ids@.len(),
    ensures
        r == child_flagged(nodes@, ids@, flags@, x),
{
    let kx = parent_key(x);
    let mut j: usize = 0;
    while j < nodes.len()
        invariant
            ids@.no_duplicates(),
            flags@.len() == ids@.len(),
            kx == key_of(x),
            j <= nodes@.len(),
            forall|j2: int|
                0 <= j2 < j && #[trigger] nodes@[j2].parent_id == kx ==> !is_flagged(
                    ids@,
                    flags@,
                    nodes@[j2].id,
                ),
        decreases nodes@.len() - j,
    {
        if nodes[j].parent_id == kx {
            match vec_index_of(ids, nodes[j].id) {
                Some(m) => {
                    if flags[m] {
                        assert(is_flagged(ids@, flags@, nodes@[j as int].id));
                        return true;
                    }
                    assert(!is_flagged(ids@, flags@, nodes@[j as int].id)) by {
                        if is_flagged(ids@, flags@, nodes@[j as int].id) {
                            let m2 = choose|m2: int|
                                0 <= m2 < ids@.len() && #[trigger] ids@[m2] == nodes@[j as int].id
                                    && flags@[m2];
                            assert(ids@[m2] == ids@[m as int]);
                        }
                    }
                },
                None => {},
            }
        }
        j += 1;
    }
    false
}

/// A path from the id of a node whose ids are all listed and whose last id
/// is flagged, in a flagging where every listed node with a flagged child is
/// flagged, has a flagged first id.
pub proof fn lemma_flag_path(nodes: Seq<Node>, ids: Seq<u32>, flags: Seq<bool>, p: Seq<u32>)
    requires
        is_path(nodes, p),
        has_id(nodes, p[0]),
        flags.len() == ids.len(),
        forall|k: int| 0 <= k < p.len() ==> ids.contains(#[trigger] p[k]),
        is_flagged(ids, flags, p.last()),
        forall|m: int|
            0 <= m < ids.len() ==> flags[m] || !has_id(nodes, #[trigger] ids[m]) || !child_flagged(
                nodes,
                ids,
                flags,
                ids[m],
            ),
    ensures
        is_flagged(ids, flags, p[0]),
    decreases p.len(),
{
    if p.len() > 1 {
        let q = p.drop_first();
        assert(is_path(nodes, q)) by {
            assert forall|k: int| 0 <= k < q.len() - 1 implies #[trigger] is_step(nodes, q, k) by {
                assert(is_step(nodes, p, k + 1));
            }
        }
        assert forall|k: int| 0 <= k < q.len() implies ids.contains(#[trigger] q[k]) by {
            assert(ids.contains(p[k + 1]));
        }
        assert(is_step(nodes, p, 0));
        let j = choose|j: int|
            0 <= j < nodes.len() && #[trigger] nodes[j].parent_id == key_of(p[0]) && nodes[j].id == p[1];
        assert(has_id(nodes, q[0]));
        lemma_flag_path(nodes, ids, flags, q);
        assert(ids.contains(p[0]));
        let m = choose|m: int| 0 <= m < ids.len() && ids[m] == p[0];
        assert(child_flagged(nodes, ids, flags, ids[m]));
    }
}

/// For each listed id, whether it is kept (an id that no node has is not).
/// The list must be closed under taking children.
pub fn kept_flags(nodes: &Vec<Node>, cur: i32, ids: &Vec<u32>) -> (flags: Vec<bool>)
    requires
        ids@.no_duplicates(),
        forall|x: u32, c: u32| ids@.contains(x) && #[trigger] is_child(nodes@, x, c) ==> ids@.contains(c),
    ensures
        flags@.len() == ids@.len(),
        forall|m: int| 0 <= m < ids@.len() ==> flags@[m] == is_kept(nodes@, cur, #[trigger] ids@[m]),
{
    let n = ids.len();
    let mut flags: Vec<bool> = Vec::new();
    let mut k: usize = 0;
    while k < n
        invariant
            n == ids@.len(),
            k <= n,
            flags@.len() == k,
            forall|m: int| 0 <= m < k ==> flags@[m] == is_base(nodes@, cur, #[trigger] ids@[m]),
        decreases n - k,
    {
        let b = is_base_node(nodes, cur, ids[k]);
        flags.push(b);
        k += 1;
    }
    proof {
        assert forall|m: int| 0 <= m < n && flags@[m] implies is_kept(nodes@, cur, #[trigger] ids@[m]) by {
            lemma_path_single(nodes@, ids@[m]);
            lemma_first_index(nodes@, ids@[m]);
        }
    }
    loop
        invariant
            n == ids@.len(),
            ids@.no_duplicates(),
            flags@.len() == n,
            forall|m: int| 0 <= m < n && #[trigger] flags@[m] ==> is_kept(nodes@, cur, ids@[m]),
            forall|m: int| 0 <= m < n && is_base(nodes@, cur, #[trigger] ids@[m]) ==> flags@[m],
        ensures
            flags@.len() == n,
            forall|m: int| 0 <= m < n && #[trigger] flags@[m] ==> is_kept(nodes@, cur, ids@[m]),
            forall|m: int| 0 <= m < n && is_base(nodes@, cur, #[trigger] ids@[m]) ==> flags@[m],
            forall|m: int|
                0 <= m < n ==> flags@[m] || !has_id(nodes@, #[trigger] ids@[m]) || !child_flagged(
                    nodes@,
                    ids@,
                    flags@,
                    ids@[m],
                ),
        decreases n - count_true(flags@),
    {
        let ghost start = flags@;
        proof {
            if n > 0 {
                lemma_count_true(start, 0);
            }
        }
        let mut changed = false;
        let mut k: usize = 0;
        while k < n
            invariant
                n == ids@.len(),
                ids@.no_duplicates(),
                flags@.len() == n,
                start.len() == n,
                count_true(start) <= n,
                k <= n,
                forall|m: int| 0 <= m < n && #[trigger] flags@[m] ==> is_kept(nodes@, cur, ids@[m]),
                forall|m: int| 0 <= m < n && is_base(nodes@, cur, #[trigger] ids@[m]) ==> flags@[m],
                count_true(flags@) <= n,
                changed ==> count_true(flags@) > count_true(start),
                !changed ==> flags@ == start,
                !changed ==> forall|m: int|
                    0 <= m < k ==> flags@[m] || !has_id(nodes@, #[trigger] ids@[m]) || !child_flagged(
                        nodes@,
                        ids@,
                        flags@,
                        ids@[m],
                    ),
            decreases n - k,
        {
            if !flags[k] && has_node_id(nodes, ids[k]) {
                if has_flagged_child(nodes, ids, &flags, ids[k]) {
                    proof {
                        let x = ids@[k as int];
                        let j = choose|j: int|
                            0 <= j < nodes@.len() && #[trigger] nodes@[j].parent_id == key_of(x)
                                && is_flagged(ids@, flags@, nodes@[j].id);
                        let c = nodes@[j].id;
                        let m = choose|m: int| 0 <= m < ids@.len() && #[trigger] ids@[m] == c && flags@[m];
                        assert(is_kept(nodes@, cur, ids@[m]));
                        let d = choose|d: u32| #[trigger] reaches(nodes@, c, d) && is_base(nodes@, cur, d);
                        assert(is_child(nodes@, x, c));
                        lemma_child_reaches(nodes@, x, c, d);
                        lemma_count_true(flags@, k as int);
                    }
                    flags.set(k, true);
                    proof {
                        lemma_count_true(flags@, k as int);
                    }
                    changed = true;
                }
            }
            k += 1;
        }
        if !changed {
            break;
        }
    }
    proof {
        assert forall|m: int| 0 <= m < n implies flags@[m] == is_kept(nodes@, cur, #[trigger] ids@[m]) by {
            if is_kept(nodes@, cur, ids@[m]) {
                let x = ids@[m];
                let d = choose|d: u32| #[trigger] reaches(nodes@, x, d) && is_base(nodes@, cur, d);
                let p = choose|p: Seq<u32>| #[trigger] is_path(nodes@, p) && p[0] == x && p.last() == d;
                assert(ids@.contains(p[0]));
                lemma_closed_holds_path(nodes@, ids@, p);
                assert(ids@.contains(p[p.len() - 1]));
                let md = choose|md: int| 0 <= md < ids@.len() && ids@[md] == d;
                assert(flags@[md]);
                assert(is_flagged(ids@, flags@, p.last()));
                lemma_flag_path(nodes@, ids@, flags@, p);
                let m2 = choose|m2: int| 0 <= m2 < ids@.len() && #[trigger] ids@[m2] == x && flags@[m2];
                assert(ids@[m2] == ids@[m]);
            }
        }
    }
    flags
}

/// The nodes to drop from a tree whose current node is `cur`: those below
/// the root that nothing keeps, each once.
pub fn removable_ids(nodes: &Vec<Node>, cur: i32) -> (r: Vec<u32>)
    ensures
        r@.no_duplicates(),
        forall|x: u32| r@.contains(x) <==> is_removable(nodes@, cur, x),
{
    let ids = reachable_ids(nodes);
    proof {
        assert forall|x: u32, c: u32| ids@.contains(x) && #[trigger] is_child(nodes@, x, c) implies ids@.contains(c) by {
            lemma_reaches_child(nodes@, 0, x, c);
        }
    }
    let flags = kept_flags(nodes, cur, &ids);
    let n = ids.len();
    let mut r: Vec<u32> = Vec::new();
    let mut k: usize = 1;
    while k < n
        invariant
            n == ids@.len(),
            n >= 1,
            1 <= k <= n,
            ids@.no_duplicates(),
            flags@.len() == n,
            r@.no_duplicates(),
            forall|x: u32| r@.contains(x) <==> exists|m: int| 1 <= m < k && #[trigger] ids@[m] == x && !flags@[m],
        decreases n - k,
    {
        if !flags[k] {
            let x = ids[k];
            proof {
                assert(!r@.contains(x)) by {
                    if r@.contains(x) {
                        let m = choose|m: int| 1 <= m < k && #[trigger] ids@[m] == x && !flags@[m];
                        assert(ids@[m] == ids@[k as int]);
                    }
                }
            }
            let ghost old_r = r@;
            r.push(x);
            proof {
                assert forall|y: u32| r@.contains(y) <==> exists|m: int| 1 <= m < k + 1 && #[trigger] ids@[m] == y && !flags@[m] by {
                    if r@.contains(y) && y != x {
                        assert(old_r.contains(y));
                    }
                    if exists|m: int| 1 <= m < k + 1 && #[trigger] ids@[m] == y && !flags@[m] {
                        let m = choose|m: int| 1 <= m < k + 1 && #[trigger] ids@[m] == y && !flags@[m];
                        if m < k {
                            assert(old_r.contains(y));
                        }
                    }
                }
            }
        }
        k += 1;
    }
    proof {
        assert forall|x: u32| r@.contains(x) <==> is_removable(nodes@, cur, x) by {
            if r@.contains(x) {
                let m = choose|m: int| 1 <= m < n && #[trigger] ids@[m] == x && !flags@[m];
                assert(ids@[m] != ids@[0]);
                assert(ids@.contains(x));
            }
            if is_removable(nodes@, cur, x) {
                assert(ids@.contains(x));
                let m = choose|m: int| 0 <= m < n && ids@[m] == x;
                assert(m != 0);
            }
        }
    }
    r
}

/// The nodes left once the removable ones (see `is_removable`) are gone.
pub open spec fn cleaned(nodes: Seq<Node>, cur: i32) -> Seq<Node> {
    nodes.filter(|n: Node| !is_removable(nodes, cur, n.id))
}

/// Holds of the nodes whose id `del` does not list.
pub open spec fn not_listed(del: Seq<u32>) -> spec_fn(Node) -> bool {
    |n: Node| !del.contains(n.id)
}

/// `nodes` without those whose id `del` lists, in order.
pub fn drop_listed(nodes: Vec<Node>, del: &Vec<u32>) -> (r: Vec<Node>)
    ensures
        r@ == nodes@.filter(not_listed(del@)),
{
    let ghost all = nodes@;
    let mut r: Vec<Node> = Vec::new();
    for n in it: nodes.into_iter()
        invariant
            all == it.seq(),
            r@ == all.take(it.index()).filter(not_listed(del@)),
    {
        proof {
            assert(all.take(it.index() + 1) =~= all.take(it.index() as int).push(n));
            all.take(it.index() as int).lemma_filter_push(n, not_listed(del@));
        }
        if !vec_contains(del, n.id) {
            r.push(n);
        }
    }
    proof {
        assert(all.take(all.len() as int) =~= all);
    }
    r
}

} // verus!
