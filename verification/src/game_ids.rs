//! The game modes the manager knows, and searching them by name or id.

use vstd::prelude::*;
use crate::text::{contains_seq, decimal, decimal_string, lemma_contains_seq_trans, push_decimal, str_contains};

verus! {

/// The game modes, by name and id, in the order the table lists them.
pub open spec fn game_table() -> Seq<(Seq<char>, u32)> {
    seq![
        ("冒险模式"@, 0u32),
        ("生存模式：白天"@, 1u32),
        ("生存模式：黑夜"@, 2u32),
        ("生存模式：泳池"@, 3u32),
        ("生存模式：浓雾"@, 4u32),
        ("生存模式：屋顶"@, 5u32),
        ("生存模式：白天（困难）"@, 6u32),
        ("生存模式：黑夜（困难）"@, 7u32),
        ("生存模式：泳池（困难）"@, 8u32),
        ("生存模式：浓雾（困难）"@, 9u32),
        ("生存模式：屋顶（困难）"@, 10u32),
        ("生存模式：泳池（无尽）"@, 13u32),
        ("植物僵尸"@, 16u32),
        ("坚果保龄球模式"@, 17u32),
        ("老虎机"@, 18u32),
        ("雨中种植物"@, 19u32),
        ("宝石迷阵"@, 20u32),
        ("隐形食脑者"@, 21u32),
        ("看星星"@, 22u32),
        ("僵尸水族馆"@, 23u32),
        ("宝石迷阵转转看"@, 24u32),
        ("小僵尸大麻烦"@, 25u32),
        ("保护传送门"@, 26u32),
        ("你看，他们像柱子一样"@, 27u32),
        ("雪橇区"@, 28u32),
        ("僵尸快跑"@, 29u32),
        ("锤僵尸"@, 30u32),
        ("谁笑到最后"@, 31u32),
        ("植物僵尸2"@, 32u32),
        ("坚果保龄球2"@, 33u32),
        ("跳跳舞会"@, 34u32),
        ("僵王博士的复仇"@, 35u32),
        ("破罐者"@, 51u32),
        ("全部留下"@, 52u32),
        ("第3个罐子"@, 53u32),
        ("连锁反应"@, 54u32),
        ("M的意思是金属"@, 55u32),
        ("胆怯的制陶工"@, 56u32),
        ("变戏法"@, 57u32),
        ("另一个连锁反应"@, 58u32),
        ("罐子王牌"@, 59u32),
        ("无尽的试炼"@, 60u32),
        ("我是僵尸！"@, 61u32),
        ("我也是僵尸！"@, 62u32),
        ("你能铲了它么？"@, 63u32),
        ("完全傻了"@, 64u32),
        ("死亡飞艇"@, 65u32),
        ("我烂了！"@, 66u32),
        ("将是摇摆"@, 67u32),
        ("三连击"@, 68u32),
        ("你所有大脑都是属于我的"@, 69u32),
        ("我是僵尸无尽版"@, 70u32)
    ]
}

/// Character `k` of `s` as a digit: one more than its code point, or `0`
/// past the end.
pub open spec fn char_digit(s: Seq<char>, k: int) -> int {
    if 0 <= k < s.len() {
        s[k] as int + 1
    } else {
        0
    }
}

/// The first eleven characters of `s` read as the digits of a number in
/// base `0x110001`, the first character lowest.  Equal texts have equal
/// codes, so texts with different codes differ.
pub open spec fn name_code(s: Seq<char>) -> int {
    let b = 0x110001int;
    char_digit(s, 0) + b * (char_digit(s, 1) + b * (char_digit(s, 2) + b * (char_digit(s, 3) + b * (
    char_digit(s, 4) + b * (char_digit(s, 5) + b * (char_digit(s, 6) + b * (char_digit(s, 7) + b * (
    char_digit(s, 8) + b * (char_digit(s, 9) + b * char_digit(s, 10))))))))))
}

/// The codes (see `name_code`) of the names of `v`.
#[verifier::opaque]
pub open spec fn name_codes(v: Seq<(String, u32)>) -> Set<int> {
    Set::new(|c: int| exists|i: int| 0 <= i < v.len() && name_code(#[trigger] v[i].0@) == c)
}

/// No two entries of `v` share a name, and the ids ascend.
#[verifier::opaque]
pub open spec fn is_mode_list(v: Seq<(String, u32)>) -> bool {
    &&& forall|i: int, j: int| 0 <= i < j < v.len() ==> #[trigger] v[i].0@ != #[trigger] v[j].0@
    &&& forall|i: int, j: int| 0 <= i < j < v.len() ==> #[trigger] v[i].1 < #[trigger] v[j].1
}

/// Appends the entry `name`, `id` to a list of modes whose last id is below
/// `id` and whose names all have codes other than that of `name`.
fn push_mode(v: &mut Vec<(String, u32)>, name: &str, id: u32)
    requires
        is_mode_list(old(v)@),
        old(v)@.len() == 0 || old(v)@.last().1 < id,
        !name_codes(old(v)@).contains(name_code(name@)),
    ensures
        is_mode_list(final(v)@),
        entries_view(final(v)@) == entries_view(old(v)@).push((name@, id)),
        final(v)@.last().1 == id,
        name_codes(final(v)@) == name_codes(old(v)@).insert(name_code(name@)),
{
    let ghost before = v@;
    v.push((String::from_str(name), id));
    proof {
        reveal(is_mode_list);
        reveal(name_codes);
        let after = v@;
        assert forall|i: int| 0 <= i < before.len() implies #[trigger] before[i].1 < id by {
            if i < before.len() - 1 {
                assert(before[i].1 < before[before.len() - 1].1);
            }
        }
        assert(entries_view(after) =~= entries_view(before).push((name@, id)));
        assert forall|i: int| 0 <= i < before.len() implies #[trigger] after[i].0@ != name@ by {
            assert(after[i] == before[i]);
            if before[i].0@ == name@ {
                assert(name_codes(before).contains(name_code(before[i].0@)));
            }
        }
        assert forall|i: int, j: int| 0 <= i < j < after.len() implies #[trigger] after[i].0@ != #[trigger] after[j].0@ by {
            if j < before.len() {
                assert(after[i] == before[i] && after[j] == before[j]);
            }
        }
        assert forall|i: int, j: int| 0 <= i < j < after.len() implies #[trigger] after[i].1 < #[trigger] after[j].1 by {
            assert(after[i] == before[i]);
            if j < before.len() {
                assert(after[j] == before[j]);
            }
        }
        assert(name_codes(after) =~= name_codes(before).insert(name_code(name@))) by {
            assert forall|c: int| name_codes(after).contains(c) implies name_codes(before).insert(name_code(name@)).contains(c) by {
                let i = choose|i: int| 0 <= i < after.len() && name_code(#[trigger] after[i].0@) == c;
                if i < before.len() {
                    assert(after[i] == before[i]);
                }
            }
            assert forall|c: int| name_codes(before).insert(name_code(name@)).contains(c) implies name_codes(after).contains(c) by {
                if c == name_code(name@) {
                    assert(name_code(after[before.len() as int].0@) == c);
                } else {
                    let i = choose|i: int| 0 <= i < before.len() && name_code(#[trigger] before[i].0@) == c;
                    assert(after[i] == before[i]);
                    assert(name_code(after[i].0@) == c);
                }
            }
        }
    }
}

/// The names and ids of the game modes (see `game_table`), in table order:
/// each name occurs once, and the ids ascend.
#[verifier::rlimit(100)]
pub fn load_game_ids() -> (v: Vec<(String, u32)>)
    ensures
        entries_view(v@) == game_table(),
        is_mode_list(v@),
{
    proof {
        reveal_strlit("冒险模式");
        reveal_strlit("生存模式：白天");
        reveal_strlit("生存模式：黑夜");
        reveal_strlit("生存模式：泳池");
        reveal_strlit("生存模式：浓雾");
        reveal_strlit("生存模式：屋顶");
        reveal_strlit("生存模式：白天（困难）");
        reveal_strlit("生存模式：黑夜（困难）");
        reveal_strlit("生存模式：泳池（困难）");
        reveal_strlit("生存模式：浓雾（困难）");
        reveal_strlit("生存模式：屋顶（困难）");
        reveal_strlit("生存模式：泳池（无尽）");
        reveal_strlit("植物僵尸");
        reveal_strlit("坚果保龄球模式");
        reveal_strlit("老虎机");
        reveal_strlit("雨中种植物");
        reveal_strlit("宝石迷阵");
        reveal_strlit("隐形食脑者");
        reveal_strlit("看星星");
        reveal_strlit("僵尸水族馆");
        reveal_strlit("宝石迷阵转转看");
        reveal_strlit("小僵尸大麻烦");
        reveal_strlit("保护传送门");
        reveal_strlit("你看，他们像柱子一样");
        reveal_strlit("雪橇区");
        reveal_strlit("僵尸快跑");
        reveal_strlit("锤僵尸");
        reveal_strlit("谁笑到最后");
        reveal_strlit("植物僵尸2");
        reveal_strlit("坚果保龄球2");
        reveal_strlit("跳跳舞会");
        reveal_strlit("僵王博士的复仇");
        reveal_strlit("破罐者");
        reveal_strlit("全部留下");
        reveal_strlit("第3个罐子");
        reveal_strlit("连锁反应");
        reveal_strlit("M的意思是金属");
        reveal_strlit("胆怯的制陶工");
        reveal_strlit("变戏法");
        reveal_strlit("另一个连锁反应");
        reveal_strlit("罐子王牌");
        reveal_strlit("无尽的试炼");
        reveal_strlit("我是僵尸！");
        reveal_strlit("我也是僵尸！");
        reveal_strlit("你能铲了它么？");
        reveal_strlit("完全傻了");
        reveal_strlit("死亡飞艇");
        reveal_strlit("我烂了！");
        reveal_strlit("将是摇摆");
        reveal_strlit("三连击");
        reveal_strlit("你所有大脑都是属于我的");
        reveal_strlit("我是僵尸无尽版");
    }
    let mut v: Vec<(String, u32)> = Vec::new();
    proof {
        reveal(is_mode_list);
        reveal(name_codes);
        assert(name_codes(v@) =~= Set::<int>::empty());
    }
    push_mode(&mut v, "冒险模式", 0);
    push_mode(&mut v, "生存模式：白天", 1);
    push_mode(&mut v, "生存模式：黑夜", 2);
    push_mode(&mut v, "生存模式：泳池", 3);
    push_mode(&mut v, "生存模式：浓雾", 4);
    push_mode(&mut v, "生存模式：屋顶", 5);
    push_mode(&mut v, "生存模式：白天（困难）", 6);
    push_mode(&mut v, "生存模式：黑夜（困难）", 7);
    push_mode(&mut v, "生存模式：泳池（困难）", 8);
    push_mode(&mut v, "生存模式：浓雾（困难）", 9);
    push_mode(&mut v, "生存模式：屋顶（困难）", 10);
    push_mode(&mut v, "生存模式：泳池（无尽）", 13);
    push_mode(&mut v, "植物僵尸", 16);
    push_mode(&mut v, "坚果保龄球模式", 17);
    push_mode(&mut v, "老虎机", 18);
    push_mode(&mut v, "雨中种植物", 19);
    push_mode(&mut v, "宝石迷阵", 20);
    push_mode(&mut v, "隐形食脑者", 21);
    push_mode(&mut v, "看星星", 22);
    push_mode(&mut v, "僵尸水族馆", 23);
    push_mode(&mut v, "宝石迷阵转转看", 24);
    push_mode(&mut v, "小僵尸大麻烦", 25);
    push_mode(&mut v, "保护传送门", 26);
    push_mode(&mut v, "你看，他们像柱子一样", 27);
    push_mode(&mut v, "雪橇区", 28);
    push_mode(&mut v, "僵尸快跑", 29);
    push_mode(&mut v, "锤僵尸", 30);
    push_mode(&mut v, "谁笑到最后", 31);
    push_mode(&mut v, "植物僵尸2", 32);
    push_mode(&mut v, "坚果保龄球2", 33);
    push_mode(&mut v, "跳跳舞会", 34);
    push_mode(&mut v, "僵王博士的复仇", 35);
    push_mode(&mut v, "破罐者", 51);
    push_mode(&mut v, "全部留下", 52);
    push_mode(&mut v, "第3个罐子", 53);
    push_mode(&mut v, "连锁反应", 54);
    push_mode(&mut v, "M的意思是金属", 55);
    push_mode(&mut v, "胆怯的制陶工", 56);
    push_mode(&mut v, "变戏法", 57);
    push_mode(&mut v, "另一个连锁反应", 58);
    push_mode(&mut v, "罐子王牌", 59);
    push_mode(&mut v, "无尽的试炼", 60);
    push_mode(&mut v, "我是僵尸！", 61);
    push_mode(&mut v, "我也是僵尸！", 62);
    push_mode(&mut v, "你能铲了它么？", 63);
    push_mode(&mut v, "完全傻了", 64);
    push_mode(&mut v, "死亡飞艇", 65);
    push_mode(&mut v, "我烂了！", 66);
    push_mode(&mut v, "将是摇摆", 67);
    push_mode(&mut v, "三连击", 68);
    push_mode(&mut v, "你所有大脑都是属于我的", 69);
    push_mode(&mut v, "我是僵尸无尽版", 70);
    v
}

/// The name and id of an entry, as plain values.
pub open spec fn entry_view(e: (String, u32)) -> (Seq<char>, u32) {
    (e.0@, e.1)
}

/// The entries of a table, as plain values.
pub open spec fn entries_view(v: Seq<(String, u32)>) -> Seq<(Seq<char>, u32)> {
    v.map_values(|e: (String, u32)| entry_view(e))
}

/// An entry matches a query when the query occurs in its name or in the
/// decimal numeral of its id.
pub open spec fn matches_query(q: Seq<char>) -> spec_fn((Seq<char>, u32)) -> bool {
    |e: (Seq<char>, u32)| contains_seq(e.0, q) || contains_seq(decimal(e.1 as nat), q)
}

/// The entries are in ascending order of id.
pub open spec fn sorted_by_id(v: Seq<(Seq<char>, u32)>) -> bool {
    forall|i: int, j: int| 0 <= i < j < v.len() ==> #[trigger] v[i].1 <= #[trigger] v[j].1
}

/// Whether `query` occurs in `name` or in the decimal numeral of `id`.
pub fn entry_matches(name: &String, id: u32, query: &str) -> (r: bool)
    ensures
        r == matches_query(query@)((name@, id)),
{
    if str_contains(name.as_str(), query) {
        return true;
    }
    let digits = decimal_string(id);
    str_contains(digits.as_str(), query)
}

/// The entries of `game_ids` that match `query` (see `matches_query`),
/// sorted by id.
pub fn search_game_id(game_ids: &Vec<(String, u32)>, query: &str) -> (r: Vec<(String, u32)>)
    ensures
        sorted_by_id(entries_view(r@)),
        entries_view(r@).to_multiset() == entries_view(game_ids@).filter(matches_query(query@)).to_multiset(),
{
    broadcast use vstd::seq_lib::group_to_multiset_ensures;
    let mut found: Vec<(String, u32)> = Vec::new();
    let mut i: usize = 0;
    while i < game_ids.len()
        invariant
            i <= game_ids@.len(),
            entries_view(found@) == entries_view(game_ids@.take(i as int)).filter(matches_query(query@)),
        decreases game_ids@.len() - i,
    {
        let name = &game_ids[i].0;
        let id = game_ids[i].1;
        proof {
            assert(entries_view(game_ids@.take(i + 1)) =~= entries_view(game_ids@.take(i as int)).push(
                (name@, id),
            ));
            entries_view(game_ids@.take(i as int)).lemma_filter_push((name@, id), matches_query(query@));
        }
        if entry_matches(name, id, query) {
            found.push((name.clone(), id));
        }
        proof {
            assert(entries_view(found@) =~= entries_view(game_ids@.take(i + 1)).filter(matches_query(query@)));
        }
        i += 1;
    }
    proof {
        assert(game_ids@.take(game_ids@.len() as int) =~= game_ids@);
    }
    let ghost all = found@;
    let mut r: Vec<(String, u32)> = Vec::new();
    for e in it: found.into_iter()
        invariant
            all == it.seq(),
            sorted_by_id(entries_view(r@)),
            entries_view(r@).to_multiset() == entries_view(all.take(it.index())).to_multiset(),
    {
        let mut pos: usize = 0;
        while pos < r.len() && r[pos].1 <= e.1
            invariant
                all == it.seq(),
                sorted_by_id(entries_view(r@)),
                entries_view(r@).to_multiset() == entries_view(all.take(it.index())).to_multiset(),
                pos <= r@.len(),
                forall|j: int| 0 <= j < pos ==> r@[j].1 <= e.1,
            decreases r@.len() - pos,
        {
            pos += 1;
        }
        assert(pos < r@.len() ==> r@[pos as int].1 > e.1);
        let ghost old_r = r@;
        r.insert(pos, e);
        proof {
            assert(entries_view(r@) =~= entries_view(old_r).insert(pos as int, entry_view(e)));
            vstd::seq_lib::to_multiset_insert(entries_view(old_r), pos as int, entry_view(e));
            assert(entries_view(all.take(it.index() + 1)) =~= entries_view(all.take(it.index() as int)).push(
                entry_view(e),
            ));
            let prev = entries_view(all.take(it.index() as int));
            prev.to_multiset_ensures();
            assert(prev.push(entry_view(e)).to_multiset() =~= prev.to_multiset().insert(entry_view(e)));
            assert(entries_view(r@).to_multiset() =~= entries_view(old_r).to_multiset().insert(entry_view(e)));
            assert forall|a: int, b: int| 0 <= a < b < r@.len() implies #[trigger] entries_view(r@)[a].1
                <= #[trigger] entries_view(r@)[b].1 by {
                let ov = entries_view(old_r);
                if b < pos {
                    assert(ov[a].1 <= ov[b].1);
                } else if b == pos {
                } else if a < pos {
                    assert(r@[a].1 <= e.1);
                    assert(old_r[pos as int].1 > e.1);
                    if b - 1 > pos {
                        assert(ov[pos as int].1 <= ov[b - 1].1);
                    }
                } else if a == pos {
                    assert(old_r[pos as int].1 > e.1);
                    if b - 1 > pos {
                        assert(ov[pos as int].1 <= ov[b - 1].1);
                    }
                } else {
                    assert(ov[a - 1].1 <= ov[b - 1].1);
                }
            }
        }
    }
    proof {
        assert(all.take(all.len() as int) =~= all);
    }
    r
}

/// Lengthening the query only drops matches: when `q1` occurs in `q2`, the
/// entries that match `q2` are exactly those entries matching `q1` that
/// also match `q2`, so each of them matches `q1`.
pub proof fn law_longer_query_narrows_search(t: Seq<(Seq<char>, u32)>, q1: Seq<char>, q2: Seq<char>)
    requires
        contains_seq(q2, q1),
    ensures
        t.filter(matches_query(q1)).filter(matches_query(q2)) == t.filter(matches_query(q2)),
        forall|e: (Seq<char>, u32)| t.filter(matches_query(q2)).contains(e) ==> t.filter(matches_query(q1)).contains(e),
    decreases t.len(),
{
    broadcast use vstd::seq_lib::group_filter_ensures;
    let m1 = matches_query(q1);
    let m2 = matches_query(q2);
    if t.len() == 0 {
        assert(t.filter(m1).len() == 0);
        assert(t.filter(m2).len() == 0);
        assert(t.filter(m1).filter(m2).len() == 0);
        assert(t.filter(m1).filter(m2) =~= t.filter(m2));
    } else {
        let r = t.drop_last();
        let e = t.last();
        assert(r.push(e) =~= t);
        law_longer_query_narrows_search(r, q1, q2);
        r.lemma_filter_push(e, m1);
        r.lemma_filter_push(e, m2);
        if m2(e) {
            if contains_seq(e.0, q2) {
                lemma_contains_seq_trans(e.0, q2, q1);
            } else {
                lemma_contains_seq_trans(decimal(e.1 as nat), q2, q1);
            }
            assert(m1(e));
            r.filter(m1).lemma_filter_push(e, m2);
        } else if m1(e) {
            r.filter(m1).lemma_filter_push(e, m2);
        }
    }
    assert forall|e: (Seq<char>, u32)| t.filter(m2).contains(e) implies t.filter(m1).contains(e) by {
        let k = choose|k: int| 0 <= k < t.filter(m2).len() && t.filter(m2)[k] == e;
        assert(t.filter(m1).filter(m2)[k] == e);
        t.filter(m1).lemma_filter_contains_rev(m2, e);
    }
}

/// The name of game `game_id` in `game_ids` (the first entry with that id),
/// or `Unknown (<id>)` when no entry has it.
pub fn game_name(game_ids: &Vec<(String, u32)>, game_id: u32) -> (r: String)
    ensures
        ({
            let v = entries_view(game_ids@);
            match first_entry_with_id(v, game_id) {
                Some(i) => r@ == v[i].0,
                None => r@ == "Unknown ("@ + decimal(game_id as nat) + ")"@,
            }
        }),
{
    let mut i: usize = 0;
    while i < game_ids.len()
        invariant
            i <= game_ids@.len(),
            forall|j: int| 0 <= j < i ==> game_ids@[j].1 != game_id,
        decreases game_ids@.len() - i,
    {
        if game_ids[i].1 == game_id {
            proof {
                let v = entries_view(game_ids@);
                lemma_first_entry_with_id(v, game_id);
                assert(v[i as int].1 == game_id);
                match first_entry_with_id(v, game_id) {
                    Some(i0) => {
                        if i0 < i {
                            assert(v[i0].1 == game_ids@[i0].1);
                        }
                        assert(i0 == i);
                    },
                    None => {},
                }
            }
            return game_ids[i].0.clone();
        }
        i += 1;
    }
    proof {
        lemma_first_entry_with_id(entries_view(game_ids@), game_id);
    }
    let mut r = String::from_str("Unknown (");
    push_decimal(&mut r, game_id);
    r.append(")");
    r
}

/// The position of the first entry with id `id`, if any.
pub open spec fn first_entry_with_id(v: Seq<(Seq<char>, u32)>, id: u32) -> Option<int>
    decreases v.len(),
{
    if v.len() == 0 {
        None
    } else if v[0].1 == id {
        Some(0)
    } else {
        match first_entry_with_id(v.drop_first(), id) {
            Some(i) => Some(i + 1),
            None => None,
        }
    }
}

/// `first_entry_with_id` gives the least position holding the id.
pub proof fn lemma_first_entry_with_id(v: Seq<(Seq<char>, u32)>, id: u32)
    ensures
        match first_entry_with_id(v, id) {
            Some(i) => 0 <= i < v.len() && v[i].1 == id && forall|j: int| 0 <= j < i ==> #[trigger] v[j].1 != id,
            None => forall|j: int| 0 <= j < v.len() ==> #[trigger] v[j].1 != id,
        },
    decreases v.len(),
{
    if v.len() > 0 && v[0].1 != id {
        let rest = v.drop_first();
        lemma_first_entry_with_id(rest, id);
        match first_entry_with_id(rest, id) {
            Some(i) => {
                assert forall|j: int| 0 <= j < i + 1 implies #[trigger] v[j].1 != id by {
                    if j > 0 {
                        assert(v[j] == rest[j - 1]);
                    }
                }
            },
            None => {
                assert forall|j: int| 0 <= j < v.len() implies #[trigger] v[j].1 != id by {
                    if j > 0 {
                        assert(v[j] == rest[j - 1]);
                    }
                }
            },
        }
    }
}

} // verus!
