use pvz_manager::game_ids::{game_name, load_game_ids, search_game_id};

#[test]
fn the_table_lists_every_mode_once() {
    let t = load_game_ids();
    assert_eq!(t.len(), 52);
    assert_eq!(t[0], ("冒险模式".to_string(), 0));
    assert_eq!(t[51], ("我是僵尸无尽版".to_string(), 70));
    let mut ids: Vec<u32> = t.iter().map(|e| e.1).collect();
    ids.sort();
    ids.dedup();
    assert_eq!(ids.len(), 52);
    assert!(t.contains(&("僵王博士的复仇".to_string(), 35)));
}

#[test]
fn search_by_name_is_sorted_by_id() {
    let t = load_game_ids();
    let r = search_game_id(&t, "泳池");
    assert_eq!(
        r,
        vec![
            ("生存模式：泳池".to_string(), 3),
            ("生存模式：泳池（困难）".to_string(), 8),
            ("生存模式：泳池（无尽）".to_string(), 13),
        ]
    );
}

#[test]
fn search_matches_digits_of_ids_and_names() {
    let t = load_game_ids();
    let ids: Vec<u32> = search_game_id(&t, "3").iter().map(|e| e.1).collect();
    assert_eq!(ids, vec![3, 13, 23, 30, 31, 32, 33, 34, 35, 53, 63]);
    let ids2: Vec<u32> = search_game_id(&t, "2").iter().map(|e| e.1).collect();
    assert_eq!(ids2, vec![2, 20, 21, 22, 23, 24, 25, 26, 27, 28, 29, 32, 33, 52, 62]);
}

#[test]
fn search_with_an_empty_query_gives_everything() {
    let t = load_game_ids();
    let r = search_game_id(&t, "");
    assert_eq!(r.len(), 52);
    assert!(r.windows(2).all(|w| w[0].1 <= w[1].1));
}

#[test]
fn search_with_no_match_gives_nothing() {
    let t = load_game_ids();
    assert!(search_game_id(&t, "不存在的模式").is_empty());
}

#[test]
fn search_sorts_an_unsorted_table() {
    let t = vec![
        ("c".to_string(), 9),
        ("a".to_string(), 1),
        ("b".to_string(), 5),
        ("x".to_string(), 40),
    ];
    assert_eq!(
        search_game_id(&t, "a"),
        vec![("a".to_string(), 1)]
    );
    let all: Vec<u32> = search_game_id(&t, "").iter().map(|e| e.1).collect();
    assert_eq!(all, vec![1, 5, 9, 40]);
    let four: Vec<u32> = search_game_id(&t, "4").iter().map(|e| e.1).collect();
    assert_eq!(four, vec![40]);
}

#[test]
fn game_name_finds_the_mode_or_says_unknown() {
    let t = load_game_ids();
    assert_eq!(game_name(&t, 0), "冒险模式");
    assert_eq!(game_name(&t, 35), "僵王博士的复仇");
    assert_eq!(game_name(&t, 99), "Unknown (99)");
}

#[test]
fn a_longer_query_only_drops_matches() {
    let t = load_game_ids();
    let short = search_game_id(&t, "僵尸");
    let long = search_game_id(&t, "僵尸水");
    assert_eq!(long, vec![("僵尸水族馆".to_string(), 23)]);
    assert!(long.iter().all(|e| short.contains(e)));
    assert!(short.len() > long.len());
    let by_digit = search_game_id(&t, "3");
    let by_digits = search_game_id(&t, "33");
    assert_eq!(by_digits.iter().map(|e| e.1).collect::<Vec<u32>>(), vec![33]);
    assert!(by_digits.iter().all(|e| by_digit.contains(e)));
}

#[test]
fn the_table_names_each_mode_once() {
    let t = load_game_ids();
    let mut names: Vec<&String> = t.iter().map(|e| &e.0).collect();
    names.sort();
    names.dedup();
    assert_eq!(names.len(), 52);
    assert!(t.windows(2).all(|w| w[0].1 < w[1].1));
}
