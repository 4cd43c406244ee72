use lapce_collab::collab::{
    apply_change_response, character_from_change, flatten_rows, generate_initial_crdt,
    ChangeResponse, Position,
};
use lapce_collab::crdt::{comp_pos, Character, Id};
use lapce_collab::document::{document_text, insert_character, sort_characters};
use std::cmp::Ordering;

fn pos(number: &str, user: &str) -> Position {
    Position { number: number.to_string(), user: user.to_string() }
}

fn change(value: &str, levels: Vec<Position>) -> ChangeResponse {
    ChangeResponse { action: "new_change".to_string(), value: value.to_string(), position_id: levels }
}

fn ch(value: char, pos: &[(u32, u32)]) -> Character {
    Character {
        pos_id: pos.iter().map(|&(number, user)| Id { number, user }).collect(),
        action_id: 0,
        value,
    }
}

fn pairs(c: &Character) -> Vec<(u32, u32)> {
    c.pos_id.iter().map(|i| (i.number, i.user)).collect()
}

fn text(doc: &[Character]) -> String {
    doc.iter().map(|c| c.value).collect()
}

#[test]
fn initial_replica_of_lines() {
    let rows = generate_initial_crdt("ab\nc".to_string(), 1);
    assert_eq!(rows.len(), 2);
    assert_eq!(text(&rows[0]), "ab\n");
    assert_eq!(text(&rows[1]), "c");
    assert_eq!(pairs(&rows[0][0]), vec![(1, 1)]);
    assert_eq!(pairs(&rows[0][1]), vec![(2, 1)]);
    assert_eq!(pairs(&rows[0][2]), vec![(3, 1)]);
    assert_eq!(pairs(&rows[1][0]), vec![(4, 1)]);
    assert!(rows.iter().flatten().all(|c| c.action_id == 0));
}

#[test]
fn initial_replica_of_empty_file() {
    let rows = generate_initial_crdt(String::new(), 3);
    assert_eq!(rows.len(), 1);
    assert!(rows[0].is_empty());
}

#[test]
fn initial_replica_ending_in_newline() {
    let rows = generate_initial_crdt("a\n".to_string(), 2);
    assert_eq!(rows.len(), 2);
    assert_eq!(text(&rows[0]), "a\n");
    assert!(rows[1].is_empty());
    assert_eq!(pairs(&rows[0][1]), vec![(2, 2)]);
}

#[test]
fn initial_positions_of_ten_characters_follow_the_sorted_fractions() {
    let rows = generate_initial_crdt("abcdefghij".to_string(), 1);
    assert_eq!(rows.len(), 1);
    let row = &rows[0];
    assert_eq!(text(row), "abcdefghij");
    assert_eq!(pairs(&row[0]), vec![(1, 1)]);
    assert_eq!(pairs(&row[1]), vec![(1, 1), (1, 1)]);
    assert_eq!(pairs(&row[2]), vec![(2, 1)]);
    assert_eq!(pairs(&row[9]), vec![(9, 1)]);
}

#[test]
fn initial_positions_strictly_increase() {
    let content: String = (0..130).map(|i| if i % 17 == 16 { '\n' } else { 'x' }).collect();
    let rows = generate_initial_crdt(content.clone(), 4);
    let flat: Vec<Character> = rows.into_iter().flatten().collect();
    assert_eq!(text(&flat), content);
    for w in flat.windows(2) {
        assert_eq!(comp_pos(&w[0].pos_id, &w[1].pos_id), Ordering::Less);
    }
}

#[test]
fn change_is_read_into_a_character() {
    let c = change("B", vec![pos("1", "1"), pos("1", "2")]);
    let r = character_from_change(&c).unwrap();
    assert_eq!(r.value, 'B');
    assert_eq!(r.action_id, 0);
    assert_eq!(pairs(&r), vec![(1, 1), (1, 2)]);
    let plus = change("xy", vec![pos("+4294967295", "0")]);
    let r = character_from_change(&plus).unwrap();
    assert_eq!(r.value, 'x');
    assert_eq!(pairs(&r), vec![(4294967295, 0)]);
}

#[test]
fn unreadable_changes_give_none() {
    assert!(character_from_change(&change("B", vec![pos("x", "1")])).is_none());
    assert!(character_from_change(&change("B", vec![pos("1", "")])).is_none());
    assert!(character_from_change(&change("B", vec![pos("4294967296", "1")])).is_none());
    assert!(character_from_change(&change("B", vec![pos("-1", "1")])).is_none());
    assert!(character_from_change(&change("", vec![pos("1", "1")])).is_none());
}

#[test]
fn change_joins_the_replica_in_order() {
    let rows = generate_initial_crdt("ac".to_string(), 1);
    let doc = flatten_rows(rows);
    let c = change("b", vec![pos("1", "1"), pos("1", "2")]);
    let (doc, content) = apply_change_response(doc, &c).unwrap();
    assert_eq!(content, "abc");
    assert_eq!(text(&doc), "abc");
    let (doc, content) = apply_change_response(doc, &change("_", vec![pos("0", "2")])).unwrap();
    assert_eq!(content, "_abc");
    let (_, content) = apply_change_response(doc, &change("!", vec![pos("9", "2")])).unwrap();
    assert_eq!(content, "_abc!");
}

#[test]
fn unreadable_change_is_refused() {
    let doc = flatten_rows(generate_initial_crdt("ac".to_string(), 1));
    assert!(apply_change_response(doc, &change("b", vec![pos("one", "1")])).is_none());
}

#[test]
fn changes_commute() {
    let base = flatten_rows(generate_initial_crdt("ac".to_string(), 1));
    let a = change("x", vec![pos("1", "1"), pos("5", "2")]);
    let b = change("y", vec![pos("1", "1"), pos("5", "3")]);
    let (d1, _) = apply_change_response(base.clone(), &a).unwrap();
    let (d1, t1) = apply_change_response(d1, &b).unwrap();
    let (d2, _) = apply_change_response(base, &b).unwrap();
    let (d2, t2) = apply_change_response(d2, &a).unwrap();
    assert_eq!(t1, t2);
    assert_eq!(t1, "axyc");
    let p1: Vec<Vec<(u32, u32)>> = d1.iter().map(pairs).collect();
    let p2: Vec<Vec<(u32, u32)>> = d2.iter().map(pairs).collect();
    assert_eq!(p1, p2);
}

#[test]
fn flatten_keeps_line_order() {
    let rows = vec![vec![ch('a', &[(1, 1)])], vec![], vec![ch('b', &[(2, 1)]), ch('c', &[(3, 1)])]];
    let flat = flatten_rows(rows);
    assert_eq!(text(&flat), "abc");
    assert!(flatten_rows(Vec::new()).is_empty());
}

#[test]
fn sorting_is_stable_at_equal_positions() {
    let v = vec![
        ch('c', &[(3, 1)]),
        ch('x', &[(1, 1)]),
        ch('a', &[(1, 1), (0, 1)]),
        ch('y', &[(1, 1)]),
        ch('z', &[(1, 1)]),
    ];
    let r = sort_characters(v);
    assert_eq!(text(&r), "xyzac");
}

#[test]
fn insert_character_puts_new_character_after_equal_positions() {
    let doc = vec![ch('a', &[(1, 1)]), ch('b', &[(2, 1)])];
    let r = insert_character(doc, ch('n', &[(1, 1)]));
    assert_eq!(text(&r), "anb");
    assert_eq!(document_text(&r), "anb");
    assert_eq!(document_text(&Vec::new()), "");
}

#[test]
fn sorting_has_one_result_for_distinct_positions() {
    let a = ch('a', &[(1, 1)]);
    let b = ch('b', &[(1, 1), (5, 2)]);
    let c = ch('c', &[(2, 1)]);
    let d = ch('d', &[(2, 2)]);
    let orders = vec![
        vec![a.clone(), b.clone(), c.clone(), d.clone()],
        vec![d.clone(), c.clone(), b.clone(), a.clone()],
        vec![c.clone(), a.clone(), d.clone(), b.clone()],
    ];
    for v in orders {
        assert_eq!(text(&sort_characters(v)), "abcd");
    }
    let sorted = sort_characters(vec![a, b, c, d]);
    let again = sort_characters(sorted.clone());
    assert_eq!(text(&again), text(&sorted));
}

#[test]
fn changes_at_one_position_keep_their_arrival_order() {
    let base = flatten_rows(generate_initial_crdt("ac".to_string(), 1));
    let a = change("x", vec![pos("1", "1"), pos("5", "2")]);
    let b = change("y", vec![pos("1", "1"), pos("5", "2")]);
    let (d1, _) = apply_change_response(base.clone(), &a).unwrap();
    let (_, t1) = apply_change_response(d1, &b).unwrap();
    let (d2, _) = apply_change_response(base, &b).unwrap();
    let (_, t2) = apply_change_response(d2, &a).unwrap();
    assert_eq!(t1, "axyc");
    assert_eq!(t2, "ayxc");
}

#[test]
fn files_of_one_length_get_the_same_digits() {
    let a: Vec<Character> = generate_initial_crdt("ab\ncdefghijkl".to_string(), 1).into_iter().flatten().collect();
    let b: Vec<Character> = generate_initial_crdt("zzzzzzzzzzzzz".to_string(), 2).into_iter().flatten().collect();
    assert_eq!(a.len(), b.len());
    for k in 0..a.len() {
        let na: Vec<u32> = a[k].pos_id.iter().map(|i| i.number).collect();
        let nb: Vec<u32> = b[k].pos_id.iter().map(|i| i.number).collect();
        assert_eq!(na, nb);
        assert!(a[k].pos_id.iter().all(|i| i.user == 1));
        assert!(b[k].pos_id.iter().all(|i| i.user == 2));
    }
}

#[test]
fn three_changes_in_any_order_converge() {
    let base = flatten_rows(generate_initial_crdt("ac".to_string(), 1));
    let cs = vec![
        change("x", vec![pos("1", "1"), pos("5", "2")]),
        change("y", vec![pos("1", "1"), pos("5", "3")]),
        change("z", vec![pos("0", "2")]),
    ];
    let orders = [[0, 1, 2], [0, 2, 1], [1, 0, 2], [1, 2, 0], [2, 0, 1], [2, 1, 0]];
    for order in orders {
        let mut doc = base.clone();
        let mut text = String::new();
        for k in order {
            let (d, t) = apply_change_response(doc, &cs[k]).unwrap();
            doc = d;
            text = t;
        }
        assert_eq!(text, "zaxyc");
    }
}
