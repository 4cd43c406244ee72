use lapce_collab::crdt::{char_lt, comp_character, comp_id, comp_pos, Character, Id};
use lapce_collab::decimal::Dec;
use lapce_collab::keys::sort_keys;
use std::cmp::Ordering;

fn id(number: u32, user: u32) -> Id {
    Id { number, user }
}

fn ch(value: char, pos: &[(u32, u32)]) -> Character {
    Character {
        pos_id: pos.iter().map(|&(n, u)| id(n, u)).collect(),
        action_id: 0,
        value,
    }
}

#[test]
fn comp_id_orders_by_number_then_user() {
    assert_eq!(comp_id(id(1, 5), id(2, 1)), Ordering::Less);
    assert_eq!(comp_id(id(3, 1), id(2, 9)), Ordering::Greater);
    assert_eq!(comp_id(id(2, 1), id(2, 2)), Ordering::Less);
    assert_eq!(comp_id(id(2, 3), id(2, 2)), Ordering::Greater);
    assert_eq!(comp_id(id(4, 4), id(4, 4)), Ordering::Equal);
}

#[test]
fn comp_pos_is_lexicographic_with_prefix_first() {
    let a = vec![id(1, 1)];
    let b = vec![id(1, 1), id(5, 2)];
    let c = vec![id(2, 1)];
    assert_eq!(comp_pos(&a, &b), Ordering::Less);
    assert_eq!(comp_pos(&b, &a), Ordering::Greater);
    assert_eq!(comp_pos(&b, &c), Ordering::Less);
    assert_eq!(comp_pos(&c, &b), Ordering::Greater);
    assert_eq!(comp_pos(&b, &b.clone()), Ordering::Equal);
    assert_eq!(comp_pos(&Vec::new(), &Vec::new()), Ordering::Equal);
    assert_eq!(comp_pos(&Vec::new(), &a), Ordering::Less);
}

#[test]
fn comp_pos_uses_user_at_the_first_difference() {
    let a = vec![id(1, 2), id(1, 1)];
    let b = vec![id(1, 1), id(9, 9)];
    assert_eq!(comp_pos(&a, &b), Ordering::Greater);
    assert_eq!(comp_pos(&b, &a), Ordering::Less);
}

#[test]
fn comp_character_compares_positions_only() {
    let x = ch('x', &[(1, 1)]);
    let y = ch('a', &[(1, 1), (1, 2)]);
    assert_eq!(comp_character(&x, &y), Ordering::Less);
    assert_eq!(comp_character(&y, &x), Ordering::Greater);
    let z = ch('q', &[(1, 1)]);
    assert_eq!(comp_character(&x, &z), Ordering::Equal);
    assert!(char_lt(&x, &y));
    assert!(!char_lt(&y, &x));
    assert!(!char_lt(&x, &z));
}

#[test]
fn order_is_antisymmetric_and_transitive_on_examples() {
    let ps = vec![
        vec![id(0, 2), id(1, 2)],
        vec![id(1, 1)],
        vec![id(1, 1), id(1, 2)],
        vec![id(1, 2)],
        vec![id(2, 2)],
        vec![id(9, 1)],
    ];
    for i in 0..ps.len() {
        for j in 0..ps.len() {
            let expected = i.cmp(&j);
            assert_eq!(comp_pos(&ps[i], &ps[j]), expected);
        }
    }
}

#[test]
fn sort_keys_keeps_equal_numbers_in_order() {
    let v = vec![
        Dec { mantissa: 2, scale: 1 },
        Dec { mantissa: 10, scale: 2 },
        Dec { mantissa: 11, scale: 2 },
        Dec { mantissa: 1, scale: 1 },
        Dec { mantissa: 100, scale: 3 },
    ];
    let r = sort_keys(&v);
    let got: Vec<(i128, u32)> = r.iter().map(|d| (d.mantissa, d.scale)).collect();
    assert_eq!(got, vec![(10, 2), (1, 1), (100, 3), (11, 2), (2, 1)]);
}
