use lapce_collab::crdt::{comp_pos, Id};
use lapce_collab::limits::can_generate_pos_id;
use lapce_collab::position::generate_pos_id;
use std::cmp::Ordering;

fn ids(v: &[(u32, u32)]) -> Vec<Id> {
    v.iter().map(|&(number, user)| Id { number, user }).collect()
}

fn pairs(v: &[Id]) -> Vec<(u32, u32)> {
    v.iter().map(|i| (i.number, i.user)).collect()
}

#[test]
fn first_character_gets_one() {
    let r = generate_pos_id(Vec::new(), Vec::new(), 7);
    assert_eq!(pairs(&r), vec![(1, 7)]);
}

#[test]
fn between_neighbouring_digits_a_level_is_added() {
    let r = generate_pos_id(ids(&[(1, 1)]), ids(&[(2, 1)]), 2);
    assert_eq!(pairs(&r), vec![(1, 1), (1, 2)]);
}

#[test]
fn a_wide_gap_takes_the_next_digit() {
    let r = generate_pos_id(ids(&[(1, 1)]), ids(&[(3, 1)]), 2);
    assert_eq!(pairs(&r), vec![(2, 2)]);
}

#[test]
fn after_the_last_character() {
    let r = generate_pos_id(ids(&[(1, 1)]), Vec::new(), 2);
    assert_eq!(pairs(&r), vec![(2, 2)]);
}

#[test]
fn before_the_first_character() {
    let r = generate_pos_id(Vec::new(), ids(&[(1, 1)]), 2);
    assert_eq!(pairs(&r), vec![(0, 2), (1, 2)]);
}

#[test]
fn shared_first_level_is_kept() {
    let r = generate_pos_id(ids(&[(1, 1)]), ids(&[(1, 1), (5, 1)]), 2);
    assert_eq!(pairs(&r), vec![(1, 1), (1, 2)]);
}

#[test]
fn same_number_with_a_smaller_user_goes_deeper() {
    let r = generate_pos_id(ids(&[(1, 1)]), ids(&[(1, 2)]), 3);
    assert_eq!(pairs(&r), vec![(1, 1), (1, 3)]);
}

#[test]
fn a_small_difference_takes_a_deeper_step() {
    let r = generate_pos_id(ids(&[(1, 1), (9, 1)]), ids(&[(2, 1)]), 3);
    assert_eq!(pairs(&r), vec![(1, 1), (9, 1), (1, 3)]);
}

#[test]
fn generated_positions_lie_between_their_neighbours() {
    let cases: Vec<(Vec<Id>, Vec<Id>)> = vec![
        (ids(&[(1, 1)]), ids(&[(2, 1)])),
        (ids(&[(1, 1)]), ids(&[(3, 1)])),
        (ids(&[(1, 1), (9, 1)]), ids(&[(2, 1)])),
        (ids(&[(1, 1)]), ids(&[(1, 1), (5, 1)])),
        (ids(&[(1, 1)]), ids(&[(1, 2)])),
        (ids(&[(1, 9), (9, 9), (5, 9)]), ids(&[(2, 1), (0, 1), (3, 1)])),
        (ids(&[(4, 1), (4, 1)]), ids(&[(4, 1), (4, 1), (0, 7), (1, 7)])),
    ];
    for (a, b) in cases {
        let r = generate_pos_id(a.clone(), b.clone(), 5);
        assert_eq!(comp_pos(&a, &r), Ordering::Less);
        assert_eq!(comp_pos(&r, &b), Ordering::Less);
    }
}

#[test]
fn long_positions_up_to_eighteen_levels() {
    let low: Vec<Id> = (0..18).map(|_| Id { number: 1, user: 1 }).collect();
    let high = ids(&[(2, 1)]);
    let r = generate_pos_id(low.clone(), high.clone(), 2);
    assert_eq!(comp_pos(&low, &r), Ordering::Less);
    assert_eq!(comp_pos(&r, &high), Ordering::Less);
    assert_eq!(r.len(), 18);
    assert_eq!((r[0].number, r[0].user), (1, 1));
    assert_eq!((r[1].number, r[1].user), (2, 2));
    assert_eq!((r[17].number, r[17].user), (1, 2));
}

#[test]
fn zero_levels_of_the_same_user_leave_no_room() {
    let r = generate_pos_id(Vec::new(), ids(&[(0, 2)]), 2);
    assert_eq!(pairs(&r), vec![(0, 2), (1, 2)]);
    assert_eq!(comp_pos(&r, &ids(&[(0, 2)])), Ordering::Greater);
}

fn decimal_of(v: &[(u32, u32)]) -> (i128, u32) {
    let d = lapce_collab::position::pos_id_to_decimal(&ids(v));
    (d.mantissa, d.scale)
}

#[test]
fn position_decimals_follow_dictionary_order() {
    assert_eq!(decimal_of(&[(1, 1)]), (1, 1));
    assert_eq!(decimal_of(&[(1, 1), (2, 3)]), (12, 2));
    assert_eq!(decimal_of(&[(1, 1), (0, 3)]), (1, 1));
    assert_eq!(decimal_of(&[(0, 5), (0, 1), (7, 2)]), (7, 3));
    let ordered: Vec<Vec<(u32, u32)>> = vec![
        vec![(0, 1), (1, 1)],
        vec![(1, 1)],
        vec![(1, 1), (1, 2)],
        vec![(1, 9), (9, 9), (5, 9)],
        vec![(2, 1)],
        vec![(9, 1), (9, 1)],
    ];
    for i in 0..ordered.len() {
        for j in 0..ordered.len() {
            let (a, sa) = decimal_of(&ordered[i]);
            let (b, sb) = decimal_of(&ordered[j]);
            let lhs = a * 10i128.pow(sb);
            let rhs = b * 10i128.pow(sa);
            assert_eq!(lhs.cmp(&rhs), i.cmp(&j));
        }
    }
}

#[test]
fn can_generate_tells_when_generation_runs() {
    assert!(can_generate_pos_id(&Vec::new(), &Vec::new(), 1));
    assert!(can_generate_pos_id(&ids(&[(1, 1)]), &ids(&[(2, 1)]), 2));
    assert!(can_generate_pos_id(&ids(&[(1, 1)]), &ids(&[(1, 2)]), 3));
    assert!(!can_generate_pos_id(&ids(&[(1, 2)]), &ids(&[(1, 1)]), 3));
    assert!(!can_generate_pos_id(&Vec::new(), &ids(&[(0, 1)]), 3));
    assert!(!can_generate_pos_id(&ids(&[(10, 1)]), &ids(&[(11, 1)]), 2));
    let long: Vec<Id> = (0..19).map(|_| Id { number: 1, user: 1 }).collect();
    assert!(!can_generate_pos_id(&long, &ids(&[(2, 1)]), 2));
    let ok: Vec<Id> = (0..18).map(|_| Id { number: 1, user: 1 }).collect();
    assert!(can_generate_pos_id(&ok, &ids(&[(2, 1)]), 2));
}
