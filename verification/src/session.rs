//! The editor's side of a session: a change arrives as a character with the line
//! and column where it was typed, and the replica, kept as lines of characters,
//! gives it a position between its neighbours.

use vstd::prelude::*;

use crate::collab::{flatten_rows, lemma_rows_view_push, rows_view};
use crate::crdt::{char_views, CharView, Character, Id};
use crate::document::{
    document_text, insert_character, is_insertion, lemma_char_views_insert, lemma_char_views_push,
    text_of,
};
use crate::position::{gen, gen_ok, generate_pos_id};

verus! {

/// A change as the editor sends it: the character typed and where.
#[derive(Clone, Debug)]
pub struct ChangeResponse {
    pub action: String,
    pub curr_character: char,
    pub curr_col: usize,
    pub curr_row: usize,
}

/// The neighbours of a new character in the lines of a replica: the line and
/// column of the character before it and of the one after it, `usize::MAX` where
/// there is none.
#[derive(Clone, Copy, Debug)]
pub struct PrevNextCharacter {
    pub row_prev: usize,
    pub col_prev: usize,
    pub row_next: usize,
    pub col_next: usize,
    pub curr_character: char,
}

/// The position of the character at line `r`, column `c`; empty when either is
/// `usize::MAX`.
pub open spec fn neighbour_position(rows: Seq<Seq<CharView>>, r: usize, c: usize) -> Seq<Id> {
    if r != usize::MAX && c != usize::MAX {
        rows[r as int][c as int].0
    } else {
        Seq::empty()
    }
}

/// A neighbour is either absent or a character of the lines.
pub open spec fn neighbour_in(rows: Seq<Seq<CharView>>, r: usize, c: usize) -> bool {
    r != usize::MAX && c != usize::MAX ==> r < rows.len() && c < rows[r as int].len()
}

/// The line and column at which the new character joins the lines: those of its
/// previous neighbour, or the very start when it has none.
pub open spec fn insertion_place(nb: PrevNextCharacter) -> (int, int) {
    if nb.row_prev == usize::MAX {
        (0, 0)
    } else {
        (nb.row_prev as int, nb.col_prev as int)
    }
}

/// The neighbours name characters of the lines, and the place of insertion is in
/// the lines.
pub open spec fn neighbours_fit(rows: Seq<Seq<CharView>>, nb: PrevNextCharacter) -> bool {
    &&& neighbour_in(rows, nb.row_prev, nb.col_prev)
    &&& neighbour_in(rows, nb.row_next, nb.col_next)
    &&& 0 <= insertion_place(nb).0 < rows.len()
    &&& insertion_place(nb).1 <= rows[insertion_place(nb).0].len()
}

/// The new character: the position generated between its neighbours.
pub open spec fn edit_character(rows: Seq<Seq<CharView>>, nb: PrevNextCharacter, u: u32) -> CharView {
    (
        gen(
            neighbour_position(rows, nb.row_prev, nb.col_prev),
            neighbour_position(rows, nb.row_next, nb.col_next),
            u,
        ),
        0u32,
        nb.curr_character,
    )
}

/// A copy of the levels of a position.
pub fn copy_ids(v: &Vec<Id>) -> (r: Vec<Id>)
    ensures
        r@ == v@,
{
    let mut r: Vec<Id> = Vec::new();
    let mut i: usize = 0;
    while i < v.len()
        invariant
            i <= v.len(),
            r@ =~= v@.take(i as int),
        decreases v.len() - i,
    {
        r.push(v[i]);
        i = i + 1;
    }
    assert(v@.take(v.len() as int) =~= v@);
    r
}

/// A copy of a character.
pub fn copy_character(c: &Character) -> (r: Character)
    ensures
        r@ == c@,
{
    Character { pos_id: copy_ids(&c.pos_id), action_id: c.action_id, value: c.value }
}

/// A copy of the lines of a replica.
pub fn copy_rows(rows: &Vec<Vec<Character>>) -> (r: Vec<Vec<Character>>)
    ensures
        rows_view(r@) == rows_view(rows@),
{
    let mut r: Vec<Vec<Character>> = Vec::new();
    let mut i: usize = 0;
    while i < rows.len()
        invariant
            i <= rows.len(),
            rows_view(r@) =~= rows_view(rows@).take(i as int),
        decreases rows.len() - i,
    {
        let row = &rows[i];
        let mut line: Vec<Character> = Vec::new();
        let mut k: usize = 0;
        while k < row.len()
            invariant
                k <= row.len(),
                char_views(line@) =~= char_views(row@).take(k as int),
            decreases row.len() - k,
        {
            let c = copy_character(&row[k]);
            let ghost l = line@;
            line.push(c);
            proof {
                lemma_char_views_push(l, c);
                assert(char_views(row@)[k as int] == row@[k as int]@);
            }
            k = k + 1;
        }
        assert(char_views(row@).take(row.len() as int) =~= char_views(row@));
        let ghost before = r@;
        r.push(line);
        proof {
            assert(r@ == before.push(line));
            lemma_rows_view_push(before, line);
            assert(rows_view(rows@)[i as int] == char_views(row@));
            assert(rows_view(r@) =~= rows_view(rows@).take(i + 1));
        }
        i = i + 1;
    }
    assert(rows_view(rows@).take(rows.len() as int) =~= rows_view(rows@));
    r
}

/// A replica receives a character typed between two neighbours: the character
/// gets the position generated between theirs, joins the replica's characters in
/// the order of positions (which are returned with the text they make), and is
/// inserted into the lines at the line and column of its previous neighbour, or at
/// the very start when it has none.
pub fn apply_edit(rows: &mut Vec<Vec<Character>>, nb: PrevNextCharacter, user_id: u32) -> (r: (
    Vec<Character>,
    String,
))
    requires
        neighbours_fit(rows_view(old(rows)@), nb),
        gen_ok(
            neighbour_position(rows_view(old(rows)@), nb.row_prev, nb.col_prev),
            neighbour_position(rows_view(old(rows)@), nb.row_next, nb.col_next),
            user_id,
        ),
    ensures
        is_insertion(
            char_views(r.0@),
            rows_view(old(rows)@).flatten(),
            edit_character(rows_view(old(rows)@), nb, user_id),
        ),
        r.1@ == text_of(char_views(r.0@)),
        rows_view(final(rows)@) == rows_view(old(rows)@).update(
            insertion_place(nb).0,
            rows_view(old(rows)@)[insertion_place(nb).0].insert(
                insertion_place(nb).1,
                edit_character(rows_view(old(rows)@), nb, user_id),
            ),
        ),
{
    let ghost before = rows_view(rows@);
    let mut position_id_prev: Vec<Id> = Vec::new();
    if nb.row_prev != usize::MAX && nb.col_prev != usize::MAX {
        position_id_prev = copy_ids(&rows[nb.row_prev][nb.col_prev].pos_id);
        assert(before[nb.row_prev as int][nb.col_prev as int]
            == rows@[nb.row_prev as int]@[nb.col_prev as int]@);
    }
    let mut position_id_next: Vec<Id> = Vec::new();
    if nb.row_next != usize::MAX && nb.col_next != usize::MAX {
        position_id_next = copy_ids(&rows[nb.row_next][nb.col_next].pos_id);
        assert(before[nb.row_next as int][nb.col_next as int]
            == rows@[nb.row_next as int]@[nb.col_next as int]@);
    }
    assert(position_id_prev@ == neighbour_position(before, nb.row_prev, nb.col_prev));
    assert(position_id_next@ == neighbour_position(before, nb.row_next, nb.col_next));
    let position_identifier = generate_pos_id(position_id_prev, position_id_next, user_id);
    let flat = flatten_rows(copy_rows(rows));
    let new_character = Character {
        value: nb.curr_character,
        pos_id: position_identifier,
        action_id: 0,
    };
    let doc = insert_character(flat, copy_character(&new_character));
    let text = document_text(&doc);
    let (row, col) = if nb.row_prev == usize::MAX {
        (0, 0)
    } else {
        (nb.row_prev, nb.col_prev)
    };
    let ghost old_rows = rows@;
    let mut line = rows.remove(row);
    let ghost old_line = line@;
    line.insert(col, new_character);
    rows.insert(row, line);
    proof {
        assert(line@ == old_line.insert(col as int, new_character));
        lemma_char_views_insert(old_line, col as int, new_character);
        assert(rows@ =~= old_rows.update(row as int, line));
        assert(rows_view(rows@) =~= before.update(
            row as int,
            before[row as int].insert(col as int, new_character@),
        ));
    }
    (doc, text)
}

} // verus!
