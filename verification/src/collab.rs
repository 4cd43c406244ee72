//! The document replica of a collaborative editing session: its initial state, and
//! the changes that other users send.

use vstd::prelude::*;

use crate::between::numbers;
use crate::crdt::{char_views, CharView, Character, Id};
use crate::decimal::Dec;
use crate::digits::{parse_u32, parse_u32_spec, string_chars};
use crate::document::{
    document_text, insert_character, is_insertion, lemma_char_views_push, text_of,
};
use crate::keys::{
    count_at, count_key, counter_key, dec_le, dec_value_lt, initial_keys, initial_order,
    is_initial_key, key_ids, key_pos_id, lemma_count_at, lemma_count_keys_differ,
    lemma_initial_keys_no_duplicates, lemma_initial_order_unique, lemma_usize_digit_count,
    sort_keys,
};

verus! {

/// A change that another user sends: a character and its position.
#[derive(Clone, Debug)]
pub struct ChangeResponse {
    pub action: String,
    pub value: String,
    pub position_id: Vec<Position>,
}

/// One level of a position as it is sent: two decimal numerals.
#[derive(Clone, Debug)]
pub struct Position {
    pub number: String,
    pub user: String,
}

/// The lines of a sequence of characters: each line ends after a `'\n'`, and the
/// last line (possibly empty) holds the characters after the last `'\n'`.
pub open spec fn split_lines(s: Seq<CharView>) -> Seq<Seq<CharView>>
    decreases s.len(),
{
    if s.len() == 0 {
        seq![Seq::empty()]
    } else {
        let p = split_lines(s.drop_last());
        let q = p.update(p.len() - 1, p.last().push(s.last()));
        if s.last().2 == '\n' {
            q.push(Seq::empty())
        } else {
            q
        }
    }
}

/// The characters of each line.
pub open spec fn rows_view(rows: Seq<Vec<Character>>) -> Seq<Seq<CharView>> {
    rows.map_values(|r: Vec<Character>| char_views(r@))
}

/// The characters of a file, each with the position that its fraction gives.
pub open spec fn initial_chars(cs: Seq<char>, keys: Seq<Dec>, u: u32) -> Seq<CharView> {
    Seq::new(cs.len(), |i: int| (key_ids(keys[i], u), 0u32, cs[i]))
}

pub proof fn lemma_rows_view_push(rows: Seq<Vec<Character>>, r: Vec<Character>)
    ensures
        rows_view(rows.push(r)) == rows_view(rows).push(char_views(r@)),
{
    let a = rows_view(rows.push(r));
    let b = rows_view(rows).push(char_views(r@));
    assert forall|i: int| 0 <= i < a.len() implies a[i] == b[i] by {
        if i < rows.len() {
            assert(rows.push(r)[i] == rows[i]);
        } else {
            assert(rows.push(r)[i] == r);
        }
    }
    assert(a =~= b);
}

pub proof fn lemma_split_lines_nonempty(s: Seq<CharView>)
    ensures
        split_lines(s).len() >= 1,
    decreases s.len(),
{
    if s.len() > 0 {
        lemma_split_lines_nonempty(s.drop_last());
    }
}

/// Putting the lines one after another gives back the characters.
pub proof fn lemma_split_lines_flatten(s: Seq<CharView>)
    ensures
        split_lines(s).flatten() == s,
    decreases s.len(),
{
    if s.len() == 0 {
        assert(split_lines(s) == seq![Seq::<CharView>::empty()]);
        seq![Seq::<CharView>::empty()].lemma_flatten_one_element();
        assert(s =~= Seq::<CharView>::empty());
    } else {
        let t = s.drop_last();
        let c = s.last();
        lemma_split_lines_flatten(t);
        lemma_split_lines_nonempty(t);
        let p = split_lines(t);
        let l = p.last();
        let q = p.update(p.len() - 1, l.push(c));
        assert(p =~= p.drop_last().push(l));
        assert(q =~= p.drop_last().push(l.push(c)));
        let a = p.drop_last().flatten();
        p.drop_last().lemma_flatten_push(l);
        p.drop_last().lemma_flatten_push(l.push(c));
        assert(p.flatten() == a + l);
        assert(q.flatten() == a + l.push(c));
        assert(a + l == t);
        assert(a + l.push(c) =~= t.push(c));
        assert(t.push(c) =~= s);
        assert(q.flatten() =~= s);
        if c.2 == '\n' {
            q.lemma_flatten_push(Seq::<CharView>::empty());
            assert(q.push(Seq::<CharView>::empty()).flatten() =~= s);
        }
    }
}

/// The number of `'\n'` characters in a text.
pub open spec fn newlines(cs: Seq<char>) -> nat
    decreases cs.len(),
{
    if cs.len() == 0 {
        0
    } else {
        newlines(cs.drop_last()) + if cs.last() == '\n' {
            1nat
        } else {
            0nat
        }
    }
}

/// `rows` are the lines of the text `cs`: one after another they spell `cs`; every
/// line but the last ends with `'\n'` and holds no other `'\n'`; the last holds none;
/// and there is one line more than `cs` has `'\n'` characters. No other character
/// ends a line.
pub open spec fn lines_of(rows: Seq<Seq<CharView>>, cs: Seq<char>) -> bool {
    &&& text_of(rows.flatten()) == cs
    &&& rows.len() == newlines(cs) + 1
    &&& forall|i: int|
        #![trigger rows[i]]
        0 <= i < rows.len() - 1 ==> {
            &&& rows[i].len() > 0
            &&& rows[i].last().2 == '\n'
            &&& forall|k: int| 0 <= k < rows[i].len() - 1 ==> (#[trigger] rows[i][k]).2 != '\n'
        }
    &&& forall|k: int| 0 <= k < rows.last().len() ==> (#[trigger] rows.last()[k]).2 != '\n'
}

/// Splitting characters into lines ends a line after each `'\n'` and nowhere else.
pub proof fn lemma_split_lines_are_lines(s: Seq<CharView>)
    ensures
        lines_of(split_lines(s), text_of(s)),
    decreases s.len(),
{
    lemma_split_lines_flatten(s);
    if s.len() == 0 {
        assert(text_of(s) =~= Seq::<char>::empty());
        assert(split_lines(s) == seq![Seq::<CharView>::empty()]);
    } else {
        let t = s.drop_last();
        let c = s.last();
        lemma_split_lines_are_lines(t);
        lemma_split_lines_nonempty(t);
        let p = split_lines(t);
        let l = p.last();
        let q = p.update(p.len() - 1, l.push(c));
        assert(text_of(s).drop_last() =~= text_of(t));
        assert(text_of(s).last() == c.2);
        assert(newlines(text_of(s)) == newlines(text_of(t)) + if c.2 == '\n' {
            1nat
        } else {
            0nat
        });
        assert forall|i: int| #![trigger q[i]] 0 <= i < q.len() - 1 implies {
            &&& q[i].len() > 0
            &&& q[i].last().2 == '\n'
            &&& forall|k: int| 0 <= k < q[i].len() - 1 ==> (#[trigger] q[i][k]).2 != '\n'
        } by {
            assert(q[i] == p[i]);
        }
        assert(q.last() == l.push(c));
        if c.2 == '\n' {
            let r = q.push(Seq::<CharView>::empty());
            assert(split_lines(s) == r);
            assert forall|i: int| #![trigger r[i]] 0 <= i < r.len() - 1 implies {
                &&& r[i].len() > 0
                &&& r[i].last().2 == '\n'
                &&& forall|k: int| 0 <= k < r[i].len() - 1 ==> (#[trigger] r[i][k]).2 != '\n'
            } by {
                assert(r[i] == q[i]);
                if i == q.len() - 1 {
                    assert forall|k: int| 0 <= k < r[i].len() - 1 implies (#[trigger] r[i][k]).2
                        != '\n' by {
                        assert(r[i][k] == l[k]);
                    }
                }
            }
            assert(r.last() =~= Seq::<CharView>::empty());
        } else {
            assert(split_lines(s) == q);
            assert forall|k: int| 0 <= k < q.last().len() implies (#[trigger] q.last()[k]).2
                != '\n' by {
                if k < l.len() {
                    assert(q.last()[k] == l[k]);
                }
            }
        }
    }
}

/// The initial replica holds the file's characters in their order: its lines, one
/// after another, spell the file.
pub proof fn lemma_initial_text(cs: Seq<char>, keys: Seq<Dec>, u: u32)
    ensures
        text_of(split_lines(initial_chars(cs, keys, u)).flatten()) == cs,
{
    lemma_split_lines_flatten(initial_chars(cs, keys, u));
    assert(text_of(initial_chars(cs, keys, u)) =~= cs);
}

/// Files with the same number of characters get initial positions with the same
/// digits, character by character, whatever the characters and the users.
pub proof fn lemma_initial_digits_same(
    s: Seq<char>,
    t: Seq<char>,
    k1: Seq<Dec>,
    k2: Seq<Dec>,
    u1: u32,
    u2: u32,
)
    requires
        s.len() == t.len(),
        initial_order(k1, s.len()),
        initial_order(k2, t.len()),
    ensures
        split_lines(initial_chars(s, k1, u1)).flatten().len() == s.len(),
        split_lines(initial_chars(t, k2, u2)).flatten().len() == s.len(),
        forall|i: int|
            0 <= i < s.len() ==> numbers(
                #[trigger] split_lines(initial_chars(s, k1, u1)).flatten()[i].0,
            ) == numbers(split_lines(initial_chars(t, k2, u2)).flatten()[i].0),
{
    lemma_split_lines_flatten(initial_chars(s, k1, u1));
    lemma_split_lines_flatten(initial_chars(t, k2, u2));
    lemma_initial_order_unique(k1, k2, s.len());
    assert forall|i: int| 0 <= i < s.len() implies numbers(
        #[trigger] split_lines(initial_chars(s, k1, u1)).flatten()[i].0,
    ) == numbers(split_lines(initial_chars(t, k2, u2)).flatten()[i].0) by {
        assert(numbers(key_ids(k1[i], u1)) =~= numbers(key_ids(k1[i], u2)));
    }
}

/// The level of a position that a sent pair of numerals stands for, when both
/// numerals read as `u32`.
pub open spec fn sent_level(p: Position) -> Option<Id> {
    match (parse_u32_spec(p.number@), parse_u32_spec(p.user@)) {
        (Some(n), Some(u)) => Some(Id { number: n, user: u }),
        _ => None,
    }
}

/// Every sent level reads as a level of a position.
pub open spec fn sent_levels_read(ps: Seq<Position>) -> bool {
    forall|i: int| 0 <= i < ps.len() ==> (#[trigger] sent_level(ps[i])) is Some
}

/// The position that the sent levels stand for.
pub open spec fn sent_position(ps: Seq<Position>) -> Seq<Id> {
    Seq::new(ps.len(), |i: int| sent_level(ps[i]).unwrap())
}

/// The character that a change carries: the first character of its value at the
/// position it names; none when the value is empty or a numeral does not read.
pub open spec fn change_character(c: ChangeResponse) -> Option<CharView> {
    if c.value@.len() > 0 && sent_levels_read(c.position_id@) {
        Some((sent_position(c.position_id@), 0u32, c.value@[0]))
    } else {
        None
    }
}

/// The character that a change carries, as a replica stores it.
pub fn character_from_change(change: &ChangeResponse) -> (r: Option<Character>)
    ensures
        match r {
            Some(c) => change_character(*change) == Some(c@),
            None => change_character(*change) is None,
        },
{
    let mut position_identifier: Vec<Id> = Vec::new();
    let n = change.position_id.len();
    let mut i: usize = 0;
    while i < n
        invariant
            n == change.position_id@.len(),
            i <= n,
            forall|k: int| 0 <= k < i ==> (#[trigger] sent_level(change.position_id@[k])) is Some,
            position_identifier@ =~= sent_position(change.position_id@.take(i as int)),
        decreases n - i,
    {
        let p = &change.position_id[i];
        let number = parse_u32(p.number.as_str());
        let user = parse_u32(p.user.as_str());
        match (number, user) {
            (Some(a), Some(b)) => {
                position_identifier.push(Id { number: a, user: b });
            },
            _ => {
                assert(sent_level(change.position_id@[i as int]) is None);
                return None;
            },
        }
        i = i + 1;
        assert(position_identifier@ =~= sent_position(change.position_id@.take(i as int)));
    }
    assert(change.position_id@.take(n as int) =~= change.position_id@);
    let cs = string_chars(change.value.as_str());
    if cs.len() == 0 {
        return None;
    }
    Some(Character { value: cs[0], pos_id: position_identifier, action_id: 0 })
}

/// The characters of the lines, one line after another.
pub fn flatten_rows(rows: Vec<Vec<Character>>) -> (r: Vec<Character>)
    ensures
        char_views(r@) == rows_view(rows@).flatten(),
{
    let ghost all = rows_view(rows@);
    let mut rest = rows;
    let mut out: Vec<Character> = Vec::new();
    let ghost mut i: int = 0;
    while rest.len() > 0
        invariant
            0 <= i <= all.len(),
            rows_view(rest@) == all.skip(i),
            char_views(out@) == all.take(i).flatten(),
        decreases rest.len(),
    {
        let ghost rv = rest@;
        let ghost ov = out@;
        let mut row = rest.remove(0);
        let ghost r = row@;
        out.append(&mut row);
        proof {
            assert(rv.len() > 0);
            assert(rows_view(rv).len() == rv.len());
            assert(i < all.len());
            assert(rows_view(rv)[0] == char_views(r));
            assert(all.skip(i)[0] == all[i]);
            assert(rows_view(rest@) =~= all.skip(i + 1)) by {
                assert(rest@ =~= rv.drop_first());
                assert forall|k: int| 0 <= k < rest@.len() implies rows_view(rest@)[k] == all.skip(
                    i + 1,
                )[k] by {
                    assert(rest@[k] == rv[k + 1]);
                    assert(rows_view(rv)[k + 1] == all.skip(i)[k + 1]);
                }
            }
            assert(all.take(i + 1) =~= all.take(i).push(all[i]));
            all.take(i).lemma_flatten_push(all[i]);
            assert(out@ =~= ov + r);
            assert(char_views(out@) =~= char_views(ov) + char_views(r));
            i = i + 1;
        }
    }
    proof {
        assert(all.take(i) =~= all);
    }
    out
}

/// A replica receives a change: the character it carries joins the replica's
/// characters, which are put in the order of their positions, and the text they
/// make is returned beside them. A change whose character cannot be read leaves
/// the replica as it is and gives `None`.
pub fn apply_change_response(doc: Vec<Character>, change: &ChangeResponse) -> (r: Option<
    (Vec<Character>, String),
>)
    ensures
        match r {
            Some((d, text)) => {
                &&& change_character(*change) is Some
                &&& is_insertion(
                    char_views(d@),
                    char_views(doc@),
                    change_character(*change).unwrap(),
                )
                &&& text@ == text_of(char_views(d@))
            },
            None => change_character(*change) is None,
        },
{
    match character_from_change(change) {
        None => None,
        Some(c) => {
            let d = insert_character(doc, c);
            let text = document_text(&d);
            Some((d, text))
        },
    }
}

/// The initial replica of a file: its lines of characters, where the `i`-th
/// character gets the digits of the `i`-th smallest of the fractions `0.1`, `0.2`,
/// ..., `0.9`, `0.11`, ... as its position, each level created by `user_id`.
pub fn generate_initial_crdt(file_content: String, user_id: u32) -> (r: Vec<Vec<Character>>)
    requires
        file_content@.len() <= usize::MAX / 4,
    ensures
        exists|keys: Seq<Dec>|
            initial_order(keys, file_content@.len()) && rows_view(r@) == split_lines(
                initial_chars(file_content@, keys, user_id),
            ),
        lines_of(rows_view(r@), file_content@),
{
    let chars = string_chars(file_content.as_str());
    let n = chars.len();
    let mut character_count: usize = 1;
    let mut id_vec: Vec<Dec> = Vec::new();
    let mut i: usize = 0;
    while i < n
        invariant
            n == chars.len(),
            n <= usize::MAX / 4,
            i <= n,
            character_count == count_at(i as nat),
            id_vec@ =~= initial_keys(i as nat),
            forall|k: int| 0 <= k < id_vec.len() ==> (#[trigger] id_vec[k]).wf(),
        decreases n - i,
    {
        proof {
            lemma_count_at(i as nat);
        }
        let key = counter_key(character_count);
        id_vec.push(key);
        character_count = character_count + 1;
        if character_count % 10 == 0 {
            character_count = character_count + 1;
        }
        i = i + 1;
        assert(id_vec@ =~= initial_keys(i as nat));
    }
    let sorted = sort_keys(&id_vec);
    proof {
        lemma_sorted_keys(sorted@, n as nat);
    }
    let mut crdt_file_copy: Vec<Vec<Character>> = Vec::new();
    let mut current: Vec<Character> = Vec::new();
    let ghost all = initial_chars(chars@, sorted@, user_id);
    let mut k: usize = 0;
    proof {
        assert(all.take(0) =~= Seq::<CharView>::empty());
        assert(rows_view(crdt_file_copy@) =~= Seq::<Seq<CharView>>::empty());
        assert(char_views(current@) =~= Seq::<CharView>::empty());
        assert(split_lines(Seq::<CharView>::empty()) == seq![Seq::<CharView>::empty()]);
        assert(rows_view(crdt_file_copy@).push(char_views(current@)) =~= seq![
            Seq::<CharView>::empty(),
        ]);
    }
    while k < n
        invariant
            n == chars.len(),
            n == sorted.len(),
            k <= n,
            all == initial_chars(chars@, sorted@, user_id),
            forall|j: int| 0 <= j < sorted.len() ==> is_initial_key(#[trigger] sorted[j], n as nat),
            n <= usize::MAX / 4,
            rows_view(crdt_file_copy@).push(char_views(current@)) =~= split_lines(
                all.take(k as int),
            ),
        decreases n - k,
    {
        let c = chars[k];
        assert(is_initial_key(sorted[k as int], n as nat));
        let ghost idx = choose|idx: nat| idx < n && sorted[k as int] == count_key(count_at(idx));
        proof {
            lemma_count_at(idx);
            assert(idx <= usize::MAX / 4);
            assert(count_at(idx) <= 18446744073709551615);
            lemma_usize_digit_count(count_at(idx));
        }
        let new_pos_id = key_pos_id(sorted[k], user_id);
        let new_char = Character { value: c, pos_id: new_pos_id, action_id: 0 };
        let ghost prev = all.take(k as int);
        let ghost rows_before = rows_view(crdt_file_copy@);
        let ghost cur_before = char_views(current@);
        let ghost cur_vec = current@;
        let ghost crdt_vec = crdt_file_copy@;
        let ghost nc = new_char;
        current.push(new_char);
        let ghost x = nc@;
        proof {
            assert(current@ == cur_vec.push(nc));
            lemma_char_views_push(cur_vec, nc);
            assert(all.take(k + 1).drop_last() =~= prev);
            assert(all.take(k + 1).last() == (key_ids(sorted[k as int], user_id), 0u32, c));
            assert(x == all.take(k + 1).last());
            lemma_split_lines_nonempty(prev);
            let p = split_lines(prev);
            assert(p == rows_before.push(cur_before));
            assert(p.len() - 1 == rows_before.len());
            assert(p.last() == cur_before);
            assert(p.update(p.len() - 1, p.last().push(x)) =~= rows_before.push(
                cur_before.push(x),
            ));
        }
        if c == '\n' {
            let ghost cv = current;
            crdt_file_copy.push(current);
            current = Vec::new();
            proof {
                lemma_rows_view_push(crdt_vec, cv);
                assert(char_views(current@) =~= Seq::<CharView>::empty());
            }
        }
        k = k + 1;
        proof {
            assert(all.take(k as int).drop_last() =~= prev);
            assert(all.take(k as int).last() == x);
        }
    }
    let ghost crdt_vec = crdt_file_copy@;
    let ghost cv = current;
    crdt_file_copy.push(current);
    proof {
        lemma_rows_view_push(crdt_vec, cv);
        assert(all.take(n as int) =~= all);
        assert(rows_view(crdt_file_copy@) =~= split_lines(all));
        assert(initial_order(sorted@, n as nat));
        lemma_split_lines_are_lines(all);
        assert(text_of(all) =~= file_content@);
    }
    crdt_file_copy
}

/// The sorted fractions are the initial ones, each once, in increasing order.
proof fn lemma_sorted_keys(sorted: Seq<Dec>, n: nat)
    requires
        n <= usize::MAX / 4,
        sorted.to_multiset() == initial_keys(n).to_multiset(),
        forall|i: int, j: int|
            0 <= i < j < sorted.len() ==> dec_le(#[trigger] sorted[i], #[trigger] sorted[j]),
        sorted.len() == n,
    ensures
        initial_order(sorted, n),
        forall|j: int| 0 <= j < sorted.len() ==> is_initial_key(#[trigger] sorted[j], n),
{
    broadcast use vstd::seq_lib::group_to_multiset_ensures;

    assert forall|j: int| 0 <= j < sorted.len() implies is_initial_key(#[trigger] sorted[j], n) by {
        assert(sorted.contains(sorted[j]));
        assert(sorted.to_multiset().count(sorted[j]) > 0);
        assert(initial_keys(n).contains(sorted[j]));
        let m = choose|m: int| 0 <= m < initial_keys(n).len() && initial_keys(n)[m] == sorted[j];
        assert(sorted[j] == count_key(count_at(m as nat)));
        assert((m as nat) < n);
    }
    lemma_initial_keys_no_duplicates(n);
    initial_keys(n).lemma_multiset_has_no_duplicates();
    sorted.lemma_multiset_has_no_duplicates_conv();
    assert forall|i: int, j: int| 0 <= i < j < sorted.len() implies dec_value_lt(
        #[trigger] sorted[i],
        #[trigger] sorted[j],
    ) by {
        assert(is_initial_key(sorted[i], n));
        assert(is_initial_key(sorted[j], n));
        let a = choose|idx: nat| idx < n && sorted[i] == count_key(count_at(idx));
        let b = choose|idx: nat| idx < n && sorted[j] == count_key(count_at(idx));
        assert(dec_le(sorted[i], sorted[j]));
        assert(sorted[i] != sorted[j]);
        lemma_count_at(a);
        lemma_count_at(b);
        lemma_usize_digit_count(count_at(a));
        lemma_usize_digit_count(count_at(b));
        lemma_count_keys_differ(count_at(a), count_at(b));
    }
}

} // verus!
