//! Position identifiers and their total order.

use std::cmp::Ordering;
use vstd::prelude::*;

verus! {

/// One level of a position identifier: a digit and the user that created it.
#[derive(Clone, Copy, Debug, PartialEq, Eq, Structural)]
pub struct Id {
    pub number: u32,
    pub user: u32,
}

/// A character of the shared document with its position identifier.
#[derive(Clone, Debug)]
pub struct Character {
    pub pos_id: Vec<Id>,
    pub action_id: u32,
    /// the actual character entered
    pub value: char,
}

impl View for Character {
    type V = (Seq<Id>, u32, char);

    /// The position, the action and the character.
    open spec fn view(&self) -> (Seq<Id>, u32, char) {
        (self.pos_id@, self.action_id, self.value)
    }
}

/// Order of two identifier levels: by number, then by user.
pub open spec fn id_order(a: Id, b: Id) -> Ordering {
    if a.number < b.number {
        Ordering::Less
    } else if a.number > b.number {
        Ordering::Greater
    } else if a.user < b.user {
        Ordering::Less
    } else if a.user > b.user {
        Ordering::Greater
    } else {
        Ordering::Equal
    }
}

/// Lexicographic order of position identifiers; a proper prefix comes first.
pub open spec fn pos_order(a: Seq<Id>, b: Seq<Id>) -> Ordering
    decreases a.len(),
{
    if a.len() == 0 || b.len() == 0 {
        if a.len() < b.len() {
            Ordering::Less
        } else if a.len() > b.len() {
            Ordering::Greater
        } else {
            Ordering::Equal
        }
    } else if id_order(a[0], b[0]) != Ordering::Equal {
        id_order(a[0], b[0])
    } else {
        pos_order(a.drop_first(), b.drop_first())
    }
}

/// Compares two identifier levels.
pub fn comp_id(a: Id, b: Id) -> (r: Ordering)
    ensures
        r == id_order(a, b),
{
    if a.number < b.number {
        return Ordering::Less;
    }
    if a.number > b.number {
        return Ordering::Greater;
    }
    if a.user < b.user {
        return Ordering::Less;
    }
    if a.user > b.user {
        return Ordering::Greater;
    }
    return Ordering::Equal;
}

/// Compares two position identifiers.
pub fn comp_pos(a: &Vec<Id>, b: &Vec<Id>) -> (r: Ordering)
    ensures
        r == pos_order(a@, b@),
{
    let n: usize = if a.len() < b.len() {
        a.len()
    } else {
        b.len()
    };
    let mut i: usize = 0;
    let ghost mut k: int = 0;
    assert(a@.skip(0) =~= a@);
    assert(b@.skip(0) =~= b@);
    while i < n
        invariant
            n <= a.len(),
            n <= b.len(),
            n == a.len() || n == b.len(),
            i <= n,
            k == i,
            pos_order(a@, b@) == pos_order(a@.skip(k), b@.skip(k)),
        decreases n - i,
    {
        let res = comp_id(a[i], b[i]);
        assert(a@.skip(k)[0] == a@[k]);
        assert(b@.skip(k)[0] == b@[k]);
        match res {
            Ordering::Equal => {
                assert(a@.skip(k).drop_first() =~= a@.skip(k + 1));
                assert(b@.skip(k).drop_first() =~= b@.skip(k + 1));
            },
            _ => {
                return res;
            },
        }
        i = i + 1;
        proof {
            k = k + 1;
        }
    }
    if a.len() < b.len() {
        return Ordering::Less;
    }
    if a.len() > b.len() {
        return Ordering::Greater;
    }
    return Ordering::Equal;
}

/// Compares two characters by their position identifiers.
pub fn comp_character(a: &Character, b: &Character) -> (r: Ordering)
    ensures
        r == pos_order(a.pos_id@, b.pos_id@),
{
    return comp_pos(&a.pos_id, &b.pos_id);
}

/// Two position identifiers are equal in the order exactly when they are the same.
pub proof fn lemma_pos_order_equal(a: Seq<Id>, b: Seq<Id>)
    ensures
        (pos_order(a, b) == Ordering::Equal) <==> a == b,
    decreases a.len(),
{
    if a.len() != 0 && b.len() != 0 {
        lemma_pos_order_equal(a.drop_first(), b.drop_first());
        if a.drop_first() == b.drop_first() && a[0] == b[0] {
            assert(a =~= seq![a[0]] + a.drop_first());
            assert(b =~= seq![b[0]] + b.drop_first());
        }
        if a == b {
            assert(a.drop_first() == b.drop_first());
        }
    } else if a.len() == 0 && b.len() == 0 {
        assert(a =~= b);
    }
}

/// Swapping the arguments reverses the order.
pub proof fn lemma_pos_order_swap(a: Seq<Id>, b: Seq<Id>)
    ensures
        (pos_order(a, b) == Ordering::Less) <==> (pos_order(b, a) == Ordering::Greater),
        (pos_order(a, b) == Ordering::Greater) <==> (pos_order(b, a) == Ordering::Less),
    decreases a.len(),
{
    if a.len() != 0 && b.len() != 0 {
        lemma_pos_order_swap(a.drop_first(), b.drop_first());
    }
}

/// The order of position identifiers is transitive.
pub proof fn lemma_pos_order_transitive(a: Seq<Id>, b: Seq<Id>, c: Seq<Id>)
    requires
        pos_order(a, b) == Ordering::Less,
        pos_order(b, c) == Ordering::Less,
    ensures
        pos_order(a, c) == Ordering::Less,
    decreases a.len(),
{
    if a.len() != 0 && b.len() != 0 && c.len() != 0 {
        if id_order(a[0], b[0]) == Ordering::Equal && id_order(b[0], c[0]) == Ordering::Equal {
            lemma_pos_order_transitive(a.drop_first(), b.drop_first(), c.drop_first());
        }
    }
}


/// `a` comes before `b`, or is the same position.
pub open spec fn pos_le(a: Seq<Id>, b: Seq<Id>) -> bool {
    pos_order(a, b) != Ordering::Greater
}

/// `a` comes strictly before `b`.
pub open spec fn pos_lt(a: Seq<Id>, b: Seq<Id>) -> bool {
    pos_order(a, b) == Ordering::Less
}

/// A character as the contracts see it: position, action and character.
pub type CharView = (Seq<Id>, u32, char);

/// The views of a sequence of characters.
pub open spec fn char_views(s: Seq<Character>) -> Seq<CharView> {
    s.map_values(|c: Character| c@)
}

/// The characters are in the order of their positions.
pub open spec fn sorted_by_position(s: Seq<CharView>) -> bool {
    forall|i: int, j: int| 0 <= i < j < s.len() ==> pos_le(#[trigger] s[i].0, #[trigger] s[j].0)
}

/// `a` comes strictly before `b` in the order of positions.
pub fn char_lt(a: &Character, b: &Character) -> (r: bool)
    ensures
        r == pos_lt(a.pos_id@, b.pos_id@),
{
    match comp_character(a, b) {
        Ordering::Less => true,
        Ordering::Equal => false,
        Ordering::Greater => false,
    }
}

/// The order of positions is total: what is not strictly after comes before.
pub proof fn lemma_pos_le_total(a: Seq<Id>, b: Seq<Id>)
    ensures
        !pos_lt(a, b) ==> pos_le(b, a),
        pos_lt(a, b) ==> pos_le(a, b),
{
    lemma_pos_order_swap(a, b);
}

/// Positions that come before each other are the same.
pub proof fn lemma_pos_le_antisymmetric(a: Seq<Id>, b: Seq<Id>)
    requires
        pos_le(a, b),
        pos_le(b, a),
    ensures
        a == b,
{
    lemma_pos_order_swap(a, b);
    lemma_pos_order_equal(a, b);
}

/// The order of positions is transitive, strictly so when one step is strict.
pub proof fn lemma_pos_le_transitive(a: Seq<Id>, b: Seq<Id>, c: Seq<Id>)
    requires
        pos_le(a, b),
        pos_le(b, c),
    ensures
        pos_le(a, c),
        pos_lt(a, b) || pos_lt(b, c) ==> pos_lt(a, c),
{
    lemma_pos_order_equal(a, b);
    lemma_pos_order_equal(b, c);
    if pos_lt(a, b) && pos_lt(b, c) {
        lemma_pos_order_transitive(a, b, c);
    }
}


/// No position comes strictly before itself.
pub proof fn lemma_pos_lt_irreflexive(a: Seq<Id>)
    ensures
        !pos_lt(a, a),
        pos_le(a, a),
{
    lemma_pos_order_equal(a, a);
}

} // verus!
