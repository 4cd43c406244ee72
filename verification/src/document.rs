//! A replica's characters in the order of their positions.

use vstd::prelude::*;

use crate::crdt::{
    char_lt, char_views, lemma_pos_le_antisymmetric, lemma_pos_le_total,
    lemma_pos_le_transitive, lemma_pos_lt_irreflexive, pos_le, pos_lt, sorted_by_position, CharView, Character,
    Id,
};
use crate::digits::string_push;

verus! {

/// The test for a character at position `p`.
pub open spec fn is_at(p: Seq<Id>) -> spec_fn(CharView) -> bool {
    |c: CharView| c.0 == p
}

/// The characters at position `p`, in their order.
pub open spec fn at_position(s: Seq<CharView>, p: Seq<Id>) -> Seq<CharView> {
    s.filter(is_at(p))
}

/// `r` holds the characters of `v` in the order of their positions; characters at
/// the same position keep the order they have in `v`.
pub open spec fn stable_sorted(r: Seq<CharView>, v: Seq<CharView>) -> bool {
    &&& sorted_by_position(r)
    &&& forall|p: Seq<Id>| #[trigger] at_position(r, p) == at_position(v, p)
}

/// `r` holds the characters of `d` and `c`, in the order of their positions, `c`
/// after the characters of `d` at its position.
pub open spec fn is_insertion(r: Seq<CharView>, d: Seq<CharView>, c: CharView) -> bool {
    &&& r.to_multiset() == d.push(c).to_multiset()
    &&& stable_sorted(r, d.push(c))
}

/// Inserting `x` in front of characters whose positions all come after its own
/// changes the characters at each position as appending it does.
proof fn lemma_at_position_insert(s: Seq<CharView>, j: int, x: CharView, p: Seq<Id>)
    requires
        0 <= j <= s.len(),
        forall|k: int| j <= k < s.len() ==> pos_lt(x.0, #[trigger] s[k].0),
    ensures
        at_position(s.insert(j, x), p) == at_position(s.push(x), p),
{
    broadcast use vstd::seq_lib::group_seq_properties;

    let f = is_at(p);
    let a = s.take(j);
    let b = s.skip(j);
    let e = Seq::<CharView>::empty();
    assert(s =~= a + b);
    assert(seq![x] =~= e.push(x));
    assert(s.insert(j, x) =~= a + (seq![x] + b));
    assert(e.filter(f) =~= e) by {
        reveal(Seq::filter);
    }
    e.lemma_filter_push(x, f);
    vstd::seq::Seq::filter_distributes_over_add(a, b, f);
    vstd::seq::Seq::filter_distributes_over_add(a, seq![x] + b, f);
    vstd::seq::Seq::filter_distributes_over_add(seq![x], b, f);
    s.lemma_filter_push(x, f);
    if x.0 == p {
        assert forall|k: int| 0 <= k < b.len() implies !f(#[trigger] b[k]) by {
            assert(b[k] == s[j + k]);
            lemma_pos_lt_irreflexive(x.0);
        }
        assert(b.all(|c: CharView| !f(c)));
        b.lemma_all_neg_filter_empty(f);
        assert(b.filter(f) =~= e);
        assert(seq![x].filter(f) =~= seq![x]);
        assert(s.filter(f) =~= a.filter(f));
        assert(s.insert(j, x).filter(f) =~= a.filter(f).push(x));
    } else {
        assert(seq![x].filter(f) =~= e);
        assert(s.insert(j, x).filter(f) =~= s.filter(f));
    }
}

/// The characters at a position in a sequence: the first one's when it is there,
/// then those of the rest.
proof fn lemma_at_position_head(s: Seq<CharView>, p: Seq<Id>)
    requires
        s.len() > 0,
    ensures
        at_position(s, p) == (if s[0].0 == p {
            seq![s[0]]
        } else {
            Seq::<CharView>::empty()
        }) + at_position(s.drop_first(), p),
{
    assert(s =~= seq![s[0]] + s.drop_first());
    s.drop_first().lemma_filter_prepend(s[0], is_at(p));
}

/// In a sorted sequence no character sits at a position before the first one's.
proof fn lemma_none_before(s: Seq<CharView>, p: Seq<Id>)
    requires
        sorted_by_position(s),
        s.len() > 0,
        pos_lt(p, s[0].0),
    ensures
        at_position(s, p).len() == 0,
{
    let f = is_at(p);
    assert forall|k: int| 0 <= k < s.len() implies !f(#[trigger] s[k]) by {
        lemma_pos_lt_irreflexive(p);
        if k > 0 {
            assert(pos_le(s[0].0, s[k].0));
            lemma_pos_le_total(p, s[0].0);
            lemma_pos_le_transitive(p, s[0].0, s[k].0);
        }
    }
    assert(s.all(|c: CharView| !f(c)));
    s.lemma_all_neg_filter_empty(f);
}

/// Sorted sequences with the same characters at each position, in the same order,
/// are the same.
proof fn lemma_same_positions_equal(r1: Seq<CharView>, r2: Seq<CharView>)
    requires
        sorted_by_position(r1),
        sorted_by_position(r2),
        forall|p: Seq<Id>| #[trigger] at_position(r1, p) == at_position(r2, p),
    ensures
        r1 == r2,
    decreases r1.len() + r2.len(),
{
    let e = Seq::<CharView>::empty();
    assert(e.filter(is_at(Seq::<Id>::empty())) =~= e) by {
        reveal(Seq::filter);
    }
    if r1.len() == 0 && r2.len() == 0 {
        assert(r1 =~= r2);
    } else if r1.len() == 0 {
        let q = r2[0].0;
        lemma_at_position_head(r2, q);
        assert(r1 =~= e);
        assert(at_position(r1, q) =~= e) by {
            reveal(Seq::filter);
        }
        assert(at_position(r1, q) == at_position(r2, q));
        assert(false);
    } else if r2.len() == 0 {
        let q = r1[0].0;
        lemma_at_position_head(r1, q);
        assert(r2 =~= e);
        assert(at_position(r2, q) =~= e) by {
            reveal(Seq::filter);
        }
        assert(at_position(r1, q) == at_position(r2, q));
        assert(false);
    } else {
        let p = r1[0].0;
        let q = r2[0].0;
        lemma_at_position_head(r1, p);
        lemma_at_position_head(r2, q);
        assert(at_position(r1, p) == at_position(r2, p));
        assert(at_position(r1, q) == at_position(r2, q));
        if pos_lt(p, q) {
            lemma_none_before(r2, p);
            assert(false);
        }
        if pos_lt(q, p) {
            lemma_none_before(r1, q);
            assert(false);
        }
        lemma_pos_le_total(p, q);
        lemma_pos_le_total(q, p);
        lemma_pos_le_antisymmetric(p, q);
        assert(p == q);
        assert(at_position(r1, p)[0] == r1[0]);
        assert(at_position(r2, p)[0] == r2[0]);
        assert(r1[0] == r2[0]);
        let t1 = r1.drop_first();
        let t2 = r2.drop_first();
        assert forall|x: Seq<Id>| #[trigger] at_position(t1, x) == at_position(t2, x) by {
            lemma_at_position_head(r1, x);
            lemma_at_position_head(r2, x);
            assert(at_position(r1, x) == at_position(r2, x));
            let h = if r1[0].0 == x {
                seq![r1[0]]
            } else {
                Seq::<CharView>::empty()
            };
            assert(at_position(t1, x) =~= at_position(r1, x).skip(h.len() as int));
            assert(at_position(t2, x) =~= at_position(r2, x).skip(h.len() as int));
        }
        assert(sorted_by_position(t1)) by {
            assert forall|i: int, j: int| 0 <= i < j < t1.len() implies pos_le(
                #[trigger] t1[i].0,
                #[trigger] t1[j].0,
            ) by {
                assert(t1[i] == r1[i + 1]);
                assert(t1[j] == r1[j + 1]);
            }
        }
        assert(sorted_by_position(t2)) by {
            assert forall|i: int, j: int| 0 <= i < j < t2.len() implies pos_le(
                #[trigger] t2[i].0,
                #[trigger] t2[j].0,
            ) by {
                assert(t2[i] == r2[i + 1]);
                assert(t2[j] == r2[j + 1]);
            }
        }
        lemma_same_positions_equal(t1, t2);
        assert(r1 =~= seq![r1[0]] + t1);
        assert(r2 =~= seq![r2[0]] + t2);
    }
}

/// Sorting by position, keeping the order of characters at the same position, has
/// exactly one result.
pub proof fn lemma_stable_sorted_unique(r1: Seq<CharView>, r2: Seq<CharView>, v: Seq<CharView>)
    requires
        stable_sorted(r1, v),
        stable_sorted(r2, v),
    ensures
        r1 == r2,
{
    assert forall|p: Seq<Id>| #[trigger] at_position(r1, p) == at_position(r2, p) by {
        assert(at_position(r1, p) == at_position(v, p));
        assert(at_position(r2, p) == at_position(v, p));
    }
    lemma_same_positions_equal(r1, r2);
}

/// The text of a sequence of characters.
pub open spec fn text_of(s: Seq<CharView>) -> Seq<char> {
    s.map_values(|c: CharView| c.2)
}

pub proof fn lemma_char_views_insert(s: Seq<Character>, j: int, c: Character)
    requires
        0 <= j <= s.len(),
    ensures
        char_views(s.insert(j, c)) == char_views(s).insert(j, c@),
{
    assert(char_views(s.insert(j, c)) =~= char_views(s).insert(j, c@));
}

pub proof fn lemma_char_views_remove(s: Seq<Character>, j: int)
    requires
        0 <= j < s.len(),
    ensures
        char_views(s.remove(j)) == char_views(s).remove(j),
{
    assert(char_views(s.remove(j)) =~= char_views(s).remove(j));
}

pub proof fn lemma_char_views_push(s: Seq<Character>, c: Character)
    ensures
        char_views(s.push(c)) == char_views(s).push(c@),
{
    assert(char_views(s.push(c)) =~= char_views(s).push(c@));
}

/// Sorts characters by their positions; characters at the same position keep their order.
pub fn sort_characters(v: Vec<Character>) -> (r: Vec<Character>)
    ensures
        char_views(r@).to_multiset() == char_views(v@).to_multiset(),
        stable_sorted(char_views(r@), char_views(v@)),
        r.len() == v.len(),
{
    broadcast use vstd::seq_lib::group_to_multiset_ensures;

    let ghost vs = char_views(v@);
    let mut rest = v;
    let mut out: Vec<Character> = Vec::new();
    let ghost mut i: int = 0;
    while rest.len() > 0
        invariant
            0 <= i <= vs.len(),
            char_views(rest@) == vs.skip(i),
            char_views(out@).to_multiset() == vs.take(i).to_multiset(),
            sorted_by_position(char_views(out@)),
            forall|p: Seq<Id>| #[trigger] at_position(char_views(out@), p) == at_position(vs.take(i), p),
            out.len() == i,
        decreases rest.len(),
    {
        let ghost rv = rest@;
        let x = rest.remove(0);
        proof {
            lemma_char_views_remove(rv, 0);
            assert(char_views(rv)[0] == x@);
            assert(vs.skip(i)[0] == vs[i]);
            assert(char_views(rv).remove(0) =~= vs.skip(i + 1));
        }
        let mut j: usize = 0;
        while j < out.len() && !char_lt(&x, &out[j])
            invariant
                j <= out.len(),
                forall|k: int| 0 <= k < j ==> pos_le(#[trigger] out@[k].pos_id@, x.pos_id@),
            decreases out.len() - j,
        {
            proof {
                lemma_pos_le_total(x.pos_id@, out@[j as int].pos_id@);
            }
            j = j + 1;
        }
        let ghost old_out = out@;
        let ghost ov = char_views(old_out);
        proof {
            assert forall|k: int| j <= k < ov.len() implies pos_lt(x@.0, #[trigger] ov[k].0) by {
                assert(ov[k] == old_out[k]@);
                assert(ov[j as int] == old_out[j as int]@);
                if k > j {
                    assert(pos_le(ov[j as int].0, ov[k].0));
                    lemma_pos_le_total(x.pos_id@, old_out[j as int].pos_id@);
                    lemma_pos_le_transitive(x@.0, ov[j as int].0, ov[k].0);
                }
            }
            assert forall|k: int| 0 <= k < j implies pos_le(#[trigger] ov[k].0, x@.0) by {
                assert(ov[k] == old_out[k]@);
            }
        }
        out.insert(j, x);
        proof {
            lemma_char_views_insert(old_out, j as int, x);
            let nv = char_views(out@);
            assert(nv == ov.insert(j as int, x@));
            assert(vs.take(i + 1) =~= vs.take(i).push(x@));
            vstd::seq_lib::to_multiset_insert(ov, j as int, x@);
            vstd::seq_lib::to_multiset_build(vs.take(i), x@);
            assert forall|p: Seq<Id>| #[trigger] at_position(nv, p) == at_position(vs.take(i + 1), p) by {
                assert(at_position(ov, p) == at_position(vs.take(i), p));
                lemma_at_position_insert(ov, j as int, x@, p);
                ov.lemma_filter_push(x@, is_at(p));
                vs.take(i).lemma_filter_push(x@, is_at(p));
            }
            assert forall|a: int, b: int| 0 <= a < b < nv.len() implies pos_le(
                #[trigger] nv[a].0,
                #[trigger] nv[b].0,
            ) by {
                if b < j {
                    assert(nv[a] == ov[a]);
                    assert(nv[b] == ov[b]);
                } else if b == j {
                    assert(nv[a] == ov[a]);
                } else if a < j {
                    assert(nv[b] == ov[b - 1]);
                    assert(nv[a] == ov[a]);
                    lemma_pos_le_transitive(ov[a].0, x@.0, ov[b - 1].0);
                } else if a == j {
                    assert(nv[b] == ov[b - 1]);
                    lemma_pos_le_total(x@.0, ov[b - 1].0);
                } else {
                    assert(nv[b] == ov[b - 1]);
                    assert(nv[a] == ov[a - 1]);
                }
            }
            i = i + 1;
        }
    }
    proof {
        assert(vs.take(i) =~= vs);
    }
    out
}

/// Adds a character to a replica's characters and puts them in the order of their
/// positions.
pub fn insert_character(doc: Vec<Character>, c: Character) -> (r: Vec<Character>)
    ensures
        is_insertion(char_views(r@), char_views(doc@), c@),
        r.len() == doc.len() + 1,
{
    let mut doc = doc;
    let ghost before = doc@;
    doc.push(c);
    proof {
        lemma_char_views_push(before, c);
    }
    sort_characters(doc)
}

/// The text of the characters, in their order.
pub fn document_text(doc: &Vec<Character>) -> (s: String)
    ensures
        s@ == text_of(char_views(doc@)),
{
    let mut content = String::new();
    let mut i: usize = 0;
    while i < doc.len()
        invariant
            i <= doc.len(),
            content@ =~= text_of(char_views(doc@)).take(i as int),
        decreases doc.len() - i,
    {
        string_push(&mut content, doc[i].value);
        i = i + 1;
        assert(content@ =~= text_of(char_views(doc@)).take(i as int));
    }
    assert(text_of(char_views(doc@)).take(doc.len() as int) =~= text_of(char_views(doc@)));
    content
}

/// Replicas converge: a replica that receives the character `a` and then `b` holds
/// the same characters, in the same order, as one that receives `b` and then `a`,
/// when `a` and `b` are at different positions.
pub proof fn lemma_changes_commute(
    d: Seq<CharView>,
    a: CharView,
    b: CharView,
    r1: Seq<CharView>,
    r2: Seq<CharView>,
    r3: Seq<CharView>,
    r4: Seq<CharView>,
)
    requires
        a.0 != b.0,
        is_insertion(r1, d, a),
        is_insertion(r2, r1, b),
        is_insertion(r3, d, b),
        is_insertion(r4, r3, a),
    ensures
        r2 == r4,
{
    assert forall|p: Seq<Id>| #[trigger] at_position(r2, p) == at_position(r4, p) by {
        let f = is_at(p);
        r1.lemma_filter_push(b, f);
        r3.lemma_filter_push(a, f);
        d.lemma_filter_push(a, f);
        d.lemma_filter_push(b, f);
        assert(at_position(r2, p) == at_position(r1.push(b), p));
        assert(at_position(r1, p) == at_position(d.push(a), p));
        assert(at_position(r4, p) == at_position(r3.push(a), p));
        assert(at_position(r3, p) == at_position(d.push(b), p));
        if a.0 == p {
            assert(at_position(r2, p) =~= at_position(r4, p));
        } else if b.0 == p {
            assert(at_position(r2, p) =~= at_position(r4, p));
        }
    }
    lemma_same_positions_equal(r2, r4);
}

/// No two of the characters share a position.
pub open spec fn distinct_positions(s: Seq<CharView>) -> bool {
    forall|i: int, j: int|
        0 <= i < s.len() && 0 <= j < s.len() && i != j ==> #[trigger] s[i].0 != #[trigger] s[j].0
}

/// `steps` is a replica's history: it starts at `d`, and each step takes in the next
/// of the changes `cs` as `apply_change_response` does.
pub open spec fn receives(steps: Seq<Seq<CharView>>, d: Seq<CharView>, cs: Seq<CharView>) -> bool {
    &&& steps.len() == cs.len() + 1
    &&& steps[0] == d
    &&& forall|i: int| 0 <= i < cs.len() ==> is_insertion(steps[i + 1], steps[i], #[trigger] cs[i])
}

/// Along a history, the characters at each position are those of the start followed
/// by the changes at that position, in the order they came.
proof fn lemma_history_positions(steps: Seq<Seq<CharView>>, d: Seq<CharView>, cs: Seq<CharView>, k: int)
    requires
        receives(steps, d, cs),
        0 <= k <= cs.len(),
    ensures
        forall|p: Seq<Id>|
            #[trigger] at_position(steps[k], p) == at_position(d, p) + at_position(cs.take(k), p),
    decreases k,
{
    let e = Seq::<CharView>::empty();
    if k == 0 {
        assert forall|p: Seq<Id>| #[trigger] at_position(steps[k], p) == at_position(d, p)
            + at_position(cs.take(k), p) by {
            assert(cs.take(0) =~= e);
            assert(e.filter(is_at(p)) =~= e) by {
                reveal(Seq::filter);
            }
            assert(at_position(d, p) + e =~= at_position(d, p));
        }
    } else {
        lemma_history_positions(steps, d, cs, k - 1);
        let c = cs[k - 1];
        assert(is_insertion(steps[k], steps[k - 1], c));
        assert(cs.take(k) =~= cs.take(k - 1).push(c));
        assert forall|p: Seq<Id>| #[trigger] at_position(steps[k], p) == at_position(d, p)
            + at_position(cs.take(k), p) by {
            let f = is_at(p);
            assert(at_position(steps[k], p) == at_position(steps[k - 1].push(c), p));
            steps[k - 1].lemma_filter_push(c, f);
            cs.take(k - 1).lemma_filter_push(c, f);
            assert(at_position(steps[k - 1], p) == at_position(d, p) + at_position(cs.take(k - 1), p));
            if f(c) {
                assert(at_position(steps[k], p) =~= at_position(d, p) + at_position(cs.take(k), p));
            } else {
                assert(at_position(steps[k], p) =~= at_position(d, p) + at_position(cs.take(k), p));
            }
        }
    }
}

/// Among characters at distinct positions, the one at `p` is all there is at `p`.
proof fn lemma_distinct_at(c: Seq<CharView>, i: int)
    requires
        distinct_positions(c),
        0 <= i < c.len(),
    ensures
        at_position(c, c[i].0) == seq![c[i]],
{
    broadcast use vstd::seq_lib::group_seq_properties;

    let p = c[i].0;
    let f = is_at(p);
    let a = c.take(i);
    let b = c.skip(i + 1);
    let e = Seq::<CharView>::empty();
    assert(c =~= a + (seq![c[i]] + b));
    vstd::seq::Seq::filter_distributes_over_add(a, seq![c[i]] + b, f);
    vstd::seq::Seq::filter_distributes_over_add(seq![c[i]], b, f);
    assert forall|k: int| 0 <= k < a.len() implies !f(#[trigger] a[k]) by {
        assert(a[k] == c[k]);
    }
    assert(a.all(|x: CharView| !f(x)));
    a.lemma_all_neg_filter_empty(f);
    assert forall|k: int| 0 <= k < b.len() implies !f(#[trigger] b[k]) by {
        assert(b[k] == c[i + 1 + k]);
    }
    assert(b.all(|x: CharView| !f(x)));
    b.lemma_all_neg_filter_empty(f);
    assert(e.filter(f) =~= e) by {
        reveal(Seq::filter);
    }
    assert(seq![c[i]] =~= e.push(c[i]));
    e.lemma_filter_push(c[i], f);
    assert(a.filter(f) =~= e);
    assert(b.filter(f) =~= e);
    assert(at_position(c, p) =~= seq![c[i]]);
}

/// Changes at distinct positions, taken in any order, give the same characters at
/// every position.
proof fn lemma_reordered_positions(c1: Seq<CharView>, c2: Seq<CharView>, p: Seq<Id>)
    requires
        distinct_positions(c1),
        c2.to_multiset() == c1.to_multiset(),
    ensures
        at_position(c1, p) == at_position(c2, p),
{
    broadcast use vstd::seq_lib::group_to_multiset_ensures;

    // the reordered changes have distinct positions too
    assert(c1.no_duplicates()) by {
        assert forall|i: int, j: int| 0 <= i < c1.len() && 0 <= j < c1.len() && i != j implies c1[i]
            != c1[j] by {
            assert(c1[i].0 != c1[j].0);
        }
    }
    c1.lemma_multiset_has_no_duplicates();
    c2.lemma_multiset_has_no_duplicates_conv();
    assert(distinct_positions(c2)) by {
        assert forall|i: int, j: int|
            0 <= i < c2.len() && 0 <= j < c2.len() && i != j implies #[trigger] c2[i].0
            != #[trigger] c2[j].0 by {
            assert(c2[i] != c2[j]);
            assert(c2.to_multiset().count(c2[i]) > 0);
            assert(c2.to_multiset().count(c2[j]) > 0);
            assert(c1.contains(c2[i]));
            assert(c1.contains(c2[j]));
            let a = choose|a: int| 0 <= a < c1.len() && c1[a] == c2[i];
            let b = choose|b: int| 0 <= b < c1.len() && c1[b] == c2[j];
        }
    }
    let f = is_at(p);
    if exists|i: int| 0 <= i < c1.len() && c1[i].0 == p {
        let i = choose|i: int| 0 <= i < c1.len() && c1[i].0 == p;
        lemma_distinct_at(c1, i);
        assert(c1.to_multiset().count(c1[i]) > 0);
        assert(c2.contains(c1[i]));
        let j = choose|j: int| 0 <= j < c2.len() && c2[j] == c1[i];
        lemma_distinct_at(c2, j);
    } else if exists|j: int| 0 <= j < c2.len() && c2[j].0 == p {
        let j = choose|j: int| 0 <= j < c2.len() && c2[j].0 == p;
        assert(c2.to_multiset().count(c2[j]) > 0);
        assert(c1.contains(c2[j]));
        assert(false);
    } else {
        assert(c1.all(|x: CharView| !f(x)));
        assert(c2.all(|x: CharView| !f(x)));
        c1.lemma_all_neg_filter_empty(f);
        c2.lemma_all_neg_filter_empty(f);
        assert(at_position(c1, p) =~= at_position(c2, p));
    }
}

/// Replicas converge, whatever order the changes come in: two replicas that start
/// alike and take in the same changes, at distinct positions, in any two orders,
/// end with the same characters in the same order.
pub proof fn lemma_replicas_converge(
    s1: Seq<Seq<CharView>>,
    s2: Seq<Seq<CharView>>,
    d: Seq<CharView>,
    c1: Seq<CharView>,
    c2: Seq<CharView>,
)
    requires
        receives(s1, d, c1),
        receives(s2, d, c2),
        c2.to_multiset() == c1.to_multiset(),
        distinct_positions(c1),
    ensures
        s1.last() == s2.last(),
{
    broadcast use vstd::seq_lib::group_to_multiset_ensures;

    assert(c1.len() == c1.to_multiset().len());
    assert(c2.len() == c2.to_multiset().len());
    if c1.len() == 0 {
        return;
    }
    let n = c1.len() as int;
    lemma_history_positions(s1, d, c1, n);
    lemma_history_positions(s2, d, c2, n);
    assert(c1.take(n) =~= c1);
    assert(c2.take(n) =~= c2);
    assert(is_insertion(s1[n], s1[n - 1], c1[n - 1]));
    assert(is_insertion(s2[n], s2[n - 1], c2[n - 1]));
    assert forall|p: Seq<Id>| #[trigger] at_position(s1[n], p) == at_position(s2[n], p) by {
        lemma_reordered_positions(c1, c2, p);
    }
    lemma_same_positions_equal(s1[n], s2[n]);
}

} // verus!
