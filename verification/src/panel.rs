//! What the collaboration panel exchanges with the session server: the file that
//! starts a session, the server's answers, and the session number that a user
//! shares or types.

use vstd::prelude::*;

use crate::digits::{nat_digits, parse_i32, parse_i32_spec, string_chars, string_from_chars, usize_digits};

verus! {

/// The file that a session starts with.
#[derive(Clone, Debug)]
pub struct CollaborativeEditingData {
    pub file_name: String,
    pub file_content: String,
}

/// The server's answer to a new session: its status and the session's number.
#[derive(Clone, Debug)]
pub struct StartResponse {
    pub status: String,
    pub id: i32,
}

/// The server's answer to a user who joins: its status and the shared file.
#[derive(Clone, Debug)]
pub struct JoinResponse {
    pub status: String,
    pub file_content: String,
}

/// The decimal text of an integer, with a `'-'` in front when it is negative.
pub open spec fn int_text(v: int) -> Seq<char> {
    if v < 0 {
        seq!['-'] + nat_digits((-v) as nat)
    } else {
        nat_digits(v as nat)
    }
}

/// The text without its first and its last character; empty when there are fewer
/// than two.
pub open spec fn inner_text(s: Seq<char>) -> Seq<char> {
    if s.len() >= 2 {
        s.subrange(1, s.len() - 1)
    } else {
        Seq::empty()
    }
}

/// The session number as the user shares it: its decimal text.
pub fn session_id_text(response: &StartResponse) -> (s: String)
    ensures
        s@ == int_text(response.id as int),
{
    let id = response.id;
    if id < 0 {
        let magnitude: i64 = 0 - (id as i64);
        let digits = usize_digits(magnitude as usize);
        let mut cs: Vec<char> = Vec::new();
        cs.push('-');
        let mut i: usize = 0;
        while i < digits.len()
            invariant
                i <= digits.len(),
                cs@ =~= seq!['-'] + digits@.take(i as int),
            decreases digits.len() - i,
        {
            cs.push(digits[i]);
            i = i + 1;
        }
        assert(digits@.take(digits.len() as int) =~= digits@);
        string_from_chars(&cs)
    } else {
        let digits = usize_digits(id as usize);
        string_from_chars(&digits)
    }
}

/// The session number that a user typed, as `str::parse::<i32>` reads it.
pub fn parse_session_id(input: &str) -> (r: Option<i32>)
    ensures
        r == parse_i32_spec(input@),
{
    parse_i32(input)
}

/// A text without its first and its last character, as a quoted JSON string is
/// turned into its contents.
pub fn strip_outer_chars(s: &str) -> (r: String)
    ensures
        r@ == inner_text(s@),
{
    let cs = string_chars(s);
    let mut out: Vec<char> = Vec::new();
    if cs.len() >= 2 {
        let last = cs.len() - 1;
        let mut i: usize = 1;
        while i < last
            invariant
                1 <= i <= last,
                last == cs.len() - 1,
                out@ =~= cs@.subrange(1, i as int),
            decreases last - i,
        {
            out.push(cs[i]);
            i = i + 1;
        }
    }
    string_from_chars(&out)
}

} // verus!
