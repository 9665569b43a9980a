use crate::error::{syntax_error, Expected, SyntaxError};
use crate::input::{occurs_at, rest_from, Input};
use vstd::prelude::*;
use vstd::string::{StrSliceExecFns, StringExecFns};

verus! {

/// A character that may start an identifier: an ASCII letter or `_`.
pub open spec fn is_ident_start(c: char) -> bool {
    ('a' <= c && c <= 'z') || ('A' <= c && c <= 'Z') || c == '_'
}

/// A character that may continue an identifier: an ASCII letter, digit or `_`.
pub open spec fn is_ident_continue(c: char) -> bool {
    is_ident_start(c) || ('0' <= c && c <= '9')
}

/// A non-empty identifier.
pub open spec fn is_ident(s: Seq<char>) -> bool {
    &&& s.len() > 0
    &&& is_ident_start(s[0])
    &&& forall|i: int| 0 <= i < s.len() ==> #[trigger] is_ident_continue(s[i])
}

/// `rest` cannot extend an identifier that it follows.
pub open spec fn ends_ident(rest: Seq<char>) -> bool {
    rest.len() == 0 || !is_ident_continue(rest[0])
}

pub fn ident_start(c: char) -> (r: bool)
    ensures
        r == is_ident_start(c),
{
    ('a' <= c && c <= 'z') || ('A' <= c && c <= 'Z') || c == '_'
}

pub fn ident_continue(c: char) -> (r: bool)
    ensures
        r == is_ident_continue(c),
{
    ident_start(c) || ('0' <= c && c <= '9')
}

/// An identifier followed by something that cannot extend it is determined:
/// the two splits of the same text agree.
pub proof fn lemma_ident_split(a: Seq<char>, ra: Seq<char>, b: Seq<char>, rb: Seq<char>)
    requires
        is_ident(a),
        is_ident(b),
        ends_ident(ra),
        ends_ident(rb),
        a + ra == b + rb,
    ensures
        a == b,
        ra == rb,
{
    let s = a + ra;
    if a.len() < b.len() {
        assert(s[a.len() as int] == b[a.len() as int]);
        assert(s[a.len() as int] == ra[0]);
    } else if b.len() < a.len() {
        assert(s[b.len() as int] == a[b.len() as int]);
        assert(s[b.len() as int] == rb[0]);
    }
    assert(a =~= s.subrange(0, a.len() as int));
    assert(b =~= s.subrange(0, b.len() as int));
    assert(ra =~= s.subrange(a.len() as int, s.len() as int));
    assert(rb =~= s.subrange(b.len() as int, s.len() as int));
}

/// The end of the longest run of identifier characters in `s` from `pos`.
pub fn scan_ident(s: &Vec<char>, pos: usize) -> (end: usize)
    requires
        pos <= s@.len(),
    ensures
        pos <= end <= s@.len(),
        forall|i: int| pos <= i < end ==> is_ident_continue(#[trigger] s@[i]),
        end == s@.len() || !is_ident_continue(s@[end as int]),
{
    let mut end = pos;
    while end < s.len() && ident_continue(s[end])
        invariant
            pos <= end <= s@.len(),
            forall|i: int| pos <= i < end ==> is_ident_continue(#[trigger] s@[i]),
        decreases s@.len() - end,
    {
        end = end + 1;
    }
    end
}

/// Reads the identifier that starts at `pos`, as far as it goes.
pub fn read_ident(input: &Input, pos: usize) -> (r: Result<(String, usize), SyntaxError>)
    requires
        input.wf(),
        pos <= input@.len(),
    ensures
        match r {
            Ok((id, end)) => {
                &&& is_ident(id@)
                &&& end == pos + id@.len()
                &&& occurs_at(input@, pos as int, id@)
                &&& ends_ident(rest_from(input@, end as int))
            },
            Err(e) => {
                &&& !(pos < input@.len() && is_ident_start(input@[pos as int]))
                &&& e.position == pos
            },
        },
{
    let s = &input.chars;
    if pos < s.len() && ident_start(s[pos]) {
        let end = scan_ident(s, pos);
        let id = String::from_str(input.text.substring_char(pos, end));
        assert(id@ =~= s@.subrange(pos as int, end as int));
        Ok((id, end))
    } else {
        Err(syntax_error(s, pos, Expected::Identifier))
    }
}

} // verus!
