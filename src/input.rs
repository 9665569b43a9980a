use vstd::prelude::*;
use vstd::std_specs::iter::IteratorSpec;
use vstd::string::StrSliceExecFns;

verus! {

/// Text to be parsed, with its characters at hand for reading by position.
pub struct Input<'a> {
    pub text: &'a str,
    pub chars: Vec<char>,
}

impl<'a> View for Input<'a> {
    type V = Seq<char>;

    open spec fn view(&self) -> Seq<char> {
        self.chars@
    }
}

impl<'a> Input<'a> {
    /// Whether `chars` holds the characters of `text`.
    pub open spec fn wf(&self) -> bool {
        self.chars@ == self.text@
    }

    pub fn new(text: &'a str) -> (r: Input<'a>)
        ensures
            r.wf(),
            r.text == text,
    {
        Input { text, chars: chars_of(text) }
    }
}

/// The characters of `text`, in order.
pub fn chars_of(text: &str) -> (s: Vec<char>)
    ensures
        s@ == text@,
{
    broadcast use vstd::string::group_string_axioms;

    let n = text.unicode_len();
    let mut it = text.chars();
    let mut s: Vec<char> = Vec::new();
    while s.len() < n
        invariant
            s@ + it.remaining() == text@,
            it.obeys_prophetic_iter_laws(),
            n == text@.len(),
        decreases n - s@.len(),
    {
        assert(it.remaining().len() > 0) by {
            assert((s@ + it.remaining()).len() == s@.len() + it.remaining().len());
        }
        if let Some(c) = it.next() {
            s.push(c);
        }
    }
    assert((s@ + it.remaining()).len() == s@.len() + it.remaining().len());
    assert(s@ =~= text@);
    s
}

/// `t` occurs in `s` at position `pos`.
pub open spec fn occurs_at(s: Seq<char>, pos: int, t: Seq<char>) -> bool {
    &&& 0 <= pos
    &&& pos + t.len() <= s.len()
    &&& s.subrange(pos, pos + t.len()) == t
}

/// What follows position `pos` in `s`.
pub open spec fn rest_from(s: Seq<char>, pos: int) -> Seq<char> {
    s.subrange(pos, s.len() as int)
}

/// A concatenation occurs where its first part does and its second part
/// follows.
pub proof fn lemma_occurs_concat(s: Seq<char>, pos: int, a: Seq<char>, b: Seq<char>)
    ensures
        occurs_at(s, pos, a + b) <==> (occurs_at(s, pos, a) && occurs_at(s, pos + a.len(), b)),
{
    if occurs_at(s, pos, a + b) {
        let w = s.subrange(pos, pos + (a + b).len());
        assert(s.subrange(pos, pos + a.len()) =~= w.subrange(0, a.len() as int));
        assert(a =~= (a + b).subrange(0, a.len() as int));
        assert(s.subrange(pos + a.len(), pos + a.len() + b.len()) =~= w.subrange(
            a.len() as int,
            (a.len() + b.len()) as int,
        ));
        assert(b =~= (a + b).subrange(a.len() as int, (a.len() + b.len()) as int));
    }
    if occurs_at(s, pos, a) && occurs_at(s, pos + a.len(), b) {
        assert(s.subrange(pos, pos + (a + b).len()) =~= a + b);
    }
}

/// Where `t` occurs at `pos`, what follows `pos` is `t` and what follows it.
pub proof fn lemma_rest_occurs(s: Seq<char>, pos: int, t: Seq<char>)
    requires
        0 <= pos <= s.len(),
    ensures
        occurs_at(s, pos, t) <==> rest_from(s, pos) == t + rest_from(s, pos + t.len()),
{
    if occurs_at(s, pos, t) {
        assert(rest_from(s, pos) =~= t + rest_from(s, pos + t.len()));
    }
    if rest_from(s, pos) == t + rest_from(s, pos + t.len()) {
        assert(rest_from(s, pos).len() == s.len() - pos);
        assert((t + rest_from(s, pos + t.len())).len() >= t.len());
        assert(s.subrange(pos, pos + t.len()) =~= rest_from(s, pos).subrange(0, t.len() as int));
        assert(t =~= (t + rest_from(s, pos + t.len())).subrange(0, t.len() as int));
    }
}

/// What follows `pos` is the character there and what follows it.
pub proof fn lemma_rest_first(s: Seq<char>, pos: int)
    requires
        0 <= pos < s.len(),
    ensures
        rest_from(s, pos) == seq![s[pos]] + rest_from(s, pos + 1),
        rest_from(s, pos)[0] == s[pos],
        rest_from(s, pos).drop_first() == rest_from(s, pos + 1),
{
    assert(rest_from(s, pos) =~= seq![s[pos]] + rest_from(s, pos + 1));
    assert(rest_from(s, pos).drop_first() =~= rest_from(s, pos + 1));
}

} // verus!
