use crate::error::{syntax_error, Expected, ParseErrors, SyntaxError};
use crate::ident::{ends_ident, is_ident, is_ident_continue, lemma_ident_split, read_ident};
use crate::input::{
    lemma_rest_first, lemma_rest_occurs, occurs_at, rest_from, Input,
};
use vstd::prelude::*;
use vstd::string::StringExecFns;

verus! {

/// A qualified class name: package and class path, then nested classes.
#[derive(Debug, Clone, PartialEq, Eq, Hash)]
pub struct Class {
    pub path: Vec<String>,
    pub subclasses: Vec<String>,
}

/// A class name as text segments.
pub struct ClassView {
    pub path: Seq<Seq<char>>,
    pub subclasses: Seq<Seq<char>>,
}

/// The text of each string.
pub open spec fn views(v: Seq<String>) -> Seq<Seq<char>> {
    v.map_values(|x: String| x@)
}

impl View for Class {
    type V = ClassView;

    open spec fn view(&self) -> ClassView {
        ClassView { path: views(self.path@), subclasses: views(self.subclasses@) }
    }
}

/// Each segment preceded by `sep`.
pub open spec fn prefixed(segs: Seq<Seq<char>>, sep: char) -> Seq<char>
    decreases segs.len(),
{
    if segs.len() == 0 {
        Seq::empty()
    } else {
        seq![sep] + segs[0] + prefixed(segs.drop_first(), sep)
    }
}

/// The segments with `sep` between each two.
pub open spec fn joined(segs: Seq<Seq<char>>, sep: char) -> Seq<char> {
    if segs.len() == 0 {
        Seq::empty()
    } else {
        segs[0] + prefixed(segs.drop_first(), sep)
    }
}

/// Each segment is an identifier.
pub open spec fn all_idents(segs: Seq<Seq<char>>) -> bool {
    forall|i: int| 0 <= i < segs.len() ==> is_ident(#[trigger] segs[i])
}

impl ClassView {
    /// At least one path segment, and every segment an identifier.
    pub open spec fn wf(self) -> bool {
        &&& self.path.len() > 0
        &&& all_idents(self.path)
        &&& all_idents(self.subclasses)
    }

    /// `a/b/C$D$E`: the path joined by `/`, then `$` and each nested class.
    pub open spec fn text(self) -> Seq<char> {
        joined(self.path, '/') + prefixed(self.subclasses, '$')
    }
}

/// `rest` cannot extend a class name that it follows.
pub open spec fn ends_class(rest: Seq<char>) -> bool {
    rest.len() == 0 || !(is_ident_continue(rest[0]) || rest[0] == '/' || rest[0] == '$')
}

/// The well-formed class name `c` stands at `pos` of `s`, and nothing after it
/// could extend it.
pub open spec fn class_at(s: Seq<char>, pos: int, c: ClassView) -> bool {
    &&& c.wf()
    &&& occurs_at(s, pos, c.text())
    &&& ends_class(rest_from(s, pos + c.text().len()))
}

pub proof fn lemma_prefixed_push(segs: Seq<Seq<char>>, x: Seq<char>, sep: char)
    ensures
        prefixed(segs.push(x), sep) == prefixed(segs, sep) + seq![sep] + x,
    decreases segs.len(),
{
    if segs.len() == 0 {
        assert(segs.push(x).drop_first() =~= Seq::<Seq<char>>::empty());
        assert(prefixed(Seq::<Seq<char>>::empty(), sep) =~= Seq::<char>::empty());
        assert(segs.push(x)[0] == x);
        assert(prefixed(segs.push(x), sep) =~= seq![sep] + x);
    } else {
        lemma_prefixed_push(segs.drop_first(), x, sep);
        assert(segs.push(x).drop_first() =~= segs.drop_first().push(x));
        assert(prefixed(segs.push(x), sep) =~= prefixed(segs, sep) + seq![sep] + x);
    }
}

pub proof fn lemma_joined_push(segs: Seq<Seq<char>>, x: Seq<char>, sep: char)
    requires
        segs.len() > 0,
    ensures
        joined(segs.push(x), sep) == joined(segs, sep) + seq![sep] + x,
{
    lemma_prefixed_push(segs.drop_first(), x, sep);
    assert(segs.push(x).drop_first() =~= segs.drop_first().push(x));
    assert(joined(segs.push(x), sep) =~= joined(segs, sep) + seq![sep] + x);
}

/// What follows a path segment: more segments, nested classes, then `r`.
#[verifier::opaque]
pub open spec fn class_tail(p: Seq<Seq<char>>, q: Seq<Seq<char>>, r: Seq<char>) -> Seq<char> {
    prefixed(p, '/') + prefixed(q, '$') + r
}

proof fn lemma_class_tail_first(p: Seq<Seq<char>>, q: Seq<Seq<char>>, r: Seq<char>)
    requires
        all_idents(p),
        all_idents(q),
        ends_class(r),
    ensures
        p.len() > 0 ==> class_tail(p, q, r) == seq!['/'] + p[0] + class_tail(p.drop_first(), q, r),
        p.len() == 0 && q.len() > 0 ==> class_tail(p, q, r) == seq!['$'] + q[0] + class_tail(
            p,
            q.drop_first(),
            r,
        ),
        p.len() == 0 && q.len() == 0 ==> class_tail(p, q, r) == r,
        ends_class(class_tail(p, q, r)) <==> (p.len() == 0 && q.len() == 0),
        ends_ident(class_tail(p, q, r)),
{
    reveal(class_tail);
    if p.len() > 0 {
        assert(class_tail(p, q, r) =~= seq!['/'] + p[0] + class_tail(p.drop_first(), q, r));
        assert(class_tail(p, q, r)[0] == '/');
    } else if q.len() > 0 {
        assert(class_tail(p, q, r) =~= seq!['$'] + q[0] + class_tail(p, q.drop_first(), r));
        assert(class_tail(p, q, r)[0] == '$');
    } else {
        assert(class_tail(p, q, r) =~= r);
    }
}

/// The segments that follow a path segment are determined by the text.
proof fn lemma_class_tail_unique(
    p1: Seq<Seq<char>>,
    q1: Seq<Seq<char>>,
    r1: Seq<char>,
    p2: Seq<Seq<char>>,
    q2: Seq<Seq<char>>,
    r2: Seq<char>,
)
    requires
        all_idents(p1),
        all_idents(q1),
        ends_class(r1),
        all_idents(p2),
        all_idents(q2),
        ends_class(r2),
        class_tail(p1, q1, r1) == class_tail(p2, q2, r2),
    ensures
        p1 == p2,
        q1 == q2,
        r1 == r2,
    decreases p1.len() + q1.len(),
{
    lemma_class_tail_first(p1, q1, r1);
    lemma_class_tail_first(p2, q2, r2);
    let t = class_tail(p1, q1, r1);
    if p1.len() > 0 {
        assert(is_ident(p1[0]));
        assert(t[0] == '/');
        assert(p2.len() > 0) by {
            if p2.len() == 0 && q2.len() > 0 {
                assert(t[0] == '$');
            }
        }
        lemma_class_tail_first(p1.drop_first(), q1, r1);
        lemma_class_tail_first(p2.drop_first(), q2, r2);
        assert(t.drop_first() =~= p1[0] + class_tail(p1.drop_first(), q1, r1));
        assert(t.drop_first() =~= p2[0] + class_tail(p2.drop_first(), q2, r2));
        assert(is_ident(p2[0]));
        lemma_ident_split(
            p1[0],
            class_tail(p1.drop_first(), q1, r1),
            p2[0],
            class_tail(p2.drop_first(), q2, r2),
        );
        lemma_class_tail_unique(p1.drop_first(), q1, r1, p2.drop_first(), q2, r2);
        assert(p1 =~= seq![p1[0]] + p1.drop_first());
        assert(p2 =~= seq![p2[0]] + p2.drop_first());
    } else if q1.len() > 0 {
        assert(is_ident(q1[0]));
        assert(t[0] == '$');
        assert(p2.len() == 0 && q2.len() > 0) by {
            if p2.len() > 0 {
                assert(t[0] == '/');
            }
        }
        lemma_class_tail_first(p1, q1.drop_first(), r1);
        lemma_class_tail_first(p2, q2.drop_first(), r2);
        assert(t.drop_first() =~= q1[0] + class_tail(p1, q1.drop_first(), r1));
        assert(t.drop_first() =~= q2[0] + class_tail(p2, q2.drop_first(), r2));
        assert(is_ident(q2[0]));
        lemma_ident_split(
            q1[0],
            class_tail(p1, q1.drop_first(), r1),
            q2[0],
            class_tail(p2, q2.drop_first(), r2),
        );
        lemma_class_tail_unique(p1, q1.drop_first(), r1, p2, q2.drop_first(), r2);
        assert(p1 =~= p2);
        assert(q1 =~= seq![q1[0]] + q1.drop_first());
        assert(q2 =~= seq![q2[0]] + q2.drop_first());
    } else {
        assert(p1 =~= p2);
        assert(q1 =~= q2);
    }
}

/// A class name followed by something that cannot extend it is determined
/// by its text.
pub proof fn lemma_class_unique(c1: ClassView, r1: Seq<char>, c2: ClassView, r2: Seq<char>)
    requires
        c1.wf(),
        c2.wf(),
        ends_class(r1),
        ends_class(r2),
        c1.text() + r1 == c2.text() + r2,
    ensures
        c1 == c2,
        r1 == r2,
{
    reveal(class_tail);
    let t1 = class_tail(c1.path.drop_first(), c1.subclasses, r1);
    let t2 = class_tail(c2.path.drop_first(), c2.subclasses, r2);
    lemma_class_tail_first(c1.path.drop_first(), c1.subclasses, r1);
    lemma_class_tail_first(c2.path.drop_first(), c2.subclasses, r2);
    assert(c1.text() + r1 =~= c1.path[0] + t1);
    assert(c2.text() + r2 =~= c2.path[0] + t2);
    assert(is_ident(c1.path[0]));
    assert(is_ident(c2.path[0]));
    lemma_ident_split(c1.path[0], t1, c2.path[0], t2);
    lemma_class_tail_unique(
        c1.path.drop_first(),
        c1.subclasses,
        r1,
        c2.path.drop_first(),
        c2.subclasses,
        r2,
    );
    assert(c1.path =~= seq![c1.path[0]] + c1.path.drop_first());
    assert(c2.path =~= seq![c2.path[0]] + c2.path.drop_first());
}

/// `rest` is the identifiers `p`, each preceded by `sep`, then `t`, which
/// starts with neither `sep` nor an identifier character.
pub open spec fn prefixed_split(rest: Seq<char>, sep: char, p: Seq<Seq<char>>, t: Seq<char>) -> bool {
    &&& all_idents(p)
    &&& rest == prefixed(p, sep) + t
    &&& ends_ident(t)
    &&& !(t.len() > 0 && t[0] == sep)
}

proof fn lemma_prefixed_first(p: Seq<Seq<char>>, sep: char, t: Seq<char>)
    requires
        p.len() > 0,
    ensures
        prefixed(p, sep) + t == seq![sep] + (p[0] + (prefixed(p.drop_first(), sep) + t)),
        (prefixed(p, sep) + t)[0] == sep,
{
    assert(prefixed(p, sep) + t =~= seq![sep] + (p[0] + (prefixed(p.drop_first(), sep) + t)));
}

proof fn lemma_prefixed_split_ends(p: Seq<Seq<char>>, sep: char, t: Seq<char>)
    requires
        all_idents(p),
        !is_ident_continue(sep),
        ends_ident(t),
    ensures
        ends_ident(prefixed(p, sep) + t),
{
    if p.len() > 0 {
        lemma_prefixed_first(p, sep, t);
    } else {
        assert(prefixed(p, sep) + t =~= t);
    }
}

/// Such a split is determined by the text.
pub proof fn lemma_prefixed_unique(
    rest: Seq<char>,
    sep: char,
    p1: Seq<Seq<char>>,
    t1: Seq<char>,
    p2: Seq<Seq<char>>,
    t2: Seq<char>,
)
    requires
        !is_ident_continue(sep),
        prefixed_split(rest, sep, p1, t1),
        prefixed_split(rest, sep, p2, t2),
    ensures
        p1 == p2,
        t1 == t2,
    decreases p1.len(),
{
    if p1.len() > 0 {
        lemma_prefixed_first(p1, sep, t1);
        if p2.len() == 0 {
            assert(prefixed(p2, sep) + t2 =~= t2);
        }
        lemma_prefixed_first(p2, sep, t2);
        let r1 = prefixed(p1.drop_first(), sep) + t1;
        let r2 = prefixed(p2.drop_first(), sep) + t2;
        assert(rest.drop_first() =~= p1[0] + r1);
        assert(rest.drop_first() =~= p2[0] + r2);
        assert(is_ident(p1[0]));
        assert(is_ident(p2[0]));
        lemma_prefixed_split_ends(p1.drop_first(), sep, t1);
        lemma_prefixed_split_ends(p2.drop_first(), sep, t2);
        lemma_ident_split(p1[0], r1, p2[0], r2);
        lemma_prefixed_unique(r1, sep, p1.drop_first(), t1, p2.drop_first(), t2);
        assert(p1 =~= seq![p1[0]] + p1.drop_first());
        assert(p2 =~= seq![p2[0]] + p2.drop_first());
    } else {
        assert(prefixed(p1, sep) + t1 =~= t1);
        if p2.len() > 0 {
            lemma_prefixed_first(p2, sep, t2);
        }
        assert(prefixed(p2, sep) + t2 =~= t2);
        assert(p1 =~= p2);
    }
}

/// Reads `sep` and an identifier, again and again, from `start` on.
fn read_prefixed(input: &Input, start: usize, sep: char) -> (r: Result<
    (Vec<String>, usize),
    SyntaxError,
>)
    requires
        input.wf(),
        start <= input@.len(),
        !is_ident_continue(sep),
        ends_ident(rest_from(input@, start as int)),
    ensures
        match r {
            Ok((segs, end)) => {
                &&& start <= end <= input@.len()
                &&& prefixed_split(
                    rest_from(input@, start as int),
                    sep,
                    views(segs@),
                    rest_from(input@, end as int),
                )
            },
            Err(e) => e.position <= input@.len() && forall|p: Seq<Seq<char>>, t: Seq<char>|
                !prefixed_split(rest_from(input@, start as int), sep, p, t),
        },
{
    let ghost s = input@;
    let ghost cand: Option<(Seq<Seq<char>>, Seq<char>)> = if exists|p: Seq<Seq<char>>, t: Seq<char>|
        prefixed_split(rest_from(s, start as int), sep, p, t) {
        Some(
            choose|p: Seq<Seq<char>>, t: Seq<char>|
                prefixed_split(rest_from(s, start as int), sep, p, t),
        )
    } else {
        None
    };
    proof {
        if cand is Some {
            let (p, t) = cand->0;
            assert(p.skip(0) =~= p);
        }
        assert(prefixed(Seq::<Seq<char>>::empty(), sep) =~= Seq::<char>::empty());
        assert(rest_from(s, start as int) =~= prefixed(Seq::<Seq<char>>::empty(), sep) + rest_from(
            s,
            start as int,
        ));
    }
    let mut segs: Vec<String> = Vec::new();
    let mut i = start;
    while i < input.chars.len() && input.chars[i] == sep
        invariant
            input.wf(),
            s == input@,
            start <= i <= s.len(),
            !is_ident_continue(sep),
            all_idents(views(segs@)),
            rest_from(s, start as int) == prefixed(views(segs@), sep) + rest_from(s, i as int),
            ends_ident(rest_from(s, i as int)),
            cand is None ==> forall|p: Seq<Seq<char>>, t: Seq<char>|
                !prefixed_split(rest_from(s, start as int), sep, p, t),
            cand matches Some((p, t)) ==> {
                &&& segs.len() <= p.len()
                &&& prefixed_split(rest_from(s, i as int), sep, p.skip(segs.len() as int), t)
            },
        decreases s.len() - i,
    {
        proof {
            lemma_rest_first(s, i as int);
        }
        let ghost k = segs.len() as int;
        match read_ident(input, i + 1) {
            Ok((id, e)) => {
                proof {
                    lemma_rest_occurs(s, i + 1, id@);
                    if cand is Some {
                        let (p, t) = cand->0;
                        let q = p.skip(k);
                        if q.len() == 0 {
                            assert(prefixed(q, sep) + t =~= t);
                        }
                        lemma_prefixed_first(q, sep, t);
                        assert(q.drop_first() =~= p.skip(k + 1));
                        assert(is_ident(q[0]));
                        lemma_prefixed_split_ends(q.drop_first(), sep, t);
                        assert(rest_from(s, i + 1) == rest_from(s, i as int).drop_first());
                        assert(rest_from(s, i + 1) =~= q[0] + (prefixed(q.drop_first(), sep) + t));
                        assert(rest_from(s, i + 1) == id@ + rest_from(s, e as int));
                        lemma_ident_split(
                            id@,
                            rest_from(s, e as int),
                            q[0],
                            prefixed(q.drop_first(), sep) + t,
                        );
                    }
                    lemma_prefixed_push(views(segs@), id@, sep);
                    assert(views(segs@.push(id)) =~= views(segs@).push(id@));
                }
                segs.push(id);
                i = e;
            },
            Err(err) => {
                proof {
                    if cand is Some {
                        let (p, t) = cand->0;
                        let q = p.skip(k);
                        if q.len() == 0 {
                            assert(prefixed(q, sep) + t =~= t);
                        }
                        lemma_prefixed_first(q, sep, t);
                        assert(is_ident(q[0]));
                        assert(rest_from(s, i + 1) == rest_from(s, i as int).drop_first());
                        assert(rest_from(s, i + 1) =~= q[0] + (prefixed(q.drop_first(), sep) + t));
                        assert((q[0] + (prefixed(q.drop_first(), sep) + t))[0] == q[0][0]);
                        assert(rest_from(s, i + 1).len() > 0);
                        lemma_rest_first(s, i + 1);
                        assert(false);
                    }
                    assert forall|p: Seq<Seq<char>>, t: Seq<char>|
                        !prefixed_split(rest_from(input@, start as int), sep, p, t) by {
                        if prefixed_split(rest_from(input@, start as int), sep, p, t) {
                            assert(cand is Some);
                        }
                    }
                }
                return Err(err);
            },
        }
    }
    proof {
        if i < s.len() {
            lemma_rest_first(s, i as int);
        }
    }
    Ok((segs, i))
}

/// A well-formed class name followed by `r`, as its first segment, the
/// slash-prefixed segments and the dollar-prefixed ones.
proof fn lemma_class_split(c: ClassView, r: Seq<char>)
    requires
        c.wf(),
        ends_class(r),
    ensures
        c.text() + r == c.path[0] + (prefixed(c.path.drop_first(), '/') + (prefixed(
            c.subclasses,
            '$',
        ) + r)),
        is_ident(c.path[0]),
        ends_ident(prefixed(c.path.drop_first(), '/') + (prefixed(c.subclasses, '$') + r)),
        prefixed_split(
            prefixed(c.path.drop_first(), '/') + (prefixed(c.subclasses, '$') + r),
            '/',
            c.path.drop_first(),
            prefixed(c.subclasses, '$') + r,
        ),
        prefixed_split(prefixed(c.subclasses, '$') + r, '$', c.subclasses, r),
{
    let t = prefixed(c.subclasses, '$') + r;
    assert(c.text() + r =~= c.path[0] + (prefixed(c.path.drop_first(), '/') + t));
    lemma_prefixed_split_ends(c.subclasses, '$', r);
    lemma_prefixed_split_ends(c.path.drop_first(), '/', t);
    if c.subclasses.len() > 0 {
        lemma_prefixed_first(c.subclasses, '$', r);
    } else {
        assert(t =~= r);
    }
    assert(all_idents(c.path.drop_first()));
}

impl Class {
    /// The text of this class name: `a/b/C$D$E`.
    pub fn to_text(&self) -> (r: String)
        ensures
            r@ == self@.text(),
    {
        let ghost path = views(self.path@);
        let ghost subs = views(self.subclasses@);
        let mut out = String::new();
        let mut k: usize = 0;
        proof {
            assert(path.take(0) =~= Seq::<Seq<char>>::empty());
        }
        while k < self.path.len()
            invariant
                k <= self.path.len(),
                path == views(self.path@),
                out@ == joined(path.take(k as int), '/'),
            decreases self.path.len() - k,
        {
            proof {
                reveal_strlit("/");
                assert(path.take(k + 1) =~= path.take(k as int).push(path[k as int]));
            }
            if k > 0 {
                out.append("/");
                proof {
                    lemma_joined_push(path.take(k as int), path[k as int], '/');
                }
            } else {
                assert(joined(path.take(1), '/') =~= path[0]);
            }
            out.append(self.path[k].as_str());
            k = k + 1;
        }
        proof {
            assert(path.take(k as int) =~= path);
            assert(subs.take(0) =~= Seq::<Seq<char>>::empty());
            assert(out@ =~= joined(path, '/') + prefixed(subs.take(0), '$'));
        }
        let mut m: usize = 0;
        while m < self.subclasses.len()
            invariant
                m <= self.subclasses.len(),
                path == views(self.path@),
                subs == views(self.subclasses@),
                out@ == joined(path, '/') + prefixed(subs.take(m as int), '$'),
            decreases self.subclasses.len() - m,
        {
            proof {
                reveal_strlit("$");
                assert(subs.take(m + 1) =~= subs.take(m as int).push(subs[m as int]));
                lemma_prefixed_push(subs.take(m as int), subs[m as int], '$');
            }
            out.append("$");
            out.append(self.subclasses[m].as_str());
            m = m + 1;
        }
        proof {
            assert(subs.take(m as int) =~= subs);
        }
        out
    }

    /// Reads a class name at `pos`, as far as it goes: the one well-formed
    /// class name whose text stands there and is not followed by a character
    /// that could extend it.
    pub fn parser(input: &Input, pos: usize) -> (r: Result<(Class, usize), SyntaxError>)
        requires
            input.wf(),
            pos <= input@.len(),
        ensures
            match r {
                Ok((c, end)) => class_at(input@, pos as int, c@) && end == pos + c@.text().len(),
                Err(e) => e.position <= input@.len() && forall|c: ClassView| !class_at(input@, pos as int, c),
            },
    {
        let ghost s = input@;
        let ghost cand: Option<ClassView> = if exists|c: ClassView| class_at(s, pos as int, c) {
            Some(choose|c: ClassView| class_at(s, pos as int, c))
        } else {
            None
        };
        let ghost r = if cand is Some {
            rest_from(s, pos + cand->0.text().len())
        } else {
            Seq::empty()
        };
        proof {
            if cand is Some {
                let c = cand->0;
                lemma_rest_occurs(s, pos as int, c.text());
                lemma_class_split(c, r);
            }
        }
        let (first, e1) = match read_ident(input, pos) {
            Ok(x) => x,
            Err(e) => {
                proof {
                    if cand is Some {
                        let c = cand->0;
                        assert((c.path[0] + (prefixed(c.path.drop_first(), '/') + (prefixed(
                            c.subclasses,
                            '$',
                        ) + r)))[0] == c.path[0][0]);
                        lemma_rest_first(s, pos as int);
                    }
                }
                return Err(e);
            },
        };
        proof {
            lemma_rest_occurs(s, pos as int, first@);
            if cand is Some {
                let c = cand->0;
                lemma_ident_split(
                    first@,
                    rest_from(s, e1 as int),
                    c.path[0],
                    prefixed(c.path.drop_first(), '/') + (prefixed(c.subclasses, '$') + r),
                );
            }
        }
        let (rest, e2) = match read_prefixed(input, e1, '/') {
            Ok(x) => x,
            Err(e) => {
                return Err(e);
            },
        };
        proof {
            if cand is Some {
                let c = cand->0;
                lemma_prefixed_unique(
                    rest_from(s, e1 as int),
                    '/',
                    views(rest@),
                    rest_from(s, e2 as int),
                    c.path.drop_first(),
                    prefixed(c.subclasses, '$') + r,
                );
            }
        }
        let (subclasses, e3) = match read_prefixed(input, e2, '$') {
            Ok(x) => x,
            Err(e) => {
                return Err(e);
            },
        };
        proof {
            if cand is Some {
                let c = cand->0;
                lemma_prefixed_unique(
                    rest_from(s, e2 as int),
                    '$',
                    views(subclasses@),
                    rest_from(s, e3 as int),
                    c.subclasses,
                    r,
                );
            }
            if e3 < s.len() {
                lemma_rest_first(s, e3 as int);
            }
        }
        if e3 < input.chars.len() && input.chars[e3] == '/' {
            return Err(syntax_error(&input.chars, e3, Expected::End));
        }
        let ghost vr = views(rest@);
        let ghost vs = views(subclasses@);
        let mut path = rest;
        path.insert(0, first);
        let c = Class { path, subclasses };
        proof {
            assert(c@.path =~= seq![first@] + vr);
            assert(c@.path.drop_first() =~= vr);
            assert(c@.subclasses =~= vs);
            assert(all_idents(c@.path));
            assert(c@.text() + rest_from(s, e3 as int) =~= first@ + (prefixed(vr, '/') + (prefixed(
                vs,
                '$',
            ) + rest_from(s, e3 as int))));
            assert(rest_from(s, pos as int).len() == s.len() - pos);
            assert(rest_from(s, e3 as int).len() == s.len() - e3);
            lemma_rest_occurs(s, pos as int, c@.text());
        }
        Ok((c, e3))
    }

    /// Parses a whole text as a class name.
    pub fn parse(text: &str) -> (r: Result<Class, ParseErrors>)
        ensures
            match r {
                Ok(c) => c@.wf() && c@.text() == text@,
                Err(e) => e.len() > 0 && e[0].position <= text@.len() && forall|c: ClassView| c.wf() ==> c.text() != text@,
            },
    {
        let input = Input::new(text);
        let ghost s = input@;
        proof {
            assert(rest_from(s, 0) =~= s);
        }
        match Class::parser(&input, 0) {
            Ok((c, end)) => {
                if end == input.chars.len() {
                    proof {
                        assert(s.subrange(0, end as int) =~= s);
                    }
                    Ok(c)
                } else {
                    proof {
                        lemma_rest_occurs(s, 0, c@.text());
                        assert forall|d: ClassView| d.wf() implies d.text() != text@ by {
                            if d.text() == text@ {
                                assert(d.text() + Seq::<char>::empty() =~= d.text());
                                lemma_class_unique(
                                    c@,
                                    rest_from(s, end as int),
                                    d,
                                    Seq::<char>::empty(),
                                );
                            }
                        }
                    }
                    Err(vec![syntax_error(&input.chars, end, Expected::End)])
                }
            },
            Err(e) => {
                proof {
                    assert forall|d: ClassView| d.wf() implies d.text() != text@ by {
                        if d.text() == text@ {
                            assert(s.subrange(0, d.text().len() as int) =~= s);
                            assert(class_at(s, 0, d));
                        }
                    }
                }
                Err(vec![e])
            },
        }
    }
}

/// Parsing the text of a well-formed class name gives that name back: no
/// other well-formed class name has the same text.
pub proof fn lemma_class_round_trip(c: ClassView, d: ClassView)
    requires
        c.wf(),
        d.wf(),
        d.text() == c.text(),
    ensures
        d == c,
{
    assert(d.text() + Seq::<char>::empty() =~= c.text() + Seq::<char>::empty());
    lemma_class_unique(d, Seq::<char>::empty(), c, Seq::<char>::empty());
}

/// Two class names that stand at one position, each not followed by a
/// character that could extend it, are the same.
pub proof fn lemma_class_at_unique(s: Seq<char>, pos: int, c1: ClassView, c2: ClassView)
    requires
        0 <= pos <= s.len(),
        class_at(s, pos, c1),
        class_at(s, pos, c2),
    ensures
        c1 == c2,
{
    lemma_rest_occurs(s, pos, c1.text());
    lemma_rest_occurs(s, pos, c2.text());
    lemma_class_unique(
        c1,
        rest_from(s, pos + c1.text().len()),
        c2,
        rest_from(s, pos + c2.text().len()),
    );
}

/// `/` or `$`.
pub open spec fn is_separator(c: char) -> bool {
    c == '/' || c == '$'
}

/// No two separators stand next to each other.
pub open spec fn no_adjacent_separators(x: Seq<char>) -> bool {
    forall|i: int| 0 <= i < x.len() - 1 ==> !(is_separator(#[trigger] x[i]) && is_separator(x[i + 1]))
}

/// Text with an empty segment: it is empty, starts or ends with a
/// separator, or has two separators in a row.
pub open spec fn has_empty_segment(x: Seq<char>) -> bool {
    ||| x.len() == 0
    ||| is_separator(x[0])
    ||| is_separator(x.last())
    ||| !no_adjacent_separators(x)
}

proof fn lemma_no_adjacent_concat(a: Seq<char>, b: Seq<char>)
    requires
        no_adjacent_separators(a),
        no_adjacent_separators(b),
        a.len() > 0 && b.len() > 0 ==> !(is_separator(a.last()) && is_separator(b[0])),
    ensures
        no_adjacent_separators(a + b),
{
    let x = a + b;
    assert forall|i: int| 0 <= i < x.len() - 1 implies !(is_separator(#[trigger] x[i])
        && is_separator(x[i + 1])) by {
        if i < a.len() - 1 {
            assert(x[i] == a[i] && x[i + 1] == a[i + 1]);
        } else if i == a.len() - 1 {
            assert(x[i] == a.last() && x[i + 1] == b[0]);
        } else {
            assert(x[i] == b[i - a.len()] && x[i + 1] == b[i - a.len() + 1]);
        }
    }
}

proof fn lemma_ident_no_separator(x: Seq<char>)
    requires
        is_ident(x),
    ensures
        no_adjacent_separators(x),
        !is_separator(x[0]),
        !is_separator(x.last()),
{
    assert(is_ident_continue(x[0]));
    assert(is_ident_continue(x[x.len() - 1]));
    assert forall|i: int| 0 <= i < x.len() - 1 implies !(is_separator(#[trigger] x[i])
        && is_separator(x[i + 1])) by {
        assert(is_ident_continue(x[i]));
    }
}

proof fn lemma_prefixed_separators(segs: Seq<Seq<char>>, sep: char)
    requires
        all_idents(segs),
        is_separator(sep),
    ensures
        no_adjacent_separators(prefixed(segs, sep)),
        prefixed(segs, sep).len() > 0 ==> !is_separator(prefixed(segs, sep).last()),
    decreases segs.len(),
{
    if segs.len() > 0 {
        let x = segs[0];
        let rest = prefixed(segs.drop_first(), sep);
        assert(is_ident(x));
        lemma_ident_no_separator(x);
        lemma_prefixed_separators(segs.drop_first(), sep);
        lemma_no_adjacent_concat(seq![sep], x);
        lemma_no_adjacent_concat(seq![sep] + x, rest);
        assert(prefixed(segs, sep) == seq![sep] + x + rest);
        if rest.len() > 0 {
            assert((seq![sep] + x + rest).last() == rest.last());
        } else {
            assert((seq![sep] + x + rest).last() == x.last());
        }
    } else {
        assert(no_adjacent_separators(prefixed(segs, sep)));
    }
}

/// The text of a well-formed class name has no empty segment, so a text with
/// one is the text of no well-formed class name and does not parse.
pub proof fn lemma_no_empty_segment(c: ClassView)
    requires
        c.wf(),
    ensures
        !has_empty_segment(c.text()),
{
    let first = c.path[0];
    let p = prefixed(c.path.drop_first(), '/');
    let q = prefixed(c.subclasses, '$');
    assert(is_ident(first));
    assert(all_idents(c.path.drop_first()));
    lemma_ident_no_separator(first);
    lemma_prefixed_separators(c.path.drop_first(), '/');
    lemma_prefixed_separators(c.subclasses, '$');
    lemma_no_adjacent_concat(first, p);
    lemma_no_adjacent_concat(first + p, q);
    let x = c.text();
    assert(x == first + p + q);
    assert(x[0] == first[0]);
    if q.len() > 0 {
        assert(x.last() == q.last());
    } else if p.len() > 0 {
        assert(x.last() == p.last());
    } else {
        assert(x.last() == first.last());
    }
}

impl std::str::FromStr for Class {
    type Err = ParseErrors;

    fn from_str(text: &str) -> (r: Result<Class, ParseErrors>)
        ensures
            match r {
                Ok(c) => c@.wf() && c@.text() == text@,
                Err(e) => e.len() > 0 && e[0].position <= text@.len() && forall|c: ClassView| c.wf() ==> c.text() != text@,
            },
    {
        Class::parse(text)
    }
}

} // verus!
