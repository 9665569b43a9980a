use crate::error::{syntax_error, Expected, ParseErrors, SyntaxError};
use crate::ident::{ends_ident, is_ident, is_ident_start, lemma_ident_split, read_ident};
use crate::input::{lemma_occurs_concat, lemma_rest_occurs, occurs_at, rest_from, Input};
use crate::ty::{
    lemma_encoding_first, lemma_text_is_descriptor, lemma_type_at_unique, lemma_type_unique, Type,
    TypeView,
};
use vstd::prelude::*;

verus! {

/// The signature of a method or of a constructor.
#[derive(Debug, PartialEq, Eq, Hash)]
pub enum Method {
    /// A named method; no return type means `void`.
    Method { name: String, parameters: Vec<Type>, return_type: Option<Type> },
    /// A constructor, named `<init>` in its descriptor; it returns nothing.
    Constructor { parameters: Vec<Type> },
}

/// A method signature, with names as text and types as their views.
pub enum MethodView {
    Method { name: Seq<char>, parameters: Seq<TypeView>, return_type: Option<TypeView> },
    Constructor { parameters: Seq<TypeView> },
}

/// The view of each type.
pub open spec fn type_views(v: Seq<Type>) -> Seq<TypeView> {
    v.map_values(|t: Type| t@)
}

impl View for Method {
    type V = MethodView;

    open spec fn view(&self) -> MethodView {
        match self {
            Method::Method { name, parameters, return_type } => MethodView::Method {
                name: name@,
                parameters: type_views(parameters@),
                return_type: match return_type {
                    Some(t) => Some(t@),
                    None => None,
                },
            },
            Method::Constructor { parameters } => MethodView::Constructor {
                parameters: type_views(parameters@),
            },
        }
    }
}

/// Each type is well-formed.
pub open spec fn all_wf(ts: Seq<TypeView>) -> bool {
    forall|i: int| 0 <= i < ts.len() ==> (#[trigger] ts[i]).wf()
}

/// The descriptors of the types, one after another.
pub open spec fn types_encoding(ts: Seq<TypeView>, long_code: char) -> Seq<char>
    decreases ts.len(),
{
    if ts.len() == 0 {
        Seq::empty()
    } else {
        ts[0].encoding(long_code) + types_encoding(ts.drop_first(), long_code)
    }
}

/// `(`, the descriptors of the parameter types, `)`.
pub open spec fn params_encoding(ts: Seq<TypeView>, long_code: char) -> Seq<char> {
    seq!['('] + types_encoding(ts, long_code) + seq![')']
}

/// The descriptor of the return type, or `V` for none.
pub open spec fn return_encoding(rt: Option<TypeView>, long_code: char) -> Seq<char> {
    match rt {
        Some(t) => t.encoding(long_code),
        None => seq!['V'],
    }
}

/// The name that stands for a constructor: `<init>`.
pub open spec fn init_name() -> Seq<char> {
    seq!['<', 'i', 'n', 'i', 't', '>']
}

/// The types with `Int` in place of each `Long`.
pub open spec fn types_long_as_int(ts: Seq<TypeView>) -> Seq<TypeView> {
    ts.map_values(|t: TypeView| t.long_as_int())
}

impl MethodView {
    /// The name is an identifier and every type is well-formed.
    pub open spec fn wf(self) -> bool {
        match self {
            MethodView::Method { name, parameters, return_type } => {
                &&& is_ident(name)
                &&& all_wf(parameters)
                &&& (return_type matches Some(t) ==> t.wf())
            },
            MethodView::Constructor { parameters } => all_wf(parameters),
        }
    }

    /// The descriptor, with `long_code` standing for `Long`: the name (or
    /// `<init>`), the parameters in parentheses, then the return type or `V`.
    pub open spec fn encoding(self, long_code: char) -> Seq<char> {
        match self {
            MethodView::Method { name, parameters, return_type } => name + params_encoding(
                parameters,
                long_code,
            ) + return_encoding(return_type, long_code),
            MethodView::Constructor { parameters } => init_name() + params_encoding(
                parameters,
                long_code,
            ) + seq!['V'],
        }
    }

    /// The descriptor that the grammar reads: `J` for `Long`.
    pub open spec fn descriptor(self) -> Seq<char> {
        self.encoding('J')
    }

    /// The text that formatting writes: `Long` is written as `I`.
    pub open spec fn text(self) -> Seq<char> {
        self.encoding('I')
    }

    /// This signature with `Int` in place of each `Long`.
    pub open spec fn long_as_int(self) -> MethodView {
        match self {
            MethodView::Method { name, parameters, return_type } => MethodView::Method {
                name,
                parameters: types_long_as_int(parameters),
                return_type: match return_type {
                    Some(t) => Some(t.long_as_int()),
                    None => None,
                },
            },
            MethodView::Constructor { parameters } => MethodView::Constructor {
                parameters: types_long_as_int(parameters),
            },
        }
    }

    /// `Long` occurs in a parameter or in the return type.
    pub open spec fn has_long(self) -> bool {
        match self {
            MethodView::Method { name, parameters, return_type } => {
                ||| exists|i: int| 0 <= i < parameters.len() && (#[trigger] parameters[i]).has_long()
                ||| (return_type matches Some(t) && t.has_long())
            },
            MethodView::Constructor { parameters } => exists|i: int|
                0 <= i < parameters.len() && (#[trigger] parameters[i]).has_long(),
        }
    }
}

pub proof fn lemma_types_push(ts: Seq<TypeView>, t: TypeView, long_code: char)
    ensures
        types_encoding(ts.push(t), long_code) == types_encoding(ts, long_code) + t.encoding(
            long_code,
        ),
    decreases ts.len(),
{
    if ts.len() == 0 {
        assert(ts.push(t).drop_first() =~= Seq::<TypeView>::empty());
        assert(types_encoding(Seq::<TypeView>::empty(), long_code) =~= Seq::<char>::empty());
        assert(types_encoding(ts.push(t), long_code) =~= t.encoding(long_code));
    } else {
        lemma_types_push(ts.drop_first(), t, long_code);
        assert(ts.push(t).drop_first() =~= ts.drop_first().push(t));
        assert(types_encoding(ts.push(t), long_code) =~= types_encoding(ts, long_code)
            + t.encoding(long_code));
    }
}

/// The descriptors of a list of types, followed by `)`, determine the list.
pub proof fn lemma_types_unique(p1: Seq<TypeView>, r1: Seq<char>, p2: Seq<TypeView>, r2: Seq<char>)
    requires
        all_wf(p1),
        all_wf(p2),
        types_encoding(p1, 'J') + seq![')'] + r1 == types_encoding(p2, 'J') + seq![')'] + r2,
    ensures
        p1 == p2,
        r1 == r2,
    decreases p1.len(),
{
    let s = types_encoding(p1, 'J') + seq![')'] + r1;
    if p1.len() > 0 {
        lemma_encoding_first(p1[0], 'J');
        assert(s =~= p1[0].descriptor() + (types_encoding(p1.drop_first(), 'J') + seq![')'] + r1));
        assert(s[0] == p1[0].descriptor()[0]);
        if p2.len() == 0 {
            assert(s =~= seq![')'] + r2);
            assert(false);
        }
        lemma_encoding_first(p2[0], 'J');
        assert(s =~= p2[0].descriptor() + (types_encoding(p2.drop_first(), 'J') + seq![')'] + r2));
        assert(p1[0].wf());
        assert(p2[0].wf());
        lemma_type_unique(
            p1[0],
            types_encoding(p1.drop_first(), 'J') + seq![')'] + r1,
            p2[0],
            types_encoding(p2.drop_first(), 'J') + seq![')'] + r2,
        );
        lemma_types_unique(p1.drop_first(), r1, p2.drop_first(), r2);
        assert(p1 =~= seq![p1[0]] + p1.drop_first());
        assert(p2 =~= seq![p2[0]] + p2.drop_first());
    } else {
        assert(s =~= seq![')'] + r1);
        if p2.len() > 0 {
            lemma_encoding_first(p2[0], 'J');
            assert(s =~= p2[0].descriptor() + (types_encoding(p2.drop_first(), 'J') + seq![')']
                + r2));
            assert(s[0] == p2[0].descriptor()[0]);
            assert(false);
        }
        assert(s =~= seq![')'] + r2);
        assert(r1 =~= s.drop_first());
        assert(r2 =~= s.drop_first());
        assert(p1 =~= p2);
    }
}

/// A parameter list in parentheses ends by itself.
pub proof fn lemma_params_unique(p1: Seq<TypeView>, r1: Seq<char>, p2: Seq<TypeView>, r2: Seq<char>)
    requires
        all_wf(p1),
        all_wf(p2),
        params_encoding(p1, 'J') + r1 == params_encoding(p2, 'J') + r2,
    ensures
        p1 == p2,
        r1 == r2,
{
    let s = params_encoding(p1, 'J') + r1;
    assert(s.drop_first() =~= types_encoding(p1, 'J') + seq![')'] + r1);
    assert(s.drop_first() =~= types_encoding(p2, 'J') + seq![')'] + r2);
    lemma_types_unique(p1, r1, p2, r2);
}

/// A method descriptor ends by itself: whatever follows it, the descriptor
/// and the signature are determined.
pub proof fn lemma_method_unique(m1: MethodView, r1: Seq<char>, m2: MethodView, r2: Seq<char>)
    requires
        m1.wf(),
        m2.wf(),
        m1.descriptor() + r1 == m2.descriptor() + r2,
    ensures
        m1 == m2,
        r1 == r2,
{
    let s = m1.descriptor() + r1;
    match m1 {
        MethodView::Method { name: n1, parameters: p1, return_type: t1 } => {
            assert(s =~= n1 + (params_encoding(p1, 'J') + (return_encoding(t1, 'J') + r1)));
            assert(s[0] == n1[0]);
            match m2 {
                MethodView::Method { name: n2, parameters: p2, return_type: t2 } => {
                    assert(s =~= n2 + (params_encoding(p2, 'J') + (return_encoding(t2, 'J')
                        + r2)));
                    lemma_ident_split(
                        n1,
                        params_encoding(p1, 'J') + (return_encoding(t1, 'J') + r1),
                        n2,
                        params_encoding(p2, 'J') + (return_encoding(t2, 'J') + r2),
                    );
                    lemma_params_unique(
                        p1,
                        return_encoding(t1, 'J') + r1,
                        p2,
                        return_encoding(t2, 'J') + r2,
                    );
                    let q = return_encoding(t1, 'J') + r1;
                    match t1 {
                        Some(a) => {
                            lemma_encoding_first(a, 'J');
                            assert(q[0] == a.descriptor()[0]);
                            match t2 {
                                Some(b) => {
                                    lemma_type_unique(a, r1, b, r2);
                                },
                                None => {
                                    assert(q[0] == 'V');
                                },
                            }
                        },
                        None => {
                            assert(q[0] == 'V');
                            match t2 {
                                Some(b) => {
                                    lemma_encoding_first(b, 'J');
                                    assert(q[0] == b.descriptor()[0]);
                                },
                                None => {
                                    assert(r1 =~= q.drop_first());
                                    assert(r2 =~= q.drop_first());
                                },
                            }
                        },
                    }
                },
                MethodView::Constructor { parameters: p2 } => {
                    assert(s[0] == '<');
                },
            }
        },
        MethodView::Constructor { parameters: p1 } => {
            assert(s[0] == '<');
            match m2 {
                MethodView::Method { name: n2, parameters: p2, return_type: t2 } => {
                    assert(s[0] == n2[0]);
                },
                MethodView::Constructor { parameters: p2 } => {
                    assert(s.skip(6) =~= params_encoding(p1, 'J') + (seq!['V'] + r1));
                    assert(s.skip(6) =~= params_encoding(p2, 'J') + (seq!['V'] + r2));
                    lemma_params_unique(p1, seq!['V'] + r1, p2, seq!['V'] + r2);
                    assert(r1 =~= (seq!['V'] + r1).drop_first());
                    assert(r2 =~= (seq!['V'] + r2).drop_first());
                },
            }
        },
    }
}

/// Appends the parameter list in parentheses to `out`.
fn write_params(ps: &Vec<Type>, out: &mut String)
    ensures
        final(out)@ == old(out)@ + params_encoding(type_views(ps@), 'I'),
{
    let ghost ts = type_views(ps@);
    let ghost start = out@;
    proof {
        reveal_strlit("(");
        reveal_strlit(")");
        assert(ts.take(0) =~= Seq::<TypeView>::empty());
    }
    out.append("(");
    let mut k: usize = 0;
    while k < ps.len()
        invariant
            k <= ps.len(),
            ts == type_views(ps@),
            out@ == start + seq!['('] + types_encoding(ts.take(k as int), 'I'),
        decreases ps.len() - k,
    {
        proof {
            assert(ts.take(k + 1) =~= ts.take(k as int).push(ts[k as int]));
            lemma_types_push(ts.take(k as int), ts[k as int], 'I');
        }
        ps[k].write_to(out);
        k = k + 1;
    }
    proof {
        assert(ts.take(k as int) =~= ts);
    }
    out.append(")");
}

impl Method {
    /// The text of this signature: its descriptor, except that `Long` is
    /// written as `I`.
    pub fn to_text(&self) -> (r: String)
        ensures
            r@ == self@.text(),
    {
        proof {
            reveal_strlit("<init>");
            reveal_strlit("V");
        }
        let mut out = String::new();
        match self {
            Method::Method { name, parameters, return_type } => {
                out.append(name.as_str());
                write_params(parameters, &mut out);
                match return_type {
                    Some(t) => t.write_to(&mut out),
                    None => out.append("V"),
                }
            },
            Method::Constructor { parameters } => {
                out.append("<init>");
                write_params(parameters, &mut out);
                out.append("V");
            },
        }
        out
    }
}

/// Reads the parameter list in parentheses at `pos`.
fn read_params(input: &Input, pos: usize) -> (r: Result<(Vec<Type>, usize), SyntaxError>)
    requires
        input.wf(),
        pos <= input@.len(),
    ensures
        match r {
            Ok((ps, end)) => {
                &&& all_wf(type_views(ps@))
                &&& occurs_at(input@, pos as int, params_encoding(type_views(ps@), 'J'))
                &&& end == pos + params_encoding(type_views(ps@), 'J').len()
            },
            Err(e) => e.position <= input@.len() && forall|ts: Seq<TypeView>|
                all_wf(ts) ==> !occurs_at(input@, pos as int, #[trigger] params_encoding(ts, 'J')),
        },
{
    let ghost s = input@;
    let ghost cand: Option<Seq<TypeView>> = if exists|ts: Seq<TypeView>|
        all_wf(ts) && occurs_at(s, pos as int, params_encoding(ts, 'J')) {
        Some(choose|ts: Seq<TypeView>| all_wf(ts) && occurs_at(s, pos as int, params_encoding(ts, 'J')))
    } else {
        None
    };
    proof {
        if cand is Some {
            let ts = cand->0;
            assert(params_encoding(ts, 'J') =~= seq!['('] + (types_encoding(ts, 'J') + seq![')']));
            lemma_occurs_concat(s, pos as int, seq!['('], types_encoding(ts, 'J') + seq![')']);
            assert(ts.skip(0) =~= ts);
            assert(s.subrange(pos as int, pos + 1)[0] == s[pos as int]);
        }
    }
    if !(pos < input.chars.len() && input.chars[pos] == '(') {
        return Err(syntax_error(&input.chars, pos, Expected::Char('(')));
    }
    let mut ps: Vec<Type> = Vec::new();
    let mut i = pos + 1;
    proof {
        assert(s.subrange(pos as int, pos + 1) =~= seq!['(']);
        assert(types_encoding(type_views(ps@), 'J') =~= Seq::<char>::empty());
        assert(seq!['('] + types_encoding(type_views(ps@), 'J') =~= seq!['(']);
    }
    while i < input.chars.len() && input.chars[i] != ')'
        invariant
            input.wf(),
            s == input@,
            pos < i <= s.len(),
            all_wf(type_views(ps@)),
            occurs_at(s, pos as int, seq!['('] + types_encoding(type_views(ps@), 'J')),
            i == pos + 1 + types_encoding(type_views(ps@), 'J').len(),
            cand is None ==> forall|ts: Seq<TypeView>|
                all_wf(ts) ==> !occurs_at(s, pos as int, #[trigger] params_encoding(ts, 'J')),
            cand matches Some(ts) ==> {
                &&& all_wf(ts)
                &&& ps.len() <= ts.len()
                &&& type_views(ps@) == ts.take(ps.len() as int)
                &&& occurs_at(s, i as int, types_encoding(ts.skip(ps.len() as int), 'J') + seq![')'])
            },
        decreases s.len() - i,
    {
        let ghost k = ps.len() as int;
        proof {
            if cand is Some {
                let ts = cand->0;
                let q = ts.skip(k);
                if q.len() == 0 {
                    assert(types_encoding(q, 'J') + seq![')'] =~= seq![')']);
                    assert(s.subrange(i as int, i + 1)[0] == s[i as int]);
                    assert(false);
                }
                assert(types_encoding(q, 'J') + seq![')'] =~= q[0].descriptor() + (types_encoding(
                    q.drop_first(),
                    'J',
                ) + seq![')']));
                lemma_occurs_concat(
                    s,
                    i as int,
                    q[0].descriptor(),
                    types_encoding(q.drop_first(), 'J') + seq![')'],
                );
                assert(q[0] == ts[k]);
                assert(q[0].wf());
            }
        }
        match Type::parser(input, i) {
            Ok((t, e)) => {
                proof {
                    lemma_encoding_first(t@, 'J');
                    lemma_types_push(type_views(ps@), t@, 'J');
                    lemma_occurs_concat(
                        s,
                        pos as int,
                        seq!['('] + types_encoding(type_views(ps@), 'J'),
                        t@.descriptor(),
                    );
                    assert(seq!['('] + types_encoding(type_views(ps@), 'J') + t@.descriptor()
                        =~= seq!['('] + types_encoding(type_views(ps@).push(t@), 'J'));
                    assert(type_views(ps@.push(t)) =~= type_views(ps@).push(t@));
                    if cand is Some {
                        let ts = cand->0;
                        let q = ts.skip(k);
                        lemma_type_at_unique(s, i as int, t@, q[0]);
                        assert(q.drop_first() =~= ts.skip(k + 1));
                        assert(ts.take(k + 1) =~= ts.take(k).push(ts[k]));
                    }
                }
                ps.push(t);
                i = e;
            },
            Err(err) => {
                return Err(err);
            },
        }
    }
    if i >= input.chars.len() {
        return Err(syntax_error(&input.chars, i, Expected::Char(')')));
    }
    proof {
        assert(s.subrange(i as int, i + 1) =~= seq![')']);
        lemma_occurs_concat(
            s,
            pos as int,
            seq!['('] + types_encoding(type_views(ps@), 'J'),
            seq![')'],
        );
    }
    Ok((ps, i + 1))
}

/// Two parameter lists that stand at one position are the same.
proof fn lemma_params_at_unique(s: Seq<char>, pos: int, p1: Seq<TypeView>, p2: Seq<TypeView>)
    requires
        0 <= pos <= s.len(),
        all_wf(p1),
        all_wf(p2),
        occurs_at(s, pos, params_encoding(p1, 'J')),
        occurs_at(s, pos, params_encoding(p2, 'J')),
    ensures
        p1 == p2,
{
    lemma_rest_occurs(s, pos, params_encoding(p1, 'J'));
    lemma_rest_occurs(s, pos, params_encoding(p2, 'J'));
    lemma_params_unique(
        p1,
        rest_from(s, pos + params_encoding(p1, 'J').len()),
        p2,
        rest_from(s, pos + params_encoding(p2, 'J').len()),
    );
}

/// Whether `<init>` stands at `pos`.
fn init_at(input: &Input, pos: usize) -> (r: bool)
    requires
        input.wf(),
        pos <= input@.len(),
    ensures
        r == occurs_at(input@, pos as int, init_name()),
        r ==> pos + 6 <= input.chars.len(),
{
    let ghost s = input@;
    let c = &input.chars;
    if c.len() - pos < 6 {
        return false;
    }
    let r = c[pos] == '<' && c[pos + 1] == 'i' && c[pos + 2] == 'n' && c[pos + 3] == 'i' && c[pos
        + 4] == 't' && c[pos + 5] == '>';
    proof {
        let w = s.subrange(pos as int, pos + 6);
        if r {
            assert(w =~= init_name());
        }
        if w == init_name() {
            assert(w[0] == s[pos as int]);
            assert(w[1] == s[pos + 1]);
            assert(w[2] == s[pos + 2]);
            assert(w[3] == s[pos + 3]);
            assert(w[4] == s[pos + 4]);
            assert(w[5] == s[pos + 5]);
        }
    }
    r
}

/// A constructor descriptor stands at `pos` just where `<init>` does, its
/// parameter list right after, and `V` after that.
proof fn lemma_constructor_at(s: Seq<char>, pos: int, ps: Seq<TypeView>)
    ensures
        occurs_at(s, pos, MethodView::Constructor { parameters: ps }.descriptor()) <==> {
            &&& occurs_at(s, pos, init_name())
            &&& occurs_at(s, pos + 6, params_encoding(ps, 'J'))
            &&& occurs_at(s, pos + 6 + params_encoding(ps, 'J').len(), seq!['V'])
        },
{
    lemma_occurs_concat(s, pos, init_name() + params_encoding(ps, 'J'), seq!['V']);
    lemma_occurs_concat(s, pos, init_name(), params_encoding(ps, 'J'));
}

/// Reads a constructor descriptor at `pos`.
fn parse_constructor_at(input: &Input, pos: usize) -> (r: Result<(Method, usize), SyntaxError>)
    requires
        input.wf(),
        pos <= input@.len(),
    ensures
        match r {
            Ok((m, end)) => {
                &&& m@.wf()
                &&& occurs_at(input@, pos as int, m@.descriptor())
                &&& end == pos + m@.descriptor().len()
            },
            Err(e) => e.position <= input@.len() && forall|m: MethodView|
                m.wf() && m is Constructor ==> !occurs_at(input@, pos as int, #[trigger] m.descriptor()),
        },
{
    let ghost s = input@;
    let at_init = init_at(input, pos);
    if !at_init {
        proof {
            assert forall|m: MethodView| m.wf() && m is Constructor implies !occurs_at(
                s,
                pos as int,
                #[trigger] m.descriptor(),
            ) by {
                lemma_constructor_at(s, pos as int, m->Constructor_parameters);
            }
        }
        return Err(syntax_error(&input.chars, pos, Expected::Identifier));
    }
    proof {
        assert(init_name().len() == 6);
    }
    let (parameters, e) = match read_params(input, pos + 6) {
        Ok(x) => x,
        Err(err) => {
            proof {
                assert forall|m: MethodView| m.wf() && m is Constructor implies !occurs_at(
                    s,
                    pos as int,
                    #[trigger] m.descriptor(),
                ) by {
                    lemma_constructor_at(s, pos as int, m->Constructor_parameters);
                }
            }
            return Err(err);
        },
    };
    let ghost vs = type_views(parameters@);
    if e < input.chars.len() && input.chars[e] == 'V' {
        let m = Method::Constructor { parameters };
        proof {
            assert(s.subrange(e as int, e + 1) =~= seq!['V']);
            lemma_constructor_at(s, pos as int, vs);
        }
        return Ok((m, e + 1));
    }
    proof {
        assert forall|m: MethodView| m.wf() && m is Constructor implies !occurs_at(
            s,
            pos as int,
            #[trigger] m.descriptor(),
        ) by {
            let ps = m->Constructor_parameters;
            lemma_constructor_at(s, pos as int, ps);
            if occurs_at(s, pos as int, m.descriptor()) {
                lemma_params_at_unique(s, pos + 6, ps, vs);
                let k = pos + 6 + params_encoding(ps, 'J').len();
                assert(s.subrange(k, k + 1)[0] == s[k]);
            }
        }
    }
    Err(syntax_error(&input.chars, e, Expected::Char('V')))
}

/// Reads a named method descriptor at `pos`.
fn parse_named_at(input: &Input, pos: usize) -> (r: Result<(Method, usize), SyntaxError>)
    requires
        input.wf(),
        pos <= input@.len(),
    ensures
        match r {
            Ok((m, end)) => {
                &&& m@.wf()
                &&& occurs_at(input@, pos as int, m@.descriptor())
                &&& end == pos + m@.descriptor().len()
            },
            Err(e) => e.position <= input@.len() && forall|m: MethodView|
                m.wf() && m is Method ==> !occurs_at(input@, pos as int, #[trigger] m.descriptor()),
        },
{
    let ghost s = input@;
    let ghost cand: Option<MethodView> = if exists|m: MethodView|
        m.wf() && m is Method && occurs_at(s, pos as int, m.descriptor()) {
        Some(choose|m: MethodView| m.wf() && m is Method && occurs_at(s, pos as int, m.descriptor()))
    } else {
        None
    };
    let ghost tail = if cand is Some {
        let m = cand->0;
        params_encoding(m->Method_parameters, 'J') + return_encoding(m->Method_return_type, 'J')
    } else {
        Seq::empty()
    };
    proof {
        if cand is Some {
            let m = cand->0;
            let ps = m->Method_parameters;
            let rt = m->Method_return_type;
            assert(m.descriptor() =~= m->Method_name + tail);
            lemma_occurs_concat(s, pos as int, m->Method_name, tail);
            lemma_occurs_concat(s, pos + m->Method_name.len(), params_encoding(ps, 'J'), return_encoding(rt, 'J'));
            lemma_rest_occurs(s, pos as int, m.descriptor());
            assert(rest_from(s, pos as int) =~= m->Method_name + (tail + rest_from(s, pos + m.descriptor().len())));
            assert((tail + rest_from(s, pos + m.descriptor().len()))[0] == '(');
            assert(s.subrange(pos as int, pos + m->Method_name.len())[0] == s[pos as int]);
        }
    }
    let (name, e1) = match read_ident(input, pos) {
        Ok(x) => x,
        Err(err) => {
            return Err(err);
        },
    };
    proof {
        if cand is Some {
            let m = cand->0;
            lemma_rest_occurs(s, pos as int, name@);
            lemma_ident_split(
                name@,
                rest_from(s, e1 as int),
                m->Method_name,
                tail + rest_from(s, pos + m.descriptor().len()),
            );
        }
    }
    let (parameters, e2) = match read_params(input, e1) {
        Ok(x) => x,
        Err(err) => {
            return Err(err);
        },
    };
    let ghost vs = type_views(parameters@);
    proof {
        lemma_occurs_concat(s, pos as int, name@, params_encoding(vs, 'J'));
        if cand is Some {
            let m = cand->0;
            lemma_params_at_unique(s, e1 as int, vs, m->Method_parameters);
        }
    }
    if e2 < input.chars.len() && input.chars[e2] == 'V' {
        let m = Method::Method { name, parameters, return_type: None };
        proof {
            assert(s.subrange(e2 as int, e2 + 1) =~= seq!['V']);
            lemma_occurs_concat(s, pos as int, name@ + params_encoding(vs, 'J'), seq!['V']);
            assert(m@.descriptor() =~= name@ + params_encoding(vs, 'J') + seq!['V']);
        }
        return Ok((m, e2 + 1));
    }
    match Type::parser(input, e2) {
        Ok((t, e3)) => {
            let ghost tv = t@;
            let m = Method::Method { name, parameters, return_type: Some(t) };
            proof {
                lemma_occurs_concat(s, pos as int, name@ + params_encoding(vs, 'J'), tv.descriptor());
                assert(m@.descriptor() =~= name@ + params_encoding(vs, 'J') + tv.descriptor());
            }
            Ok((m, e3))
        },
        Err(err) => {
            proof {
                if cand is Some {
                    let m = cand->0;
                    assert(m.wf());
                    match m->Method_return_type {
                        Some(t) => {
                            assert(t.wf());
                            assert(occurs_at(s, e2 as int, t.descriptor()));
                        },
                        None => {
                            assert(s.subrange(e2 as int, e2 + 1)[0] == s[e2 as int]);
                        },
                    }
                    assert(false);
                }
            }
            Err(syntax_error(&input.chars, e2, Expected::ReturnType))
        },
    }
}

impl Method {
    /// Reads the method descriptor at `pos`: the one well-formed signature
    /// whose descriptor stands there. A descriptor that starts with `<` is a
    /// constructor's.
    pub fn parser(input: &Input, pos: usize) -> (r: Result<(Method, usize), SyntaxError>)
        requires
            input.wf(),
            pos <= input@.len(),
        ensures
            match r {
                Ok((m, end)) => {
                    &&& m@.wf()
                    &&& occurs_at(input@, pos as int, m@.descriptor())
                    &&& end == pos + m@.descriptor().len()
                },
                Err(e) => e.position <= input@.len() && forall|m: MethodView|
                    m.wf() ==> !occurs_at(input@, pos as int, #[trigger] m.descriptor()),
            },
    {
        let ghost s = input@;
        let constructor = pos < input.chars.len() && input.chars[pos] == '<';
        let r = if constructor {
            parse_constructor_at(input, pos)
        } else {
            parse_named_at(input, pos)
        };
        proof {
            if r is Err {
                assert forall|m: MethodView| m.wf() implies !occurs_at(
                    s,
                    pos as int,
                    #[trigger] m.descriptor(),
                ) by {
                    if occurs_at(s, pos as int, m.descriptor()) {
                        match m {
                            MethodView::Method { name, parameters, return_type } => {
                                assert(m.descriptor() =~= name + (params_encoding(parameters, 'J')
                                    + return_encoding(return_type, 'J')));
                                assert(s.subrange(pos as int, pos + m.descriptor().len())[0]
                                    == s[pos as int]);
                                assert(is_ident_start(name[0]));
                            },
                            MethodView::Constructor { parameters } => {
                                assert(m.descriptor()[0] == '<');
                                assert(s.subrange(pos as int, pos + m.descriptor().len())[0]
                                    == s[pos as int]);
                            },
                        }
                    }
                }
            }
        }
        r
    }

    /// Parses a whole text as a method descriptor.
    pub fn parse(text: &str) -> (r: Result<Method, ParseErrors>)
        ensures
            match r {
                Ok(m) => m@.wf() && m@.descriptor() == text@,
                Err(e) => e.len() > 0 && e[0].position <= text@.len() && forall|m: MethodView| m.wf() ==> m.descriptor() != text@,
            },
    {
        let input = Input::new(text);
        let ghost s = input@;
        match Method::parser(&input, 0) {
            Ok((m, end)) => {
                if end == input.chars.len() {
                    proof {
                        assert(s.subrange(0, end as int) =~= s);
                    }
                    Ok(m)
                } else {
                    proof {
                        lemma_rest_occurs(s, 0, m@.descriptor());
                        assert(rest_from(s, 0) =~= s);
                        assert forall|u: MethodView| u.wf() implies u.descriptor() != text@ by {
                            if u.descriptor() == text@ {
                                assert(u.descriptor() + Seq::<char>::empty() =~= u.descriptor());
                                lemma_method_unique(
                                    m@,
                                    rest_from(s, end as int),
                                    u,
                                    Seq::<char>::empty(),
                                );
                            }
                        }
                    }
                    Err(vec![syntax_error(&input.chars, end, Expected::End)])
                }
            },
            Err(e) => {
                proof {
                    assert forall|u: MethodView| u.wf() implies u.descriptor() != text@ by {
                        if u.descriptor() == text@ {
                            assert(s.subrange(0, u.descriptor().len() as int) =~= s);
                        }
                    }
                }
                Err(vec![e])
            },
        }
    }
}

proof fn lemma_types_text(ts: Seq<TypeView>)
    ensures
        types_encoding(ts, 'I') == types_encoding(types_long_as_int(ts), 'J'),
        all_wf(ts) ==> all_wf(types_long_as_int(ts)),
        (forall|i: int| 0 <= i < ts.len() ==> !(#[trigger] ts[i]).has_long()) ==> types_long_as_int(ts)
            == ts,
    decreases ts.len(),
{
    let us = types_long_as_int(ts);
    if ts.len() > 0 {
        lemma_types_text(ts.drop_first());
        lemma_text_is_descriptor(ts[0]);
        assert(us.drop_first() =~= types_long_as_int(ts.drop_first()));
        assert(us[0] == ts[0].long_as_int());
        if all_wf(ts) {
            assert forall|i: int| 0 <= i < us.len() implies (#[trigger] us[i]).wf() by {
                lemma_text_is_descriptor(ts[i]);
            }
        }
        if forall|i: int| 0 <= i < ts.len() ==> !(#[trigger] ts[i]).has_long() {
            assert forall|i: int| 0 <= i < ts.len() implies us[i] == ts[i] by {
                lemma_text_is_descriptor(ts[i]);
            }
            assert(us =~= ts);
        }
    } else {
        assert(us =~= ts);
    }
}

/// The text of a signature is the descriptor of the same signature with
/// `Int` in place of each `Long`.
pub proof fn lemma_method_text_is_descriptor(m: MethodView)
    ensures
        m.text() == m.long_as_int().descriptor(),
        m.wf() ==> m.long_as_int().wf(),
        !m.has_long() ==> m.long_as_int() == m,
{
    match m {
        MethodView::Method { name, parameters, return_type } => {
            lemma_types_text(parameters);
            if let Some(t) = return_type {
                lemma_text_is_descriptor(t);
            }
        },
        MethodView::Constructor { parameters } => {
            lemma_types_text(parameters);
        },
    }
}

/// Parsing the text of a well-formed signature gives the signature back,
/// with `Int` in place of each `Long` (`Long` is written as `I`); one
/// without `Long` comes back unchanged.
pub proof fn lemma_method_round_trip(m: MethodView, u: MethodView)
    requires
        m.wf(),
        u.wf(),
        u.descriptor() == m.text(),
    ensures
        u == m.long_as_int(),
        !m.has_long() ==> u == m,
{
    lemma_method_text_is_descriptor(m);
    assert(u.descriptor() + Seq::<char>::empty() =~= m.long_as_int().descriptor() + Seq::<
        char,
    >::empty());
    lemma_method_unique(u, Seq::<char>::empty(), m.long_as_int(), Seq::<char>::empty());
}

/// Text left after a complete method descriptor makes the whole no
/// descriptor.
pub proof fn lemma_method_trailing(m: MethodView, rest: Seq<char>, u: MethodView)
    requires
        m.wf(),
        u.wf(),
        rest.len() > 0,
    ensures
        u.descriptor() != m.descriptor() + rest,
{
    if u.descriptor() == m.descriptor() + rest {
        assert(u.descriptor() + Seq::<char>::empty() =~= u.descriptor());
        lemma_method_unique(u, Seq::<char>::empty(), m, rest);
    }
}

impl std::str::FromStr for Method {
    type Err = ParseErrors;

    fn from_str(text: &str) -> (r: Result<Method, ParseErrors>)
        ensures
            match r {
                Ok(m) => m@.wf() && m@.descriptor() == text@,
                Err(e) => e.len() > 0 && e[0].position <= text@.len() && forall|m: MethodView| m.wf() ==> m.descriptor() != text@,
            },
    {
        Method::parse(text)
    }
}

} // verus!
