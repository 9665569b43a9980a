use crate::class::{class_at, ends_class, lemma_class_at_unique, lemma_class_unique, Class, ClassView};
use crate::error::{syntax_error, Expected, ParseErrors, SyntaxError};
use crate::input::{lemma_occurs_concat, lemma_rest_first, lemma_rest_occurs, occurs_at, rest_from, Input};
use vstd::prelude::*;
use vstd::string::StringExecFns;

verus! {

/// The type of a field or variable.
#[derive(Debug, PartialEq, Eq, Hash)]
pub enum Type {
    Byte,
    Char,
    Double,
    Float,
    Int,
    Long,
    Class(Class),
    Short,
    Boolean,
    Array(Box<Type>),
}

/// A type, with class names as text segments.
pub enum TypeView {
    Byte,
    Char,
    Double,
    Float,
    Int,
    Long,
    Class(ClassView),
    Short,
    Boolean,
    Array(Box<TypeView>),
}

pub open spec fn type_view(t: &Type) -> TypeView
    decreases t,
{
    match t {
        Type::Byte => TypeView::Byte,
        Type::Char => TypeView::Char,
        Type::Double => TypeView::Double,
        Type::Float => TypeView::Float,
        Type::Int => TypeView::Int,
        Type::Long => TypeView::Long,
        Type::Class(c) => TypeView::Class(c@),
        Type::Short => TypeView::Short,
        Type::Boolean => TypeView::Boolean,
        Type::Array(e) => TypeView::Array(Box::new(type_view(&**e))),
    }
}

impl View for Type {
    type V = TypeView;

    open spec fn view(&self) -> TypeView {
        type_view(self)
    }
}

impl TypeView {
    /// Every class name in it is well-formed.
    pub open spec fn wf(self) -> bool
        decreases self,
    {
        match self {
            TypeView::Class(c) => c.wf(),
            TypeView::Array(e) => e.wf(),
            _ => true,
        }
    }

    /// The descriptor of this type, with `long_code` standing for `Long`.
    pub open spec fn encoding(self, long_code: char) -> Seq<char>
        decreases self,
    {
        match self {
            TypeView::Byte => seq!['B'],
            TypeView::Char => seq!['C'],
            TypeView::Double => seq!['D'],
            TypeView::Float => seq!['F'],
            TypeView::Int => seq!['I'],
            TypeView::Long => seq![long_code],
            TypeView::Class(c) => seq!['L'] + c.text() + seq![';'],
            TypeView::Short => seq!['S'],
            TypeView::Boolean => seq!['Z'],
            TypeView::Array(e) => seq!['['] + e.encoding(long_code),
        }
    }

    /// The descriptor that the grammar reads: `J` for `Long`.
    pub open spec fn descriptor(self) -> Seq<char> {
        self.encoding('J')
    }

    /// The text that formatting writes: `Long` is written as `I`, like `Int`.
    pub open spec fn text(self) -> Seq<char> {
        self.encoding('I')
    }

    /// This type with `Int` in place of each `Long`.
    pub open spec fn long_as_int(self) -> TypeView
        decreases self,
    {
        match self {
            TypeView::Long => TypeView::Int,
            TypeView::Array(e) => TypeView::Array(Box::new(e.long_as_int())),
            _ => self,
        }
    }

    /// `Long` occurs in this type.
    pub open spec fn has_long(self) -> bool
        decreases self,
    {
        match self {
            TypeView::Long => true,
            TypeView::Array(e) => e.has_long(),
            _ => false,
        }
    }
}

/// The first character of a descriptor tells its kind.
pub proof fn lemma_encoding_first(t: TypeView, long_code: char)
    ensures
        t.encoding(long_code).len() > 0,
        t.encoding(long_code)[0] == match t {
            TypeView::Byte => 'B',
            TypeView::Char => 'C',
            TypeView::Double => 'D',
            TypeView::Float => 'F',
            TypeView::Int => 'I',
            TypeView::Long => long_code,
            TypeView::Class(_) => 'L',
            TypeView::Short => 'S',
            TypeView::Boolean => 'Z',
            TypeView::Array(_) => '[',
        },
{
}

/// A type descriptor ends by itself: whatever follows it, the descriptor and
/// the type are determined.
pub proof fn lemma_type_unique(t1: TypeView, r1: Seq<char>, t2: TypeView, r2: Seq<char>)
    requires
        t1.wf(),
        t2.wf(),
        t1.descriptor() + r1 == t2.descriptor() + r2,
    ensures
        t1 == t2,
        r1 == r2,
    decreases t1,
{
    let s = t1.descriptor() + r1;
    lemma_encoding_first(t1, 'J');
    lemma_encoding_first(t2, 'J');
    assert(s[0] == t1.descriptor()[0]);
    assert(s[0] == t2.descriptor()[0]);
    match t1 {
        TypeView::Class(c1) => {
            let c2 = t2->Class_0;
            assert(s.drop_first() =~= c1.text() + (seq![';'] + r1));
            assert(s.drop_first() =~= c2.text() + (seq![';'] + r2));
            assert(ends_class(seq![';'] + r1));
            assert(ends_class(seq![';'] + r2));
            lemma_class_unique(c1, seq![';'] + r1, c2, seq![';'] + r2);
            assert(r1 =~= (seq![';'] + r1).drop_first());
            assert(r2 =~= (seq![';'] + r2).drop_first());
        },
        TypeView::Array(e1) => {
            let e2 = t2->Array_0;
            assert(s.drop_first() =~= e1.descriptor() + r1);
            assert(s.drop_first() =~= e2.descriptor() + r2);
            lemma_type_unique(*e1, r1, *e2, r2);
        },
        _ => {
            assert(r1 =~= s.drop_first());
            assert(r2 =~= s.drop_first());
        },
    }
}

/// A class reference `L...;` at `pos` holds its class name at `pos + 1`,
/// followed by `;`.
proof fn lemma_class_ref_at(s: Seq<char>, pos: int, d: ClassView)
    requires
        d.wf(),
        occurs_at(s, pos, TypeView::Class(d).descriptor()),
    ensures
        class_at(s, pos + 1, d),
        s[pos + 1 + d.text().len()] == ';',
{
    lemma_occurs_concat(s, pos, seq!['L'] + d.text(), seq![';']);
    lemma_occurs_concat(s, pos, seq!['L'], d.text());
    let k = pos + 1 + d.text().len();
    assert(TypeView::Class(d).descriptor() == seq!['L'] + d.text() + seq![';']);
    assert((seq!['L'] + d.text()).len() == 1 + d.text().len());
    assert(s.subrange(k, k + 1)[0] == s[k]);
    lemma_rest_first(s, k);
}

impl Type {
    /// Appends the text of this type to `out`.
    pub fn write_to(&self, out: &mut String)
        ensures
            final(out)@ == old(out)@ + self@.text(),
        decreases self,
    {
        proof {
            reveal_strlit("B");
            reveal_strlit("C");
            reveal_strlit("D");
            reveal_strlit("F");
            reveal_strlit("I");
            reveal_strlit("S");
            reveal_strlit("Z");
            reveal_strlit("L");
            reveal_strlit(";");
            reveal_strlit("[");
        }
        match self {
            Type::Byte => out.append("B"),
            Type::Char => out.append("C"),
            Type::Double => out.append("D"),
            Type::Float => out.append("F"),
            Type::Int => out.append("I"),
            Type::Long => out.append("I"),
            Type::Class(c) => {
                out.append("L");
                out.append(c.to_text().as_str());
                out.append(";");
            },
            Type::Short => out.append("S"),
            Type::Boolean => out.append("Z"),
            Type::Array(e) => {
                out.append("[");
                (**e).write_to(out);
            },
        }
    }

    /// The text of this type: its descriptor, except that `Long` is written
    /// as `I`.
    pub fn to_text(&self) -> (r: String)
        ensures
            r@ == self@.text(),
    {
        let mut out = String::new();
        self.write_to(&mut out);
        out
    }

    /// Reads the type descriptor at `pos`: the one well-formed type whose
    /// descriptor stands there.
    pub fn parser(input: &Input, pos: usize) -> (r: Result<(Type, usize), SyntaxError>)
        requires
            input.wf(),
            pos <= input@.len(),
        ensures
            match r {
                Ok((t, end)) => {
                    &&& t@.wf()
                    &&& occurs_at(input@, pos as int, t@.descriptor())
                    &&& end == pos + t@.descriptor().len()
                },
                Err(e) => e.position <= input@.len() && forall|t: TypeView| t.wf() ==> !occurs_at(input@, pos as int, #[trigger] t.descriptor()),
            },
        decreases input@.len() - pos,
    {
        let ghost s = input@;
        if pos >= input.chars.len() {
            proof {
                assert forall|t: TypeView| t.wf() implies !occurs_at(s, pos as int, #[trigger] t.descriptor()) by {
                    lemma_encoding_first(t, 'J');
                }
            }
            return Err(syntax_error(&input.chars, pos, Expected::TypeDescriptor));
        }
        let c = input.chars[pos];
        let ghost one = seq![c];
        proof {
            assert(s.subrange(pos as int, pos + 1) =~= one);
        }
        let simple = match c {
            'B' => Some(Type::Byte),
            'C' => Some(Type::Char),
            'D' => Some(Type::Double),
            'F' => Some(Type::Float),
            'I' => Some(Type::Int),
            'J' => Some(Type::Long),
            'S' => Some(Type::Short),
            'Z' => Some(Type::Boolean),
            _ => None,
        };
        if let Some(t) = simple {
            return Ok((t, pos + 1));
        }
        if c == 'L' {
            match Class::parser(input, pos + 1) {
                Ok((class, end)) => {
                    if end < input.chars.len() && input.chars[end] == ';' {
                        let t = Type::Class(class);
                        proof {
                            assert(s.subrange(end as int, end + 1) =~= seq![';']);
                            lemma_occurs_concat(s, pos as int, seq!['L'], class@.text());
                            lemma_occurs_concat(s, pos as int, seq!['L'] + class@.text(), seq![';']);
                        }
                        return Ok((t, end + 1));
                    }
                    proof {
                        assert forall|t: TypeView| t.wf() implies !occurs_at(s, pos as int, #[trigger] t.descriptor()) by {
                            lemma_encoding_first(t, 'J');
                            if occurs_at(s, pos as int, t.descriptor()) {
                                assert(s[pos as int] == t.descriptor()[0]);
                                let d = t->Class_0;
                                lemma_class_ref_at(s, pos as int, d);
                                lemma_class_at_unique(s, pos + 1, class@, d);
                            }
                        }
                    }
                    return Err(syntax_error(&input.chars, end, Expected::Char(';')));
                },
                Err(e) => {
                    proof {
                        assert forall|t: TypeView| t.wf() implies !occurs_at(s, pos as int, #[trigger] t.descriptor()) by {
                            lemma_encoding_first(t, 'J');
                            if occurs_at(s, pos as int, t.descriptor()) {
                                assert(s[pos as int] == t.descriptor()[0]);
                                lemma_class_ref_at(s, pos as int, t->Class_0);
                            }
                        }
                    }
                    return Err(e);
                },
            }
        }
        if c == '[' {
            match Type::parser(input, pos + 1) {
                Ok((e, end)) => {
                    proof {
                        lemma_occurs_concat(s, pos as int, seq!['['], e@.descriptor());
                    }
                    return Ok((Type::Array(Box::new(e)), end));
                },
                Err(err) => {
                    proof {
                        assert forall|t: TypeView| t.wf() implies !occurs_at(s, pos as int, #[trigger] t.descriptor()) by {
                            lemma_encoding_first(t, 'J');
                            if occurs_at(s, pos as int, t.descriptor()) {
                                assert(s[pos as int] == t.descriptor()[0]);
                                let d = t->Array_0;
                                lemma_occurs_concat(s, pos as int, seq!['['], d.descriptor());
                            }
                        }
                    }
                    return Err(err);
                },
            }
        }
        proof {
            assert forall|t: TypeView| t.wf() implies !occurs_at(s, pos as int, #[trigger] t.descriptor()) by {
                lemma_encoding_first(t, 'J');
                if occurs_at(s, pos as int, t.descriptor()) {
                    assert(s[pos as int] == t.descriptor()[0]);
                }
            }
        }
        Err(syntax_error(&input.chars, pos, Expected::TypeDescriptor))
    }

    /// Parses a whole text as a type descriptor.
    pub fn parse(text: &str) -> (r: Result<Type, ParseErrors>)
        ensures
            match r {
                Ok(t) => t@.wf() && t@.descriptor() == text@,
                Err(e) => e.len() > 0 && e[0].position <= text@.len() && forall|t: TypeView| t.wf() ==> t.descriptor() != text@,
            },
    {
        let input = Input::new(text);
        let ghost s = input@;
        match Type::parser(&input, 0) {
            Ok((t, end)) => {
                if end == input.chars.len() {
                    proof {
                        assert(s.subrange(0, end as int) =~= s);
                    }
                    Ok(t)
                } else {
                    proof {
                        lemma_rest_occurs(s, 0, t@.descriptor());
                        assert(rest_from(s, 0) =~= s);
                        assert forall|u: TypeView| u.wf() implies u.descriptor() != text@ by {
                            if u.descriptor() == text@ {
                                assert(u.descriptor() + Seq::<char>::empty() =~= u.descriptor());
                                lemma_type_unique(
                                    t@,
                                    rest_from(s, end as int),
                                    u,
                                    Seq::<char>::empty(),
                                );
                            }
                        }
                    }
                    Err(vec![syntax_error(&input.chars, end, Expected::End)])
                }
            },
            Err(e) => {
                proof {
                    assert forall|u: TypeView| u.wf() implies u.descriptor() != text@ by {
                        if u.descriptor() == text@ {
                            assert(s.subrange(0, u.descriptor().len() as int) =~= s);
                        }
                    }
                }
                Err(vec![e])
            },
        }
    }
}

/// The text of a type is the descriptor of the same type with `Int` in place
/// of each `Long`.
pub proof fn lemma_text_is_descriptor(t: TypeView)
    ensures
        t.text() == t.long_as_int().descriptor(),
        t.wf() ==> t.long_as_int().wf(),
        !t.has_long() ==> t.long_as_int() == t,
    decreases t,
{
    if let TypeView::Array(e) = t {
        lemma_text_is_descriptor(*e);
    }
}

/// Parsing the text of a well-formed type gives the type back, with `Int`
/// in place of each `Long` (`Long` is written as `I`); a type without `Long`
/// comes back unchanged.
pub proof fn lemma_type_round_trip(t: TypeView, u: TypeView)
    requires
        t.wf(),
        u.wf(),
        u.descriptor() == t.text(),
    ensures
        u == t.long_as_int(),
        !t.has_long() ==> u == t,
{
    lemma_text_is_descriptor(t);
    assert(u.descriptor() + Seq::<char>::empty() =~= t.long_as_int().descriptor() + Seq::<
        char,
    >::empty());
    lemma_type_unique(u, Seq::<char>::empty(), t.long_as_int(), Seq::<char>::empty());
}

/// Text left after a complete descriptor makes the whole no descriptor.
pub proof fn lemma_type_trailing(t: TypeView, rest: Seq<char>, u: TypeView)
    requires
        t.wf(),
        u.wf(),
        rest.len() > 0,
    ensures
        u.descriptor() != t.descriptor() + rest,
{
    if u.descriptor() == t.descriptor() + rest {
        assert(u.descriptor() + Seq::<char>::empty() =~= u.descriptor());
        lemma_type_unique(u, Seq::<char>::empty(), t, rest);
    }
}

/// Two well-formed descriptors that stand at one position are the same.
pub proof fn lemma_type_at_unique(s: Seq<char>, pos: int, t1: TypeView, t2: TypeView)
    requires
        0 <= pos <= s.len(),
        t1.wf(),
        t2.wf(),
        occurs_at(s, pos, t1.descriptor()),
        occurs_at(s, pos, t2.descriptor()),
    ensures
        t1 == t2,
{
    lemma_rest_occurs(s, pos, t1.descriptor());
    lemma_rest_occurs(s, pos, t2.descriptor());
    lemma_type_unique(
        t1,
        rest_from(s, pos + t1.descriptor().len()),
        t2,
        rest_from(s, pos + t2.descriptor().len()),
    );
}

impl std::str::FromStr for Type {
    type Err = ParseErrors;

    fn from_str(text: &str) -> (r: Result<Type, ParseErrors>)
        ensures
            match r {
                Ok(t) => t@.wf() && t@.descriptor() == text@,
                Err(e) => e.len() > 0 && e[0].position <= text@.len() && forall|t: TypeView| t.wf() ==> t.descriptor() != text@,
            },
    {
        Type::parse(text)
    }
}

} // verus!
