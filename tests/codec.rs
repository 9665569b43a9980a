use descriptors::class::Class;
use descriptors::error::{Expected, SyntaxError};
use descriptors::method::Method;
use descriptors::ty::Type;

fn strings(items: &[&str]) -> Vec<String> {
    items.iter().map(|s| s.to_string()).collect()
}

fn class(path: &[&str], subclasses: &[&str]) -> Class {
    Class { path: strings(path), subclasses: strings(subclasses) }
}

fn string_type() -> Type {
    Type::Class(class(&["java", "lang", "String"], &[]))
}

#[test]
fn class_fmt() {
    assert_eq!(class(&["java", "lang", "Object"], &[]).to_text(), "java/lang/Object");
    assert_eq!(
        class(&["com", "example", "Foo"], &["Bar", "Baz"]).to_text(),
        "com/example/Foo$Bar$Baz"
    );
}

#[test]
fn class_parse() {
    assert_eq!("java/lang/Object".parse(), Ok(class(&["java", "lang", "Object"], &[])));
    assert_eq!(
        "com/example/Foo$Bar$Baz".parse(),
        Ok(class(&["com", "example", "Foo"], &["Bar", "Baz"]))
    );
}

#[test]
fn type_fmt() {
    assert_eq!(Type::Byte.to_text(), "B");
    assert_eq!(Type::Char.to_text(), "C");
    assert_eq!(Type::Double.to_text(), "D");
    assert_eq!(Type::Float.to_text(), "F");
    assert_eq!(Type::Int.to_text(), "I");
    assert_eq!(Type::Long.to_text(), "I");
    assert_eq!(Type::Short.to_text(), "S");
    assert_eq!(Type::Boolean.to_text(), "Z");
    assert_eq!(
        Type::Class(class(&["java", "lang", "Object"], &[])).to_text(),
        "Ljava/lang/Object;"
    );
    assert_eq!(Type::Array(Box::new(Type::Int)).to_text(), "[I");
}

#[test]
fn type_parse() {
    assert_eq!("B".parse(), Ok(Type::Byte));
    assert_eq!("C".parse(), Ok(Type::Char));
    assert_eq!("D".parse(), Ok(Type::Double));
    assert_eq!("F".parse(), Ok(Type::Float));
    assert_eq!("I".parse(), Ok(Type::Int));
    assert_eq!("J".parse(), Ok(Type::Long));
    assert_eq!("S".parse(), Ok(Type::Short));
    assert_eq!("Z".parse(), Ok(Type::Boolean));
    assert_eq!(
        "Ljava/lang/Object;".parse(),
        Ok(Type::Class(class(&["java", "lang", "Object"], &[])))
    );
    assert_eq!("[I".parse(), Ok(Type::Array(Box::new(Type::Int))));
}

#[test]
fn method_fmt() {
    assert_eq!(
        Method::Method {
            name: "hello".to_string(),
            parameters: vec![string_type()],
            return_type: None,
        }
        .to_text(),
        "hello(Ljava/lang/String;)V"
    );
    assert_eq!(
        Method::Constructor { parameters: vec![string_type()] }.to_text(),
        "<init>(Ljava/lang/String;)V"
    );
}

#[test]
fn method_parse() {
    let parsed: Result<String, std::convert::Infallible> = "hello(Ljava/lang/String;)V".parse();
    assert_eq!(
        parsed,
        Ok(Method::Method {
            name: "hello".to_string(),
            parameters: vec![string_type()],
            return_type: None,
        }
        .to_text())
    );
    assert_eq!(
        "hello(Ljava/lang/String;)V".parse(),
        Ok(Method::Method {
            name: "hello".to_string(),
            parameters: vec![string_type()],
            return_type: None,
        })
    );
    assert_eq!(
        "<init>(Ljava/lang/String;)V".parse(),
        Ok(Method::Constructor { parameters: vec![string_type()] })
    );
}

#[test]
fn class_round_trip() {
    let c = class(&["com", "example", "Foo"], &["Bar", "Baz"]);
    assert_eq!(Class::parse(&c.to_text()), Ok(c));
    let single = class(&["_x9"], &[]);
    assert_eq!(Class::parse(&single.to_text()), Ok(single));
}

#[test]
fn type_round_trip() {
    let t = Type::Array(Box::new(Type::Class(class(&["a", "B"], &["C"]))));
    assert_eq!(Type::parse(&t.to_text()), Ok(t));
    let nested = Type::Array(Box::new(Type::Array(Box::new(Type::Boolean))));
    assert_eq!(Type::parse(&nested.to_text()), Ok(nested));
}

#[test]
fn long_is_written_as_int() {
    assert_eq!(Type::Long.to_text(), "I");
    assert_eq!(Type::parse(&Type::Long.to_text()), Ok(Type::Int));
    assert_eq!(Type::parse("J"), Ok(Type::Long));
    let m = Method::Method {
        name: "f".to_string(),
        parameters: vec![Type::Long],
        return_type: Some(Type::Array(Box::new(Type::Long))),
    };
    assert_eq!(m.to_text(), "f(I)[I");
    assert_eq!(
        Method::parse(&m.to_text()),
        Ok(Method::Method {
            name: "f".to_string(),
            parameters: vec![Type::Int],
            return_type: Some(Type::Array(Box::new(Type::Int))),
        })
    );
}

#[test]
fn method_round_trip() {
    let m = Method::Method {
        name: "put".to_string(),
        parameters: vec![Type::Int, string_type(), Type::Array(Box::new(Type::Double))],
        return_type: Some(Type::Boolean),
    };
    assert_eq!(m.to_text(), "put(ILjava/lang/String;[D)Z");
    assert_eq!(Method::parse(&m.to_text()), Ok(m));
    let c = Method::Constructor { parameters: vec![] };
    assert_eq!(c.to_text(), "<init>()V");
    assert_eq!(Method::parse(&c.to_text()), Ok(c));
}

#[test]
fn trailing_input_is_rejected() {
    assert!(Type::parse("II").is_err());
    assert!(Type::parse("Ljava/lang/Object;;").is_err());
    assert!(Class::parse("java/lang/Object;").is_err());
    assert!(Method::parse("f()VV").is_err());
    assert!(Method::parse("<init>()VI").is_err());
}

#[test]
fn empty_segments_are_rejected() {
    assert!(Class::parse("a//b").is_err());
    assert!(Class::parse("a$").is_err());
    assert!(Class::parse("/a").is_err());
    assert!(Class::parse("").is_err());
    assert!(Class::parse("a/").is_err());
    assert!(Class::parse("$a").is_err());
    assert!(Class::parse("a$$b").is_err());
    assert!(Type::parse("La//b;").is_err());
}

#[test]
fn array_nesting_depth() {
    let t = Type::Array(Box::new(Type::Array(Box::new(Type::Array(Box::new(Type::Int))))));
    assert_eq!(t.to_text(), "[[[I");
    assert_eq!(Type::parse("[[[I"), Ok(t));
    assert!(Type::parse("[[[").is_err());
}

#[test]
fn constructor_disambiguation() {
    assert_eq!(
        Method::parse("<init>(Ljava/lang/String;)V"),
        Ok(Method::Constructor { parameters: vec![string_type()] })
    );
    assert_eq!(
        Method::parse("hello(Ljava/lang/String;)V"),
        Ok(Method::Method {
            name: "hello".to_string(),
            parameters: vec![string_type()],
            return_type: None,
        })
    );
    assert!(Method::parse("<init>(Ljava/lang/String;)I").is_err());
    assert!(Method::parse("<clinit>()V").is_err());
}

#[test]
fn literal_scenarios() {
    assert_eq!(class(&["java", "lang", "Object"], &[]).to_text(), "java/lang/Object");
    let c = class(&["com", "example", "Foo"], &["Bar", "Baz"]);
    assert_eq!(c.to_text(), "com/example/Foo$Bar$Baz");
    assert_eq!(Class::parse("com/example/Foo$Bar$Baz"), Ok(c));
    assert_eq!(
        Type::Class(class(&["java", "lang", "Object"], &[])).to_text(),
        "Ljava/lang/Object;"
    );
    assert_eq!(
        Method::Method {
            name: "hello".to_string(),
            parameters: vec![string_type()],
            return_type: None,
        }
        .to_text(),
        "hello(Ljava/lang/String;)V"
    );
}

fn first_error<T>(r: Result<T, Vec<SyntaxError>>) -> SyntaxError {
    match r {
        Ok(_) => panic!("expected a syntax error"),
        Err(errors) => {
            assert!(!errors.is_empty());
            errors[0]
        }
    }
}

#[test]
fn syntax_errors() {
    assert_eq!(
        first_error(Class::parse("")),
        SyntaxError { position: 0, expected: Expected::Identifier, found: None }
    );
    assert_eq!(
        first_error(Class::parse("a;")),
        SyntaxError { position: 1, expected: Expected::End, found: Some(';') }
    );
    assert_eq!(
        first_error(Type::parse("X")),
        SyntaxError { position: 0, expected: Expected::TypeDescriptor, found: Some('X') }
    );
    assert_eq!(
        first_error(Type::parse("Ljava/lang/Object")),
        SyntaxError { position: 17, expected: Expected::Char(';'), found: None }
    );
    assert_eq!(
        first_error(Method::parse("f)V")),
        SyntaxError { position: 1, expected: Expected::Char('('), found: Some(')') }
    );
    assert_eq!(
        first_error(Method::parse("f(I")),
        SyntaxError { position: 3, expected: Expected::Char(')'), found: None }
    );
    assert_eq!(
        first_error(Method::parse("f()X")),
        SyntaxError { position: 3, expected: Expected::ReturnType, found: Some('X') }
    );
    assert_eq!(
        first_error(Method::parse("<init>()I")),
        SyntaxError { position: 8, expected: Expected::Char('V'), found: Some('I') }
    );
    assert_eq!(
        first_error(Method::parse("1f()V")),
        SyntaxError { position: 0, expected: Expected::Identifier, found: Some('1') }
    );
}

#[test]
fn non_ascii_input() {
    assert!(Class::parse("caf\u{e9}").is_err());
    assert_eq!(
        first_error(Type::parse("L\u{e9};")),
        SyntaxError { position: 1, expected: Expected::Identifier, found: Some('\u{e9}') }
    );
}
