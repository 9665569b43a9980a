use chumsky::prelude::{end, Parser, Simple};
use chumsky::text;
use descriptors::class::Class;

#[test]
fn identifier_rule_matches_chumsky() {
    let samples = [
        "a", "Z", "_", "_1", "abc_DEF_123", "1a", "", "a-b", "a b", "\u{e9}", "x\u{e9}", "9",
        "ok_", "A1b2C3",
    ];
    for s in samples {
        let by_chumsky = text::ident::<char, Simple<char>>().then_ignore(end()).parse(s).is_ok();
        let by_library = Class::parse(s).is_ok();
        assert_eq!(by_chumsky, by_library, "identifier {:?}", s);
    }
}
