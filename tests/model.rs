use bijective_enum_map::{not_missing_comma, parse_term, EnumMap, ParseError};
use bijective_enum_map::term::{normalize_number, Term};
use bijective_enum_map::token::{tokenize, TokenKind};

fn term(s: &str) -> Term {
    parse_term(s.as_bytes()).unwrap()
}

fn map(s: &str) -> EnumMap {
    EnumMap::parse(s.as_bytes()).unwrap()
}

fn parse_err(s: &str) -> ParseError {
    EnumMap::parse(s.as_bytes()).unwrap_err()
}

#[test]
fn missing_comma_is_refused() {
    assert!(!not_missing_comma(b"Nonempty, ()\n Something <=> ()"));
    assert_eq!(parse_err("Nonempty, ()\n Something <=> ()"), ParseError::MissingType);
}

#[test]
fn comma_present_is_accepted() {
    assert!(not_missing_comma(b"Nonempty, (),\n Something <=> ()"));
    let m = map("Nonempty, (),\n Something <=> ()");
    assert_eq!(m.into_value(&term("Nonempty::Something")), Some(term("()")));
    assert_eq!(m.from_value(&term("()")), Some(term("Nonempty::Something")));
}

#[test]
fn not_missing_comma_ignores_other_errors() {
    assert!(not_missing_comma(b"Enum, u8, One <=> (1"));
    assert!(not_missing_comma(b"Enum, u8, , One <=> 1"));
    assert!(not_missing_comma(b"Enum, u8, One <=> 1 $"));
}

#[test]
fn each_error_has_an_input() {
    assert_eq!(parse_err("Enum, u8, One <=> 1 $"), ParseError::Lex(20));
    assert_eq!(parse_err("Enum, u8, One <=> \"open"), ParseError::Lex(18));
    assert_eq!(parse_err("Enum, u8, One <=> (1"), ParseError::Unbalanced);
    assert_eq!(parse_err("Enum, u8, One <=> 1)"), ParseError::Unbalanced);
    assert_eq!(parse_err(""), ParseError::EmptyItem);
    assert_eq!(parse_err("Enum, u8,, One <=> 1"), ParseError::EmptyItem);
    assert_eq!(parse_err("Enum, u8, One <=> 1,,"), ParseError::EmptyItem);
    assert_eq!(parse_err("Enum"), ParseError::MissingType);
    assert_eq!(parse_err("Enum, One <=> 1"), ParseError::MissingType);
    assert_eq!(parse_err("Enum, u8, u16, u32"), ParseError::TooManyTypes);
    assert_eq!(parse_err("Enum, u8, u16, u32, One <=> 1"), ParseError::TooManyTypes);
    assert_eq!(parse_err("Enum, u8, One <=> 1, Two"), ParseError::BadArm);
    assert_eq!(parse_err("Enum, u8, a::B <=> 1"), ParseError::BadArm);
    assert_eq!(parse_err("Enum, u8, (A) <=> 1"), ParseError::BadArm);
    assert_eq!(parse_err("Enum, u8, One <=> 1 2"), ParseError::BadTerm);
    assert_eq!(parse_err("Enum, u8, One <=>"), ParseError::BadTerm);
}

#[test]
fn errors_come_in_order() {
    // Brackets are checked before empty items, and both before the header.
    assert_eq!(parse_err(",, (Enum"), ParseError::Unbalanced);
    assert_eq!(parse_err(",Enum"), ParseError::EmptyItem);
}

#[test]
fn two_types_serve_both_directions() {
    let m = map("Enum, Option<bool>, A <=> Some(false), B <=> Some(true), C <=> None");
    assert_eq!(m.into_ty, b"Option<bool>".to_vec());
    assert_eq!(m.from_ty, m.into_ty);
    let m3 = map("Enum, u8, u32, A <=> 0");
    assert_eq!(m3.into_ty, b"u8".to_vec());
    assert_eq!(m3.from_ty, b"u32".to_vec());
}

#[test]
fn generic_type_commas_stay_inside_the_type() {
    let m = map("Enum, HashMap<u8, u16>, A <=> 0");
    assert_eq!(m.into_ty, b"HashMap<u8,u16>".to_vec());
    assert_eq!(m.arms.len(), 1);
}

#[test]
fn number_suffixes_and_underscores_are_dropped() {
    assert_eq!(normalize_number(&b"1_000_u32".to_vec()), b"1000".to_vec());
    assert_eq!(normalize_number(&b"2u8".to_vec()), b"2".to_vec());
    assert_eq!(normalize_number(&b"1.5f32".to_vec()), b"1.5".to_vec());
    assert_eq!(normalize_number(&b"1e30".to_vec()), b"1e30".to_vec());
    assert_eq!(normalize_number(&b"0xff_u8".to_vec()), b"0xff".to_vec());
    assert_eq!(normalize_number(&b"0xf32".to_vec()), b"0xf32".to_vec());
}

#[test]
fn tokens_of_a_declaration() {
    let toks = tokenize(b"A::B <=> 'x', &'static str, \"a\\\"b\" 1.5 x.y").unwrap();
    let texts: Vec<&[u8]> = toks.iter().map(|t| t.text.as_slice()).collect();
    assert_eq!(
        texts,
        vec![
            &b"A"[..],
            b"::",
            b"B",
            b"<=>",
            b"'x'",
            b",",
            b"&",
            b"'static",
            b"str",
            b",",
            b"\"a\\\"b\"",
            b"1.5",
            b"x",
            b".",
            b"y",
        ],
    );
    assert_eq!(toks[4].kind, TokenKind::Literal);
    assert_eq!(toks[7].kind, TokenKind::Lifetime);
    assert_eq!(toks[12].kind, TokenKind::Ident);
    assert_eq!(tokenize(b"true false").unwrap()[1].kind, TokenKind::Literal);
    assert_eq!(tokenize(b"a $").unwrap_err(), 2);
}

#[test]
fn terms_of_each_shape() {
    assert_eq!(term("_"), Term::Wild);
    assert_eq!(term("name"), Term::Var(b"name".to_vec()));
    assert_eq!(term("None"), Term::Ctor(b"None".to_vec(), vec![]));
    assert_eq!(term("-3_i8"), Term::Lit(b"-3".to_vec()));
    assert_eq!(term("(7)"), Term::Lit(b"7".to_vec()));
    assert_eq!(term("(7,)"), Term::Tuple(vec![Term::Lit(b"7".to_vec())]));
    assert_eq!(term("()"), Term::Tuple(vec![]));
    assert_eq!(
        term("a::B { x, y: 1 }"),
        Term::Record(
            b"a::B".to_vec(),
            vec![b"x".to_vec(), b"y".to_vec()],
            vec![Term::Var(b"x".to_vec()), Term::Lit(b"1".to_vec())],
        ),
    );
    assert!(parse_term(b"(1").is_err());
    assert!(parse_term(b"1 2").is_err());
}

#[test]
fn unit_map_round_trips() {
    let m = map("AtMostTwo, u8, Zero <=> 0, One <=> 1, Two <=> 2");
    for (variant, value) in [("AtMostTwo::Zero", "0"), ("AtMostTwo::One", "1"), ("AtMostTwo::Two", "2")] {
        let v = m.into_value(&term(variant)).unwrap();
        assert_eq!(v, term(value));
        assert_eq!(m.from_value(&v), Some(term(variant)));
        assert_eq!(m.try_from_value(&v), Ok(term(variant)));
    }
    assert_eq!(m.try_from_value(&term("3")), Err(()));
    assert_eq!(m.into_value(&term("Other::Zero")), None);
}

#[test]
fn first_arm_wins_each_way() {
    let m = map("AtMostTwo, bool, Zero <=> false, One <=> true, Two <=> false");
    assert_eq!(m.from_value(&term("false")), Some(term("AtMostTwo::Zero")));
    assert_eq!(m.into_value(&term("AtMostTwo::Two")), Some(term("false")));
    let v = map("Version, u8, V1 <=> 1, V2Any <=> 2, V2 <=> 2, V2Alternate <=> 2, V3 <=> 3");
    assert_eq!(v.into_value(&term("Version::V2")), Some(term("2")));
    assert_eq!(v.into_value(&term("Version::V3")), Some(term("3")));
    assert_eq!(v.try_from_value(&term("1_u8")), Ok(term("Version::V1")));
    assert_eq!(v.try_from_value(&term("2_u8")), Ok(term("Version::V2Any")));
    assert_eq!(v.try_from_value(&term("5_u8")), Err(()));
}

#[test]
fn uncovered_variant_has_no_value() {
    let m = map("Nonempty, u8");
    assert_eq!(m.into_value(&term("Nonempty::Something")), None);
    let m = map("Nonempty, u8, Something <=> 0");
    assert_eq!(m.into_value(&term("Nonempty::SomethingElse")), None);
}

#[test]
fn data_moves_through_both_directions() {
    let m = map("MaybeData, Option<String>, Data(data) <=> Some(data), Nothing <=> None");
    assert_eq!(
        m.from_value(&term(r#"Some("six by nine")"#)),
        Some(term(r#"MaybeData::Data("six by nine")"#)),
    );
    assert_eq!(m.into_value(&term(r#"MaybeData::Data("42")"#)), Some(term(r#"Some("42")"#)));
    assert_eq!(m.from_value(&term("None")), Some(term("MaybeData::Nothing")));
}

#[test]
fn catch_all_arm_order_matters() {
    let m = map(
        "ParsedString, String,
         Unknown(string)  <=> string,
         Quoted(string)   <=> string,
         Unquoted(string) <=> string,",
    );
    assert_eq!(m.into_value(&term(r#"ParsedString::Quoted("s")"#)), Some(term(r#""s""#)));
    assert_eq!(m.into_value(&term(r#"ParsedString::Unquoted("s")"#)), Some(term(r#""s""#)));
    assert_eq!(m.from_value(&term(r#""s""#)), Some(term(r#"ParsedString::Unknown("s")"#)));
}

#[test]
fn unbound_name_in_value_gives_nothing() {
    let m = map("Enum, u8, One(x) <=> y");
    assert_eq!(m.into_value(&term("Enum::One(1)")), None);
    assert_eq!(m.from_value(&term("1")), None);
}

#[test]
fn catch_all_value_makes_every_value_convert() {
    let m = map("Parsed, Stuff, Known(x) <=> (0, x), Unknown(stuff) <=> stuff");
    assert_eq!(m.from_value(&term("(0, 5)")), Some(term("Parsed::Known(5)")));
    for value in ["7", r#""x""#, "(9, None)", "Some(Some(1))"] {
        let expected = format!("Parsed::Unknown({})", value);
        assert_eq!(m.from_value(&term(value)), Some(term(&expected)), "{}", value);
    }
    assert_eq!(m.into_value(&term("Parsed::Unknown(7)")), Some(term("7")));
    assert_eq!(m.into_value(&term("Parsed::Other")), None);
}

#[test]
fn trailing_comma_changes_nothing() {
    for text in ["Enum, u8, A <=> 1, B(x) <=> x", "Enum, u8, u16", "Enum, Option<u8>"] {
        let plain = map(text);
        let with_comma = map(&format!("{},", text));
        assert_eq!(plain.enum_ty, with_comma.enum_ty);
        assert_eq!(plain.into_ty, with_comma.into_ty);
        assert_eq!(plain.from_ty, with_comma.from_ty);
        assert_eq!(plain.arms.len(), with_comma.arms.len());
        for (a, b) in plain.arms.iter().zip(with_comma.arms.iter()) {
            assert_eq!(a.variant, b.variant);
            assert_eq!(a.value, b.value);
        }
    }
}
