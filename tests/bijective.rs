use bijective_enum_map::{parse_term, EnumMap};
use bijective_enum_map::Term;

fn term(s: &str) -> Term {
    parse_term(s.as_bytes()).unwrap()
}

fn map(s: &str) -> EnumMap {
    EnumMap::parse(s.as_bytes()).unwrap()
}

#[test]
fn bijective_empty_both_specified() {
    let m = map("Empty, AnotherEmpty, AnotherEmpty");
    assert_eq!(m.enum_ty, b"Empty".to_vec());
    assert_eq!(m.into_ty, b"AnotherEmpty".to_vec());
    assert_eq!(m.from_ty, b"AnotherEmpty".to_vec());
    assert!(m.arms.is_empty());
}

#[test]
fn bijective_empty_one_specified() {
    let m = map("Empty, AnotherEmpty,");
    assert_eq!(m.into_ty, b"AnotherEmpty".to_vec());
    assert_eq!(m.from_ty, b"AnotherEmpty".to_vec());
    assert!(m.arms.is_empty());
}

#[test]
fn bijective_nonempty_both_specified() {
    let m = map("Trivial, u8, u8, Num(num) <=> num");
    assert_eq!(m.from_value(&term("2_u8")), Some(term("Trivial::Num(2)")));
    assert_eq!(m.into_value(&term("Trivial::Num(3)")), Some(term("3")));
}

#[test]
fn bijective_nonempty_one_specified() {
    let m = map("Trivial, u8, Num(num) <=> num");
    assert_eq!(m.from_value(&term("2_u8")), Some(term("Trivial::Num(2)")));
    assert_eq!(m.into_value(&term("Trivial::Num(3)")), Some(term("3")));
}

#[test]
fn nonempty_enums() {
    let m = map(
        "Enum, Other, Other,
         One   <=> Other::Uno,
         Two   <=> Other::Dos,
         Three <=> Other::Tres,",
    );
    assert_eq!(m.into_value(&term("Enum::Three")), Some(term("Other::Tres")));
    assert_eq!(m.from_value(&term("Other::Uno")), Some(term("Enum::One")));
}

#[test]
fn bijective_trailing_commas() {
    for text in [
        "Empty, AnotherEmpty, AnotherEmpty",
        "Empty, YetAnotherEmpty",
        "AnotherEmpty, YetAnotherEmpty, YetAnotherEmpty,",
        "Empty, AFourthEmpty,",
        "Trivial, u8, u8, Num(num) <=> num",
        "Trivial2, u16, Num(num) <=> num",
        "Trivial3, i8, i8, Num(num) <=> num,",
        "Trivial4, i16, Num(num) <=> num,",
    ] {
        assert!(EnumMap::parse(text.as_bytes()).is_ok(), "{}", text);
    }
}

const THING: &str = "Thing, Stuff,
    Player { name, hp, strength } <=> (0, Some(name), Some(hp), Some(strength)),
    PhysicalObject { name, hp }   <=> (1, Some(name), Some(hp), None),
    Spell { name, strength }      <=> (2, Some(name), None, Some(strength)),
    Marker(name)                  <=> (3, Some(name), None, None),
    HardcodedMarker(name, id)     <=> (4, Some(name), Some(id), None),
    Unknown(stuff)                <=> stuff,";

#[test]
fn bijective_non_unit_variant() {
    let m = map(THING);
    assert_eq!(
        m.into_value(&term(r#"Thing::Player { name: "person", hp: 2, strength: 1.5 }"#)),
        Some(term(r#"(0, Some("person"), Some(2), Some(1.5))"#)),
    );
    assert_eq!(
        m.into_value(&term(r#"Thing::Marker("place")"#)),
        Some(term(r#"(3, Some("place"), None, None)"#)),
    );
    assert_eq!(
        m.from_value(&term(r#"(1_u8, Some("object"), Some(100_u32), None)"#)),
        Some(term(r#"Thing::PhysicalObject { name: "object", hp: 100 }"#)),
    );
    assert_eq!(
        m.from_value(&term(r#"(1_u8, Some("object"), Some(100_u32), Some(1e30))"#)),
        Some(term(r#"Thing::Unknown((1_u8, Some("object"), Some(100_u32), Some(1e30)))"#)),
    );
}

#[test]
fn intentionally_non_surjective() {
    let m = map(
        "Enum, Other, Other,
         One   <=> Other::Uno,
         Two   <=> Other::Dos,
         Three <=> Other::Tres,
         Three <=> Other::Cuatro,",
    );
    assert_eq!(m.into_value(&term("Enum::Three")), Some(term("Other::Tres")));
    assert_eq!(m.from_value(&term("Other::Uno")), Some(term("Enum::One")));
    assert_eq!(m.from_value(&term("Other::Cuatro")), Some(term("Enum::Three")));
}

#[test]
fn bijective_intentionally_non_injective() {
    let m = map(
        "Other, Enum,
         Uno    <=> Enum::One,
         Dos    <=> Enum::Two,
         Tres   <=> Enum::Three,
         Cuatro <=> Enum::Three,",
    );
    assert_eq!(m.from_value(&term("Enum::Three")), Some(term("Other::Tres")));
    assert_eq!(m.into_value(&term("Other::Uno")), Some(term("Enum::One")));
    assert_eq!(m.into_value(&term("Other::Cuatro")), Some(term("Enum::Three")));
}
