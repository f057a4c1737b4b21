use bijective_enum_map::{parse_term, EnumMap};
use bijective_enum_map::Term;

fn term(s: &str) -> Term {
    parse_term(s.as_bytes()).unwrap()
}

fn map(s: &str) -> EnumMap {
    EnumMap::parse(s.as_bytes()).unwrap()
}

const AT_MOST_TWO: &str = "Zero <=> 0,
    One  <=> 1,
    Two  <=> 2,";

#[test]
fn injective_empty_both_specified() {
    let m = map("Empty, u8, u32");
    assert_eq!(m.try_from_value(&term("2_u32")), Err(()));
}

#[test]
fn injective_empty_one_specified() {
    let m = map("Empty, u8");
    assert_eq!(m.try_from_value(&term("2_u8")), Err(()));
}

#[test]
fn injective_nonempty_both_specified() {
    let m = map(&format!("AtMostTwo, u8, u32, {}", AT_MOST_TWO));
    assert_eq!(m.into_value(&term("AtMostTwo::One")), Some(term("1_u8")));
    assert_eq!(m.try_from_value(&term("2_u32")), Ok(term("AtMostTwo::Two")));
    assert_eq!(m.try_from_value(&term("4_u32")), Err(()));
}

#[test]
fn injective_nonempty_one_specified() {
    let m = map(&format!("AtMostTwo, u32, {}", AT_MOST_TWO));
    assert_eq!(m.into_value(&term("AtMostTwo::One")), Some(term("1_u32")));
    assert_eq!(m.try_from_value(&term("2_u32")), Ok(term("AtMostTwo::Two")));
    assert_eq!(m.try_from_value(&term("4_u32")), Err(()));
}

#[test]
fn nonempty_to_enum_bijective() {
    let m = map(
        "Enum, Other, Other,
         One   <=> Other::Uno,
         Two   <=> Other::Dos,
         Three <=> Other::Tres,",
    );
    assert_eq!(m.into_value(&term("Enum::Three")), Some(term("Other::Tres")));
    assert_eq!(m.try_from_value(&term("Other::Uno")), Ok(term("Enum::One")));
}

#[test]
fn nonempty_to_enum_injective() {
    let m = map(
        "Enum, Other, Other,
         One   <=> Other::Uno,
         Two   <=> Other::Dos,
         Three <=> Other::Tres,",
    );
    assert_eq!(m.into_value(&term("Enum::Three")), Some(term("Other::Tres")));
    assert_eq!(m.try_from_value(&term("Other::Uno")), Ok(term("Enum::One")));
    assert_eq!(m.try_from_value(&term("Other::Cuatro")), Err(()));
}

#[test]
fn enum_to_string() {
    let empty = map("Empty, &'static str, &str");
    let nonempty = map(r#"Nonempty, &'static str, &str, Something <=> "Something","#);
    assert_eq!(empty.into_ty, b"&'static str".to_vec());
    assert_eq!(empty.from_ty, b"&str".to_vec());
    assert_eq!(empty.try_from_value(&term(r#""Anything""#)), Err(()));
    assert_eq!(nonempty.try_from_value(&term(r#""Something""#)), Ok(term("Nonempty::Something")));
    assert_eq!(nonempty.try_from_value(&term(r#""Nothing""#)), Err(()));
}

#[test]
fn injective_trailing_commas() {
    for text in [
        "Empty, u8, u8",
        "Empty, u16",
        "Empty, i8, i8,",
        "Empty, i16,",
        "Nonempty, u8, u8, Something <=> 0",
        "Nonempty, u16, Something <=> 0",
        "Nonempty, i8, i8, Something <=> 0,",
        "Nonempty, i16, Something <=> 0,",
    ] {
        assert!(EnumMap::parse(text.as_bytes()).is_ok(), "{}", text);
    }
}

#[test]
fn injective_non_unit_variant() {
    let m = map(
        "Thing, Stuff,
         Player { name, hp, strength } <=> (0, Some(name), Some(hp), Some(strength)),
         PhysicalObject { name, hp }   <=> (1, Some(name), Some(hp), None),
         Spell { name, strength }      <=> (2, Some(name), None, Some(strength)),
         Marker(name)                  <=> (3, Some(name), None, None),
         HardcodedMarker(name, id)     <=> (4, Some(name), Some(id), None),",
    );
    assert_eq!(
        m.into_value(&term(r#"Thing::Player { name: "person", hp: 2, strength: 1.5 }"#)),
        Some(term(r#"(0, Some("person"), Some(2), Some(1.5))"#)),
    );
    assert_eq!(
        m.into_value(&term(r#"Thing::Marker("place")"#)),
        Some(term(r#"(3, Some("place"), None, None)"#)),
    );
    assert_eq!(
        m.try_from_value(&term(r#"(1_u8, Some("object"), Some(100_u32), None)"#)),
        Ok(term(r#"Thing::PhysicalObject { name: "object", hp: 100 }"#)),
    );
    assert_eq!(
        m.try_from_value(&term(r#"(1_u8, Some("object"), Some(100_u32), Some(1e30))"#)),
        Err(()),
    );
}

#[test]
fn injective_intentionally_non_injective() {
    let m = map(
        "Other, Enum,
         Uno    <=> Enum::One,
         Dos    <=> Enum::Two,
         Tres   <=> Enum::Three,
         Cuatro <=> Enum::Three,",
    );
    assert_eq!(m.try_from_value(&term("Enum::Three")), Ok(term("Other::Tres")));
    assert_eq!(m.into_value(&term("Other::Uno")), Some(term("Enum::One")));
    assert_eq!(m.into_value(&term("Other::Cuatro")), Some(term("Enum::Three")));
}
