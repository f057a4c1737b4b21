//! Mappings between the variants of an enum and the values of another type, declared as a
//! list of `Variant <=> value` arms: reading a declaration, and converting in each direction
//! the way the first matching arm says.

pub mod declaration;
pub mod enum_map;
pub mod items;
pub mod pattern;
pub mod term;
pub mod token;

pub use declaration::{not_missing_comma, parse_term, ParseError};
pub use enum_map::{Arm, EnumMap};
pub use term::Term;
