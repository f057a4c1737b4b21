//! Reading a mapping from its declaration `Enum, Into[, From], Variant <=> value, ...`.
use vstd::prelude::*;
use crate::enum_map::{arms_view, is_qualified, is_variant_of, opt_view, Arm, EnumMap};
use crate::items::{
    balanced, check_balanced, find_arrow, first_arrow, has_empty_item, header_len, is_header_len,
    lemma_header_len_unique, lemma_splits_unique, split_items, splits,
};
use crate::term::{
    append_bytes, copy_bytes, is_punct_byte, is_punct_tok, parse_term_at, term_at, Term, Tm,
};
use crate::token::{
    all_wf, lex, tokenize, tviews, wf_token, Token, TokenKind, TokenV, COLON, LBRACE, LPAREN, SPACE,
};

verus! {

/// Why a declaration was refused.
#[derive(Clone, Copy, Debug, PartialEq, Eq, Structural)]
pub enum ParseError {
    /// A byte at this offset starts no token.
    Lex(usize),
    /// Brackets do not pair up.
    Unbalanced,
    /// Two commas with nothing between them, or nothing at all.
    EmptyItem,
    /// Fewer than two types before the first arm: the enum and the type it maps to.
    MissingType,
    /// More than three types before the first arm.
    TooManyTypes,
    /// An item after the first arm that is not `Variant <=> value`, or a variant that is not a
    /// name, optionally followed by `(...)` or `{...}`.
    BadArm,
    /// A value side that is not one term.
    BadTerm,
}

/// The text of the type `ts[lo..hi]`: its tokens, with a space between two tokens only where
/// neither is punctuation (`&'static str`, `Option<bool>`).
pub open spec fn type_text_of(ts: Seq<TokenV>, lo: int, hi: int) -> Seq<u8>
    decreases hi - lo,
{
    if hi <= lo {
        Seq::empty()
    } else {
        let gap = if hi - 1 > lo && ts[hi - 1].0 != TokenKind::Punct && ts[hi - 2].0
            != TokenKind::Punct {
            seq![SPACE]
        } else {
            Seq::empty()
        };
        type_text_of(ts, lo, hi - 1) + gap + ts[hi - 1].1
    }
}

fn type_text(toks: &Vec<Token>, lo: usize, hi: usize) -> (r: Vec<u8>)
    requires
        lo < hi <= toks.len(),
        all_wf(toks@),
    ensures
        r@.len() > 0,
        r@ == type_text_of(tviews(toks@), lo as int, hi as int),
{
    let ghost ts = tviews(toks@);
    let mut out: Vec<u8> = Vec::new();
    let mut i = lo;
    while i < hi
        invariant
            ts == tviews(toks@),
            lo <= i <= hi <= toks.len(),
            all_wf(toks@),
            i > lo ==> out@.len() > 0,
            out@ == type_text_of(ts, lo as int, i as int),
        decreases hi - i,
    {
        let ghost before = out@;
        if i > lo && toks[i].kind != TokenKind::Punct && toks[i - 1].kind != TokenKind::Punct {
            out.push(SPACE);
        }
        let ghost gap = if i > lo && ts[i as int].0 != TokenKind::Punct && ts[i - 1].0
            != TokenKind::Punct {
            seq![SPACE]
        } else {
            Seq::<u8>::empty()
        };
        assert(out@ =~= before + gap);
        assert(wf_token(toks@[i as int]));
        append_bytes(&mut out, &toks[i].text);
        i = i + 1;
        assert(out@ =~= type_text_of(ts, lo as int, i as int));
    }
    out
}

/// `ty::name`.
pub open spec fn qualified(ty: Seq<u8>, name: Seq<u8>) -> Seq<u8> {
    ty + seq![COLON, COLON] + name
}

fn qualify(ty: &Vec<u8>, name: &Vec<u8>) -> (r: Vec<u8>)
    requires
        name@.len() > 0,
    ensures
        r@ == qualified(ty@, name@),
        is_qualified(r@, ty@),
{
    let mut out = copy_bytes(ty);
    out.push(COLON);
    out.push(COLON);
    let ghost prefix = out@;
    append_bytes(&mut out, name);
    assert(prefix =~= ty@ + seq![COLON, COLON]);
    assert(out@.subrange(0, ty@.len() + 2int) =~= prefix);
    out
}

/// The variant side `ts[lo..hi]` of an arm: a name, optionally followed by `(...)` or
/// `{...}`, read as a pattern of the enum `ty`.
pub open spec fn variant_at(ts: Seq<TokenV>, lo: int, hi: int, ty: Seq<u8>) -> Option<Tm> {
    if lo < 0 || lo >= hi || hi > ts.len() || ts[lo].0 != TokenKind::Ident {
        None
    } else if hi - lo > 1 && !is_punct_byte(ts[lo + 1], LPAREN) && !is_punct_byte(
        ts[lo + 1],
        LBRACE,
    ) {
        None
    } else {
        match term_at(ts, lo) {
            Some((t, q)) => if q != hi {
                None
            } else {
                match t {
                    Tm::Var(name) => if name.len() == 0 {
                        None
                    } else {
                        Some(Tm::Ctor(qualified(ty, name), Seq::empty()))
                    },
                    Tm::Ctor(name, args) => if name.len() == 0 {
                        None
                    } else {
                        Some(Tm::Ctor(qualified(ty, name), args))
                    },
                    Tm::Record(name, names, args) => if name.len() == 0 {
                        None
                    } else {
                        Some(Tm::Record(qualified(ty, name), names, args))
                    },
                    _ => None,
                }
            },
            None => None,
        }
    }
}

fn parse_variant(toks: &Vec<Token>, lo: usize, hi: usize, ty: &Vec<u8>) -> (r: Option<Term>)
    requires
        lo <= hi <= toks.len(),
    ensures
        r matches Some(t) ==> is_variant_of(t@, ty@),
        opt_view(r) == variant_at(tviews(toks@), lo as int, hi as int, ty@),
{
    if lo >= hi || toks[lo].kind != TokenKind::Ident {
        return None;
    }
    if hi - lo > 1 && !is_punct_tok(&toks[lo + 1], LPAREN) && !is_punct_tok(&toks[lo + 1], LBRACE) {
        return None;
    }
    match parse_term_at(toks, lo) {
        Some((t, q)) => {
            if q != hi {
                return None;
            }
            match t {
                Term::Var(name) => {
                    if name.len() == 0 {
                        return None;
                    }
                    let r = Term::Ctor(qualify(ty, &name), Vec::new());
                    assert(r@->Ctor_1 =~= Seq::<Tm>::empty());
                    Some(r)
                },
                Term::Ctor(name, args) => {
                    if name.len() == 0 {
                        return None;
                    }
                    let ghost av = args@;
                    let r = Term::Ctor(qualify(ty, &name), args);
                    assert(r@->Ctor_1 =~= t@->Ctor_1);
                    Some(r)
                },
                Term::Record(name, names, args) => {
                    if name.len() == 0 {
                        return None;
                    }
                    let r = Term::Record(qualify(ty, &name), names, args);
                    assert(r@->Record_1 =~= t@->Record_1);
                    assert(r@->Record_2 =~= t@->Record_2);
                    Some(r)
                },
                _ => None,
            }
        },
        None => None,
    }
}

/// Reads one term, such as `Some((1, "a"))`, `Thing::Marker("place")` or
/// `Player { name: "person", hp: 2 }`, that spans all of `input`.
pub fn parse_term(input: &[u8]) -> (r: Result<Term, ParseError>)
    ensures
        match lex(input@) {
            Err(p) => r == Err::<Term, ParseError>(ParseError::Lex(p)),
            Ok(ts) => match r {
                Ok(t) => term_at(ts, 0) == Some((t@, ts.len() as int)),
                Err(e) => e == ParseError::BadTerm && !(term_at(ts, 0) is Some && term_at(
                    ts,
                    0,
                )->Some_0.1 == ts.len()),
            },
        },
{
    let toks = match tokenize(input) {
        Ok(t) => t,
        Err(p) => {
            return Err(ParseError::Lex(p));
        },
    };
    match parse_term_at(&toks, 0) {
        Some((t, q)) => {
            if q == toks.len() {
                Ok(t)
            } else {
                Err(ParseError::BadTerm)
            }
        },
        None => Err(ParseError::BadTerm),
    }
}

/// The arm `ts[lo..hi]`: `Variant <=> value`, split at its first `<=>`.
pub open spec fn arm_at(ts: Seq<TokenV>, lo: int, hi: int, ty: Seq<u8>) -> Result<
    (Tm, Tm),
    ParseError,
> {
    match first_arrow(ts, lo, hi) {
        None => Err(ParseError::BadArm),
        Some(a) => match variant_at(ts, lo, a, ty) {
            None => Err(ParseError::BadArm),
            Some(v) => match term_at(ts, a + 1) {
                Some((t, q)) => if q == hi {
                    Ok((v, t))
                } else {
                    Err(ParseError::BadTerm)
                },
                None => Err(ParseError::BadTerm),
            },
        },
    }
}

/// The arms `items[k..]`, or the error of the first that is not one.
pub open spec fn arms_from(
    ts: Seq<TokenV>,
    items: Seq<(usize, usize)>,
    k: int,
    ty: Seq<u8>,
) -> Result<Seq<(Tm, Tm)>, ParseError>
    decreases items.len() - k,
{
    if k < 0 || k >= items.len() {
        Ok(Seq::empty())
    } else {
        match arm_at(ts, items[k].0 as int, items[k].1 as int, ty) {
            Err(e) => Err(e),
            Ok(p) => match arms_from(ts, items, k + 1, ty) {
                Ok(rest) => Ok(seq![p] + rest),
                Err(e) => Err(e),
            },
        }
    }
}

pub open spec fn arms_after(
    prefix: Seq<(Tm, Tm)>,
    r: Result<Seq<(Tm, Tm)>, ParseError>,
) -> Result<Seq<(Tm, Tm)>, ParseError> {
    match r {
        Ok(rest) => Ok(prefix + rest),
        Err(e) => Err(e),
    }
}

/// The arms `items[first..]`, each `Variant <=> value`.
fn parse_arms(
    toks: &Vec<Token>,
    items: &Vec<(usize, usize)>,
    first: usize,
    enum_ty: &Vec<u8>,
) -> (r: Result<Vec<Arm>, ParseError>)
    requires
        first <= items.len(),
        enum_ty@.len() > 0,
        forall|j: int|
            0 <= j < items.len() ==> (#[trigger] items@[j]).0 < items@[j].1 <= toks.len(),
    ensures
        r matches Ok(arms) ==> arms.len() == items.len() - first && forall|j: int|
            0 <= j < arms.len() ==> is_variant_of(#[trigger] arms@[j].variant@, enum_ty@),
        r matches Err(e) ==> e == ParseError::BadArm || e == ParseError::BadTerm,
        match r {
            Ok(arms) => arms_from(tviews(toks@), items@, first as int, enum_ty@) == Ok::<
                Seq<(Tm, Tm)>,
                ParseError,
            >(arms_view(arms@)),
            Err(e) => arms_from(tviews(toks@), items@, first as int, enum_ty@) == Err::<
                Seq<(Tm, Tm)>,
                ParseError,
            >(e),
        },
{
    let ghost ts = tviews(toks@);
    let ghost ty = enum_ty@;
    let mut arms: Vec<Arm> = Vec::new();
    let mut k = first;
    proof {
        if let Ok(rest) = arms_from(ts, items@, first as int, ty) {
            assert(arms_view(arms@) + rest =~= rest);
        }
    }
    while k < items.len()
        invariant
            ts == tviews(toks@),
            ty == enum_ty@,
            first <= k <= items.len(),
            arms.len() == k - first,
            forall|j: int|
                0 <= j < items.len() ==> (#[trigger] items@[j]).0 < items@[j].1 <= toks.len(),
            forall|j: int|
                0 <= j < arms.len() ==> is_variant_of(#[trigger] arms@[j].variant@, enum_ty@),
            arms_from(ts, items@, first as int, ty) == arms_after(
                arms_view(arms@),
                arms_from(ts, items@, k as int, ty),
            ),
        decreases items.len() - k,
    {
        let ghost prefix = arms_view(arms@);
        let (lo, hi) = items[k];
        let a = match find_arrow(toks, lo, hi) {
            Some(a) => a,
            None => {
                return Err(ParseError::BadArm);
            },
        };
        let variant = match parse_variant(toks, lo, a, enum_ty) {
            Some(v) => v,
            None => {
                return Err(ParseError::BadArm);
            },
        };
        let value = match parse_term_at(toks, a + 1) {
            Some((t, q)) => {
                if q != hi {
                    return Err(ParseError::BadTerm);
                }
                t
            },
            None => {
                return Err(ParseError::BadTerm);
            },
        };
        let ghost pair = (variant@, value@);
        assert(arm_at(ts, lo as int, hi as int, ty) == Ok::<(Tm, Tm), ParseError>(pair));
        let ghost old_arms = arms@;
        arms.push(Arm { variant, value });
        assert(arms_view(arms@) =~= prefix.push(pair));
        proof {
            assert forall|j: int| 0 <= j < arms.len() implies is_variant_of(
                #[trigger] arms@[j].variant@,
                enum_ty@,
            ) by {
                if j < old_arms.len() {
                    assert(arms@[j] == old_arms[j]);
                }
            }
            if let Ok(rest) = arms_from(ts, items@, k + 1, ty) {
                assert(prefix + (seq![pair] + rest) =~= prefix.push(pair) + rest);
            }
        }
        k = k + 1;
    }
    assert(arms_view(arms@) + Seq::<(Tm, Tm)>::empty() =~= arms_view(arms@));
    Ok(arms)
}

/// What reading a declaration with tokens `ts` gives: each error exactly on the inputs that
/// show it, checked in this order: brackets, empty items, then the number of types before the
/// first arm (two or three). With two types, the second serves both directions.
pub open spec fn outcome_fits(ts: Seq<TokenV>, r: Result<EnumMap, ParseError>) -> bool {
    &&& (r == Err::<EnumMap, ParseError>(ParseError::Unbalanced)) <==> !balanced(ts)
    &&& (r == Err::<EnumMap, ParseError>(ParseError::EmptyItem)) <==> balanced(ts)
        && has_empty_item(ts)
    &&& balanced(ts) && !has_empty_item(ts) ==> exists|items: Seq<(usize, usize)>, h: int|
        splits(ts, items) && is_header_len(ts, items, h)
    &&& forall|items: Seq<(usize, usize)>, h: int|
        balanced(ts) && !has_empty_item(ts) && splits(ts, items) && is_header_len(ts, items, h)
            ==> {
            let enum_ty = type_text_of(ts, items[0].0 as int, items[0].1 as int);
            &&& (r == Err::<EnumMap, ParseError>(ParseError::MissingType)) <==> h < 2
            &&& (r == Err::<EnumMap, ParseError>(ParseError::TooManyTypes)) <==> h > 3
            &&& 2 <= h <= 3 ==> match arms_from(ts, items, h, enum_ty) {
                Err(e) => r == Err::<EnumMap, ParseError>(e),
                Ok(pairs) => r is Ok && r->Ok_0.pairs() == pairs,
            }
            &&& r matches Ok(m) ==> {
                &&& m.arms.len() == items.len() - h
                &&& m.enum_ty@ == enum_ty
                &&& m.into_ty@ == type_text_of(ts, items[1].0 as int, items[1].1 as int)
                &&& m.from_ty@ == if h == 3 {
                    type_text_of(ts, items[2].0 as int, items[2].1 as int)
                } else {
                    m.into_ty@
                }
            }
        }
    &&& r matches Ok(m) ==> m.wf()
    &&& r matches Err(e) ==> !(e is Lex)
}

/// A comma is missing before the first arm: fewer than two types come before it.
pub open spec fn missing_comma(ts: Seq<TokenV>) -> bool {
    &&& balanced(ts)
    &&& !has_empty_item(ts)
    &&& exists|items: Seq<(usize, usize)>, h: int|
        splits(ts, items) && is_header_len(ts, items, h) && h < 2
}

/// Whether a declaration's text names the enum and the type it maps to, each followed by a
/// comma, before its first arm: `false` exactly when it splits into tokens and items and fewer
/// than two types come before the first arm, as in `Nonempty, () Something <=> ()`.
pub fn not_missing_comma(input: &[u8]) -> (r: bool)
    ensures
        r == !(lex(input@) matches Ok(ts) && missing_comma(ts)),
{
    let parsed = EnumMap::parse(input);
    let r = match parsed {
        Err(ParseError::MissingType) => false,
        _ => true,
    };
    proof {
        if let Ok(ts) = lex(input@) {
            if missing_comma(ts) {
                let (items, h) = choose|items: Seq<(usize, usize)>, h: int|
                    splits(ts, items) && is_header_len(ts, items, h) && h < 2;
                assert(parsed == Err::<EnumMap, ParseError>(ParseError::MissingType));
            }
            if !r {
                let (items, h) = choose|items: Seq<(usize, usize)>, h: int|
                    splits(ts, items) && is_header_len(ts, items, h);
                assert(h < 2);
            }
        }
    }
    r
}

impl EnumMap {
    /// Reads a declaration from its tokens: two or three types, then the arms, each item
    /// separated by a comma outside brackets, with an optional comma at the end.
    pub fn from_tokens(toks: &Vec<Token>) -> (r: Result<EnumMap, ParseError>)
        requires
            all_wf(toks@),
        ensures
            outcome_fits(tviews(toks@), r),
    {
        if !check_balanced(toks) {
            return Err(ParseError::Unbalanced);
        }
        let items = match split_items(toks) {
            Some(items) => items,
            None => {
                return Err(ParseError::EmptyItem);
            },
        };
        let n_types = header_len(toks, &items);
        let ghost ts = tviews(toks@);
        proof {
            assert forall|other: Seq<(usize, usize)>, h: int|
                splits(ts, other) && is_header_len(ts, other, h) implies other == items@ && h
                == n_types by {
                lemma_splits_unique(ts, other, items@);
                lemma_header_len_unique(ts, items@, h, n_types as int);
            }
            assert(splits(ts, items@) && is_header_len(ts, items@, n_types as int));
        }
        if n_types < 2 {
            return Err(ParseError::MissingType);
        }
        if n_types > 3 {
            return Err(ParseError::TooManyTypes);
        }
        let enum_ty = type_text(toks, items[0].0, items[0].1);
        let into_ty = type_text(toks, items[1].0, items[1].1);
        let from_ty = if n_types == 3 {
            type_text(toks, items[2].0, items[2].1)
        } else {
            copy_bytes(&into_ty)
        };
        let arms = match parse_arms(toks, &items, n_types, &enum_ty) {
            Ok(arms) => arms,
            Err(e) => {
                return Err(e);
            },
        };
        Ok(EnumMap { enum_ty, into_ty, from_ty, arms })
    }

    /// Reads a declaration from its text, such as `Enum, u8, One <=> 1, Two <=> 2`: its
    /// tokens, then `from_tokens`.
    pub fn parse(input: &[u8]) -> (r: Result<EnumMap, ParseError>)
        ensures
            match lex(input@) {
                Ok(ts) => outcome_fits(ts, r),
                Err(p) => r == Err::<EnumMap, ParseError>(ParseError::Lex(p)),
            },
    {
        match tokenize(input) {
            Ok(toks) => EnumMap::from_tokens(&toks),
            Err(p) => Err(ParseError::Lex(p)),
        }
    }
}

} // verus!
