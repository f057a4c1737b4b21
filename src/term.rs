//! Terms: the value expressions and patterns written on either side of a mapping, and the
//! values that the conversions take and give.
use vstd::prelude::*;
use crate::token::{
    is_digit, tviews, Token, TokenKind, TokenV, COLON, COMMA, DIGIT_0, DIGIT_9, LBRACE, LOWER_A,
    LOWER_F, LOWER_I, LOWER_U, LOWER_X, LOWER_Z, LPAREN, MINUS, RBRACE, RPAREN, UNDERSCORE,
    UPPER_X,
};

verus! {

broadcast use vstd::std_specs::vec::group_vec_axioms;

/// A term as Verus reasons about it.
pub ghost enum Tm {
    /// `_`: matches anything, binds nothing.
    Wild,
    /// A lower-case name: binds in a pattern, is replaced in an expression.
    Var(Seq<u8>),
    /// A literal, by its text (number literals without `_` and type suffix).
    Lit(Seq<u8>),
    /// `(a, b, ...)`.
    Tuple(Seq<Tm>),
    /// A path with positional arguments: `Some(x)`, `Other::Uno`, `Num(3)`.
    Ctor(Seq<u8>, Seq<Tm>),
    /// A path with named fields: `Player { name, hp }`.
    Record(Seq<u8>, Seq<Seq<u8>>, Seq<Tm>),
}

/// A term: a pattern or an expression of a mapping, or a value that it converts.
#[derive(Debug, PartialEq, Eq)]
pub enum Term {
    Wild,
    Var(Vec<u8>),
    Lit(Vec<u8>),
    Tuple(Vec<Term>),
    Ctor(Vec<u8>, Vec<Term>),
    /// Head, field names, field terms (as many as names).
    Record(Vec<u8>, Vec<Vec<u8>>, Vec<Term>),
}

impl View for Term {
    type V = Tm;

    open spec fn view(&self) -> Tm
        decreases self,
    {
        match self {
            Term::Wild => Tm::Wild,
            Term::Var(n) => Tm::Var(n@),
            Term::Lit(t) => Tm::Lit(t@),
            Term::Tuple(args) => Tm::Tuple(
                Seq::new(
                    args.len() as nat,
                    |i: int|
                        if 0 <= i < args.len() {
                            args[i].view()
                        } else {
                            Tm::Wild
                        },
                ),
            ),
            Term::Ctor(h, args) => Tm::Ctor(
                h@,
                Seq::new(
                    args.len() as nat,
                    |i: int|
                        if 0 <= i < args.len() {
                            args[i].view()
                        } else {
                            Tm::Wild
                        },
                ),
            ),
            Term::Record(h, names, args) => Tm::Record(
                h@,
                Seq::new(names.len() as nat, |i: int| names[i]@),
                Seq::new(
                    args.len() as nat,
                    |i: int|
                        if 0 <= i < args.len() {
                            args[i].view()
                        } else {
                            Tm::Wild
                        },
                ),
            ),
        }
    }
}

/// The views of a sequence of terms.
pub open spec fn views(ts: Seq<Term>) -> Seq<Tm> {
    Seq::new(ts.len(), |i: int| ts[i]@)
}

/// Copies a byte vector.
pub fn copy_bytes(v: &Vec<u8>) -> (r: Vec<u8>)
    ensures
        r@ == v@,
{
    let mut out: Vec<u8> = Vec::new();
    let mut i: usize = 0;
    while i < v.len()
        invariant
            i <= v.len(),
            out@ == v@.subrange(0, i as int),
        decreases v.len() - i,
    {
        out.push(v[i]);
        i = i + 1;
        assert(out@ =~= v@.subrange(0, i as int));
    }
    assert(out@ =~= v@);
    out
}

/// Whether two byte vectors hold the same bytes.
pub fn bytes_eq(a: &Vec<u8>, b: &Vec<u8>) -> (r: bool)
    ensures
        r == (a@ == b@),
{
    if a.len() != b.len() {
        return false;
    }
    let mut i: usize = 0;
    while i < a.len()
        invariant
            a.len() == b.len(),
            i <= a.len(),
            forall|k: int| 0 <= k < i ==> a@[k] == b@[k],
        decreases a.len() - i,
    {
        if a[i] != b[i] {
            return false;
        }
        i = i + 1;
    }
    assert(a@ =~= b@);
    true
}

/// Copies a list of byte vectors.
fn copy_names(v: &Vec<Vec<u8>>) -> (r: Vec<Vec<u8>>)
    ensures
        r.len() == v.len(),
        forall|k: int| 0 <= k < v.len() ==> #[trigger] r@[k]@ == v@[k]@,
{
    let mut out: Vec<Vec<u8>> = Vec::new();
    let mut i: usize = 0;
    while i < v.len()
        invariant
            i <= v.len(),
            out.len() == i,
            forall|k: int| 0 <= k < i ==> #[trigger] out@[k]@ == v@[k]@,
        decreases v.len() - i,
    {
        out.push(copy_bytes(&v[i]));
        i = i + 1;
    }
    out
}

/// Copies a list of terms.
fn copy_terms(t: &Term, v: &Vec<Term>) -> (r: Vec<Term>)
    requires
        decreases_to!(*t => *v),
    ensures
        r.len() == v.len(),
        forall|k: int| 0 <= k < v.len() ==> #[trigger] r@[k]@ == v@[k]@,
    decreases t, 0int,
{
    let mut out: Vec<Term> = Vec::new();
    let mut i: usize = 0;
    while i < v.len()
        invariant
            decreases_to!(*t => *v),
            i <= v.len(),
            out.len() == i,
            forall|k: int| 0 <= k < i ==> #[trigger] out@[k]@ == v@[k]@,
        decreases v.len() - i,
    {
        proof {
            assert(decreases_to!(*v => v[i as int]));
        }
        out.push(copy_term(&v[i]));
        i = i + 1;
    }
    out
}

/// Copies a term.
pub fn copy_term(t: &Term) -> (r: Term)
    ensures
        r@ == t@,
    decreases t, 1int,
{
    match t {
        Term::Wild => Term::Wild,
        Term::Var(n) => Term::Var(copy_bytes(n)),
        Term::Lit(s) => Term::Lit(copy_bytes(s)),
        Term::Tuple(args) => {
            assert(decreases_to!(*t => *args));
            let a = copy_terms(t, args);
            let ghost av = a@;
            let r = Term::Tuple(a);
            assert(r@->Tuple_0.len() == t@->Tuple_0.len());
            assert forall|k: int| 0 <= k < av.len() implies r@->Tuple_0[k] == t@->Tuple_0[k] by {
                assert(av[k]@ == args@[k]@);
            }
            assert(r@->Tuple_0 =~= t@->Tuple_0);
            r
        },
        Term::Ctor(h, args) => {
            assert(decreases_to!(*t => *args));
            let a = copy_terms(t, args);
            let ghost av = a@;
            let r = Term::Ctor(copy_bytes(h), a);
            assert forall|k: int| 0 <= k < av.len() implies r@->Ctor_1[k] == t@->Ctor_1[k] by {
                assert(av[k]@ == args@[k]@);
            }
            assert(r@->Ctor_1 =~= t@->Ctor_1);
            r
        },
        Term::Record(h, names, args) => {
            assert(decreases_to!(*t => *args));
            let a = copy_terms(t, args);
            let ghost av = a@;
            let ns = copy_names(names);
            let ghost nv = ns@;
            let r = Term::Record(copy_bytes(h), ns, a);
            assert forall|k: int| 0 <= k < av.len() implies r@->Record_2[k] == t@->Record_2[k] by {
                assert(av[k]@ == args@[k]@);
            }
            assert forall|k: int| 0 <= k < nv.len() implies r@->Record_1[k] == t@->Record_1[k] by {
                assert(nv[k]@ == names@[k]@);
            }
            assert(r@->Record_1 =~= t@->Record_1);
            assert(r@->Record_2 =~= t@->Record_2);
            r
        },
    }
}

/// Whether `b` starts the type suffix of a number literal (`u8`, `i32`, `f64`, ...).
pub open spec fn is_suffix_start(b: u8, hex: bool) -> bool {
    b == LOWER_U || b == LOWER_I || (!hex && b == LOWER_F)
}

/// The digits of a number literal: the bytes before its type suffix, without `_`.
pub open spec fn digits_of(s: Seq<u8>, hex: bool) -> Seq<u8>
    decreases s.len(),
{
    if s.len() == 0 {
        s
    } else if is_suffix_start(s[0], hex) {
        Seq::empty()
    } else if s[0] == UNDERSCORE {
        digits_of(s.drop_first(), hex)
    } else {
        seq![s[0]] + digits_of(s.drop_first(), hex)
    }
}

pub open spec fn is_hex(s: Seq<u8>) -> bool {
    s.len() >= 2 && s[0] == DIGIT_0 && (s[1] == LOWER_X || s[1] == UPPER_X)
}

/// What a number literal stands for: `2_u8`, `2u32` and `2` all give `2`.
pub open spec fn number_text(s: Seq<u8>) -> Seq<u8> {
    digits_of(s, is_hex(s))
}

/// The text that a number literal stands for.
pub fn normalize_number(s: &Vec<u8>) -> (r: Vec<u8>)
    ensures
        r@ == number_text(s@),
{
    let hex = s.len() >= 2 && s[0] == DIGIT_0 && (s[1] == LOWER_X || s[1] == UPPER_X);
    let ghost whole = s@;
    let mut out: Vec<u8> = Vec::new();
    let mut i: usize = 0;
    assert(whole.subrange(0, whole.len() as int) =~= whole);
    assert(out@ + whole =~= whole);
    while i < s.len()
        invariant
            whole == s@,
            hex == is_hex(whole),
            i <= s.len(),
            out@ + digits_of(whole.subrange(i as int, whole.len() as int), hex) == digits_of(
                whole,
                hex,
            ),
        decreases s.len() - i,
    {
        let b = s[i];
        let ghost rest = whole.subrange(i as int, whole.len() as int);
        assert(rest.drop_first() =~= whole.subrange(i + 1, whole.len() as int));
        if b == LOWER_U || b == LOWER_I || (!hex && b == LOWER_F) {
            assert(digits_of(rest, hex) == Seq::<u8>::empty());
            assert(out@ =~= out@ + Seq::<u8>::empty());
            return out;
        }
        if b != UNDERSCORE {
            out.push(b);
            assert(out@ + digits_of(whole.subrange(i + 1, whole.len() as int), hex) =~= (
            out@.drop_last() + (seq![b] + digits_of(rest.drop_first(), hex))));
        }
        i = i + 1;
    }
    assert(whole.subrange(i as int, whole.len() as int) =~= Seq::<u8>::empty());
    assert(out@ + Seq::<u8>::empty() =~= out@);
    out
}

/// Whether a token is the punctuation `b`.
pub fn is_punct_tok(t: &Token, b: u8) -> (r: bool)
    ensures
        r == (t.kind == TokenKind::Punct && t.text@ == seq![b]),
{
    let r = t.kind == TokenKind::Punct && t.text.len() == 1 && t.text[0] == b;
    assert(r ==> t.text@ =~= seq![b]);
    r
}

/// Whether a token is `::`.
pub fn is_path_sep(t: &Token) -> (r: bool)
    ensures
        r == (t.kind == TokenKind::Punct && t.text@ == seq![COLON, COLON]),
{
    let r = t.kind == TokenKind::Punct && t.text.len() == 2 && t.text[0] == COLON && t.text[1]
        == COLON;
    assert(r ==> t.text@ =~= seq![COLON, COLON]);
    r
}

/// Appends `src` to `dst`.
pub fn append_bytes(dst: &mut Vec<u8>, src: &Vec<u8>)
    ensures
        final(dst)@ == old(dst)@ + src@,
{
    let ghost start = dst@;
    let mut i: usize = 0;
    while i < src.len()
        invariant
            i <= src.len(),
            dst@ == start + src@.subrange(0, i as int),
        decreases src.len() - i,
    {
        dst.push(src[i]);
        i = i + 1;
        assert(dst@ =~= start + src@.subrange(0, i as int));
    }
    assert(src@.subrange(0, src.len() as int) =~= src@);
}

pub open spec fn is_punct_byte(t: TokenV, b: u8) -> bool {
    t.0 == TokenKind::Punct && t.1 == seq![b]
}

pub open spec fn is_number_tok(t: TokenV) -> bool {
    t.0 == TokenKind::Literal && t.1.len() > 0 && is_digit(t.1[0])
}

/// A name that binds in a pattern: it starts with a lower-case letter or `_`.
pub open spec fn is_binding(s: Seq<u8>) -> bool {
    s.len() > 0 && ((LOWER_A <= s[0] && s[0] <= LOWER_Z) || s[0] == UNDERSCORE)
}

/// Where a path that has reached `q` ends: each `::` followed by a name continues it.
pub open spec fn path_end(ts: Seq<TokenV>, q: int) -> int
    decreases ts.len() - q,
{
    if 0 <= q && q + 1 < ts.len() && ts[q].0 == TokenKind::Punct && ts[q].1 == seq![COLON, COLON]
        && ts[q + 1].0 == TokenKind::Ident {
        path_end(ts, q + 2)
    } else {
        q
    }
}

/// The text of the path `ts[pos..q]`: its names joined by `::`.
pub open spec fn path_text(ts: Seq<TokenV>, pos: int, q: int) -> Seq<u8>
    decreases q - pos,
{
    if q <= pos + 1 {
        ts[pos].1
    } else {
        path_text(ts, pos, q - 2) + seq![COLON, COLON] + ts[q - 1].1
    }
}

/// The term at `pos` and the position after it.
pub open spec fn term_at(ts: Seq<TokenV>, pos: int) -> Option<(Tm, int)>
    decreases ts.len() - pos, 0int,
{
    if pos < 0 || pos >= ts.len() {
        None
    } else {
        let t = ts[pos];
        if t.0 == TokenKind::Literal {
            if is_number_tok(t) {
                Some((Tm::Lit(number_text(t.1)), pos + 1))
            } else {
                Some((Tm::Lit(t.1), pos + 1))
            }
        } else if is_punct_byte(t, MINUS) {
            if pos + 1 < ts.len() && is_number_tok(ts[pos + 1]) {
                Some((Tm::Lit(seq![MINUS] + number_text(ts[pos + 1].1)), pos + 2))
            } else {
                None
            }
        } else if is_punct_byte(t, LPAREN) {
            match list_from(ts, pos + 1, RPAREN, false) {
                Some((items, q, trailing)) => if items.len() == 1 && !trailing {
                    Some((items[0], q))
                } else {
                    Some((Tm::Tuple(items), q))
                },
                None => None,
            }
        } else if t.0 != TokenKind::Ident {
            None
        } else if t.1 == seq![UNDERSCORE] {
            Some((Tm::Wild, pos + 1))
        } else {
            let q = path_end(ts, pos + 1);
            let head = path_text(ts, pos, q);
            if q < pos + 1 || q > ts.len() {
                None
            } else if q < ts.len() && is_punct_byte(ts[q], LPAREN) {
                match list_from(ts, q + 1, RPAREN, false) {
                    Some((items, q2, _)) => Some((Tm::Ctor(head, items), q2)),
                    None => None,
                }
            } else if q < ts.len() && is_punct_byte(ts[q], LBRACE) {
                match fields_from(ts, q + 1) {
                    Some((names, terms, q2)) => Some((Tm::Record(head, names, terms), q2)),
                    None => None,
                }
            } else if q == pos + 1 && is_binding(head) {
                Some((Tm::Var(head), q))
            } else {
                Some((Tm::Ctor(head, Seq::empty()), q))
            }
        }
    }
}

/// The terms of a list from `p` to its `close`, separated by commas: the terms, the position
/// after `close`, and whether a comma came last (`trailing` tells whether one came just before
/// `p`).
pub open spec fn list_from(ts: Seq<TokenV>, p: int, close: u8, trailing: bool) -> Option<
    (Seq<Tm>, int, bool),
>
    decreases ts.len() - p, 1int,
{
    if p < 0 || p >= ts.len() {
        None
    } else if is_punct_byte(ts[p], close) {
        Some((Seq::empty(), p + 1, trailing))
    } else {
        match term_at(ts, p) {
            Some((t, q)) => if q <= p || q > ts.len() {
                None
            } else if q < ts.len() && is_punct_byte(ts[q], COMMA) {
                match list_from(ts, q + 1, close, true) {
                    Some((rest, e, tr)) => Some((seq![t] + rest, e, tr)),
                    None => None,
                }
            } else if q < ts.len() && is_punct_byte(ts[q], close) {
                Some((seq![t], q + 1, false))
            } else {
                None
            },
            None => None,
        }
    }
}

/// The fields of a record from `p` to its `}`: `name` (short for `name: name`) or
/// `name: term`, separated by commas. Gives the names, the terms, and the position after `}`.
pub open spec fn fields_from(ts: Seq<TokenV>, p: int) -> Option<(Seq<Seq<u8>>, Seq<Tm>, int)>
    decreases ts.len() - p, 1int,
{
    if p < 0 || p >= ts.len() {
        None
    } else if is_punct_byte(ts[p], RBRACE) {
        Some((Seq::empty(), Seq::empty(), p + 1))
    } else if ts[p].0 != TokenKind::Ident {
        None
    } else if p + 1 < ts.len() && is_punct_byte(ts[p + 1], COLON) {
        match term_at(ts, p + 2) {
            Some((t, q)) => fields_after(ts, p, ts[p].1, t, q),
            None => None,
        }
    } else {
        fields_after(ts, p, ts[p].1, Tm::Var(ts[p].1), p + 1)
    }
}

/// The field `name: t` that started at `p` and ends at `q`, and the fields after it.
pub open spec fn fields_after(ts: Seq<TokenV>, p: int, name: Seq<u8>, t: Tm, q: int) -> Option<
    (Seq<Seq<u8>>, Seq<Tm>, int),
>
    decreases ts.len() - p, 0int,
{
    if q <= p || q > ts.len() {
        None
    } else if q < ts.len() && is_punct_byte(ts[q], COMMA) {
        match fields_from(ts, q + 1) {
            Some((ns, vs, e)) => Some((seq![name] + ns, seq![t] + vs, e)),
            None => None,
        }
    } else if q < ts.len() && is_punct_byte(ts[q], RBRACE) {
        Some((seq![name], seq![t], q + 1))
    } else {
        None
    }
}

pub open spec fn list_after(prefix: Seq<Tm>, r: Option<(Seq<Tm>, int, bool)>) -> Option<
    (Seq<Tm>, int, bool),
> {
    match r {
        Some((rest, e, tr)) => Some((prefix + rest, e, tr)),
        None => None,
    }
}

pub open spec fn fields_after_prefix(
    names: Seq<Seq<u8>>,
    terms: Seq<Tm>,
    r: Option<(Seq<Seq<u8>>, Seq<Tm>, int)>,
) -> Option<(Seq<Seq<u8>>, Seq<Tm>, int)> {
    match r {
        Some((ns, vs, e)) => Some((names + ns, terms + vs, e)),
        None => None,
    }
}

pub open spec fn name_views(ns: Seq<Vec<u8>>) -> Seq<Seq<u8>> {
    Seq::new(ns.len(), |i: int| ns[i]@)
}

/// Terms of a list that ends at `close`, from `pos` (just after the opening bracket).
/// Gives the terms, the position after `close`, and whether a comma came last.
fn parse_list(toks: &Vec<Token>, pos: usize, close: u8) -> (r: Option<(Vec<Term>, usize, bool)>)
    requires
        pos <= toks.len(),
    ensures
        match r {
            Some((items, q, tr)) => pos < q <= toks.len() && list_from(
                tviews(toks@),
                pos as int,
                close,
                false,
            ) == Some(
                (views(items@), q as int, tr),
            ),
            None => list_from(tviews(toks@), pos as int, close, false) is None,
        },
    decreases toks.len() - pos, 1int,
{
    let ghost ts = tviews(toks@);
    let mut out: Vec<Term> = Vec::new();
    let mut p = pos;
    let mut trailing = false;
    proof {
        if let Some((rest, e, tr)) = list_from(ts, pos as int, close, false) {
            assert(views(out@) + rest =~= rest);
        }
    }
    while p < toks.len()
        invariant
            ts == tviews(toks@),
            pos <= p <= toks.len(),
            list_from(ts, pos as int, close, false) == list_after(
                views(out@),
                list_from(ts, p as int, close, trailing),
            ),
        decreases toks.len() - p,
    {
        let ghost prefix = views(out@);
        if is_punct_tok(&toks[p], close) {
            assert(prefix + Seq::<Tm>::empty() =~= prefix);
            return Some((out, p + 1, trailing));
        }
        match parse_term_at(toks, p) {
            Some((t, q)) => {
                let ghost tv = t@;
                out.push(t);
                assert(views(out@) =~= prefix.push(tv));
                if q < toks.len() && is_punct_tok(&toks[q], COMMA) {
                    proof {
                        if let Some((rest, e, tr)) = list_from(ts, q + 1, close, true) {
                            assert(prefix + (seq![tv] + rest) =~= prefix.push(tv) + rest);
                        }
                    }
                    trailing = true;
                    p = q + 1;
                } else if q < toks.len() && is_punct_tok(&toks[q], close) {
                    assert(prefix + seq![tv] =~= prefix.push(tv));
                    return Some((out, q + 1, false));
                } else {
                    return None;
                }
            },
            None => {
                return None;
            },
        }
    }
    None
}

/// Fields of a record from `pos` (just after `{`): `name` or `name: term`, to `}`.
fn parse_fields(toks: &Vec<Token>, pos: usize) -> (r: Option<(Vec<Vec<u8>>, Vec<Term>, usize)>)
    requires
        pos <= toks.len(),
    ensures
        match r {
            Some((names, terms, q)) => pos < q <= toks.len() && names.len() == terms.len()
                && fields_from(
                tviews(toks@),
                pos as int,
            ) == Some((name_views(names@), views(terms@), q as int)),
            None => fields_from(tviews(toks@), pos as int) is None,
        },
    decreases toks.len() - pos, 1int,
{
    let ghost ts = tviews(toks@);
    let mut names: Vec<Vec<u8>> = Vec::new();
    let mut terms: Vec<Term> = Vec::new();
    let mut p = pos;
    proof {
        if let Some((ns, vs, e)) = fields_from(ts, pos as int) {
            assert(name_views(names@) + ns =~= ns);
            assert(views(terms@) + vs =~= vs);
        }
    }
    while p < toks.len()
        invariant
            ts == tviews(toks@),
            pos <= p <= toks.len(),
            names.len() == terms.len(),
            fields_from(ts, pos as int) == fields_after_prefix(
                name_views(names@),
                views(terms@),
                fields_from(ts, p as int),
            ),
        decreases toks.len() - p,
    {
        let ghost nprefix = name_views(names@);
        let ghost tprefix = views(terms@);
        if is_punct_tok(&toks[p], RBRACE) {
            assert(nprefix + Seq::<Seq<u8>>::empty() =~= nprefix);
            assert(tprefix + Seq::<Tm>::empty() =~= tprefix);
            return Some((names, terms, p + 1));
        }
        if toks[p].kind != TokenKind::Ident {
            return None;
        }
        let name = copy_bytes(&toks[p].text);
        let mut q = p + 1;
        let t = if q < toks.len() && is_punct_tok(&toks[q], COLON) {
            match parse_term_at(toks, q + 1) {
                Some((t, q2)) => {
                    q = q2;
                    t
                },
                None => {
                    return None;
                },
            }
        } else {
            Term::Var(copy_bytes(&name))
        };
        let ghost tv = t@;
        let ghost nv = name@;
        assert(fields_from(ts, p as int) == fields_after(ts, p as int, nv, tv, q as int));
        terms.push(t);
        names.push(name);
        assert(views(terms@) =~= tprefix.push(tv));
        assert(name_views(names@) =~= nprefix.push(nv));
        if q < toks.len() && is_punct_tok(&toks[q], COMMA) {
            proof {
                if let Some((ns, vs, e)) = fields_from(ts, q + 1) {
                    assert(nprefix + (seq![nv] + ns) =~= nprefix.push(nv) + ns);
                    assert(tprefix + (seq![tv] + vs) =~= tprefix.push(tv) + vs);
                }
            }
            p = q + 1;
        } else if q < toks.len() && is_punct_tok(&toks[q], RBRACE) {
            assert(nprefix + seq![nv] =~= nprefix.push(nv));
            assert(tprefix + seq![tv] =~= tprefix.push(tv));
            return Some((names, terms, q + 1));
        } else {
            return None;
        }
    }
    None
}

/// Whether a name binds in a pattern rather than naming a unit variant or constant.
fn is_binding_name(s: &Vec<u8>) -> (r: bool)
    ensures
        r == is_binding(s@),
{
    s.len() > 0 && ((LOWER_A <= s[0] && s[0] <= LOWER_Z) || s[0] == UNDERSCORE)
}

/// The term at `pos`, and the position after it.
pub fn parse_term_at(toks: &Vec<Token>, pos: usize) -> (r: Option<(Term, usize)>)
    ensures
        match r {
            Some((t, q)) => pos < q <= toks.len() && term_at(tviews(toks@), pos as int) == Some(
                (t@, q as int),
            ),
            None => term_at(tviews(toks@), pos as int) is None,
        },
    decreases toks.len() - pos, 0int,
{
    let ghost ts = tviews(toks@);
    if pos >= toks.len() {
        return None;
    }
    let tok = &toks[pos];
    if tok.kind == TokenKind::Literal {
        if tok.text.len() > 0 && DIGIT_0 <= tok.text[0] && tok.text[0] <= DIGIT_9 {
            return Some((Term::Lit(normalize_number(&tok.text)), pos + 1));
        }
        return Some((Term::Lit(copy_bytes(&tok.text)), pos + 1));
    }
    if is_punct_tok(tok, MINUS) {
        if pos + 1 < toks.len() && toks[pos + 1].kind == TokenKind::Literal && toks[pos
            + 1].text.len() > 0 && DIGIT_0 <= toks[pos + 1].text[0] && toks[pos + 1].text[0]
            <= DIGIT_9 {
            let mut text: Vec<u8> = Vec::new();
            text.push(MINUS);
            let digits = normalize_number(&toks[pos + 1].text);
            append_bytes(&mut text, &digits);
            assert(text@ =~= seq![MINUS] + number_text(ts[pos + 1].1));
            return Some((Term::Lit(text), pos + 2));
        }
        return None;
    }
    if is_punct_tok(tok, LPAREN) {
        match parse_list(toks, pos + 1, RPAREN) {
            Some((items, q, trailing)) => {
                if items.len() == 1 && !trailing {
                    let mut items = items;
                    let ghost iv = views(items@);
                    let one = items.pop().unwrap();
                    assert(one@ == iv[0]);
                    return Some((one, q));
                }
                let ghost iv = views(items@);
                let r = Term::Tuple(items);
                assert(r@->Tuple_0 =~= iv);
                return Some((r, q));
            },
            None => {
                return None;
            },
        }
    }
    if tok.kind != TokenKind::Ident {
        return None;
    }
    if tok.text.len() == 1 && tok.text[0] == UNDERSCORE {
        assert(tok.text@ =~= seq![UNDERSCORE]);
        return Some((Term::Wild, pos + 1));
    }
    assert(tok.text@ != seq![UNDERSCORE]) by {
        if tok.text@ == seq![UNDERSCORE] {
            assert(tok.text@.len() == 1 && tok.text@[0] == UNDERSCORE);
        }
    }
    let mut head = copy_bytes(&tok.text);
    let mut q = pos + 1;
    while toks.len() - q > 1 && is_path_sep(&toks[q]) && toks[q + 1].kind == TokenKind::Ident
        invariant
            ts == tviews(toks@),
            pos < q <= toks.len(),
            path_end(ts, q as int) == path_end(ts, pos + 1),
            head@ == path_text(ts, pos as int, q as int),
        decreases toks.len() - q,
    {
        head.push(COLON);
        head.push(COLON);
        append_bytes(&mut head, &toks[q + 1].text);
        assert(head@ =~= path_text(ts, pos as int, q as int) + seq![COLON, COLON] + ts[q + 1].1);
        q = q + 2;
    }
    assert(q == path_end(ts, pos + 1));
    if q < toks.len() && is_punct_tok(&toks[q], LPAREN) {
        match parse_list(toks, q + 1, RPAREN) {
            Some((items, q2, _)) => {
                let ghost iv = views(items@);
                let r = Term::Ctor(head, items);
                assert(r@->Ctor_1 =~= iv);
                return Some((r, q2));
            },
            None => {
                return None;
            },
        }
    }
    if q < toks.len() && is_punct_tok(&toks[q], LBRACE) {
        match parse_fields(toks, q + 1) {
            Some((names, terms, q2)) => {
                let ghost nv = name_views(names@);
                let ghost tv = views(terms@);
                let r = Term::Record(head, names, terms);
                assert(r@->Record_1 =~= nv);
                assert(r@->Record_2 =~= tv);
                return Some((r, q2));
            },
            None => {
                return None;
            },
        }
    }
    if q == pos + 1 && is_binding_name(&head) {
        return Some((Term::Var(head), q));
    }
    let r = Term::Ctor(head, Vec::new());
    assert(r@->Ctor_1 =~= Seq::<Tm>::empty());
    Some((r, q))
}

} // verus!
