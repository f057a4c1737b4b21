//! Matching a term used as a pattern against a value, and building a value from a term used
//! as an expression.
use vstd::prelude::*;
use crate::term::{bytes_eq, copy_bytes, copy_term, views, Term, Tm};

verus! {

broadcast use vstd::std_specs::vec::group_vec_axioms;

/// Names bound by a match, in the order they were bound.
pub type Env = Seq<(Seq<u8>, Tm)>;

/// One name bound to a value.
#[derive(Debug)]
pub struct Binding {
    pub name: Vec<u8>,
    pub value: Term,
}

pub open spec fn env_view(e: Seq<Binding>) -> Env {
    Seq::new(e.len(), |i: int| (e[i].name@, e[i].value@))
}

/// Matching the pattern `p` against `v`, with the bindings `env` made so far: `None` when it
/// does not match, else `env` with the bindings of `p` appended.
pub open spec fn match_tm(p: Tm, v: Tm, env: Env) -> Option<Env>
    decreases p, 0int,
{
    match p {
        Tm::Wild => Some(env),
        Tm::Var(n) => Some(env.push((n, v))),
        Tm::Lit(a) => if v is Lit && v->Lit_0 == a {
            Some(env)
        } else {
            None
        },
        Tm::Tuple(ps) => if v is Tuple && v->Tuple_0.len() == ps.len() {
            match_all(ps, v->Tuple_0, 0, env)
        } else {
            None
        },
        Tm::Ctor(h, ps) => if v is Ctor && v->Ctor_0 == h && v->Ctor_1.len() == ps.len() {
            match_all(ps, v->Ctor_1, 0, env)
        } else {
            None
        },
        Tm::Record(h, ns, ps) => if v is Record && v->Record_0 == h && v->Record_1 == ns
            && v->Record_2.len() == ps.len() {
            match_all(ps, v->Record_2, 0, env)
        } else {
            None
        },
    }
}

/// Matching `ps[i..]` against `vs[i..]` in order.
pub open spec fn match_all(ps: Seq<Tm>, vs: Seq<Tm>, i: int, env: Env) -> Option<Env>
    decreases ps, ps.len() - i,
{
    if i < 0 || i >= ps.len() {
        Some(env)
    } else {
        match match_tm(ps[i], vs[i], env) {
            Some(e) => match_all(ps, vs, i + 1, e),
            None => None,
        }
    }
}

/// The value bound to `name` first, from position `i` on.
pub open spec fn lookup_from(env: Env, name: Seq<u8>, i: int) -> Option<Tm>
    decreases env.len() - i,
{
    if i < 0 || i >= env.len() {
        None
    } else if env[i].0 == name {
        Some(env[i].1)
    } else {
        lookup_from(env, name, i + 1)
    }
}

pub open spec fn lookup(env: Env, name: Seq<u8>) -> Option<Tm> {
    lookup_from(env, name, 0)
}

/// The value that the expression `e` gives with the bindings `env`: `None` when it names an
/// unbound variable or holds `_`.
pub open spec fn inst_tm(e: Tm, env: Env) -> Option<Tm>
    decreases e, 0int,
{
    match e {
        Tm::Wild => None,
        Tm::Var(n) => lookup(env, n),
        Tm::Lit(a) => Some(Tm::Lit(a)),
        Tm::Tuple(es) => match inst_all(es, env, es.len() as int) {
            Some(s) => Some(Tm::Tuple(s)),
            None => None,
        },
        Tm::Ctor(h, es) => match inst_all(es, env, es.len() as int) {
            Some(s) => Some(Tm::Ctor(h, s)),
            None => None,
        },
        Tm::Record(h, ns, es) => match inst_all(es, env, es.len() as int) {
            Some(s) => Some(Tm::Record(h, ns, s)),
            None => None,
        },
    }
}

/// The values of the first `n` expressions of `es`.
pub open spec fn inst_all(es: Seq<Tm>, env: Env, n: int) -> Option<Seq<Tm>>
    decreases es, n,
{
    if n <= 0 {
        Some(Seq::empty())
    } else if n > es.len() {
        None
    } else {
        match inst_all(es, env, n - 1) {
            Some(s) => match inst_tm(es[n - 1], env) {
                Some(t) => Some(s.push(t)),
                None => None,
            },
            None => None,
        }
    }
}

proof fn lemma_inst_all_stays_none(es: Seq<Tm>, env: Env, i: int, n: int)
    requires
        0 <= i <= n <= es.len(),
        inst_all(es, env, i) is None,
    ensures
        inst_all(es, env, n) is None,
    decreases n - i,
{
    if i < n {
        lemma_inst_all_stays_none(es, env, i, n - 1);
    }
}

/// A term without variables or `_`: as a pattern it matches only itself.
pub open spec fn ground(t: Tm) -> bool
    decreases t, 0int,
{
    match t {
        Tm::Wild => false,
        Tm::Var(_) => false,
        Tm::Lit(_) => true,
        Tm::Tuple(ts) => ground_all(ts, 0),
        Tm::Ctor(_, ts) => ground_all(ts, 0),
        Tm::Record(_, _, ts) => ground_all(ts, 0),
    }
}

/// Every term of `ts[i..]` is ground.
pub open spec fn ground_all(ts: Seq<Tm>, i: int) -> bool
    decreases ts, ts.len() - i,
{
    if i < 0 || i >= ts.len() {
        true
    } else {
        ground(ts[i]) && ground_all(ts, i + 1)
    }
}

/// A ground pattern matches exactly the value equal to it, and binds nothing.
pub proof fn lemma_ground_match(p: Tm, v: Tm, env: Env)
    requires
        ground(p),
    ensures
        match_tm(p, v, env) == (if p == v {
            Some(env)
        } else {
            None
        }),
    decreases p, 1int,
{
    match p {
        Tm::Tuple(ps) => {
            if v is Tuple && v->Tuple_0.len() == ps.len() {
                lemma_ground_match_all(ps, v->Tuple_0, 0, env);
                assert(ps.subrange(0, ps.len() as int) =~= ps);
                assert(v->Tuple_0.subrange(0, ps.len() as int) =~= v->Tuple_0);
            }
        },
        Tm::Ctor(h, ps) => {
            if v is Ctor && v->Ctor_0 == h && v->Ctor_1.len() == ps.len() {
                lemma_ground_match_all(ps, v->Ctor_1, 0, env);
                assert(ps.subrange(0, ps.len() as int) =~= ps);
                assert(v->Ctor_1.subrange(0, ps.len() as int) =~= v->Ctor_1);
            }
        },
        Tm::Record(h, ns, ps) => {
            if v is Record && v->Record_0 == h && v->Record_1 == ns && v->Record_2.len()
                == ps.len() {
                lemma_ground_match_all(ps, v->Record_2, 0, env);
                assert(ps.subrange(0, ps.len() as int) =~= ps);
                assert(v->Record_2.subrange(0, ps.len() as int) =~= v->Record_2);
            }
        },
        _ => {},
    }
}

proof fn lemma_ground_match_all(ps: Seq<Tm>, vs: Seq<Tm>, i: int, env: Env)
    requires
        ground_all(ps, i),
        ps.len() == vs.len(),
        0 <= i <= ps.len(),
    ensures
        match_all(ps, vs, i, env) == (if ps.subrange(i, ps.len() as int) == vs.subrange(
            i,
            vs.len() as int,
        ) {
            Some(env)
        } else {
            None
        }),
    decreases ps, ps.len() - i,
{
    let n = ps.len() as int;
    if i < n {
        lemma_ground_match(ps[i], vs[i], env);
        lemma_ground_match_all(ps, vs, i + 1, env);
        assert(ps.subrange(i, n) =~= seq![ps[i]] + ps.subrange(i + 1, n));
        assert(vs.subrange(i, n) =~= seq![vs[i]] + vs.subrange(i + 1, n));
        if ps.subrange(i, n) == vs.subrange(i, n) {
            assert(ps[i] == ps.subrange(i, n)[0]);
            assert(vs[i] == vs.subrange(i, n)[0]);
            assert(ps.subrange(i + 1, n) =~= ps.subrange(i, n).subrange(1, n - i));
            assert(vs.subrange(i + 1, n) =~= vs.subrange(i, n).subrange(1, n - i));
        }
    } else {
        assert(ps.subrange(i, n) =~= vs.subrange(i, n));
    }
}

/// A ground expression gives itself, whatever the bindings.
pub proof fn lemma_ground_inst(e: Tm, env: Env)
    requires
        ground(e),
    ensures
        inst_tm(e, env) == Some(e),
    decreases e, 1int,
{
    match e {
        Tm::Tuple(es) => {
            lemma_ground_inst_all(es, env, es.len() as int);
            assert(es.subrange(0, es.len() as int) =~= es);
        },
        Tm::Ctor(_, es) => {
            lemma_ground_inst_all(es, env, es.len() as int);
            assert(es.subrange(0, es.len() as int) =~= es);
        },
        Tm::Record(_, _, es) => {
            lemma_ground_inst_all(es, env, es.len() as int);
            assert(es.subrange(0, es.len() as int) =~= es);
        },
        _ => {},
    }
}

proof fn lemma_ground_all_at(ts: Seq<Tm>, i: int, k: int)
    requires
        ground_all(ts, i),
        0 <= i <= k < ts.len(),
    ensures
        ground(ts[k]),
    decreases k - i,
{
    if i < k {
        lemma_ground_all_at(ts, i + 1, k);
    }
}

proof fn lemma_ground_inst_all(es: Seq<Tm>, env: Env, n: int)
    requires
        ground_all(es, 0),
        0 <= n <= es.len(),
    ensures
        inst_all(es, env, n) == Some(es.subrange(0, n)),
    decreases es, n,
{
    if n > 0 {
        lemma_ground_inst_all(es, env, n - 1);
        lemma_ground_all_at(es, 0, n - 1);
        lemma_ground_inst(es[n - 1], env);
        assert(es.subrange(0, n - 1).push(es[n - 1]) =~= es.subrange(0, n));
    } else {
        assert(es.subrange(0, 0) =~= Seq::<Tm>::empty());
    }
}

/// The pattern `p` binds the name `n`.
pub open spec fn binds(p: Tm, n: Seq<u8>) -> bool
    decreases p, 0int,
{
    match p {
        Tm::Var(m) => m == n,
        Tm::Tuple(ps) => binds_any(ps, n, 0),
        Tm::Ctor(_, ps) => binds_any(ps, n, 0),
        Tm::Record(_, _, ps) => binds_any(ps, n, 0),
        _ => false,
    }
}

/// Some pattern of `ps[i..]` binds `n`.
pub open spec fn binds_any(ps: Seq<Tm>, n: Seq<u8>, i: int) -> bool
    decreases ps, ps.len() - i,
{
    if i < 0 || i >= ps.len() {
        false
    } else {
        binds(ps[i], n) || binds_any(ps, n, i + 1)
    }
}

/// The expression `e` holds no `_`, and every name it reads is one that the pattern `p` binds.
pub open spec fn scoped(e: Tm, p: Tm) -> bool
    decreases e, 0int,
{
    match e {
        Tm::Wild => false,
        Tm::Var(n) => binds(p, n),
        Tm::Lit(_) => true,
        Tm::Tuple(es) => scoped_all(es, p, 0),
        Tm::Ctor(_, es) => scoped_all(es, p, 0),
        Tm::Record(_, _, es) => scoped_all(es, p, 0),
    }
}

/// Every expression of `es[i..]` is scoped by `p`.
pub open spec fn scoped_all(es: Seq<Tm>, p: Tm, i: int) -> bool
    decreases es, es.len() - i,
{
    if i < 0 || i >= es.len() {
        true
    } else {
        scoped(es[i], p) && scoped_all(es, p, i + 1)
    }
}

/// `env2` keeps the bindings of `env` first.
pub open spec fn extends(env2: Env, env: Env) -> bool {
    env2.len() >= env.len() && env2.subrange(0, env.len() as int) == env
}

proof fn lemma_lookup_extends(env: Env, env2: Env, n: Seq<u8>, i: int)
    requires
        extends(env2, env),
        0 <= i <= env.len(),
        lookup_from(env, n, i) is Some,
    ensures
        lookup_from(env2, n, i) == lookup_from(env, n, i),
    decreases env.len() - i,
{
    if i < env.len() {
        assert(env2[i] == env2.subrange(0, env.len() as int)[i]);
        if env[i].0 != n {
            lemma_lookup_extends(env, env2, n, i + 1);
        }
    }
}

proof fn lemma_lookup_pushed(env: Env, b: (Seq<u8>, Tm), i: int)
    requires
        0 <= i <= env.len(),
    ensures
        lookup_from(env.push(b), b.0, i) is Some,
    decreases env.len() - i,
{
    if i < env.len() {
        lemma_lookup_pushed(env, b, i + 1);
    }
}

proof fn lemma_extends_trans(a: Env, b: Env, c: Env)
    requires
        extends(b, a),
        extends(c, b),
    ensures
        extends(c, a),
{
    assert(c.subrange(0, a.len() as int) =~= c.subrange(0, b.len() as int).subrange(
        0,
        a.len() as int,
    ));
}

/// A match keeps the earlier bindings and binds every name of the pattern.
proof fn lemma_match_binds(p: Tm, v: Tm, env: Env)
    requires
        match_tm(p, v, env) is Some,
    ensures
        extends(match_tm(p, v, env)->Some_0, env),
        forall|n: Seq<u8>| #[trigger]
            binds(p, n) ==> lookup(match_tm(p, v, env)->Some_0, n) is Some,
    decreases p, 1int,
{
    let env2 = match_tm(p, v, env)->Some_0;
    match p {
        Tm::Var(m) => {
            assert(env2 == env.push((m, v)));
            assert(env2.subrange(0, env.len() as int) =~= env);
            lemma_lookup_pushed(env, (m, v), 0);
            assert forall|n: Seq<u8>| #[trigger] binds(p, n) implies lookup(
                match_tm(p, v, env)->Some_0,
                n,
            ) is Some by {
                assert(n == m);
                assert(env2 == match_tm(p, v, env)->Some_0);
            }
        },
        Tm::Tuple(ps) => {
            lemma_match_all_binds(ps, v->Tuple_0, 0, env);
            assert forall|n: Seq<u8>| #[trigger] binds(p, n) implies lookup(env2, n) is Some by {
                assert(binds_any(ps, n, 0));
            }
        },
        Tm::Ctor(_, ps) => {
            lemma_match_all_binds(ps, v->Ctor_1, 0, env);
            assert forall|n: Seq<u8>| #[trigger] binds(p, n) implies lookup(env2, n) is Some by {
                assert(binds_any(ps, n, 0));
            }
        },
        Tm::Record(_, _, ps) => {
            lemma_match_all_binds(ps, v->Record_2, 0, env);
            assert forall|n: Seq<u8>| #[trigger] binds(p, n) implies lookup(env2, n) is Some by {
                assert(binds_any(ps, n, 0));
            }
        },
        _ => {
            assert(env2.subrange(0, env.len() as int) =~= env);
            assert forall|n: Seq<u8>| #[trigger] binds(p, n) implies lookup(env2, n) is Some by {
                assert(!binds(p, n));
            }
        },
    }
}

proof fn lemma_match_all_binds(ps: Seq<Tm>, vs: Seq<Tm>, i: int, env: Env)
    requires
        match_all(ps, vs, i, env) is Some,
        0 <= i <= ps.len(),
        vs.len() == ps.len(),
    ensures
        extends(match_all(ps, vs, i, env)->Some_0, env),
        forall|n: Seq<u8>| #[trigger]
            binds_any(ps, n, i) ==> lookup(match_all(ps, vs, i, env)->Some_0, n) is Some,
    decreases ps, ps.len() - i,
{
    let env2 = match_all(ps, vs, i, env)->Some_0;
    if i < ps.len() {
        let e1 = match_tm(ps[i], vs[i], env)->Some_0;
        lemma_match_binds(ps[i], vs[i], env);
        lemma_match_all_binds(ps, vs, i + 1, e1);
        lemma_extends_trans(env, e1, env2);
        assert forall|n: Seq<u8>| #[trigger] binds_any(ps, n, i) implies lookup(env2, n) is Some by {
            if binds(ps[i], n) {
                lemma_lookup_extends(e1, env2, n, 0);
            } else {
                assert(binds_any(ps, n, i + 1));
            }
        }
    } else {
        assert(env2.subrange(0, env.len() as int) =~= env);
    }
}

/// An expression scoped by `p` has a value under bindings that give every name of `p`.
proof fn lemma_scoped_inst(e: Tm, p: Tm, env: Env)
    requires
        scoped(e, p),
        forall|n: Seq<u8>| #[trigger] binds(p, n) ==> lookup(env, n) is Some,
    ensures
        inst_tm(e, env) is Some,
    decreases e, 1int,
{
    match e {
        Tm::Tuple(es) => {
            lemma_scoped_inst_all(es, p, env, es.len() as int);
        },
        Tm::Ctor(_, es) => {
            lemma_scoped_inst_all(es, p, env, es.len() as int);
        },
        Tm::Record(_, _, es) => {
            lemma_scoped_inst_all(es, p, env, es.len() as int);
        },
        _ => {},
    }
}

proof fn lemma_scoped_all_at(es: Seq<Tm>, p: Tm, i: int, k: int)
    requires
        scoped_all(es, p, i),
        0 <= i <= k < es.len(),
    ensures
        scoped(es[k], p),
    decreases k - i,
{
    if i < k {
        lemma_scoped_all_at(es, p, i + 1, k);
    }
}

proof fn lemma_scoped_inst_all(es: Seq<Tm>, p: Tm, env: Env, n: int)
    requires
        scoped_all(es, p, 0),
        0 <= n <= es.len(),
        forall|m: Seq<u8>| #[trigger] binds(p, m) ==> lookup(env, m) is Some,
    ensures
        inst_all(es, env, n) is Some,
    decreases es, n,
{
    if n > 0 {
        lemma_scoped_inst_all(es, p, env, n - 1);
        lemma_scoped_all_at(es, p, 0, n - 1);
        lemma_scoped_inst(es[n - 1], p, env);
    }
}

/// Where the expression `e` is scoped by the pattern `p`, a match of `p` always gives `e` a
/// value.
pub proof fn lemma_match_then_inst(p: Tm, v: Tm, e: Tm)
    requires
        scoped(e, p),
        match_tm(p, v, Seq::empty()) is Some,
    ensures
        inst_tm(e, match_tm(p, v, Seq::empty())->Some_0) is Some,
{
    lemma_match_binds(p, v, Seq::empty());
    lemma_scoped_inst(e, p, match_tm(p, v, Seq::empty())->Some_0);
}

/// Matches the pattern `p` against `v`, appending the bindings of `p` to `env` when it matches.
pub fn match_term(p: &Term, v: &Term, env: &mut Vec<Binding>) -> (r: bool)
    ensures
        r == match_tm(p@, v@, env_view(old(env)@)) is Some,
        r ==> env_view(final(env)@) == match_tm(p@, v@, env_view(old(env)@))->Some_0,
    decreases p, 1int,
{
    let ghost e0 = env_view(env@);
    match p {
        Term::Wild => true,
        Term::Var(n) => {
            let b = Binding { name: copy_bytes(n), value: copy_term(v) };
            env.push(b);
            assert(env_view(env@) =~= e0.push((n@, v@)));
            true
        },
        Term::Lit(a) => match v {
            Term::Lit(b) => bytes_eq(a, b),
            _ => false,
        },
        Term::Tuple(ps) => match v {
            Term::Tuple(vs) => {
                if ps.len() != vs.len() {
                    return false;
                }
                assert(p@->Tuple_0 =~= views(ps@));
                assert(v@->Tuple_0 =~= views(vs@));
                assert(decreases_to!(*p => *ps));
                match_terms(p, ps, vs, env)
            },
            _ => false,
        },
        Term::Ctor(h, ps) => match v {
            Term::Ctor(h2, vs) => {
                if !bytes_eq(h, h2) || ps.len() != vs.len() {
                    return false;
                }
                assert(p@->Ctor_1 =~= views(ps@));
                assert(v@->Ctor_1 =~= views(vs@));
                assert(decreases_to!(*p => *ps));
                match_terms(p, ps, vs, env)
            },
            _ => false,
        },
        Term::Record(h, ns, ps) => match v {
            Term::Record(h2, ns2, vs) => {
                if !bytes_eq(h, h2) || ps.len() != vs.len() || !names_eq(ns, ns2) {
                    return false;
                }
                assert(p@->Record_2 =~= views(ps@));
                assert(v@->Record_2 =~= views(vs@));
                assert(decreases_to!(*p => *ps));
                match_terms(p, ps, vs, env)
            },
            _ => false,
        },
    }
}

/// Whether two lists of names are the same.
fn names_eq(a: &Vec<Vec<u8>>, b: &Vec<Vec<u8>>) -> (r: bool)
    ensures
        r == (Seq::new(a.len() as nat, |i: int| a[i]@) == Seq::new(b.len() as nat, |i: int| b[i]@)),
{
    let ghost sa = Seq::new(a.len() as nat, |i: int| a[i]@);
    let ghost sb = Seq::new(b.len() as nat, |i: int| b[i]@);
    if a.len() != b.len() {
        assert(sa.len() != sb.len());
        return false;
    }
    let mut i: usize = 0;
    while i < a.len()
        invariant
            a.len() == b.len(),
            i <= a.len(),
            sa == Seq::new(a.len() as nat, |i: int| a[i]@),
            sb == Seq::new(b.len() as nat, |i: int| b[i]@),
            forall|k: int| 0 <= k < i ==> sa[k] == sb[k],
        decreases a.len() - i,
    {
        if !bytes_eq(&a[i], &b[i]) {
            assert(sa[i as int] != sb[i as int]);
            return false;
        }
        i = i + 1;
    }
    assert(sa =~= sb);
    true
}

/// Matches `ps` against `vs` in order.
fn match_terms(p: &Term, ps: &Vec<Term>, vs: &Vec<Term>, env: &mut Vec<Binding>) -> (r: bool)
    requires
        decreases_to!(*p => *ps),
        ps.len() == vs.len(),
    ensures
        r == match_all(views(ps@), views(vs@), 0, env_view(old(env)@)) is Some,
        r ==> env_view(final(env)@) == match_all(
            views(ps@),
            views(vs@),
            0,
            env_view(old(env)@),
        )->Some_0,
    decreases p, 0int,
{
    let ghost pv = views(ps@);
    let ghost vv = views(vs@);
    let ghost e0 = env_view(env@);
    let mut i: usize = 0;
    while i < ps.len()
        invariant
            decreases_to!(*p => *ps),
            ps.len() == vs.len(),
            pv == views(ps@),
            vv == views(vs@),
            e0 == env_view(old(env)@),
            i <= ps.len(),
            match_all(pv, vv, 0, e0) == match_all(pv, vv, i as int, env_view(env@)),
        decreases ps.len() - i,
    {
        proof {
            assert(decreases_to!(*ps => ps[i as int]));
        }
        let ghost before = env_view(env@);
        let ok = match_term(&ps[i], &vs[i], env);
        if !ok {
            assert(pv[i as int] == ps@[i as int]@ && vv[i as int] == vs@[i as int]@);
            assert(match_all(pv, vv, i as int, before) is None);
            return false;
        }
        i = i + 1;
    }
    true
}

/// The value bound first to `name` in `env`.
pub fn lookup_name(env: &Vec<Binding>, name: &Vec<u8>) -> (r: Option<Term>)
    ensures
        r matches Some(t) ==> lookup(env_view(env@), name@) == Some(t@),
        r is None ==> lookup(env_view(env@), name@) is None,
{
    let ghost ev = env_view(env@);
    let mut i: usize = 0;
    while i < env.len()
        invariant
            ev == env_view(env@),
            i <= env.len(),
            lookup_from(ev, name@, i as int) == lookup(ev, name@),
        decreases env.len() - i,
    {
        if bytes_eq(&env[i].name, name) {
            return Some(copy_term(&env[i].value));
        }
        i = i + 1;
    }
    None
}

/// The value that the expression `e` gives with the bindings `env`.
pub fn instantiate(e: &Term, env: &Vec<Binding>) -> (r: Option<Term>)
    ensures
        r matches Some(t) ==> inst_tm(e@, env_view(env@)) == Some(t@),
        r is None ==> inst_tm(e@, env_view(env@)) is None,
    decreases e, 1int,
{
    let ghost ev = env_view(env@);
    match e {
        Term::Wild => None,
        Term::Var(n) => lookup_name(env, n),
        Term::Lit(a) => Some(Term::Lit(copy_bytes(a))),
        Term::Tuple(es) => {
            assert(e@->Tuple_0 =~= views(es@));
            assert(decreases_to!(*e => *es));
            match instantiate_all(e, es, env) {
                Some(out) => {
                    let ghost ov = out@;
                    let r = Term::Tuple(out);
                    assert(r@->Tuple_0 =~= views(ov));
                    Some(r)
                },
                None => None,
            }
        },
        Term::Ctor(h, es) => {
            assert(e@->Ctor_1 =~= views(es@));
            assert(decreases_to!(*e => *es));
            match instantiate_all(e, es, env) {
                Some(out) => {
                    let ghost ov = out@;
                    let r = Term::Ctor(copy_bytes(h), out);
                    assert(r@->Ctor_1 =~= views(ov));
                    Some(r)
                },
                None => None,
            }
        },
        Term::Record(h, ns, es) => {
            assert(e@->Record_2 =~= views(es@));
            assert(decreases_to!(*e => *es));
            match instantiate_all(e, es, env) {
                Some(out) => {
                    let ghost ov = out@;
                    let names = copy_name_list(ns);
                    let r = Term::Record(copy_bytes(h), names, out);
                    assert(r@->Record_2 =~= views(ov));
                    assert(r@->Record_1 =~= e@->Record_1);
                    Some(r)
                },
                None => None,
            }
        },
    }
}

fn copy_name_list(v: &Vec<Vec<u8>>) -> (r: Vec<Vec<u8>>)
    ensures
        Seq::new(r.len() as nat, |i: int| r[i]@) == Seq::new(v.len() as nat, |i: int| v[i]@),
{
    let mut out: Vec<Vec<u8>> = Vec::new();
    let mut i: usize = 0;
    while i < v.len()
        invariant
            i <= v.len(),
            out.len() == i,
            forall|k: int| 0 <= k < i ==> #[trigger] out@[k]@ == v@[k]@,
        decreases v.len() - i,
    {
        out.push(copy_bytes(&v[i]));
        i = i + 1;
    }
    assert(Seq::new(out.len() as nat, |i: int| out[i]@) =~= Seq::new(
        v.len() as nat,
        |i: int| v[i]@,
    ));
    out
}

/// The values of the expressions `es`.
fn instantiate_all(e: &Term, es: &Vec<Term>, env: &Vec<Binding>) -> (r: Option<Vec<Term>>)
    requires
        decreases_to!(*e => *es),
    ensures
        r matches Some(out) ==> inst_all(views(es@), env_view(env@), es.len() as int) == Some(
            views(out@),
        ),
        r is None ==> inst_all(views(es@), env_view(env@), es.len() as int) is None,
    decreases e, 0int,
{
    let ghost esv = views(es@);
    let ghost ev = env_view(env@);
    let mut out: Vec<Term> = Vec::new();
    let mut i: usize = 0;
    assert(views(out@) =~= Seq::<Tm>::empty());
    while i < es.len()
        invariant
            decreases_to!(*e => *es),
            esv == views(es@),
            ev == env_view(env@),
            i <= es.len(),
            inst_all(esv, ev, i as int) == Some(views(out@)),
        decreases es.len() - i,
    {
        proof {
            assert(decreases_to!(*es => es[i as int]));
        }
        match instantiate(&es[i], env) {
            Some(t) => {
                let ghost before = views(out@);
                out.push(t);
                assert(views(out@) =~= before.push(t@));
            },
            None => {
                proof {
                    lemma_inst_all_stays_none(esv, ev, i as int + 1, es.len() as int);
                }
                return None;
            },
        }
        i = i + 1;
    }
    Some(out)
}

} // verus!
