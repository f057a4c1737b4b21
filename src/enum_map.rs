//! A mapping between the variants of an enum and the values of another type, and the
//! conversions it defines in each direction: the first arm whose pattern matches decides.
use vstd::prelude::*;
use crate::pattern::{
    env_view, ground, inst_tm, instantiate, lemma_ground_inst, lemma_ground_match,
    lemma_match_then_inst, match_term, match_tm, scoped, Binding, Env,
};
use crate::term::{Term, Tm};
use crate::token::COLON;

verus! {

/// One line of a mapping: a variant pattern, written with the enum's path, and a value term.
#[derive(Debug)]
pub struct Arm {
    pub variant: Term,
    pub value: Term,
}

/// A parsed mapping.
#[derive(Debug)]
pub struct EnumMap {
    /// The enum's type, as written.
    pub enum_ty: Vec<u8>,
    /// The type the enum converts into.
    pub into_ty: Vec<u8>,
    /// The type that converts into the enum; the same as `into_ty` when only one was given.
    pub from_ty: Vec<u8>,
    pub arms: Vec<Arm>,
}

/// Whether `head` is a path `ty::Name` with a name that is not empty.
pub open spec fn is_qualified(head: Seq<u8>, ty: Seq<u8>) -> bool {
    head.len() > ty.len() + 2 && head.subrange(0, ty.len() + 2int) == ty + seq![COLON, COLON]
}

/// Whether `t` is a variant of the enum `ty`: unit, tuple-like or struct-like.
pub open spec fn is_variant_of(t: Tm, ty: Seq<u8>) -> bool {
    ||| (t is Ctor && is_qualified(t->Ctor_0, ty))
    ||| (t is Record && is_qualified(t->Record_0, ty))
}

/// The arms as pairs of (variant, value).
pub open spec fn arms_view(arms: Seq<Arm>) -> Seq<(Tm, Tm)> {
    Seq::new(arms.len(), |i: int| (arms[i].variant@, arms[i].value@))
}

/// Converting the enum value `e` with `arms[i..]`: the first arm whose variant matches `e` gives
/// its value, with the variant's bindings. `None` when no arm matches.
pub open spec fn into_from(arms: Seq<(Tm, Tm)>, e: Tm, i: int) -> Option<Tm>
    decreases arms.len() - i,
{
    if i < 0 || i >= arms.len() {
        None
    } else {
        match match_tm(arms[i].0, e, Seq::empty()) {
            Some(env) => inst_tm(arms[i].1, env),
            None => into_from(arms, e, i + 1),
        }
    }
}

/// Converting `v` into the enum with `arms[i..]`: the first arm whose value matches `v` gives
/// its variant, with the value's bindings. `None` when no arm matches.
pub open spec fn enum_from(arms: Seq<(Tm, Tm)>, v: Tm, i: int) -> Option<Tm>
    decreases arms.len() - i,
{
    if i < 0 || i >= arms.len() {
        None
    } else {
        match match_tm(arms[i].1, v, Seq::empty()) {
            Some(env) => inst_tm(arms[i].0, env),
            None => enum_from(arms, v, i + 1),
        }
    }
}

/// The value that `e` converts into.
pub open spec fn convert_into(arms: Seq<(Tm, Tm)>, e: Tm) -> Option<Tm> {
    into_from(arms, e, 0)
}

/// The enum value that `v` converts into.
pub open spec fn convert_from(arms: Seq<(Tm, Tm)>, v: Tm) -> Option<Tm> {
    enum_from(arms, v, 0)
}

/// Both sides of every arm are ground: unit variants and fixed values.
pub open spec fn ground_arms(arms: Seq<(Tm, Tm)>) -> bool {
    forall|i: int| 0 <= i < arms.len() ==> ground(#[trigger] arms[i].0) && ground(arms[i].1)
}

/// No two arms share a variant, and no two arms share a value.
pub open spec fn one_to_one(arms: Seq<(Tm, Tm)>) -> bool {
    forall|i: int, j: int|
        0 <= i < arms.len() && 0 <= j < arms.len() && i != j ==> #[trigger] arms[i].0
            != #[trigger] arms[j].0 && arms[i].1 != arms[j].1
}

proof fn lemma_into_skips(arms: Seq<(Tm, Tm)>, e: Tm, k: int, i: int)
    requires
        0 <= k <= i <= arms.len(),
        forall|j: int| k <= j < i ==> match_tm(#[trigger] arms[j].0, e, Seq::empty()) is None,
    ensures
        into_from(arms, e, k) == into_from(arms, e, i),
    decreases i - k,
{
    if k < i {
        lemma_into_skips(arms, e, k + 1, i);
    }
}

proof fn lemma_from_skips(arms: Seq<(Tm, Tm)>, v: Tm, k: int, i: int)
    requires
        0 <= k <= i <= arms.len(),
        forall|j: int| k <= j < i ==> match_tm(#[trigger] arms[j].1, v, Seq::empty()) is None,
    ensures
        enum_from(arms, v, k) == enum_from(arms, v, i),
    decreases i - k,
{
    if k < i {
        lemma_from_skips(arms, v, k + 1, i);
    }
}

/// Where several arms cover a variant, the first of them decides the value it converts into.
pub proof fn lemma_first_arm_wins_into(arms: Seq<(Tm, Tm)>, e: Tm, i: int, env: Env)
    requires
        0 <= i < arms.len(),
        match_tm(arms[i].0, e, Seq::empty()) == Some(env),
        forall|j: int| 0 <= j < i ==> match_tm(#[trigger] arms[j].0, e, Seq::empty()) is None,
    ensures
        convert_into(arms, e) == inst_tm(arms[i].1, env),
{
    lemma_into_skips(arms, e, 0, i);
}

/// Where several arms cover a value, the first of them decides the variant it converts into.
pub proof fn lemma_first_arm_wins_from(arms: Seq<(Tm, Tm)>, v: Tm, i: int, env: Env)
    requires
        0 <= i < arms.len(),
        match_tm(arms[i].1, v, Seq::empty()) == Some(env),
        forall|j: int| 0 <= j < i ==> match_tm(#[trigger] arms[j].1, v, Seq::empty()) is None,
    ensures
        convert_from(arms, v) == inst_tm(arms[i].0, env),
{
    lemma_from_skips(arms, v, 0, i);
}

/// In a one-to-one mapping of unit variants to fixed values, each variant converts into its
/// value and that value converts back into the variant.
pub proof fn lemma_round_trip(arms: Seq<(Tm, Tm)>, i: int)
    requires
        ground_arms(arms),
        one_to_one(arms),
        0 <= i < arms.len(),
    ensures
        convert_into(arms, arms[i].0) == Some(arms[i].1),
        convert_from(arms, arms[i].1) == Some(arms[i].0),
{
    let empty = Seq::<(Seq<u8>, Tm)>::empty();
    assert forall|j: int| 0 <= j < i implies match_tm(#[trigger] arms[j].0, arms[i].0, empty)
        is None by {
        assert(arms[j].0 != arms[i].0 && arms[j].1 != arms[i].1);
        lemma_ground_match(arms[j].0, arms[i].0, empty);
    }
    assert forall|j: int| 0 <= j < i implies match_tm(#[trigger] arms[j].1, arms[i].1, empty)
        is None by {
        assert(arms[j].0 != arms[i].0 && arms[j].1 != arms[i].1);
        lemma_ground_match(arms[j].1, arms[i].1, empty);
    }
    lemma_ground_match(arms[i].0, arms[i].0, empty);
    lemma_ground_match(arms[i].1, arms[i].1, empty);
    lemma_ground_inst(arms[i].1, empty);
    lemma_ground_inst(arms[i].0, empty);
    lemma_first_arm_wins_into(arms, arms[i].0, i, empty);
    lemma_first_arm_wins_from(arms, arms[i].1, i, empty);
}

proof fn lemma_ground_into_hit(arms: Seq<(Tm, Tm)>, e: Tm, k: int)
    requires
        ground_arms(arms),
        0 <= k <= arms.len(),
        into_from(arms, e, k) is Some,
    ensures
        exists|i: int| k <= i < arms.len() && #[trigger] arms[i].0 == e,
    decreases arms.len() - k,
{
    let empty = Seq::<(Seq<u8>, Tm)>::empty();
    if k < arms.len() {
        lemma_ground_match(arms[k].0, e, empty);
        if arms[k].0 != e {
            lemma_ground_into_hit(arms, e, k + 1);
        }
    }
}

/// In a one-to-one mapping of unit variants to fixed values, converting a variant and then
/// converting back gives the variant again.
pub proof fn lemma_into_then_from(arms: Seq<(Tm, Tm)>, e: Tm)
    requires
        ground_arms(arms),
        one_to_one(arms),
        convert_into(arms, e) is Some,
    ensures
        convert_from(arms, convert_into(arms, e)->Some_0) == Some(e),
{
    lemma_ground_into_hit(arms, e, 0);
    let i = choose|i: int| 0 <= i < arms.len() && #[trigger] arms[i].0 == e;
    lemma_round_trip(arms, i);
}

proof fn lemma_ground_from_domain(arms: Seq<(Tm, Tm)>, v: Tm, k: int)
    requires
        ground_arms(arms),
        0 <= k <= arms.len(),
    ensures
        enum_from(arms, v, k) is Some <==> exists|i: int|
            k <= i < arms.len() && #[trigger] arms[i].1 == v,
    decreases arms.len() - k,
{
    let empty = Seq::<(Seq<u8>, Tm)>::empty();
    if k < arms.len() {
        lemma_ground_match(arms[k].1, v, empty);
        lemma_ground_inst(arms[k].0, empty);
        lemma_ground_from_domain(arms, v, k + 1);
        if exists|i: int| k <= i < arms.len() && #[trigger] arms[i].1 == v {
            let i = choose|i: int| k <= i < arms.len() && #[trigger] arms[i].1 == v;
            if i > k {
                assert(k + 1 <= i < arms.len() && arms[i].1 == v);
            }
        }
    }
}

/// With fixed values, converting into the enum succeeds exactly on the values that some arm
/// lists.
pub proof fn lemma_from_domain(arms: Seq<(Tm, Tm)>, v: Tm)
    requires
        ground_arms(arms),
    ensures
        convert_from(arms, v) is Some <==> exists|i: int|
            0 <= i < arms.len() && #[trigger] arms[i].1 == v,
{
    lemma_ground_from_domain(arms, v, 0);
}

/// Every arm's value reads only names that its variant binds, and holds no `_`.
pub open spec fn scoped_into(arms: Seq<(Tm, Tm)>) -> bool {
    forall|i: int| 0 <= i < arms.len() ==> scoped(#[trigger] arms[i].1, arms[i].0)
}

/// Every arm's variant reads only names that its value binds, and holds no `_`.
pub open spec fn scoped_from(arms: Seq<(Tm, Tm)>) -> bool {
    forall|i: int| 0 <= i < arms.len() ==> scoped(#[trigger] arms[i].0, arms[i].1)
}

proof fn lemma_scoped_into_from(arms: Seq<(Tm, Tm)>, e: Tm, k: int)
    requires
        scoped_into(arms),
        0 <= k <= arms.len(),
    ensures
        into_from(arms, e, k) is Some <==> exists|i: int|
            k <= i < arms.len() && #[trigger] match_tm(arms[i].0, e, Seq::empty()) is Some,
    decreases arms.len() - k,
{
    if k < arms.len() {
        lemma_scoped_into_from(arms, e, k + 1);
        if match_tm(arms[k].0, e, Seq::empty()) is Some {
            lemma_match_then_inst(arms[k].0, e, arms[k].1);
        } else if exists|i: int|
            k <= i < arms.len() && #[trigger] match_tm(arms[i].0, e, Seq::empty()) is Some {
            let i = choose|i: int|
                k <= i < arms.len() && #[trigger] match_tm(arms[i].0, e, Seq::empty()) is Some;
            assert(k + 1 <= i);
        }
    }
}

proof fn lemma_scoped_enum_from(arms: Seq<(Tm, Tm)>, v: Tm, k: int)
    requires
        scoped_from(arms),
        0 <= k <= arms.len(),
    ensures
        enum_from(arms, v, k) is Some <==> exists|i: int|
            k <= i < arms.len() && #[trigger] match_tm(arms[i].1, v, Seq::empty()) is Some,
    decreases arms.len() - k,
{
    if k < arms.len() {
        lemma_scoped_enum_from(arms, v, k + 1);
        if match_tm(arms[k].1, v, Seq::empty()) is Some {
            lemma_match_then_inst(arms[k].1, v, arms[k].0);
        } else if exists|i: int|
            k <= i < arms.len() && #[trigger] match_tm(arms[i].1, v, Seq::empty()) is Some {
            let i = choose|i: int|
                k <= i < arms.len() && #[trigger] match_tm(arms[i].1, v, Seq::empty()) is Some;
            assert(k + 1 <= i);
        }
    }
}

/// Where every arm's value reads only names that its variant binds, a variant converts into a
/// value exactly when some arm's variant pattern matches it.
pub proof fn lemma_into_defined(arms: Seq<(Tm, Tm)>, e: Tm)
    requires
        scoped_into(arms),
    ensures
        convert_into(arms, e) is Some <==> exists|i: int|
            0 <= i < arms.len() && #[trigger] match_tm(arms[i].0, e, Seq::empty()) is Some,
{
    lemma_scoped_into_from(arms, e, 0);
}

/// Where every arm's variant reads only names that its value binds, a value converts into the
/// enum exactly when some arm's value pattern matches it.
pub proof fn lemma_from_defined(arms: Seq<(Tm, Tm)>, v: Tm)
    requires
        scoped_from(arms),
    ensures
        convert_from(arms, v) is Some <==> exists|i: int|
            0 <= i < arms.len() && #[trigger] match_tm(arms[i].1, v, Seq::empty()) is Some,
{
    lemma_scoped_enum_from(arms, v, 0);
}

pub open spec fn opt_view(r: Option<Term>) -> Option<Tm> {
    match r {
        Some(t) => Some(t@),
        None => None,
    }
}

impl EnumMap {
    /// Every arm's variant is a variant of the enum, and the types are not empty.
    pub open spec fn wf(&self) -> bool {
        &&& self.enum_ty@.len() > 0
        &&& self.into_ty@.len() > 0
        &&& self.from_ty@.len() > 0
        &&& forall|i: int|
            0 <= i < self.arms.len() ==> is_variant_of(
                #[trigger] self.arms@[i].variant@,
                self.enum_ty@,
            )
    }

    pub open spec fn pairs(&self) -> Seq<(Tm, Tm)> {
        arms_view(self.arms@)
    }

    /// Converts a value of the enum into the other type: the first arm whose variant pattern
    /// matches gives its value. `None` when no arm covers `e`.
    pub fn into_value(&self, e: &Term) -> (r: Option<Term>)
        ensures
            opt_view(r) == convert_into(self.pairs(), e@),
    {
        let ghost pairs = self.pairs();
        let mut i: usize = 0;
        while i < self.arms.len()
            invariant
                pairs == self.pairs(),
                i <= self.arms.len(),
                into_from(pairs, e@, i as int) == convert_into(pairs, e@),
            decreases self.arms.len() - i,
        {
            let mut env: Vec<Binding> = Vec::new();
            proof {
                assert(env_view(env@) =~= Seq::<(Seq<u8>, Tm)>::empty());
            }
            if match_term(&self.arms[i].variant, e, &mut env) {
                return instantiate(&self.arms[i].value, &env);
            }
            i = i + 1;
        }
        None
    }

    /// Converts a value of the other type into the enum: the first arm whose value pattern
    /// matches gives its variant. `None` when no arm covers `v`.
    pub fn from_value(&self, v: &Term) -> (r: Option<Term>)
        ensures
            opt_view(r) == convert_from(self.pairs(), v@),
    {
        let ghost pairs = self.pairs();
        let mut i: usize = 0;
        while i < self.arms.len()
            invariant
                pairs == self.pairs(),
                i <= self.arms.len(),
                enum_from(pairs, v@, i as int) == convert_from(pairs, v@),
            decreases self.arms.len() - i,
        {
            let mut env: Vec<Binding> = Vec::new();
            proof {
                assert(env_view(env@) =~= Seq::<(Seq<u8>, Tm)>::empty());
            }
            if match_term(&self.arms[i].value, v, &mut env) {
                return instantiate(&self.arms[i].variant, &env);
            }
            i = i + 1;
        }
        None
    }

    /// The fallible form of `from_value`: `Err(())` when no arm covers `v`.
    pub fn try_from_value(&self, v: &Term) -> (r: Result<Term, ()>)
        ensures
            r is Ok <==> convert_from(self.pairs(), v@) is Some,
            r matches Ok(t) ==> convert_from(self.pairs(), v@) == Some(t@),
    {
        match self.from_value(v) {
            Some(t) => Ok(t),
            None => Err(()),
        }
    }
}

} // verus!
