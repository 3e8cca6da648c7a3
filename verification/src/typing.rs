//! Simple types, type inference by constraint generation, and Robinson-style
//! unification with an occurs check.

use vstd::prelude::*;
use crate::names::cand;
use crate::ast::{AST, TermV, free_in, term_size};

verus! {

/// A simple type: a type variable or a function type.
#[derive(Debug)]
pub enum Type {
    Var(String),
    Func(Box<Type>, Box<Type>),
}

/// The mathematical model of a type, with names as character sequences.
pub enum TypeV {
    Var(Seq<char>),
    Func(Box<TypeV>, Box<TypeV>),
}

/// The model of a type value.
pub open spec fn type_view(t: Type) -> TypeV
    decreases t,
{
    match t {
        Type::Var(s) => TypeV::Var(s@),
        Type::Func(t1, t2) => TypeV::Func(Box::new(type_view(*t1)), Box::new(type_view(*t2))),
    }
}

impl View for Type {
    type V = TypeV;

    open spec fn view(&self) -> TypeV {
        type_view(*self)
    }
}

/// An equality constraint between two types.
pub type Equality = (Type, Type);

/// The FIFO queue of constraints: unification consumes from the front and
/// appends decomposed constraints to the back.
pub type Constraints = std::collections::VecDeque<Equality>;

/// One substitution entry: a type-variable name and its replacement type.
pub type VarType = (String, Type);

/// An ordered sequence of substitution entries, in order of discovery;
/// applying them to a type in that exact order is what makes it meaningful.
pub type Unifier = Vec<VarType>;

/// The model of a constraint queue.
pub open spec fn cons_view(s: Seq<(Type, Type)>) -> Seq<(TypeV, TypeV)> {
    s.map_values(|c: (Type, Type)| (c.0@, c.1@))
}

/// The model of a unifier.
pub open spec fn unifier_view(s: Seq<(String, Type)>) -> Seq<(Seq<char>, TypeV)> {
    s.map_values(|u: (String, Type)| (u.0@, u.1@))
}

/// The number of nodes of a type.
pub open spec fn ty_size(t: TypeV) -> nat
    decreases t,
{
    match t {
        TypeV::Var(_) => 1,
        TypeV::Func(a, b) => 1 + ty_size(*a) + ty_size(*b),
    }
}

/// Whether the type variable `x` appears anywhere in `t`.
pub open spec fn appears(t: TypeV, x: Seq<char>) -> bool
    decreases t,
{
    match t {
        TypeV::Var(s) => s == x,
        TypeV::Func(a, b) => appears(*a, x) || appears(*b, x),
    }
}

/// One substitution entry applied to a type: every occurrence of the type
/// variable `u.0` is replaced by `u.1`.
pub open spec fn apply1(u: (Seq<char>, TypeV), t: TypeV) -> TypeV
    decreases t,
{
    match t {
        TypeV::Var(s) => if s == u.0 {
            u.1
        } else {
            t
        },
        TypeV::Func(a, b) => TypeV::Func(Box::new(apply1(u, *a)), Box::new(apply1(u, *b))),
    }
}

/// The entries of `us` applied to `t` in order, first entry first.
pub open spec fn apply_seq(us: Seq<(Seq<char>, TypeV)>, t: TypeV) -> TypeV
    decreases us.len(),
{
    if us.len() == 0 {
        t
    } else {
        apply_seq(us.drop_first(), apply1(us[0], t))
    }
}

/// Whether applying `us` in order makes both sides of every constraint of
/// `cs` syntactically equal.
pub open spec fn unifies(us: Seq<(Seq<char>, TypeV)>, cs: Seq<(TypeV, TypeV)>) -> bool {
    forall|i: int|
        0 <= i < cs.len() ==> apply_seq(us, (#[trigger] cs[i]).0) == apply_seq(us, cs[i].1)
}

/// One substitution entry applied to both sides of every constraint.
pub open spec fn apply1_queue(u: (Seq<char>, TypeV), cs: Seq<(TypeV, TypeV)>) -> Seq<
    (TypeV, TypeV),
> {
    cs.map_values(|c: (TypeV, TypeV)| (apply1(u, c.0), apply1(u, c.1)))
}

/// Whether the first constraint of `cs` binds a type variable to a different
/// type in which that variable occurs: the occurs-check boundary on which no
/// unifier can exist.
pub open spec fn occurs_first(cs: Seq<(TypeV, TypeV)>) -> bool {
    cs.len() > 0 && match cs[0].0 {
        TypeV::Var(x) => appears(cs[0].1, x) && cs[0].1 != TypeV::Var(x),
        TypeV::Func(_, _) => false,
    }
}

/// Whether some substitution sequence unifies every constraint of `cs`.
pub open spec fn solvable(cs: Seq<(TypeV, TypeV)>) -> bool {
    exists|us: Seq<(Seq<char>, TypeV)>| unifies(us, cs)
}

/// Whether `us2` factors through `acc`: applying the entries of `acc` first
/// and then `us2` gives the same result as `us2` alone, on every type. This
/// is what makes a computed unifier most general: any other unifier of the
/// constraints is itself composed with it.
pub open spec fn factors_through(
    us2: Seq<(Seq<char>, TypeV)>,
    acc: Seq<(Seq<char>, TypeV)>,
) -> bool {
    forall|ty: TypeV| #[trigger] apply_seq(us2, ty) == apply_seq(acc + us2, ty)
}

/// The shape of a computed unifier: every bound name is a type variable of
/// the constraints, and each entry's bound name is eliminated from the rest
/// of the run: it is never bound again and never occurs in a later entry's
/// replacement type.
pub open spec fn eliminated_in_order(
    uv: Seq<(Seq<char>, TypeV)>,
    vars: Set<Seq<char>>,
) -> bool {
    forall|i: int|
        0 <= i < uv.len() ==> vars.contains((#[trigger] uv[i]).0) && (forall|j: int|
            i < j < uv.len() ==> uv[j].0 != uv[i].0 && !appears(uv[j].1, uv[i].0))
}

proof fn lemma_apply_seq_size(us: Seq<(Seq<char>, TypeV)>, t: TypeV, x: Seq<char>)
    requires
        appears(t, x),
    ensures
        ty_size(apply_seq(us, t)) >= ty_size(apply_seq(us, TypeV::Var(x))),
        (t matches TypeV::Func(_, _)) ==> ty_size(apply_seq(us, t)) > ty_size(
            apply_seq(us, TypeV::Var(x)),
        ),
    decreases t,
{
    match t {
        TypeV::Var(_) => {},
        TypeV::Func(a, b) => {
            lemma_apply_seq_func(us, *a, *b);
            lemma_ty_size_pos(apply_seq(us, *a));
            lemma_ty_size_pos(apply_seq(us, *b));
            if appears(*a, x) {
                lemma_apply_seq_size(us, *a, x);
            } else {
                lemma_apply_seq_size(us, *b, x);
            }
        },
    }
}

/// A type variable occurring properly inside a type can never be unified
/// with it: under any substitution sequence the two sides keep different
/// sizes, the seed of the occurs check.
proof fn lemma_occurs_no_unifier(x: Seq<char>, t: TypeV, us: Seq<(Seq<char>, TypeV)>)
    requires
        appears(t, x),
        t != TypeV::Var(x),
    ensures
        apply_seq(us, TypeV::Var(x)) != apply_seq(us, t),
{
    match t {
        TypeV::Var(_) => {
            assert(false);
        },
        TypeV::Func(_, _) => {
            lemma_apply_seq_size(us, t, x);
        },
    }
}

/// Once a substitution sequence equates a variable with a type, applying the
/// corresponding entry first changes nothing under that sequence.
proof fn lemma_apply1_then_seq(u: (Seq<char>, TypeV), s: TypeV, us: Seq<(Seq<char>, TypeV)>)
    requires
        apply_seq(us, TypeV::Var(u.0)) == apply_seq(us, u.1),
    ensures
        apply_seq(us, apply1(u, s)) == apply_seq(us, s),
    decreases s,
{
    match s {
        TypeV::Var(_) => {},
        TypeV::Func(a, b) => {
            lemma_apply1_then_seq(u, *a, us);
            lemma_apply1_then_seq(u, *b, us);
            lemma_apply_seq_func(us, apply1(u, *a), apply1(u, *b));
            lemma_apply_seq_func(us, *a, *b);
        },
    }
}

proof fn lemma_apply_seq_concat(a: Seq<(Seq<char>, TypeV)>, b: Seq<(Seq<char>, TypeV)>, t: TypeV)
    ensures
        apply_seq(a + b, t) == apply_seq(b, apply_seq(a, t)),
    decreases a.len(),
{
    if a.len() == 0 {
        assert(a + b =~= b);
    } else {
        assert((a + b).drop_first() =~= a.drop_first() + b);
        assert((a + b)[0] == a[0]);
        lemma_apply_seq_concat(a.drop_first(), b, apply1(a[0], t));
    }
}

proof fn lemma_apply_seq_func(us: Seq<(Seq<char>, TypeV)>, a: TypeV, b: TypeV)
    ensures
        apply_seq(us, TypeV::Func(Box::new(a), Box::new(b))) == TypeV::Func(
            Box::new(apply_seq(us, a)),
            Box::new(apply_seq(us, b)),
        ),
    decreases us.len(),
{
    if us.len() > 0 {
        lemma_apply_seq_func(us.drop_first(), apply1(us[0], a), apply1(us[0], b));
    }
}

proof fn lemma_apply1_absent(u: (Seq<char>, TypeV), t: TypeV)
    requires
        !appears(t, u.0),
    ensures
        apply1(u, t) == t,
    decreases t,
{
    match t {
        TypeV::Var(_) => {},
        TypeV::Func(a, b) => {
            lemma_apply1_absent(u, *a);
            lemma_apply1_absent(u, *b);
        },
    }
}

/// The set of type variables of a type.
pub open spec fn ty_vars(t: TypeV) -> Set<Seq<char>>
    decreases t,
{
    match t {
        TypeV::Var(s) => Set::empty().insert(s),
        TypeV::Func(a, b) => ty_vars(*a).union(ty_vars(*b)),
    }
}

proof fn lemma_ty_vars_appears(t: TypeV, x: Seq<char>)
    ensures
        ty_vars(t).contains(x) == appears(t, x),
        ty_vars(t).finite(),
    decreases t,
{
    broadcast use vstd::set::group_set_axioms;

    match t {
        TypeV::Var(_) => {},
        TypeV::Func(a, b) => {
            lemma_ty_vars_appears(*a, x);
            lemma_ty_vars_appears(*b, x);
        },
    }
}

/// The set of type variables of a queue of constraints.
pub open spec fn q_vars(cs: Seq<(TypeV, TypeV)>) -> Set<Seq<char>>
    decreases cs.len(),
{
    if cs.len() == 0 {
        Set::empty()
    } else {
        ty_vars(cs[0].0).union(ty_vars(cs[0].1)).union(q_vars(cs.drop_first()))
    }
}

/// The total size of a queue of constraints.
pub open spec fn q_size(cs: Seq<(TypeV, TypeV)>) -> nat
    decreases cs.len(),
{
    if cs.len() == 0 {
        0
    } else {
        ty_size(cs[0].0) + ty_size(cs[0].1) + q_size(cs.drop_first())
    }
}

proof fn lemma_q_vars_finite(cs: Seq<(TypeV, TypeV)>)
    ensures
        q_vars(cs).finite(),
    decreases cs.len(),
{
    broadcast use vstd::set::group_set_axioms;

    if cs.len() > 0 {
        lemma_ty_vars_appears(cs[0].0, Seq::empty());
        lemma_ty_vars_appears(cs[0].1, Seq::empty());
        lemma_q_vars_finite(cs.drop_first());
    }
}

proof fn lemma_q_vars_concat(a: Seq<(TypeV, TypeV)>, b: Seq<(TypeV, TypeV)>)
    ensures
        q_vars(a + b) == q_vars(a).union(q_vars(b)),
        q_size(a + b) == q_size(a) + q_size(b),
    decreases a.len(),
{
    broadcast use vstd::set::group_set_axioms;

    if a.len() == 0 {
        assert(a + b =~= b);
        assert(q_vars(a).union(q_vars(b)) =~= q_vars(b));
    } else {
        assert((a + b).drop_first() =~= a.drop_first() + b);
        assert((a + b)[0] == a[0]);
        lemma_q_vars_concat(a.drop_first(), b);
        assert(q_vars(a + b) =~= q_vars(a).union(q_vars(b)));
    }
}

proof fn lemma_apply1_vars(u: (Seq<char>, TypeV), t: TypeV, y: Seq<char>)
    requires
        ty_vars(apply1(u, t)).contains(y),
    ensures
        (ty_vars(t).contains(y) && y != u.0) || ty_vars(u.1).contains(y),
    decreases t,
{
    broadcast use vstd::set::group_set_axioms;

    match t {
        TypeV::Var(s) => {
            if s != u.0 {
                lemma_ty_vars_appears(t, y);
            }
        },
        TypeV::Func(a, b) => {
            if ty_vars(apply1(u, *a)).contains(y) {
                lemma_apply1_vars(u, *a, y);
            } else {
                lemma_apply1_vars(u, *b, y);
            }
        },
    }
}

proof fn lemma_apply1_queue_vars(u: (Seq<char>, TypeV), cs: Seq<(TypeV, TypeV)>, y: Seq<char>)
    requires
        q_vars(apply1_queue(u, cs)).contains(y),
    ensures
        (q_vars(cs).contains(y) && y != u.0) || ty_vars(u.1).contains(y),
    decreases cs.len(),
{
    broadcast use vstd::set::group_set_axioms;

    if cs.len() > 0 {
        let mapped = apply1_queue(u, cs);
        assert(mapped[0] == (apply1(u, cs[0].0), apply1(u, cs[0].1)));
        assert(mapped.drop_first() =~= apply1_queue(u, cs.drop_first()));
        if ty_vars(mapped[0].0).contains(y) {
            lemma_apply1_vars(u, cs[0].0, y);
        } else if ty_vars(mapped[0].1).contains(y) {
            lemma_apply1_vars(u, cs[0].1, y);
        } else {
            lemma_apply1_queue_vars(u, cs.drop_first(), y);
        }
    }
}

impl Type {
    /// A structural copy of this type.
    pub fn duplicate(&self) -> (r: Type)
        ensures
            r@ == self@,
        decreases *self,
    {
        match self {
            Type::Var(s) => Type::Var(s.clone()),
            Type::Func(a, b) => Type::Func(Box::new(a.duplicate()), Box::new(b.duplicate())),
        }
    }

    /// Structural equality of two types: exact syntactic equality.
    pub fn equals(&self, other: &Type) -> (b: bool)
        ensures
            b == (self@ == other@),
        decreases *self,
    {
        match (self, other) {
            (Type::Var(s1), Type::Var(s2)) => *s1 == *s2,
            (Type::Func(a1, b1), Type::Func(a2, b2)) => {
                let ba = a1.equals(a2);
                let bb = b1.equals(b2);
                ba && bb
            },
            _ => {
                proof {
                    assert(self@ != other@);
                }
                false
            },
        }
    }

    /// One substitution entry applied to this type.
    pub fn unify(&self, u: &VarType) -> (r: Type)
        ensures
            r@ == apply1((u.0@, u.1@), self@),
        decreases *self,
    {
        match self {
            Type::Var(s) => if *s == u.0 {
                u.1.duplicate()
            } else {
                self.duplicate()
            },
            Type::Func(op, v) => Type::Func(Box::new(op.unify(u)), Box::new(v.unify(u))),
        }
    }

    /// The occurs check: whether the type variable `x` appears in this type.
    pub fn appear(&self, x: &String) -> (b: bool)
        ensures
            b == appears(self@, x@),
        decreases *self,
    {
        match self {
            Type::Var(s) => *s == *x,
            Type::Func(op, v) => op.appear(x) || v.appear(x),
        }
    }
}

/// Moves every constraint of `c_src`, front to back, onto the back of
/// `c_dst`, preserving the relative order of both queues.
pub fn merge(c_dst: &mut Constraints, c_src: Constraints)
    ensures
        final(c_dst)@ == old(c_dst)@ + c_src@,
{
    let mut src = c_src;
    let ghost orig = src@;
    proof {
        assert(orig.take(0) =~= Seq::<(Type, Type)>::empty());
        assert(c_dst@ =~= old(c_dst)@ + orig.take(0));
        assert(orig.skip(0) =~= orig);
    }
    while src.len() > 0
        invariant
            src@.len() <= orig.len(),
            c_dst@ == old(c_dst)@ + orig.take(orig.len() - src@.len()),
            orig.skip(orig.len() - src@.len()) == src@,
        decreases src@.len(),
    {
        let ghost k = orig.len() - src@.len();
        let c = src.pop_front().unwrap();
        c_dst.push_back(c);
        proof {
            assert(orig[k] == c);
            assert(orig.take(k + 1) =~= orig.take(k).push(c));
            assert(c_dst@ =~= old(c_dst)@ + orig.take(k + 1));
            assert(orig.skip(k + 1) =~= src@);
        }
    }
    proof {
        assert(orig.take(orig.len() as int) =~= orig);
    }
}

/// One substitution entry applied to both sides of every constraint: drains
/// `constraints` from the front and returns the substituted queue in the same
/// order.
pub fn unify(constraints: &mut Constraints, u: &VarType) -> (r: Constraints)
    ensures
        cons_view(r@) == apply1_queue((u.0@, u.1@), cons_view(old(constraints)@)),
        final(constraints)@.len() == 0,
{
    let ghost orig = constraints@;
    let ghost uv = (u.0@, u.1@);
    let mut unified_constraints: Constraints = std::collections::VecDeque::new();
    proof {
        assert(orig.take(0) =~= Seq::<(Type, Type)>::empty());
        assert(orig.skip(0) =~= orig);
        assert(cons_view(orig.take(0)) =~= Seq::<(TypeV, TypeV)>::empty());
        assert(cons_view(unified_constraints@) =~= apply1_queue(uv, cons_view(orig.take(0))));
    }
    while constraints.len() > 0
        invariant
            constraints@.len() <= orig.len(),
            orig.skip(orig.len() - constraints@.len()) == constraints@,
            cons_view(unified_constraints@) == apply1_queue(
                uv,
                cons_view(orig.take(orig.len() - constraints@.len())),
            ),
            uv == (u.0@, u.1@),
        decreases constraints@.len(),
    {
        let ghost k = orig.len() - constraints@.len();
        let c = constraints.pop_front().unwrap();
        let c0 = c.0.unify(u);
        let c1 = c.1.unify(u);
        unified_constraints.push_back((c0, c1));
        proof {
            assert(orig[k] == c);
            assert(orig.take(k + 1) =~= orig.take(k).push(c));
            assert(orig.skip(k + 1) =~= constraints@);
            assert(cons_view(orig.take(k + 1)) =~= cons_view(orig.take(k)).push((c.0@, c.1@)));
            assert(apply1_queue(uv, cons_view(orig.take(k)).push((c.0@, c.1@))) =~= apply1_queue(
                uv,
                cons_view(orig.take(k)),
            ).push((apply1(uv, c.0@), apply1(uv, c.1@))));
            assert(cons_view(unified_constraints@) =~= apply1_queue(
                uv,
                cons_view(orig.take(k + 1)),
            ));
        }
    }
    proof {
        assert(orig.take(orig.len() as int) =~= orig);
    }
    unified_constraints
}

proof fn lemma_q_vars_singleton(c: (TypeV, TypeV))
    ensures
        q_vars(seq![c]) == ty_vars(c.0).union(ty_vars(c.1)),
        q_size(seq![c]) == ty_size(c.0) + ty_size(c.1),
{
    broadcast use vstd::set::group_set_axioms;

    let s: Seq<(TypeV, TypeV)> = seq![c];
    assert(s.len() == 1);
    assert(s[0] == c);
    assert(s.drop_first() =~= Seq::<(TypeV, TypeV)>::empty());
    assert(s.drop_first().len() == 0);
    assert(q_vars(s.drop_first()) =~= Set::<Seq<char>>::empty());
    assert(q_size(s.drop_first()) == 0);
    assert(q_vars(s) =~= ty_vars(c.0).union(ty_vars(c.1)));
}

proof fn lemma_ty_size_pos(t: TypeV)
    ensures
        ty_size(t) >= 1,
{
    match t {
        TypeV::Var(_) => {},
        TypeV::Func(_, _) => {},
    }
}

/// Invariant maintenance for the variable-elimination step of `calculate_mgu`:
/// after recording the entry `u` and substituting it through the rest of the
/// queue, any unifier of the substituted queue, prefixed by `u`, unifies the
/// queue as it stood before the pop.
proof fn mgu_eliminate_ghost(
    pre_work: Seq<(TypeV, TypeV)>,
    rest: Seq<(TypeV, TypeV)>,
    pre_uni: Seq<(Seq<char>, TypeV)>,
    orig: Seq<(TypeV, TypeV)>,
    u: (Seq<char>, TypeV),
)
    requires
        pre_work.len() > 0,
        pre_work.drop_first() == rest,
        pre_work[0] == (TypeV::Var(u.0), u.1) || pre_work[0] == (u.1, TypeV::Var(u.0)),
        !appears(u.1, u.0),
        forall|us2: Seq<(Seq<char>, TypeV)>|
            #[trigger] unifies(us2, pre_work) ==> unifies(pre_uni + us2, orig),
    ensures
        forall|us2: Seq<(Seq<char>, TypeV)>|
            #[trigger] unifies(us2, apply1_queue(u, rest)) ==> unifies(
                pre_uni.push(u) + us2,
                orig,
            ),
        forall|us2: Seq<(Seq<char>, TypeV)>|
            #[trigger] unifies(us2, pre_work) ==> unifies(us2, apply1_queue(u, rest)),
        forall|us2: Seq<(Seq<char>, TypeV)>|
            #[trigger] unifies(us2, pre_work) ==> apply_seq(us2, TypeV::Var(u.0)) == apply_seq(
                us2,
                u.1,
            ),
        q_vars(apply1_queue(u, rest)).len() < q_vars(pre_work).len(),
        q_vars(apply1_queue(u, rest)).subset_of(q_vars(pre_work)),
        !q_vars(apply1_queue(u, rest)).contains(u.0),
        q_vars(pre_work).contains(u.0),
        ty_vars(u.1).subset_of(q_vars(pre_work)),
{
    broadcast use vstd::set::group_set_axioms;

    let cv = pre_work[0];
    let new_q = apply1_queue(u, rest);
    assert(seq![cv] + rest =~= pre_work);
    lemma_q_vars_concat(seq![cv], rest);
    lemma_q_vars_singleton(cv);
    lemma_ty_vars_appears(cv.0, u.0);
    lemma_ty_vars_appears(cv.1, u.0);
    // the variable equation every unifier of the old queue satisfies, and
    // the preservation of such a unifier through the substituted queue
    assert forall|us2: Seq<(Seq<char>, TypeV)>| #[trigger]
        unifies(us2, pre_work) implies unifies(us2, new_q) && apply_seq(us2, TypeV::Var(u.0))
        == apply_seq(us2, u.1) by {
        assert(apply_seq(us2, pre_work[0].0) == apply_seq(us2, pre_work[0].1));
        assert forall|k: int| 0 <= k < new_q.len() implies apply_seq(
            us2,
            (#[trigger] new_q[k]).0,
        ) == apply_seq(us2, new_q[k].1) by {
            let c = rest[k];
            assert(pre_work[k + 1] == c);
            assert(apply_seq(us2, c.0) == apply_seq(us2, c.1));
            assert(new_q[k] == (apply1(u, c.0), apply1(u, c.1)));
            lemma_apply1_then_seq(u, c.0, us2);
            lemma_apply1_then_seq(u, c.1, us2);
        };
    };
    // soundness of the step
    assert forall|us2: Seq<(Seq<char>, TypeV)>| #[trigger]
        unifies(us2, new_q) implies unifies(pre_uni.push(u) + us2, orig) by {
        let ext = seq![u] + us2;
        assert forall|j: int| 0 <= j < pre_work.len() implies apply_seq(
            ext,
            (#[trigger] pre_work[j]).0,
        ) == apply_seq(ext, pre_work[j].1) by {
            assert(ext.drop_first() =~= us2);
            assert(ext[0] == u);
            if j == 0 {
                lemma_apply1_absent(u, u.1);
                assert(apply1(u, TypeV::Var(u.0)) == u.1);
                assert(apply_seq(ext, TypeV::Var(u.0)) == apply_seq(us2, u.1));
                assert(apply_seq(ext, u.1) == apply_seq(us2, u.1));
            } else {
                let c = pre_work[j];
                assert(rest[j - 1] == c);
                assert(new_q[j - 1] == (apply1(u, c.0), apply1(u, c.1)));
                assert(apply_seq(us2, new_q[j - 1].0) == apply_seq(us2, new_q[j - 1].1));
                assert(apply_seq(ext, c.0) == apply_seq(us2, apply1(u, c.0)));
                assert(apply_seq(ext, c.1) == apply_seq(us2, apply1(u, c.1)));
            }
        };
        assert(unifies(ext, pre_work));
        assert(unifies(pre_uni + ext, orig));
        assert(pre_uni.push(u) + us2 =~= pre_uni + ext);
    };
    // the eliminated variable leaves the queue, so the variable set shrinks
    lemma_q_vars_finite(pre_work);
    lemma_q_vars_finite(new_q);
    lemma_ty_vars_appears(u.1, u.0);
    assert(ty_vars(TypeV::Var(u.0)).contains(u.0));
    assert(q_vars(pre_work).contains(u.0));
    assert forall|y: Seq<char>| q_vars(new_q).contains(y) implies q_vars(pre_work).contains(y)
        && y != u.0 by {
        lemma_apply1_queue_vars(u, rest, y);
        if q_vars(rest).contains(y) && y != u.0 {
        } else {
            assert(ty_vars(u.1).contains(y));
            lemma_ty_vars_appears(u.1, y);
        }
    };
    assert(q_vars(new_q).subset_of(q_vars(pre_work).remove(u.0)));
    vstd::set_lib::lemma_len_subset(q_vars(new_q), q_vars(pre_work).remove(u.0));
    assert(q_vars(pre_work).remove(u.0).len() == q_vars(pre_work).len() - 1);
}

/// Invariant maintenance for the decomposition step of `calculate_mgu`: any
/// unifier of the queue extended with the two component constraints also
/// unifies the queue with the function-type constraint at its front, and the
/// step keeps the variable set and shrinks the total size.
proof fn mgu_decompose_ghost(
    pre_work: Seq<(TypeV, TypeV)>,
    rest: Seq<(TypeV, TypeV)>,
    pre_uni: Seq<(Seq<char>, TypeV)>,
    orig: Seq<(TypeV, TypeV)>,
    p1: TypeV,
    r1: TypeV,
    p2: TypeV,
    r2: TypeV,
    new_q: Seq<(TypeV, TypeV)>,
)
    requires
        pre_work.len() > 0,
        pre_work.drop_first() == rest,
        pre_work[0] == (
            TypeV::Func(Box::new(p1), Box::new(r1)),
            TypeV::Func(Box::new(p2), Box::new(r2)),
        ),
        new_q == rest + seq![(p1, p2), (r1, r2)],
        forall|us2: Seq<(Seq<char>, TypeV)>|
            #[trigger] unifies(us2, pre_work) ==> unifies(pre_uni + us2, orig),
        forall|us2: Seq<(Seq<char>, TypeV)>|
            #[trigger] unifies(us2, orig) ==> unifies(us2, pre_work) && factors_through(
                us2,
                pre_uni,
            ),
        q_vars(pre_work).subset_of(q_vars(orig)),
        forall|i: int|
            0 <= i < pre_uni.len() ==> !q_vars(pre_work).contains((#[trigger] pre_uni[i]).0),
    ensures
        forall|us2: Seq<(Seq<char>, TypeV)>|
            #[trigger] unifies(us2, new_q) ==> unifies(pre_uni + us2, orig),
        forall|us2: Seq<(Seq<char>, TypeV)>|
            #[trigger] unifies(us2, orig) ==> unifies(us2, new_q) && factors_through(
                us2,
                pre_uni,
            ),
        q_vars(new_q).subset_of(q_vars(orig)),
        forall|i: int|
            0 <= i < pre_uni.len() ==> !q_vars(new_q).contains((#[trigger] pre_uni[i]).0),
        q_vars(new_q).len() <= q_vars(pre_work).len(),
        q_size(new_q) < q_size(pre_work),
{
    lemma_q_vars_finite(pre_work);
    broadcast use vstd::set::group_set_axioms;

    let cv = pre_work[0];
    let added: Seq<(TypeV, TypeV)> = seq![(p1, p2), (r1, r2)];
    // a unifier of the old queue also unifies the decomposed queue: equal
    // function types have equal domains and equal codomains
    assert forall|us2: Seq<(Seq<char>, TypeV)>| #[trigger]
        unifies(us2, pre_work) implies unifies(us2, new_q) by {
        assert(apply_seq(us2, pre_work[0].0) == apply_seq(us2, pre_work[0].1));
        lemma_apply_seq_func(us2, p1, r1);
        lemma_apply_seq_func(us2, p2, r2);
        assert forall|k: int| 0 <= k < new_q.len() implies apply_seq(
            us2,
            (#[trigger] new_q[k]).0,
        ) == apply_seq(us2, new_q[k].1) by {
            if k < rest.len() {
                assert(new_q[k] == rest[k]);
                assert(pre_work[k + 1] == rest[k]);
                assert(apply_seq(us2, rest[k].0) == apply_seq(us2, rest[k].1));
            } else {
                assert(new_q[new_q.len() - 2] == (p1, p2));
                assert(new_q[new_q.len() - 1] == (r1, r2));
            }
        };
    };
    assert(seq![cv] + rest =~= pre_work);
    lemma_q_vars_concat(seq![cv], rest);
    lemma_q_vars_concat(rest, added);
    lemma_q_vars_singleton(cv);
    assert(added =~= seq![(p1, p2)] + seq![(r1, r2)]);
    lemma_q_vars_concat(seq![(p1, p2)], seq![(r1, r2)]);
    lemma_q_vars_singleton((p1, p2));
    lemma_q_vars_singleton((r1, r2));
    assert(q_vars(added) =~= ty_vars(cv.0).union(ty_vars(cv.1)));
    assert(q_vars(new_q).subset_of(q_vars(pre_work)));
    assert(q_size(added) == ty_size(p1) + ty_size(p2) + ty_size(r1) + ty_size(r2));
    assert(q_size(seq![cv] + rest) == q_size(seq![cv]) + q_size(rest));
    assert(q_size(seq![cv]) == ty_size(cv.0) + ty_size(cv.1));
    assert(ty_size(cv.0) == 1 + ty_size(p1) + ty_size(r1));
    assert(ty_size(cv.1) == 1 + ty_size(p2) + ty_size(r2));
    assert forall|us2: Seq<(Seq<char>, TypeV)>| #[trigger]
        unifies(us2, new_q) implies unifies(pre_uni + us2, orig) by {
        assert forall|j: int| 0 <= j < pre_work.len() implies apply_seq(
            us2,
            (#[trigger] pre_work[j]).0,
        ) == apply_seq(us2, pre_work[j].1) by {
            if j == 0 {
                assert(new_q[new_q.len() - 2] == (p1, p2));
                assert(new_q[new_q.len() - 1] == (r1, r2));
                assert(apply_seq(us2, p1) == apply_seq(us2, p2));
                assert(apply_seq(us2, r1) == apply_seq(us2, r2));
                lemma_apply_seq_func(us2, p1, r1);
                lemma_apply_seq_func(us2, p2, r2);
            } else {
                assert(new_q[j - 1] == rest[j - 1]);
                assert(apply_seq(us2, rest[j - 1].0) == apply_seq(us2, rest[j - 1].1));
                assert(pre_work[j] == rest[j - 1]);
            }
        };
        assert(unifies(us2, pre_work));
    };
    vstd::set_lib::lemma_len_subset(q_vars(new_q), q_vars(pre_work));
    assert forall|y: Seq<char>| q_vars(new_q).contains(y) implies q_vars(orig).contains(y) by {
        assert(q_vars(pre_work).contains(y));
    };
    assert forall|i: int|
        0 <= i < pre_uni.len() implies !q_vars(new_q).contains((#[trigger] pre_uni[i]).0) by {
        if q_vars(new_q).contains(pre_uni[i].0) {
            assert(q_vars(pre_work).contains(pre_uni[i].0));
        }
    };
}

/// Re-establishes the invariants of `calculate_mgu` after discarding a
/// constraint whose two sides are already equal.
proof fn mgu_discard_restore_ghost(
    pre_work: Seq<(TypeV, TypeV)>,
    rest: Seq<(TypeV, TypeV)>,
    pre_uni: Seq<(Seq<char>, TypeV)>,
    orig: Seq<(TypeV, TypeV)>,
)
    requires
        pre_work.len() > 0,
        pre_work.drop_first() == rest,
        pre_work[0].0 == pre_work[0].1,
        forall|us2: Seq<(Seq<char>, TypeV)>|
            #[trigger] unifies(us2, pre_work) ==> unifies(pre_uni + us2, orig),
        forall|us2: Seq<(Seq<char>, TypeV)>|
            #[trigger] unifies(us2, orig) ==> unifies(us2, pre_work) && factors_through(
                us2,
                pre_uni,
            ),
        q_vars(pre_work).subset_of(q_vars(orig)),
        forall|i: int|
            0 <= i < pre_uni.len() ==> !q_vars(pre_work).contains((#[trigger] pre_uni[i]).0),
    ensures
        forall|us2: Seq<(Seq<char>, TypeV)>|
            #[trigger] unifies(us2, rest) ==> unifies(pre_uni + us2, orig),
        forall|us2: Seq<(Seq<char>, TypeV)>|
            #[trigger] unifies(us2, orig) ==> unifies(us2, rest) && factors_through(
                us2,
                pre_uni,
            ),
        q_vars(rest).subset_of(q_vars(orig)),
        forall|i: int|
            0 <= i < pre_uni.len() ==> !q_vars(rest).contains((#[trigger] pre_uni[i]).0),
        q_vars(rest).len() <= q_vars(pre_work).len(),
        q_size(rest) < q_size(pre_work),
{
    broadcast use vstd::set::group_set_axioms;

    let cv = pre_work[0];
    assert(seq![cv] + rest =~= pre_work);
    lemma_q_vars_concat(seq![cv], rest);
    lemma_q_vars_singleton(cv);
    lemma_q_vars_finite(pre_work);
    lemma_ty_size_pos(cv.0);
    assert(q_size(seq![cv] + rest) == q_size(seq![cv]) + q_size(rest));
    assert forall|us2: Seq<(Seq<char>, TypeV)>| #[trigger]
        unifies(us2, rest) implies unifies(pre_uni + us2, orig) by {
        assert forall|j: int| 0 <= j < pre_work.len() implies apply_seq(
            us2,
            (#[trigger] pre_work[j]).0,
        ) == apply_seq(us2, pre_work[j].1) by {
            if j > 0 {
                assert(pre_work[j] == rest[j - 1]);
            }
        };
        assert(unifies(us2, pre_work));
    };
    assert forall|us2: Seq<(Seq<char>, TypeV)>| #[trigger]
        unifies(us2, orig) implies unifies(us2, rest) && factors_through(us2, pre_uni) by {
        assert(unifies(us2, pre_work));
        assert forall|k: int| 0 <= k < rest.len() implies apply_seq(
            us2,
            (#[trigger] rest[k]).0,
        ) == apply_seq(us2, rest[k].1) by {
            assert(pre_work[k + 1] == rest[k]);
            assert(apply_seq(us2, pre_work[k + 1].0) == apply_seq(us2, pre_work[k + 1].1));
        };
    };
    assert forall|y: Seq<char>| q_vars(rest).contains(y) implies q_vars(orig).contains(y) by {
        assert(q_vars(pre_work).contains(y));
    };
    assert forall|i: int|
        0 <= i < pre_uni.len() implies !q_vars(rest).contains((#[trigger] pre_uni[i]).0) by {
        if q_vars(rest).contains(pre_uni[i].0) {
            assert(q_vars(pre_work).contains(pre_uni[i].0));
        }
    };
    vstd::set_lib::lemma_len_subset(q_vars(rest), q_vars(pre_work));
}

/// When the popped constraint binds a variable to a different type in which
/// it occurs, the original constraints have no unifier at all.
proof fn mgu_occurs_unsolvable_ghost(
    pre_work: Seq<(TypeV, TypeV)>,
    orig: Seq<(TypeV, TypeV)>,
    u: (Seq<char>, TypeV),
)
    requires
        pre_work.len() > 0,
        pre_work[0] == (TypeV::Var(u.0), u.1) || pre_work[0] == (u.1, TypeV::Var(u.0)),
        appears(u.1, u.0),
        u.1 != TypeV::Var(u.0),
        forall|us2: Seq<(Seq<char>, TypeV)>|
            #[trigger] unifies(us2, orig) ==> unifies(us2, pre_work),
    ensures
        !solvable(orig),
{
    if solvable(orig) {
        let us2 = choose|us2: Seq<(Seq<char>, TypeV)>| unifies(us2, orig);
        assert(unifies(us2, pre_work));
        assert(apply_seq(us2, pre_work[0].0) == apply_seq(us2, pre_work[0].1));
        lemma_occurs_no_unifier(u.0, u.1, us2);
        assert(false);
    }
}

/// Re-establishes the preservation, factoring and shape invariants of
/// `calculate_mgu` after one variable-elimination step: the queue was
/// substituted through with the entry `u`, which was appended to the
/// accumulated unifier.
proof fn mgu_step_restore_ghost(
    pre_work: Seq<(TypeV, TypeV)>,
    pre_uni: Seq<(Seq<char>, TypeV)>,
    orig: Seq<(TypeV, TypeV)>,
    u: (Seq<char>, TypeV),
    new_work: Seq<(TypeV, TypeV)>,
)
    requires
        forall|us2: Seq<(Seq<char>, TypeV)>|
            #[trigger] unifies(us2, pre_work) ==> unifies(us2, new_work),
        forall|us2: Seq<(Seq<char>, TypeV)>|
            #[trigger] unifies(us2, pre_work) ==> apply_seq(us2, TypeV::Var(u.0)) == apply_seq(
                us2,
                u.1,
            ),
        q_vars(pre_work).contains(u.0),
        ty_vars(u.1).subset_of(q_vars(pre_work)),
        !q_vars(new_work).contains(u.0),
        q_vars(new_work).subset_of(q_vars(pre_work)),
        forall|us2: Seq<(Seq<char>, TypeV)>|
            #[trigger] unifies(us2, orig) ==> unifies(us2, pre_work) && factors_through(
                us2,
                pre_uni,
            ),
        q_vars(pre_work).subset_of(q_vars(orig)),
        eliminated_in_order(pre_uni, q_vars(orig)),
        forall|i: int|
            0 <= i < pre_uni.len() ==> !q_vars(pre_work).contains((#[trigger] pre_uni[i]).0),
    ensures
        forall|us2: Seq<(Seq<char>, TypeV)>|
            #[trigger] unifies(us2, orig) ==> unifies(us2, new_work) && factors_through(
                us2,
                pre_uni.push(u),
            ),
        q_vars(new_work).subset_of(q_vars(orig)),
        eliminated_in_order(pre_uni.push(u), q_vars(orig)),
        forall|i: int|
            0 <= i < pre_uni.push(u).len() ==> !q_vars(new_work).contains(
                (#[trigger] pre_uni.push(u)[i]).0,
            ),
{
    broadcast use vstd::set::group_set_axioms;

    let npu = pre_uni.push(u);
    assert forall|us2: Seq<(Seq<char>, TypeV)>| #[trigger]
        unifies(us2, orig) implies unifies(us2, new_work) && factors_through(us2, npu) by {
        assert(unifies(us2, pre_work));
        assert(unifies(us2, new_work));
        assert(factors_through(us2, pre_uni));
        assert(apply_seq(us2, TypeV::Var(u.0)) == apply_seq(us2, u.1));
        assert forall|ty: TypeV| #[trigger] apply_seq(us2, ty) == apply_seq(npu + us2, ty) by {
            let z = apply_seq(pre_uni, ty);
            assert(npu + us2 =~= pre_uni + (seq![u] + us2));
            lemma_apply_seq_concat(pre_uni, seq![u] + us2, ty);
            assert((seq![u] + us2).drop_first() =~= us2);
            assert((seq![u] + us2)[0] == u);
            assert(apply_seq(seq![u] + us2, z) == apply_seq(us2, apply1(u, z)));
            lemma_apply1_then_seq(u, z, us2);
            lemma_apply_seq_concat(pre_uni, us2, ty);
            assert(apply_seq(pre_uni + us2, ty) == apply_seq(us2, z));
            assert(apply_seq(us2, ty) == apply_seq(pre_uni + us2, ty));
        };
    };
    assert(q_vars(new_work).subset_of(q_vars(orig)));
    assert forall|i: int|
        0 <= i < npu.len() implies q_vars(orig).contains((#[trigger] npu[i]).0) && (forall|
            j: int,
        |
            i < j < npu.len() ==> npu[j].0 != npu[i].0 && !appears(npu[j].1, npu[i].0)) by {
        if i < pre_uni.len() {
            assert(npu[i] == pre_uni[i]);
            assert(q_vars(orig).contains(pre_uni[i].0));
            assert forall|j: int|
                i < j < npu.len() implies npu[j].0 != npu[i].0 && !appears(
                npu[j].1,
                npu[i].0,
            ) by {
                if j < pre_uni.len() {
                    assert(npu[j] == pre_uni[j]);
                } else {
                    assert(npu[j] == u);
                    assert(!q_vars(pre_work).contains(pre_uni[i].0));
                    lemma_ty_vars_appears(u.1, pre_uni[i].0);
                }
            };
        } else {
            assert(npu[i] == u);
            assert(q_vars(orig).contains(u.0));
        }
    };
    assert forall|i: int|
        0 <= i < npu.len() implies !q_vars(new_work).contains((#[trigger] npu[i]).0) by {
        if i < pre_uni.len() {
            assert(npu[i] == pre_uni[i]);
            if q_vars(new_work).contains(pre_uni[i].0) {
                assert(q_vars(pre_work).contains(pre_uni[i].0));
            }
        } else {
            assert(npu[i] == u);
        }
    };
}

/// Robinson's most-general-unifier computation with an occurs check.
///
/// Soundness: when a unifier is returned, applying its entries in order to
/// both sides of every original constraint yields syntactically equal types.
/// Completeness: whenever the constraints have any unifier at all, one is
/// returned, so `None` means exactly that no unifier exists; the only
/// failure path is the occurs check. Most generality: every unifier of the
/// constraints factors through the returned sequence. Shape: the returned
/// entries bind distinct type variables of the constraints, each eliminated
/// from the remainder of the run. When the first constraint binds a type
/// variable to a different type in which that variable occurs, `None` is
/// returned at once.
/// The running invariant of `calculate_mgu`, over the model `work_v` of the
/// remaining queue, the model `uni_v` of the accumulated unifier and the
/// model `orig` of the input constraints: any unifier of the remaining queue,
/// prefixed by the accumulated entries, unifies the input; any unifier of the
/// input still unifies the remaining queue and factors through the
/// accumulated entries; the queue's variables come from the input; and the
/// accumulated entries bind distinct input variables, each eliminated from
/// the rest of the run and from the remaining queue.
#[verifier::opaque]
spec fn mgu_inv(
    work_v: Seq<(TypeV, TypeV)>,
    uni_v: Seq<(Seq<char>, TypeV)>,
    orig: Seq<(TypeV, TypeV)>,
) -> bool {
    &&& forall|us2: Seq<(Seq<char>, TypeV)>|
        #[trigger] unifies(us2, work_v) ==> unifies(uni_v + us2, orig)
    &&& forall|us2: Seq<(Seq<char>, TypeV)>|
        #[trigger] unifies(us2, orig) ==> unifies(us2, work_v) && factors_through(us2, uni_v)
    &&& q_vars(work_v).subset_of(q_vars(orig))
    &&& eliminated_in_order(uni_v, q_vars(orig))
    &&& forall|i: int|
        0 <= i < uni_v.len() ==> !q_vars(work_v).contains((#[trigger] uni_v[i]).0)
}

proof fn mgu_inv_init(orig: Seq<(TypeV, TypeV)>)
    ensures
        mgu_inv(orig, Seq::empty(), orig),
{
    broadcast use vstd::set::group_set_axioms;

    reveal(mgu_inv);
    let uni_v: Seq<(Seq<char>, TypeV)> = Seq::empty();
    assert forall|us2: Seq<(Seq<char>, TypeV)>| #[trigger]
        unifies(us2, orig) implies unifies(uni_v + us2, orig) && factors_through(us2, uni_v) by {
        assert(uni_v + us2 =~= us2);
        assert forall|ty: TypeV| #[trigger] apply_seq(us2, ty) == apply_seq(uni_v + us2, ty) by {
            assert(uni_v + us2 =~= us2);
        };
    };
}

proof fn mgu_discard_step(
    pre_work: Seq<(TypeV, TypeV)>,
    rest: Seq<(TypeV, TypeV)>,
    uni_v: Seq<(Seq<char>, TypeV)>,
    orig: Seq<(TypeV, TypeV)>,
)
    requires
        pre_work.len() > 0,
        pre_work.drop_first() == rest,
        pre_work[0].0 == pre_work[0].1,
        mgu_inv(pre_work, uni_v, orig),
    ensures
        mgu_inv(rest, uni_v, orig),
        q_vars(rest).len() <= q_vars(pre_work).len(),
        q_size(rest) < q_size(pre_work),
{
    reveal(mgu_inv);
    mgu_discard_restore_ghost(pre_work, rest, uni_v, orig);
}

proof fn mgu_eliminate_step(
    pre_work: Seq<(TypeV, TypeV)>,
    rest: Seq<(TypeV, TypeV)>,
    uni_v: Seq<(Seq<char>, TypeV)>,
    orig: Seq<(TypeV, TypeV)>,
    u: (Seq<char>, TypeV),
)
    requires
        pre_work.len() > 0,
        pre_work.drop_first() == rest,
        pre_work[0] == (TypeV::Var(u.0), u.1) || pre_work[0] == (u.1, TypeV::Var(u.0)),
        !appears(u.1, u.0),
        mgu_inv(pre_work, uni_v, orig),
    ensures
        mgu_inv(apply1_queue(u, rest), uni_v.push(u), orig),
        q_vars(apply1_queue(u, rest)).len() < q_vars(pre_work).len(),
{
    reveal(mgu_inv);
    mgu_eliminate_ghost(pre_work, rest, uni_v, orig, u);
    mgu_step_restore_ghost(pre_work, uni_v, orig, u, apply1_queue(u, rest));
}

proof fn mgu_decompose_step(
    pre_work: Seq<(TypeV, TypeV)>,
    rest: Seq<(TypeV, TypeV)>,
    uni_v: Seq<(Seq<char>, TypeV)>,
    orig: Seq<(TypeV, TypeV)>,
    p1: TypeV,
    r1: TypeV,
    p2: TypeV,
    r2: TypeV,
)
    requires
        pre_work.len() > 0,
        pre_work.drop_first() == rest,
        pre_work[0] == (
            TypeV::Func(Box::new(p1), Box::new(r1)),
            TypeV::Func(Box::new(p2), Box::new(r2)),
        ),
        mgu_inv(pre_work, uni_v, orig),
    ensures
        mgu_inv(rest + seq![(p1, p2), (r1, r2)], uni_v, orig),
        q_vars(rest + seq![(p1, p2), (r1, r2)]).len() <= q_vars(pre_work).len(),
        q_size(rest + seq![(p1, p2), (r1, r2)]) < q_size(pre_work),
{
    reveal(mgu_inv);
    mgu_decompose_ghost(
        pre_work,
        rest,
        uni_v,
        orig,
        p1,
        r1,
        p2,
        r2,
        rest + seq![(p1, p2), (r1, r2)],
    );
}

proof fn mgu_occurs_step(
    pre_work: Seq<(TypeV, TypeV)>,
    uni_v: Seq<(Seq<char>, TypeV)>,
    orig: Seq<(TypeV, TypeV)>,
    u: (Seq<char>, TypeV),
)
    requires
        pre_work.len() > 0,
        pre_work[0] == (TypeV::Var(u.0), u.1) || pre_work[0] == (u.1, TypeV::Var(u.0)),
        appears(u.1, u.0),
        u.1 != TypeV::Var(u.0),
        mgu_inv(pre_work, uni_v, orig),
    ensures
        !solvable(orig),
{
    reveal(mgu_inv);
    assert forall|us2: Seq<(Seq<char>, TypeV)>| #[trigger]
        unifies(us2, orig) implies unifies(us2, pre_work) by {};
    mgu_occurs_unsolvable_ghost(pre_work, orig, u);
}

proof fn mgu_complete(
    work_v: Seq<(TypeV, TypeV)>,
    uni_v: Seq<(Seq<char>, TypeV)>,
    orig: Seq<(TypeV, TypeV)>,
)
    requires
        work_v.len() == 0,
        mgu_inv(work_v, uni_v, orig),
    ensures
        unifies(uni_v, orig),
        forall|us2: Seq<(Seq<char>, TypeV)>|
            #[trigger] unifies(us2, orig) ==> factors_through(us2, uni_v),
        eliminated_in_order(uni_v, q_vars(orig)),
{
    reveal(mgu_inv);
    let empty_us: Seq<(Seq<char>, TypeV)> = Seq::empty();
    assert(unifies(empty_us, work_v));
    assert(unifies(uni_v + empty_us, orig));
    assert(uni_v + empty_us =~= uni_v);
}

/// Robinson's most-general-unifier computation with an occurs check.
///
/// Soundness: when a unifier is returned, applying its entries in order to
/// both sides of every original constraint yields syntactically equal types.
/// Completeness: whenever the constraints have any unifier at all, one is
/// returned, so `None` means exactly that no unifier exists; the only
/// failure path is the occurs check. Most generality: every unifier of the
/// constraints factors through the returned sequence. Shape: the returned
/// entries bind distinct type variables of the constraints, each eliminated
/// from the remainder of the run. When the first constraint binds a type
/// variable to a different type in which that variable occurs, `None` is
/// returned at once.
pub fn calculate_mgu(constraints: &Constraints) -> (r: Option<Unifier>)
    ensures
        r matches Some(u) ==> unifies(unifier_view(u@), cons_view(constraints@)),
        solvable(cons_view(constraints@)) ==> r is Some,
        r matches Some(u) ==> forall|us2: Seq<(Seq<char>, TypeV)>|
            #[trigger] unifies(us2, cons_view(constraints@)) ==> factors_through(
                us2,
                unifier_view(u@),
            ),
        r matches Some(u) ==> eliminated_in_order(
            unifier_view(u@),
            q_vars(cons_view(constraints@)),
        ),
        occurs_first(cons_view(constraints@)) ==> r is None,
{
    let ghost orig = cons_view(constraints@);
    let mut work: Constraints = std::collections::VecDeque::new();
    proof {
        assert(constraints@.take(0) =~= Seq::<(Type, Type)>::empty());
        assert(cons_view(work@) =~= cons_view(constraints@.take(0)));
    }
    let mut i: usize = 0;
    while i < constraints.len()
        invariant
            i <= constraints@.len(),
            cons_view(work@) == cons_view(constraints@.take(i as int)),
        decreases constraints@.len() - i,
    {
        let c = &constraints[i];
        work.push_back((c.0.duplicate(), c.1.duplicate()));
        proof {
            assert(constraints@.take(i + 1) =~= constraints@.take(i as int).push(
                constraints@[i as int],
            ));
            assert(cons_view(constraints@.take(i + 1)) =~= cons_view(
                constraints@.take(i as int),
            ).push((constraints@[i as int].0@, constraints@[i as int].1@)));
            assert(cons_view(work@) =~= cons_view(constraints@.take(i + 1)));
        }
        i += 1;
    }
    proof {
        assert(constraints@.take(constraints@.len() as int) =~= constraints@);
    }
    let mut unifier: Unifier = Vec::new();
    proof {
        mgu_inv_init(orig);
        assert(unifier_view(unifier@) =~= Seq::<(Seq<char>, TypeV)>::empty());
    }
    loop
        invariant
            mgu_inv(cons_view(work@), unifier_view(unifier@), orig),
            occurs_first(orig) ==> cons_view(work@) == orig && unifier@.len() == 0,
            orig == cons_view(constraints@),
        decreases q_vars(cons_view(work@)).len(), q_size(cons_view(work@)),
    {
        let ghost pre_work = cons_view(work@);
        let ghost pre_uni = unifier_view(unifier@);
        let constraint = match work.pop_front() {
            Some(c) => c,
            None => {
                proof {
                    if occurs_first(orig) {
                        assert(cons_view(work@).len() == 0);
                        assert(false);
                    }
                    mgu_complete(cons_view(work@), unifier_view(unifier@), orig);
                }
                return Some(unifier);
            },
        };
        let ghost cv = (constraint.0@, constraint.1@);
        let ghost rest = cons_view(work@);
        proof {
            assert(pre_work[0] == cv);
            assert(pre_work.drop_first() =~= rest);
        }
        if constraint.0.equals(&constraint.1) {
            proof {
                if occurs_first(orig) {
                    assert(cv == orig[0]);
                    assert(false);
                }
                mgu_discard_step(pre_work, rest, pre_uni, orig);
            }
            continue ;
        }
        match constraint {
            (Type::Var(x), t) => {
                if t.appear(&x) {
                    proof {
                        mgu_occurs_step(pre_work, pre_uni, orig, (x@, t@));
                    }
                    return None;
                } else {
                    let ghost uv = (x@, t@);
                    proof {
                        if occurs_first(orig) {
                            assert(cv == orig[0]);
                            assert(cv.1 != TypeV::Var(x@));
                            assert(false);
                        }
                        mgu_eliminate_step(pre_work, rest, pre_uni, orig, uv);
                    }
                    let u = (x, t);
                    work = unify(&mut work, &u);
                    unifier.push(u);
                    proof {
                        assert(unifier_view(unifier@) =~= pre_uni.push(uv));
                        assert(cons_view(work@) == apply1_queue(uv, rest));
                    }
                }
            },
            (t, Type::Var(x)) => {
                if t.appear(&x) {
                    proof {
                        mgu_occurs_step(pre_work, pre_uni, orig, (x@, t@));
                    }
                    return None;
                } else {
                    let ghost uv = (x@, t@);
                    proof {
                        if occurs_first(orig) {
                            assert(cv == orig[0]);
                            assert(cv.0 matches TypeV::Var(_));
                            assert(false);
                        }
                        mgu_eliminate_step(pre_work, rest, pre_uni, orig, uv);
                    }
                    let u = (x, t);
                    work = unify(&mut work, &u);
                    unifier.push(u);
                    proof {
                        assert(unifier_view(unifier@) =~= pre_uni.push(uv));
                        assert(cons_view(work@) == apply1_queue(uv, rest));
                    }
                }
            },
            (Type::Func(op1, v1), Type::Func(op2, v2)) => {
                let ghost p1 = op1@;
                let ghost r1 = v1@;
                let ghost p2 = op2@;
                let ghost r2 = v2@;
                proof {
                    if occurs_first(orig) {
                        assert(cv == orig[0]);
                        assert(false);
                    }
                    assert(cv.0 == TypeV::Func(Box::new(p1), Box::new(r1)));
                    assert(cv.1 == TypeV::Func(Box::new(p2), Box::new(r2)));
                    mgu_decompose_step(pre_work, rest, pre_uni, orig, p1, r1, p2, r2);
                }
                work.push_back((*op1, *op2));
                work.push_back((*v1, *v2));
                proof {
                    assert(cons_view(work@) =~= rest + seq![(p1, p2), (r1, r2)]);
                }
            },
        }
    }
}

/// A last-wins lookup in an association sequence of typing entries.
pub open spec fn env_lookup(es: Seq<(Seq<char>, TypeV)>, x: Seq<char>) -> Option<TypeV>
    decreases es.len(),
{
    if es.len() == 0 {
        None
    } else if es.last().0 == x {
        Some(es.last().1)
    } else {
        env_lookup(es.drop_last(), x)
    }
}

/// The association sequence with every entry for the name `x` removed.
pub open spec fn env_remove(es: Seq<(Seq<char>, TypeV)>, x: Seq<char>) -> Seq<(Seq<char>, TypeV)>
    decreases es.len(),
{
    if es.len() == 0 {
        es
    } else if es.last().0 == x {
        env_remove(es.drop_last(), x)
    } else {
        env_remove(es.drop_last(), x).push(es.last())
    }
}

/// The mapping denoted by an association sequence.
pub open spec fn env_of(es: Seq<(Seq<char>, TypeV)>) -> Map<Seq<char>, TypeV> {
    Map::new(
        |k: Seq<char>| env_lookup(es, k) is Some,
        |k: Seq<char>| env_lookup(es, k)->Some_0,
    )
}

proof fn lemma_env_lookup_remove(es: Seq<(Seq<char>, TypeV)>, x: Seq<char>, k: Seq<char>)
    ensures
        k != x ==> env_lookup(env_remove(es, x), k) == env_lookup(es, k),
        env_lookup(env_remove(es, x), x) is None,
    decreases es.len(),
{
    if es.len() == 0 {
    } else {
        lemma_env_lookup_remove(es.drop_last(), x, k);
        if es.last().0 != x {
            let r = env_remove(es.drop_last(), x).push(es.last());
            assert(r.drop_last() =~= env_remove(es.drop_last(), x));
            assert(r.last() == es.last());
        }
    }
}

/// The typing environment: a mapping from variable names to types. Extension
/// copies the environment, so sibling branches of a term never see each
/// other's bindings. Entries keep insertion order for rendering; re-binding
/// a name removes its old entry.
#[derive(Debug)]
pub struct TypeEnv {
    entries: Vec<(String, Type)>,
}

impl View for TypeEnv {
    type V = Map<Seq<char>, TypeV>;

    open spec fn view(&self) -> Map<Seq<char>, TypeV> {
        env_of(self.entries_view())
    }
}

impl TypeEnv {
    /// The bindings in display order.
    pub closed spec fn entries_view(&self) -> Seq<(Seq<char>, TypeV)> {
        unifier_view(self.entries@)
    }

    /// The empty environment.
    pub fn new() -> (r: TypeEnv)
        ensures
            r@ == Map::<Seq<char>, TypeV>::empty(),
            r.entries_view() == Seq::<(Seq<char>, TypeV)>::empty(),
    {
        let r = TypeEnv { entries: Vec::new() };
        proof {
            assert(r.entries_view() =~= Seq::<(Seq<char>, TypeV)>::empty());
            assert(r@ =~= Map::<Seq<char>, TypeV>::empty());
        }
        r
    }

    /// Whether the environment holds no binding.
    pub fn is_empty(&self) -> (b: bool)
        ensures
            b == (self.entries_view().len() == 0),
    {
        self.entries.len() == 0
    }

    /// A structural copy of this environment.
    pub fn duplicate(&self) -> (r: TypeEnv)
        ensures
            r@ == self@,
            r.entries_view() == self.entries_view(),
    {
        let mut entries: Vec<(String, Type)> = Vec::new();
        let n = self.entries.len();
        let mut i: usize = 0;
        while i < n
            invariant
                i <= n,
                n == self.entries@.len(),
                unifier_view(entries@) == unifier_view(self.entries@).take(i as int),
            decreases n - i,
        {
            let e = &self.entries[i];
            entries.push((e.0.clone(), e.1.duplicate()));
            proof {
                let sv = unifier_view(self.entries@);
                assert(sv.take(i + 1) =~= sv.take(i as int).push(sv[i as int]));
                assert(unifier_view(entries@) =~= sv.take(i as int).push(sv[i as int]));
            }
            i += 1;
        }
        let r = TypeEnv { entries };
        proof {
            assert(unifier_view(self.entries@).take(n as int) =~= self.entries_view());
            assert(r.entries_view() == self.entries_view());
        }
        r
    }

    /// The type bound to `x`, if any.
    pub fn get(&self, x: &String) -> (r: Option<&Type>)
        ensures
            match r {
                Some(t) => self@.dom().contains(x@) && t@ == self@[x@],
                None => !self@.dom().contains(x@),
            },
    {
        let ghost es = self.entries_view();
        let mut i: usize = self.entries.len();
        proof {
            assert(es.take(self.entries@.len() as int) =~= es);
        }
        while i > 0
            invariant
                i <= self.entries@.len(),
                es == self.entries_view(),
                env_lookup(es, x@) == env_lookup(es.take(i as int), x@),
            decreases i,
        {
            let e = &self.entries[i - 1];
            proof {
                assert(es.take(i as int).last() == es[i - 1]);
                assert(es.take(i as int).drop_last() =~= es.take(i - 1));
            }
            if e.0 == *x {
                proof {
                    assert(env_lookup(es.take(i as int), x@) == Some(es[i - 1].1));
                }
                return Some(&e.1);
            }
            i -= 1;
        }
        proof {
            assert(es.take(0) =~= Seq::<(Seq<char>, TypeV)>::empty());
        }
        None
    }

    /// Binds `x` to `t`: any earlier binding of `x` is removed and the new
    /// entry is appended.
    pub fn insert(&mut self, x: String, t: Type)
        ensures
            final(self)@ == old(self)@.insert(x@, t@),
            final(self).entries_view() == env_remove(old(self).entries_view(), x@).push(
                (x@, t@),
            ),
    {
        let ghost es = self.entries_view();
        let ghost xv = x@;
        let ghost tv = t@;
        let mut entries: Vec<(String, Type)> = Vec::new();
        let n = self.entries.len();
        let mut i: usize = 0;
        while i < n
            invariant
                i <= n,
                n == self.entries@.len(),
                es == self.entries_view(),
                xv == x@,
                unifier_view(entries@) == env_remove(es.take(i as int), xv),
            decreases n - i,
        {
            let e = &self.entries[i];
            proof {
                assert(es.take(i + 1).last() == es[i as int]);
                assert(es.take(i + 1).drop_last() =~= es.take(i as int));
            }
            if e.0 == x {
                proof {
                    assert(unifier_view(entries@) =~= env_remove(es.take(i + 1), xv));
                }
            } else {
                entries.push((e.0.clone(), e.1.duplicate()));
                proof {
                    assert(unifier_view(entries@) =~= env_remove(es.take(i + 1), xv));
                }
            }
            i += 1;
        }
        entries.push((x, t));
        self.entries = entries;
        proof {
            assert(es.take(n as int) =~= es);
            let new_es = env_remove(es, xv).push((xv, tv));
            assert(self.entries_view() =~= new_es);
            assert(new_es.drop_last() =~= env_remove(es, xv));
            assert(new_es.last() == (xv, tv));
            assert forall|k: Seq<char>|
                env_lookup(new_es, k) == (if k == xv {
                    Some(tv)
                } else {
                    env_lookup(es, k)
                }) by {
                lemma_env_lookup_remove(es, xv, k);
            };
            assert(env_of(new_es) =~= env_of(es).insert(xv, tv));
        }
    }
}

/// A lambda term annotated, at each abstraction, with the type inferred for
/// its bound variable.
#[derive(Debug)]
pub enum TypedAST {
    Var(String),
    App(Box<TypedAST>, Box<TypedAST>),
    Abs(String, Type, Box<TypedAST>),
}

/// The mathematical model of a typed term.
pub enum TypedV {
    Var(Seq<char>),
    App(Box<TypedV>, Box<TypedV>),
    Abs(Seq<char>, TypeV, Box<TypedV>),
}

/// The model of a typed-term value.
pub open spec fn typed_view(t: TypedAST) -> TypedV
    decreases t,
{
    match t {
        TypedAST::Var(s) => TypedV::Var(s@),
        TypedAST::App(e1, e2) => TypedV::App(
            Box::new(typed_view(*e1)),
            Box::new(typed_view(*e2)),
        ),
        TypedAST::Abs(s, ty, e) => TypedV::Abs(s@, ty@, Box::new(typed_view(*e))),
    }
}

impl View for TypedAST {
    type V = TypedV;

    open spec fn view(&self) -> TypedV {
        typed_view(*self)
    }
}

/// The type of a typed term, recomputed bottom-up under an environment:
/// a variable must be bound; an application's function side must have a
/// function type, whose codomain is the application's type; an abstraction
/// extends the environment with its own annotation. `None` reports the
/// consistency faults that a successfully unified term can never exhibit.
pub open spec fn ct(env: Map<Seq<char>, TypeV>, t: TypedV) -> Option<TypeV>
    decreases t,
{
    match t {
        TypedV::Var(x) => if env.dom().contains(x) {
            Some(env[x])
        } else {
            None
        },
        TypedV::App(e1, e2) => match (ct(env, *e1), ct(env, *e2)) {
            (Some(t1), Some(_)) => match t1 {
                TypeV::Func(_, tv) => Some(*tv),
                TypeV::Var(_) => None,
            },
            _ => None,
        },
        TypedV::Abs(x, tx, e) => match ct(env.insert(x, tx), *e) {
            Some(tb) => Some(TypeV::Func(Box::new(tx), Box::new(tb))),
            None => None,
        },
    }
}

/// A unifier applied to every type annotation of a typed term, entry by
/// entry in recorded order; the term structure is unchanged.
pub open spec fn apply_unifier_typed(us: Seq<(Seq<char>, TypeV)>, t: TypedV) -> TypedV
    decreases t,
{
    match t {
        TypedV::Var(_) => t,
        TypedV::App(e1, e2) => TypedV::App(
            Box::new(apply_unifier_typed(us, *e1)),
            Box::new(apply_unifier_typed(us, *e2)),
        ),
        TypedV::Abs(x, tx, e) => TypedV::Abs(
            x,
            apply_seq(us, tx),
            Box::new(apply_unifier_typed(us, *e)),
        ),
    }
}

proof fn lemma_apply_seq_push(us: Seq<(Seq<char>, TypeV)>, u: (Seq<char>, TypeV), t: TypeV)
    ensures
        apply_seq(us.push(u), t) == apply1(u, apply_seq(us, t)),
{
    assert(us.push(u) =~= us + seq![u]);
    lemma_apply_seq_concat(us, seq![u], t);
    assert(seq![u].drop_first() =~= Seq::<(Seq<char>, TypeV)>::empty());
    assert(seq![u][0] == u);
    let y = apply_seq(us, t);
    assert(apply_seq(seq![u], y) == apply_seq(seq![u].drop_first(), apply1(u, y)));
    assert(apply_seq(seq![u].drop_first(), apply1(u, y)) == apply1(u, y));
}

impl TypedAST {
    /// A structural copy of this typed term.
    pub fn duplicate(&self) -> (r: TypedAST)
        ensures
            r@ == self@,
        decreases *self,
    {
        match self {
            TypedAST::Var(s) => TypedAST::Var(s.clone()),
            TypedAST::App(e1, e2) => TypedAST::App(
                Box::new(e1.duplicate()),
                Box::new(e2.duplicate()),
            ),
            TypedAST::Abs(s, ty, e) => TypedAST::Abs(
                s.clone(),
                ty.duplicate(),
                Box::new(e.duplicate()),
            ),
        }
    }

    /// The type of this typed term under `tenv`, recomputed bottom-up.
    /// Only terms free of the internal consistency faults are admitted: every
    /// variable bound, every application's function side of function type.
    pub fn construct_type(&self, tenv: &TypeEnv) -> (r: Type)
        requires
            ct(tenv@, self@) is Some,
        ensures
            r@ == ct(tenv@, self@)->Some_0,
        decreases *self,
    {
        match self {
            TypedAST::Var(x) => {
                let t = tenv.get(x).unwrap();
                t.duplicate()
            },
            TypedAST::App(e1, e2) => {
                let t1 = e1.construct_type(tenv);
                let t2 = e2.construct_type(tenv);
                proof {
                    assert(ct(tenv@, e2@) is Some);
                }
                match t1 {
                    Type::Func(_op, tv) => *tv,
                    Type::Var(s) => {
                        proof {
                            assert(false);
                        }
                        Type::Var(s)
                    },
                }
            },
            TypedAST::Abs(x, tx, e) => {
                let mut tenv_x = tenv.duplicate();
                tenv_x.insert(x.clone(), tx.duplicate());
                let t = e.construct_type(&tenv_x);
                Type::Func(Box::new(tx.duplicate()), Box::new(t))
            },
        }
    }

    /// The unifier applied to every type annotation, in recorded order.
    pub fn unify(&self, unifier: &Unifier) -> (r: Self)
        ensures
            r@ == apply_unifier_typed(unifier_view(unifier@), self@),
        decreases *self,
    {
        match self {
            TypedAST::Var(_) => self.duplicate(),
            TypedAST::App(e1, e2) => TypedAST::App(
                Box::new(e1.unify(unifier)),
                Box::new(e2.unify(unifier)),
            ),
            TypedAST::Abs(x, ty, e) => {
                let mut t = ty.duplicate();
                let n = unifier.len();
                let mut i: usize = 0;
                while i < n
                    invariant
                        i <= n,
                        n == unifier@.len(),
                        t@ == apply_seq(unifier_view(unifier@).take(i as int), ty@),
                    decreases n - i,
                {
                    let next = t.unify(&unifier[i]);
                    proof {
                        let uv = unifier_view(unifier@);
                        assert(uv.take(i + 1) =~= uv.take(i as int).push(uv[i as int]));
                        lemma_apply_seq_push(uv.take(i as int), uv[i as int], ty@);
                    }
                    t = next;
                    i += 1;
                }
                proof {
                    assert(unifier_view(unifier@).take(n as int) =~= unifier_view(unifier@));
                }
                TypedAST::Abs(x.clone(), t, Box::new(e.unify(unifier)))
            },
        }
    }
}

/// The type variable with the `n`th generated name.
pub open spec fn tvar(n: nat) -> TypeV {
    TypeV::Var(cand(n))
}

/// Constraint-generating inference on `t` under `env`, with the fresh-name
/// counter at `c`: the typed term, its type, the emitted constraint queue in
/// emission order, and the counter after the walk. On a variable absent from
/// the environment the result is meaningless; the engine excludes that case
/// by precondition.
pub open spec fn infer(env: Map<Seq<char>, TypeV>, t: TermV, c: nat) -> (TypedV, TypeV, Seq<
    (TypeV, TypeV),
>, nat)
    decreases t,
{
    match t {
        TermV::Var(x) => (
            TypedV::Var(x),
            if env.dom().contains(x) {
                env[x]
            } else {
                TypeV::Var(x)
            },
            Seq::empty(),
            c,
        ),
        TermV::App(e1, e2) => {
            let r1 = infer(env, *e1, c);
            let r2 = infer(env, *e2, r1.3);
            let top = tvar(r2.3);
            let tv = tvar(r2.3 + 1);
            (
                TypedV::App(Box::new(r1.0), Box::new(r2.0)),
                tv,
                r1.2 + r2.2 + seq![
                    (r2.1, top),
                    (r1.1, TypeV::Func(Box::new(top), Box::new(tv))),
                ],
                r2.3 + 2,
            )
        },
        TermV::Abs(x, e) => {
            let tx = tvar(c);
            let rb = infer(env.insert(x, tx), *e, c + 1);
            (
                TypedV::Abs(x, tx, Box::new(rb.0)),
                TypeV::Func(Box::new(tx), Box::new(rb.1)),
                rb.2,
                rb.3,
            )
        },
    }
}

proof fn lemma_infer_counter(env: Map<Seq<char>, TypeV>, t: TermV, c: nat)
    ensures
        c <= infer(env, t, c).3 <= c + 2 * crate::ast::term_size(t),
    decreases t,
{
    match t {
        TermV::Var(_) => {},
        TermV::App(e1, e2) => {
            lemma_infer_counter(env, *e1, c);
            lemma_infer_counter(env, *e2, infer(env, *e1, c).3);
        },
        TermV::Abs(x, e) => {
            lemma_infer_counter(env.insert(x, tvar(c)), *e, c + 1);
        },
    }
}

/// The inference engine: a private counter from which globally unique fresh
/// type-variable names `v0`, `v1`, ... are drawn across one inference run.
#[derive(Debug)]
pub struct TypeInf {
    cnt: usize,
}

impl TypeInf {
    /// The counter value.
    pub closed spec fn counter(&self) -> nat {
        self.cnt as nat
    }

    /// A fresh engine with the counter at zero.
    pub fn new() -> (r: TypeInf)
        ensures
            r.counter() == 0,
    {
        TypeInf { cnt: 0 }
    }

    /// The next fresh type variable.
    fn get_type_variable(&mut self) -> (r: Type)
        requires
            old(self).counter() < usize::MAX,
        ensures
            r@ == tvar(old(self).counter()),
            final(self).counter() == old(self).counter() + 1,
    {
        let a = crate::names::candidate_name(self.cnt);
        self.cnt = self.cnt + 1;
        Type::Var(a)
    }

    /// Constraint-generating type inference: walks `e` under `tenv`, hands
    /// out a fresh type variable for every abstraction and application, and
    /// returns the annotated term, its type, and the constraint queue in
    /// emission order. Every free variable of `e` must be bound in `tenv`;
    /// an unbound variable is a fatal error with no local recovery, so it is
    /// excluded by precondition. The counter headroom keeps the fresh names
    /// unique within the run.
    pub fn type_inf(&mut self, tenv: &TypeEnv, e: &AST) -> (res: (TypedAST, Type, Constraints))
        requires
            forall|x: Seq<char>| free_in(e@, x) ==> tenv@.dom().contains(x),
            old(self).counter() + 2 * term_size(e@) <= usize::MAX,
        ensures
            res.0@ == infer(tenv@, e@, old(self).counter()).0,
            res.1@ == infer(tenv@, e@, old(self).counter()).1,
            cons_view(res.2@) == infer(tenv@, e@, old(self).counter()).2,
            final(self).counter() == infer(tenv@, e@, old(self).counter()).3,
        decreases *e,
    {
        let ghost c0 = self.counter();
        match e {
            AST::Var(x) => {
                proof {
                    assert(e@ == TermV::Var(x@));
                    assert(free_in(e@, x@));
                }
                let t = tenv.get(x).unwrap();
                let res = (
                    TypedAST::Var(x.clone()),
                    t.duplicate(),
                    std::collections::VecDeque::<Equality>::new(),
                );
                proof {
                    assert(cons_view(res.2@) =~= infer(tenv@, e@, c0).2);
                }
                res
            },
            AST::App(e1, e2) => {
                proof {
                    assert(e@ == TermV::App(Box::new((**e1)@), Box::new((**e2)@)));
                    assert forall|y: Seq<char>| free_in((**e1)@, y) implies tenv@.dom().contains(
                        y,
                    ) by {
                        assert(free_in(e@, y));
                    };
                    assert forall|y: Seq<char>| free_in((**e2)@, y) implies tenv@.dom().contains(
                        y,
                    ) by {
                        assert(free_in(e@, y));
                    };
                    lemma_infer_counter(tenv@, (**e1)@, c0);
                }
                let (typed_e1, t1, ce1) = self.type_inf(tenv, e1);
                proof {
                    lemma_infer_counter(tenv@, (**e2)@, self.counter());
                }
                let (typed_e2, t2, ce2) = self.type_inf(tenv, e2);
                let top = self.get_type_variable();
                let tv = self.get_type_variable();
                let ghost t1v = t1@;
                let ghost t2v = t2@;
                let ghost topv = top@;
                let ghost tvv = tv@;
                let ghost ce1v = ce1@;
                let ghost ce2v = ce2@;
                let mut c: Constraints = std::collections::VecDeque::new();
                merge(&mut c, ce1);
                proof {
                    assert(c@ =~= ce1v);
                }
                merge(&mut c, ce2);
                c.push_back((t2, top.duplicate()));
                c.push_back((t1, Type::Func(Box::new(top), Box::new(tv.duplicate()))));
                proof {
                    let i1 = infer(tenv@, (**e1)@, c0);
                    let i2 = infer(tenv@, (**e2)@, i1.3);
                    assert(cons_view(c@) =~= cons_view(ce1v) + cons_view(ce2v) + seq![
                        (t2v, topv),
                        (t1v, TypeV::Func(Box::new(topv), Box::new(tvv))),
                    ]);
                    assert(infer(tenv@, e@, c0).2 == i1.2 + i2.2 + seq![
                        (i2.1, tvar(i2.3)),
                        (i1.1, TypeV::Func(Box::new(tvar(i2.3)), Box::new(tvar(i2.3 + 1)))),
                    ]);
                }
                (TypedAST::App(Box::new(typed_e1), Box::new(typed_e2)), tv, c)
            },
            AST::Abs(x, e2) => {
                proof {
                    assert(e@ == TermV::Abs(x@, Box::new((**e2)@)));
                }
                let tx = self.get_type_variable();
                let mut tenv_x = tenv.duplicate();
                tenv_x.insert(x.clone(), tx.duplicate());
                proof {
                    assert(tenv_x@ == tenv@.insert(x@, tvar(c0)));
                    assert forall|y: Seq<char>| free_in((**e2)@, y) implies tenv_x@.dom().contains(
                        y,
                    ) by {
                        if y != x@ {
                            assert(free_in(e@, y));
                        }
                    };
                }
                let (typed_e, te, ce) = self.type_inf(&tenv_x, e2);
                let t = Type::Func(Box::new(tx.duplicate()), Box::new(te));
                (TypedAST::Abs(x.clone(), tx, Box::new(typed_e)), t, ce)
            },
        }
    }
}

/// The textual form of a type: `domain->codomain`, the domain parenthesized
/// only when it is itself a function type.
pub open spec fn type_text(t: TypeV) -> Seq<char>
    decreases t,
{
    match t {
        TypeV::Var(s) => s,
        TypeV::Func(a, b) => {
            let dom = match *a {
                TypeV::Var(s) => s,
                TypeV::Func(_, _) => ("(")@ + type_text(*a) + (")")@,
            };
            dom + ("->")@ + type_text(*b)
        },
    }
}

/// The typeset form of a type, with `\to` for the arrow and `\left( \right)`
/// around a function-type domain.
pub open spec fn type_latex(t: TypeV) -> Seq<char>
    decreases t,
{
    match t {
        TypeV::Var(s) => s,
        TypeV::Func(a, b) => match *a {
            TypeV::Var(s) => s + (" \\to ")@ + type_latex(*b),
            TypeV::Func(_, _) => ("\\left(")@ + type_latex(*a) + ("\\right) \\to ")@
                + type_latex(*b),
        },
    }
}

/// The typeset form of a typed term: type annotations are not shown, an
/// application's sides are wrapped in `\left( \right)` unless they are bare
/// variables, and an abstraction is introduced by `\lambda`.
pub open spec fn typed_latex(t: TypedV) -> Seq<char>
    decreases t,
{
    match t {
        TypedV::Var(s) => s,
        TypedV::App(e1, e2) => {
            let s1 = match *e1 {
                TypedV::Var(s) => s,
                _ => ("\\left(")@ + typed_latex(*e1) + ("\\right)")@,
            };
            let s2 = match *e2 {
                TypedV::Var(s) => s,
                _ => ("\\left(")@ + typed_latex(*e2) + ("\\right)")@,
            };
            s1 + (" \\, ")@ + s2
        },
        TypedV::Abs(s, _, e) => ("\\lambda ")@ + s + (" .")@ + typed_latex(*e),
    }
}

/// The textual form of a typed term: `\name:type.body` for an abstraction,
/// application sides parenthesized unless they are bare variables.
pub open spec fn typed_text(t: TypedV) -> Seq<char>
    decreases t,
{
    match t {
        TypedV::Var(s) => s,
        TypedV::App(e1, e2) => {
            let s1 = match *e1 {
                TypedV::Var(s) => s,
                _ => ("(")@ + typed_text(*e1) + (")")@,
            };
            let s2 = match *e2 {
                TypedV::Var(s) => s,
                _ => ("(")@ + typed_text(*e2) + (")")@,
            };
            s1 + (" ")@ + s2
        },
        TypedV::Abs(s, ty, e) => ("\\")@ + s + (":")@ + type_text(ty) + (".")@ + typed_text(*e),
    }
}

/// One displayed binding, `name : type`.
pub open spec fn entry_text(e: (Seq<char>, TypeV)) -> Seq<char> {
    e.0 + (" : ")@ + type_latex(e.1)
}

/// The displayed bindings of an environment, comma-joined in display order.
pub open spec fn bindings_text(es: Seq<(Seq<char>, TypeV)>) -> Seq<char>
    decreases es.len(),
{
    if es.len() == 0 {
        Seq::empty()
    } else if es.len() == 1 {
        entry_text(es[0])
    } else {
        bindings_text(es.drop_last()) + (",")@ + entry_text(es.last())
    }
}

/// A displayed typing judgment `bindings \vdash term : type`; the empty
/// environment shows no binding set.
pub open spec fn judge_text(t: TypedV, ty: TypeV, es: Seq<(Seq<char>, TypeV)>) -> Seq<char> {
    if es.len() == 0 {
        (" \\vdash ")@ + typed_latex(t) + (" : ")@ + type_latex(ty)
    } else {
        ("\\{ ")@ + bindings_text(es) + (" \\} \\vdash ")@ + typed_latex(t) + (" : ")@
            + type_latex(ty)
    }
}

impl Type {
    /// The textual form of this type.
    pub fn to_text(&self) -> (r: String)
        ensures
            r@ == type_text(self@),
        decreases *self,
    {
        match self {
            Type::Var(s) => s.clone(),
            Type::Func(a, b) => {
                let mut s = String::new();
                match &**a {
                    Type::Var(x) => {
                        proof {
                            assert((**a)@ == TypeV::Var(x@));
                        }
                        s.append(x.as_str());
                    },
                    _ => {
                        s.append("(");
                        let inner = a.to_text();
                        s.append(inner.as_str());
                        s.append(")");
                    },
                }
                s.append("->");
                let cod = b.to_text();
                s.append(cod.as_str());
                proof {
                    assert(s@ =~= type_text(self@));
                }
                s
            },
        }
    }

    /// The typeset form of this type.
    pub fn latex_fmt(&self) -> (r: String)
        ensures
            r@ == type_latex(self@),
        decreases *self,
    {
        match self {
            Type::Var(s) => s.clone(),
            Type::Func(a, b) => {
                let mut s = String::new();
                match &**a {
                    Type::Var(x) => {
                        proof {
                            assert((**a)@ == TypeV::Var(x@));
                        }
                        s.append(x.as_str());
                        s.append(" \\to ");
                    },
                    _ => {
                        s.append("\\left(");
                        let inner = a.latex_fmt();
                        s.append(inner.as_str());
                        s.append("\\right) \\to ");
                    },
                }
                let cod = b.latex_fmt();
                s.append(cod.as_str());
                proof {
                    assert(s@ =~= type_latex(self@));
                }
                s
            },
        }
    }
}

impl TypeEnv {
    /// The displayed bindings, comma-joined in display order.
    pub fn bindings_latex(&self) -> (r: String)
        ensures
            r@ == bindings_text(self.entries_view()),
    {
        let ghost es = self.entries_view();
        let mut s = String::new();
        let n = self.entries.len();
        let mut i: usize = 0;
        while i < n
            invariant
                i <= n,
                n == self.entries@.len(),
                es == self.entries_view(),
                s@ == bindings_text(es.take(i as int)),
            decreases n - i,
        {
            if i > 0 {
                s.append(",");
            }
            let e = &self.entries[i];
            s.append(e.0.as_str());
            s.append(" : ");
            let ty = e.1.latex_fmt();
            s.append(ty.as_str());
            proof {
                assert(es.take(i + 1).last() == es[i as int]);
                assert(es.take(i + 1).drop_last() =~= es.take(i as int));
                assert(s@ =~= bindings_text(es.take(i + 1)));
            }
            i += 1;
        }
        proof {
            assert(es.take(n as int) =~= es);
        }
        s
    }
}

impl TypedAST {
    /// The textual form of this typed term.
    pub fn to_text(&self) -> (r: String)
        ensures
            r@ == typed_text(self@),
        decreases *self,
    {
        match self {
            TypedAST::Var(s) => s.clone(),
            TypedAST::App(e1, e2) => {
                let mut s = String::new();
                match &**e1 {
                    TypedAST::Var(x) => {
                        proof {
                            assert((**e1)@ == TypedV::Var(x@));
                        }
                        s.append(x.as_str());
                    },
                    _ => {
                        s.append("(");
                        let inner = e1.to_text();
                        s.append(inner.as_str());
                        s.append(")");
                    },
                }
                s.append(" ");
                match &**e2 {
                    TypedAST::Var(x) => {
                        proof {
                            assert((**e2)@ == TypedV::Var(x@));
                        }
                        s.append(x.as_str());
                    },
                    _ => {
                        s.append("(");
                        let inner = e2.to_text();
                        s.append(inner.as_str());
                        s.append(")");
                    },
                }
                proof {
                    assert(s@ =~= typed_text(self@));
                }
                s
            },
            TypedAST::Abs(x, ty, e) => {
                let mut s = String::new();
                s.append("\\");
                s.append(x.as_str());
                s.append(":");
                let tys = ty.to_text();
                s.append(tys.as_str());
                s.append(".");
                let body = e.to_text();
                s.append(body.as_str());
                proof {
                    assert(s@ =~= typed_text(self@));
                }
                s
            },
        }
    }

    /// The typeset form of this typed term.
    pub fn latex_fmt(&self) -> (r: String)
        ensures
            r@ == typed_latex(self@),
        decreases *self,
    {
        match self {
            TypedAST::Var(s) => s.clone(),
            TypedAST::App(e1, e2) => {
                let mut s = String::new();
                match &**e1 {
                    TypedAST::Var(x) => {
                        proof {
                            assert((**e1)@ == TypedV::Var(x@));
                        }
                        s.append(x.as_str());
                    },
                    _ => {
                        s.append("\\left(");
                        let inner = e1.latex_fmt();
                        s.append(inner.as_str());
                        s.append("\\right)");
                    },
                }
                s.append(" \\, ");
                match &**e2 {
                    TypedAST::Var(x) => {
                        proof {
                            assert((**e2)@ == TypedV::Var(x@));
                        }
                        s.append(x.as_str());
                    },
                    _ => {
                        s.append("\\left(");
                        let inner = e2.latex_fmt();
                        s.append(inner.as_str());
                        s.append("\\right)");
                    },
                }
                proof {
                    assert(s@ =~= typed_latex(self@));
                }
                s
            },
            TypedAST::Abs(x, _, e) => {
                let mut s = String::new();
                s.append("\\lambda ");
                s.append(x.as_str());
                s.append(" .");
                let body = e.latex_fmt();
                s.append(body.as_str());
                proof {
                    assert(s@ =~= typed_latex(self@));
                }
                s
            },
        }
    }

    /// The displayed typing judgment for this term at type `t` under `tenv`.
    pub fn typejudge_latex(&self, t: &Type, tenv: &TypeEnv) -> (r: String)
        ensures
            r@ == judge_text(self@, t@, tenv.entries_view()),
    {
        let bindings = tenv.bindings_latex();
        let term = self.latex_fmt();
        let ty = t.latex_fmt();
        let mut s = String::new();
        if tenv.is_empty() {
            s.append(" \\vdash ");
            s.append(term.as_str());
            s.append(" : ");
            s.append(ty.as_str());
        } else {
            s.append("\\{ ");
            s.append(bindings.as_str());
            s.append(" \\} \\vdash ");
            s.append(term.as_str());
            s.append(" : ");
            s.append(ty.as_str());
        }
        proof {
            assert(s@ =~= judge_text(self@, t@, tenv.entries_view()));
        }
        s
    }
}

/// The natural-deduction derivation of a typed term under an environment
/// given by its entries: one line per node in bottom-up, post-order emission
/// order, an axiom line for a variable, a binary inference line for an
/// application and a unary inference line for an abstraction, each carrying
/// the node's typing judgment.
pub open spec fn derivation_lines(es: Seq<(Seq<char>, TypeV)>, t: TypedV) -> Seq<Seq<char>>
    decreases t,
{
    match t {
        TypedV::Var(x) => {
            let ty = match env_lookup(es, x) {
                Some(ty) => ty,
                None => TypeV::Var(x),
            };
            seq![("  \\AxiomC{ $ ")@ + judge_text(t, ty, es) + (" $ }")@]
        },
        TypedV::App(e1, e2) => {
            let tv = match ct(env_of(es), *e1) {
                Some(t1) => match t1 {
                    TypeV::Func(_, v) => *v,
                    TypeV::Var(s) => TypeV::Var(s),
                },
                None => TypeV::Var(Seq::empty()),
            };
            derivation_lines(es, *e1) + derivation_lines(es, *e2) + seq![
                ("  \\BinaryInfC{ $ ")@ + judge_text(t, tv, es) + (" $ }")@,
            ]
        },
        TypedV::Abs(x, tx, e) => {
            let es2 = env_remove(es, x).push((x, tx));
            let te = match ct(env_of(es2), *e) {
                Some(te) => te,
                None => tx,
            };
            derivation_lines(es2, *e) + seq![
                ("  \\UnaryInfC{ $ ")@ + judge_text(
                    t,
                    TypeV::Func(Box::new(tx), Box::new(te)),
                    es,
                ) + (" $ }")@,
            ]
        },
    }
}

impl TypedAST {
    /// The bottom-up derivation of this term under `tenv`: appends one
    /// typeset inference line per node to `out`, in post-order so that
    /// premises precede their conclusion, and returns the term's
    /// recomputed type. The same consistency conditions as for
    /// `construct_type` are required; the enclosing derivation-block markers
    /// are the caller's.
    pub fn to_bussproofs(&self, tenv: &TypeEnv, out: &mut Vec<String>) -> (r: Type)
        requires
            ct(tenv@, self@) is Some,
        ensures
            r@ == ct(tenv@, self@)->Some_0,
            final(out)@.map_values(|s: String| s@) == old(out)@.map_values(|s: String| s@)
                + derivation_lines(tenv.entries_view(), self@),
        decreases *self,
    {
        let ghost es = tenv.entries_view();
        match self {
            TypedAST::Var(x) => {
                let t = tenv.get(x).unwrap().duplicate();
                let judge = self.typejudge_latex(&t, tenv);
                let mut line = String::new();
                line.append("  \\AxiomC{ $ ");
                line.append(judge.as_str());
                line.append(" $ }");
                let ghost prev = out@;
                let ghost linev = line@;
                out.push(line);
                proof {
                    assert(out@ == prev.push(line));
                    assert(out@.map_values(|s: String| s@) =~= prev.map_values(|s: String| s@)
                        + seq![linev]);
                    assert(derivation_lines(es, self@) =~= seq![linev]);
                }
                t
            },
            TypedAST::App(e1, e2) => {
                let t1 = e1.to_bussproofs(tenv, out);
                proof {
                    assert(ct(tenv@, (**e2)@) is Some);
                }
                let _t2 = e2.to_bussproofs(tenv, out);
                match t1 {
                    Type::Func(_op, tv) => {
                        let judge = self.typejudge_latex(&*tv, tenv);
                        let mut line = String::new();
                        line.append("  \\BinaryInfC{ $ ");
                        line.append(judge.as_str());
                        line.append(" $ }");
                        let ghost prev = out@;
                        let ghost linev = line@;
                        out.push(line);
                        proof {
                            assert(out@ == prev.push(line));
                            assert(out@.map_values(|s: String| s@) =~= prev.map_values(
                                |s: String| s@,
                            ) + seq![linev]);
                            assert(derivation_lines(es, self@) =~= derivation_lines(
                                es,
                                (**e1)@,
                            ) + derivation_lines(es, (**e2)@) + seq![linev]);
                            assert(out@.map_values(|s: String| s@) =~= old(out)@.map_values(
                                |s: String| s@,
                            ) + derivation_lines(es, self@));
                        }
                        *tv
                    },
                    Type::Var(sv) => {
                        proof {
                            assert(false);
                        }
                        Type::Var(sv)
                    },
                }
            },
            TypedAST::Abs(x, tx, e) => {
                let mut tenv_x = tenv.duplicate();
                tenv_x.insert(x.clone(), tx.duplicate());
                let te = e.to_bussproofs(&tenv_x, out);
                let ghost tev = te@;
                let t = Type::Func(Box::new(tx.duplicate()), Box::new(te));
                let judge = self.typejudge_latex(&t, tenv);
                let mut line = String::new();
                line.append("  \\UnaryInfC{ $ ");
                line.append(judge.as_str());
                line.append(" $ }");
                let ghost prev = out@;
                let ghost linev = line@;
                out.push(line);
                proof {
                    assert(out@ == prev.push(line));
                    assert(out@.map_values(|s: String| s@) =~= prev.map_values(|s: String| s@)
                        + seq![linev]);
                    assert(derivation_lines(es, self@) =~= derivation_lines(
                        tenv_x.entries_view(),
                        (**e)@,
                    ) + seq![linev]);
                    assert(out@.map_values(|s: String| s@) =~= old(out)@.map_values(
                        |s: String| s@,
                    ) + derivation_lines(es, self@));
                }
                t
            },
        }
    }
}

/// Inference on the identity abstraction: under any environment and any
/// counter value, the binder is annotated with the fresh type variable
/// allocated for it, the inferred type is that variable to itself, and the
/// emitted constraint queue is empty, so nothing is left for unification
/// beyond reflexivity.
pub proof fn lemma_infer_identity(env: Map<Seq<char>, TypeV>, x: Seq<char>, c: nat)
    ensures
        infer(env, TermV::Abs(x, Box::new(TermV::Var(x))), c) == (
            TypedV::Abs(x, tvar(c), Box::new(TypedV::Var(x))),
            TypeV::Func(Box::new(tvar(c)), Box::new(tvar(c))),
            Seq::<(TypeV, TypeV)>::empty(),
            c + 1 as nat,
        ),
{
    broadcast use vstd::map::group_map_axioms;

    let env2 = env.insert(x, tvar(c));
    assert(env2.dom().contains(x));
    assert(env2[x] == tvar(c));
    assert(infer(env2, TermV::Var(x), c + 1) == (
        TypedV::Var(x),
        tvar(c),
        Seq::<(TypeV, TypeV)>::empty(),
        (c + 1) as nat,
    ));
}

} // verus!
