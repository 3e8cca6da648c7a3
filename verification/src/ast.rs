//! Untyped lambda terms: free-variable analysis, capture-avoiding
//! substitution, and normal-order beta reduction.

use vstd::prelude::*;
use crate::names::{cand, is_generated_name};

verus! {

/// An untyped lambda term: a variable, an application, or an abstraction.
#[derive(Debug)]
pub enum AST {
    Var(String),
    App(Box<AST>, Box<AST>),
    Abs(String, Box<AST>),
}

/// The mathematical model of a term: the same tree with names as
/// character sequences.
pub enum TermV {
    Var(Seq<char>),
    App(Box<TermV>, Box<TermV>),
    Abs(Seq<char>, Box<TermV>),
}

/// The model of a term value.
pub open spec fn term_view(t: AST) -> TermV
    decreases t,
{
    match t {
        AST::Var(s) => TermV::Var(s@),
        AST::App(e1, e2) => TermV::App(Box::new(term_view(*e1)), Box::new(term_view(*e2))),
        AST::Abs(s, e) => TermV::Abs(s@, Box::new(term_view(*e))),
    }
}

impl View for AST {
    type V = TermV;

    open spec fn view(&self) -> TermV {
        term_view(*self)
    }
}

/// The number of nodes of a term.
pub open spec fn term_size(t: TermV) -> nat
    decreases t,
{
    match t {
        TermV::Var(_) => 1,
        TermV::App(e1, e2) => 1 + term_size(*e1) + term_size(*e2),
        TermV::Abs(_, e) => 1 + term_size(*e),
    }
}

/// Whether the name `x` occurs free (unbound) in `t`.
pub open spec fn free_in(t: TermV, x: Seq<char>) -> bool
    decreases t,
{
    match t {
        TermV::Var(s) => s == x,
        TermV::App(e1, e2) => free_in(*e1, x) || free_in(*e2, x),
        TermV::Abs(s, e) => s != x && free_in(*e, x),
    }
}

/// The names of all variable occurrences of `t`, bound or free, in
/// left-to-right order.
pub open spec fn vars_of(t: TermV) -> Seq<Seq<char>>
    decreases t,
{
    match t {
        TermV::Var(s) => seq![s],
        TermV::App(e1, e2) => vars_of(*e1) + vars_of(*e2),
        TermV::Abs(_, e) => vars_of(*e),
    }
}

/// The subsequence of `s` whose names are free in `t`.
pub open spec fn keep_free(t: TermV, s: Seq<Seq<char>>) -> Seq<Seq<char>>
    decreases s.len(),
{
    if s.len() == 0 {
        Seq::empty()
    } else if free_in(t, s.last()) {
        keep_free(t, s.drop_last()).push(s.last())
    } else {
        keep_free(t, s.drop_last())
    }
}

/// The names of the free variable occurrences of `t`, in left-to-right order,
/// one entry per occurrence.
pub open spec fn free_vars_of(t: TermV) -> Seq<Seq<char>> {
    keep_free(t, vars_of(t))
}

/// First index at or after `i` and below `b` whose generated name is not free
/// in `t`; `b` when every one of them is free.
pub open spec fn first_fresh_from(t: TermV, i: nat, b: nat) -> nat
    decreases b - i,
{
    if i >= b {
        b
    } else if !free_in(t, cand(i)) {
        i
    } else {
        first_fresh_from(t, i + 1, b)
    }
}

/// One more than the number of variable occurrences of `t`: probing that many
/// generated names must reach one that is not free in `t`.
pub open spec fn fresh_bound(t: TermV) -> nat {
    vars_of(t).len() + 1
}

/// The least index whose generated name is not free in `t`.
pub open spec fn fresh_idx(t: TermV) -> nat {
    first_fresh_from(t, 0, fresh_bound(t))
}

/// The first generated name `v0`, `v1`, ... that is not free in `t`.
pub open spec fn fresh_name(t: TermV) -> Seq<char> {
    cand(fresh_idx(t))
}

proof fn lemma_free_in_vars(t: TermV, x: Seq<char>)
    requires
        free_in(t, x),
    ensures
        vars_of(t).contains(x),
    decreases t,
{
    match t {
        TermV::Var(s) => {
            assert(vars_of(t)[0] == x);
        },
        TermV::App(e1, e2) => {
            if free_in(*e1, x) {
                lemma_free_in_vars(*e1, x);
                let j = choose|j: int| 0 <= j < vars_of(*e1).len() && vars_of(*e1)[j] == x;
                assert(vars_of(t)[j] == x);
            } else {
                lemma_free_in_vars(*e2, x);
                let j = choose|j: int| 0 <= j < vars_of(*e2).len() && vars_of(*e2)[j] == x;
                assert(vars_of(t)[vars_of(*e1).len() + j] == x);
            }
        },
        TermV::Abs(_, e) => {
            lemma_free_in_vars(*e, x);
        },
    }
}

proof fn lemma_first_fresh_from(t: TermV, i: nat, b: nat)
    requires
        exists|k: nat| i <= k < b && !free_in(t, #[trigger] cand(k)),
    ensures
        i <= first_fresh_from(t, i, b) < b,
        !free_in(t, cand(first_fresh_from(t, i, b))),
        forall|j: nat| i <= j < first_fresh_from(t, i, b) ==> free_in(t, #[trigger] cand(j)),
    decreases b - i,
{
    if i < b && free_in(t, cand(i)) {
        lemma_first_fresh_from(t, i + 1, b);
    }
}

/// Probing the generated names `v0`, ..., `v<n>` where `n` is the number of
/// variable occurrences of `t` must find one that is not free in `t`:
/// the fresh name always exists, and `fresh_idx` is the least fresh index.
pub proof fn lemma_fresh_name(t: TermV)
    ensures
        fresh_idx(t) < fresh_bound(t),
        !free_in(t, fresh_name(t)),
        forall|j: nat| j < fresh_idx(t) ==> free_in(t, #[trigger] cand(j)),
{
    broadcast use vstd::set::group_set_axioms;

    let b = fresh_bound(t);
    if forall|k: nat| k < b ==> free_in(t, #[trigger] cand(k)) {
        let names = vars_of(t);
        crate::names::lemma_cand_set_card(b);
        assert forall|x: Seq<char>| crate::names::cand_set(b).contains(x) implies names.to_set()
            .contains(x) by {
            let i = choose|i: nat| i < b && x == cand(i);
            lemma_free_in_vars(t, cand(i));
        };
        names.lemma_cardinality_of_set();
        vstd::seq_lib::seq_to_set_is_finite(names);
        vstd::set_lib::lemma_len_subset(crate::names::cand_set(b), names.to_set());
        assert(false);
    }
    assert(exists|k: nat| 0 <= k < b && !free_in(t, #[trigger] cand(k)));
    lemma_first_fresh_from(t, 0, b);
}

/// Capture-avoiding substitution of `r` for the free occurrences of `x` in
/// `t`, with an explicit recursion budget; `None` when the budget runs out.
/// When the bound name of an abstraction is free in `r`, the abstraction is
/// first alpha-renamed to the first generated name not free in `r`, by a
/// substitution of that name for the bound name throughout the body.
pub open spec fn subst_r(t: TermV, r: TermV, x: Seq<char>, fuel: nat) -> Option<TermV>
    decreases fuel,
{
    if fuel == 0 {
        None
    } else {
        let f = (fuel - 1) as nat;
        match t {
            TermV::Var(s) => Some(if s == x { r } else { t }),
            TermV::App(e1, e2) => match (subst_r(*e1, r, x, f), subst_r(*e2, r, x, f)) {
                (Some(a), Some(b)) => Some(TermV::App(Box::new(a), Box::new(b))),
                _ => None,
            },
            TermV::Abs(y, e) => if y == x {
                Some(t)
            } else if free_in(r, y) {
                let z = fresh_name(r);
                match subst_r(*e, TermV::Var(z), y, f) {
                    Some(renamed) => match subst_r(renamed, r, x, f) {
                        Some(b) => Some(TermV::Abs(z, Box::new(b))),
                        None => None,
                    },
                    None => None,
                }
            } else {
                match subst_r(*e, r, x, f) {
                    Some(b) => Some(TermV::Abs(y, Box::new(b))),
                    None => None,
                }
            },
        }
    }
}

proof fn lemma_subst_fuel_mono(t: TermV, r: TermV, x: Seq<char>, f1: nat, f2: nat)
    requires
        subst_r(t, r, x, f1) is Some,
        f1 <= f2,
    ensures
        subst_r(t, r, x, f2) == subst_r(t, r, x, f1),
    decreases f1,
{
    let g1 = (f1 - 1) as nat;
    let g2 = (f2 - 1) as nat;
    match t {
        TermV::Var(_) => {},
        TermV::App(e1, e2) => {
            lemma_subst_fuel_mono(*e1, r, x, g1, g2);
            lemma_subst_fuel_mono(*e2, r, x, g1, g2);
        },
        TermV::Abs(y, e) => {
            if y == x {
            } else if free_in(r, y) {
                let z = fresh_name(r);
                lemma_subst_fuel_mono(*e, TermV::Var(z), y, g1, g2);
                let renamed = subst_r(*e, TermV::Var(z), y, g1)->Some_0;
                lemma_subst_fuel_mono(renamed, r, x, g1, g2);
            } else {
                lemma_subst_fuel_mono(*e, r, x, g1, g2);
            }
        },
    }
}

proof fn lemma_subst_var_size(t: TermV, z: Seq<char>, x: Seq<char>, fuel: nat)
    requires
        subst_r(t, TermV::Var(z), x, fuel) is Some,
    ensures
        term_size(subst_r(t, TermV::Var(z), x, fuel)->Some_0) == term_size(t),
    decreases fuel,
{
    let f = (fuel - 1) as nat;
    match t {
        TermV::Var(_) => {},
        TermV::App(e1, e2) => {
            lemma_subst_var_size(*e1, z, x, f);
            lemma_subst_var_size(*e2, z, x, f);
        },
        TermV::Abs(y, e) => {
            if y == x {
            } else if free_in(TermV::Var(z), y) {
                let z2 = fresh_name(TermV::Var(z));
                lemma_subst_var_size(*e, z2, y, f);
                let renamed = subst_r(*e, TermV::Var(z2), y, f)->Some_0;
                lemma_subst_var_size(renamed, z, x, f);
            } else {
                lemma_subst_var_size(*e, z, x, f);
            }
        },
    }
}

proof fn lemma_subst_total(t: TermV, r: TermV, x: Seq<char>, fuel: nat)
    requires
        fuel >= term_size(t),
    ensures
        subst_r(t, r, x, fuel) is Some,
    decreases fuel,
{
    let f = (fuel - 1) as nat;
    match t {
        TermV::Var(_) => {},
        TermV::App(e1, e2) => {
            lemma_subst_total(*e1, r, x, f);
            lemma_subst_total(*e2, r, x, f);
        },
        TermV::Abs(y, e) => {
            if y == x {
            } else if free_in(r, y) {
                let z = fresh_name(r);
                lemma_subst_total(*e, TermV::Var(z), y, f);
                let renamed = subst_r(*e, TermV::Var(z), y, f)->Some_0;
                lemma_subst_var_size(*e, z, y, f);
                lemma_subst_total(renamed, r, x, f);
            } else {
                lemma_subst_total(*e, r, x, f);
            }
        },
    }
}

/// Capture-avoiding substitution of `r` for the free occurrences of `x` in `t`.
pub open spec fn subst(t: TermV, r: TermV, x: Seq<char>) -> TermV {
    subst_r(t, r, x, term_size(t))->Some_0
}

/// How `subst` unfolds on a variable.
pub proof fn lemma_subst_var(s: Seq<char>, r: TermV, x: Seq<char>)
    ensures
        subst(TermV::Var(s), r, x) == (if s == x {
            r
        } else {
            TermV::Var(s)
        }),
{
}

/// How `subst` unfolds on an application.
pub proof fn lemma_subst_app(e1: TermV, e2: TermV, r: TermV, x: Seq<char>)
    ensures
        subst(TermV::App(Box::new(e1), Box::new(e2)), r, x) == TermV::App(
            Box::new(subst(e1, r, x)),
            Box::new(subst(e2, r, x)),
        ),
{
    let t = TermV::App(Box::new(e1), Box::new(e2));
    let n = term_size(t);
    lemma_subst_total(e1, r, x, term_size(e1));
    lemma_subst_total(e2, r, x, term_size(e2));
    lemma_subst_fuel_mono(e1, r, x, term_size(e1), (n - 1) as nat);
    lemma_subst_fuel_mono(e2, r, x, term_size(e2), (n - 1) as nat);
}

/// How `subst` unfolds on an abstraction: shadowing stops the substitution;
/// a bound name free in the replacement is first alpha-renamed to the first
/// generated name not free in the replacement; otherwise the substitution
/// descends directly into the body.
pub proof fn lemma_subst_abs(y: Seq<char>, e: TermV, r: TermV, x: Seq<char>)
    ensures
        y == x ==> subst(TermV::Abs(y, Box::new(e)), r, x) == TermV::Abs(y, Box::new(e)),
        y != x && !free_in(r, y) ==> subst(TermV::Abs(y, Box::new(e)), r, x) == TermV::Abs(
            y,
            Box::new(subst(e, r, x)),
        ),
        y != x && free_in(r, y) ==> subst(TermV::Abs(y, Box::new(e)), r, x) == TermV::Abs(
            fresh_name(r),
            Box::new(subst(subst(e, TermV::Var(fresh_name(r)), y), r, x)),
        ),
{
    let t = TermV::Abs(y, Box::new(e));
    let n = term_size(t);
    let f = (n - 1) as nat;
    if y == x {
    } else if free_in(r, y) {
        let z = fresh_name(r);
        lemma_subst_total(e, TermV::Var(z), y, term_size(e));
        lemma_subst_fuel_mono(e, TermV::Var(z), y, term_size(e), f);
        let renamed = subst_r(e, TermV::Var(z), y, f)->Some_0;
        lemma_subst_var_size(e, z, y, f);
        lemma_subst_total(renamed, r, x, term_size(renamed));
        lemma_subst_fuel_mono(renamed, r, x, term_size(renamed), f);
    } else {
        lemma_subst_total(e, r, x, term_size(e));
        lemma_subst_fuel_mono(e, r, x, term_size(e), f);
    }
}

/// Substituting a variable for a variable does not change a term's size.
pub proof fn lemma_subst_var_keeps_size(t: TermV, z: Seq<char>, x: Seq<char>)
    ensures
        term_size(subst(t, TermV::Var(z), x)) == term_size(t),
{
    lemma_subst_total(t, TermV::Var(z), x, term_size(t));
    lemma_subst_var_size(t, z, x, term_size(t));
}

proof fn lemma_subst_r_preserves_free(t: TermV, r: TermV, x: Seq<char>, w: Seq<char>, fuel: nat)
    requires
        subst_r(t, r, x, fuel) is Some,
        free_in(t, w),
        w != x,
        !is_generated_name(w),
    ensures
        free_in(subst_r(t, r, x, fuel)->Some_0, w),
    decreases fuel,
{
    let f = (fuel - 1) as nat;
    match t {
        TermV::Var(_) => {},
        TermV::App(e1, e2) => {
            if free_in(*e1, w) {
                lemma_subst_r_preserves_free(*e1, r, x, w, f);
            }
            if free_in(*e2, w) {
                lemma_subst_r_preserves_free(*e2, r, x, w, f);
            }
        },
        TermV::Abs(y, e) => {
            if y == x {
            } else if free_in(r, y) {
                let z = fresh_name(r);
                assert(is_generated_name(z)) by {
                    assert(z == cand(fresh_idx(r)));
                }
                lemma_subst_r_preserves_free(*e, TermV::Var(z), y, w, f);
                let renamed = subst_r(*e, TermV::Var(z), y, f)->Some_0;
                lemma_subst_r_preserves_free(renamed, r, x, w, f);
            } else {
                lemma_subst_r_preserves_free(*e, r, x, w, f);
            }
        },
    }
}

proof fn lemma_subst_r_keeps_replacement(t: TermV, r: TermV, x: Seq<char>, y: Seq<char>, fuel: nat)
    requires
        subst_r(t, r, x, fuel) is Some,
        free_in(t, x),
        free_in(r, y),
        !is_generated_name(x),
    ensures
        free_in(subst_r(t, r, x, fuel)->Some_0, y),
    decreases fuel,
{
    let f = (fuel - 1) as nat;
    match t {
        TermV::Var(_) => {},
        TermV::App(e1, e2) => {
            if free_in(*e1, x) {
                lemma_subst_r_keeps_replacement(*e1, r, x, y, f);
            } else {
                lemma_subst_r_keeps_replacement(*e2, r, x, y, f);
            }
        },
        TermV::Abs(y2, e) => {
            if free_in(r, y2) {
                let z = fresh_name(r);
                lemma_fresh_name(r);
                lemma_subst_r_preserves_free(*e, TermV::Var(z), y2, x, f);
                let renamed = subst_r(*e, TermV::Var(z), y2, f)->Some_0;
                lemma_subst_r_keeps_replacement(renamed, r, x, y, f);
            } else {
                lemma_subst_r_keeps_replacement(*e, r, x, y, f);
            }
        },
    }
}

proof fn lemma_subst_r_free_subset(t: TermV, r: TermV, x: Seq<char>, w: Seq<char>, fuel: nat)
    requires
        subst_r(t, r, x, fuel) is Some,
        free_in(subst_r(t, r, x, fuel)->Some_0, w),
    ensures
        (free_in(t, w) && w != x) || free_in(r, w),
    decreases fuel,
{
    let f = (fuel - 1) as nat;
    match t {
        TermV::Var(_) => {},
        TermV::App(e1, e2) => {
            let a = subst_r(*e1, r, x, f)->Some_0;
            let b = subst_r(*e2, r, x, f)->Some_0;
            if free_in(a, w) {
                lemma_subst_r_free_subset(*e1, r, x, w, f);
            } else {
                lemma_subst_r_free_subset(*e2, r, x, w, f);
            }
        },
        TermV::Abs(y, e) => {
            if y == x {
            } else if free_in(r, y) {
                let z = fresh_name(r);
                let renamed = subst_r(*e, TermV::Var(z), y, f)->Some_0;
                lemma_subst_r_free_subset(renamed, r, x, w, f);
                if free_in(renamed, w) && w != x {
                    lemma_subst_r_free_subset(*e, TermV::Var(z), y, w, f);
                }
            } else {
                lemma_subst_r_free_subset(*e, r, x, w, f);
            }
        },
    }
}

/// Substitution introduces no free name beyond those of its two inputs:
/// a name free in the result is a free name of the term other than the
/// replaced one, or a free name of the replacement.
pub proof fn lemma_subst_no_new_free(t: TermV, r: TermV, x: Seq<char>, w: Seq<char>)
    ensures
        free_in(subst(t, r, x), w) ==> ((free_in(t, w) && w != x) || free_in(r, w)),
{
    lemma_subst_total(t, r, x, term_size(t));
    if free_in(subst(t, r, x), w) {
        lemma_subst_r_free_subset(t, r, x, w, term_size(t));
    }
}

/// Capture-safety of substitution: when the replaced name `x` is outside the
/// generated family `v<N>` reserved for alpha-renaming, every name `y` free in
/// the replacement remains free in the result, never captured by an original
/// or renamed binder; and a renamed binder is never such a `y`.
pub proof fn lemma_substitution_capture_safe(t: TermV, r: TermV, x: Seq<char>, y: Seq<char>)
    requires
        free_in(t, x),
        free_in(r, y),
        !is_generated_name(x),
    ensures
        free_in(subst(t, r, x), y),
        fresh_name(r) != y,
{
    lemma_subst_total(t, r, x, term_size(t));
    lemma_subst_r_keeps_replacement(t, r, x, y, term_size(t));
    lemma_fresh_name(r);
}

/// Whether `t` contains a beta-redex: an application whose function side is
/// an abstraction, anywhere in the term.
pub open spec fn has_redex(t: TermV) -> bool
    decreases t,
{
    match t {
        TermV::Var(_) => false,
        TermV::App(e1, e2) => match *e1 {
            TermV::Abs(_, _) => true,
            _ => has_redex(*e1) || has_redex(*e2),
        },
        TermV::Abs(_, e) => has_redex(*e),
    }
}

/// One normal-order (leftmost-outermost) reduction step: an application whose
/// function side is an abstraction is beta-reduced at the root; otherwise the
/// function side is reduced if it contains a redex, else the argument side;
/// an abstraction reduces its body.
pub open spec fn step_of(t: TermV) -> TermV
    decreases t,
{
    match t {
        TermV::Var(_) => t,
        TermV::App(e1, e2) => match *e1 {
            TermV::Abs(v, e) => subst(*e, *e2, v),
            _ => if has_redex(*e1) {
                TermV::App(Box::new(step_of(*e1)), e2)
            } else {
                TermV::App(e1, Box::new(step_of(*e2)))
            },
        },
        TermV::Abs(v, e) => TermV::Abs(v, Box::new(step_of(*e))),
    }
}

/// `n` normal-order reduction steps applied to `t`.
pub open spec fn steps_of(t: TermV, n: nat) -> TermV
    decreases n,
{
    if n == 0 {
        t
    } else {
        step_of(steps_of(t, (n - 1) as nat))
    }
}

/// Whether normal-order reduction starting from `t` reaches a normal form.
pub open spec fn normalizes(t: TermV) -> bool {
    exists|n: nat| !has_redex(steps_of(t, n))
}

/// A step on a term without a redex leaves it unchanged.
pub proof fn lemma_step_of_normal(t: TermV)
    requires
        !has_redex(t),
    ensures
        step_of(t) == t,
    decreases t,
{
    match t {
        TermV::Var(_) => {},
        TermV::App(e1, e2) => {
            lemma_step_of_normal(*e2);
        },
        TermV::Abs(_, e) => {
            lemma_step_of_normal(*e);
        },
    }
}

/// Once a normal form is reached, further steps change nothing.
pub proof fn lemma_steps_of_stable(t: TermV, n: nat, m: nat)
    requires
        !has_redex(steps_of(t, n)),
        n <= m,
    ensures
        steps_of(t, m) == steps_of(t, n),
    decreases m,
{
    if m > n {
        lemma_steps_of_stable(t, n, (m - 1) as nat);
        lemma_step_of_normal(steps_of(t, (m - 1) as nat));
    }
}

/// The textual form of a term: `name` for a variable, `\name.body` for an
/// abstraction, and `f a` for an application, each side parenthesized unless
/// it is a bare variable.
pub open spec fn term_text(t: TermV) -> Seq<char>
    decreases t,
{
    match t {
        TermV::Var(s) => s,
        TermV::App(e1, e2) => {
            let s1 = match *e1 {
                TermV::Var(s) => s,
                _ => seq!['('] + term_text(*e1) + seq![')'],
            };
            let s2 = match *e2 {
                TermV::Var(s) => s,
                _ => seq!['('] + term_text(*e2) + seq![')'],
            };
            s1 + seq![' '] + s2
        },
        TermV::Abs(s, e) => seq!['\\'] + s + seq!['.'] + term_text(*e),
    }
}

impl AST {
    /// Whether the name `v` occurs free in this term.
    pub fn free(&self, v: &String) -> (b: bool)
        ensures
            b == free_in(self@, v@),
        decreases *self,
    {
        match self {
            AST::Var(v2) => *v == *v2,
            AST::App(e1, e2) => e1.free(v) || e2.free(v),
            AST::Abs(v2, e) => if *v == *v2 {
                false
            } else {
                e.free(v)
            },
        }
    }

    /// Appends the names of all variable occurrences of this term to `vars`.
    pub fn variables(&self, vars: &mut Vec<String>)
        ensures
            final(vars)@.map_values(|s: String| s@) == old(vars)@.map_values(|s: String| s@)
                + vars_of(self@),
        decreases *self,
    {
        match self {
            AST::Var(v) => {
                vars.push(v.clone());
                proof {
                    assert(vars@.map_values(|s: String| s@) =~= old(vars)@.map_values(
                        |s: String| s@,
                    ) + vars_of(self@));
                }
            },
            AST::App(e1, e2) => {
                e1.variables(vars);
                e2.variables(vars);
                proof {
                    assert(vars@.map_values(|s: String| s@) =~= old(vars)@.map_values(
                        |s: String| s@,
                    ) + vars_of(self@));
                }
            },
            AST::Abs(_, e) => {
                e.variables(vars);
            },
        }
    }

    /// A structural copy of this term.
    pub fn duplicate(&self) -> (r: AST)
        ensures
            r@ == self@,
        decreases *self,
    {
        match self {
            AST::Var(s) => AST::Var(s.clone()),
            AST::App(e1, e2) => AST::App(Box::new(e1.duplicate()), Box::new(e2.duplicate())),
            AST::Abs(s, e) => AST::Abs(s.clone(), Box::new(e.duplicate())),
        }
    }

    /// Appends to `free_vars` the names of the free variable occurrences of
    /// this term, in left-to-right order, one entry per occurrence.
    pub fn free_variables(&self, free_vars: &mut Vec<String>)
        ensures
            final(free_vars)@.map_values(|s: String| s@) == old(free_vars)@.map_values(
                |s: String| s@,
            ) + free_vars_of(self@),
    {
        let mut vars: Vec<String> = Vec::new();
        self.variables(&mut vars);
        proof {
            assert(vars@.map_values(|s: String| s@) =~= vars_of(self@));
        }
        let n = vars.len();
        let mut i: usize = 0;
        while i < n
            invariant
                i <= n,
                n == vars@.len(),
                vars@.map_values(|s: String| s@) == vars_of(self@),
                free_vars@.map_values(|s: String| s@) == old(free_vars)@.map_values(
                    |s: String| s@,
                ) + keep_free(self@, vars_of(self@).take(i as int)),
            decreases n - i,
        {
            let ghost vs = vars_of(self@);
            let ghost prev = free_vars@;
            proof {
                assert(vs[i as int] == vars@.map_values(|s: String| s@)[i as int]);
            }
            if self.free(&vars[i]) {
                free_vars.push(vars[i].clone());
                proof {
                    assert(free_vars@ == prev.push(vars@[i as int]));
                    assert(free_vars@.map_values(|s: String| s@) =~= prev.map_values(
                        |s: String| s@,
                    ).push(vs[i as int]));
                }
            }
            proof {
                let q = vs.take(i as int + 1);
                assert(q.drop_last() =~= vs.take(i as int));
                assert(q.last() == vs[i as int]);
                assert(keep_free(self@, q) == if free_in(self@, vs[i as int]) {
                    keep_free(self@, vs.take(i as int)).push(vs[i as int])
                } else {
                    keep_free(self@, vs.take(i as int))
                });
                assert(free_vars@.map_values(|s: String| s@) =~= old(free_vars)@.map_values(
                    |s: String| s@,
                ) + keep_free(self@, q));
            }
            i += 1;
        }
        proof {
            assert(vars_of(self@).take(n as int) =~= vars_of(self@));
        }
    }

    /// The first generated name `v0`, `v1`, ... that does not occur free in
    /// this term, found by probing increasing indices.
    pub fn new_variable(&self) -> (r: String)
        ensures
            r@ == fresh_name(self@),
    {
        let mut vars: Vec<String> = Vec::new();
        self.variables(&mut vars);
        let n = vars.len();
        proof {
            lemma_fresh_name(self@);
            assert(vars@.map_values(|s: String| s@) =~= vars_of(self@));
            assert(n == vars_of(self@).len());
        }
        let mut i: usize = 0;
        loop
            invariant
                i <= fresh_idx(self@),
                fresh_idx(self@) <= n,
                n == vars_of(self@).len(),
                !free_in(self@, fresh_name(self@)),
                forall|j: nat| j < fresh_idx(self@) ==> free_in(self@, #[trigger] cand(j)),
            decreases fresh_idx(self@) - i,
        {
            let name = crate::names::candidate_name(i);
            if !self.free(&name) {
                proof {
                    assert(i == fresh_idx(self@));
                }
                return name;
            }
            proof {
                assert(i < fresh_idx(self@));
            }
            i += 1;
        }
    }

    /// Capture-avoiding substitution: a copy of this term in which `e` stands
    /// in place of every free occurrence of the name `v`.
    pub fn assign(&self, e: &AST, v: &String) -> (r: AST)
        ensures
            r@ == subst(self@, e@, v@),
        decreases term_size(self@),
    {
        match self {
            AST::Var(v2) => {
                proof {
                    lemma_subst_var(v2@, e@, v@);
                }
                if *v == *v2 {
                    e.duplicate()
                } else {
                    self.duplicate()
                }
            },
            AST::App(e1, e2) => {
                proof {
                    lemma_subst_app(e1@, e2@, e@, v@);
                }
                AST::App(Box::new(e1.assign(e, v)), Box::new(e2.assign(e, v)))
            },
            AST::Abs(v2, e2) => {
                proof {
                    lemma_subst_abs(v2@, e2@, e@, v@);
                }
                if *v == *v2 {
                    self.duplicate()
                } else {
                    if e.free(v2) {
                        let new_v = e.new_variable();
                        proof {
                            lemma_subst_var_keeps_size(e2@, new_v@, v2@);
                        }
                        let renamed = e2.assign(&AST::Var(new_v.clone()), v2);
                        let body = renamed.assign(e, v);
                        AST::Abs(new_v, Box::new(body))
                    } else {
                        AST::Abs(v2.clone(), Box::new(e2.assign(e, v)))
                    }
                }
            },
        }
    }

    /// One normal-order reduction step: beta-reduces the leftmost-outermost
    /// redex; a term without a redex is returned unchanged.
    pub fn step(&self) -> (r: AST)
        ensures
            r@ == step_of(self@),
        decreases *self,
    {
        match self {
            AST::Var(_) => self.duplicate(),
            AST::App(e1, e2) => match &**e1 {
                AST::Abs(v, e) => {
                    let r = e.assign(e2, v);
                    proof {
                        assert((**e1)@ == TermV::Abs(v@, Box::new(e@)));
                        assert(self@ == TermV::App(
                            Box::new(TermV::Abs(v@, Box::new(e@))),
                            Box::new(e2@),
                        ));
                    }
                    r
                },
                _ => {
                    if e1.reductive() {
                        AST::App(Box::new(e1.step()), Box::new(e2.duplicate()))
                    } else {
                        AST::App(Box::new(e1.duplicate()), Box::new(e2.step()))
                    }
                },
            },
            AST::Abs(v, e) => AST::Abs(v.clone(), Box::new(e.step())),
        }
    }

    /// Whether this term contains a beta-redex.
    pub fn reductive(&self) -> (b: bool)
        ensures
            b == has_redex(self@),
        decreases *self,
    {
        match self {
            AST::Var(_) => false,
            AST::App(e1, e2) => match &**e1 {
                AST::Abs(_, _) => true,
                _ => e1.reductive() || e2.reductive(),
            },
            AST::Abs(_, e) => e.reductive(),
        }
    }

    /// The textual form of this term.
    pub fn to_text(&self) -> (r: String)
        ensures
            r@ == term_text(self@),
        decreases *self,
    {
        match self {
            AST::Var(s) => s.clone(),
            AST::App(e1, e2) => {
                let mut s = String::new();
                proof {
                    reveal_strlit("(");
                    reveal_strlit(")");
                    reveal_strlit(" ");
                }
                match &**e1 {
                    AST::Var(x) => {
                        proof {
                            assert((**e1)@ == TermV::Var(x@));
                        }
                        s.append(x.as_str());
                    },
                    _ => {
                        s.append("(");
                        let inner = e1.to_text();
                        s.append(inner.as_str());
                        s.append(")");
                    },
                }
                s.append(" ");
                match &**e2 {
                    AST::Var(x) => {
                        proof {
                            assert((**e2)@ == TermV::Var(x@));
                        }
                        s.append(x.as_str());
                    },
                    _ => {
                        s.append("(");
                        let inner = e2.to_text();
                        s.append(inner.as_str());
                        s.append(")");
                    },
                }
                proof {
                    assert(s@ =~= term_text(self@));
                }
                s
            },
            AST::Abs(v, e) => {
                let mut s = String::new();
                proof {
                    reveal_strlit("\\");
                    reveal_strlit(".");
                }
                s.append("\\");
                s.append(v.as_str());
                s.append(".");
                let inner = e.to_text();
                s.append(inner.as_str());
                proof {
                    assert(s@ =~= term_text(self@));
                }
                s
            },
        }
    }

    /// Normal-order reduction to normal form: repeats single steps until no
    /// redex remains. The result is the iterate of `step_of` at which the
    /// first normal form appears. Only terms whose normal-order reduction
    /// reaches a normal form are admitted: on any other term this iteration
    /// would run forever.
    pub fn beta_reduction(&self) -> (r: AST)
        requires
            normalizes(self@),
        ensures
            !has_redex(r@),
            exists|n: nat| r@ == steps_of(self@, n),
    {
        let ghost limit = choose|n: nat| !has_redex(steps_of(self@, n));
        let mut e = self.step();
        let ghost mut k: nat = 1;
        proof {
            assert(steps_of(self@, 0) == self@);
            assert(e@ == steps_of(self@, 1));
            if limit < 1 {
                lemma_step_of_normal(self@);
            }
        }
        loop
            invariant
                e@ == steps_of(self@, k),
                !has_redex(steps_of(self@, limit)),
                k <= limit || !has_redex(e@),
            decreases limit - k,
        {
            if !e.reductive() {
                return e;
            }
            proof {
                if k >= limit {
                    lemma_steps_of_stable(self@, limit, k);
                    assert(false);
                }
            }
            let next = e.step();
            proof {
                k = k + 1;
            }
            e = next;
        }
    }
}

} // verus!
