//! The two rewritings of formulas that the engine performs, as mathematical
//! functions, and what they preserve: substitution of a constant for a
//! variable, and simplification by the boolean identities.
use crate::formula::{assign, eval, occurs, size, BinaryOp, Prop};
use vstd::prelude::*;

verus! {

/// `f` with every occurrence of the variable `p` replaced by the constant `v`.
pub open spec fn subst(f: Prop, p: Seq<char>, v: bool) -> Prop
    decreases f,
{
    match f {
        Prop::Var(n) => if n == p {
            if v {
                Prop::Top
            } else {
                Prop::Bottom
            }
        } else {
            Prop::Var(n)
        },
        Prop::Not(e) => Prop::Not(Box::new(subst(*e, p, v))),
        Prop::Bin(op, l, r) => Prop::Bin(op, Box::new(subst(*l, p, v)), Box::new(subst(*r, p, v))),
        _ => f,
    }
}

/// One pass of simplification over `f`: the first identity that applies at a
/// node replaces the node; where none applies, the pass goes into the operands.
pub open spec fn walk(f: Prop) -> Prop
    decreases f,
{
    match f {
        Prop::Not(e) => match *e {
            Prop::Top => Prop::Bottom,
            Prop::Bottom => Prop::Top,
            _ => Prop::Not(Box::new(walk(*e))),
        },
        Prop::Bin(op, l, r) => {
            let (a, b) = (*l, *r);
            match op {
                BinaryOp::Or => if a is Top || b is Top {
                    Prop::Top
                } else if a is Bottom && b is Bottom {
                    Prop::Bottom
                } else if a is Bottom {
                    b
                } else if b is Bottom {
                    a
                } else {
                    Prop::Bin(op, Box::new(walk(a)), Box::new(walk(b)))
                },
                BinaryOp::And => if a is Bottom || b is Bottom {
                    Prop::Bottom
                } else if a is Top && b is Top {
                    Prop::Top
                } else if a is Top {
                    b
                } else if b is Top {
                    a
                } else {
                    Prop::Bin(op, Box::new(walk(a)), Box::new(walk(b)))
                },
                BinaryOp::Iff => if (a is Top && b is Top) || (a is Bottom && b is Bottom) {
                    Prop::Top
                } else if (a is Top && b is Bottom) || (a is Bottom && b is Top) {
                    Prop::Bottom
                } else if a is Top {
                    b
                } else if b is Top {
                    a
                } else if a is Bottom {
                    Prop::Not(Box::new(b))
                } else if b is Bottom {
                    Prop::Not(Box::new(a))
                } else {
                    Prop::Bin(op, Box::new(walk(a)), Box::new(walk(b)))
                },
                BinaryOp::Implies => if a is Bottom || b is Top {
                    Prop::Top
                } else if a is Top {
                    b
                } else if b is Bottom {
                    Prop::Not(Box::new(a))
                } else {
                    Prop::Bin(op, Box::new(walk(a)), Box::new(walk(b)))
                },
            }
        },
        _ => f,
    }
}

/// Whether a pass of simplification applies an identity anywhere in `f`.
pub open spec fn walk_changes(f: Prop) -> bool
    decreases f,
{
    match f {
        Prop::Not(e) => match *e {
            Prop::Top => true,
            Prop::Bottom => true,
            _ => walk_changes(*e),
        },
        Prop::Bin(op, l, r) => {
            let (a, b) = (*l, *r);
            let fires = match op {
                BinaryOp::Or => a is Top || b is Top || a is Bottom || b is Bottom,
                BinaryOp::And => a is Top || b is Top || a is Bottom || b is Bottom,
                BinaryOp::Iff => a is Top || b is Top || a is Bottom || b is Bottom,
                BinaryOp::Implies => a is Bottom || b is Top || a is Top || b is Bottom,
            };
            fires || walk_changes(a) || walk_changes(b)
        },
        _ => false,
    }
}

/// A pass that applies an identity makes the formula smaller; one that does
/// not leaves it as it is.
pub proof fn lemma_walk_size(f: Prop)
    ensures
        walk_changes(f) ==> size(walk(f)) < size(f),
        !walk_changes(f) ==> walk(f) == f,
        size(walk(f)) <= size(f),
    decreases f,
{
    match f {
        Prop::Not(e) => {
            lemma_walk_size(*e);
        },
        Prop::Bin(op, l, r) => {
            lemma_walk_size(*l);
            lemma_walk_size(*r);
        },
        _ => {},
    }
}

/// Passes of simplification repeated until one changes nothing.
pub open spec fn simplify_fix(f: Prop) -> Prop
    decreases size(f),
{
    if walk_changes(f) {
        proof {
            lemma_walk_size(f);
        }
        simplify_fix(walk(f))
    } else {
        f
    }
}

/// After simplification, a further pass changes nothing.
pub proof fn lemma_simplify_stable(f: Prop)
    ensures
        !walk_changes(simplify_fix(f)),
    decreases size(f),
{
    if walk_changes(f) {
        lemma_walk_size(f);
        lemma_simplify_stable(walk(f));
    }
}

/// A pass of simplification keeps the meaning of the formula.
pub proof fn lemma_walk_eval(f: Prop, env: spec_fn(Seq<char>) -> bool)
    ensures
        eval(walk(f), env) == eval(f, env),
    decreases f,
{
    match f {
        Prop::Not(e) => {
            lemma_walk_eval(*e, env);
        },
        Prop::Bin(op, l, r) => {
            lemma_walk_eval(*l, env);
            lemma_walk_eval(*r, env);
        },
        _ => {},
    }
}

/// Simplification keeps the meaning of the formula.
pub proof fn lemma_simplify_eval(f: Prop, env: spec_fn(Seq<char>) -> bool)
    ensures
        eval(simplify_fix(f), env) == eval(f, env),
    decreases size(f),
{
    if walk_changes(f) {
        lemma_walk_size(f);
        lemma_walk_eval(f, env);
        lemma_simplify_eval(walk(f), env);
    }
}

/// Substituting `v` for `p` is evaluating with `p` set to `v`.
pub proof fn lemma_subst_eval(f: Prop, p: Seq<char>, v: bool, env: spec_fn(Seq<char>) -> bool)
    ensures
        eval(subst(f, p, v), env) == eval(f, assign(env, p, v)),
    decreases f,
{
    match f {
        Prop::Not(e) => {
            lemma_subst_eval(*e, p, v, env);
        },
        Prop::Bin(op, l, r) => {
            lemma_subst_eval(*l, p, v, env);
            lemma_subst_eval(*r, p, v, env);
        },
        _ => {},
    }
}

/// Setting a variable that does not occur changes no truth value.
pub proof fn lemma_eval_assign_absent(f: Prop, p: Seq<char>, v: bool, env: spec_fn(Seq<char>) -> bool)
    requires
        !occurs(f, p),
    ensures
        eval(f, assign(env, p, v)) == eval(f, env),
    decreases f,
{
    match f {
        Prop::Not(e) => {
            lemma_eval_assign_absent(*e, p, v, env);
        },
        Prop::Bin(op, l, r) => {
            lemma_eval_assign_absent(*l, p, v, env);
            lemma_eval_assign_absent(*r, p, v, env);
        },
        _ => {},
    }
}

/// After substitution for `p`, `p` no longer occurs; no other variable appears.
pub proof fn lemma_subst_occurs(f: Prop, p: Seq<char>, v: bool, q: Seq<char>)
    ensures
        occurs(subst(f, p, v), q) <==> (occurs(f, q) && q != p),
    decreases f,
{
    match f {
        Prop::Not(e) => {
            lemma_subst_occurs(*e, p, v, q);
        },
        Prop::Bin(op, l, r) => {
            lemma_subst_occurs(*l, p, v, q);
            lemma_subst_occurs(*r, p, v, q);
        },
        _ => {},
    }
}

/// Simplification introduces no variable.
pub proof fn lemma_walk_occurs(f: Prop, q: Seq<char>)
    ensures
        occurs(walk(f), q) ==> occurs(f, q),
    decreases f,
{
    match f {
        Prop::Not(e) => {
            lemma_walk_occurs(*e, q);
        },
        Prop::Bin(op, l, r) => {
            lemma_walk_occurs(*l, q);
            lemma_walk_occurs(*r, q);
        },
        _ => {},
    }
}

pub proof fn lemma_simplify_occurs(f: Prop, q: Seq<char>)
    ensures
        occurs(simplify_fix(f), q) ==> occurs(f, q),
    decreases size(f),
{
    if walk_changes(f) {
        lemma_walk_size(f);
        lemma_walk_occurs(f, q);
        lemma_simplify_occurs(walk(f), q);
    }
}

/// A formula without variables on which a pass changes nothing is a constant.
pub proof fn lemma_closed_stable_is_constant(f: Prop)
    requires
        forall|q: Seq<char>| !occurs(f, q),
        !walk_changes(f),
    ensures
        f is Top || f is Bottom,
    decreases f,
{
    match f {
        Prop::Var(n) => {
            assert(occurs(f, n));
        },
        Prop::Not(e) => {
            assert forall|q: Seq<char>| !occurs(*e, q) by {
                assert(!occurs(f, q));
            }
            lemma_closed_stable_is_constant(*e);
        },
        Prop::Bin(op, l, r) => {
            assert forall|q: Seq<char>| !occurs(*l, q) by {
                assert(!occurs(f, q));
            }
            lemma_closed_stable_is_constant(*l);
        },
        _ => {},
    }
}

/// Simplifying a formula without variables gives a constant.
pub proof fn lemma_simplify_closed(f: Prop)
    requires
        forall|q: Seq<char>| !occurs(f, q),
    ensures
        simplify_fix(f) is Top || simplify_fix(f) is Bottom,
    decreases size(f),
{
    if walk_changes(f) {
        lemma_walk_size(f);
        assert forall|q: Seq<char>| !occurs(walk(f), q) by {
            lemma_walk_occurs(f, q);
        }
        lemma_simplify_closed(walk(f));
    } else {
        lemma_closed_stable_is_constant(f);
    }
}

/// Whether `f` mentions neither constant anywhere.
pub open spec fn constant_free(f: Prop) -> bool
    decreases f,
{
    match f {
        Prop::Top => false,
        Prop::Bottom => false,
        Prop::Var(_) => true,
        Prop::Not(e) => constant_free(*e),
        Prop::Bin(_, l, r) => constant_free(*l) && constant_free(*r),
    }
}

/// A formula on which a pass changes nothing is a constant or mentions no
/// constant.
proof fn lemma_stable_constant_free(f: Prop)
    requires
        !walk_changes(f),
    ensures
        f is Top || f is Bottom || constant_free(f),
    decreases f,
{
    match f {
        Prop::Not(e) => {
            lemma_stable_constant_free(*e);
        },
        Prop::Bin(op, l, r) => {
            lemma_stable_constant_free(*l);
            lemma_stable_constant_free(*r);
        },
        _ => {},
    }
}

/// Simplification removes every constant that can be removed: the result is
/// `T`, `F`, or a formula in which neither constant occurs, so no connective
/// is left with a constant operand (`a & T` becomes `a`, `a | F` becomes `a`,
/// `~T` becomes `F`, and so on). It keeps the meaning of the formula and
/// brings in no variable.
pub proof fn law_simplify_removes_constants(f: Prop)
    ensures
        ({
            let g = simplify_fix(f);
            &&& g is Top || g is Bottom || constant_free(g)
            &&& forall|env: spec_fn(Seq<char>) -> bool| #[trigger] eval(g, env) == eval(f, env)
            &&& forall|q: Seq<char>| #[trigger] occurs(g, q) ==> occurs(f, q)
        }),
{
    lemma_simplify_stable(f);
    lemma_stable_constant_free(simplify_fix(f));
    assert forall|env: spec_fn(Seq<char>) -> bool| #[trigger] eval(simplify_fix(f), env) == eval(
        f,
        env,
    ) by {
        lemma_simplify_eval(f, env);
    }
    assert forall|q: Seq<char>| #[trigger] occurs(simplify_fix(f), q) implies occurs(f, q) by {
        lemma_simplify_occurs(f, q);
    }
}

} // verus!
