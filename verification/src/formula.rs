//! Propositional formulas: the executable syntax tree, its mathematical
//! model, its meaning under an assignment, and its printed form.
use vstd::prelude::*;

verus! {

/// A propositional variable, named by a string.
#[derive(Debug)]
pub struct NamedVariable {
    pub name: String,
}

/// An atom: one of the two constants or a named variable.
#[derive(Debug)]
pub enum Variable {
    True,
    False,
    Variable(NamedVariable),
}

impl NamedVariable {
    /// Wraps a name into a variable.
    pub fn new(name: String) -> (v: Self)
        ensures
            v.name@ == name@,
    {
        Self { name }
    }
}

#[derive(Debug, Clone, Copy, PartialEq, Eq, Structural)]
pub enum UnaryOp {
    Not,
}

#[derive(Debug, Clone, Copy, PartialEq, Eq, Structural)]
pub enum BinaryOp {
    And,
    Or,
    Implies,
    Iff,
}

/// The syntax tree of a propositional formula.
#[derive(Debug)]
pub enum Formula {
    Atom(Variable),
    Unary { op: UnaryOp, expr: Box<Formula> },
    Binary { op: BinaryOp, left: Box<Formula>, right: Box<Formula> },
}

/// The mathematical model of a formula: names are sequences of characters.
pub enum Prop {
    Top,
    Bottom,
    Var(Seq<char>),
    Not(Box<Prop>),
    Bin(BinaryOp, Box<Prop>, Box<Prop>),
}

impl View for Variable {
    type V = Prop;

    open spec fn view(&self) -> Prop {
        match self {
            Variable::True => Prop::Top,
            Variable::False => Prop::Bottom,
            Variable::Variable(v) => Prop::Var(v.name@),
        }
    }
}

pub open spec fn formula_view(f: &Formula) -> Prop
    decreases f,
{
    match f {
        Formula::Atom(v) => v@,
        Formula::Unary { op: _, expr } => Prop::Not(Box::new(formula_view(&**expr))),
        Formula::Binary { op, left, right } => Prop::Bin(
            *op,
            Box::new(formula_view(&**left)),
            Box::new(formula_view(&**right)),
        ),
    }
}

impl View for Formula {
    type V = Prop;

    open spec fn view(&self) -> Prop {
        formula_view(self)
    }
}

/// The number of nodes of a formula.
pub open spec fn size(f: Prop) -> nat
    decreases f,
{
    match f {
        Prop::Not(e) => 1 + size(*e),
        Prop::Bin(_, l, r) => 1 + size(*l) + size(*r),
        _ => 1,
    }
}

/// The truth table of each binary connective.
pub open spec fn apply_op(op: BinaryOp, a: bool, b: bool) -> bool {
    match op {
        BinaryOp::And => a && b,
        BinaryOp::Or => a || b,
        BinaryOp::Implies => !a || b,
        BinaryOp::Iff => a == b,
    }
}

/// The truth value of a formula under an assignment of the variables.
pub open spec fn eval(f: Prop, env: spec_fn(Seq<char>) -> bool) -> bool
    decreases f,
{
    match f {
        Prop::Top => true,
        Prop::Bottom => false,
        Prop::Var(n) => env(n),
        Prop::Not(e) => !eval(*e, env),
        Prop::Bin(op, l, r) => apply_op(op, eval(*l, env), eval(*r, env)),
    }
}

/// Two formulas are equivalent when they agree under every assignment.
pub open spec fn equivalent(f: Prop, g: Prop) -> bool {
    forall|env: spec_fn(Seq<char>) -> bool| #[trigger] eval(f, env) == eval(g, env)
}

/// The assignment `env` with the variable `p` set to `v`.
pub open spec fn assign(env: spec_fn(Seq<char>) -> bool, p: Seq<char>, v: bool) -> spec_fn(
    Seq<char>,
) -> bool {
    |x: Seq<char>| if x == p { v } else { env(x) }
}

/// Whether the variable `p` occurs in `f`.
pub open spec fn occurs(f: Prop, p: Seq<char>) -> bool
    decreases f,
{
    match f {
        Prop::Var(n) => n == p,
        Prop::Not(e) => occurs(*e, p),
        Prop::Bin(_, l, r) => occurs(*l, p) || occurs(*r, p),
        _ => false,
    }
}

pub open spec fn op_text(op: BinaryOp) -> Seq<char> {
    match op {
        BinaryOp::And => seq![' ', '∧', ' '],
        BinaryOp::Or => seq![' ', '∨', ' '],
        BinaryOp::Implies => seq![' ', '→', ' '],
        BinaryOp::Iff => seq![' ', '↔', ' '],
    }
}

/// The printed form of a formula: constants as `⊤` and `⊥`, negation as `¬`,
/// and every binary connective in parentheses.
pub open spec fn prop_text(f: Prop) -> Seq<char>
    decreases f,
{
    match f {
        Prop::Top => seq!['⊤'],
        Prop::Bottom => seq!['⊥'],
        Prop::Var(n) => n,
        Prop::Not(e) => seq!['¬'] + prop_text(*e),
        Prop::Bin(op, l, r) => seq!['('] + prop_text(*l) + op_text(op) + prop_text(*r) + seq![')'],
    }
}

/// A variable is printed as its whole name.
pub proof fn law_atom_prints_its_name(n: Seq<char>)
    ensures
        prop_text(Prop::Var(n)) == n,
{
}

/// The printed form of each connective: `⊤` and `⊥` for the constants, `¬`
/// before the printed operand, and each binary connective between its
/// printed operands, with a space on either side, in parentheses: `∧` for
/// and, `∨` for or, `→` for implies and `↔` for iff.
pub proof fn law_printed_connectives(l: Prop, r: Prop)
    ensures
        prop_text(Prop::Top) == seq!['⊤'],
        prop_text(Prop::Bottom) == seq!['⊥'],
        prop_text(Prop::Not(Box::new(l))) == seq!['¬'] + prop_text(l),
        prop_text(Prop::Bin(BinaryOp::And, Box::new(l), Box::new(r))) == seq!['('] + prop_text(l)
            + seq![' ', '∧', ' '] + prop_text(r) + seq![')'],
        prop_text(Prop::Bin(BinaryOp::Or, Box::new(l), Box::new(r))) == seq!['('] + prop_text(l)
            + seq![' ', '∨', ' '] + prop_text(r) + seq![')'],
        prop_text(Prop::Bin(BinaryOp::Implies, Box::new(l), Box::new(r))) == seq!['(']
            + prop_text(l) + seq![' ', '→', ' '] + prop_text(r) + seq![')'],
        prop_text(Prop::Bin(BinaryOp::Iff, Box::new(l), Box::new(r))) == seq!['('] + prop_text(l)
            + seq![' ', '↔', ' '] + prop_text(r) + seq![')'],
{
}

/// Every variable of a formula stands whole in its printed form: for each
/// name `q` that occurs in `f` there is a position of the printed text where
/// the characters of `q` follow one another.
pub proof fn law_printed_form_keeps_names(f: Prop, q: Seq<char>)
    requires
        occurs(f, q),
    ensures
        exists|i: int|
            0 <= i && i + q.len() <= prop_text(f).len() && #[trigger] prop_text(f).subrange(
                i,
                i + q.len(),
            ) == q,
    decreases f,
{
    let t = prop_text(f);
    match f {
        Prop::Var(n) => {
            assert(t.subrange(0, q.len() as int) =~= q);
            assert(prop_text(f).subrange(0, 0 + q.len() as int) == q);
        },
        Prop::Not(e) => {
            law_printed_form_keeps_names(*e, q);
            let te = prop_text(*e);
            let i = choose|i: int|
                0 <= i && i + q.len() <= te.len() && #[trigger] te.subrange(i, i + q.len()) == q;
            assert(t.subrange(i + 1, i + 1 + q.len()) =~= te.subrange(i, i + q.len()));
            assert(prop_text(f).subrange(i + 1, i + 1 + q.len()) == q);
        },
        Prop::Bin(op, l, r) => {
            let (tl, tr) = (prop_text(*l), prop_text(*r));
            if occurs(*l, q) {
                law_printed_form_keeps_names(*l, q);
                let i = choose|i: int|
                    0 <= i && i + q.len() <= tl.len() && #[trigger] tl.subrange(i, i + q.len())
                        == q;
                assert(t.subrange(i + 1, i + 1 + q.len()) =~= tl.subrange(i, i + q.len()));
                assert(prop_text(f).subrange(i + 1, i + 1 + q.len()) == q);
            } else {
                law_printed_form_keeps_names(*r, q);
                let i = choose|i: int|
                    0 <= i && i + q.len() <= tr.len() && #[trigger] tr.subrange(i, i + q.len())
                        == q;
                let d = 1 + tl.len() + op_text(op).len();
                assert(t.subrange(i + d, i + d + q.len()) =~= tr.subrange(i, i + q.len()));
                assert(prop_text(f).subrange(i + d, i + d + q.len()) == q);
            }
        },
        _ => {},
    }
}

impl Clone for NamedVariable {
    fn clone(&self) -> (r: Self)
        ensures
            r == *self,
    {
        NamedVariable { name: self.name.clone() }
    }
}

impl Clone for Variable {
    fn clone(&self) -> (r: Self)
        ensures
            r == *self,
    {
        match self {
            Variable::True => Variable::True,
            Variable::False => Variable::False,
            Variable::Variable(v) => Variable::Variable(v.clone()),
        }
    }
}

impl Clone for Formula {
    fn clone(&self) -> (r: Self)
        ensures
            r == *self,
        decreases self,
    {
        match self {
            Formula::Atom(v) => Formula::Atom(v.clone()),
            Formula::Unary { op, expr } => {
                let e = (&**expr).clone();
                Formula::Unary { op: *op, expr: Box::new(e) }
            },
            Formula::Binary { op, left, right } => {
                let l = (&**left).clone();
                let r = (&**right).clone();
                Formula::Binary { op: *op, left: Box::new(l), right: Box::new(r) }
            },
        }
    }
}

fn op_symbol(op: BinaryOp) -> (s: &'static str)
    ensures
        s@ == op_text(op),
{
    match op {
        BinaryOp::And => {
            proof {
                reveal_strlit(" ∧ ");
            }
            " ∧ "
        },
        BinaryOp::Or => {
            proof {
                reveal_strlit(" ∨ ");
            }
            " ∨ "
        },
        BinaryOp::Implies => {
            proof {
                reveal_strlit(" → ");
            }
            " → "
        },
        BinaryOp::Iff => {
            proof {
                reveal_strlit(" ↔ ");
            }
            " ↔ "
        },
    }
}

impl Formula {
    /// Appends the printed form of the formula to `out`.
    fn write_into(&self, out: &mut String)
        ensures
            final(out)@ == old(out)@ + prop_text(self@),
        decreases self,
    {
        match self {
            Formula::Atom(var) => match var {
                Variable::True => {
                    proof {
                        reveal_strlit("⊤");
                    }
                    out.append("⊤");
                },
                Variable::False => {
                    proof {
                        reveal_strlit("⊥");
                    }
                    out.append("⊥");
                },
                Variable::Variable(v) => {
                    out.append(v.name.as_str());
                },
            },
            Formula::Unary { op: _, expr } => {
                proof {
                    reveal_strlit("¬");
                }
                out.append("¬");
                (&**expr).write_into(out);
                assert(out@ =~= old(out)@ + prop_text(self@));
            },
            Formula::Binary { op, left, right } => {
                proof {
                    reveal_strlit("(");
                    reveal_strlit(")");
                }
                out.append("(");
                (&**left).write_into(out);
                out.append(op_symbol(*op));
                (&**right).write_into(out);
                out.append(")");
                assert(out@ =~= old(out)@ + prop_text(self@));
            },
        }
    }

    /// The printed form of the formula.
    pub fn to_string(&self) -> (s: String)
        ensures
            s@ == prop_text(self@),
    {
        let mut out = String::new();
        self.write_into(&mut out);
        assert(out@ =~= prop_text(self@));
        out
    }
}

} // verus!
