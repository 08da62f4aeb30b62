//! The arithmetic language: boolean and numeric expressions with a one-step
//! reducer, the full reduction trace, a big-step evaluator, and a renderer
//! to the concrete prefix syntax.
use vstd::prelude::*;

verus! {

/// An expression of the arithmetic language.
#[derive(Debug, PartialEq, Eq)]
pub enum Exp {
    True,
    False,
    Zero,
    /// Conditional: guard, consequent, alternative.
    Cond(Box<Exp>, Box<Exp>, Box<Exp>),
    Succ(Box<Exp>),
    Pred(Box<Exp>),
    IsZero(Box<Exp>),
}

/// A numeric value: zero under finitely many successors.
pub open spec fn spec_is_numeric(e: Exp) -> bool
    decreases e,
{
    match e {
        Exp::Zero => true,
        Exp::Succ(n) => spec_is_numeric(*n),
        _ => false,
    }
}

/// A value: a boolean constant or a numeric value.
pub open spec fn spec_is_value(e: Exp) -> bool {
    e == Exp::True || e == Exp::False || spec_is_numeric(e)
}

/// The number of nodes in the expression tree.
pub open spec fn spec_size(e: Exp) -> nat
    decreases e,
{
    match e {
        Exp::True => 1,
        Exp::False => 1,
        Exp::Zero => 1,
        Exp::Succ(n) => spec_size(*n) + 1,
        Exp::Pred(n) => spec_size(*n) + 1,
        Exp::IsZero(n) => spec_size(*n) + 1,
        Exp::Cond(b, t, f) => spec_size(*b) + spec_size(*t) + spec_size(*f) + 1,
    }
}

/// The one-step evaluation relation: the next expression, or `None` when the
/// expression is a value or is stuck.
pub open spec fn spec_step(e: Exp) -> Option<Exp>
    decreases e,
{
    match e {
        Exp::Cond(b, t, f) => if *b == Exp::True {
            Some(*t)
        } else if *b == Exp::False {
            Some(*f)
        } else {
            match spec_step(*b) {
                Some(b2) => Some(Exp::Cond(Box::new(b2), t, f)),
                None => None,
            }
        },
        Exp::Succ(n) => match spec_step(*n) {
            Some(n2) => Some(Exp::Succ(Box::new(n2))),
            None => None,
        },
        Exp::Pred(n) => if *n == Exp::Zero {
            Some(Exp::Zero)
        } else if (*n matches Exp::Succ(_)) {
            Some(*n->Succ_0)
        } else {
            match spec_step(*n) {
                Some(n2) => Some(Exp::Pred(Box::new(n2))),
                None => None,
            }
        },
        Exp::IsZero(n) => if *n == Exp::Zero {
            Some(Exp::True)
        } else if (*n matches Exp::Succ(m) && spec_is_numeric(*m)) {
            Some(Exp::False)
        } else {
            match spec_step(*n) {
                Some(n2) => Some(Exp::IsZero(Box::new(n2))),
                None => None,
            }
        },
        _ => None,
    }
}

/// The big-step evaluation relation: `None` reports a stuck subterm.
pub open spec fn spec_eval(e: Exp) -> Option<Exp>
    decreases e,
{
    match e {
        Exp::Cond(b, t, f) => match spec_eval(*b) {
            Some(bv) => if bv == Exp::True {
                spec_eval(*t)
            } else if bv == Exp::False {
                spec_eval(*f)
            } else {
                None
            },
            None => None,
        },
        Exp::Succ(n) => match spec_eval(*n) {
            Some(nv) => Some(Exp::Succ(Box::new(nv))),
            None => None,
        },
        Exp::Pred(n) => match spec_eval(*n) {
            Some(nv) => if nv == Exp::Zero {
                Some(Exp::Zero)
            } else if (nv matches Exp::Succ(_)) {
                Some(*nv->Succ_0)
            } else {
                None
            },
            None => None,
        },
        Exp::IsZero(n) => match spec_eval(*n) {
            Some(nv) => if nv == Exp::Zero {
                Some(Exp::True)
            } else if (nv matches Exp::Succ(_)) {
                Some(Exp::False)
            } else {
                None
            },
            None => None,
        },
        v => Some(v),
    }
}

/// One evaluation step lowers the size of the expression.
proof fn lemma_step_size(e: Exp)
    ensures
        spec_step(e) matches Some(n) ==> spec_size(n) < spec_size(e),
    decreases e,
{
    match e {
        Exp::Cond(b, t, f) => {
            lemma_step_size(*b);
            assert(*b == Exp::True ==> spec_size(*t) < spec_size(e));
            assert(*b == Exp::False ==> spec_size(*f) < spec_size(e));
        },
        Exp::Succ(n) => {
            lemma_step_size(*n);
        },
        Exp::Pred(n) => {
            lemma_step_size(*n);
            if (*n matches Exp::Succ(m)) {
                assert(spec_size(*n) == spec_size(*n->Succ_0) + 1);
            }
        },
        Exp::IsZero(n) => {
            lemma_step_size(*n);
        },
        _ => {},
    }
}

impl Exp {
    /// A structurally equal copy of the expression.
    pub fn dup(&self) -> (r: Exp)
        ensures
            r == *self,
        decreases *self,
    {
        match self {
            Exp::True => Exp::True,
            Exp::False => Exp::False,
            Exp::Zero => Exp::Zero,
            Exp::Succ(n) => Exp::Succ(Box::new(n.dup())),
            Exp::Pred(n) => Exp::Pred(Box::new(n.dup())),
            Exp::IsZero(n) => Exp::IsZero(Box::new(n.dup())),
            Exp::Cond(b, t, f) => Exp::Cond(
                Box::new(b.dup()),
                Box::new(t.dup()),
                Box::new(f.dup()),
            ),
        }
    }

    /// Whether the expression is a numeric value.
    pub fn is_numeric(&self) -> (r: bool)
        ensures
            r == spec_is_numeric(*self),
        decreases *self,
    {
        match self {
            Exp::Zero => true,
            Exp::Succ(n) => n.is_numeric(),
            _ => false,
        }
    }

    /// Whether the expression is a value.
    pub fn is_value(&self) -> (r: bool)
        ensures
            r == spec_is_value(*self),
    {
        match self {
            Exp::True => true,
            Exp::False => true,
            e => e.is_numeric(),
        }
    }

    /// One evaluation step; `None` when the expression is a value or is
    /// stuck.
    pub fn step(&self) -> (r: Option<Exp>)
        ensures
            r == spec_step(*self),
        decreases *self,
    {
        match self {
            Exp::Cond(b, t, f) => match &**b {
                Exp::True => Some(t.dup()),
                Exp::False => Some(f.dup()),
                _ => match b.step() {
                    Some(b2) => Some(Exp::Cond(
                        Box::new(b2),
                        Box::new(t.dup()),
                        Box::new(f.dup()),
                    )),
                    None => None,
                },
            },
            Exp::Succ(n) => match n.step() {
                Some(n2) => Some(Exp::Succ(Box::new(n2))),
                None => None,
            },
            Exp::Pred(n) => match &**n {
                Exp::Zero => Some(Exp::Zero),
                Exp::Succ(m) => Some(m.dup()),
                _ => match n.step() {
                    Some(n2) => Some(Exp::Pred(Box::new(n2))),
                    None => None,
                },
            },
            Exp::IsZero(n) => match &**n {
                Exp::Zero => Some(Exp::True),
                Exp::Succ(m) if m.is_numeric() => Some(Exp::False),
                _ => match n.step() {
                    Some(n2) => Some(Exp::IsZero(Box::new(n2))),
                    None => None,
                },
            },
            _ => None,
        }
    }

    /// The full reduction trace: the expression itself, then each successor
    /// under the one-step relation, ending in the first expression with no
    /// step.
    pub fn step_all(self) -> (r: Vec<Exp>)
        ensures
            r@.len() >= 1,
            r@[0] == self,
            forall|i: int| 0 <= i < r@.len() - 1 ==> spec_step(r@[i]) == Some(r@[i + 1]),
            spec_step(r@[r@.len() - 1]) == None::<Exp>,
    {
        let ghost start = self;
        let mut out: Vec<Exp> = Vec::new();
        let mut cur = self;
        let mut stepped = cur.step();
        while stepped.is_some()
            invariant
                stepped == spec_step(cur),
                out@.len() == 0 ==> cur == start,
                out@.len() > 0 ==> out@[0] == start,
                out@.len() > 0 ==> spec_step(out@[out@.len() - 1]) == Some(cur),
                forall|i: int| 0 <= i < out@.len() - 1 ==> spec_step(out@[i]) == Some(out@[i + 1]),
            decreases spec_size(cur),
        {
            proof {
                lemma_step_size(cur);
            }
            let next = stepped.unwrap();
            out.push(cur);
            cur = next;
            stepped = cur.step();
        }
        out.push(cur);
        out
    }

    /// The big-step evaluation; `None` reports a stuck subterm.
    pub fn eval(&self) -> (r: Option<Exp>)
        ensures
            r == spec_eval(*self),
        decreases *self,
    {
        match self {
            Exp::Cond(b, t, f) => match b.eval() {
                Some(bv) => match bv {
                    Exp::True => t.eval(),
                    Exp::False => f.eval(),
                    _ => None,
                },
                None => None,
            },
            Exp::Succ(n) => match n.eval() {
                Some(nv) => Some(Exp::Succ(Box::new(nv))),
                None => None,
            },
            Exp::Pred(n) => match n.eval() {
                Some(nv) => match nv {
                    Exp::Zero => Some(Exp::Zero),
                    Exp::Succ(m) => Some(*m),
                    _ => None,
                },
                None => None,
            },
            Exp::IsZero(n) => match n.eval() {
                Some(nv) => match nv {
                    Exp::Zero => Some(Exp::True),
                    Exp::Succ(_) => Some(Exp::False),
                    _ => None,
                },
                None => None,
            },
            v => Some(v.dup()),
        }
    }
}

} // verus!

verus! {

use vstd::string::StringExecFns;

/// The concrete syntax of an expression: prefix keywords separated by single
/// spaces.
pub open spec fn render_exp(e: Exp) -> Seq<char>
    decreases e,
{
    match e {
        Exp::True => "true"@,
        Exp::False => "false"@,
        Exp::Zero => "0"@,
        Exp::Cond(b, t, f) => "if "@ + render_exp(*b) + " then "@ + render_exp(*t) + " else "@
            + render_exp(*f),
        Exp::Succ(n) => "succ "@ + render_exp(*n),
        Exp::Pred(n) => "pred "@ + render_exp(*n),
        Exp::IsZero(n) => "iszero "@ + render_exp(*n),
    }
}

impl Exp {
    /// Appends the expression's concrete syntax.
    pub fn write(&self, out: &mut String)
        ensures
            final(out)@ == old(out)@ + render_exp(*self),
        decreases *self,
    {
        match self {
            Exp::True => {
                out.append("true");
            },
            Exp::False => {
                out.append("false");
            },
            Exp::Zero => {
                out.append("0");
            },
            Exp::Cond(b, t, f) => {
                out.append("if ");
                b.write(out);
                out.append(" then ");
                t.write(out);
                out.append(" else ");
                f.write(out);
                proof {
                    assert(out@ =~= old(out)@ + render_exp(*self));
                }
            },
            Exp::Succ(n) => {
                out.append("succ ");
                n.write(out);
                proof {
                    assert(out@ =~= old(out)@ + render_exp(*self));
                }
            },
            Exp::Pred(n) => {
                out.append("pred ");
                n.write(out);
                proof {
                    assert(out@ =~= old(out)@ + render_exp(*self));
                }
            },
            Exp::IsZero(n) => {
                out.append("iszero ");
                n.write(out);
                proof {
                    assert(out@ =~= old(out)@ + render_exp(*self));
                }
            },
        }
    }

    /// The expression's concrete syntax.
    pub fn render(&self) -> (r: String)
        ensures
            r@ == render_exp(*self),
    {
        let mut out = String::new();
        self.write(&mut out);
        proof {
            assert(out@ =~= render_exp(*self));
        }
        out
    }
}

} // verus!
