//! The boolean/numeric term language with a one-step evaluator that reports
//! where reduction stopped: the error side carries the innermost subterm at
//! which no rule applied.
use vstd::prelude::*;

verus! {

/// An expression of the boolean/numeric language.
#[derive(Debug, PartialEq, Eq)]
pub enum Exp {
    True,
    False,
    Zero,
    /// Conditional: guard, consequent, alternative.
    Cond(Box<Exp>, Box<Exp>, Box<Exp>),
    Succ(Box<Exp>),
    Pred(Box<Exp>),
    IsZero(Box<Exp>),
}

/// A numeric value: zero under finitely many successors.
pub open spec fn spec_is_numeric(e: Exp) -> bool
    decreases e,
{
    match e {
        Exp::Zero => true,
        Exp::Succ(n) => spec_is_numeric(*n),
        _ => false,
    }
}

/// A value: a boolean constant or a numeric value.
pub open spec fn spec_is_value(e: Exp) -> bool {
    e == Exp::True || e == Exp::False || spec_is_numeric(e)
}

/// The one-step evaluation relation: `Ok` carries the next expression, `Err`
/// the subterm at which reduction was blocked. A congruence rule hands the
/// blocked subterm of its child up unchanged, so the error side names the
/// innermost position the rules reached: a leaf constant reports itself, a
/// blocked predecessor — which has no congruence rule — reports the whole
/// predecessor expression.
pub open spec fn spec_step(e: Exp) -> Result<Exp, Exp>
    decreases e,
{
    match e {
        Exp::Cond(b, t, f) => if *b == Exp::True {
            Ok(*t)
        } else if *b == Exp::False {
            Ok(*f)
        } else {
            match spec_step(*b) {
                Ok(b2) => Ok(Exp::Cond(Box::new(b2), t, f)),
                Err(u) => Err(u),
            }
        },
        Exp::Succ(n) => match spec_step(*n) {
            Ok(n2) => Ok(Exp::Succ(Box::new(n2))),
            Err(u) => Err(u),
        },
        Exp::Pred(n) => if *n == Exp::Zero {
            Ok(Exp::Zero)
        } else if (*n matches Exp::Succ(_)) {
            Ok(*n->Succ_0)
        } else {
            Err(e)
        },
        Exp::IsZero(n) => if *n == Exp::Zero {
            Ok(Exp::True)
        } else if (*n matches Exp::Succ(m) && spec_is_numeric(*m)) {
            Ok(Exp::False)
        } else {
            match spec_step(*n) {
                Ok(n2) => Ok(Exp::IsZero(Box::new(n2))),
                Err(u) => Err(u),
            }
        },
        leaf => Err(leaf),
    }
}

impl Exp {
    /// Whether the expression is a numeric value.
    pub fn is_numeric(&self) -> (r: bool)
        ensures
            r == spec_is_numeric(*self),
        decreases *self,
    {
        match self {
            Exp::Zero => true,
            Exp::Succ(n) => n.is_numeric(),
            _ => false,
        }
    }

    /// Whether the expression is a value.
    pub fn is_value(&self) -> (r: bool)
        ensures
            r == spec_is_value(*self),
    {
        match self {
            Exp::True => true,
            Exp::False => true,
            e => e.is_numeric(),
        }
    }

    /// One evaluation step: the next expression, or, on the error side, the
    /// innermost subterm at which reduction was blocked.
    pub fn step(self) -> (r: Result<Exp, Exp>)
        ensures
            r == spec_step(self),
        decreases self,
    {
        match self {
            Exp::Cond(b, t, f) => match *b {
                Exp::True => Ok(*t),
                Exp::False => Ok(*f),
                b => match b.step() {
                    Ok(b2) => Ok(Exp::Cond(Box::new(b2), t, f)),
                    Err(u) => Err(u),
                },
            },
            Exp::Succ(n) => match n.step() {
                Ok(n2) => Ok(Exp::Succ(Box::new(n2))),
                Err(u) => Err(u),
            },
            Exp::Pred(n) => match *n {
                Exp::Zero => Ok(Exp::Zero),
                Exp::Succ(m) => Ok(*m),
                other => Err(Exp::Pred(Box::new(other))),
            },
            Exp::IsZero(n) => {
                let guard_numeric = match &*n {
                    Exp::Succ(m) => m.is_numeric(),
                    _ => false,
                };
                match *n {
                    Exp::Zero => Ok(Exp::True),
                    n => if guard_numeric {
                        Ok(Exp::False)
                    } else {
                        match n.step() {
                            Ok(n2) => Ok(Exp::IsZero(Box::new(n2))),
                            Err(u) => Err(u),
                        }
                    },
                }
            },
            leaf => Err(leaf),
        }
    }
}

} // verus!
