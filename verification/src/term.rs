//! The executable terms of the simply-typed calculus: the term tree itself,
//! the value test, index shifting and substitution, the one-step reducer,
//! the bounded evaluator, and the naming context used when rendering terms
//! back to text.
use vstd::prelude::*;

use crate::sem;
use crate::sem::Tm;
use crate::ty::Type;

verus! {

/// A term of the simply-typed calculus, with de Bruijn indices.
#[derive(Debug, PartialEq, Eq)]
pub enum Term {
    /// A boolean literal.
    Bool(bool),
    /// A conditional: guard, consequent, alternative.
    If { cond: Box<Term>, thn: Box<Term>, els: Box<Term> },
    /// A variable, as a de Bruijn index.
    Var(i64),
    /// An abstraction; the hint only suggests a name for printing.
    Abs { hint: String, ty: Type, body: Box<Term> },
    /// An application.
    App { fun: Box<Term>, arg: Box<Term> },
    /// A type ascription, transparent at runtime.
    Asc { term: Box<Term>, ty: Type },
    /// A let binding of one variable.
    Let { hint: String, arg: Box<Term>, body: Box<Term> },
    /// An ordered sequence of subterms.
    Tuple(Vec<Term>),
    /// Projection of a tuple component by position.
    TupleProject { tuple: Box<Term>, index: usize },
    /// An ordered record of labelled subterms. The data model asks for
    /// pairwise distinct labels (`sem::distinct_labels` states that
    /// invariant); all operations read a duplicated label as its first
    /// occurrence, so they stay deterministic on any input.
    Record(Vec<(String, Term)>),
    /// Projection of a record field by label.
    RecordProject { record: Box<Term>, label: String },
}

/// The mathematical value of a term.
pub open spec fn tm_of(t: Term) -> Tm
    decreases t,
{
    match t {
        Term::Bool(b) => Tm::Bool(b),
        Term::If { cond, thn, els } => Tm::If(
            Box::new(tm_of(*cond)),
            Box::new(tm_of(*thn)),
            Box::new(tm_of(*els)),
        ),
        Term::Var(i) => Tm::Var(i as int),
        Term::Abs { hint, ty, body } => Tm::Abs(hint@, ty@, Box::new(tm_of(*body))),
        Term::App { fun, arg } => Tm::App(Box::new(tm_of(*fun)), Box::new(tm_of(*arg))),
        Term::Asc { term, ty } => Tm::Asc(Box::new(tm_of(*term)), ty@),
        Term::Let { hint, arg, body } => Tm::Let(
            hint@,
            Box::new(tm_of(*arg)),
            Box::new(tm_of(*body)),
        ),
        Term::Tuple(es) => Tm::Tuple(tms_of(es@)),
        Term::TupleProject { tuple, index } => Tm::TupleProject(
            Box::new(tm_of(*tuple)),
            index as int,
        ),
        Term::Record(fs) => Tm::Record(tm_fields_of(fs@)),
        Term::RecordProject { record, label } => Tm::RecordProject(
            Box::new(tm_of(*record)),
            label@,
        ),
    }
}

/// The mathematical values of a sequence of terms.
pub open spec fn tms_of(es: Seq<Term>) -> Seq<Tm>
    decreases es,
{
    if es.len() == 0 {
        Seq::empty()
    } else {
        tms_of(es.drop_last()).push(tm_of(es.last()))
    }
}

/// The mathematical values of a sequence of labelled terms.
pub open spec fn tm_fields_of(fs: Seq<(String, Term)>) -> Seq<(Seq<char>, Tm)>
    decreases fs,
{
    if fs.len() == 0 {
        Seq::empty()
    } else {
        tm_fields_of(fs.drop_last()).push((fs.last().0@, tm_of(fs.last().1)))
    }
}

pub broadcast proof fn lemma_tms_of(es: Seq<Term>)
    ensures
        (#[trigger] tms_of(es)).len() == es.len(),
        forall|i: int| 0 <= i < es.len() ==> tms_of(es)[i] == tm_of(es[i]),
    decreases es,
{
    if es.len() > 0 {
        lemma_tms_of(es.drop_last());
    }
}

pub broadcast proof fn lemma_tm_fields_of(fs: Seq<(String, Term)>)
    ensures
        (#[trigger] tm_fields_of(fs)).len() == fs.len(),
        forall|i: int| 0 <= i < fs.len() ==> tm_fields_of(fs)[i] == (fs[i].0@, tm_of(fs[i].1)),
    decreases fs,
{
    if fs.len() > 0 {
        lemma_tm_fields_of(fs.drop_last());
    }
}

impl View for Term {
    type V = Tm;

    open spec fn view(&self) -> Tm {
        tm_of(*self)
    }
}

impl Term {
    /// Whether the term is a value: a boolean, a variable, an abstraction,
    /// or an aggregate of values.
    #[verifier::loop_isolation(false)]
    pub fn is_value(&self) -> (r: bool)
        ensures
            r == sem::is_val(self@),
        decreases *self,
    {
        broadcast use lemma_tms_of, lemma_tm_fields_of, vstd::std_specs::vec::group_vec_axioms;

        match self {
            Term::Bool(_) => true,
            Term::Var(_) => true,
            Term::Abs { .. } => true,
            Term::Tuple(es) => {
                let mut i: usize = 0;
                while i < es.len()
                    invariant
                        i <= es@.len(),
                        forall|k: int| 0 <= k < i ==> sem::is_val(#[trigger] tms_of(es@)[k]),
                    decreases es@.len() - i,
                {
                    proof {
                        assert(decreases_to!(*self => (*self)->Tuple_0));
                        assert(decreases_to!((*self)->Tuple_0 => (*self)->Tuple_0@));
                        assert(decreases_to!((*self)->Tuple_0@ => (*self)->Tuple_0@[i as int]));
                    }
                    if !es[i].is_value() {
                        proof {
                            assert(!sem::is_val(tms_of(es@)[i as int]));
                            sem::lemma_all_val(tms_of(es@));
                            assert(!sem::all_val(tms_of(es@)));
                            assert(!sem::is_val(self@));
                        }
                        return false;
                    }
                    i = i + 1;
                }
                proof {
                    assert(forall|k: int|
                        0 <= k < tms_of(es@).len() ==> sem::is_val(#[trigger] tms_of(es@)[k]));
                    sem::lemma_all_val(tms_of(es@));
                    assert(self@ == Tm::Tuple(tms_of(es@)));
                    assert(sem::is_val(self@));
                }
                true
            },
            Term::Record(fs) => {
                let mut i: usize = 0;
                while i < fs.len()
                    invariant
                        i <= fs@.len(),
                        forall|k: int| 0 <= k < i ==> sem::is_val(#[trigger] tm_fields_of(fs@)[k].1),
                    decreases fs@.len() - i,
                {
                    proof {
                        assert(decreases_to!(*self => (*self)->Record_0));
                        assert(decreases_to!((*self)->Record_0 => (*self)->Record_0@));
                        assert(decreases_to!((*self)->Record_0@ => (*self)->Record_0@[i as int]));
                        assert(decreases_to!((*self)->Record_0@[i as int] => (*self)->Record_0@[
                            i as int].1));
                    }
                    if !fs[i].1.is_value() {
                        proof {
                            assert(!sem::is_val(tm_fields_of(fs@)[i as int].1));
                            sem::lemma_all_val_fields(tm_fields_of(fs@));
                            assert(!sem::all_val_fields(tm_fields_of(fs@)));
                            assert(!sem::is_val(self@));
                        }
                        return false;
                    }
                    i = i + 1;
                }
                proof {
                    assert(forall|k: int|
                        0 <= k < tm_fields_of(fs@).len() ==> sem::is_val(
                            #[trigger] tm_fields_of(fs@)[k].1,
                        ));
                    sem::lemma_all_val_fields(tm_fields_of(fs@));
                    assert(self@ == Tm::Record(tm_fields_of(fs@)));
                    assert(sem::is_val(self@));
                }
                true
            },
            _ => false,
        }
    }

    /// A structurally equal copy of the term.
    #[verifier::loop_isolation(false)]
    pub fn dup(&self) -> (r: Term)
        ensures
            r@ == self@,
        decreases *self,
    {
        broadcast use lemma_tms_of, lemma_tm_fields_of, vstd::std_specs::vec::group_vec_axioms;

        match self {
            Term::Bool(b) => Term::Bool(*b),
            Term::If { cond, thn, els } => Term::If {
                cond: Box::new(cond.dup()),
                thn: Box::new(thn.dup()),
                els: Box::new(els.dup()),
            },
            Term::Var(i) => Term::Var(*i),
            Term::Abs { hint, ty, body } => Term::Abs {
                hint: hint.clone(),
                ty: ty.dup(),
                body: Box::new(body.dup()),
            },
            Term::App { fun, arg } => Term::App {
                fun: Box::new(fun.dup()),
                arg: Box::new(arg.dup()),
            },
            Term::Asc { term, ty } => Term::Asc {
                term: Box::new(term.dup()),
                ty: ty.dup(),
            },
            Term::Let { hint, arg, body } => Term::Let {
                hint: hint.clone(),
                arg: Box::new(arg.dup()),
                body: Box::new(body.dup()),
            },
            Term::Tuple(es) => {
                let mut out: Vec<Term> = Vec::new();
                let mut i: usize = 0;
                while i < es.len()
                    invariant
                        i <= es@.len(),
                        out@.len() == i,
                        forall|k: int| 0 <= k < i ==> (#[trigger] out@[k])@ == es@[k]@,
                    decreases es@.len() - i,
                {
                    proof {
                        assert(decreases_to!(*self => (*self)->Tuple_0));
                        assert(decreases_to!((*self)->Tuple_0 => (*self)->Tuple_0@));
                        assert(decreases_to!((*self)->Tuple_0@ => (*self)->Tuple_0@[i as int]));
                    }
                    out.push(es[i].dup());
                    i = i + 1;
                }
                proof {
                    assert(tms_of(out@) =~= tms_of(es@));
                }
                Term::Tuple(out)
            },
            Term::TupleProject { tuple, index } => Term::TupleProject {
                tuple: Box::new(tuple.dup()),
                index: *index,
            },
            Term::Record(fs) => {
                let mut out: Vec<(String, Term)> = Vec::new();
                let mut i: usize = 0;
                while i < fs.len()
                    invariant
                        i <= fs@.len(),
                        out@.len() == i,
                        forall|k: int| 0 <= k < i ==> (#[trigger] out@[k]).0@ == fs@[k].0@
                            && out@[k].1@ == fs@[k].1@,
                    decreases fs@.len() - i,
                {
                    proof {
                        assert(decreases_to!(*self => (*self)->Record_0));
                        assert(decreases_to!((*self)->Record_0 => (*self)->Record_0@));
                        assert(decreases_to!((*self)->Record_0@ => (*self)->Record_0@[i as int]));
                        assert(decreases_to!((*self)->Record_0@[i as int] => (*self)->Record_0@[
                            i as int].1));
                    }
                    let label = fs[i].0.clone();
                    let value = fs[i].1.dup();
                    out.push((label, value));
                    i = i + 1;
                }
                proof {
                    assert(tm_fields_of(out@) =~= tm_fields_of(fs@));
                }
                Term::Record(out)
            },
            Term::RecordProject { record, label } => Term::RecordProject {
                record: Box::new(record.dup()),
                label: label.clone(),
            },
        }
    }
}

} // verus!

verus! {

impl Term {
    /// Adds `d` to every variable index at or above the mathematical cutoff
    /// `cm`, whose clamp into machine range is `c`.
    #[verifier::loop_isolation(false)]
    fn shift_rec(&self, d: i64, c: u64, cm: Ghost<int>) -> (r: Term)
        requires
            0 <= cm@,
            c as int == if cm@ > u64::MAX as int {
                u64::MAX as int
            } else {
                cm@
            },
            sem::shift_fits(self@, d as int, cm@),
        ensures
            r@ == sem::shift_tm(self@, d as int, cm@),
        decreases *self,
    {
        broadcast use lemma_tms_of, lemma_tm_fields_of, vstd::std_specs::vec::group_vec_axioms;

        let c_next: u64 = if c < u64::MAX {
            c + 1
        } else {
            c
        };
        match self {
            Term::Bool(b) => Term::Bool(*b),
            Term::If { cond, thn, els } => Term::If {
                cond: Box::new(cond.shift_rec(d, c, cm)),
                thn: Box::new(thn.shift_rec(d, c, cm)),
                els: Box::new(els.shift_rec(d, c, cm)),
            },
            Term::Var(i) => {
                if *i >= 0 && (*i as u64) >= c {
                    proof {
                        assert(*i as int >= cm@);
                    }
                    Term::Var(*i + d)
                } else {
                    proof {
                        assert((*i as int) < cm@);
                    }
                    Term::Var(*i)
                }
            },
            Term::Abs { hint, ty, body } => Term::Abs {
                hint: hint.clone(),
                ty: ty.dup(),
                body: Box::new(body.shift_rec(d, c_next, Ghost(cm@ + 1))),
            },
            Term::App { fun, arg } => Term::App {
                fun: Box::new(fun.shift_rec(d, c, cm)),
                arg: Box::new(arg.shift_rec(d, c, cm)),
            },
            Term::Asc { term, ty } => Term::Asc {
                term: Box::new(term.shift_rec(d, c, cm)),
                ty: ty.dup(),
            },
            Term::Let { hint, arg, body } => Term::Let {
                hint: hint.clone(),
                arg: Box::new(arg.shift_rec(d, c, cm)),
                body: Box::new(body.shift_rec(d, c_next, Ghost(cm@ + 1))),
            },
            Term::Tuple(es) => {
                proof {
                    sem::lemma_all_shift_fits(tms_of(es@), d as int, cm@);
                }
                let mut out: Vec<Term> = Vec::new();
                let mut i: usize = 0;
                while i < es.len()
                    invariant
                        i <= es@.len(),
                        out@.len() == i,
                        forall|k: int| 0 <= k < i ==> (#[trigger] out@[k])@ == sem::shift_tm(
                            es@[k]@,
                            d as int,
                            cm@,
                        ),
                    decreases es@.len() - i,
                {
                    proof {
                        assert(decreases_to!(*self => (*self)->Tuple_0));
                        assert(decreases_to!((*self)->Tuple_0 => (*self)->Tuple_0@));
                        assert(decreases_to!((*self)->Tuple_0@ => (*self)->Tuple_0@[i as int]));
                        assert(sem::shift_fits(tms_of(es@)[i as int], d as int, cm@));
                    }
                    out.push(es[i].shift_rec(d, c, cm));
                    i = i + 1;
                }
                proof {
                    sem::lemma_shift_seq(tms_of(es@), d as int, cm@);
                    assert(tms_of(out@) =~= sem::shift_seq(tms_of(es@), d as int, cm@));
                }
                Term::Tuple(out)
            },
            Term::TupleProject { tuple, index } => Term::TupleProject {
                tuple: Box::new(tuple.shift_rec(d, c, cm)),
                index: *index,
            },
            Term::Record(fs) => {
                proof {
                    sem::lemma_all_shift_fits_fields(tm_fields_of(fs@), d as int, cm@);
                }
                let mut out: Vec<(String, Term)> = Vec::new();
                let mut i: usize = 0;
                while i < fs.len()
                    invariant
                        i <= fs@.len(),
                        out@.len() == i,
                        forall|k: int| 0 <= k < i ==> (#[trigger] out@[k]).0@ == fs@[k].0@
                            && out@[k].1@ == sem::shift_tm(fs@[k].1@, d as int, cm@),
                    decreases fs@.len() - i,
                {
                    proof {
                        assert(decreases_to!(*self => (*self)->Record_0));
                        assert(decreases_to!((*self)->Record_0 => (*self)->Record_0@));
                        assert(decreases_to!((*self)->Record_0@ => (*self)->Record_0@[i as int]));
                        assert(decreases_to!((*self)->Record_0@[i as int] => (*self)->Record_0@[
                            i as int].1));
                        assert(sem::shift_fits(tm_fields_of(fs@)[i as int].1, d as int, cm@));
                    }
                    let label = fs[i].0.clone();
                    let value = fs[i].1.shift_rec(d, c, cm);
                    out.push((label, value));
                    i = i + 1;
                }
                proof {
                    sem::lemma_shift_fields(tm_fields_of(fs@), d as int, cm@);
                    assert(tm_fields_of(out@) =~= sem::shift_fields(
                        tm_fields_of(fs@),
                        d as int,
                        cm@,
                    ));
                }
                Term::Record(out)
            },
            Term::RecordProject { record, label } => Term::RecordProject {
                record: Box::new(record.shift_rec(d, c, cm)),
                label: label.clone(),
            },
        }
    }

    /// Adds `d` to every variable index in the term that is not bound inside
    /// it.
    pub fn shift(&self, d: i64) -> (r: Term)
        requires
            sem::shift_fits(self@, d as int, 0),
        ensures
            r@ == sem::shift_tm(self@, d as int, 0),
    {
        self.shift_rec(d, 0, Ghost(0int))
    }

    /// Replaces every occurrence of variable `from + k` at binder depth `k`
    /// with `to` shifted up by `k`; `tgt` clamps `from + km` into machine
    /// range.
    #[verifier::loop_isolation(false)]
    fn subst_rec(&self, from: i64, to: &Term, tgt: u64, km: Ghost<int>) -> (r: Term)
        requires
            0 <= from,
            0 <= km@,
            tgt as int == if from + km@ > u64::MAX as int {
                u64::MAX as int
            } else {
                from + km@
            },
            sem::subst_fits(self@, from as int, to@, km@),
        ensures
            r@ == sem::subst_tm(self@, from as int, to@, km@),
        decreases *self,
    {
        broadcast use lemma_tms_of, lemma_tm_fields_of, vstd::std_specs::vec::group_vec_axioms;

        let tgt_next: u64 = if tgt < u64::MAX {
            tgt + 1
        } else {
            tgt
        };
        match self {
            Term::Bool(b) => Term::Bool(*b),
            Term::If { cond, thn, els } => Term::If {
                cond: Box::new(cond.subst_rec(from, to, tgt, km)),
                thn: Box::new(thn.subst_rec(from, to, tgt, km)),
                els: Box::new(els.subst_rec(from, to, tgt, km)),
            },
            Term::Var(i) => {
                if *i >= 0 && (*i as u64) == tgt && tgt != u64::MAX {
                    proof {
                        assert(*i as int == from + km@);
                    }
                    let depth: u64 = tgt - (from as u64);
                    proof {
                        assert(depth as int == km@);
                    }
                    to.shift_rec(depth as i64, 0, Ghost(0int))
                } else {
                    proof {
                        assert(*i as int != from + km@) by {
                            if *i as int == from + km@ {
                                assert(from + km@ <= i64::MAX as int);
                                assert(tgt as int == from + km@);
                            }
                        }
                    }
                    Term::Var(*i)
                }
            },
            Term::Abs { hint, ty, body } => Term::Abs {
                hint: hint.clone(),
                ty: ty.dup(),
                body: Box::new(body.subst_rec(from, to, tgt_next, Ghost(km@ + 1))),
            },
            Term::App { fun, arg } => Term::App {
                fun: Box::new(fun.subst_rec(from, to, tgt, km)),
                arg: Box::new(arg.subst_rec(from, to, tgt, km)),
            },
            Term::Asc { term, ty } => Term::Asc {
                term: Box::new(term.subst_rec(from, to, tgt, km)),
                ty: ty.dup(),
            },
            Term::Let { hint, arg, body } => Term::Let {
                hint: hint.clone(),
                arg: Box::new(arg.subst_rec(from, to, tgt, km)),
                body: Box::new(body.subst_rec(from, to, tgt_next, Ghost(km@ + 1))),
            },
            Term::Tuple(es) => {
                proof {
                    sem::lemma_all_subst_fits(tms_of(es@), from as int, to@, km@);
                }
                let mut out: Vec<Term> = Vec::new();
                let mut i: usize = 0;
                while i < es.len()
                    invariant
                        i <= es@.len(),
                        out@.len() == i,
                        forall|k: int| 0 <= k < i ==> (#[trigger] out@[k])@ == sem::subst_tm(
                            es@[k]@,
                            from as int,
                            to@,
                            km@,
                        ),
                    decreases es@.len() - i,
                {
                    proof {
                        assert(decreases_to!(*self => (*self)->Tuple_0));
                        assert(decreases_to!((*self)->Tuple_0 => (*self)->Tuple_0@));
                        assert(decreases_to!((*self)->Tuple_0@ => (*self)->Tuple_0@[i as int]));
                        assert(sem::subst_fits(tms_of(es@)[i as int], from as int, to@, km@));
                    }
                    out.push(es[i].subst_rec(from, to, tgt, km));
                    i = i + 1;
                }
                proof {
                    sem::lemma_subst_seq(tms_of(es@), from as int, to@, km@);
                    assert(tms_of(out@) =~= sem::subst_seq(tms_of(es@), from as int, to@, km@));
                }
                Term::Tuple(out)
            },
            Term::TupleProject { tuple, index } => Term::TupleProject {
                tuple: Box::new(tuple.subst_rec(from, to, tgt, km)),
                index: *index,
            },
            Term::Record(fs) => {
                proof {
                    sem::lemma_all_subst_fits_fields(tm_fields_of(fs@), from as int, to@, km@);
                }
                let mut out: Vec<(String, Term)> = Vec::new();
                let mut i: usize = 0;
                while i < fs.len()
                    invariant
                        i <= fs@.len(),
                        out@.len() == i,
                        forall|k: int| 0 <= k < i ==> (#[trigger] out@[k]).0@ == fs@[k].0@
                            && out@[k].1@ == sem::subst_tm(fs@[k].1@, from as int, to@, km@),
                    decreases fs@.len() - i,
                {
                    proof {
                        assert(decreases_to!(*self => (*self)->Record_0));
                        assert(decreases_to!((*self)->Record_0 => (*self)->Record_0@));
                        assert(decreases_to!((*self)->Record_0@ => (*self)->Record_0@[i as int]));
                        assert(decreases_to!((*self)->Record_0@[i as int] => (*self)->Record_0@[
                            i as int].1));
                        assert(sem::subst_fits(
                            tm_fields_of(fs@)[i as int].1,
                            from as int,
                            to@,
                            km@,
                        ));
                    }
                    let label = fs[i].0.clone();
                    let value = fs[i].1.subst_rec(from, to, tgt, km);
                    out.push((label, value));
                    i = i + 1;
                }
                proof {
                    sem::lemma_subst_fields(tm_fields_of(fs@), from as int, to@, km@);
                    assert(tm_fields_of(out@) =~= sem::subst_fields(
                        tm_fields_of(fs@),
                        from as int,
                        to@,
                        km@,
                    ));
                }
                Term::Record(out)
            },
            Term::RecordProject { record, label } => Term::RecordProject {
                record: Box::new(record.subst_rec(from, to, tgt, km)),
                label: label.clone(),
            },
        }
    }

    /// Replaces every free occurrence of variable `from` with `to`, adjusting
    /// the indices of `to` so that its free variables stay correctly bound.
    pub fn substitute(&self, from: i64, to: &Term) -> (r: Term)
        requires
            0 <= from,
            sem::subst_fits(self@, from as int, to@, 0),
        ensures
            r@ == sem::subst_tm(self@, from as int, to@, 0),
    {
        self.subst_rec(from, to, from as u64, Ghost(0int))
    }

    /// The substitution used by beta reduction: shift `to` up by one,
    /// substitute it for variable zero, then shift the result down by one to
    /// drop the eliminated binder.
    pub fn substitute_top(&self, to: &Term) -> (r: Term)
        requires
            sem::subst_top_fits(self@, to@),
        ensures
            r@ == sem::subst_top_tm(self@, to@),
    {
        let raised = to.shift(1);
        let replaced = self.substitute(0, &raised);
        replaced.shift(-1)
    }
}

} // verus!

verus! {

/// The distinguished signal for an internal-consistency violation: reduction
/// reached a projection whose subject type checking would have rejected.
#[derive(Debug, PartialEq, Eq)]
pub struct Violation;

/// The mathematical value of a step outcome.
pub open spec fn step_view(r: Result<Option<Term>, Violation>) -> Result<Option<Tm>, ()> {
    match r {
        Ok(Some(t)) => Ok(Some(t@)),
        Ok(None) => Ok(None),
        Err(_) => Err(()),
    }
}

/// The position of the first element of `es` that is not a value, or the
/// length when all are values.
#[verifier::loop_isolation(false)]
fn find_nonval(es: &Vec<Term>) -> (j: usize)
    ensures
        j as int == if sem::first_nonval(tms_of(es@)) == -1 {
            es@.len() as int
        } else {
            sem::first_nonval(tms_of(es@))
        },
        j as int <= es@.len(),
        j < es@.len() ==> !sem::is_val(tms_of(es@)[j as int]),
{
    broadcast use lemma_tms_of;

    let n = es.len();
    let mut j: usize = 0;
    while j < n && es[j].is_value()
        invariant
            j <= n,
            forall|k: int| 0 <= k < j ==> sem::is_val(#[trigger] tms_of(es@)[k]),
        decreases n - j,
    {
        j = j + 1;
    }
    proof {
        sem::lemma_first_nonval(tms_of(es@));
        let fnv = sem::first_nonval(tms_of(es@));
        if j == n {
            assert(fnv == -1);
        } else {
            assert(!sem::is_val(tms_of(es@)[j as int]));
            assert(fnv == j as int) by {
                if fnv < j as int {
                    assert(sem::is_val(tms_of(es@)[fnv]));
                }
                if fnv > j as int || fnv == -1 {
                    assert(sem::is_val(tms_of(es@)[j as int]));
                }
            }
        }
    }
    j
}

/// The position of the first field of `fs` whose value is not a value, or
/// the length when all are values.
#[verifier::loop_isolation(false)]
fn find_nonval_field(fs: &Vec<(String, Term)>) -> (j: usize)
    ensures
        j as int == if sem::first_nonval_fields(tm_fields_of(fs@)) == -1 {
            fs@.len() as int
        } else {
            sem::first_nonval_fields(tm_fields_of(fs@))
        },
        j as int <= fs@.len(),
        j < fs@.len() ==> !sem::is_val(tm_fields_of(fs@)[j as int].1),
{
    broadcast use lemma_tm_fields_of;

    let n = fs.len();
    let mut j: usize = 0;
    while j < n && fs[j].1.is_value()
        invariant
            j <= n,
            forall|k: int| 0 <= k < j ==> sem::is_val(#[trigger] tm_fields_of(fs@)[k].1),
        decreases n - j,
    {
        j = j + 1;
    }
    proof {
        sem::lemma_first_nonval_fields(tm_fields_of(fs@));
        let fnv = sem::first_nonval_fields(tm_fields_of(fs@));
        if j == n {
            assert(fnv == -1);
        } else {
            assert(!sem::is_val(tm_fields_of(fs@)[j as int].1));
            assert(fnv == j as int) by {
                if fnv < j as int {
                    assert(sem::is_val(tm_fields_of(fs@)[fnv].1));
                }
                if fnv > j as int || fnv == -1 {
                    assert(sem::is_val(tm_fields_of(fs@)[j as int].1));
                }
            }
        }
    }
    j
}

/// Copies `es` with position `j` replaced by `e2`.
#[verifier::loop_isolation(false)]
fn replace_at(es: &Vec<Term>, j: usize, e2: Term) -> (out: Vec<Term>)
    requires
        (j as int) < es@.len(),
    ensures
        tms_of(out@) == tms_of(es@).update(j as int, e2@),
{
    broadcast use lemma_tms_of, vstd::std_specs::vec::group_vec_axioms;

    let n = es.len();
    let mut out: Vec<Term> = Vec::new();
    let mut k: usize = 0;
    while k < j
        invariant
            k <= j,
            out@.len() == k,
            forall|k2: int| 0 <= k2 < k ==> (#[trigger] out@[k2])@ == tms_of(es@)[k2],
        decreases j - k,
    {
        out.push(es[k].dup());
        k = k + 1;
    }
    out.push(e2);
    let mut k: usize = j + 1;
    while k < n
        invariant
            j < k <= n,
            out@.len() == k,
            forall|k2: int| 0 <= k2 < k && k2 != j ==> (#[trigger] out@[k2])@ == tms_of(es@)[k2],
            out@[j as int]@ == e2@,
        decreases n - k,
    {
        out.push(es[k].dup());
        k = k + 1;
    }
    proof {
        assert(tms_of(out@) =~= tms_of(es@).update(j as int, e2@));
    }
    out
}

/// Copies `fs` with the value at position `j` replaced by `e2`, its label
/// kept.
#[verifier::loop_isolation(false)]
fn replace_field_at(fs: &Vec<(String, Term)>, j: usize, e2: Term) -> (out: Vec<(String, Term)>)
    requires
        (j as int) < fs@.len(),
    ensures
        tm_fields_of(out@) == tm_fields_of(fs@).update(
            j as int,
            (tm_fields_of(fs@)[j as int].0, e2@),
        ),
{
    broadcast use lemma_tm_fields_of, vstd::std_specs::vec::group_vec_axioms;

    let n = fs.len();
    let mut out: Vec<(String, Term)> = Vec::new();
    let mut k: usize = 0;
    while k < j
        invariant
            k <= j,
            out@.len() == k,
            forall|k2: int| 0 <= k2 < k ==> (#[trigger] out@[k2]).0@ == tm_fields_of(fs@)[k2].0
                && out@[k2].1@ == tm_fields_of(fs@)[k2].1,
        decreases j - k,
    {
        let label = fs[k].0.clone();
        let value = fs[k].1.dup();
        out.push((label, value));
        k = k + 1;
    }
    let label_j = fs[j].0.clone();
    out.push((label_j, e2));
    let mut k: usize = j + 1;
    while k < n
        invariant
            j < k <= n,
            out@.len() == k,
            forall|k2: int| 0 <= k2 < k && k2 != j ==> (#[trigger] out@[k2]).0@ == tm_fields_of(
                fs@,
            )[k2].0 && out@[k2].1@ == tm_fields_of(fs@)[k2].1,
            out@[j as int].0@ == tm_fields_of(fs@)[j as int].0,
            out@[j as int].1@ == e2@,
        decreases n - k,
    {
        let label = fs[k].0.clone();
        let value = fs[k].1.dup();
        out.push((label, value));
        k = k + 1;
    }
    proof {
        assert(tm_fields_of(out@) =~= tm_fields_of(fs@).update(
            j as int,
            (tm_fields_of(fs@)[j as int].0, e2@),
        ));
    }
    out
}

/// The value of the first field of `fs` carrying `label`, or `None`.
#[verifier::loop_isolation(false)]
fn record_get(fs: &Vec<(String, Term)>, label: &String) -> (r: Option<Term>)
    ensures
        match r {
            Some(t) => sem::lookup_field(tm_fields_of(fs@), label@) == Some(t@),
            None => sem::lookup_field(tm_fields_of(fs@), label@) == None::<Tm>,
        },
{
    broadcast use lemma_tm_fields_of, vstd::std_specs::vec::group_vec_axioms;

    let n = fs.len();
    let mut k: usize = 0;
    while k < n && !(fs[k].0 == *label)
        invariant
            k <= n,
            forall|k2: int| 0 <= k2 < k ==> (#[trigger] tm_fields_of(fs@)[k2].0) != label@,
        decreases n - k,
    {
        k = k + 1;
    }
    if k == n {
        proof {
            sem::lemma_lookup_field_none(tm_fields_of(fs@), label@);
        }
        None
    } else {
        proof {
            sem::lemma_lookup_field_at(tm_fields_of(fs@), label@, k as int);
        }
        Some(fs[k].1.dup())
    }
}

impl Term {
    /// One reduction step of a tuple: its first non-value element steps.
    #[verifier::loop_isolation(false)]
    fn step_tuple(es: &Vec<Term>) -> (r: Result<Option<Term>, Violation>)
        requires
            sem::step_fits(Tm::Tuple(tms_of(es@))),
        ensures
            step_view(r) == sem::step_tm(Tm::Tuple(tms_of(es@))),
        decreases *es, 0int,
    {
        broadcast use lemma_tms_of, vstd::std_specs::vec::group_vec_axioms;

        let j = find_nonval(es);
        if j == es.len() {
            Ok(None)
        } else {
            proof {
                broadcast use vstd::seq::group_seq_axioms;

                assert(0 <= (j as int) && (j as int) < es@.len());
                assert(sem::step_fits(tms_of(es@)[j as int]));
                assert(decreases_to!(*es => es@));
                assert(decreases_to!(es@ => es@[j as int]));
            }
            match es[j].step() {
                Ok(Some(e2)) => Ok(Some(Term::Tuple(replace_at(es, j, e2)))),
                Ok(None) => Ok(None),
                Err(v) => Err(v),
            }
        }
    }

    /// One reduction step of a record: its first non-value field steps.
    #[verifier::loop_isolation(false)]
    fn step_record(fs: &Vec<(String, Term)>) -> (r: Result<Option<Term>, Violation>)
        requires
            sem::step_fits(Tm::Record(tm_fields_of(fs@))),
        ensures
            step_view(r) == sem::step_tm(Tm::Record(tm_fields_of(fs@))),
        decreases *fs, 0int,
    {
        broadcast use lemma_tm_fields_of, vstd::std_specs::vec::group_vec_axioms;

        let j = find_nonval_field(fs);
        if j == fs.len() {
            Ok(None)
        } else {
            proof {
                broadcast use vstd::seq::group_seq_axioms;

                assert(0 <= (j as int) && (j as int) < fs@.len());
                assert(sem::step_fits(tm_fields_of(fs@)[j as int].1));
                assert(decreases_to!(*fs => fs@));
                assert(decreases_to!(fs@ => fs@[j as int]));
                assert(decreases_to!(fs@[j as int] => fs@[j as int].1));
            }
            match fs[j].1.step() {
                Ok(Some(e2)) => Ok(Some(Term::Record(replace_field_at(fs, j, e2)))),
                Ok(None) => Ok(None),
                Err(v) => Err(v),
            }
        }
    }

    /// One reduction step of an application.
    #[verifier::loop_isolation(false)]
    fn step_app(t: &Term) -> (r: Result<Option<Term>, Violation>)
        requires
            *t matches Term::App { .. },
            sem::step_fits(t@),
        ensures
            step_view(r) == sem::step_tm(t@),
        decreases *t, 0int,
    {
        match t {
            Term::App { fun, arg } => {
                let arg_val = arg.is_value();
                let fun_is_abs = match &**fun {
                    Term::Abs { .. } => true,
                    _ => false,
                };
                if fun_is_abs && arg_val {
                    match &**fun {
                        Term::Abs { hint: _, ty: _, body } => {
                            proof {
                                assert(t@->App_0 == fun@);
                                assert(fun@->Abs_2 == body@);
                                assert(sem::subst_top_fits(body@, arg@));
                            }
                            Ok(Some(body.substitute_top(arg)))
                        },
                        _ => Ok(None),
                    }
                } else if fun.is_value() {
                    match arg.step() {
                        Ok(Some(a2)) => Ok(Some(Term::App {
                            fun: Box::new(fun.dup()),
                            arg: Box::new(a2),
                        })),
                        Ok(None) => Ok(None),
                        Err(v) => Err(v),
                    }
                } else {
                    match fun.step() {
                        Ok(Some(f2)) => Ok(Some(Term::App {
                            fun: Box::new(f2),
                            arg: Box::new(arg.dup()),
                        })),
                        Ok(None) => Ok(None),
                        Err(v) => Err(v),
                    }
                }
            },
            _ => Ok(None),
        }
    }

    /// One reduction step of a conditional.
    #[verifier::loop_isolation(false)]
    fn step_if(t: &Term) -> (r: Result<Option<Term>, Violation>)
        requires
            *t matches Term::If { .. },
            sem::step_fits(t@),
        ensures
            step_view(r) == sem::step_tm(t@),
        decreases *t, 0int,
    {
        match t {
            Term::If { cond, thn, els } => match &**cond {
                Term::Bool(true) => Ok(Some(thn.dup())),
                Term::Bool(false) => Ok(Some(els.dup())),
                _ => match cond.step() {
                    Ok(Some(c2)) => Ok(Some(Term::If {
                        cond: Box::new(c2),
                        thn: Box::new(thn.dup()),
                        els: Box::new(els.dup()),
                    })),
                    Ok(None) => Ok(None),
                    Err(v) => Err(v),
                },
            },
            _ => Ok(None),
        }
    }

    /// One reduction step of an ascription.
    #[verifier::loop_isolation(false)]
    fn step_asc(t: &Term) -> (r: Result<Option<Term>, Violation>)
        requires
            *t matches Term::Asc { .. },
            sem::step_fits(t@),
        ensures
            step_view(r) == sem::step_tm(t@),
        decreases *t, 0int,
    {
        match t {
            Term::Asc { term, ty } => {
                if term.is_value() {
                    Ok(Some(term.dup()))
                } else {
                    match term.step() {
                        Ok(Some(t2)) => Ok(Some(Term::Asc {
                            term: Box::new(t2),
                            ty: ty.dup(),
                        })),
                        Ok(None) => Ok(None),
                        Err(v) => Err(v),
                    }
                }
            },
            _ => Ok(None),
        }
    }

    /// One reduction step of a let binding.
    #[verifier::loop_isolation(false)]
    fn step_let(t: &Term) -> (r: Result<Option<Term>, Violation>)
        requires
            *t matches Term::Let { .. },
            sem::step_fits(t@),
        ensures
            step_view(r) == sem::step_tm(t@),
        decreases *t, 0int,
    {
        match t {
            Term::Let { hint, arg, body } => {
                if arg.is_value() {
                    proof {
                        assert(sem::subst_top_fits(body@, arg@));
                    }
                    Ok(Some(body.substitute_top(arg)))
                } else {
                    match arg.step() {
                        Ok(Some(a2)) => Ok(Some(Term::Let {
                            hint: hint.clone(),
                            arg: Box::new(a2),
                            body: Box::new(body.dup()),
                        })),
                        Ok(None) => Ok(None),
                        Err(v) => Err(v),
                    }
                }
            },
            _ => Ok(None),
        }
    }

    /// One reduction step of a tuple projection.
    #[verifier::loop_isolation(false)]
    fn step_tuple_project(t: &Term) -> (r: Result<Option<Term>, Violation>)
        requires
            *t matches Term::TupleProject { .. },
            sem::step_fits(t@),
        ensures
            step_view(r) == sem::step_tm(t@),
        decreases *t, 0int,
    {
        broadcast use lemma_tms_of, vstd::std_specs::vec::group_vec_axioms;

        match t {
            Term::TupleProject { tuple, index } => {
                proof {
                    assert(t@ matches Tm::TupleProject(u, ix) && *u == tuple@ && ix
                        == *index as int);
                }
                if tuple.is_value() {
                    match &**tuple {
                        Term::Tuple(es) => {
                            proof {
                                assert(tuple@ == Tm::Tuple(tms_of(es@)));
                            }
                            if *index < es.len() {
                                let out = es[*index].dup();
                                proof {
                                    assert(sem::step_tm(t@) == Ok::<Option<Tm>, ()>(
                                        Some(tms_of(es@)[*index as int]),
                                    ));
                                }
                                Ok(Some(out))
                            } else {
                                proof {
                                    assert(sem::step_tm(t@) == Err::<Option<Tm>, ()>(()));
                                }
                                Err(Violation)
                            }
                        },
                        _ => {
                            proof {
                                assert(!(tuple@ matches Tm::Tuple(_)));
                                assert(sem::step_tm(t@) == Err::<Option<Tm>, ()>(()));
                            }
                            Err(Violation)
                        },
                    }
                } else {
                    match tuple.step() {
                        Ok(Some(u2)) => Ok(Some(Term::TupleProject {
                            tuple: Box::new(u2),
                            index: *index,
                        })),
                        Ok(None) => Ok(None),
                        Err(v) => Err(v),
                    }
                }
            },
            _ => Ok(None),
        }
    }

    /// One reduction step of a record projection.
    #[verifier::loop_isolation(false)]
    fn step_record_project(t: &Term) -> (r: Result<Option<Term>, Violation>)
        requires
            *t matches Term::RecordProject { .. },
            sem::step_fits(t@),
        ensures
            step_view(r) == sem::step_tm(t@),
        decreases *t, 0int,
    {
        broadcast use lemma_tm_fields_of, vstd::std_specs::vec::group_vec_axioms;

        match t {
            Term::RecordProject { record, label } => {
                if record.is_value() {
                    match &**record {
                        Term::Record(fs) => match record_get(fs, label) {
                            Some(found) => Ok(Some(found)),
                            None => Err(Violation),
                        },
                        _ => Err(Violation),
                    }
                } else {
                    match record.step() {
                        Ok(Some(u2)) => Ok(Some(Term::RecordProject {
                            record: Box::new(u2),
                            label: label.clone(),
                        })),
                        Ok(None) => Ok(None),
                        Err(v) => Err(v),
                    }
                }
            },
            _ => Ok(None),
        }
    }

    /// One call-by-value reduction step: the next term, `None` when no rule
    /// applies (a value, or an ordinarily stuck term), or the violation
    /// signal for a projection from a value of the wrong shape.
    #[verifier::loop_isolation(false)]
    pub fn step(&self) -> (r: Result<Option<Term>, Violation>)
        requires
            sem::step_fits(self@),
        ensures
            step_view(r) == sem::step_tm(self@),
        decreases *self, 1int,
    {
        match self {
            Term::Bool(_) => Ok(None),
            Term::Var(_) => Ok(None),
            Term::Abs { .. } => Ok(None),
            Term::App { .. } => Self::step_app(self),
            Term::If { .. } => Self::step_if(self),
            Term::Asc { .. } => Self::step_asc(self),
            Term::Let { .. } => Self::step_let(self),
            Term::Tuple(es) => {
                proof {
                    assert(decreases_to!(*self => (*self)->Tuple_0));
                }
                Self::step_tuple(es)
            },
            Term::TupleProject { .. } => Self::step_tuple_project(self),
            Term::Record(fs) => {
                proof {
                    assert(decreases_to!(*self => (*self)->Record_0));
                }
                Self::step_record(fs)
            },
            Term::RecordProject { .. } => Self::step_record_project(self),
        }
    }

}

} // verus!

verus! {

use crate::meta;

/// The mathematical value of an evaluation outcome.
pub open spec fn eval_view(r: Result<Term, Violation>) -> Result<Tm, ()> {
    match r {
        Ok(t) => Ok(t@),
        Err(_) => Err(()),
    }
}

/// Every variable index stored in a term lies in machine range.
pub proof fn lemma_view_indices(t: Term)
    ensures
        sem::i64_indices(tm_of(t)),
    decreases t,
{
    broadcast use lemma_tms_of, lemma_tm_fields_of;

    match t {
        Term::Bool(_) => {},
        Term::Var(_) => {},
        Term::If { cond, thn, els } => {
            lemma_view_indices(*cond);
            lemma_view_indices(*thn);
            lemma_view_indices(*els);
        },
        Term::Abs { hint: _, ty: _, body } => {
            lemma_view_indices(*body);
        },
        Term::App { fun, arg } => {
            lemma_view_indices(*fun);
            lemma_view_indices(*arg);
        },
        Term::Asc { term, ty: _ } => {
            lemma_view_indices(*term);
        },
        Term::Let { hint: _, arg, body } => {
            lemma_view_indices(*arg);
            lemma_view_indices(*body);
        },
        Term::Tuple(es) => {
            sem::lemma_all_i64_indices(tms_of(es@));
            assert forall|i: int| 0 <= i < tms_of(es@).len() implies sem::i64_indices(
                #[trigger] tms_of(es@)[i],
            ) by {
                assert(decreases_to!(t => es));
                assert(decreases_to!(es => es@));
                assert(decreases_to!(es@ => es@[i]));
                lemma_view_indices(es@[i]);
            }
        },
        Term::TupleProject { tuple, index: _ } => {
            lemma_view_indices(*tuple);
        },
        Term::Record(fs) => {
            sem::lemma_all_i64_indices_fields(tm_fields_of(fs@));
            assert forall|i: int| 0 <= i < tm_fields_of(fs@).len() implies sem::i64_indices(
                #[trigger] tm_fields_of(fs@)[i].1,
            ) by {
                assert(decreases_to!(t => fs));
                assert(decreases_to!(fs => fs@));
                assert(decreases_to!(fs@ => fs@[i]));
                assert(decreases_to!(fs@[i] => fs@[i].1));
                lemma_view_indices(fs@[i].1);
            }
        },
        Term::RecordProject { record, label: _ } => {
            lemma_view_indices(*record);
        },
    }
}

impl Term {
    /// Iterates one-step reduction up to `fuel` times, stopping early at a
    /// term with no step; the violation signal is passed through. The term
    /// must be closed: every variable bound inside it.
    pub fn eval(&self, fuel: u64) -> (r: Result<Term, Violation>)
        requires
            sem::scoped(self@, 0),
        ensures
            eval_view(r) == sem::eval_tm(self@, fuel as nat),
    {
        let mut cur = self.dup();
        let mut remaining: u64 = fuel;
        proof {
            lemma_view_indices(*self);
        }
        while remaining > 0
            invariant
                sem::scoped(cur@, 0),
                sem::i64_indices(cur@),
                sem::eval_tm(self@, fuel as nat) == sem::eval_tm(cur@, remaining as nat),
            decreases remaining,
        {
            proof {
                meta::lemma_scoped_step_fits(cur@);
            }
            let ghost before = cur@;
            match cur.step() {
                Ok(Some(next)) => {
                    proof {
                        meta::lemma_step_scoped(before, next@, 0);
                        meta::lemma_step_indices(before, next@);
                    }
                    cur = next;
                    remaining = remaining - 1;
                },
                Ok(None) => {
                    return Ok(cur);
                },
                Err(v) => {
                    return Err(v);
                },
            }
        }
        Ok(cur)
    }
}

} // verus!

verus! {

impl Term {
    /// Whether every variable below `cm` ambient binders is bound; `c`
    /// clamps `cm` into machine range.
    #[verifier::loop_isolation(false)]
    fn scoped_rec(&self, c: u64, cm: Ghost<int>) -> (r: bool)
        requires
            0 <= cm@,
            c as int == if cm@ > u64::MAX as int {
                u64::MAX as int
            } else {
                cm@
            },
        ensures
            r == sem::scoped(self@, cm@),
        decreases *self,
    {
        broadcast use lemma_tms_of, lemma_tm_fields_of, vstd::std_specs::vec::group_vec_axioms;

        let c_next: u64 = if c < u64::MAX {
            c + 1
        } else {
            c
        };
        match self {
            Term::Bool(_) => true,
            Term::Var(i) => *i >= 0 && (*i as u64) < c,
            Term::If { cond, thn, els } => cond.scoped_rec(c, cm) && thn.scoped_rec(c, cm)
                && els.scoped_rec(c, cm),
            Term::Abs { hint: _, ty: _, body } => body.scoped_rec(c_next, Ghost(cm@ + 1)),
            Term::App { fun, arg } => fun.scoped_rec(c, cm) && arg.scoped_rec(c, cm),
            Term::Asc { term, ty: _ } => term.scoped_rec(c, cm),
            Term::Let { hint: _, arg, body } => arg.scoped_rec(c, cm) && body.scoped_rec(
                c_next,
                Ghost(cm@ + 1),
            ),
            Term::Tuple(es) => {
                let mut i: usize = 0;
                while i < es.len()
                    invariant
                        i <= es@.len(),
                        forall|k: int| 0 <= k < i ==> sem::scoped(#[trigger] tms_of(es@)[k], cm@),
                    decreases es@.len() - i,
                {
                    proof {
                        assert(decreases_to!(*self => (*self)->Tuple_0));
                        assert(decreases_to!((*self)->Tuple_0 => (*self)->Tuple_0@));
                        assert(decreases_to!((*self)->Tuple_0@ => (*self)->Tuple_0@[i as int]));
                    }
                    if !es[i].scoped_rec(c, cm) {
                        proof {
                            assert(!sem::scoped(tms_of(es@)[i as int], cm@));
                            sem::lemma_all_scoped(tms_of(es@), cm@);
                            assert(!sem::all_scoped(tms_of(es@), cm@));
                            assert(!sem::scoped(self@, cm@));
                        }
                        return false;
                    }
                    i = i + 1;
                }
                proof {
                    sem::lemma_all_scoped(tms_of(es@), cm@);
                    assert(self@ == Tm::Tuple(tms_of(es@)));
                    assert(sem::scoped(self@, cm@));
                }
                true
            },
            Term::TupleProject { tuple, index: _ } => tuple.scoped_rec(c, cm),
            Term::Record(fs) => {
                let mut i: usize = 0;
                while i < fs.len()
                    invariant
                        i <= fs@.len(),
                        forall|k: int| 0 <= k < i ==> sem::scoped(
                            #[trigger] tm_fields_of(fs@)[k].1,
                            cm@,
                        ),
                    decreases fs@.len() - i,
                {
                    proof {
                        assert(decreases_to!(*self => (*self)->Record_0));
                        assert(decreases_to!((*self)->Record_0 => (*self)->Record_0@));
                        assert(decreases_to!((*self)->Record_0@ => (*self)->Record_0@[i as int]));
                        assert(decreases_to!((*self)->Record_0@[i as int] => (*self)->Record_0@[
                            i as int].1));
                    }
                    if !fs[i].1.scoped_rec(c, cm) {
                        proof {
                            assert(!sem::scoped(tm_fields_of(fs@)[i as int].1, cm@));
                            sem::lemma_all_scoped_fields(tm_fields_of(fs@), cm@);
                            assert(!sem::all_scoped_fields(tm_fields_of(fs@), cm@));
                            assert(!sem::scoped(self@, cm@));
                        }
                        return false;
                    }
                    i = i + 1;
                }
                proof {
                    sem::lemma_all_scoped_fields(tm_fields_of(fs@), cm@);
                    assert(self@ == Tm::Record(tm_fields_of(fs@)));
                    assert(sem::scoped(self@, cm@));
                }
                true
            },
            Term::RecordProject { record, label: _ } => record.scoped_rec(c, cm),
        }
    }

    /// Whether the term is closed: every variable bound inside it.
    pub fn is_closed(&self) -> (r: bool)
        ensures
            r == sem::scoped(self@, 0),
    {
        self.scoped_rec(0, Ghost(0int))
    }
}

} // verus!

verus! {

use vstd::string::StringExecFns;

/// The name with `k` prime marks appended.
pub open spec fn primed(nm: Seq<char>, k: nat) -> Seq<char>
    decreases k,
{
    if k == 0 {
        nm
    } else {
        primed(nm, (k - 1) as nat) + "'"@
    }
}

/// The first prime extension of `nm`, from `k` marks on, that the context
/// does not hold, giving up after `bound` further attempts.
pub open spec fn fresh_from(ctx: Seq<Seq<char>>, nm: Seq<char>, k: nat, bound: nat) -> Seq<char>
    decreases bound,
{
    if bound == 0 || !ctx.contains(primed(nm, k)) {
        primed(nm, k)
    } else {
        fresh_from(ctx, nm, (k + 1) as nat, (bound - 1) as nat)
    }
}

/// The shadow-safe name chosen for `nm` in the context: primes are appended
/// until the name is unique, which a context of `n` names forces within `n`
/// attempts.
pub open spec fn fresh(ctx: Seq<Seq<char>>, nm: Seq<char>) -> Seq<char> {
    fresh_from(ctx, nm, 0, ctx.len())
}

/// The naming context: the stack of in-scope variable names, outermost
/// first, used only to print de Bruijn indices as text.
#[derive(Debug)]
pub struct Context(Vec<String>);

impl View for Context {
    type V = Seq<Seq<char>>;

    closed spec fn view(&self) -> Seq<Seq<char>> {
        self.0@.map_values(|s: String| s@)
    }
}

/// The text a de Bruijn index prints as: the matching name counting from the
/// innermost binder, or one of three fixed placeholders for the first three
/// ambient free variables.
pub open spec fn name_at(ctx: Seq<Seq<char>>, i: int) -> Seq<char> {
    if i < ctx.len() {
        ctx[ctx.len() - 1 - i]
    } else if i == ctx.len() {
        "α"@
    } else if i == ctx.len() + 1 {
        "β"@
    } else {
        "ξ"@
    }
}

/// Whether the context holds a name with the given text.
fn context_holds(v: &Vec<String>, x: &String) -> (r: bool)
    ensures
        r == v@.map_values(|s: String| s@).contains(x@),
{
    let mut i: usize = 0;
    while i < v.len()
        invariant
            i <= v@.len(),
            forall|k: int| 0 <= k < i ==> (#[trigger] v@[k])@ != x@,
        decreases v@.len() - i,
    {
        if v[i] == *x {
            proof {
                assert(v@.map_values(|s: String| s@)[i as int] == x@);
            }
            return true;
        }
        i = i + 1;
    }
    proof {
        let mv = v@.map_values(|s: String| s@);
        if mv.contains(x@) {
            let w = choose|w: int| 0 <= w < mv.len() && mv[w] == x@;
            assert(mv[w] == v@[w]@);
        }
    }
    false
}

impl Context {
    /// The empty naming context.
    pub fn new() -> (r: Context)
        ensures
            r@ == Seq::<Seq<char>>::empty(),
    {
        let r = Context(Vec::new());
        proof {
            assert(r@ =~= Seq::<Seq<char>>::empty());
        }
        r
    }

    /// The number of names in scope.
    pub fn len(&self) -> (r: i64)
        requires
            self@.len() <= i64::MAX,
        ensures
            r as int == self@.len(),
    {
        self.0.len() as i64
    }

    /// Pushes `var`, renamed with prime marks until it shadows nothing, and
    /// returns the recorded name.
    pub fn push(&mut self, var: String) -> (r: String)
        ensures
            r@ == fresh(old(self)@, var@),
            final(self)@ == old(self)@.push(fresh(old(self)@, var@)),
    {
        let ghost ctxv = self@;
        let ghost nm = var@;
        let n = self.0.len();
        let mut cur = var;
        let mut k: usize = 0;
        proof {
            assert(n as int == ctxv.len());
            assert(cur@ == primed(nm, 0));
        }
        while k < n && context_holds(&self.0, &cur)
            invariant
                k <= n,
                self@ == ctxv,
                n as int == ctxv.len(),
                cur@ == primed(nm, k as nat),
                fresh(ctxv, nm) == fresh_from(ctxv, nm, k as nat, (n - k) as nat),
            decreases n - k,
        {
            cur.append("'");
            k = k + 1;
            proof {
                assert(cur@ == primed(nm, k as nat));
            }
        }
        proof {
            if k < n {
                assert(!ctxv.contains(primed(nm, k as nat)));
            }
            assert(fresh(ctxv, nm) == cur@);
        }
        let recorded = cur.clone();
        let ghost prev = self.0@;
        self.0.push(cur);
        proof {
            assert(self.0@.drop_last() == prev);
            assert(self@ =~= ctxv.push(fresh(ctxv, nm)));
        }
        recorded
    }

    /// Removes the innermost name, if any.
    pub fn pop(&mut self)
        ensures
            final(self)@ == if old(self)@.len() == 0 {
                old(self)@
            } else {
                old(self)@.drop_last()
            },
    {
        let ghost prev = self.0@;
        let popped = self.0.pop();
        proof {
            if prev.len() == 0 {
                assert(self@ =~= old(self)@);
            } else {
                assert(self.0@ == prev.drop_last());
                assert(self@ =~= old(self)@.drop_last());
            }
        }
    }

    /// The text a de Bruijn index prints as; indices four or more levels
    /// beyond the context are not handled.
    pub fn name(&self, index: i64) -> (r: String)
        requires
            0 <= index,
            index < self@.len() + 3,
        ensures
            r@ == name_at(self@, index as int),
    {
        let n = self.0.len();
        if (index as u64) < (n as u64) {
            let idx = n - 1 - (index as usize);
            proof {
                assert(self@[idx as int] == self.0@[idx as int]@);
            }
            self.0[idx].clone()
        } else {
            let over = (index as u64) - (n as u64);
            if over == 0 {
                String::from_str("α")
            } else if over == 1 {
                String::from_str("β")
            } else {
                String::from_str("ξ")
            }
        }
    }
}

impl Default for Context {
    /// The empty naming context.
    fn default() -> (r: Context)
        ensures
            r@ == Seq::<Seq<char>>::empty(),
    {
        Context::new()
    }
}

} // verus!

verus! {

use crate::ty::ty_text;

/// The decimal digits of a number.
pub open spec fn dec_digits(n: nat) -> Seq<char>
    decreases n,
{
    if n < 10 {
        seq![digit_char(n)]
    } else {
        dec_digits(n / 10).push(digit_char(n % 10))
    }
}

/// The character for one decimal digit.
pub open spec fn digit_char(d: nat) -> char {
    if d == 0 {
        '0'
    } else if d == 1 {
        '1'
    } else if d == 2 {
        '2'
    } else if d == 3 {
        '3'
    } else if d == 4 {
        '4'
    } else if d == 5 {
        '5'
    } else if d == 6 {
        '6'
    } else if d == 7 {
        '7'
    } else if d == 8 {
        '8'
    } else {
        '9'
    }
}

/// Appends one decimal digit.
fn push_digit(d: usize, out: &mut String)
    requires
        d < 10,
    ensures
        final(out)@ == old(out)@ + seq![digit_char(d as nat)],
{
    if d == 0 {
        out.append("0");
        proof {
            reveal_strlit("0");
            assert(out@ =~= old(out)@ + seq![digit_char(d as nat)]);
        }
    } else if d == 1 {
        out.append("1");
        proof {
            reveal_strlit("1");
            assert(out@ =~= old(out)@ + seq![digit_char(d as nat)]);
        }
    } else if d == 2 {
        out.append("2");
        proof {
            reveal_strlit("2");
            assert(out@ =~= old(out)@ + seq![digit_char(d as nat)]);
        }
    } else if d == 3 {
        out.append("3");
        proof {
            reveal_strlit("3");
            assert(out@ =~= old(out)@ + seq![digit_char(d as nat)]);
        }
    } else if d == 4 {
        out.append("4");
        proof {
            reveal_strlit("4");
            assert(out@ =~= old(out)@ + seq![digit_char(d as nat)]);
        }
    } else if d == 5 {
        out.append("5");
        proof {
            reveal_strlit("5");
            assert(out@ =~= old(out)@ + seq![digit_char(d as nat)]);
        }
    } else if d == 6 {
        out.append("6");
        proof {
            reveal_strlit("6");
            assert(out@ =~= old(out)@ + seq![digit_char(d as nat)]);
        }
    } else if d == 7 {
        out.append("7");
        proof {
            reveal_strlit("7");
            assert(out@ =~= old(out)@ + seq![digit_char(d as nat)]);
        }
    } else if d == 8 {
        out.append("8");
        proof {
            reveal_strlit("8");
            assert(out@ =~= old(out)@ + seq![digit_char(d as nat)]);
        }
    } else {
        out.append("9");
        proof {
            reveal_strlit("9");
            assert(out@ =~= old(out)@ + seq![digit_char(d as nat)]);
        }
    }
}

/// Appends a number in decimal.
fn push_dec(n: usize, out: &mut String)
    ensures
        final(out)@ == old(out)@ + dec_digits(n as nat),
    decreases n,
{
    if n < 10 {
        push_digit(n, out);
    } else {
        push_dec(n / 10, out);
        push_digit(n % 10, out);
        proof {
            assert(out@ =~= old(out)@ + dec_digits(n as nat));
        }
    }
}

/// The rendered text of a term below the naming context `c`: binders push a
/// shadow-safe name, printed between the parameter type and the body.
pub open spec fn term_text(t: Tm, c: Seq<Seq<char>>) -> Seq<char>
    decreases t,
{
    match t {
        Tm::Bool(v) => if v {
            "true"@
        } else {
            "false"@
        },
        Tm::If(g, a, b) => "if "@ + term_text(*g, c) + " then "@ + term_text(*a, c) + " else "@
            + term_text(*b, c),
        Tm::Var(i) => name_at(c, i),
        Tm::Abs(h, tp, body) => {
            let nm = fresh(c, h);
            "(λ"@ + ty_text(tp) + ": "@ + nm + ". "@ + term_text(*body, c.push(nm)) + ")"@
        },
        Tm::App(f, a) => "("@ + term_text(*f, c) + " "@ + term_text(*a, c) + ")"@,
        Tm::Asc(u, tp) => term_text(*u, c) + " as "@ + ty_text(tp),
        Tm::Let(h, a, b) => {
            let nm = fresh(c, h);
            "let "@ + nm + " = "@ + term_text(*a, c) + " in "@ + term_text(*b, c.push(nm))
        },
        Tm::Tuple(es) => "("@ + tuple_text(es, c) + ")"@,
        Tm::TupleProject(u, ix) => term_text(*u, c) + "."@ + dec_digits(
            if ix >= 0 {
                ix as nat
            } else {
                0
            },
        ),
        Tm::Record(fs) => "{"@ + record_text(fs, c) + "}"@,
        Tm::RecordProject(u, l) => term_text(*u, c) + "."@ + l,
    }
}

/// Comma-separated element texts.
pub open spec fn tuple_text(es: Seq<Tm>, c: Seq<Seq<char>>) -> Seq<char>
    decreases es,
{
    if es.len() == 0 {
        Seq::empty()
    } else if es.len() == 1 {
        term_text(es[0], c)
    } else {
        tuple_text(es.drop_last(), c) + ", "@ + term_text(es.last(), c)
    }
}

/// The record field texts: the first as `label = value`, the rest as
/// `, label =value`.
pub open spec fn record_text(fs: Seq<(Seq<char>, Tm)>, c: Seq<Seq<char>>) -> Seq<char>
    decreases fs,
{
    if fs.len() == 0 {
        Seq::empty()
    } else if fs.len() == 1 {
        fs[0].0 + " = "@ + term_text(fs[0].1, c)
    } else {
        record_text(fs.drop_last(), c) + ", "@ + fs.last().0 + " ="@ + term_text(fs.last().1, c)
    }
}

impl Context {
    /// The shadow-safe name that `push` would record, without recording it.
    fn fresh_name(&self, var: String) -> (r: String)
        ensures
            r@ == fresh(self@, var@),
    {
        let ghost ctxv = self@;
        let ghost nm = var@;
        let n = self.0.len();
        let mut cur = var;
        let mut k: usize = 0;
        proof {
            assert(n as int == ctxv.len());
            assert(cur@ == primed(nm, 0));
        }
        while k < n && context_holds(&self.0, &cur)
            invariant
                k <= n,
                self@ == ctxv,
                n as int == ctxv.len(),
                cur@ == primed(nm, k as nat),
                fresh(ctxv, nm) == fresh_from(ctxv, nm, k as nat, (n - k) as nat),
            decreases n - k,
        {
            cur.append("'");
            k = k + 1;
            proof {
                assert(cur@ == primed(nm, k as nat));
            }
        }
        proof {
            if k < n {
                assert(!ctxv.contains(primed(nm, k as nat)));
            }
            assert(fresh(ctxv, nm) == cur@);
        }
        cur
    }
}

impl Term {
    /// Appends the term's rendered text, pushing a shadow-safe name at each
    /// binder and popping it on the way out, so the naming context comes
    /// back unchanged.
    #[verifier::loop_isolation(false)]
    #[verifier::rlimit(100)]
    pub fn write(&self, context: &mut Context, out: &mut String)
        requires
            sem::renderable(self@, old(context)@.len() as int),
        ensures
            final(context)@ == old(context)@,
            final(out)@ == old(out)@ + term_text(self@, old(context)@),
        decreases *self,
    {
        broadcast use lemma_tms_of, lemma_tm_fields_of, vstd::std_specs::vec::group_vec_axioms;

        match self {
            Term::Bool(v) => {
                if *v {
                    out.append("true");
                } else {
                    out.append("false");
                }
            },
            Term::Var(i) => {
                let nm = context.name(*i);
                out.append(nm.as_str());
            },
            Term::If { cond, thn, els } => {
                out.append("if ");
                cond.write(context, out);
                out.append(" then ");
                thn.write(context, out);
                out.append(" else ");
                els.write(context, out);
                proof {
                    assert(out@ =~= old(out)@ + term_text(self@, old(context)@));
                }
            },
            Term::Abs { hint, ty, body } => {
                let ghost g = context@;
                out.append("(λ");
                ty.write(out);
                out.append(": ");
                let nm = context.push(hint.clone());
                out.append(nm.as_str());
                out.append(". ");
                body.write(context, out);
                out.append(")");
                context.pop();
                proof {
                    assert(context@ =~= g);
                    assert(out@ =~= old(out)@ + term_text(self@, old(context)@));
                }
            },
            Term::App { fun, arg } => {
                out.append("(");
                fun.write(context, out);
                out.append(" ");
                arg.write(context, out);
                out.append(")");
                proof {
                    assert(out@ =~= old(out)@ + term_text(self@, old(context)@));
                }
            },
            Term::Asc { term, ty } => {
                term.write(context, out);
                out.append(" as ");
                ty.write(out);
                proof {
                    assert(out@ =~= old(out)@ + term_text(self@, old(context)@));
                }
            },
            Term::Let { hint, arg, body } => {
                let ghost g = context@;
                let nm = context.fresh_name(hint.clone());
                out.append("let ");
                out.append(nm.as_str());
                out.append(" = ");
                arg.write(context, out);
                out.append(" in ");
                let recorded = context.push(hint.clone());
                proof {
                    assert(recorded@ == nm@);
                }
                body.write(context, out);
                context.pop();
                proof {
                    assert(context@ =~= g);
                    assert(out@ =~= old(out)@ + term_text(self@, old(context)@));
                }
            },
            Term::Tuple(es) => {
                let ghost g = context@;
                let ghost sv = tms_of(es@);
                proof {
                    sem::lemma_all_renderable(sv, g.len() as int);
                }
                out.append("(");
                let mut i: usize = 0;
                while i < es.len()
                    invariant
                        i <= es@.len(),
                        context@ == g,
                        out@ == old(out)@ + "("@ + tuple_text(sv.take(i as int), g),
                    decreases es@.len() - i,
                {
                    proof {
                        assert(decreases_to!(*self => (*self)->Tuple_0));
                        assert(decreases_to!((*self)->Tuple_0 => (*self)->Tuple_0@));
                        assert(decreases_to!((*self)->Tuple_0@ => (*self)->Tuple_0@[i as int]));
                        assert(sem::renderable(sv[i as int], g.len() as int));
                    }
                    if i > 0 {
                        out.append(", ");
                    }
                    es[i].write(context, out);
                    proof {
                        assert(sv.take(i + 1).drop_last() =~= sv.take(i as int));
                        assert(sv.take(i + 1).last() == sv[i as int]);
                        assert(out@ =~= old(out)@ + "("@ + tuple_text(sv.take(i + 1), g));
                    }
                    i = i + 1;
                }
                out.append(")");
                proof {
                    assert(sv.take(es@.len() as int) == sv);
                    assert(out@ =~= old(out)@ + term_text(self@, old(context)@));
                }
            },
            Term::TupleProject { tuple, index } => {
                tuple.write(context, out);
                out.append(".");
                push_dec(*index, out);
                proof {
                    assert(out@ =~= old(out)@ + term_text(self@, old(context)@));
                }
            },
            Term::Record(fs) => {
                let ghost g = context@;
                let ghost sv = tm_fields_of(fs@);
                proof {
                    sem::lemma_all_renderable_fields(sv, g.len() as int);
                }
                out.append("{");
                let mut i: usize = 0;
                while i < fs.len()
                    invariant
                        i <= fs@.len(),
                        context@ == g,
                        out@ == old(out)@ + "{"@ + record_text(sv.take(i as int), g),
                    decreases fs@.len() - i,
                {
                    proof {
                        assert(decreases_to!(*self => (*self)->Record_0));
                        assert(decreases_to!((*self)->Record_0 => (*self)->Record_0@));
                        assert(decreases_to!((*self)->Record_0@ => (*self)->Record_0@[i as int]));
                        assert(decreases_to!((*self)->Record_0@[i as int] => (*self)->Record_0@[
                            i as int].1));
                        assert(sem::renderable(sv[i as int].1, g.len() as int));
                    }
                    if i > 0 {
                        out.append(", ");
                        out.append(fs[i].0.as_str());
                        out.append(" =");
                    } else {
                        out.append(fs[i].0.as_str());
                        out.append(" = ");
                    }
                    fs[i].1.write(context, out);
                    proof {
                        assert(sv.take(i + 1).drop_last() =~= sv.take(i as int));
                        assert(sv.take(i + 1).last() == sv[i as int]);
                        assert(fs@[i as int].0@ == sv[i as int].0);
                        assert(out@ =~= old(out)@ + "{"@ + record_text(sv.take(i + 1), g));
                    }
                    i = i + 1;
                }
                out.append("}");
                proof {
                    assert(sv.take(fs@.len() as int) == sv);
                    assert(out@ =~= old(out)@ + term_text(self@, old(context)@));
                }
            },
            Term::RecordProject { record, label } => {
                record.write(context, out);
                out.append(".");
                out.append(label.as_str());
                proof {
                    assert(out@ =~= old(out)@ + term_text(self@, old(context)@));
                }
            },
        }
    }
}

} // verus!
