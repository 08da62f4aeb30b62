//! The executable types of the simply-typed calculus, typing contexts, the
//! typing errors, and the type checker.
use vstd::prelude::*;

use crate::sem::Ty;
use crate::sem::TyErr;

verus! {

/// A type: boolean, function, tuple, or record of named fields.
#[derive(Debug, PartialEq, Eq)]
pub enum Type {
    Bool,
    Fun(Box<Type>, Box<Type>),
    Tuple(Vec<Type>),
    /// An ordered record type. The data model asks for pairwise distinct
    /// labels (`sem::distinct_labels_ty` states that invariant); a duplicated
    /// label reads as its first occurrence.
    Record(Vec<(String, Type)>),
}

/// The mathematical value of a type.
pub open spec fn ty_of(t: Type) -> Ty
    decreases t,
{
    match t {
        Type::Bool => Ty::Bool,
        Type::Fun(f, r) => Ty::Fun(Box::new(ty_of(*f)), Box::new(ty_of(*r))),
        Type::Tuple(ts) => Ty::Tuple(tys_of(ts@)),
        Type::Record(fs) => Ty::Record(ty_fields_of(fs@)),
    }
}

/// The mathematical values of a sequence of types.
pub open spec fn tys_of(ts: Seq<Type>) -> Seq<Ty>
    decreases ts,
{
    if ts.len() == 0 {
        Seq::empty()
    } else {
        tys_of(ts.drop_last()).push(ty_of(ts.last()))
    }
}

/// The mathematical values of a sequence of labelled types.
pub open spec fn ty_fields_of(fs: Seq<(String, Type)>) -> Seq<(Seq<char>, Ty)>
    decreases fs,
{
    if fs.len() == 0 {
        Seq::empty()
    } else {
        ty_fields_of(fs.drop_last()).push((fs.last().0@, ty_of(fs.last().1)))
    }
}

pub broadcast proof fn lemma_tys_of(ts: Seq<Type>)
    ensures
        (#[trigger] tys_of(ts)).len() == ts.len(),
        forall|i: int| 0 <= i < ts.len() ==> tys_of(ts)[i] == ty_of(ts[i]),
    decreases ts,
{
    if ts.len() > 0 {
        lemma_tys_of(ts.drop_last());
    }
}

pub broadcast proof fn lemma_ty_fields_of(fs: Seq<(String, Type)>)
    ensures
        (#[trigger] ty_fields_of(fs)).len() == fs.len(),
        forall|i: int| 0 <= i < fs.len() ==> ty_fields_of(fs)[i] == (fs[i].0@, ty_of(fs[i].1)),
    decreases fs,
{
    if fs.len() > 0 {
        lemma_ty_fields_of(fs.drop_last());
    }
}

impl View for Type {
    type V = Ty;

    open spec fn view(&self) -> Ty {
        ty_of(*self)
    }
}

impl Type {
    /// A structurally equal copy of the type.
    #[verifier::loop_isolation(false)]
    pub fn dup(&self) -> (r: Type)
        ensures
            r@ == self@,
        decreases *self,
    {
        broadcast use lemma_tys_of, lemma_ty_fields_of;

        match self {
            Type::Bool => Type::Bool,
            Type::Fun(f, t) => Type::Fun(Box::new(f.dup()), Box::new(t.dup())),
            Type::Tuple(ts) => {
                let mut out: Vec<Type> = Vec::new();
                let mut i: usize = 0;
                while i < ts.len()
                    invariant
                        i <= ts@.len(),
                        out@.len() == i,
                        forall|k: int| 0 <= k < i ==> out@[k]@ == ts@[k]@,
                    decreases ts@.len() - i,
                {
                    proof {
                        broadcast use vstd::std_specs::vec::group_vec_axioms;

                        assert(decreases_to!(*self => (*self)->Tuple_0));
                        assert(decreases_to!((*self)->Tuple_0 => (*self)->Tuple_0@));
                        assert(decreases_to!((*self)->Tuple_0@ => (*self)->Tuple_0@[i as int]));
                    }
                    out.push(ts[i].dup());
                    i = i + 1;
                }
                proof {
                    assert(tys_of(out@) =~= tys_of(ts@)) by {
                        assert(forall|k: int|
                            0 <= k < out@.len() ==> tys_of(out@)[k] == ty_of(#[trigger] out@[k]));
                        assert(forall|k: int|
                            0 <= k < ts@.len() ==> tys_of(ts@)[k] == ty_of(#[trigger] ts@[k]));
                    }
                }
                Type::Tuple(out)
            },
            Type::Record(fs) => {
                let mut out: Vec<(String, Type)> = Vec::new();
                let mut i: usize = 0;
                while i < fs.len()
                    invariant
                        i <= fs@.len(),
                        out@.len() == i,
                        forall|k: int| 0 <= k < i ==> out@[k].0@ == fs@[k].0@ && out@[k].1@
                            == fs@[k].1@,
                    decreases fs@.len() - i,
                {
                    proof {
                        broadcast use vstd::std_specs::vec::group_vec_axioms;

                        assert(decreases_to!(*self => (*self)->Record_0));
                        assert(decreases_to!((*self)->Record_0 => (*self)->Record_0@));
                        assert(decreases_to!((*self)->Record_0@ => (*self)->Record_0@[i as int]));
                        assert(decreases_to!((*self)->Record_0@[i as int] => (*self)->Record_0@[i as int].1));
                    }
                    let label = fs[i].0.clone();
                    let value = fs[i].1.dup();
                    out.push((label, value));
                    i = i + 1;
                }
                proof {
                    assert(ty_fields_of(out@) =~= ty_fields_of(fs@)) by {
                        assert(forall|k: int|
                            0 <= k < out@.len() ==> ty_fields_of(out@)[k] == (
                                #[trigger] out@[k].0@,
                                ty_of(out@[k].1),
                            ));
                        assert(forall|k: int|
                            0 <= k < fs@.len() ==> ty_fields_of(fs@)[k] == (
                                #[trigger] fs@[k].0@,
                                ty_of(fs@[k].1),
                            ));
                    }
                }
                Type::Record(out)
            },
        }
    }

    /// Structural equality of two types.
    #[verifier::loop_isolation(false)]
    pub fn same(&self, other: &Type) -> (r: bool)
        ensures
            r == (self@ == other@),
        decreases *self,
    {
        broadcast use lemma_tys_of, lemma_ty_fields_of;

        match (self, other) {
            (Type::Bool, Type::Bool) => true,
            (Type::Fun(a1, r1), Type::Fun(a2, r2)) => {
                let r = a1.same(a2) && r1.same(r2);
                proof {
                    if a1@ == a2@ && r1@ == r2@ {
                        assert(self@ == other@);
                    }
                }
                r
            },
            (Type::Tuple(ts1), Type::Tuple(ts2)) => {
                if ts1.len() != ts2.len() {
                    proof {
                        assert(tys_of(ts1@).len() != tys_of(ts2@).len());
                    }
                    false
                } else {
                    let mut i: usize = 0;
                    let mut eq = true;
                    while eq && i < ts1.len()
                        invariant
                            ts1@.len() == ts2@.len(),
                            i <= ts1@.len(),
                            eq ==> forall|k: int| 0 <= k < i ==> ts1@[k]@ == ts2@[k]@,
                            !eq ==> self@ != other@,
                        decreases (if eq { 1int } else { 0int }), ts1@.len() - i,
                    {
                        proof {
                            broadcast use vstd::std_specs::vec::group_vec_axioms;

                            assert(decreases_to!(*self => (*self)->Tuple_0));
                            assert(decreases_to!((*self)->Tuple_0 => (*self)->Tuple_0@));
                            assert(decreases_to!((*self)->Tuple_0@ => (*self)->Tuple_0@[i as int]));
                        }
                        if !ts1[i].same(&ts2[i]) {
                            proof {
                                assert(tys_of(ts1@)[i as int] != tys_of(ts2@)[i as int]);
                            }
                            eq = false;
                        } else {
                            i = i + 1;
                        }
                    }
                    proof {
                        if eq {
                            assert(tys_of(ts1@) =~= tys_of(ts2@));
                        }
                    }
                    eq
                }
            },
            (Type::Record(fs1), Type::Record(fs2)) => {
                if fs1.len() != fs2.len() {
                    proof {
                        assert(ty_fields_of(fs1@).len() != ty_fields_of(fs2@).len());
                    }
                    false
                } else {
                    let mut i: usize = 0;
                    let mut eq = true;
                    while eq && i < fs1.len()
                        invariant
                            fs1@.len() == fs2@.len(),
                            i <= fs1@.len(),
                            eq ==> forall|k: int| 0 <= k < i ==> fs1@[k].0@ == fs2@[k].0@
                                && fs1@[k].1@ == fs2@[k].1@,
                            !eq ==> self@ != other@,
                        decreases (if eq { 1int } else { 0int }), fs1@.len() - i,
                    {
                        proof {
                            broadcast use vstd::std_specs::vec::group_vec_axioms;

                            assert(decreases_to!(*self => (*self)->Record_0));
                            assert(decreases_to!((*self)->Record_0 => (*self)->Record_0@));
                            assert(decreases_to!((*self)->Record_0@ => (*self)->Record_0@[i as int]));
                            assert(decreases_to!((*self)->Record_0@[i as int] => (*self)->Record_0@[i as int].1));
                        }
                        let labels_eq = fs1[i].0 == fs2[i].0;
                        if !labels_eq || !fs1[i].1.same(&fs2[i].1) {
                            proof {
                                assert(ty_fields_of(fs1@)[i as int] != ty_fields_of(fs2@)[
                                    i as int]);
                            }
                            eq = false;
                        } else {
                            i = i + 1;
                        }
                    }
                    proof {
                        if eq {
                            assert(ty_fields_of(fs1@) =~= ty_fields_of(fs2@));
                        }
                    }
                    eq
                }
            },
            _ => false,
        }
    }
}

/// A typing failure, with the offending index, label or type pair.
#[derive(Debug, PartialEq, Eq)]
pub enum TypeError {
    UnboundVariable { index: i64 },
    GuardNotBool { found: Type },
    ArmsDiffer { thn: Type, els: Type },
    NotFunction { found: Type },
    ParamMismatch { expected: Type, found: Type },
    AscriptionMismatch { expected: Type, found: Type },
    NotTuple { found: Type },
    TupleIndexOut { index: usize, len: usize },
    NotRecord { found: Type },
    UnknownLabel { label: String },
}

impl View for TypeError {
    type V = TyErr;

    open spec fn view(&self) -> TyErr {
        match self {
            TypeError::UnboundVariable { index } => TyErr::UnboundVariable {
                index: *index as int,
            },
            TypeError::GuardNotBool { found } => TyErr::GuardNotBool { found: found@ },
            TypeError::ArmsDiffer { thn, els } => TyErr::ArmsDiffer { thn: thn@, els: els@ },
            TypeError::NotFunction { found } => TyErr::NotFunction { found: found@ },
            TypeError::ParamMismatch { expected, found } => TyErr::ParamMismatch {
                expected: expected@,
                found: found@,
            },
            TypeError::AscriptionMismatch { expected, found } => TyErr::AscriptionMismatch {
                expected: expected@,
                found: found@,
            },
            TypeError::NotTuple { found } => TyErr::NotTuple { found: found@ },
            TypeError::TupleIndexOut { index, len } => TyErr::TupleIndexOut {
                index: *index as int,
                len: *len as int,
            },
            TypeError::NotRecord { found } => TyErr::NotRecord { found: found@ },
            TypeError::UnknownLabel { label } => TyErr::UnknownLabel { label: label@ },
        }
    }
}

/// A typing context: the stack of binder types, outermost first, so that the
/// entry for depth `d` sits at position `d`.
#[derive(Debug)]
pub struct Context(Vec<Type>);

impl View for Context {
    type V = Seq<Ty>;

    closed spec fn view(&self) -> Seq<Ty> {
        tys_of(self.0@)
    }
}

impl Context {
    /// The empty context.
    pub fn new() -> (r: Context)
        ensures
            r@ == Seq::<Ty>::empty(),
    {
        proof {
            broadcast use lemma_tys_of;

            assert(tys_of(Seq::<Type>::empty()) =~= Seq::<Ty>::empty());
        }
        Context(Vec::new())
    }
}

impl Default for Context {
    /// The empty context.
    fn default() -> (r: Context)
        ensures
            r@ == Seq::<Ty>::empty(),
    {
        Context::new()
    }
}

} // verus!

verus! {

use crate::sem;
use crate::sem::Tm;
use crate::term::Term;
use crate::term::tm_of;
use crate::term::tms_of;
use crate::term::tm_fields_of;
use crate::term::lemma_tms_of;
use crate::term::lemma_tm_fields_of;

/// The types of the elements of `es` under `context`, or the leftmost
/// failure; the context comes back unchanged.
#[verifier::loop_isolation(false)]
fn check_seq(es: &Vec<Term>, context: &mut Context) -> (r: Result<Vec<Type>, TypeError>)
    ensures
        final(context)@ == old(context)@,
        match r {
            Ok(ts) => sem::ty_seq(tms_of(es@), old(context)@) == Ok::<Seq<Ty>, TyErr>(tys_of(ts@)),
            Err(e) => sem::ty_seq(tms_of(es@), old(context)@) == Err::<Seq<Ty>, TyErr>(e@),
        },
    decreases *es, 0int,
{
    broadcast use lemma_tms_of, lemma_tys_of, vstd::std_specs::vec::group_vec_axioms;

    let ghost g = context@;
    let n = es.len();
    let mut out: Vec<Type> = Vec::new();
    let mut i: usize = 0;
    proof {
        assert(tms_of(es@.take(0)) =~= Seq::<Tm>::empty());
        assert(tys_of(out@) =~= Seq::<Ty>::empty());
    }
    while i < n
        invariant
            i <= n,
            context@ == g,
            out@.len() == i,
            sem::ty_seq(tms_of(es@.take(i as int)), g) == Ok::<Seq<Ty>, TyErr>(tys_of(out@)),
        decreases n - i,
    {
        proof {
            assert(decreases_to!(*es => es@));
            assert(decreases_to!(es@ => es@[i as int]));
        }
        let ghost prev_out = out@;
        match es[i].check(context) {
            Ok(tp) => {
                out.push(tp);
            },
            Err(e) => {
                proof {
                    assert(es@.take(n as int) == es@);
                    assert(tms_of(es@).take(i as int) =~= tms_of(es@.take(i as int)));
                    lemma_ty_seq_prefix_err(tms_of(es@), g, i as int, e@);
                }
                return Err(e);
            },
        }
        proof {
            assert(es@.take(i + 1).drop_last() =~= es@.take(i as int));
            assert(es@.take(i + 1).last() == es@[i as int]);
            assert(tms_of(es@.take(i + 1)).drop_last() =~= tms_of(es@.take(i as int))) by {
                assert(tms_of(es@.take(i + 1)) == tms_of(es@.take(i + 1).drop_last()).push(
                    tm_of(es@.take(i + 1).last()),
                ));
            }
            assert(out@.drop_last() == prev_out);
            assert(tys_of(out@) == tys_of(prev_out).push(ty_of(out@.last())));
            assert(tms_of(es@.take(i + 1)) == tms_of(es@.take(i as int)).push(
                tm_of(es@[i as int]),
            ));
        }
        i = i + 1;
    }
    proof {
        assert(es@.take(n as int) == es@);
    }
    Ok(out)
}

/// When a prefix element fails, the whole sequence fails with that error.
proof fn lemma_ty_seq_prefix_err(es: Seq<Tm>, g: Seq<Ty>, i: int, e: TyErr)
    requires
        0 <= i < es.len(),
        sem::ty_seq(es.take(i), g) matches Ok(_),
        sem::ty_tm(es[i], g) == Err::<Ty, TyErr>(e),
    ensures
        sem::ty_seq(es, g) == Err::<Seq<Ty>, TyErr>(e),
    decreases es.len(),
{
    if es.len() > 0 {
        if i == es.len() - 1 {
            assert(es.take(i) == es.drop_last());
            assert(es.last() == es[i]);
            match sem::ty_seq(es.drop_last(), g) {
                Ok(_) => {},
                Err(_) => {},
            }
        } else {
            assert(es.drop_last().take(i) =~= es.take(i));
            assert(es.drop_last()[i] == es[i]);
            lemma_ty_seq_prefix_err(es.drop_last(), g, i, e);
        }
    }
}

/// The labelled types of the fields of `fs` under `context`, or the leftmost
/// failure; the context comes back unchanged.
#[verifier::loop_isolation(false)]
fn check_fields(fs: &Vec<(String, Term)>, context: &mut Context) -> (r: Result<
    Vec<(String, Type)>,
    TypeError,
>)
    ensures
        final(context)@ == old(context)@,
        match r {
            Ok(ts) => sem::ty_fields(tm_fields_of(fs@), old(context)@) == Ok::<
                Seq<(Seq<char>, Ty)>,
                TyErr,
            >(ty_fields_of(ts@)),
            Err(e) => sem::ty_fields(tm_fields_of(fs@), old(context)@) == Err::<
                Seq<(Seq<char>, Ty)>,
                TyErr,
            >(e@),
        },
    decreases *fs, 0int,
{
    broadcast use lemma_tm_fields_of, lemma_ty_fields_of, vstd::std_specs::vec::group_vec_axioms;

    let ghost g = context@;
    let n = fs.len();
    let mut out: Vec<(String, Type)> = Vec::new();
    let mut i: usize = 0;
    proof {
        assert(tm_fields_of(fs@.take(0)) =~= Seq::<(Seq<char>, Tm)>::empty());
        assert(ty_fields_of(out@) =~= Seq::<(Seq<char>, Ty)>::empty());
    }
    while i < n
        invariant
            i <= n,
            context@ == g,
            out@.len() == i,
            sem::ty_fields(tm_fields_of(fs@.take(i as int)), g) == Ok::<
                Seq<(Seq<char>, Ty)>,
                TyErr,
            >(ty_fields_of(out@)),
        decreases n - i,
    {
        proof {
            assert(decreases_to!(*fs => fs@));
            assert(decreases_to!(fs@ => fs@[i as int]));
            assert(decreases_to!(fs@[i as int] => fs@[i as int].1));
        }
        let ghost prev_out = out@;
        let label = fs[i].0.clone();
        match fs[i].1.check(context) {
            Ok(tp) => {
                out.push((label, tp));
            },
            Err(e) => {
                proof {
                    assert(fs@.take(n as int) == fs@);
                    assert(tm_fields_of(fs@).take(i as int) =~= tm_fields_of(fs@.take(i as int)));
                    lemma_ty_fields_prefix_err(tm_fields_of(fs@), g, i as int, e@);
                }
                return Err(e);
            },
        }
        proof {
            assert(fs@.take(i + 1).drop_last() =~= fs@.take(i as int));
            assert(fs@.take(i + 1).last() == fs@[i as int]);
            assert(tm_fields_of(fs@.take(i + 1)).drop_last() =~= tm_fields_of(
                fs@.take(i as int),
            )) by {
                assert(tm_fields_of(fs@.take(i + 1)) == tm_fields_of(
                    fs@.take(i + 1).drop_last(),
                ).push((fs@.take(i + 1).last().0@, tm_of(fs@.take(i + 1).last().1))));
            }
            assert(out@.drop_last() == prev_out);
            assert(ty_fields_of(out@) == ty_fields_of(prev_out).push(
                (out@.last().0@, ty_of(out@.last().1)),
            ));
            assert(tm_fields_of(fs@.take(i + 1)) == tm_fields_of(fs@.take(i as int)).push(
                (fs@[i as int].0@, tm_of(fs@[i as int].1)),
            ));
        }
        i = i + 1;
    }
    proof {
        assert(fs@.take(n as int) == fs@);
    }
    Ok(out)
}

/// When a prefix field fails, the whole record fails with that error.
proof fn lemma_ty_fields_prefix_err(fs: Seq<(Seq<char>, Tm)>, g: Seq<Ty>, i: int, e: TyErr)
    requires
        0 <= i < fs.len(),
        sem::ty_fields(fs.take(i), g) matches Ok(_),
        sem::ty_tm(fs[i].1, g) == Err::<Ty, TyErr>(e),
    ensures
        sem::ty_fields(fs, g) == Err::<Seq<(Seq<char>, Ty)>, TyErr>(e),
    decreases fs.len(),
{
    if fs.len() > 0 {
        if i == fs.len() - 1 {
            assert(fs.take(i) == fs.drop_last());
            assert(fs.last() == fs[i]);
            match sem::ty_fields(fs.drop_last(), g) {
                Ok(_) => {},
                Err(_) => {},
            }
        } else {
            assert(fs.drop_last().take(i) =~= fs.take(i));
            assert(fs.drop_last()[i] == fs[i]);
            lemma_ty_fields_prefix_err(fs.drop_last(), g, i, e);
        }
    }
}

impl Term {
    /// The type of a conditional under the context.
    #[verifier::loop_isolation(false)]
    fn check_if(t: &Term, context: &mut Context) -> (r: Result<Type, TypeError>)
        requires
            *t matches Term::If { .. },
        ensures
            final(context)@ == old(context)@,
            match r {
                Ok(tp) => sem::ty_tm(t@, old(context)@) == Ok::<Ty, TyErr>(tp@),
                Err(e) => sem::ty_tm(t@, old(context)@) == Err::<Ty, TyErr>(e@),
            },
        decreases *t, 0int,
    {
        broadcast use lemma_tys_of, vstd::std_specs::vec::group_vec_axioms;

        match t {
            Term::If { cond, thn, els } => {
                let tc = match cond.check(context) {
                    Ok(tp) => tp,
                    Err(e) => {
                        return Err(e);
                    },
                };
                let guard_bool = match &tc {
                    Type::Bool => true,
                    _ => false,
                };
                if !guard_bool {
                    return Err(TypeError::GuardNotBool { found: tc });
                }
                let ta = match thn.check(context) {
                    Ok(tp) => tp,
                    Err(e) => {
                        return Err(e);
                    },
                };
                let tb = match els.check(context) {
                    Ok(tp) => tp,
                    Err(e) => {
                        return Err(e);
                    },
                };
                if ta.same(&tb) {
                    Ok(ta)
                } else {
                    Err(TypeError::ArmsDiffer { thn: ta, els: tb })
                }
            },
            _ => Err(TypeError::GuardNotBool { found: Type::Bool }),
        }
    }

    /// The type of an abstraction under the context.
    #[verifier::loop_isolation(false)]
    fn check_abs(t: &Term, context: &mut Context) -> (r: Result<Type, TypeError>)
        requires
            *t matches Term::Abs { .. },
        ensures
            final(context)@ == old(context)@,
            match r {
                Ok(tp) => sem::ty_tm(t@, old(context)@) == Ok::<Ty, TyErr>(tp@),
                Err(e) => sem::ty_tm(t@, old(context)@) == Err::<Ty, TyErr>(e@),
            },
        decreases *t, 0int,
    {
        broadcast use lemma_tys_of, vstd::std_specs::vec::group_vec_axioms;

        match t {
            Term::Abs { hint: _, ty, body } => {
                let ghost g = context@;
                let ghost pre = context.0@;
                context.0.push(ty.dup());
                proof {
                    assert(context.0@.drop_last() == pre);
                    assert(context.0@.last()@ == ty@);
                    assert(context@ == g.push(ty@));
                }
                let br = body.check(context);
                let ghost mid = context.0@;
                let popped = context.0.pop();
                proof {
                    assert(tys_of(mid).len() == mid.len());
                    assert(mid.len() > 0);
                    assert(context.0@ == mid.drop_last());
                    assert(tys_of(mid) == tys_of(mid.drop_last()).push(ty_of(mid.last())));
                    assert(tys_of(mid) == g.push(ty@));
                    assert(tys_of(mid.drop_last()) =~= g) by {
                        assert(tys_of(mid.drop_last()).len() == g.len());
                        assert forall|q: int| 0 <= q < g.len() implies tys_of(mid.drop_last())[q]
                            == g[q] by {
                            assert(tys_of(mid.drop_last())[q] == tys_of(mid)[q]);
                            assert(tys_of(mid)[q] == g.push(ty@)[q]);
                        }
                    }
                    assert(context@ == g);
                }
                match br {
                    Ok(tb) => Ok(Type::Fun(Box::new(ty.dup()), Box::new(tb))),
                    Err(e) => Err(e),
                }
            },
            _ => Err(TypeError::GuardNotBool { found: Type::Bool }),
        }
    }

    /// The type of an application under the context.
    #[verifier::loop_isolation(false)]
    fn check_app(t: &Term, context: &mut Context) -> (r: Result<Type, TypeError>)
        requires
            *t matches Term::App { .. },
        ensures
            final(context)@ == old(context)@,
            match r {
                Ok(tp) => sem::ty_tm(t@, old(context)@) == Ok::<Ty, TyErr>(tp@),
                Err(e) => sem::ty_tm(t@, old(context)@) == Err::<Ty, TyErr>(e@),
            },
        decreases *t, 0int,
    {
        broadcast use lemma_tys_of, vstd::std_specs::vec::group_vec_axioms;

        match t {
            Term::App { fun, arg } => {
                let tf = match fun.check(context) {
                    Ok(tp) => tp,
                    Err(e) => {
                        return Err(e);
                    },
                };
                let ta = match arg.check(context) {
                    Ok(tp) => tp,
                    Err(e) => {
                        return Err(e);
                    },
                };
                match tf {
                    Type::Fun(p, ret) => {
                        if p.same(&ta) {
                            Ok(*ret)
                        } else {
                            Err(TypeError::ParamMismatch { expected: *p, found: ta })
                        }
                    },
                    other => Err(TypeError::NotFunction { found: other }),
                }
            },
            _ => Err(TypeError::GuardNotBool { found: Type::Bool }),
        }
    }

    /// The type of a let binding under the context.
    #[verifier::loop_isolation(false)]
    fn check_let(t: &Term, context: &mut Context) -> (r: Result<Type, TypeError>)
        requires
            *t matches Term::Let { .. },
        ensures
            final(context)@ == old(context)@,
            match r {
                Ok(tp) => sem::ty_tm(t@, old(context)@) == Ok::<Ty, TyErr>(tp@),
                Err(e) => sem::ty_tm(t@, old(context)@) == Err::<Ty, TyErr>(e@),
            },
        decreases *t, 0int,
    {
        broadcast use lemma_tys_of, vstd::std_specs::vec::group_vec_axioms;

        match t {
            Term::Let { hint: _, arg, body } => {
                let ta = match arg.check(context) {
                    Ok(tp) => tp,
                    Err(e) => {
                        return Err(e);
                    },
                };
                let ghost g = context@;
                let ghost tav = ta@;
                let ghost pre = context.0@;
                context.0.push(ta);
                proof {
                    assert(context.0@.drop_last() == pre);
                    assert(context.0@.last()@ == tav);
                    assert(context@ == g.push(tav));
                }
                let br = body.check(context);
                let ghost mid = context.0@;
                let popped = context.0.pop();
                proof {
                    assert(tys_of(mid).len() == mid.len());
                    assert(mid.len() > 0);
                    assert(context.0@ == mid.drop_last());
                    assert(tys_of(mid) == tys_of(mid.drop_last()).push(ty_of(mid.last())));
                    assert(tys_of(mid) == g.push(tav));
                    assert(tys_of(mid.drop_last()) =~= g) by {
                        assert(tys_of(mid.drop_last()).len() == g.len());
                        assert forall|q: int| 0 <= q < g.len() implies tys_of(mid.drop_last())[q]
                            == g[q] by {
                            assert(tys_of(mid.drop_last())[q] == tys_of(mid)[q]);
                            assert(tys_of(mid)[q] == g.push(tav)[q]);
                        }
                    }
                    assert(context@ == g);
                }
                br
            },
            _ => Err(TypeError::GuardNotBool { found: Type::Bool }),
        }
    }

    /// The type of a tuple projection under the context.
    #[verifier::loop_isolation(false)]
    fn check_tuple_project(t: &Term, context: &mut Context) -> (r: Result<Type, TypeError>)
        requires
            *t matches Term::TupleProject { .. },
        ensures
            final(context)@ == old(context)@,
            match r {
                Ok(tp) => sem::ty_tm(t@, old(context)@) == Ok::<Ty, TyErr>(tp@),
                Err(e) => sem::ty_tm(t@, old(context)@) == Err::<Ty, TyErr>(e@),
            },
        decreases *t, 0int,
    {
        broadcast use lemma_tys_of, vstd::std_specs::vec::group_vec_axioms;

        match t {
            Term::TupleProject { tuple, index } => {
                let tu = match tuple.check(context) {
                    Ok(tp) => tp,
                    Err(e) => {
                        return Err(e);
                    },
                };
                proof {
                    assert(t@ == Tm::TupleProject(Box::new(tuple@), *index as int));
                }
                match tu {
                    Type::Tuple(ts) => {
                        proof {
                            assert(sem::ty_tm(tuple@, old(context)@) == Ok::<Ty, TyErr>(
                                Ty::Tuple(tys_of(ts@)),
                            ));
                            assert(tys_of(ts@).len() == ts@.len());
                        }
                        if *index < ts.len() {
                            let out = ts[*index].dup();
                            proof {
                                assert(out@ == tys_of(ts@)[*index as int]);
                            }
                            Ok(out)
                        } else {
                            Err(TypeError::TupleIndexOut { index: *index, len: ts.len() })
                        }
                    },
                    other => Err(TypeError::NotTuple { found: other }),
                }
            },
            _ => Err(TypeError::GuardNotBool { found: Type::Bool }),
        }
    }

    /// The type of a record projection under the context.
    #[verifier::loop_isolation(false)]
    fn check_record_project(t: &Term, context: &mut Context) -> (r: Result<Type, TypeError>)
        requires
            *t matches Term::RecordProject { .. },
        ensures
            final(context)@ == old(context)@,
            match r {
                Ok(tp) => sem::ty_tm(t@, old(context)@) == Ok::<Ty, TyErr>(tp@),
                Err(e) => sem::ty_tm(t@, old(context)@) == Err::<Ty, TyErr>(e@),
            },
        decreases *t, 0int,
    {
        broadcast use lemma_ty_fields_of, vstd::std_specs::vec::group_vec_axioms;

        match t {
            Term::RecordProject { record, label } => {
                let tu = match record.check(context) {
                    Ok(tp) => tp,
                    Err(e) => {
                        return Err(e);
                    },
                };
                match tu {
                    Type::Record(fts) => {
                        let n = fts.len();
                        let mut k: usize = 0;
                        while k < n && !(fts[k].0 == *label)
                            invariant
                                k <= n,
                                forall|k2: int| 0 <= k2 < k ==> (#[trigger] ty_fields_of(
                                    fts@,
                                )[k2].0) != label@,
                            decreases n - k,
                        {
                            k = k + 1;
                        }
                        if k == n {
                            proof {
                                sem::lemma_lookup_field_ty_none(ty_fields_of(fts@), label@);
                            }
                            Err(TypeError::UnknownLabel { label: label.clone() })
                        } else {
                            proof {
                                sem::lemma_lookup_field_ty_at(ty_fields_of(fts@), label@, k as int);
                            }
                            Ok(fts[k].1.dup())
                        }
                    },
                    other => Err(TypeError::NotRecord { found: other }),
                }
            },
            _ => Err(TypeError::GuardNotBool { found: Type::Bool }),
        }
    }

    /// The type of the term under the context, or the leftmost typing
    /// failure; the context comes back unchanged.
    #[verifier::loop_isolation(false)]
    pub fn check(&self, context: &mut Context) -> (r: Result<Type, TypeError>)
        ensures
            final(context)@ == old(context)@,
            match r {
                Ok(tp) => sem::ty_tm(self@, old(context)@) == Ok::<Ty, TyErr>(tp@),
                Err(e) => sem::ty_tm(self@, old(context)@) == Err::<Ty, TyErr>(e@),
            },
        decreases *self, 1int,
    {
        broadcast use lemma_tms_of, lemma_tm_fields_of, lemma_tys_of, lemma_ty_fields_of,
            vstd::std_specs::vec::group_vec_axioms;

        match self {
            Term::Bool(_) => Ok(Type::Bool),
            Term::If { .. } => Self::check_if(self, context),
            Term::Var(i) => {
                proof {
                    assert(self@ == Tm::Var(*i as int));
                    assert(context@.len() == context.0@.len());
                }
                let clen = context.0.len();
                if *i >= 0 && (*i as u64) < (clen as u64) {
                    let iu = *i as usize;
                    let idx = clen - 1 - iu;
                    proof {
                        lemma_tys_of(context.0@);
                        assert(context@ == tys_of(context.0@));
                        assert(clen as int == context.0@.len());
                        assert(0 <= *i as int && (*i as int) < clen as int);
                        assert(iu as int == *i as int);
                        assert(idx as int == clen as int - 1 - (iu as int));
                        assert(0 <= idx as int && (idx as int) < context.0@.len());
                        assert(tys_of(context.0@)[idx as int] == ty_of(context.0@[idx as int]));
                        assert(context@.len() == context.0@.len());
                        assert(idx as int == context@.len() - 1 - (*i as int));
                    }
                    Ok(context.0[idx].dup())
                } else {
                    Err(TypeError::UnboundVariable { index: *i })
                }
            },
            Term::Abs { .. } => Self::check_abs(self, context),
            Term::App { .. } => Self::check_app(self, context),
            Term::Asc { term, ty } => {
                proof {
                    assert(self@ == Tm::Asc(Box::new(term@), ty@));
                }
                let tu = match term.check(context) {
                    Ok(tp) => tp,
                    Err(e) => {
                        return Err(e);
                    },
                };
                if tu.same(ty) {
                    Ok(tu)
                } else {
                    Err(TypeError::AscriptionMismatch { expected: ty.dup(), found: tu })
                }
            },
            Term::Let { .. } => Self::check_let(self, context),
            Term::Tuple(es) => {
                proof {
                    assert(decreases_to!(*self => (*self)->Tuple_0));
                }
                match check_seq(es, context) {
                    Ok(ts) => Ok(Type::Tuple(ts)),
                    Err(e) => Err(e),
                }
            },
            Term::TupleProject { .. } => Self::check_tuple_project(self, context),
            Term::Record(fs) => {
                proof {
                    assert(decreases_to!(*self => (*self)->Record_0));
                }
                match check_fields(fs, context) {
                    Ok(ts) => Ok(Type::Record(ts)),
                    Err(e) => Err(e),
                }
            },
            Term::RecordProject { .. } => Self::check_record_project(self, context),
        }
    }
}

} // verus!

verus! {

use vstd::string::StringExecFns;

/// The concrete syntax of a type.
pub open spec fn ty_text(t: Ty) -> Seq<char>
    decreases t,
{
    match t {
        Ty::Bool => "bool"@,
        Ty::Fun(f, r) => ty_text(*f) + " -> "@ + ty_text(*r),
        Ty::Tuple(ts) => "("@ + ty_items_text(ts) + ")"@,
        Ty::Record(fs) => "{"@ + ty_record_text(fs) + "}"@,
    }
}

/// Comma-separated type texts.
pub open spec fn ty_items_text(ts: Seq<Ty>) -> Seq<char>
    decreases ts,
{
    if ts.len() == 0 {
        Seq::empty()
    } else if ts.len() == 1 {
        ty_text(ts[0])
    } else {
        ty_items_text(ts.drop_last()) + ", "@ + ty_text(ts.last())
    }
}

/// Comma-separated `label = type` texts.
pub open spec fn ty_record_text(fs: Seq<(Seq<char>, Ty)>) -> Seq<char>
    decreases fs,
{
    if fs.len() == 0 {
        Seq::empty()
    } else if fs.len() == 1 {
        fs[0].0 + " = "@ + ty_text(fs[0].1)
    } else {
        ty_record_text(fs.drop_last()) + ", "@ + fs.last().0 + " = "@ + ty_text(fs.last().1)
    }
}

impl Type {
    /// Appends the type's concrete syntax.
    #[verifier::loop_isolation(false)]
    pub fn write(&self, out: &mut String)
        ensures
            final(out)@ == old(out)@ + ty_text(self@),
        decreases *self,
    {
        broadcast use lemma_tys_of, lemma_ty_fields_of, vstd::std_specs::vec::group_vec_axioms;

        match self {
            Type::Bool => {
                out.append("bool");
            },
            Type::Fun(f, r) => {
                f.write(out);
                out.append(" -> ");
                r.write(out);
                proof {
                    assert(out@ =~= old(out)@ + ty_text(self@));
                }
            },
            Type::Tuple(ts) => {
                let ghost sv = tys_of(ts@);
                out.append("(");
                let mut i: usize = 0;
                while i < ts.len()
                    invariant
                        i <= ts@.len(),
                        out@ == old(out)@ + "("@ + ty_items_text(sv.take(i as int)),
                    decreases ts@.len() - i,
                {
                    proof {
                        assert(decreases_to!(*self => (*self)->Tuple_0));
                        assert(decreases_to!((*self)->Tuple_0 => (*self)->Tuple_0@));
                        assert(decreases_to!((*self)->Tuple_0@ => (*self)->Tuple_0@[i as int]));
                    }
                    if i > 0 {
                        out.append(", ");
                    }
                    let ghost before = out@;
                    ts[i].write(out);
                    proof {
                        assert(sv.take(i + 1).drop_last() =~= sv.take(i as int));
                        assert(sv.take(i + 1).last() == sv[i as int]);
                        assert(ts@[i as int]@ == sv[i as int]);
                        assert(out@ =~= old(out)@ + "("@ + ty_items_text(sv.take(i + 1)));
                    }
                    i = i + 1;
                }
                out.append(")");
                proof {
                    assert(sv.take(ts@.len() as int) == sv);
                    assert(out@ =~= old(out)@ + ty_text(self@));
                }
            },
            Type::Record(fs) => {
                let ghost sv = ty_fields_of(fs@);
                out.append("{");
                let mut i: usize = 0;
                while i < fs.len()
                    invariant
                        i <= fs@.len(),
                        out@ == old(out)@ + "{"@ + ty_record_text(sv.take(i as int)),
                    decreases fs@.len() - i,
                {
                    proof {
                        assert(decreases_to!(*self => (*self)->Record_0));
                        assert(decreases_to!((*self)->Record_0 => (*self)->Record_0@));
                        assert(decreases_to!((*self)->Record_0@ => (*self)->Record_0@[i as int]));
                        assert(decreases_to!((*self)->Record_0@[i as int] => (*self)->Record_0@[
                            i as int].1));
                    }
                    if i > 0 {
                        out.append(", ");
                    }
                    out.append(fs[i].0.as_str());
                    out.append(" = ");
                    fs[i].1.write(out);
                    proof {
                        assert(sv.take(i + 1).drop_last() =~= sv.take(i as int));
                        assert(sv.take(i + 1).last() == sv[i as int]);
                        assert(fs@[i as int].0@ == sv[i as int].0);
                        assert(fs@[i as int].1@ == sv[i as int].1);
                        assert(out@ =~= old(out)@ + "{"@ + ty_record_text(sv.take(i + 1)));
                    }
                    i = i + 1;
                }
                out.append("}");
                proof {
                    assert(sv.take(fs@.len() as int) == sv);
                    assert(out@ =~= old(out)@ + ty_text(self@));
                }
            },
        }
    }

    /// The type's concrete syntax.
    pub fn render(&self) -> (r: String)
        ensures
            r@ == ty_text(self@),
    {
        let mut out = String::new();
        self.write(&mut out);
        proof {
            assert(out@ =~= ty_text(self@));
        }
        out
    }
}

} // verus!
