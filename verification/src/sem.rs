//! The mathematical model of the simply-typed calculus: terms and types as
//! ghost values, the value predicate, index shifting and substitution under
//! binders, the call-by-value one-step reduction relation, the typing
//! relation, and the predicates that bound the machine arithmetic of the
//! executable mirror.
use vstd::prelude::*;

verus! {

/// A type of the simply-typed calculus.
pub ghost enum Ty {
    Bool,
    Fun(Box<Ty>, Box<Ty>),
    Tuple(Seq<Ty>),
    Record(Seq<(Seq<char>, Ty)>),
}

/// A term, with de Bruijn indices for variables: an index counts the binders
/// between an occurrence and its binding site.
pub ghost enum Tm {
    Bool(bool),
    If(Box<Tm>, Box<Tm>, Box<Tm>),
    Var(int),
    Abs(Seq<char>, Ty, Box<Tm>),
    App(Box<Tm>, Box<Tm>),
    Asc(Box<Tm>, Ty),
    Let(Seq<char>, Box<Tm>, Box<Tm>),
    Tuple(Seq<Tm>),
    TupleProject(Box<Tm>, int),
    Record(Seq<(Seq<char>, Tm)>),
    RecordProject(Box<Tm>, Seq<char>),
}

/// A typing failure, with the offending index, label or type pair.
pub ghost enum TyErr {
    UnboundVariable { index: int },
    GuardNotBool { found: Ty },
    ArmsDiffer { thn: Ty, els: Ty },
    NotFunction { found: Ty },
    ParamMismatch { expected: Ty, found: Ty },
    AscriptionMismatch { expected: Ty, found: Ty },
    NotTuple { found: Ty },
    TupleIndexOut { index: int, len: int },
    NotRecord { found: Ty },
    UnknownLabel { label: Seq<char> },
}

/// A value: a boolean, a variable, an abstraction, or an aggregate whose
/// immediate parts are all values.
pub open spec fn is_val(t: Tm) -> bool
    decreases t,
{
    match t {
        Tm::Bool(_) => true,
        Tm::Var(_) => true,
        Tm::Abs(_, _, _) => true,
        Tm::Tuple(es) => all_val(es),
        Tm::Record(fs) => all_val_fields(fs),
        _ => false,
    }
}

/// All elements are values.
pub open spec fn all_val(s: Seq<Tm>) -> bool
    decreases s,
{
    if s.len() == 0 {
        true
    } else {
        all_val(s.drop_last()) && is_val(s.last())
    }
}

/// All field values are values.
pub open spec fn all_val_fields(s: Seq<(Seq<char>, Tm)>) -> bool
    decreases s,
{
    if s.len() == 0 {
        true
    } else {
        all_val_fields(s.drop_last()) && is_val(s.last().1)
    }
}

pub proof fn lemma_all_val(s: Seq<Tm>)
    ensures
        all_val(s) <==> (forall|i: int| 0 <= i < s.len() ==> is_val(#[trigger] s[i])),
    decreases s,
{
    if s.len() > 0 {
        lemma_all_val(s.drop_last());
        assert(forall|i: int| 0 <= i < s.len() - 1 ==> #[trigger] s[i] == s.drop_last()[i]);
        if all_val(s) {
            assert forall|i: int| 0 <= i < s.len() implies is_val(#[trigger] s[i]) by {
                if i < s.len() - 1 {
                    assert(is_val(s.drop_last()[i]));
                }
            }
        }
        if forall|i: int| 0 <= i < s.len() ==> is_val(#[trigger] s[i]) {
            assert forall|i: int| 0 <= i < s.drop_last().len() implies is_val(
                #[trigger] s.drop_last()[i],
            ) by {
                assert(s.drop_last()[i] == s[i]);
            }
            assert(is_val(s.last()));
        }
    }
}

pub proof fn lemma_all_val_fields(s: Seq<(Seq<char>, Tm)>)
    ensures
        all_val_fields(s) <==> (forall|i: int| 0 <= i < s.len() ==> is_val(#[trigger] s[i].1)),
    decreases s,
{
    if s.len() > 0 {
        lemma_all_val_fields(s.drop_last());
        assert(forall|i: int| 0 <= i < s.len() - 1 ==> #[trigger] s[i] == s.drop_last()[i]);
        if all_val_fields(s) {
            assert forall|i: int| 0 <= i < s.len() implies is_val(#[trigger] s[i].1) by {
                if i < s.len() - 1 {
                    assert(is_val(s.drop_last()[i].1));
                }
            }
        }
        if forall|i: int| 0 <= i < s.len() ==> is_val(#[trigger] s[i].1) {
            assert forall|i: int| 0 <= i < s.drop_last().len() implies is_val(
                #[trigger] s.drop_last()[i].1,
            ) by {
                assert(s.drop_last()[i] == s[i]);
            }
            assert(is_val(s.last().1));
        }
    }
}

/// Adds `d` to every variable index that is at least `c`, entering binders
/// with the cutoff raised by one.
pub open spec fn shift_tm(t: Tm, d: int, c: int) -> Tm
    decreases t,
{
    match t {
        Tm::Bool(b) => Tm::Bool(b),
        Tm::If(g, a, b) => Tm::If(
            Box::new(shift_tm(*g, d, c)),
            Box::new(shift_tm(*a, d, c)),
            Box::new(shift_tm(*b, d, c)),
        ),
        Tm::Var(i) => if i >= c {
            Tm::Var(i + d)
        } else {
            Tm::Var(i)
        },
        Tm::Abs(h, ty, body) => Tm::Abs(h, ty, Box::new(shift_tm(*body, d, c + 1))),
        Tm::App(f, a) => Tm::App(Box::new(shift_tm(*f, d, c)), Box::new(shift_tm(*a, d, c))),
        Tm::Asc(u, ty) => Tm::Asc(Box::new(shift_tm(*u, d, c)), ty),
        Tm::Let(h, a, b) => Tm::Let(
            h,
            Box::new(shift_tm(*a, d, c)),
            Box::new(shift_tm(*b, d, c + 1)),
        ),
        Tm::Tuple(es) => Tm::Tuple(shift_seq(es, d, c)),
        Tm::TupleProject(u, ix) => Tm::TupleProject(Box::new(shift_tm(*u, d, c)), ix),
        Tm::Record(fs) => Tm::Record(shift_fields(fs, d, c)),
        Tm::RecordProject(u, l) => Tm::RecordProject(Box::new(shift_tm(*u, d, c)), l),
    }
}

/// `shift_tm` over each element of a sequence.
pub open spec fn shift_seq(es: Seq<Tm>, d: int, c: int) -> Seq<Tm>
    decreases es,
{
    if es.len() == 0 {
        Seq::empty()
    } else {
        shift_seq(es.drop_last(), d, c).push(shift_tm(es.last(), d, c))
    }
}

/// `shift_tm` over each field value of a record, labels unchanged.
pub open spec fn shift_fields(fs: Seq<(Seq<char>, Tm)>, d: int, c: int) -> Seq<(Seq<char>, Tm)>
    decreases fs,
{
    if fs.len() == 0 {
        Seq::empty()
    } else {
        shift_fields(fs.drop_last(), d, c).push((fs.last().0, shift_tm(fs.last().1, d, c)))
    }
}

pub broadcast proof fn lemma_shift_seq(es: Seq<Tm>, d: int, c: int)
    ensures
        (#[trigger] shift_seq(es, d, c)).len() == es.len(),
        forall|i: int| 0 <= i < es.len() ==> shift_seq(es, d, c)[i] == shift_tm(es[i], d, c),
    decreases es,
{
    if es.len() > 0 {
        lemma_shift_seq(es.drop_last(), d, c);
    }
}

pub broadcast proof fn lemma_shift_fields(fs: Seq<(Seq<char>, Tm)>, d: int, c: int)
    ensures
        (#[trigger] shift_fields(fs, d, c)).len() == fs.len(),
        forall|i: int| 0 <= i < fs.len() ==> shift_fields(fs, d, c)[i] == (
            fs[i].0,
            shift_tm(fs[i].1, d, c),
        ),
    decreases fs,
{
    if fs.len() > 0 {
        lemma_shift_fields(fs.drop_last(), d, c);
    }
}

/// Replaces every occurrence of variable `j + k` with `s` shifted up by the
/// current depth, where `k` counts the binders entered so far.
pub open spec fn subst_tm(t: Tm, j: int, s: Tm, k: int) -> Tm
    decreases t,
{
    match t {
        Tm::Bool(b) => Tm::Bool(b),
        Tm::If(g, a, b) => Tm::If(
            Box::new(subst_tm(*g, j, s, k)),
            Box::new(subst_tm(*a, j, s, k)),
            Box::new(subst_tm(*b, j, s, k)),
        ),
        Tm::Var(i) => if i == j + k {
            shift_tm(s, k, 0)
        } else {
            Tm::Var(i)
        },
        Tm::Abs(h, ty, body) => Tm::Abs(h, ty, Box::new(subst_tm(*body, j, s, k + 1))),
        Tm::App(f, a) => Tm::App(Box::new(subst_tm(*f, j, s, k)), Box::new(subst_tm(*a, j, s, k))),
        Tm::Asc(u, ty) => Tm::Asc(Box::new(subst_tm(*u, j, s, k)), ty),
        Tm::Let(h, a, b) => Tm::Let(
            h,
            Box::new(subst_tm(*a, j, s, k)),
            Box::new(subst_tm(*b, j, s, k + 1)),
        ),
        Tm::Tuple(es) => Tm::Tuple(subst_seq(es, j, s, k)),
        Tm::TupleProject(u, ix) => Tm::TupleProject(Box::new(subst_tm(*u, j, s, k)), ix),
        Tm::Record(fs) => Tm::Record(subst_fields(fs, j, s, k)),
        Tm::RecordProject(u, l) => Tm::RecordProject(Box::new(subst_tm(*u, j, s, k)), l),
    }
}

/// `subst_tm` over each element of a sequence.
pub open spec fn subst_seq(es: Seq<Tm>, j: int, s: Tm, k: int) -> Seq<Tm>
    decreases es,
{
    if es.len() == 0 {
        Seq::empty()
    } else {
        subst_seq(es.drop_last(), j, s, k).push(subst_tm(es.last(), j, s, k))
    }
}

/// `subst_tm` over each field value of a record, labels unchanged.
pub open spec fn subst_fields(fs: Seq<(Seq<char>, Tm)>, j: int, s: Tm, k: int) -> Seq<
    (Seq<char>, Tm),
>
    decreases fs,
{
    if fs.len() == 0 {
        Seq::empty()
    } else {
        subst_fields(fs.drop_last(), j, s, k).push(
            (fs.last().0, subst_tm(fs.last().1, j, s, k)),
        )
    }
}

pub broadcast proof fn lemma_subst_seq(es: Seq<Tm>, j: int, s: Tm, k: int)
    ensures
        (#[trigger] subst_seq(es, j, s, k)).len() == es.len(),
        forall|i: int| 0 <= i < es.len() ==> subst_seq(es, j, s, k)[i] == subst_tm(es[i], j, s, k),
    decreases es,
{
    if es.len() > 0 {
        lemma_subst_seq(es.drop_last(), j, s, k);
    }
}

pub broadcast proof fn lemma_subst_fields(fs: Seq<(Seq<char>, Tm)>, j: int, s: Tm, k: int)
    ensures
        (#[trigger] subst_fields(fs, j, s, k)).len() == fs.len(),
        forall|i: int| 0 <= i < fs.len() ==> subst_fields(fs, j, s, k)[i] == (
            fs[i].0,
            subst_tm(fs[i].1, j, s, k),
        ),
    decreases fs,
{
    if fs.len() > 0 {
        lemma_subst_fields(fs.drop_last(), j, s, k);
    }
}

/// The substitution used by beta reduction: shift the argument up by one,
/// substitute it for index zero, then shift the result down by one to drop
/// the eliminated binder.
pub open spec fn subst_top_tm(t: Tm, s: Tm) -> Tm {
    shift_tm(subst_tm(t, 0, shift_tm(s, 1, 0), 0), -1, 0)
}

/// The position of the first element that is not a value, or `-1` when all
/// are values.
pub open spec fn first_nonval(es: Seq<Tm>) -> int
    decreases es,
{
    if es.len() == 0 {
        -1
    } else if !is_val(es[0]) {
        0
    } else {
        let r = first_nonval(es.drop_first());
        if r < 0 {
            -1
        } else {
            r + 1
        }
    }
}

/// The position of the first field whose value is not a value, or `-1`.
pub open spec fn first_nonval_fields(fs: Seq<(Seq<char>, Tm)>) -> int
    decreases fs,
{
    if fs.len() == 0 {
        -1
    } else if !is_val(fs[0].1) {
        0
    } else {
        let r = first_nonval_fields(fs.drop_first());
        if r < 0 {
            -1
        } else {
            r + 1
        }
    }
}

pub proof fn lemma_first_nonval(es: Seq<Tm>)
    ensures
        first_nonval(es) == -1 <==> (forall|i: int| 0 <= i < es.len() ==> is_val(#[trigger] es[i])),
        first_nonval(es) != -1 ==> 0 <= first_nonval(es) < es.len() && !is_val(
            es[first_nonval(es)],
        ) && (forall|i: int| 0 <= i < first_nonval(es) ==> is_val(#[trigger] es[i])),
    decreases es,
{
    if es.len() > 0 {
        let dd = es.drop_first();
        lemma_first_nonval(dd);
        assert(forall|i: int| 0 <= i < dd.len() ==> #[trigger] dd[i] == es[i + 1]);
        if is_val(es[0]) {
            let r = first_nonval(dd);
            if r == -1 {
                assert forall|i: int| 0 <= i < es.len() implies is_val(#[trigger] es[i]) by {
                    if i > 0 {
                        assert(is_val(dd[i - 1]));
                    }
                }
            } else {
                assert(first_nonval(es) == r + 1);
                assert(es[r + 1] == dd[r]);
                assert forall|i: int| 0 <= i < r + 1 implies is_val(#[trigger] es[i]) by {
                    if i > 0 {
                        assert(is_val(dd[i - 1]));
                    }
                }
            }
        } else {
            assert(first_nonval(es) == 0);
        }
        if forall|i: int| 0 <= i < es.len() ==> is_val(#[trigger] es[i]) {
            assert forall|i: int| 0 <= i < dd.len() implies is_val(#[trigger] dd[i]) by {
                assert(dd[i] == es[i + 1]);
            }
            assert(first_nonval(dd) == -1);
        }
    }
}

pub proof fn lemma_first_nonval_fields(fs: Seq<(Seq<char>, Tm)>)
    ensures
        first_nonval_fields(fs) == -1 <==> (forall|i: int|
            0 <= i < fs.len() ==> is_val(#[trigger] fs[i].1)),
        first_nonval_fields(fs) != -1 ==> 0 <= first_nonval_fields(fs) < fs.len() && !is_val(
            fs[first_nonval_fields(fs)].1,
        ) && (forall|i: int| 0 <= i < first_nonval_fields(fs) ==> is_val(#[trigger] fs[i].1)),
    decreases fs,
{
    if fs.len() > 0 {
        let dd = fs.drop_first();
        lemma_first_nonval_fields(dd);
        assert(forall|i: int| 0 <= i < dd.len() ==> #[trigger] dd[i] == fs[i + 1]);
        if is_val(fs[0].1) {
            let r = first_nonval_fields(dd);
            if r == -1 {
                assert forall|i: int| 0 <= i < fs.len() implies is_val(#[trigger] fs[i].1) by {
                    if i > 0 {
                        assert(is_val(dd[i - 1].1));
                    }
                }
            } else {
                assert(first_nonval_fields(fs) == r + 1);
                assert(fs[r + 1] == dd[r]);
                assert forall|i: int| 0 <= i < r + 1 implies is_val(#[trigger] fs[i].1) by {
                    if i > 0 {
                        assert(is_val(dd[i - 1].1));
                    }
                }
            }
        } else {
            assert(first_nonval_fields(fs) == 0);
        }
        if forall|i: int| 0 <= i < fs.len() ==> is_val(#[trigger] fs[i].1) {
            assert forall|i: int| 0 <= i < dd.len() implies is_val(#[trigger] dd[i].1) by {
                assert(dd[i] == fs[i + 1]);
            }
            assert(first_nonval_fields(dd) == -1);
        }
    }
}

/// The value of the first field carrying the label, or `None`.
pub open spec fn lookup_field(fs: Seq<(Seq<char>, Tm)>, l: Seq<char>) -> Option<Tm>
    decreases fs,
{
    if fs.len() == 0 {
        None
    } else if fs[0].0 == l {
        Some(fs[0].1)
    } else {
        lookup_field(fs.drop_first(), l)
    }
}

/// The type of the first field carrying the label, or `None`.
pub open spec fn lookup_field_ty(fs: Seq<(Seq<char>, Ty)>, l: Seq<char>) -> Option<Ty>
    decreases fs,
{
    if fs.len() == 0 {
        None
    } else if fs[0].0 == l {
        Some(fs[0].1)
    } else {
        lookup_field_ty(fs.drop_first(), l)
    }
}

/// The one-step call-by-value reduction: `Ok(Some(t))` is the next term,
/// `Ok(None)` says no rule applies (a value, or an ordinarily stuck term),
/// and `Err(())` reports a projection from a value of the wrong shape, the
/// internal-consistency violation that type checking rules out.
pub open spec fn step_tm(t: Tm) -> Result<Option<Tm>, ()>
    decreases t,
{
    match t {
        Tm::Bool(_) => Ok(None),
        Tm::Var(_) => Ok(None),
        Tm::Abs(_, _, _) => Ok(None),
        Tm::App(f, a) => {
            if (*f matches Tm::Abs(_, _, _)) && is_val(*a) {
                Ok(Some(subst_top_tm(*f->Abs_2, *a)))
            } else if is_val(*f) {
                match step_tm(*a) {
                    Ok(Some(a2)) => Ok(Some(Tm::App(f, Box::new(a2)))),
                    Ok(None) => Ok(None),
                    Err(e) => Err(e),
                }
            } else {
                match step_tm(*f) {
                    Ok(Some(f2)) => Ok(Some(Tm::App(Box::new(f2), a))),
                    Ok(None) => Ok(None),
                    Err(e) => Err(e),
                }
            }
        },
        Tm::If(g, a, b) => {
            if *g == Tm::Bool(true) {
                Ok(Some(*a))
            } else if *g == Tm::Bool(false) {
                Ok(Some(*b))
            } else {
                match step_tm(*g) {
                    Ok(Some(g2)) => Ok(Some(Tm::If(Box::new(g2), a, b))),
                    Ok(None) => Ok(None),
                    Err(e) => Err(e),
                }
            }
        },
        Tm::Asc(u, ty) => {
            if is_val(*u) {
                Ok(Some(*u))
            } else {
                match step_tm(*u) {
                    Ok(Some(u2)) => Ok(Some(Tm::Asc(Box::new(u2), ty))),
                    Ok(None) => Ok(None),
                    Err(e) => Err(e),
                }
            }
        },
        Tm::Let(h, a, b) => {
            if is_val(*a) {
                Ok(Some(subst_top_tm(*b, *a)))
            } else {
                match step_tm(*a) {
                    Ok(Some(a2)) => Ok(Some(Tm::Let(h, Box::new(a2), b))),
                    Ok(None) => Ok(None),
                    Err(e) => Err(e),
                }
            }
        },
        Tm::Tuple(es) => {
            let j = first_nonval(es);
            if 0 <= j && j < es.len() {
                match step_tm(es[j]) {
                    Ok(Some(e2)) => Ok(Some(Tm::Tuple(es.update(j, e2)))),
                    Ok(None) => Ok(None),
                    Err(e) => Err(e),
                }
            } else {
                Ok(None)
            }
        },
        Tm::TupleProject(u, ix) => {
            if is_val(*u) {
                match *u {
                    Tm::Tuple(es) => if 0 <= ix && ix < es.len() {
                        Ok(Some(es[ix]))
                    } else {
                        Err(())
                    },
                    _ => Err(()),
                }
            } else {
                match step_tm(*u) {
                    Ok(Some(u2)) => Ok(Some(Tm::TupleProject(Box::new(u2), ix))),
                    Ok(None) => Ok(None),
                    Err(e) => Err(e),
                }
            }
        },
        Tm::Record(fs) => {
            let j = first_nonval_fields(fs);
            if 0 <= j && j < fs.len() {
                match step_tm(fs[j].1) {
                    Ok(Some(e2)) => Ok(Some(Tm::Record(fs.update(j, (fs[j].0, e2))))),
                    Ok(None) => Ok(None),
                    Err(e) => Err(e),
                }
            } else {
                Ok(None)
            }
        },
        Tm::RecordProject(u, l) => {
            if is_val(*u) {
                match *u {
                    Tm::Record(fs) => match lookup_field(fs, l) {
                        Some(v) => Ok(Some(v)),
                        None => Err(()),
                    },
                    _ => Err(()),
                }
            } else {
                match step_tm(*u) {
                    Ok(Some(u2)) => Ok(Some(Tm::RecordProject(Box::new(u2), l))),
                    Ok(None) => Ok(None),
                    Err(e) => Err(e),
                }
            }
        },
    }
}

/// Iterates `step_tm` up to `fuel` times, stopping early at a term with no
/// step; a violation is passed through.
pub open spec fn eval_tm(t: Tm, fuel: nat) -> Result<Tm, ()>
    decreases fuel,
{
    if fuel == 0 {
        Ok(t)
    } else {
        match step_tm(t) {
            Ok(Some(t2)) => eval_tm(t2, (fuel - 1) as nat),
            Ok(None) => Ok(t),
            Err(_) => Err(()),
        }
    }
}

/// The typing relation, syntax-directed: the type of `t` under the stack of
/// binder types `g` (innermost last), or the leftmost typing failure.
pub open spec fn ty_tm(t: Tm, g: Seq<Ty>) -> Result<Ty, TyErr>
    decreases t,
{
    match t {
        Tm::Bool(_) => Ok(Ty::Bool),
        Tm::If(c, a, b) => match ty_tm(*c, g) {
            Err(e) => Err(e),
            Ok(tc) => if tc != Ty::Bool {
                Err(TyErr::GuardNotBool { found: tc })
            } else {
                match ty_tm(*a, g) {
                    Err(e) => Err(e),
                    Ok(ta) => match ty_tm(*b, g) {
                        Err(e) => Err(e),
                        Ok(tb) => if ta == tb {
                            Ok(ta)
                        } else {
                            Err(TyErr::ArmsDiffer { thn: ta, els: tb })
                        },
                    },
                }
            },
        },
        Tm::Var(i) => if 0 <= i && i < g.len() {
            Ok(g[g.len() - 1 - i])
        } else {
            Err(TyErr::UnboundVariable { index: i })
        },
        Tm::Abs(_, tp, body) => match ty_tm(*body, g.push(tp)) {
            Ok(tb) => Ok(Ty::Fun(Box::new(tp), Box::new(tb))),
            Err(e) => Err(e),
        },
        Tm::App(f, a) => match ty_tm(*f, g) {
            Err(e) => Err(e),
            Ok(tf) => match ty_tm(*a, g) {
                Err(e) => Err(e),
                Ok(ta) => match tf {
                    Ty::Fun(p, r) => if *p == ta {
                        Ok(*r)
                    } else {
                        Err(TyErr::ParamMismatch { expected: *p, found: ta })
                    },
                    _ => Err(TyErr::NotFunction { found: tf }),
                },
            },
        },
        Tm::Asc(u, d) => match ty_tm(*u, g) {
            Err(e) => Err(e),
            Ok(tu) => if tu == d {
                Ok(tu)
            } else {
                Err(TyErr::AscriptionMismatch { expected: d, found: tu })
            },
        },
        Tm::Let(_, a, b) => match ty_tm(*a, g) {
            Err(e) => Err(e),
            Ok(ta) => ty_tm(*b, g.push(ta)),
        },
        Tm::Tuple(es) => match ty_seq(es, g) {
            Ok(ts) => Ok(Ty::Tuple(ts)),
            Err(e) => Err(e),
        },
        Tm::TupleProject(u, ix) => match ty_tm(*u, g) {
            Err(e) => Err(e),
            Ok(tu) => match tu {
                Ty::Tuple(ts) => if 0 <= ix && ix < ts.len() {
                    Ok(ts[ix])
                } else {
                    Err(TyErr::TupleIndexOut { index: ix, len: ts.len() as int })
                },
                _ => Err(TyErr::NotTuple { found: tu }),
            },
        },
        Tm::Record(fs) => match ty_fields(fs, g) {
            Ok(fts) => Ok(Ty::Record(fts)),
            Err(e) => Err(e),
        },
        Tm::RecordProject(u, l) => match ty_tm(*u, g) {
            Err(e) => Err(e),
            Ok(tu) => match tu {
                Ty::Record(fts) => match lookup_field_ty(fts, l) {
                    Some(tt) => Ok(tt),
                    None => Err(TyErr::UnknownLabel { label: l }),
                },
                _ => Err(TyErr::NotRecord { found: tu }),
            },
        },
    }
}

/// The types of the elements of a sequence, or the leftmost failure.
pub open spec fn ty_seq(es: Seq<Tm>, g: Seq<Ty>) -> Result<Seq<Ty>, TyErr>
    decreases es,
{
    if es.len() == 0 {
        Ok(Seq::empty())
    } else {
        match ty_seq(es.drop_last(), g) {
            Err(e) => Err(e),
            Ok(init) => match ty_tm(es.last(), g) {
                Ok(tl) => Ok(init.push(tl)),
                Err(e) => Err(e),
            },
        }
    }
}

/// The labelled types of the fields of a record, or the leftmost failure.
pub open spec fn ty_fields(fs: Seq<(Seq<char>, Tm)>, g: Seq<Ty>) -> Result<
    Seq<(Seq<char>, Ty)>,
    TyErr,
>
    decreases fs,
{
    if fs.len() == 0 {
        Ok(Seq::empty())
    } else {
        match ty_fields(fs.drop_last(), g) {
            Err(e) => Err(e),
            Ok(init) => match ty_tm(fs.last().1, g) {
                Ok(tl) => Ok(init.push((fs.last().0, tl))),
                Err(e) => Err(e),
            },
        }
    }
}

/// Every variable occurring at depth `k` below the root has index under
/// `d + k`: the term is well-scoped with `d` ambient binders.
pub open spec fn scoped(t: Tm, d: int) -> bool
    decreases t,
{
    match t {
        Tm::Bool(_) => true,
        Tm::If(g, a, b) => scoped(*g, d) && scoped(*a, d) && scoped(*b, d),
        Tm::Var(i) => 0 <= i < d,
        Tm::Abs(_, _, body) => scoped(*body, d + 1),
        Tm::App(f, a) => scoped(*f, d) && scoped(*a, d),
        Tm::Asc(u, _) => scoped(*u, d),
        Tm::Let(_, a, b) => scoped(*a, d) && scoped(*b, d + 1),
        Tm::Tuple(es) => all_scoped(es, d),
        Tm::TupleProject(u, _) => scoped(*u, d),
        Tm::Record(fs) => all_scoped_fields(fs, d),
        Tm::RecordProject(u, _) => scoped(*u, d),
    }
}

/// `scoped` over each element of a sequence.
pub open spec fn all_scoped(s: Seq<Tm>, d: int) -> bool
    decreases s,
{
    if s.len() == 0 {
        true
    } else {
        all_scoped(s.drop_last(), d) && scoped(s.last(), d)
    }
}

/// `scoped` over each field value of a record.
pub open spec fn all_scoped_fields(s: Seq<(Seq<char>, Tm)>, d: int) -> bool
    decreases s,
{
    if s.len() == 0 {
        true
    } else {
        all_scoped_fields(s.drop_last(), d) && scoped(s.last().1, d)
    }
}

pub proof fn lemma_all_scoped(s: Seq<Tm>, d: int)
    ensures
        all_scoped(s, d) <==> (forall|i: int| 0 <= i < s.len() ==> scoped(#[trigger] s[i], d)),
    decreases s,
{
    if s.len() > 0 {
        lemma_all_scoped(s.drop_last(), d);
        assert(forall|i: int| 0 <= i < s.len() - 1 ==> #[trigger] s[i] == s.drop_last()[i]);
        if all_scoped(s, d) {
            assert forall|i: int| 0 <= i < s.len() implies scoped(#[trigger] s[i], d) by {
                if i < s.len() - 1 {
                    assert(scoped(s.drop_last()[i], d));
                }
            }
        }
        if forall|i: int| 0 <= i < s.len() ==> scoped(#[trigger] s[i], d) {
            assert forall|i: int| 0 <= i < s.drop_last().len() implies scoped(
                #[trigger] s.drop_last()[i], d,
            ) by {
                assert(s.drop_last()[i] == s[i]);
            }
            assert(scoped(s.last(), d));
        }
    }
}

pub proof fn lemma_all_scoped_fields(s: Seq<(Seq<char>, Tm)>, d: int)
    ensures
        all_scoped_fields(s, d) <==> (forall|i: int|
            0 <= i < s.len() ==> scoped(#[trigger] s[i].1, d)),
    decreases s,
{
    if s.len() > 0 {
        lemma_all_scoped_fields(s.drop_last(), d);
        assert(forall|i: int| 0 <= i < s.len() - 1 ==> #[trigger] s[i] == s.drop_last()[i]);
        if all_scoped_fields(s, d) {
            assert forall|i: int| 0 <= i < s.len() implies scoped(#[trigger] s[i].1, d) by {
                if i < s.len() - 1 {
                    assert(scoped(s.drop_last()[i].1, d));
                }
            }
        }
        if forall|i: int| 0 <= i < s.len() ==> scoped(#[trigger] s[i].1, d) {
            assert forall|i: int| 0 <= i < s.drop_last().len() implies scoped(
                #[trigger] s.drop_last()[i].1, d,
            ) by {
                assert(s.drop_last()[i] == s[i]);
            }
            assert(scoped(s.last().1, d));
        }
    }
}


/// Every stored variable index lies within the machine integer range.
pub open spec fn i64_indices(t: Tm) -> bool
    decreases t,
{
    match t {
        Tm::Bool(_) => true,
        Tm::If(g, a, b) => i64_indices(*g) && i64_indices(*a) && i64_indices(*b),
        Tm::Var(i) => i64::MIN <= i <= i64::MAX,
        Tm::Abs(_, _, body) => i64_indices(*body),
        Tm::App(f, a) => i64_indices(*f) && i64_indices(*a),
        Tm::Asc(u, _) => i64_indices(*u),
        Tm::Let(_, a, b) => i64_indices(*a) && i64_indices(*b),
        Tm::Tuple(es) => all_i64_indices(es),
        Tm::TupleProject(u, _) => i64_indices(*u),
        Tm::Record(fs) => all_i64_indices_fields(fs),
        Tm::RecordProject(u, _) => i64_indices(*u),
    }
}

/// `i64_indices` over each element of a sequence.
pub open spec fn all_i64_indices(s: Seq<Tm>) -> bool
    decreases s,
{
    if s.len() == 0 {
        true
    } else {
        all_i64_indices(s.drop_last()) && i64_indices(s.last())
    }
}

/// `i64_indices` over each field value of a record.
pub open spec fn all_i64_indices_fields(s: Seq<(Seq<char>, Tm)>) -> bool
    decreases s,
{
    if s.len() == 0 {
        true
    } else {
        all_i64_indices_fields(s.drop_last()) && i64_indices(s.last().1)
    }
}

pub proof fn lemma_all_i64_indices(s: Seq<Tm>)
    ensures
        all_i64_indices(s) <==> (forall|i: int| 0 <= i < s.len() ==> i64_indices(#[trigger] s[i])),
    decreases s,
{
    if s.len() > 0 {
        lemma_all_i64_indices(s.drop_last());
        assert(forall|i: int| 0 <= i < s.len() - 1 ==> #[trigger] s[i] == s.drop_last()[i]);
        if all_i64_indices(s) {
            assert forall|i: int| 0 <= i < s.len() implies i64_indices(#[trigger] s[i]) by {
                if i < s.len() - 1 {
                    assert(i64_indices(s.drop_last()[i]));
                }
            }
        }
        if forall|i: int| 0 <= i < s.len() ==> i64_indices(#[trigger] s[i]) {
            assert forall|i: int| 0 <= i < s.drop_last().len() implies i64_indices(
                #[trigger] s.drop_last()[i],
            ) by {
                assert(s.drop_last()[i] == s[i]);
            }
            assert(i64_indices(s.last()));
        }
    }
}

pub proof fn lemma_all_i64_indices_fields(s: Seq<(Seq<char>, Tm)>)
    ensures
        all_i64_indices_fields(s) <==> (forall|i: int|
            0 <= i < s.len() ==> i64_indices(#[trigger] s[i].1)),
    decreases s,
{
    if s.len() > 0 {
        lemma_all_i64_indices_fields(s.drop_last());
        assert(forall|i: int| 0 <= i < s.len() - 1 ==> #[trigger] s[i] == s.drop_last()[i]);
        if all_i64_indices_fields(s) {
            assert forall|i: int| 0 <= i < s.len() implies i64_indices(#[trigger] s[i].1) by {
                if i < s.len() - 1 {
                    assert(i64_indices(s.drop_last()[i].1));
                }
            }
        }
        if forall|i: int| 0 <= i < s.len() ==> i64_indices(#[trigger] s[i].1) {
            assert forall|i: int| 0 <= i < s.drop_last().len() implies i64_indices(
                #[trigger] s.drop_last()[i].1,
            ) by {
                assert(s.drop_last()[i] == s[i]);
            }
            assert(i64_indices(s.last().1));
        }
    }
}


/// Shifting by `d` above cutoff `c` stays within the machine integer range.
pub open spec fn shift_fits(t: Tm, d: int, c: int) -> bool
    decreases t,
{
    match t {
        Tm::Bool(_) => true,
        Tm::If(g, a, b) => shift_fits(*g, d, c) && shift_fits(*a, d, c) && shift_fits(*b, d, c),
        Tm::Var(i) => i >= c ==> i64::MIN <= i + d <= i64::MAX,
        Tm::Abs(_, _, body) => shift_fits(*body, d, c + 1),
        Tm::App(f, a) => shift_fits(*f, d, c) && shift_fits(*a, d, c),
        Tm::Asc(u, _) => shift_fits(*u, d, c),
        Tm::Let(_, a, b) => shift_fits(*a, d, c) && shift_fits(*b, d, c + 1),
        Tm::Tuple(es) => all_shift_fits(es, d, c),
        Tm::TupleProject(u, _) => shift_fits(*u, d, c),
        Tm::Record(fs) => all_shift_fits_fields(fs, d, c),
        Tm::RecordProject(u, _) => shift_fits(*u, d, c),
    }
}

/// `shift_fits` over each element of a sequence.
pub open spec fn all_shift_fits(s: Seq<Tm>, d: int, c: int) -> bool
    decreases s,
{
    if s.len() == 0 {
        true
    } else {
        all_shift_fits(s.drop_last(), d, c) && shift_fits(s.last(), d, c)
    }
}

/// `shift_fits` over each field value of a record.
pub open spec fn all_shift_fits_fields(s: Seq<(Seq<char>, Tm)>, d: int, c: int) -> bool
    decreases s,
{
    if s.len() == 0 {
        true
    } else {
        all_shift_fits_fields(s.drop_last(), d, c) && shift_fits(s.last().1, d, c)
    }
}

pub proof fn lemma_all_shift_fits(s: Seq<Tm>, d: int, c: int)
    ensures
        all_shift_fits(s, d, c) <==> (forall|i: int| 0 <= i < s.len() ==> shift_fits(#[trigger] s[i], d, c)),
    decreases s,
{
    if s.len() > 0 {
        lemma_all_shift_fits(s.drop_last(), d, c);
        assert(forall|i: int| 0 <= i < s.len() - 1 ==> #[trigger] s[i] == s.drop_last()[i]);
        if all_shift_fits(s, d, c) {
            assert forall|i: int| 0 <= i < s.len() implies shift_fits(#[trigger] s[i], d, c) by {
                if i < s.len() - 1 {
                    assert(shift_fits(s.drop_last()[i], d, c));
                }
            }
        }
        if forall|i: int| 0 <= i < s.len() ==> shift_fits(#[trigger] s[i], d, c) {
            assert forall|i: int| 0 <= i < s.drop_last().len() implies shift_fits(
                #[trigger] s.drop_last()[i], d, c,
            ) by {
                assert(s.drop_last()[i] == s[i]);
            }
            assert(shift_fits(s.last(), d, c));
        }
    }
}

pub proof fn lemma_all_shift_fits_fields(s: Seq<(Seq<char>, Tm)>, d: int, c: int)
    ensures
        all_shift_fits_fields(s, d, c) <==> (forall|i: int|
            0 <= i < s.len() ==> shift_fits(#[trigger] s[i].1, d, c)),
    decreases s,
{
    if s.len() > 0 {
        lemma_all_shift_fits_fields(s.drop_last(), d, c);
        assert(forall|i: int| 0 <= i < s.len() - 1 ==> #[trigger] s[i] == s.drop_last()[i]);
        if all_shift_fits_fields(s, d, c) {
            assert forall|i: int| 0 <= i < s.len() implies shift_fits(#[trigger] s[i].1, d, c) by {
                if i < s.len() - 1 {
                    assert(shift_fits(s.drop_last()[i].1, d, c));
                }
            }
        }
        if forall|i: int| 0 <= i < s.len() ==> shift_fits(#[trigger] s[i].1, d, c) {
            assert forall|i: int| 0 <= i < s.drop_last().len() implies shift_fits(
                #[trigger] s.drop_last()[i].1, d, c,
            ) by {
                assert(s.drop_last()[i] == s[i]);
            }
            assert(shift_fits(s.last().1, d, c));
        }
    }
}


/// Substituting `s` for variable `j + k` performs only machine-range
/// arithmetic: wherever a replacement happens, the shift of `s` by the
/// current depth fits.
pub open spec fn subst_fits(t: Tm, j: int, s: Tm, k: int) -> bool
    decreases t,
{
    match t {
        Tm::Bool(_) => true,
        Tm::If(g, a, b) => subst_fits(*g, j, s, k) && subst_fits(*a, j, s, k) && subst_fits(
            *b,
            j,
            s,
            k,
        ),
        Tm::Var(i) => i == j + k ==> shift_fits(s, k, 0),
        Tm::Abs(_, _, body) => subst_fits(*body, j, s, k + 1),
        Tm::App(f, a) => subst_fits(*f, j, s, k) && subst_fits(*a, j, s, k),
        Tm::Asc(u, _) => subst_fits(*u, j, s, k),
        Tm::Let(_, a, b) => subst_fits(*a, j, s, k) && subst_fits(*b, j, s, k + 1),
        Tm::Tuple(es) => all_subst_fits(es, j, s, k),
        Tm::TupleProject(u, _) => subst_fits(*u, j, s, k),
        Tm::Record(fs) => all_subst_fits_fields(fs, j, s, k),
        Tm::RecordProject(u, _) => subst_fits(*u, j, s, k),
    }
}

/// `subst_fits` over each element of a sequence.
pub open spec fn all_subst_fits(q: Seq<Tm>, j: int, s: Tm, k: int) -> bool
    decreases q,
{
    if q.len() == 0 {
        true
    } else {
        all_subst_fits(q.drop_last(), j, s, k) && subst_fits(q.last(), j, s, k)
    }
}

/// `subst_fits` over each field value of a record.
pub open spec fn all_subst_fits_fields(q: Seq<(Seq<char>, Tm)>, j: int, s: Tm, k: int) -> bool
    decreases q,
{
    if q.len() == 0 {
        true
    } else {
        all_subst_fits_fields(q.drop_last(), j, s, k) && subst_fits(q.last().1, j, s, k)
    }
}

pub proof fn lemma_all_subst_fits(q: Seq<Tm>, j: int, s: Tm, k: int)
    ensures
        all_subst_fits(q, j, s, k) <==> (forall|i: int|
            0 <= i < q.len() ==> subst_fits(#[trigger] q[i], j, s, k)),
    decreases q,
{
    if q.len() > 0 {
        lemma_all_subst_fits(q.drop_last(), j, s, k);
        assert(forall|i: int| 0 <= i < q.len() - 1 ==> #[trigger] q[i] == q.drop_last()[i]);
        if all_subst_fits(q, j, s, k) {
            assert forall|i: int| 0 <= i < q.len() implies subst_fits(
                #[trigger] q[i],
                j,
                s,
                k,
            ) by {
                if i < q.len() - 1 {
                    assert(subst_fits(q.drop_last()[i], j, s, k));
                }
            }
        }
        if forall|i: int| 0 <= i < q.len() ==> subst_fits(#[trigger] q[i], j, s, k) {
            assert forall|i: int| 0 <= i < q.drop_last().len() implies subst_fits(
                #[trigger] q.drop_last()[i],
                j,
                s,
                k,
            ) by {
                assert(q.drop_last()[i] == q[i]);
            }
            assert(subst_fits(q.last(), j, s, k));
        }
    }
}

pub proof fn lemma_all_subst_fits_fields(q: Seq<(Seq<char>, Tm)>, j: int, s: Tm, k: int)
    ensures
        all_subst_fits_fields(q, j, s, k) <==> (forall|i: int|
            0 <= i < q.len() ==> subst_fits(#[trigger] q[i].1, j, s, k)),
    decreases q,
{
    if q.len() > 0 {
        lemma_all_subst_fits_fields(q.drop_last(), j, s, k);
        assert(forall|i: int| 0 <= i < q.len() - 1 ==> #[trigger] q[i] == q.drop_last()[i]);
        if all_subst_fits_fields(q, j, s, k) {
            assert forall|i: int| 0 <= i < q.len() implies subst_fits(
                #[trigger] q[i].1,
                j,
                s,
                k,
            ) by {
                if i < q.len() - 1 {
                    assert(subst_fits(q.drop_last()[i].1, j, s, k));
                }
            }
        }
        if forall|i: int| 0 <= i < q.len() ==> subst_fits(#[trigger] q[i].1, j, s, k) {
            assert forall|i: int| 0 <= i < q.drop_last().len() implies subst_fits(
                #[trigger] q.drop_last()[i].1,
                j,
                s,
                k,
            ) by {
                assert(q.drop_last()[i] == q[i]);
            }
            assert(subst_fits(q.last().1, j, s, k));
        }
    }
}


/// The three passes of `subst_top_tm` stay within machine-range arithmetic.
pub open spec fn subst_top_fits(t: Tm, s: Tm) -> bool {
    &&& shift_fits(s, 1, 0)
    &&& subst_fits(t, 0, shift_tm(s, 1, 0), 0)
    &&& shift_fits(subst_tm(t, 0, shift_tm(s, 1, 0), 0), -1, 0)
}

/// The arithmetic performed by one reduction step, at the position the step
/// rules reach, stays within machine range.
pub open spec fn step_fits(t: Tm) -> bool
    decreases t,
{
    match t {
        Tm::Bool(_) => true,
        Tm::Var(_) => true,
        Tm::Abs(_, _, _) => true,
        Tm::App(f, a) => {
            if (*f matches Tm::Abs(_, _, _)) && is_val(*a) {
                subst_top_fits(*f->Abs_2, *a)
            } else if is_val(*f) {
                step_fits(*a)
            } else {
                step_fits(*f)
            }
        },
        Tm::If(g, _, _) => {
            if *g == Tm::Bool(true) || *g == Tm::Bool(false) {
                true
            } else {
                step_fits(*g)
            }
        },
        Tm::Asc(u, _) => {
            if is_val(*u) {
                true
            } else {
                step_fits(*u)
            }
        },
        Tm::Let(_, a, b) => {
            if is_val(*a) {
                subst_top_fits(*b, *a)
            } else {
                step_fits(*a)
            }
        },
        Tm::Tuple(es) => {
            let j = first_nonval(es);
            if 0 <= j && j < es.len() {
                step_fits(es[j])
            } else {
                true
            }
        },
        Tm::TupleProject(u, _) => {
            if is_val(*u) {
                true
            } else {
                step_fits(*u)
            }
        },
        Tm::Record(fs) => {
            let j = first_nonval_fields(fs);
            if 0 <= j && j < fs.len() {
                step_fits(fs[j].1)
            } else {
                true
            }
        },
        Tm::RecordProject(u, _) => {
            if is_val(*u) {
                true
            } else {
                step_fits(*u)
            }
        },
    }
}

} // verus!

verus! {

pub proof fn lemma_lookup_field_at(fs: Seq<(Seq<char>, Tm)>, l: Seq<char>, k: int)
    requires
        0 <= k < fs.len(),
        fs[k].0 == l,
        forall|k2: int| 0 <= k2 < k ==> (#[trigger] fs[k2].0) != l,
    ensures
        lookup_field(fs, l) == Some(fs[k].1),
    decreases fs,
{
    if fs.len() > 0 && !(fs[0].0 == l) {
        let dd = fs.drop_first();
        assert(forall|i: int| 0 <= i < dd.len() ==> #[trigger] dd[i] == fs[i + 1]);
        assert(forall|k2: int| 0 <= k2 < k - 1 ==> (#[trigger] dd[k2].0) != l) by {
            assert(forall|k2: int| 0 <= k2 < k - 1 ==> dd[k2] == fs[k2 + 1]);
        }
        lemma_lookup_field_at(dd, l, k - 1);
    }
}

pub proof fn lemma_lookup_field_none(fs: Seq<(Seq<char>, Tm)>, l: Seq<char>)
    requires
        forall|k: int| 0 <= k < fs.len() ==> (#[trigger] fs[k].0) != l,
    ensures
        lookup_field(fs, l) == None::<Tm>,
    decreases fs,
{
    if fs.len() > 0 {
        let dd = fs.drop_first();
        assert(forall|i: int| 0 <= i < dd.len() ==> #[trigger] dd[i] == fs[i + 1]);
        lemma_lookup_field_none(dd, l);
    }
}

} // verus!

verus! {

pub proof fn lemma_lookup_field_ty_at(fs: Seq<(Seq<char>, Ty)>, l: Seq<char>, k: int)
    requires
        0 <= k < fs.len(),
        fs[k].0 == l,
        forall|k2: int| 0 <= k2 < k ==> (#[trigger] fs[k2].0) != l,
    ensures
        lookup_field_ty(fs, l) == Some(fs[k].1),
    decreases fs,
{
    if fs.len() > 0 && !(fs[0].0 == l) {
        let dd = fs.drop_first();
        assert(forall|i: int| 0 <= i < dd.len() ==> #[trigger] dd[i] == fs[i + 1]);
        assert(forall|k2: int| 0 <= k2 < k - 1 ==> (#[trigger] dd[k2].0) != l) by {
            assert(forall|k2: int| 0 <= k2 < k - 1 ==> dd[k2] == fs[k2 + 1]);
        }
        lemma_lookup_field_ty_at(dd, l, k - 1);
    }
}

pub proof fn lemma_lookup_field_ty_none(fs: Seq<(Seq<char>, Ty)>, l: Seq<char>)
    requires
        forall|k: int| 0 <= k < fs.len() ==> (#[trigger] fs[k].0) != l,
    ensures
        lookup_field_ty(fs, l) == None::<Ty>,
    decreases fs,
{
    if fs.len() > 0 {
        let dd = fs.drop_first();
        assert(forall|i: int| 0 <= i < dd.len() ==> #[trigger] dd[i] == fs[i + 1]);
        lemma_lookup_field_ty_none(dd, l);
    }
}

} // verus!

verus! {

/// No variable that an upward or downward shift by `d` above cutoff `c`
/// moves would land back across the cutoff: the condition under which the
/// shift can be undone.
pub open spec fn shift_reversible(t: Tm, d: int, c: int) -> bool
    decreases t,
{
    match t {
        Tm::Bool(_) => true,
        Tm::If(g, a, b) => shift_reversible(*g, d, c) && shift_reversible(*a, d, c)
            && shift_reversible(*b, d, c),
        Tm::Var(i) => i >= c ==> i + d >= c,
        Tm::Abs(_, _, body) => shift_reversible(*body, d, c + 1),
        Tm::App(f, a) => shift_reversible(*f, d, c) && shift_reversible(*a, d, c),
        Tm::Asc(u, _) => shift_reversible(*u, d, c),
        Tm::Let(_, a, b) => shift_reversible(*a, d, c) && shift_reversible(*b, d, c + 1),
        Tm::Tuple(es) => all_shift_reversible(es, d, c),
        Tm::TupleProject(u, _) => shift_reversible(*u, d, c),
        Tm::Record(fs) => all_shift_reversible_fields(fs, d, c),
        Tm::RecordProject(u, _) => shift_reversible(*u, d, c),
    }
}

/// `shift_reversible` over each element of a sequence.
pub open spec fn all_shift_reversible(q: Seq<Tm>, d: int, c: int) -> bool
    decreases q,
{
    if q.len() == 0 {
        true
    } else {
        all_shift_reversible(q.drop_last(), d, c) && shift_reversible(q.last(), d, c)
    }
}

/// `shift_reversible` over each field value of a record.
pub open spec fn all_shift_reversible_fields(q: Seq<(Seq<char>, Tm)>, d: int, c: int) -> bool
    decreases q,
{
    if q.len() == 0 {
        true
    } else {
        all_shift_reversible_fields(q.drop_last(), d, c) && shift_reversible(q.last().1, d, c)
    }
}

} // verus!

verus! {

/// Every variable, at its depth, names either a binder in scope or one of
/// the three ambient placeholder levels: the condition under which a term
/// can be rendered below `n` context names.
pub open spec fn renderable(t: Tm, n: int) -> bool
    decreases t,
{
    match t {
        Tm::Bool(_) => true,
        Tm::If(g, a, b) => renderable(*g, n) && renderable(*a, n) && renderable(*b, n),
        Tm::Var(i) => 0 <= i < n + 3,
        Tm::Abs(_, _, body) => renderable(*body, n + 1),
        Tm::App(f, a) => renderable(*f, n) && renderable(*a, n),
        Tm::Asc(u, _) => renderable(*u, n),
        Tm::Let(_, a, b) => renderable(*a, n) && renderable(*b, n + 1),
        Tm::Tuple(es) => all_renderable(es, n),
        Tm::TupleProject(u, _) => renderable(*u, n),
        Tm::Record(fs) => all_renderable_fields(fs, n),
        Tm::RecordProject(u, _) => renderable(*u, n),
    }
}

/// `renderable` over each element of a sequence.
pub open spec fn all_renderable(q: Seq<Tm>, n: int) -> bool
    decreases q,
{
    if q.len() == 0 {
        true
    } else {
        all_renderable(q.drop_last(), n) && renderable(q.last(), n)
    }
}

/// `renderable` over each field value of a record.
pub open spec fn all_renderable_fields(q: Seq<(Seq<char>, Tm)>, n: int) -> bool
    decreases q,
{
    if q.len() == 0 {
        true
    } else {
        all_renderable_fields(q.drop_last(), n) && renderable(q.last().1, n)
    }
}

pub proof fn lemma_all_renderable(q: Seq<Tm>, n: int)
    ensures
        all_renderable(q, n) <==> (forall|i: int|
            0 <= i < q.len() ==> renderable(#[trigger] q[i], n)),
    decreases q,
{
    if q.len() > 0 {
        lemma_all_renderable(q.drop_last(), n);
        assert(forall|i: int| 0 <= i < q.len() - 1 ==> #[trigger] q[i] == q.drop_last()[i]);
        if all_renderable(q, n) {
            assert forall|i: int| 0 <= i < q.len() implies renderable(#[trigger] q[i], n) by {
                if i < q.len() - 1 {
                    assert(renderable(q.drop_last()[i], n));
                }
            }
        }
        if forall|i: int| 0 <= i < q.len() ==> renderable(#[trigger] q[i], n) {
            assert forall|i: int| 0 <= i < q.drop_last().len() implies renderable(
                #[trigger] q.drop_last()[i],
                n,
            ) by {
                assert(q.drop_last()[i] == q[i]);
            }
            assert(renderable(q.last(), n));
        }
    }
}

pub proof fn lemma_all_renderable_fields(q: Seq<(Seq<char>, Tm)>, n: int)
    ensures
        all_renderable_fields(q, n) <==> (forall|i: int|
            0 <= i < q.len() ==> renderable(#[trigger] q[i].1, n)),
    decreases q,
{
    if q.len() > 0 {
        lemma_all_renderable_fields(q.drop_last(), n);
        assert(forall|i: int| 0 <= i < q.len() - 1 ==> #[trigger] q[i] == q.drop_last()[i]);
        if all_renderable_fields(q, n) {
            assert forall|i: int| 0 <= i < q.len() implies renderable(#[trigger] q[i].1, n) by {
                if i < q.len() - 1 {
                    assert(renderable(q.drop_last()[i].1, n));
                }
            }
        }
        if forall|i: int| 0 <= i < q.len() ==> renderable(#[trigger] q[i].1, n) {
            assert forall|i: int| 0 <= i < q.drop_last().len() implies renderable(
                #[trigger] q.drop_last()[i].1,
                n,
            ) by {
                assert(q.drop_last()[i] == q[i]);
            }
            assert(renderable(q.last().1, n));
        }
    }
}

} // verus!

verus! {

/// Well-formedness of a record's fields: the labels are pairwise distinct,
/// as the data model requires of records. Every operation here is
/// deterministic without this invariant — a label that does occur twice
/// resolves to its first occurrence — but a record built through an ordered
/// map can never carry a duplicate.
pub open spec fn distinct_labels(fs: Seq<(Seq<char>, Tm)>) -> bool {
    forall|i: int, j: int|
        0 <= i < j < fs.len() ==> (#[trigger] fs[i].0) != (#[trigger] fs[j].0)
}

/// Well-formedness of a record type's fields: pairwise distinct labels.
pub open spec fn distinct_labels_ty(fs: Seq<(Seq<char>, Ty)>) -> bool {
    forall|i: int, j: int|
        0 <= i < j < fs.len() ==> (#[trigger] fs[i].0) != (#[trigger] fs[j].0)
}

/// Under distinct labels, first-match lookup is the only match: whatever
/// position carries the label is the one the lookup returns.
pub proof fn lemma_lookup_unique(fs: Seq<(Seq<char>, Tm)>, l: Seq<char>, i: int)
    requires
        distinct_labels(fs),
        0 <= i < fs.len(),
        fs[i].0 == l,
    ensures
        lookup_field(fs, l) == Some(fs[i].1),
{
    assert(forall|k: int| 0 <= k < i ==> (#[trigger] fs[k].0) != l);
    lemma_lookup_field_at(fs, l, i);
}

/// Under distinct labels, first-match lookup in a record type is the only
/// match.
pub proof fn lemma_lookup_ty_unique(fs: Seq<(Seq<char>, Ty)>, l: Seq<char>, i: int)
    requires
        distinct_labels_ty(fs),
        0 <= i < fs.len(),
        fs[i].0 == l,
    ensures
        lookup_field_ty(fs, l) == Some(fs[i].1),
{
    assert(forall|k: int| 0 <= k < i ==> (#[trigger] fs[k].0) != l);
    lemma_lookup_field_ty_at(fs, l, i);
}

} // verus!
