//! The metatheory of the simply-typed calculus: how shifting and
//! substitution act on well-scoped terms, that reduction preserves
//! well-scopedness, and that reduction of well-scoped terms performs only
//! machine-range arithmetic.
use vstd::prelude::*;

use crate::sem::Tm;

use crate::sem::scoped;
use crate::sem::i64_indices;
use crate::sem::shift_fits;
use crate::sem::subst_fits;
use crate::sem::shift_tm;
use crate::sem::subst_tm;
use crate::sem::shift_seq;
use crate::sem::shift_fields;
use crate::sem::subst_seq;
use crate::sem::subst_fields;
use crate::sem::lemma_all_scoped;
use crate::sem::lemma_all_scoped_fields;
use crate::sem::lemma_all_i64_indices;
use crate::sem::lemma_all_i64_indices_fields;
use crate::sem::lemma_all_shift_fits;
use crate::sem::lemma_all_shift_fits_fields;
use crate::sem::lemma_all_subst_fits;
use crate::sem::lemma_all_subst_fits_fields;
use crate::sem::lemma_shift_seq;
use crate::sem::lemma_shift_fields;
use crate::sem::lemma_subst_seq;
use crate::sem::lemma_subst_fields;

verus! {

/// Shifting above a cutoff that already bounds every free variable changes
/// nothing.
pub proof fn lemma_shift_id(t: Tm, d: int, c: int)
    requires
        scoped(t, c),
    ensures
        shift_tm(t, d, c) == t,
    decreases t,
{
    match t {
        Tm::Bool(_) => {},
        Tm::Var(_) => {},
        Tm::If(g, a, b) => {
            lemma_shift_id(*g, d, c);
            lemma_shift_id(*a, d, c);
            lemma_shift_id(*b, d, c);
        },
        Tm::Abs(_, _, body) => {
            lemma_shift_id(*body, d, c + 1);
        },
        Tm::App(f, a) => {
            lemma_shift_id(*f, d, c);
            lemma_shift_id(*a, d, c);
        },
        Tm::Asc(u, _) => {
            lemma_shift_id(*u, d, c);
        },
        Tm::Let(_, a, b) => {
            lemma_shift_id(*a, d, c);
            lemma_shift_id(*b, d, c + 1);
        },
        Tm::Tuple(es) => {
            lemma_all_scoped(es, c);
            lemma_shift_seq(es, d, c);
            assert forall|i: int| 0 <= i < es.len() implies shift_seq(es, d, c)[i] == es[i] by {
                lemma_shift_id(es[i], d, c);
            }
            assert(shift_seq(es, d, c) =~= es);
        },
        Tm::TupleProject(u, _) => {
            lemma_shift_id(*u, d, c);
        },
        Tm::Record(fs) => {
            lemma_all_scoped_fields(fs, c);
            lemma_shift_fields(fs, d, c);
            assert forall|i: int| 0 <= i < fs.len() implies shift_fields(fs, d, c)[i] == fs[i] by {
                lemma_shift_id(fs[i].1, d, c);
            }
            assert(shift_fields(fs, d, c) =~= fs);
        },
        Tm::RecordProject(u, _) => {
            lemma_shift_id(*u, d, c);
        },
    }
}

/// Shifting up by `n` raises a scope bound by `n`, for any cutoff.
pub proof fn lemma_shift_scoped(t: Tm, m: int, n: int, c: int)
    requires
        scoped(t, m),
        0 <= n,
    ensures
        scoped(shift_tm(t, n, c), m + n),
    decreases t,
{
    match t {
        Tm::Bool(_) => {},
        Tm::Var(_) => {},
        Tm::If(g, a, b) => {
            lemma_shift_scoped(*g, m, n, c);
            lemma_shift_scoped(*a, m, n, c);
            lemma_shift_scoped(*b, m, n, c);
        },
        Tm::Abs(_, _, body) => {
            lemma_shift_scoped(*body, m + 1, n, c + 1);
        },
        Tm::App(f, a) => {
            lemma_shift_scoped(*f, m, n, c);
            lemma_shift_scoped(*a, m, n, c);
        },
        Tm::Asc(u, _) => {
            lemma_shift_scoped(*u, m, n, c);
        },
        Tm::Let(_, a, b) => {
            lemma_shift_scoped(*a, m, n, c);
            lemma_shift_scoped(*b, m + 1, n, c + 1);
        },
        Tm::Tuple(es) => {
            lemma_all_scoped(es, m);
            lemma_shift_seq(es, n, c);
            lemma_all_scoped(shift_seq(es, n, c), m + n);
            assert forall|i: int|
                0 <= i < shift_seq(es, n, c).len() implies scoped(
                #[trigger] shift_seq(es, n, c)[i],
                m + n,
            ) by {
                lemma_shift_scoped(es[i], m, n, c);
            }
        },
        Tm::TupleProject(u, _) => {
            lemma_shift_scoped(*u, m, n, c);
        },
        Tm::Record(fs) => {
            lemma_all_scoped_fields(fs, m);
            lemma_shift_fields(fs, n, c);
            lemma_all_scoped_fields(shift_fields(fs, n, c), m + n);
            assert forall|i: int|
                0 <= i < shift_fields(fs, n, c).len() implies scoped(
                #[trigger] shift_fields(fs, n, c)[i].1,
                m + n,
            ) by {
                lemma_shift_scoped(fs[i].1, m, n, c);
            }
        },
        Tm::RecordProject(u, _) => {
            lemma_shift_scoped(*u, m, n, c);
        },
    }
}

/// Every free variable below the cutoff means a shift touches nothing and
/// therefore fits.
pub proof fn lemma_scoped_shift_fits(t: Tm, d: int, c: int)
    requires
        scoped(t, c),
    ensures
        shift_fits(t, d, c),
    decreases t,
{
    match t {
        Tm::Bool(_) => {},
        Tm::Var(_) => {},
        Tm::If(g, a, b) => {
            lemma_scoped_shift_fits(*g, d, c);
            lemma_scoped_shift_fits(*a, d, c);
            lemma_scoped_shift_fits(*b, d, c);
        },
        Tm::Abs(_, _, body) => {
            lemma_scoped_shift_fits(*body, d, c + 1);
        },
        Tm::App(f, a) => {
            lemma_scoped_shift_fits(*f, d, c);
            lemma_scoped_shift_fits(*a, d, c);
        },
        Tm::Asc(u, _) => {
            lemma_scoped_shift_fits(*u, d, c);
        },
        Tm::Let(_, a, b) => {
            lemma_scoped_shift_fits(*a, d, c);
            lemma_scoped_shift_fits(*b, d, c + 1);
        },
        Tm::Tuple(es) => {
            lemma_all_scoped(es, c);
            lemma_all_shift_fits(es, d, c);
            assert forall|i: int| 0 <= i < es.len() implies shift_fits(
                #[trigger] es[i],
                d,
                c,
            ) by {
                lemma_scoped_shift_fits(es[i], d, c);
            }
        },
        Tm::TupleProject(u, _) => {
            lemma_scoped_shift_fits(*u, d, c);
        },
        Tm::Record(fs) => {
            lemma_all_scoped_fields(fs, c);
            lemma_all_shift_fits_fields(fs, d, c);
            assert forall|i: int| 0 <= i < fs.len() implies shift_fits(
                #[trigger] fs[i].1,
                d,
                c,
            ) by {
                lemma_scoped_shift_fits(fs[i].1, d, c);
            }
        },
        Tm::RecordProject(u, _) => {
            lemma_scoped_shift_fits(*u, d, c);
        },
    }
}

/// Substituting a closed term performs only machine-range arithmetic.
pub proof fn lemma_scoped_subst_fits(t: Tm, s: Tm, k: int)
    requires
        scoped(s, 0),
    ensures
        subst_fits(t, 0, s, k),
    decreases t,
{
    match t {
        Tm::Bool(_) => {},
        Tm::Var(_) => {
            lemma_scoped_shift_fits(s, k, 0);
        },
        Tm::If(g, a, b) => {
            lemma_scoped_subst_fits(*g, s, k);
            lemma_scoped_subst_fits(*a, s, k);
            lemma_scoped_subst_fits(*b, s, k);
        },
        Tm::Abs(_, _, body) => {
            lemma_scoped_subst_fits(*body, s, k + 1);
        },
        Tm::App(f, a) => {
            lemma_scoped_subst_fits(*f, s, k);
            lemma_scoped_subst_fits(*a, s, k);
        },
        Tm::Asc(u, _) => {
            lemma_scoped_subst_fits(*u, s, k);
        },
        Tm::Let(_, a, b) => {
            lemma_scoped_subst_fits(*a, s, k);
            lemma_scoped_subst_fits(*b, s, k + 1);
        },
        Tm::Tuple(es) => {
            lemma_all_subst_fits(es, 0, s, k);
            assert forall|i: int| 0 <= i < es.len() implies subst_fits(
                #[trigger] es[i],
                0,
                s,
                k,
            ) by {
                lemma_scoped_subst_fits(es[i], s, k);
            }
        },
        Tm::TupleProject(u, _) => {
            lemma_scoped_subst_fits(*u, s, k);
        },
        Tm::Record(fs) => {
            lemma_all_subst_fits_fields(fs, 0, s, k);
            assert forall|i: int| 0 <= i < fs.len() implies subst_fits(
                #[trigger] fs[i].1,
                0,
                s,
                k,
            ) by {
                lemma_scoped_subst_fits(fs[i].1, s, k);
            }
        },
        Tm::RecordProject(u, _) => {
            lemma_scoped_subst_fits(*u, s, k);
        },
    }
}

/// Machine-range indices make a downward shift by one fit at any
/// non-negative cutoff.
pub proof fn lemma_indices_shift_down_fits(t: Tm, c: int)
    requires
        i64_indices(t),
        0 <= c,
    ensures
        shift_fits(t, -1, c),
    decreases t,
{
    match t {
        Tm::Bool(_) => {},
        Tm::Var(_) => {},
        Tm::If(g, a, b) => {
            lemma_indices_shift_down_fits(*g, c);
            lemma_indices_shift_down_fits(*a, c);
            lemma_indices_shift_down_fits(*b, c);
        },
        Tm::Abs(_, _, body) => {
            lemma_indices_shift_down_fits(*body, c + 1);
        },
        Tm::App(f, a) => {
            lemma_indices_shift_down_fits(*f, c);
            lemma_indices_shift_down_fits(*a, c);
        },
        Tm::Asc(u, _) => {
            lemma_indices_shift_down_fits(*u, c);
        },
        Tm::Let(_, a, b) => {
            lemma_indices_shift_down_fits(*a, c);
            lemma_indices_shift_down_fits(*b, c + 1);
        },
        Tm::Tuple(es) => {
            lemma_all_i64_indices(es);
            lemma_all_shift_fits(es, -1, c);
            assert forall|i: int| 0 <= i < es.len() implies shift_fits(
                #[trigger] es[i],
                -1,
                c,
            ) by {
                lemma_indices_shift_down_fits(es[i], c);
            }
        },
        Tm::TupleProject(u, _) => {
            lemma_indices_shift_down_fits(*u, c);
        },
        Tm::Record(fs) => {
            lemma_all_i64_indices_fields(fs);
            lemma_all_shift_fits_fields(fs, -1, c);
            assert forall|i: int| 0 <= i < fs.len() implies shift_fits(
                #[trigger] fs[i].1,
                -1,
                c,
            ) by {
                lemma_indices_shift_down_fits(fs[i].1, c);
            }
        },
        Tm::RecordProject(u, _) => {
            lemma_indices_shift_down_fits(*u, c);
        },
    }
}

/// Substituting a closed term with machine-range indices keeps every index
/// in machine range.
pub proof fn lemma_subst_indices(t: Tm, s: Tm, k: int)
    requires
        i64_indices(t),
        i64_indices(s),
        scoped(s, 0),
    ensures
        i64_indices(subst_tm(t, 0, s, k)),
    decreases t,
{
    match t {
        Tm::Bool(_) => {},
        Tm::Var(i) => {
            if i == k {
                lemma_shift_id(s, k, 0);
            }
        },
        Tm::If(g, a, b) => {
            lemma_subst_indices(*g, s, k);
            lemma_subst_indices(*a, s, k);
            lemma_subst_indices(*b, s, k);
        },
        Tm::Abs(_, _, body) => {
            lemma_subst_indices(*body, s, k + 1);
        },
        Tm::App(f, a) => {
            lemma_subst_indices(*f, s, k);
            lemma_subst_indices(*a, s, k);
        },
        Tm::Asc(u, _) => {
            lemma_subst_indices(*u, s, k);
        },
        Tm::Let(_, a, b) => {
            lemma_subst_indices(*a, s, k);
            lemma_subst_indices(*b, s, k + 1);
        },
        Tm::Tuple(es) => {
            lemma_all_i64_indices(es);
            lemma_subst_seq(es, 0, s, k);
            lemma_all_i64_indices(subst_seq(es, 0, s, k));
            assert forall|i: int|
                0 <= i < subst_seq(es, 0, s, k).len() implies i64_indices(
                #[trigger] subst_seq(es, 0, s, k)[i],
            ) by {
                lemma_subst_indices(es[i], s, k);
            }
        },
        Tm::TupleProject(u, _) => {
            lemma_subst_indices(*u, s, k);
        },
        Tm::Record(fs) => {
            lemma_all_i64_indices_fields(fs);
            lemma_subst_fields(fs, 0, s, k);
            lemma_all_i64_indices_fields(subst_fields(fs, 0, s, k));
            assert forall|i: int|
                0 <= i < subst_fields(fs, 0, s, k).len() implies i64_indices(
                #[trigger] subst_fields(fs, 0, s, k)[i].1,
            ) by {
                lemma_subst_indices(fs[i].1, s, k);
            }
        },
        Tm::RecordProject(u, _) => {
            lemma_subst_indices(*u, s, k);
        },
    }
}

/// A downward shift by one keeps every index in machine range.
pub proof fn lemma_shift_down_indices(t: Tm, c: int)
    requires
        i64_indices(t),
        0 <= c,
    ensures
        i64_indices(shift_tm(t, -1, c)),
    decreases t,
{
    match t {
        Tm::Bool(_) => {},
        Tm::Var(_) => {},
        Tm::If(g, a, b) => {
            lemma_shift_down_indices(*g, c);
            lemma_shift_down_indices(*a, c);
            lemma_shift_down_indices(*b, c);
        },
        Tm::Abs(_, _, body) => {
            lemma_shift_down_indices(*body, c + 1);
        },
        Tm::App(f, a) => {
            lemma_shift_down_indices(*f, c);
            lemma_shift_down_indices(*a, c);
        },
        Tm::Asc(u, _) => {
            lemma_shift_down_indices(*u, c);
        },
        Tm::Let(_, a, b) => {
            lemma_shift_down_indices(*a, c);
            lemma_shift_down_indices(*b, c + 1);
        },
        Tm::Tuple(es) => {
            lemma_all_i64_indices(es);
            lemma_shift_seq(es, -1, c);
            lemma_all_i64_indices(shift_seq(es, -1, c));
            assert forall|i: int|
                0 <= i < shift_seq(es, -1, c).len() implies i64_indices(
                #[trigger] shift_seq(es, -1, c)[i],
            ) by {
                lemma_shift_down_indices(es[i], c);
            }
        },
        Tm::TupleProject(u, _) => {
            lemma_shift_down_indices(*u, c);
        },
        Tm::Record(fs) => {
            lemma_all_i64_indices_fields(fs);
            lemma_shift_fields(fs, -1, c);
            lemma_all_i64_indices_fields(shift_fields(fs, -1, c));
            assert forall|i: int|
                0 <= i < shift_fields(fs, -1, c).len() implies i64_indices(
                #[trigger] shift_fields(fs, -1, c)[i].1,
            ) by {
                lemma_shift_down_indices(fs[i].1, c);
            }
        },
        Tm::RecordProject(u, _) => {
            lemma_shift_down_indices(*u, c);
        },
    }
}

} // verus!

verus! {

use crate::sem::is_val;
use crate::sem::step_tm;
use crate::sem::subst_top_tm;
use crate::sem::subst_top_fits;
use crate::sem::step_fits;
use crate::sem::first_nonval;
use crate::sem::first_nonval_fields;
use crate::sem::lookup_field;
use crate::sem::lemma_first_nonval;
use crate::sem::lemma_first_nonval_fields;
use crate::sem::lemma_all_val;
use crate::sem::lemma_all_val_fields;

/// Two upward shifts at one cutoff fuse into one.
pub proof fn lemma_shift_shift_fuse(s: Tm, d1: int, d2: int, c: int)
    requires
        0 <= d1,
        0 <= d2,
    ensures
        shift_tm(shift_tm(s, d1, c), d2, c) == shift_tm(s, d1 + d2, c),
    decreases s,
{
    match s {
        Tm::Bool(_) => {},
        Tm::Var(_) => {},
        Tm::If(g, a, b) => {
            lemma_shift_shift_fuse(*g, d1, d2, c);
            lemma_shift_shift_fuse(*a, d1, d2, c);
            lemma_shift_shift_fuse(*b, d1, d2, c);
        },
        Tm::Abs(_, _, body) => {
            lemma_shift_shift_fuse(*body, d1, d2, c + 1);
        },
        Tm::App(f, a) => {
            lemma_shift_shift_fuse(*f, d1, d2, c);
            lemma_shift_shift_fuse(*a, d1, d2, c);
        },
        Tm::Asc(u, _) => {
            lemma_shift_shift_fuse(*u, d1, d2, c);
        },
        Tm::Let(_, a, b) => {
            lemma_shift_shift_fuse(*a, d1, d2, c);
            lemma_shift_shift_fuse(*b, d1, d2, c + 1);
        },
        Tm::Tuple(es) => {
            lemma_shift_seq(es, d1, c);
            lemma_shift_seq(shift_seq(es, d1, c), d2, c);
            lemma_shift_seq(es, d1 + d2, c);
            assert forall|i: int|
                0 <= i < es.len() implies shift_seq(shift_seq(es, d1, c), d2, c)[i] == shift_seq(
                es,
                d1 + d2,
                c,
            )[i] by {
                lemma_shift_shift_fuse(es[i], d1, d2, c);
            }
            assert(shift_seq(shift_seq(es, d1, c), d2, c) =~= shift_seq(es, d1 + d2, c));
        },
        Tm::TupleProject(u, _) => {
            lemma_shift_shift_fuse(*u, d1, d2, c);
        },
        Tm::Record(fs) => {
            lemma_shift_fields(fs, d1, c);
            lemma_shift_fields(shift_fields(fs, d1, c), d2, c);
            lemma_shift_fields(fs, d1 + d2, c);
            assert forall|i: int|
                0 <= i < fs.len() implies shift_fields(shift_fields(fs, d1, c), d2, c)[i]
                == shift_fields(fs, d1 + d2, c)[i] by {
                lemma_shift_shift_fuse(fs[i].1, d1, d2, c);
            }
            assert(shift_fields(shift_fields(fs, d1, c), d2, c) =~= shift_fields(fs, d1 + d2, c));
        },
        Tm::RecordProject(u, _) => {
            lemma_shift_shift_fuse(*u, d1, d2, c);
        },
    }
}

/// An upward shift by `d` followed by a downward shift by one at the raised
/// cutoff is an upward shift by `d - 1`.
pub proof fn lemma_shift_up_down(s: Tm, d: int, c: int)
    requires
        1 <= d,
    ensures
        shift_tm(shift_tm(s, d, c), -1, c + d - 1) == shift_tm(s, d - 1, c),
    decreases s,
{
    match s {
        Tm::Bool(_) => {},
        Tm::Var(_) => {},
        Tm::If(g, a, b) => {
            lemma_shift_up_down(*g, d, c);
            lemma_shift_up_down(*a, d, c);
            lemma_shift_up_down(*b, d, c);
        },
        Tm::Abs(_, _, body) => {
            lemma_shift_up_down(*body, d, c + 1);
        },
        Tm::App(f, a) => {
            lemma_shift_up_down(*f, d, c);
            lemma_shift_up_down(*a, d, c);
        },
        Tm::Asc(u, _) => {
            lemma_shift_up_down(*u, d, c);
        },
        Tm::Let(_, a, b) => {
            lemma_shift_up_down(*a, d, c);
            lemma_shift_up_down(*b, d, c + 1);
        },
        Tm::Tuple(es) => {
            lemma_shift_seq(es, d, c);
            lemma_shift_seq(shift_seq(es, d, c), -1, c + d - 1);
            lemma_shift_seq(es, d - 1, c);
            assert forall|i: int|
                0 <= i < es.len() implies #[trigger] shift_seq(shift_seq(es, d, c), -1, c + d
                - 1)[i] == shift_seq(es, d - 1, c)[i] by {
                lemma_shift_up_down(es[i], d, c);
            }
            assert(shift_seq(shift_seq(es, d, c), -1, c + d - 1) =~= shift_seq(es, d - 1, c));
        },
        Tm::TupleProject(u, _) => {
            lemma_shift_up_down(*u, d, c);
        },
        Tm::Record(fs) => {
            lemma_shift_fields(fs, d, c);
            lemma_shift_fields(shift_fields(fs, d, c), -1, c + d - 1);
            lemma_shift_fields(fs, d - 1, c);
            assert forall|i: int|
                0 <= i < fs.len() implies #[trigger] shift_fields(shift_fields(fs, d, c), -1, c + d
                - 1)[i] == shift_fields(fs, d - 1, c)[i] by {
                lemma_shift_up_down(fs[i].1, d, c);
            }
            assert(shift_fields(shift_fields(fs, d, c), -1, c + d - 1) =~= shift_fields(
                fs,
                d - 1,
                c,
            ));
        },
        Tm::RecordProject(u, _) => {
            lemma_shift_up_down(*u, d, c);
        },
    }
}

/// The full shift-substitute-shift sequence of beta reduction, begun at
/// binder depth `k`, keeps every variable inside the scope it came from.
pub proof fn lemma_subst_top_scoped_gen(t: Tm, s: Tm, d: int, k: int)
    requires
        0 <= d,
        0 <= k,
        scoped(t, d + 1 + k),
        scoped(s, d),
    ensures
        scoped(shift_tm(subst_tm(t, 0, shift_tm(s, 1, 0), k), -1, k), d + k),
    decreases t,
{
    let s1 = shift_tm(s, 1, 0);
    match t {
        Tm::Bool(_) => {},
        Tm::Var(i) => {
            if i == k {
                lemma_shift_shift_fuse(s, 1, k, 0);
                lemma_shift_up_down(s, k + 1, 0);
                lemma_shift_scoped(s, d, k, 0);
            }
        },
        Tm::If(g, a, b) => {
            lemma_subst_top_scoped_gen(*g, s, d, k);
            lemma_subst_top_scoped_gen(*a, s, d, k);
            lemma_subst_top_scoped_gen(*b, s, d, k);
        },
        Tm::Abs(_, _, body) => {
            lemma_subst_top_scoped_gen(*body, s, d, k + 1);
        },
        Tm::App(f, a) => {
            lemma_subst_top_scoped_gen(*f, s, d, k);
            lemma_subst_top_scoped_gen(*a, s, d, k);
        },
        Tm::Asc(u, _) => {
            lemma_subst_top_scoped_gen(*u, s, d, k);
        },
        Tm::Let(_, a, b) => {
            lemma_subst_top_scoped_gen(*a, s, d, k);
            lemma_subst_top_scoped_gen(*b, s, d, k + 1);
        },
        Tm::Tuple(es) => {
            lemma_all_scoped(es, d + 1 + k);
            lemma_subst_seq(es, 0, s1, k);
            lemma_shift_seq(subst_seq(es, 0, s1, k), -1, k);
            lemma_all_scoped(shift_seq(subst_seq(es, 0, s1, k), -1, k), d + k);
            assert forall|i: int|
                0 <= i < shift_seq(subst_seq(es, 0, s1, k), -1, k).len() implies scoped(
                #[trigger] shift_seq(subst_seq(es, 0, s1, k), -1, k)[i],
                d + k,
            ) by {
                lemma_subst_top_scoped_gen(es[i], s, d, k);
            }
        },
        Tm::TupleProject(u, _) => {
            lemma_subst_top_scoped_gen(*u, s, d, k);
        },
        Tm::Record(fs) => {
            lemma_all_scoped_fields(fs, d + 1 + k);
            lemma_subst_fields(fs, 0, s1, k);
            lemma_shift_fields(subst_fields(fs, 0, s1, k), -1, k);
            lemma_all_scoped_fields(shift_fields(subst_fields(fs, 0, s1, k), -1, k), d + k);
            assert forall|i: int|
                0 <= i < shift_fields(subst_fields(fs, 0, s1, k), -1, k).len() implies scoped(
                #[trigger] shift_fields(subst_fields(fs, 0, s1, k), -1, k)[i].1,
                d + k,
            ) by {
                lemma_subst_top_scoped_gen(fs[i].1, s, d, k);
            }
        },
        Tm::RecordProject(u, _) => {
            lemma_subst_top_scoped_gen(*u, s, d, k);
        },
    }
}

/// Substitution correctness: substituting a term whose free variables are
/// bound by `d` ambient binders into a body specialized under one extra
/// binder leaves every variable bound inside the original scope.
pub proof fn lemma_subst_top_scoped(t: Tm, s: Tm, d: int)
    requires
        0 <= d,
        scoped(t, d + 1),
        scoped(s, d),
    ensures
        scoped(subst_top_tm(t, s), d),
{
    lemma_subst_top_scoped_gen(t, s, d, 0);
}

/// Substitution correctness for a closed argument: substituting a closed
/// term for the one free variable of a body leaves a closed term — no index
/// escapes the scope of the eliminated binder.
pub proof fn lemma_substitution_no_escape(t: Tm, s: Tm)
    requires
        scoped(t, 1),
        scoped(s, 0),
    ensures
        scoped(subst_top_tm(t, s), 0),
{
    lemma_subst_top_scoped(t, s, 0);
}

/// A field value found by label lookup is one of the record's field values.
pub proof fn lemma_lookup_field_is_member(fs: Seq<(Seq<char>, Tm)>, l: Seq<char>) -> (w: int)
    requires
        lookup_field(fs, l) matches Some(_),
    ensures
        0 <= w < fs.len(),
        lookup_field(fs, l) == Some(fs[w].1),
    decreases fs,
{
    if fs.len() > 0 && fs[0].0 == l {
        0
    } else {
        let w0 = lemma_lookup_field_is_member(fs.drop_first(), l);
        assert(fs.drop_first()[w0] == fs[w0 + 1]);
        w0 + 1
    }
}

} // verus!

verus! {

/// One reduction step keeps every variable inside its scope.
#[verifier::rlimit(100)]
pub proof fn lemma_step_scoped(t: Tm, u: Tm, d: int)
    requires
        0 <= d,
        scoped(t, d),
        step_tm(t) == Ok::<Option<Tm>, ()>(Some(u)),
    ensures
        scoped(u, d),
    decreases t,
{
    match t {
        Tm::Bool(_) => {},
        Tm::Var(_) => {},
        Tm::Abs(_, _, _) => {},
        Tm::App(f, a) => {
            match *f {
                Tm::Abs(_, _, body) if is_val(*a) => {
                    assert(scoped(*f, d));
                    assert(scoped(*body, d + 1));
                    lemma_subst_top_scoped(*body, *a, d);
                },
                _ => {
                    if is_val(*f) {
                        let a2 = step_tm(*a)->Ok_0->Some_0;
                        lemma_step_scoped(*a, a2, d);
                    } else {
                        let f2 = step_tm(*f)->Ok_0->Some_0;
                        lemma_step_scoped(*f, f2, d);
                    }
                },
            }
        },
        Tm::If(g, a, b) => {
            if *g != Tm::Bool(true) && *g != Tm::Bool(false) {
                let g2 = step_tm(*g)->Ok_0->Some_0;
                lemma_step_scoped(*g, g2, d);
            }
        },
        Tm::Asc(w, _) => {
            if !is_val(*w) {
                let w2 = step_tm(*w)->Ok_0->Some_0;
                lemma_step_scoped(*w, w2, d);
            }
        },
        Tm::Let(_, a, b) => {
            if is_val(*a) {
                lemma_subst_top_scoped(*b, *a, d);
            } else {
                let a2 = step_tm(*a)->Ok_0->Some_0;
                lemma_step_scoped(*a, a2, d);
            }
        },
        Tm::Tuple(es) => {
            let j = first_nonval(es);
            lemma_all_scoped(es, d);
            if 0 <= j && j < es.len() {
                let e2 = step_tm(es[j])->Ok_0->Some_0;
                lemma_step_scoped(es[j], e2, d);
                lemma_all_scoped(es.update(j, e2), d);
                assert forall|i: int| 0 <= i < es.update(j, e2).len() implies scoped(
                    #[trigger] es.update(j, e2)[i],
                    d,
                ) by {
                    if i != j {
                        assert(es.update(j, e2)[i] == es[i]);
                    }
                }
            }
        },
        Tm::TupleProject(w, ix) => {
            if is_val(*w) {
                match *w {
                    Tm::Tuple(es) => {
                        if !(0 <= ix && ix < es.len()) {
                            assert(step_tm(t) == Err::<Option<Tm>, ()>(()));
                        }
                        assert(0 <= ix && ix < es.len());
                        assert(scoped(*w, d));
                        assert(crate::sem::all_scoped(es, d));
                        lemma_all_scoped(es, d);
                        assert(scoped(es[ix], d));
                    },
                    _ => {},
                }
            } else {
                let w2 = step_tm(*w)->Ok_0->Some_0;
                lemma_step_scoped(*w, w2, d);
            }
        },
        Tm::Record(fs) => {
            let j = first_nonval_fields(fs);
            lemma_all_scoped_fields(fs, d);
            if 0 <= j && j < fs.len() {
                let e2 = step_tm(fs[j].1)->Ok_0->Some_0;
                lemma_step_scoped(fs[j].1, e2, d);
                lemma_all_scoped_fields(fs.update(j, (fs[j].0, e2)), d);
                assert forall|i: int|
                    0 <= i < fs.update(j, (fs[j].0, e2)).len() implies scoped(
                    #[trigger] fs.update(j, (fs[j].0, e2))[i].1,
                    d,
                ) by {
                    if i != j {
                        assert(fs.update(j, (fs[j].0, e2))[i] == fs[i]);
                    }
                }
            }
        },
        Tm::RecordProject(w, l) => {
            if is_val(*w) {
                match *w {
                    Tm::Record(fs) => {
                        if (lookup_field(fs, l) matches None) {
                            assert(step_tm(t) == Err::<Option<Tm>, ()>(()));
                        }
                        assert(lookup_field(fs, l) matches Some(_));
                        assert(scoped(*w, d));
                        assert(crate::sem::all_scoped_fields(fs, d));
                        lemma_all_scoped_fields(fs, d);
                        let wi = lemma_lookup_field_is_member(fs, l);
                        assert(scoped(fs[wi].1, d));
                    },
                    _ => {},
                }
            } else {
                let w2 = step_tm(*w)->Ok_0->Some_0;
                lemma_step_scoped(*w, w2, d);
            }
        },
    }
}

/// On a closed term with machine-range indices, the arithmetic of one
/// reduction step stays in machine range.
#[verifier::rlimit(100)]
pub proof fn lemma_scoped_step_fits(t: Tm)
    requires
        scoped(t, 0),
        i64_indices(t),
    ensures
        step_fits(t),
    decreases t,
{
    match t {
        Tm::Bool(_) => {},
        Tm::Var(_) => {},
        Tm::Abs(_, _, _) => {},
        Tm::App(f, a) => {
            match *f {
                Tm::Abs(_, _, body) if is_val(*a) => {
                    assert(scoped(*f, 0));
                    assert(i64_indices(*f));
                    assert(scoped(*body, 1));
                    assert(i64_indices(*body));
                    lemma_beta_fits(*body, *a);
                },
                _ => {
                    if is_val(*f) {
                        lemma_scoped_step_fits(*a);
                    } else {
                        lemma_scoped_step_fits(*f);
                    }
                },
            }
        },
        Tm::If(g, _, _) => {
            if *g != Tm::Bool(true) && *g != Tm::Bool(false) {
                lemma_scoped_step_fits(*g);
            }
        },
        Tm::Asc(w, _) => {
            if !is_val(*w) {
                lemma_scoped_step_fits(*w);
            }
        },
        Tm::Let(_, a, b) => {
            if is_val(*a) {
                lemma_beta_fits(*b, *a);
            } else {
                lemma_scoped_step_fits(*a);
            }
        },
        Tm::Tuple(es) => {
            let j = first_nonval(es);
            if 0 <= j && j < es.len() {
                lemma_all_scoped(es, 0);
                lemma_all_i64_indices(es);
                lemma_scoped_step_fits(es[j]);
            }
        },
        Tm::TupleProject(w, _) => {
            if !is_val(*w) {
                lemma_scoped_step_fits(*w);
            }
        },
        Tm::Record(fs) => {
            let j = first_nonval_fields(fs);
            if 0 <= j && j < fs.len() {
                lemma_all_scoped_fields(fs, 0);
                lemma_all_i64_indices_fields(fs);
                lemma_scoped_step_fits(fs[j].1);
            }
        },
        Tm::RecordProject(w, _) => {
            if !is_val(*w) {
                lemma_scoped_step_fits(*w);
            }
        },
    }
}

/// The beta substitution of a closed argument into a body under one binder
/// performs only machine-range arithmetic.
proof fn lemma_beta_fits(b: Tm, a: Tm)
    requires
        scoped(b, 1),
        scoped(a, 0),
        i64_indices(b),
        i64_indices(a),
    ensures
        subst_top_fits(b, a),
{
    lemma_scoped_shift_fits(a, 1, 0);
    lemma_shift_id(a, 1, 0);
    lemma_scoped_subst_fits(b, a, 0);
    lemma_subst_indices(b, a, 0);
    lemma_indices_shift_down_fits(subst_tm(b, 0, a, 0), 0);
}

/// One reduction step of a closed term keeps every index in machine range.
#[verifier::rlimit(100)]
pub proof fn lemma_step_indices(t: Tm, u: Tm)
    requires
        scoped(t, 0),
        i64_indices(t),
        step_tm(t) == Ok::<Option<Tm>, ()>(Some(u)),
    ensures
        i64_indices(u),
    decreases t,
{
    match t {
        Tm::Bool(_) => {},
        Tm::Var(_) => {},
        Tm::Abs(_, _, _) => {},
        Tm::App(f, a) => {
            match *f {
                Tm::Abs(_, _, body) if is_val(*a) => {
                    assert(scoped(*f, 0));
                    assert(i64_indices(*f));
                    assert(scoped(*body, 1));
                    assert(i64_indices(*body));
                    lemma_beta_indices(*body, *a);
                },
                _ => {
                    if is_val(*f) {
                        let a2 = step_tm(*a)->Ok_0->Some_0;
                        lemma_step_indices(*a, a2);
                    } else {
                        let f2 = step_tm(*f)->Ok_0->Some_0;
                        lemma_step_indices(*f, f2);
                    }
                },
            }
        },
        Tm::If(g, a, b) => {
            if *g != Tm::Bool(true) && *g != Tm::Bool(false) {
                let g2 = step_tm(*g)->Ok_0->Some_0;
                lemma_step_indices(*g, g2);
            }
        },
        Tm::Asc(w, _) => {
            if !is_val(*w) {
                let w2 = step_tm(*w)->Ok_0->Some_0;
                lemma_step_indices(*w, w2);
            }
        },
        Tm::Let(_, a, b) => {
            if is_val(*a) {
                lemma_beta_indices(*b, *a);
            } else {
                let a2 = step_tm(*a)->Ok_0->Some_0;
                lemma_step_indices(*a, a2);
            }
        },
        Tm::Tuple(es) => {
            let j = first_nonval(es);
            lemma_all_scoped(es, 0);
            lemma_all_i64_indices(es);
            if 0 <= j && j < es.len() {
                let e2 = step_tm(es[j])->Ok_0->Some_0;
                lemma_step_indices(es[j], e2);
                lemma_all_i64_indices(es.update(j, e2));
                assert forall|i: int|
                    0 <= i < es.update(j, e2).len() implies i64_indices(
                    #[trigger] es.update(j, e2)[i],
                ) by {
                    if i != j {
                        assert(es.update(j, e2)[i] == es[i]);
                    }
                }
            }
        },
        Tm::TupleProject(w, ix) => {
            if is_val(*w) {
                match *w {
                    Tm::Tuple(es) => {
                        if !(0 <= ix && ix < es.len()) {
                            assert(step_tm(t) == Err::<Option<Tm>, ()>(()));
                        }
                        assert(0 <= ix && ix < es.len());
                        assert(i64_indices(*w));
                        assert(crate::sem::all_i64_indices(es));
                        lemma_all_i64_indices(es);
                        assert(i64_indices(es[ix]));
                    },
                    _ => {},
                }
            } else {
                let w2 = step_tm(*w)->Ok_0->Some_0;
                lemma_step_indices(*w, w2);
            }
        },
        Tm::Record(fs) => {
            let j = first_nonval_fields(fs);
            lemma_all_scoped_fields(fs, 0);
            lemma_all_i64_indices_fields(fs);
            if 0 <= j && j < fs.len() {
                let e2 = step_tm(fs[j].1)->Ok_0->Some_0;
                lemma_step_indices(fs[j].1, e2);
                lemma_all_i64_indices_fields(fs.update(j, (fs[j].0, e2)));
                assert forall|i: int|
                    0 <= i < fs.update(j, (fs[j].0, e2)).len() implies i64_indices(
                    #[trigger] fs.update(j, (fs[j].0, e2))[i].1,
                ) by {
                    if i != j {
                        assert(fs.update(j, (fs[j].0, e2))[i] == fs[i]);
                    }
                }
            }
        },
        Tm::RecordProject(w, l) => {
            if is_val(*w) {
                match *w {
                    Tm::Record(fs) => {
                        if (lookup_field(fs, l) matches None) {
                            assert(step_tm(t) == Err::<Option<Tm>, ()>(()));
                        }
                        assert(lookup_field(fs, l) matches Some(_));
                        assert(i64_indices(*w));
                        assert(crate::sem::all_i64_indices_fields(fs));
                        lemma_all_i64_indices_fields(fs);
                        let wi = lemma_lookup_field_is_member(fs, l);
                        assert(i64_indices(fs[wi].1));
                    },
                    _ => {},
                }
            } else {
                let w2 = step_tm(*w)->Ok_0->Some_0;
                lemma_step_indices(*w, w2);
            }
        },
    }
}

/// The beta substitution of a closed argument keeps indices in machine
/// range.
proof fn lemma_beta_indices(b: Tm, a: Tm)
    requires
        scoped(b, 1),
        scoped(a, 0),
        i64_indices(b),
        i64_indices(a),
    ensures
        i64_indices(subst_top_tm(b, a)),
{
    lemma_shift_id(a, 1, 0);
    lemma_subst_indices(b, a, 0);
    lemma_shift_down_indices(subst_tm(b, 0, a, 0), 0);
}

} // verus!

verus! {

use crate::sem::TyErr;
use crate::sem::ty_tm;
use crate::sem::shift_reversible;
use crate::sem::all_shift_reversible;
use crate::sem::all_shift_reversible_fields;

/// Shift idempotence at the boundary: a shift by `d` above cutoff `c`
/// followed by a shift by `-d` restores the term, whenever no moved index
/// lands back across the cutoff. A downward shift can break the condition:
/// shifting the single variable of `Var(0)` down by one at cutoff zero
/// cannot be undone.
pub proof fn lemma_shift_unshift(t: Tm, d: int, c: int)
    requires
        shift_reversible(t, d, c),
    ensures
        shift_tm(shift_tm(t, d, c), -d, c) == t,
    decreases t,
{
    match t {
        Tm::Bool(_) => {},
        Tm::Var(_) => {},
        Tm::If(g, a, b) => {
            lemma_shift_unshift(*g, d, c);
            lemma_shift_unshift(*a, d, c);
            lemma_shift_unshift(*b, d, c);
        },
        Tm::Abs(_, _, body) => {
            lemma_shift_unshift(*body, d, c + 1);
        },
        Tm::App(f, a) => {
            lemma_shift_unshift(*f, d, c);
            lemma_shift_unshift(*a, d, c);
        },
        Tm::Asc(u, _) => {
            lemma_shift_unshift(*u, d, c);
        },
        Tm::Let(_, a, b) => {
            lemma_shift_unshift(*a, d, c);
            lemma_shift_unshift(*b, d, c + 1);
        },
        Tm::Tuple(es) => {
            lemma_shift_unshift_seq(es, d, c);
        },
        Tm::TupleProject(u, _) => {
            lemma_shift_unshift(*u, d, c);
        },
        Tm::Record(fs) => {
            lemma_shift_unshift_fields(fs, d, c);
        },
        Tm::RecordProject(u, _) => {
            lemma_shift_unshift(*u, d, c);
        },
    }
}

proof fn lemma_shift_unshift_seq(es: Seq<Tm>, d: int, c: int)
    requires
        all_shift_reversible(es, d, c),
    ensures
        shift_seq(shift_seq(es, d, c), -d, c) == es,
    decreases es,
{
    if es.len() == 0 {
        assert(shift_seq(shift_seq(es, d, c), -d, c) =~= es);
    } else {
        lemma_shift_unshift_seq(es.drop_last(), d, c);
        lemma_shift_unshift(es.last(), d, c);
        let once = shift_seq(es, d, c);
        assert(once == shift_seq(es.drop_last(), d, c).push(shift_tm(es.last(), d, c)));
        assert(once.drop_last() == shift_seq(es.drop_last(), d, c));
        assert(once.last() == shift_tm(es.last(), d, c));
        assert(shift_seq(once, -d, c) == shift_seq(once.drop_last(), -d, c).push(
            shift_tm(once.last(), -d, c),
        ));
        assert(shift_seq(once, -d, c) =~= es);
    }
}

proof fn lemma_shift_unshift_fields(fs: Seq<(Seq<char>, Tm)>, d: int, c: int)
    requires
        all_shift_reversible_fields(fs, d, c),
    ensures
        shift_fields(shift_fields(fs, d, c), -d, c) == fs,
    decreases fs,
{
    if fs.len() == 0 {
        assert(shift_fields(shift_fields(fs, d, c), -d, c) =~= fs);
    } else {
        lemma_shift_unshift_fields(fs.drop_last(), d, c);
        lemma_shift_unshift(fs.last().1, d, c);
        let once = shift_fields(fs, d, c);
        assert(once == shift_fields(fs.drop_last(), d, c).push(
            (fs.last().0, shift_tm(fs.last().1, d, c)),
        ));
        assert(once.drop_last() == shift_fields(fs.drop_last(), d, c));
        assert(once.last() == (fs.last().0, shift_tm(fs.last().1, d, c)));
        assert(shift_fields(once, -d, c) == shift_fields(once.drop_last(), -d, c).push(
            (once.last().0, shift_tm(once.last().1, -d, c)),
        ));
        assert(shift_fields(once, -d, c) =~= fs);
    }
}

/// An upward shift never crosses back over the cutoff, so it can always be
/// undone.
pub proof fn lemma_shift_up_reversible(t: Tm, d: int, c: int)
    requires
        0 <= d,
    ensures
        shift_reversible(t, d, c),
    decreases t,
{
    match t {
        Tm::Bool(_) => {},
        Tm::Var(_) => {},
        Tm::If(g, a, b) => {
            lemma_shift_up_reversible(*g, d, c);
            lemma_shift_up_reversible(*a, d, c);
            lemma_shift_up_reversible(*b, d, c);
        },
        Tm::Abs(_, _, body) => {
            lemma_shift_up_reversible(*body, d, c + 1);
        },
        Tm::App(f, a) => {
            lemma_shift_up_reversible(*f, d, c);
            lemma_shift_up_reversible(*a, d, c);
        },
        Tm::Asc(u, _) => {
            lemma_shift_up_reversible(*u, d, c);
        },
        Tm::Let(_, a, b) => {
            lemma_shift_up_reversible(*a, d, c);
            lemma_shift_up_reversible(*b, d, c + 1);
        },
        Tm::Tuple(es) => {
            lemma_shift_up_reversible_seq(es, d, c);
        },
        Tm::TupleProject(u, _) => {
            lemma_shift_up_reversible(*u, d, c);
        },
        Tm::Record(fs) => {
            lemma_shift_up_reversible_fields(fs, d, c);
        },
        Tm::RecordProject(u, _) => {
            lemma_shift_up_reversible(*u, d, c);
        },
    }
}

proof fn lemma_shift_up_reversible_seq(es: Seq<Tm>, d: int, c: int)
    requires
        0 <= d,
    ensures
        all_shift_reversible(es, d, c),
    decreases es,
{
    if es.len() > 0 {
        lemma_shift_up_reversible_seq(es.drop_last(), d, c);
        lemma_shift_up_reversible(es.last(), d, c);
    }
}

proof fn lemma_shift_up_reversible_fields(fs: Seq<(Seq<char>, Tm)>, d: int, c: int)
    requires
        0 <= d,
    ensures
        all_shift_reversible_fields(fs, d, c),
    decreases fs,
{
    if fs.len() > 0 {
        lemma_shift_up_reversible_fields(fs.drop_last(), d, c);
        lemma_shift_up_reversible(fs.last().1, d, c);
    }
}

/// Determinism of one-step reduction: the reduction rules, tried in their
/// fixed priority order, give at most one next term, because the relation is
/// the graph of the function `step_tm`.
pub proof fn lemma_step_deterministic(t: Tm, u1: Tm, u2: Tm)
    requires
        step_tm(t) == Ok::<Option<Tm>, ()>(Some(u1)),
        step_tm(t) == Ok::<Option<Tm>, ()>(Some(u2)),
    ensures
        u1 == u2,
{
}

} // verus!

verus! {

use crate::sem::Ty;
use crate::sem::ty_seq;
use crate::sem::ty_fields;
use crate::sem::lookup_field_ty;

/// A well-typed sequence types its elements pointwise.
pub proof fn lemma_ty_seq_ok(es: Seq<Tm>, g: Seq<Ty>)
    requires
        ty_seq(es, g) matches Ok(_),
    ensures
        ty_seq(es, g)->Ok_0.len() == es.len(),
        forall|i: int| 0 <= i < es.len() ==> ty_tm(#[trigger] es[i], g) == Ok::<Ty, TyErr>(
            ty_seq(es, g)->Ok_0[i],
        ),
    decreases es,
{
    if es.len() > 0 {
        lemma_ty_seq_ok(es.drop_last(), g);
        assert(forall|i: int| 0 <= i < es.len() - 1 ==> #[trigger] es[i] == es.drop_last()[i]);
    }
}

/// Pointwise-typed elements type as a sequence.
pub proof fn lemma_ty_seq_build(es: Seq<Tm>, g: Seq<Ty>, ts: Seq<Ty>)
    requires
        ts.len() == es.len(),
        forall|i: int| 0 <= i < es.len() ==> ty_tm(#[trigger] es[i], g) == Ok::<Ty, TyErr>(ts[i]),
    ensures
        ty_seq(es, g) == Ok::<Seq<Ty>, TyErr>(ts),
    decreases es,
{
    if es.len() == 0 {
        assert(ty_seq(es, g)->Ok_0 =~= ts);
    } else {
        assert(forall|i: int| 0 <= i < es.len() - 1 ==> #[trigger] es.drop_last()[i] == es[i]);
        lemma_ty_seq_build(es.drop_last(), g, ts.drop_last());
        assert(ty_tm(es.last(), g) == Ok::<Ty, TyErr>(ts.last()));
        assert(ts.drop_last().push(ts.last()) =~= ts);
    }
}

/// A well-typed record types its fields pointwise, labels kept.
pub proof fn lemma_ty_fields_ok(fs: Seq<(Seq<char>, Tm)>, g: Seq<Ty>)
    requires
        ty_fields(fs, g) matches Ok(_),
    ensures
        ty_fields(fs, g)->Ok_0.len() == fs.len(),
        forall|i: int| 0 <= i < fs.len() ==> (#[trigger] ty_fields(fs, g)->Ok_0[i]).0 == fs[i].0
            && ty_tm(fs[i].1, g) == Ok::<Ty, TyErr>(ty_fields(fs, g)->Ok_0[i].1),
    decreases fs,
{
    if fs.len() > 0 {
        lemma_ty_fields_ok(fs.drop_last(), g);
        assert(forall|i: int| 0 <= i < fs.len() - 1 ==> #[trigger] fs[i] == fs.drop_last()[i]);
    }
}

/// Pointwise-typed fields type as a record.
pub proof fn lemma_ty_fields_build(fs: Seq<(Seq<char>, Tm)>, g: Seq<Ty>, fts: Seq<(Seq<char>, Ty)>)
    requires
        fts.len() == fs.len(),
        forall|i: int| 0 <= i < fs.len() ==> (#[trigger] fts[i]).0 == fs[i].0 && ty_tm(
            fs[i].1,
            g,
        ) == Ok::<Ty, TyErr>(fts[i].1),
    ensures
        ty_fields(fs, g) == Ok::<Seq<(Seq<char>, Ty)>, TyErr>(fts),
    decreases fs,
{
    if fs.len() == 0 {
        assert(ty_fields(fs, g)->Ok_0 =~= fts);
    } else {
        assert(forall|i: int| 0 <= i < fs.len() - 1 ==> #[trigger] fs.drop_last()[i] == fs[i]);
        lemma_ty_fields_build(fs.drop_last(), g, fts.drop_last());
        assert((fts.last()).0 == fs.last().0);
        assert(ty_tm(fs.last().1, g) == Ok::<Ty, TyErr>(fts.last().1));
        assert(fts.drop_last().push(fts.last()) =~= fts);
    }
}

/// The first field carrying a label and its type sit at one position in a
/// record and in its record type.
pub proof fn lemma_lookup_pair(
    fs: Seq<(Seq<char>, Tm)>,
    fts: Seq<(Seq<char>, Ty)>,
    l: Seq<char>,
) -> (w: int)
    requires
        fts.len() == fs.len(),
        forall|i: int| 0 <= i < fs.len() ==> (#[trigger] fts[i]).0 == fs[i].0,
        lookup_field_ty(fts, l) matches Some(_),
    ensures
        0 <= w < fs.len(),
        lookup_field(fs, l) == Some(fs[w].1),
        lookup_field_ty(fts, l) == Some(fts[w].1),
    decreases fs,
{
    if fs[0].0 == l {
        0
    } else {
        let dd = fs.drop_first();
        let dt = fts.drop_first();
        assert(forall|i: int| 0 <= i < dd.len() ==> #[trigger] dd[i] == fs[i + 1]);
        assert(forall|i: int| 0 <= i < dt.len() ==> #[trigger] dt[i] == fts[i + 1]);
        let w0 = lemma_lookup_pair(dd, dt, l);
        w0 + 1
    }
}

} // verus!

verus! {

/// Weakening: inserting binder types behind the cutoff while shifting the
/// term by their number leaves its type unchanged.
#[verifier::rlimit(100)]
pub proof fn lemma_weaken(t: Tm, g1: Seq<Ty>, g2: Seq<Ty>, g3: Seq<Ty>)
    requires
        ty_tm(t, g1 + g3) matches Ok(_),
    ensures
        ty_tm(shift_tm(t, g2.len() as int, g3.len() as int), g1 + g2 + g3) == ty_tm(t, g1 + g3),
    decreases t,
{
    let n = g2.len() as int;
    let c = g3.len() as int;
    let ctx = g1 + g3;
    let ctx2 = g1 + g2 + g3;
    match t {
        Tm::Bool(_) => {},
        Tm::Var(_) => {},
        Tm::If(g, a, b) => {
            lemma_weaken(*g, g1, g2, g3);
            lemma_weaken(*a, g1, g2, g3);
            lemma_weaken(*b, g1, g2, g3);
        },
        Tm::Abs(_, tp, body) => {
            assert(ctx.push(tp) =~= g1 + g3.push(tp));
            lemma_weaken(*body, g1, g2, g3.push(tp));
            assert(g1 + g2 + g3.push(tp) =~= ctx2.push(tp));
        },
        Tm::App(f, a) => {
            lemma_weaken(*f, g1, g2, g3);
            lemma_weaken(*a, g1, g2, g3);
        },
        Tm::Asc(u, _) => {
            lemma_weaken(*u, g1, g2, g3);
        },
        Tm::Let(_, a, b) => {
            lemma_weaken(*a, g1, g2, g3);
            let ta = ty_tm(*a, ctx)->Ok_0;
            assert(ctx.push(ta) =~= g1 + g3.push(ta));
            lemma_weaken(*b, g1, g2, g3.push(ta));
            assert(g1 + g2 + g3.push(ta) =~= ctx2.push(ta));
        },
        Tm::Tuple(es) => {
            let ts = ty_seq(es, ctx)->Ok_0;
            lemma_ty_seq_ok(es, ctx);
            lemma_shift_seq(es, n, c);
            assert forall|i: int|
                0 <= i < shift_seq(es, n, c).len() implies ty_tm(
                #[trigger] shift_seq(es, n, c)[i],
                ctx2,
            ) == Ok::<Ty, TyErr>(ts[i]) by {
                lemma_weaken(es[i], g1, g2, g3);
            }
            lemma_ty_seq_build(shift_seq(es, n, c), ctx2, ts);
        },
        Tm::TupleProject(u, _) => {
            lemma_weaken(*u, g1, g2, g3);
        },
        Tm::Record(fs) => {
            let fts = ty_fields(fs, ctx)->Ok_0;
            lemma_ty_fields_ok(fs, ctx);
            lemma_shift_fields(fs, n, c);
            assert forall|i: int|
                0 <= i < shift_fields(fs, n, c).len() implies (#[trigger] fts[i]).0
                == shift_fields(fs, n, c)[i].0 && ty_tm(shift_fields(fs, n, c)[i].1, ctx2) == Ok::<
                Ty,
                TyErr,
            >(fts[i].1) by {
                assert(ty_fields(fs, ctx) matches Ok(_));
                assert(ty_tm(fs[i].1, ctx) == Ok::<Ty, TyErr>(fts[i].1));
                lemma_weaken(fs[i].1, g1, g2, g3);
            }
            lemma_ty_fields_build(shift_fields(fs, n, c), ctx2, fts);
        },
        Tm::RecordProject(u, _) => {
            lemma_weaken(*u, g1, g2, g3);
        },
    }
}

} // verus!

verus! {

/// Substitution preserves typing: replacing the variable bound `k` binders
/// up with a term of its declared type, through the shift-substitute-shift
/// sequence, leaves the type unchanged, the binder's slot removed from the
/// context.
#[verifier::rlimit(100)]
pub proof fn lemma_subst_ty(t: Tm, s: Tm, g1: Seq<Ty>, sv: Ty, g3: Seq<Ty>)
    requires
        ty_tm(t, g1.push(sv) + g3) matches Ok(_),
        ty_tm(s, g1) == Ok::<Ty, TyErr>(sv),
    ensures
        ty_tm(
            shift_tm(
                subst_tm(t, 0, shift_tm(s, 1, 0), g3.len() as int),
                -1,
                g3.len() as int,
            ),
            g1 + g3,
        ) == ty_tm(t, g1.push(sv) + g3),
    decreases t,
{
    let k = g3.len() as int;
    let ctx = g1.push(sv) + g3;
    let ctx2 = g1 + g3;
    let s1 = shift_tm(s, 1, 0);
    match t {
        Tm::Bool(_) => {},
        Tm::Var(i) => {
            if i == k {
                lemma_shift_shift_fuse(s, 1, k, 0);
                lemma_shift_up_down(s, k + 1, 0);
                assert(g1 + Seq::<Ty>::empty() =~= g1);
                lemma_weaken(s, g1, g3, Seq::<Ty>::empty());
                assert(g1 + g3 + Seq::<Ty>::empty() =~= ctx2);
                assert(ctx[ctx.len() - 1 - k] == sv);
            } else if i < k {
                assert(ctx[ctx.len() - 1 - i] == g3[k - 1 - i]);
                assert(ctx2[ctx2.len() - 1 - i] == g3[k - 1 - i]);
            } else {
                if 0 <= i < ctx.len() {
                    assert(ctx[ctx.len() - 1 - i] == g1[g1.len() + k - i]);
                    assert(ctx2[ctx2.len() - 1 - (i - 1)] == g1[g1.len() + k - i]);
                }
            }
        },
        Tm::If(g, a, b) => {
            lemma_subst_ty(*g, s, g1, sv, g3);
            lemma_subst_ty(*a, s, g1, sv, g3);
            lemma_subst_ty(*b, s, g1, sv, g3);
        },
        Tm::Abs(_, tp, body) => {
            assert(ctx.push(tp) =~= g1.push(sv) + g3.push(tp));
            lemma_subst_ty(*body, s, g1, sv, g3.push(tp));
            assert(g1 + g3.push(tp) =~= ctx2.push(tp));
        },
        Tm::App(f, a) => {
            lemma_subst_ty(*f, s, g1, sv, g3);
            lemma_subst_ty(*a, s, g1, sv, g3);
        },
        Tm::Asc(u, _) => {
            lemma_subst_ty(*u, s, g1, sv, g3);
        },
        Tm::Let(_, a, b) => {
            lemma_subst_ty(*a, s, g1, sv, g3);
            let ta = ty_tm(*a, ctx)->Ok_0;
            assert(ctx.push(ta) =~= g1.push(sv) + g3.push(ta));
            lemma_subst_ty(*b, s, g1, sv, g3.push(ta));
            assert(g1 + g3.push(ta) =~= ctx2.push(ta));
        },
        Tm::Tuple(es) => {
            let ts = ty_seq(es, ctx)->Ok_0;
            lemma_ty_seq_ok(es, ctx);
            lemma_subst_seq(es, 0, s1, k);
            lemma_shift_seq(subst_seq(es, 0, s1, k), -1, k);
            let es2 = shift_seq(subst_seq(es, 0, s1, k), -1, k);
            assert forall|i: int|
                0 <= i < es2.len() implies ty_tm(#[trigger] es2[i], ctx2) == Ok::<Ty, TyErr>(
                ts[i],
            ) by {
                assert(ty_tm(es[i], ctx) == Ok::<Ty, TyErr>(ts[i]));
                lemma_subst_ty(es[i], s, g1, sv, g3);
            }
            lemma_ty_seq_build(es2, ctx2, ts);
        },
        Tm::TupleProject(u, _) => {
            lemma_subst_ty(*u, s, g1, sv, g3);
        },
        Tm::Record(fs) => {
            let fts = ty_fields(fs, ctx)->Ok_0;
            lemma_ty_fields_ok(fs, ctx);
            lemma_subst_fields(fs, 0, s1, k);
            lemma_shift_fields(subst_fields(fs, 0, s1, k), -1, k);
            let fs2 = shift_fields(subst_fields(fs, 0, s1, k), -1, k);
            assert forall|i: int|
                0 <= i < fs2.len() implies (#[trigger] fts[i]).0 == fs2[i].0 && ty_tm(
                fs2[i].1,
                ctx2,
            ) == Ok::<Ty, TyErr>(fts[i].1) by {
                assert(ty_fields(fs, ctx) matches Ok(_));
                assert(ty_tm(fs[i].1, ctx) == Ok::<Ty, TyErr>(fts[i].1));
                lemma_subst_ty(fs[i].1, s, g1, sv, g3);
            }
            lemma_ty_fields_build(fs2, ctx2, fts);
        },
        Tm::RecordProject(u, _) => {
            lemma_subst_ty(*u, s, g1, sv, g3);
        },
    }
}

/// The beta case of preservation: substituting a well-typed argument for the
/// variable of a matching abstraction body keeps the body's type.
pub proof fn lemma_subst_top_ty(b: Tm, a: Tm, g: Seq<Ty>, pv: Ty)
    requires
        ty_tm(b, g.push(pv)) matches Ok(_),
        ty_tm(a, g) == Ok::<Ty, TyErr>(pv),
    ensures
        ty_tm(subst_top_tm(b, a), g) == ty_tm(b, g.push(pv)),
{
    assert(g.push(pv) + Seq::<Ty>::empty() =~= g.push(pv));
    lemma_subst_ty(b, a, g, pv, Seq::<Ty>::empty());
    assert(g + Seq::<Ty>::empty() =~= g);
}

} // verus!

verus! {

/// Preservation: a term that type-checks keeps exactly its type across one
/// reduction step, under any context.
#[verifier::rlimit(100)]
pub proof fn lemma_preservation(t: Tm, u: Tm, g: Seq<Ty>)
    requires
        ty_tm(t, g) matches Ok(_),
        step_tm(t) == Ok::<Option<Tm>, ()>(Some(u)),
    ensures
        ty_tm(u, g) == ty_tm(t, g),
    decreases t,
{
    match t {
        Tm::Bool(_) => {},
        Tm::Var(_) => {},
        Tm::Abs(_, _, _) => {},
        Tm::App(f, a) => {
            match *f {
                Tm::Abs(_, tp, body) if is_val(*a) => {
                    assert(ty_tm(*f, g) == Ok::<Ty, TyErr>(
                        Ty::Fun(Box::new(tp), Box::new(ty_tm(*body, g.push(tp))->Ok_0)),
                    ));
                    assert(ty_tm(*a, g) == Ok::<Ty, TyErr>(tp));
                    lemma_subst_top_ty(*body, *a, g, tp);
                },
                _ => {
                    if is_val(*f) {
                        let a2 = step_tm(*a)->Ok_0->Some_0;
                        lemma_preservation(*a, a2, g);
                    } else {
                        let f2 = step_tm(*f)->Ok_0->Some_0;
                        lemma_preservation(*f, f2, g);
                    }
                },
            }
        },
        Tm::If(c, a, b) => {
            if *c != Tm::Bool(true) && *c != Tm::Bool(false) {
                let c2 = step_tm(*c)->Ok_0->Some_0;
                lemma_preservation(*c, c2, g);
            }
        },
        Tm::Asc(w, _) => {
            if !is_val(*w) {
                let w2 = step_tm(*w)->Ok_0->Some_0;
                lemma_preservation(*w, w2, g);
            }
        },
        Tm::Let(_, a, b) => {
            if is_val(*a) {
                let ta = ty_tm(*a, g)->Ok_0;
                lemma_subst_top_ty(*b, *a, g, ta);
            } else {
                let a2 = step_tm(*a)->Ok_0->Some_0;
                lemma_preservation(*a, a2, g);
            }
        },
        Tm::Tuple(es) => {
            let j = first_nonval(es);
            if 0 <= j && j < es.len() {
                let e2 = step_tm(es[j])->Ok_0->Some_0;
                let ts = ty_seq(es, g)->Ok_0;
                lemma_ty_seq_ok(es, g);
                lemma_preservation(es[j], e2, g);
                let es2 = es.update(j, e2);
                assert forall|i: int|
                    0 <= i < es2.len() implies ty_tm(#[trigger] es2[i], g) == Ok::<Ty, TyErr>(
                    ts[i],
                ) by {
                    if i != j {
                        assert(es2[i] == es[i]);
                    }
                }
                lemma_ty_seq_build(es2, g, ts);
            }
        },
        Tm::TupleProject(w, ix) => {
            if is_val(*w) {
                match *w {
                    Tm::Tuple(es) => {
                        if !(0 <= ix && ix < es.len()) {
                            assert(step_tm(t) == Err::<Option<Tm>, ()>(()));
                        }
                        assert(ty_tm(*w, g) matches Ok(_));
                        assert(ty_seq(es, g) matches Ok(_)) by {
                            if ty_seq(es, g) matches Err(_) {
                                assert(ty_tm(*w, g) matches Err(_));
                            }
                        }
                        lemma_ty_seq_ok(es, g);
                        assert(ty_tm(*w, g) == Ok::<Ty, TyErr>(Ty::Tuple(ty_seq(es, g)->Ok_0)));
                        assert(u == es[ix]);
                        assert(ty_tm(u, g) == ty_tm(t, g));
                    },
                    _ => {},
                }
            } else {
                let w2 = step_tm(*w)->Ok_0->Some_0;
                lemma_preservation(*w, w2, g);
            }
        },
        Tm::Record(fs) => {
            let j = first_nonval_fields(fs);
            if 0 <= j && j < fs.len() {
                let e2 = step_tm(fs[j].1)->Ok_0->Some_0;
                let fts = ty_fields(fs, g)->Ok_0;
                lemma_ty_fields_ok(fs, g);
                assert(ty_tm(fs[j].1, g) == Ok::<Ty, TyErr>(fts[j].1));
                lemma_preservation(fs[j].1, e2, g);
                let fs2 = fs.update(j, (fs[j].0, e2));
                assert forall|i: int|
                    0 <= i < fs2.len() implies (#[trigger] fts[i]).0 == fs2[i].0 && ty_tm(
                    fs2[i].1,
                    g,
                ) == Ok::<Ty, TyErr>(fts[i].1) by {
                    if i != j {
                        assert(fs2[i] == fs[i]);
                    }
                }
                lemma_ty_fields_build(fs2, g, fts);
            }
        },
        Tm::RecordProject(w, l) => {
            if is_val(*w) {
                match *w {
                    Tm::Record(fs) => {
                        if (lookup_field(fs, l) matches None) {
                            assert(step_tm(t) == Err::<Option<Tm>, ()>(()));
                        }
                        let fts = ty_fields(fs, g)->Ok_0;
                        lemma_ty_fields_ok(fs, g);
                        assert(ty_tm(*w, g) == Ok::<Ty, TyErr>(Ty::Record(fts)));
                        if (lookup_field_ty(fts, l) matches None) {
                            assert(ty_tm(t, g) matches Err(_));
                        }
                        let w0 = lemma_lookup_pair(fs, fts, l);
                        assert(u == fs[w0].1);
                        assert(ty_tm(u, g) == Ok::<Ty, TyErr>(fts[w0].1));
                    },
                    _ => {},
                }
            } else {
                let w2 = step_tm(*w)->Ok_0->Some_0;
                lemma_preservation(*w, w2, g);
            }
        },
    }
}

/// Progress: a closed, well-typed term that is not a value always takes a
/// reduction step — it is never stuck and never violates internal
/// consistency.
#[verifier::rlimit(100)]
pub proof fn lemma_progress(t: Tm)
    requires
        ty_tm(t, Seq::<Ty>::empty()) matches Ok(_),
        !is_val(t),
    ensures
        step_tm(t) matches Ok(Some(_)),
    decreases t,
{
    let g = Seq::<Ty>::empty();
    match t {
        Tm::Bool(_) => {},
        Tm::Var(_) => {},
        Tm::Abs(_, _, _) => {},
        Tm::App(f, a) => {
            if is_val(*f) {
                match *f {
                    Tm::Abs(_, _, _) => {
                        if !is_val(*a) {
                            lemma_progress(*a);
                        }
                    },
                    Tm::Tuple(_) => {
                        assert(ty_tm(*f, g)->Ok_0 matches Ty::Tuple(_));
                        assert(false);
                    },
                    Tm::Record(_) => {
                        assert(ty_tm(*f, g)->Ok_0 matches Ty::Record(_));
                        assert(false);
                    },
                    _ => {
                        assert(false);
                    },
                }
            } else {
                lemma_progress(*f);
            }
        },
        Tm::If(c, a, b) => {
            if is_val(*c) {
                match *c {
                    Tm::Bool(_) => {},
                    Tm::Tuple(_) => {
                        assert(ty_tm(*c, g)->Ok_0 matches Ty::Tuple(_));
                        assert(false);
                    },
                    Tm::Record(_) => {
                        assert(ty_tm(*c, g)->Ok_0 matches Ty::Record(_));
                        assert(false);
                    },
                    _ => {
                        assert(false);
                    },
                }
            } else {
                lemma_progress(*c);
            }
        },
        Tm::Asc(w, _) => {
            if !is_val(*w) {
                lemma_progress(*w);
            }
        },
        Tm::Let(_, a, b) => {
            if !is_val(*a) {
                lemma_progress(*a);
            }
        },
        Tm::Tuple(es) => {
            lemma_all_val(es);
            lemma_first_nonval(es);
            let j = first_nonval(es);
            assert(0 <= j && j < es.len());
            lemma_ty_seq_ok(es, g);
            lemma_progress(es[j]);
        },
        Tm::TupleProject(w, ix) => {
            if is_val(*w) {
                match *w {
                    Tm::Tuple(es) => {
                        let fts = ty_tm(*w, g)->Ok_0;
                        lemma_ty_seq_ok(es, g);
                        assert(ty_tm(*w, g) == Ok::<Ty, TyErr>(
                            Ty::Tuple(ty_seq(es, g)->Ok_0),
                        ));
                        assert(0 <= ix && ix < es.len());
                    },
                    Tm::Abs(_, _, _) => {
                        assert(ty_tm(*w, g)->Ok_0 matches Ty::Fun(_, _));
                        assert(false);
                    },
                    Tm::Record(_) => {
                        assert(ty_tm(*w, g)->Ok_0 matches Ty::Record(_));
                        assert(false);
                    },
                    _ => {
                        assert(false);
                    },
                }
            } else {
                lemma_progress(*w);
            }
        },
        Tm::Record(fs) => {
            assert(!crate::sem::all_val_fields(fs));
            lemma_all_val_fields(fs);
            lemma_first_nonval_fields(fs);
            let j = first_nonval_fields(fs);
            assert(j != -1) by {
                if j == -1 {
                    assert(forall|i: int| 0 <= i < fs.len() ==> is_val(#[trigger] fs[i].1));
                }
            }
            assert(0 <= j && j < fs.len());
            assert(ty_fields(fs, g) matches Ok(_)) by {
                if ty_fields(fs, g) matches Err(_) {
                    assert(ty_tm(t, g) matches Err(_));
                }
            }
            lemma_ty_fields_ok(fs, g);
            let fts = ty_fields(fs, g)->Ok_0;
            assert(ty_tm(fs[j].1, g) == Ok::<Ty, TyErr>(fts[j].1));
            lemma_progress(fs[j].1);
        },
        Tm::RecordProject(w, l) => {
            if is_val(*w) {
                match *w {
                    Tm::Record(fs) => {
                        lemma_ty_fields_ok(fs, g);
                        assert(ty_tm(*w, g) == Ok::<Ty, TyErr>(
                            Ty::Record(ty_fields(fs, g)->Ok_0),
                        ));
                        let fts = ty_fields(fs, g)->Ok_0;
                        assert(lookup_field_ty(fts, l) matches Some(_));
                        let w0 = lemma_lookup_pair(fs, fts, l);
                        assert(lookup_field(fs, l) matches Some(_));
                    },
                    Tm::Abs(_, _, _) => {
                        assert(ty_tm(*w, g)->Ok_0 matches Ty::Fun(_, _));
                        assert(false);
                    },
                    Tm::Tuple(_) => {
                        assert(ty_tm(*w, g)->Ok_0 matches Ty::Tuple(_));
                        assert(false);
                    },
                    _ => {
                        assert(false);
                    },
                }
            } else {
                lemma_progress(*w);
            }
        },
    }
}

} // verus!

verus! {

use crate::sem::eval_tm;

/// A value takes no reduction step.
pub proof fn lemma_value_no_step(t: Tm)
    requires
        is_val(t),
    ensures
        step_tm(t) == Ok::<Option<Tm>, ()>(None),
{
    match t {
        Tm::Tuple(es) => {
            lemma_all_val(es);
            lemma_first_nonval(es);
        },
        Tm::Record(fs) => {
            lemma_all_val_fields(fs);
            lemma_first_nonval_fields(fs);
        },
        _ => {},
    }
}

/// Type soundness of bounded evaluation: running a closed well-typed term
/// never meets the internal-consistency violation, and what comes out still
/// has the term's type.
pub proof fn lemma_well_typed_never_violates(t: Tm, fuel: nat)
    requires
        ty_tm(t, Seq::<Ty>::empty()) matches Ok(_),
    ensures
        eval_tm(t, fuel) matches Ok(_),
        ty_tm(eval_tm(t, fuel)->Ok_0, Seq::<Ty>::empty()) == ty_tm(t, Seq::<Ty>::empty()),
    decreases fuel,
{
    if fuel > 0 {
        match step_tm(t) {
            Ok(Some(t2)) => {
                lemma_preservation(t, t2, Seq::<Ty>::empty());
                lemma_well_typed_never_violates(t2, (fuel - 1) as nat);
            },
            Ok(None) => {},
            Err(_) => {
                if is_val(t) {
                    lemma_value_no_step(t);
                } else {
                    lemma_progress(t);
                }
            },
        }
    }
}

} // verus!
