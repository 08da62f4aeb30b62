use stlc::term::Term;
use stlc::term::Violation;
use stlc::ty::Context;
use stlc::ty::Type;
use stlc::ty::TypeError;

fn b(t: Term) -> Box<Term> {
    Box::new(t)
}

fn tt() -> Term {
    Term::Bool(true)
}

fn ff() -> Term {
    Term::Bool(false)
}

fn identity_abs() -> Term {
    Term::Abs { hint: "x".to_owned(), ty: Type::Bool, body: b(Term::Var(0)) }
}

#[test]
fn beta_step_returns_argument() {
    let t = Term::App { fun: b(identity_abs()), arg: b(tt()) };
    let stepped = t.step().unwrap().unwrap();
    assert_eq!(stepped, tt());
    assert_eq!(stepped.step().unwrap(), None);
}

#[test]
fn conditional_checks_and_evaluates() {
    let t = Term::If { cond: b(tt()), thn: b(ff()), els: b(tt()) };
    let mut ctx = Context::new();
    assert_eq!(t.check(&mut ctx), Ok(Type::Bool));
    assert_eq!(t.eval(16), Ok(ff()));
}

#[test]
fn tuple_projection_checks_and_evaluates() {
    let t = Term::TupleProject { tuple: b(Term::Tuple(vec![tt(), ff()])), index: 1 };
    let mut ctx = Context::new();
    assert_eq!(t.check(&mut ctx), Ok(Type::Bool));
    assert_eq!(t.eval(16), Ok(ff()));
}

#[test]
fn record_projection_evaluates() {
    let t = Term::RecordProject {
        record: b(Term::Record(vec![
            ("a".to_owned(), tt()),
            ("b".to_owned(), ff()),
        ])),
        label: "b".to_owned(),
    };
    assert_eq!(t.eval(16), Ok(ff()));
}

#[test]
fn applying_a_boolean_fails_with_not_function() {
    let t = Term::App { fun: b(tt()), arg: b(ff()) };
    let mut ctx = Context::new();
    match t.check(&mut ctx) {
        Err(TypeError::NotFunction { found }) => assert_eq!(found, Type::Bool),
        other => panic!("expected a function type error, got {:?}", other),
    }
}

#[test]
fn let_binding_checks_and_evaluates() {
    let t = Term::Let {
        hint: "x".to_owned(),
        arg: b(tt()),
        body: b(Term::If { cond: b(Term::Var(0)), thn: b(ff()), els: b(tt()) }),
    };
    let mut ctx = Context::new();
    assert_eq!(t.check(&mut ctx), Ok(Type::Bool));
    assert_eq!(t.eval(16), Ok(ff()));
}

#[test]
fn ascription_is_erased_at_runtime() {
    let t = Term::Asc { term: b(tt()), ty: Type::Bool };
    let mut ctx = Context::new();
    assert_eq!(t.check(&mut ctx), Ok(Type::Bool));
    assert_eq!(t.step().unwrap(), Some(tt()));
}

#[test]
fn ascription_mismatch_is_reported() {
    let t = Term::Asc { term: b(tt()), ty: Type::Fun(Box::new(Type::Bool), Box::new(Type::Bool)) };
    let mut ctx = Context::new();
    match t.check(&mut ctx) {
        Err(TypeError::AscriptionMismatch { expected, found }) => {
            assert_eq!(expected, Type::Fun(Box::new(Type::Bool), Box::new(Type::Bool)));
            assert_eq!(found, Type::Bool);
        },
        other => panic!("expected an ascription error, got {:?}", other),
    }
}

#[test]
fn unbound_variable_is_reported() {
    let t = Term::Var(2);
    let mut ctx = Context::new();
    assert_eq!(t.check(&mut ctx), Err(TypeError::UnboundVariable { index: 2 }));
}

#[test]
fn guard_not_bool_is_reported() {
    let t = Term::If { cond: b(Term::Tuple(vec![])), thn: b(tt()), els: b(ff()) };
    let mut ctx = Context::new();
    match t.check(&mut ctx) {
        Err(TypeError::GuardNotBool { found }) => assert_eq!(found, Type::Tuple(vec![])),
        other => panic!("expected a guard error, got {:?}", other),
    }
}

#[test]
fn arms_differ_is_reported() {
    let t = Term::If { cond: b(tt()), thn: b(tt()), els: b(Term::Tuple(vec![])) };
    let mut ctx = Context::new();
    match t.check(&mut ctx) {
        Err(TypeError::ArmsDiffer { thn, els }) => {
            assert_eq!(thn, Type::Bool);
            assert_eq!(els, Type::Tuple(vec![]));
        },
        other => panic!("expected an arms error, got {:?}", other),
    }
}

#[test]
fn param_mismatch_is_reported() {
    let t = Term::App { fun: b(identity_abs()), arg: b(Term::Tuple(vec![])) };
    let mut ctx = Context::new();
    match t.check(&mut ctx) {
        Err(TypeError::ParamMismatch { expected, found }) => {
            assert_eq!(expected, Type::Bool);
            assert_eq!(found, Type::Tuple(vec![]));
        },
        other => panic!("expected a parameter error, got {:?}", other),
    }
}

#[test]
fn tuple_index_out_is_reported() {
    let t = Term::TupleProject { tuple: b(Term::Tuple(vec![tt()])), index: 3 };
    let mut ctx = Context::new();
    assert_eq!(t.check(&mut ctx), Err(TypeError::TupleIndexOut { index: 3, len: 1 }));
}

#[test]
fn unknown_label_is_reported() {
    let t = Term::RecordProject {
        record: b(Term::Record(vec![("a".to_owned(), tt())])),
        label: "z".to_owned(),
    };
    let mut ctx = Context::new();
    assert_eq!(
        t.check(&mut ctx),
        Err(TypeError::UnknownLabel { label: "z".to_owned() })
    );
}

#[test]
fn not_tuple_and_not_record_are_reported() {
    let mut ctx = Context::new();
    let t1 = Term::TupleProject { tuple: b(tt()), index: 0 };
    match t1.check(&mut ctx) {
        Err(TypeError::NotTuple { found }) => assert_eq!(found, Type::Bool),
        other => panic!("expected a tuple error, got {:?}", other),
    }
    let t2 = Term::RecordProject { record: b(tt()), label: "a".to_owned() };
    match t2.check(&mut ctx) {
        Err(TypeError::NotRecord { found }) => assert_eq!(found, Type::Bool),
        other => panic!("expected a record error, got {:?}", other),
    }
}

#[test]
fn projecting_a_boolean_is_a_violation() {
    let t = Term::TupleProject { tuple: b(tt()), index: 0 };
    assert_eq!(t.step(), Err(Violation));
}

#[test]
fn shift_up_then_down_restores_the_term() {
    let t = Term::Abs {
        hint: "x".to_owned(),
        ty: Type::Bool,
        body: b(Term::App { fun: b(Term::Var(0)), arg: b(Term::Var(3)) }),
    };
    let raised = t.shift(5);
    let expected = Term::Abs {
        hint: "x".to_owned(),
        ty: Type::Bool,
        body: b(Term::App { fun: b(Term::Var(0)), arg: b(Term::Var(8)) }),
    };
    assert_eq!(raised, expected);
    assert_eq!(raised.shift(-5), t);
}

#[test]
fn substitute_top_adjusts_free_variables() {
    // (x. x y) applied to z: body Var(0) applied to Var(1); argument Var(0).
    let body = Term::App { fun: b(Term::Var(0)), arg: b(Term::Var(1)) };
    let result = body.substitute_top(&Term::Var(0));
    assert_eq!(
        result,
        Term::App { fun: b(Term::Var(0)), arg: b(Term::Var(0)) }
    );
}

#[test]
fn eval_runs_nested_lets_to_a_value() {
    let t = Term::Let {
        hint: "x".to_owned(),
        arg: b(tt()),
        body: b(Term::Let {
            hint: "y".to_owned(),
            arg: b(Term::Tuple(vec![Term::Var(0), ff()])),
            body: b(Term::TupleProject { tuple: b(Term::Var(0)), index: 0 }),
        }),
    };
    let mut ctx = Context::new();
    assert_eq!(t.check(&mut ctx), Ok(Type::Bool));
    assert_eq!(t.eval(32), Ok(tt()));
}

#[test]
fn preservation_observed_along_a_run() {
    let mut t = Term::App {
        fun: b(Term::Abs {
            hint: "p".to_owned(),
            ty: Type::Tuple(vec![Type::Bool, Type::Bool]),
            body: b(Term::TupleProject { tuple: b(Term::Var(0)), index: 1 }),
        }),
        arg: b(Term::Tuple(vec![tt(), ff()])),
    };
    let mut ctx = Context::new();
    let ty0 = t.check(&mut ctx).unwrap();
    loop {
        match t.step().unwrap() {
            Some(next) => {
                assert_eq!(next.check(&mut ctx), Ok(ty0.dup()));
                t = next;
            },
            None => break,
        }
    }
    assert_eq!(t, ff());
}

#[test]
fn closedness_is_decidable() {
    assert!(identity_abs().is_closed());
    assert!(!Term::Var(0).is_closed());
    let open_body = Term::Abs {
        hint: "x".to_owned(),
        ty: Type::Bool,
        body: b(Term::Var(1)),
    };
    assert!(!open_body.is_closed());
}

#[test]
fn naming_context_renames_shadowed_names() {
    let mut ctx = stlc::term::Context::new();
    assert_eq!(ctx.push("x".to_owned()), "x".to_owned());
    assert_eq!(ctx.push("x".to_owned()), "x'".to_owned());
    assert_eq!(ctx.push("x".to_owned()), "x''".to_owned());
    assert_eq!(ctx.len(), 3);
    assert_eq!(ctx.name(0), "x''".to_owned());
    assert_eq!(ctx.name(2), "x".to_owned());
    ctx.pop();
    assert_eq!(ctx.len(), 2);
    assert_eq!(ctx.name(0), "x'".to_owned());
}

#[test]
fn naming_context_names_ambient_free_variables()  {
    let mut ctx = stlc::term::Context::new();
    let recorded = ctx.push("y".to_owned());
    assert_eq!(recorded, "y".to_owned());
    assert_eq!(ctx.name(1), "α".to_owned());
    assert_eq!(ctx.name(2), "β".to_owned());
    assert_eq!(ctx.name(3), "ξ".to_owned());
}

#[test]
fn write_renders_an_application_of_an_abstraction() {
    let t = Term::App { fun: b(identity_abs()), arg: b(Term::Bool(true)) };
    let mut ctx = stlc::term::Context::new();
    let mut out = String::new();
    t.write(&mut ctx, &mut out);
    assert_eq!(out, "((λbool: x. x) true)");
    assert_eq!(ctx.len(), 0);
}

#[test]
fn write_renders_tuples_records_and_lets() {
    let t = Term::Let {
        hint: "x".to_owned(),
        arg: b(Term::Tuple(vec![Term::Bool(true), Term::Bool(false)])),
        body: b(Term::RecordProject {
            record: b(Term::Record(vec![
                ("a".to_owned(), Term::Var(0)),
                ("b".to_owned(), Term::Bool(false)),
            ])),
            label: "a".to_owned(),
        }),
    };
    let mut ctx = stlc::term::Context::new();
    let mut out = String::new();
    t.write(&mut ctx, &mut out);
    assert_eq!(out, "let x = (true, false) in {a = x, b =false}.a");
}

#[test]
fn write_renames_a_shadowed_binder() {
    let inner = Term::Abs { hint: "x".to_owned(), ty: Type::Bool, body: b(Term::Var(1)) };
    let outer = Term::Abs { hint: "x".to_owned(), ty: Type::Bool, body: b(inner) };
    let mut ctx = stlc::term::Context::new();
    let mut out = String::new();
    outer.write(&mut ctx, &mut out);
    assert_eq!(out, "(λbool: x. (λbool: x'. x))");
}

#[test]
fn type_render_spells_out_the_structure() {
    let ty = Type::Fun(
        Box::new(Type::Tuple(vec![Type::Bool, Type::Bool])),
        Box::new(Type::Record(vec![("a".to_owned(), Type::Bool)])),
    );
    assert_eq!(ty.render(), "(bool, bool) -> {a = bool}");
}

#[test]
fn tuple_projection_index_renders_in_decimal() {
    let t = Term::TupleProject { tuple: b(Term::Var(0)), index: 12 };
    let mut ctx = stlc::term::Context::new();
    let recorded = ctx.push("v".to_owned());
    assert_eq!(recorded, "v".to_owned());
    let mut out = String::new();
    t.write(&mut ctx, &mut out);
    assert_eq!(out, "v.12");
}

#[test]
fn duplicate_label_reads_as_first_occurrence() {
    // Records are meant to carry distinct labels; on a duplicated label every
    // operation deterministically reads the first occurrence.
    let t = Term::RecordProject {
        record: b(Term::Record(vec![
            ("a".to_owned(), tt()),
            ("a".to_owned(), ff()),
        ])),
        label: "a".to_owned(),
    };
    assert_eq!(t.step().unwrap(), Some(tt()));
    let mut ctx = Context::new();
    assert_eq!(t.check(&mut ctx), Ok(Type::Bool));
}
