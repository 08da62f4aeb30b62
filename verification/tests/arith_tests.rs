use stlc::arith::Exp;
use stlc::untyped;

fn boxed(e: Exp) -> Box<Exp> {
    Box::new(e)
}

#[test]
fn arith_step_chain() {
    // if iszero 0 then pred (succ 0) else 0
    let t = Exp::Cond(
        boxed(Exp::IsZero(boxed(Exp::Zero))),
        boxed(Exp::Pred(boxed(Exp::Succ(boxed(Exp::Zero))))),
        boxed(Exp::Zero),
    );
    let trace = t.step_all();
    assert_eq!(trace.len(), 4);
    assert_eq!(trace[3], Exp::Zero);
}

#[test]
fn arith_eval_stuck_guard() {
    let t = Exp::Cond(boxed(Exp::Zero), boxed(Exp::True), boxed(Exp::False));
    assert_eq!(t.eval(), None);
}

#[test]
fn arith_eval_iszero() {
    let t = Exp::IsZero(boxed(Exp::Pred(boxed(Exp::Succ(boxed(Exp::Zero))))));
    assert_eq!(t.eval(), Some(Exp::True));
}

#[test]
fn untyped_step_reports_stuck_term() {
    // The error side carries the innermost blocked subterm, as the original's
    // question-mark propagation does.
    let t = untyped::Exp::Succ(Box::new(untyped::Exp::True));
    match t.step() {
        Ok(_) => panic!("expected a stuck term"),
        Err(stuck) => assert_eq!(stuck, untyped::Exp::True),
    }
}

#[test]
fn untyped_values_report_their_innermost_leaf() {
    let t = untyped::Exp::Succ(Box::new(untyped::Exp::Succ(Box::new(untyped::Exp::Zero))));
    assert_eq!(t.step(), Err(untyped::Exp::Zero));
}

#[test]
fn untyped_pred_has_no_congruence_rule() {
    // A predecessor whose operand is neither zero nor a successor is blocked
    // as a whole, even when the operand itself could step.
    let guard = untyped::Exp::Cond(
        Box::new(untyped::Exp::True),
        Box::new(untyped::Exp::Zero),
        Box::new(untyped::Exp::Zero),
    );
    let t = untyped::Exp::Pred(Box::new(guard));
    let same = untyped::Exp::Pred(Box::new(untyped::Exp::Cond(
        Box::new(untyped::Exp::True),
        Box::new(untyped::Exp::Zero),
        Box::new(untyped::Exp::Zero),
    )));
    assert_eq!(t.step(), Err(same));
}

#[test]
fn untyped_cond_guard_steps_first() {
    let t = untyped::Exp::Cond(
        Box::new(untyped::Exp::IsZero(Box::new(untyped::Exp::Zero))),
        Box::new(untyped::Exp::Zero),
        Box::new(untyped::Exp::Succ(Box::new(untyped::Exp::Zero))),
    );
    let next = untyped::Exp::Cond(
        Box::new(untyped::Exp::True),
        Box::new(untyped::Exp::Zero),
        Box::new(untyped::Exp::Succ(Box::new(untyped::Exp::Zero))),
    );
    assert_eq!(t.step(), Ok(next));
}

#[test]
fn untyped_pred_of_succ_is_unguarded() {
    let t = untyped::Exp::Pred(Box::new(untyped::Exp::Succ(Box::new(untyped::Exp::True))));
    assert_eq!(t.step(), Ok(untyped::Exp::True));
}

#[test]
fn render_gives_the_surface_syntax() {
    let t = Exp::Cond(
        boxed(Exp::IsZero(boxed(Exp::Zero))),
        boxed(Exp::Succ(boxed(Exp::Zero))),
        boxed(Exp::Pred(boxed(Exp::Zero))),
    );
    assert_eq!(t.render(), "if iszero 0 then succ 0 else pred 0");
}

#[test]
fn render_of_constants() {
    assert_eq!(Exp::True.render(), "true");
    assert_eq!(Exp::False.render(), "false");
    assert_eq!(Exp::Zero.render(), "0");
}
