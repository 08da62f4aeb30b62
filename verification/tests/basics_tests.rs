use stlc::basics::T;

fn boxed(t: T) -> Box<T> {
    Box::new(t)
}

#[test]
fn consts_lt_size() {
    for term in T::generate(3) {
        assert!(term.consts().len() <= term.size());
    }
}

#[test]
fn value_implies_normal() {
    for term in T::generate(3) {
        if term.is_value() {
            assert_eq!(term.step(), None);
        }
    }
}

#[test]
fn small_big_coincide() {
    for term in T::generate(3) {
        let big = term.eval();
        let mut small = term.dup();
        while let Some(next) = small.step() {
            small = next;
        }
        if small.is_value() || big.is_value() {
            assert_eq!(small, big);
        }
    }
}

#[test]
fn step_reduces_conditionals() {
    let t = T::IfElse(boxed(T::True), boxed(T::Zero), boxed(T::Succ(boxed(T::Zero))));
    assert_eq!(t.step(), Some(T::Zero));
}

#[test]
fn eval_stuck_subterm_left_in_place() {
    let t = T::Succ(boxed(T::True));
    assert_eq!(t.eval(), T::Succ(boxed(T::True)));
}

#[test]
fn size_and_depth_of_conditional() {
    let t = T::IfElse(
        boxed(T::IsZero(boxed(T::Zero))),
        boxed(T::Zero),
        boxed(T::Succ(boxed(T::Zero))),
    );
    assert_eq!(t.size(), 6);
    assert_eq!(t.depth(), 3);
}

#[test]
fn consts_are_distinct() {
    let t = T::IfElse(
        boxed(T::IsZero(boxed(T::Zero))),
        boxed(T::Zero),
        boxed(T::Zero),
    );
    let cs = t.consts();
    assert_eq!(cs.len(), 1);
    assert!(cs.contains(&T::Zero));
}

#[test]
fn generate_depth_one() {
    let terms = T::generate(1);
    assert_eq!(terms.len(), 3);
    assert!(terms.contains(&T::True));
    assert!(terms.contains(&T::False));
    assert!(terms.contains(&T::Zero));
}
