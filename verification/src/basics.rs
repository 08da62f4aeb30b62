//! The language of boolean and numeric terms: constants, successor,
//! predecessor, zero test and conditionals, together with the structural
//! measures on such terms (their constants, size and depth), an enumeration
//! of all terms of bounded depth, and both the one-step and the big-step
//! evaluation relations.
use vstd::prelude::*;

verus! {

/// The set of terms of the boolean/numeric language.
#[derive(Debug, PartialEq, Eq, Hash)]
pub enum T {
    /// Constant true.
    True,
    /// Constant false.
    False,
    /// Constant zero.
    Zero,
    /// Successor of a numeric term.
    Succ(Box<T>),
    /// Predecessor of a numeric term.
    Pred(Box<T>),
    /// Zero test.
    IsZero(Box<T>),
    /// Conditional: guard, consequent, alternative.
    IfElse(Box<T>, Box<T>, Box<T>),
}

/// A numeric value: zero under finitely many successors.
pub open spec fn spec_is_numeric(t: T) -> bool
    decreases t,
{
    match t {
        T::Zero => true,
        T::Succ(n) => spec_is_numeric(*n),
        _ => false,
    }
}

/// A value: a boolean constant or a numeric value.
pub open spec fn spec_is_value(t: T) -> bool {
    t == T::True || t == T::False || spec_is_numeric(t)
}

impl T {
    /// Whether the term is a numeric value.
    pub fn is_numeric(&self) -> (r: bool)
        ensures
            r == spec_is_numeric(*self),
        decreases *self,
    {
        match self {
            T::Zero => true,
            T::Succ(n) => n.is_numeric(),
            _ => false,
        }
    }

    /// Whether the term is a value.
    pub fn is_value(&self) -> (r: bool)
        ensures
            r == spec_is_value(*self),
    {
        match self {
            T::True => true,
            T::False => true,
            t => t.is_numeric(),
        }
    }

    /// A structurally equal copy of the term.
    pub fn dup(&self) -> (r: T)
        ensures
            r == *self,
        decreases *self,
    {
        match self {
            T::True => T::True,
            T::False => T::False,
            T::Zero => T::Zero,
            T::Succ(n) => T::Succ(Box::new(n.dup())),
            T::Pred(n) => T::Pred(Box::new(n.dup())),
            T::IsZero(n) => T::IsZero(Box::new(n.dup())),
            T::IfElse(b, th, el) => T::IfElse(
                Box::new(b.dup()),
                Box::new(th.dup()),
                Box::new(el.dup()),
            ),
        }
    }

    /// Structural equality of two terms.
    pub fn same(&self, other: &T) -> (r: bool)
        ensures
            r == (*self == *other),
        decreases *self,
    {
        match (self, other) {
            (T::True, T::True) => true,
            (T::False, T::False) => true,
            (T::Zero, T::Zero) => true,
            (T::Succ(a), T::Succ(b)) => a.same(b),
            (T::Pred(a), T::Pred(b)) => a.same(b),
            (T::IsZero(a), T::IsZero(b)) => a.same(b),
            (T::IfElse(a1, a2, a3), T::IfElse(b1, b2, b3)) => (
                a1.same(b1) && a2.same(b2) && a3.same(b3)
            ),
            _ => false,
        }
    }
}

/// The one-step evaluation relation, as a partial function: the next term,
/// or `None` when the term is a value or is stuck.
pub open spec fn spec_step(t: T) -> Option<T>
    decreases t,
{
    match t {
        T::IfElse(b, th, el) => if *b == T::True {
            Some(*th)
        } else if *b == T::False {
            Some(*el)
        } else {
            match spec_step(*b) {
                Some(b2) => Some(T::IfElse(Box::new(b2), th, el)),
                None => None,
            }
        },
        T::Succ(n) => match spec_step(*n) {
            Some(n2) => Some(T::Succ(Box::new(n2))),
            None => None,
        },
        T::Pred(n) => if *n == T::Zero {
            Some(T::Zero)
        } else if (*n matches T::Succ(m) && spec_is_numeric(*m)) {
            Some(*n->Succ_0)
        } else {
            match spec_step(*n) {
                Some(n2) => Some(T::Pred(Box::new(n2))),
                None => None,
            }
        },
        T::IsZero(n) => if *n == T::Zero {
            Some(T::True)
        } else if (*n matches T::Succ(m) && spec_is_numeric(*m)) {
            Some(T::False)
        } else {
            match spec_step(*n) {
                Some(n2) => Some(T::IsZero(Box::new(n2))),
                None => None,
            }
        },
        _ => None,
    }
}

/// The big-step evaluation relation. A stuck subterm leaves the surrounding
/// term as it was found.
pub open spec fn spec_eval(t: T) -> T
    decreases t,
{
    if spec_is_value(t) {
        t
    } else {
        match t {
            T::IfElse(b, th, el) => if spec_eval(*b) == T::True {
                spec_eval(*th)
            } else if spec_eval(*b) == T::False {
                spec_eval(*el)
            } else {
                t
            },
            T::Succ(n) => if spec_is_numeric(spec_eval(*n)) {
                T::Succ(Box::new(spec_eval(*n)))
            } else {
                t
            },
            T::Pred(n) => if spec_eval(*n) == T::Zero {
                T::Zero
            } else if (spec_eval(*n) matches T::Succ(m) && spec_is_numeric(*m)) {
                *spec_eval(*n)->Succ_0
            } else {
                t
            },
            T::IsZero(n) => if spec_eval(*n) == T::Zero {
                T::True
            } else if (spec_eval(*n) matches T::Succ(m) && spec_is_numeric(*m)) {
                T::False
            } else {
                t
            },
            _ => t,
        }
    }
}

impl T {
    /// One evaluation step; `None` when the term is a value or is stuck.
    pub fn step(&self) -> (r: Option<T>)
        ensures
            r == spec_step(*self),
        decreases *self,
    {
        match self {
            T::IfElse(b, th, el) => match &**b {
                T::True => Some(th.dup()),
                T::False => Some(el.dup()),
                _ => match b.step() {
                    Some(b2) => Some(T::IfElse(Box::new(b2), Box::new(th.dup()), Box::new(el.dup()))),
                    None => None,
                },
            },
            T::Succ(n) => match n.step() {
                Some(n2) => Some(T::Succ(Box::new(n2))),
                None => None,
            },
            T::Pred(n) => match &**n {
                T::Zero => Some(T::Zero),
                T::Succ(m) if m.is_numeric() => Some(m.dup()),
                _ => match n.step() {
                    Some(n2) => Some(T::Pred(Box::new(n2))),
                    None => None,
                },
            },
            T::IsZero(n) => match &**n {
                T::Zero => Some(T::True),
                T::Succ(m) if m.is_numeric() => Some(T::False),
                _ => match n.step() {
                    Some(n2) => Some(T::IsZero(Box::new(n2))),
                    None => None,
                },
            },
            _ => None,
        }
    }

    /// The big-step evaluation of the term.
    pub fn eval(&self) -> (r: T)
        ensures
            r == spec_eval(*self),
        decreases *self,
    {
        if self.is_value() {
            return self.dup();
        }
        match self {
            T::IfElse(b, th, el) => {
                let bv = b.eval();
                match bv {
                    T::True => th.eval(),
                    T::False => el.eval(),
                    _ => self.dup(),
                }
            },
            T::Succ(n) => {
                let nv = n.eval();
                if nv.is_numeric() {
                    T::Succ(Box::new(nv))
                } else {
                    self.dup()
                }
            },
            T::Pred(n) => {
                let nv = n.eval();
                match nv {
                    T::Zero => T::Zero,
                    T::Succ(m) => if m.is_numeric() {
                        *m
                    } else {
                        self.dup()
                    },
                    _ => self.dup(),
                }
            },
            T::IsZero(n) => {
                let nv = n.eval();
                match nv {
                    T::Zero => T::True,
                    T::Succ(m) => if m.is_numeric() {
                        T::False
                    } else {
                        self.dup()
                    },
                    _ => self.dup(),
                }
            },
            _ => self.dup(),
        }
    }
}

/// The set of constants appearing in a term.
pub open spec fn spec_consts(t: T) -> Set<T>
    decreases t,
{
    match t {
        T::True => set![T::True],
        T::False => set![T::False],
        T::Zero => set![T::Zero],
        T::Succ(n) => spec_consts(*n),
        T::Pred(n) => spec_consts(*n),
        T::IsZero(n) => spec_consts(*n),
        T::IfElse(b, th, el) => spec_consts(*b).union(spec_consts(*th)).union(spec_consts(*el)),
    }
}

/// Whether a vector of terms holds a term equal to the given one.
fn vec_contains(v: &Vec<T>, x: &T) -> (r: bool)
    ensures
        r == v@.contains(*x),
{
    let mut i: usize = 0;
    while i < v.len()
        invariant
            i <= v@.len(),
            forall|k: int| 0 <= k < i ==> v@[k] != *x,
        decreases v@.len() - i,
    {
        if v[i].same(x) {
            return true;
        }
        i = i + 1;
    }
    false
}

/// Pushes the elements of `more` that `acc` does not yet hold.
fn merge_into(acc: &mut Vec<T>, more: Vec<T>)
    requires
        old(acc)@.no_duplicates(),
    ensures
        final(acc)@.no_duplicates(),
        final(acc)@.to_set() == old(acc)@.to_set().union(more@.to_set()),
{
    let mut i: usize = 0;
    while i < more.len()
        invariant
            i <= more@.len(),
            acc@.no_duplicates(),
            acc@.to_set() == old(acc)@.to_set().union(more@.take(i as int).to_set()),
        decreases more@.len() - i,
    {
        let ghost prev = acc@;
        let x = more[i].dup();
        if !vec_contains(acc, &x) {
            acc.push(x);
            proof {
                assert(acc@.drop_last() == prev);
                prev.lemma_push_to_set_commute(more@[i as int]);
            }
        }
        proof {
            assert(more@.take(i + 1) == more@.take(i as int).push(more@[i as int]));
            more@.take(i as int).lemma_push_to_set_commute(more@[i as int]);
            assert(acc@.to_set() =~= old(acc)@.to_set().union(more@.take(i + 1).to_set()));
        }
        i = i + 1;
    }
    proof {
        assert(more@.take(more@.len() as int) == more@);
    }
}

impl T {
    /// The constants appearing in the term, each once, as a vector.
    pub fn consts(&self) -> (r: Vec<T>)
        ensures
            r@.to_set() == spec_consts(*self),
            r@.no_duplicates(),
        decreases *self,
    {
        match self {
            T::True => {
                let r = vec![T::True];
                proof {
                    assert(r@.to_set() =~= set![T::True]);
                }
                r
            },
            T::False => {
                let r = vec![T::False];
                proof {
                    assert(r@.to_set() =~= set![T::False]);
                }
                r
            },
            T::Zero => {
                let r = vec![T::Zero];
                proof {
                    assert(r@.to_set() =~= set![T::Zero]);
                }
                r
            },
            T::Succ(n) => n.consts(),
            T::Pred(n) => n.consts(),
            T::IsZero(n) => n.consts(),
            T::IfElse(b, th, el) => {
                let mut acc = b.consts();
                merge_into(&mut acc, th.consts());
                merge_into(&mut acc, el.consts());
                acc
            },
        }
    }
}

/// Membership in the next stage of the bounded-depth enumeration, given the
/// previous stage: a constant, or one constructor applied to previous-stage
/// terms.
pub open spec fn gen_member(t: T, s: Set<T>) -> bool {
    ||| t == T::True
    ||| t == T::False
    ||| t == T::Zero
    ||| (t matches T::Succ(n) && s.contains(*n))
    ||| (t matches T::Pred(n) && s.contains(*n))
    ||| (t matches T::IsZero(n) && s.contains(*n))
    ||| (t matches T::IfElse(b, th, el) && s.contains(*b) && s.contains(*th) && s.contains(*el))
}

/// The set of terms of depth at most `i`.
pub open spec fn spec_generate(i: nat) -> Set<T>
    decreases i,
{
    if i == 0 {
        Set::empty()
    } else {
        Set::new(|t: T| gen_member(t, spec_generate((i - 1) as nat)))
    }
}

/// One of the three constants.
spec fn chr_const(x: T) -> bool {
    x == T::True || x == T::False || x == T::Zero
}

/// A unary constructor applied to a prefix of the previous stage: `Succ` over
/// the first `su` terms, `Pred` over the first `pr`, `IsZero` over the first
/// `iz`.
spec fn chr_unary(x: T, p: Seq<T>, su: int, pr: int, iz: int) -> bool {
    ||| (x matches T::Succ(n) && p.take(su).contains(*n))
    ||| (x matches T::Pred(n) && p.take(pr).contains(*n))
    ||| (x matches T::IsZero(n) && p.take(iz).contains(*n))
}

/// A conditional whose parts come from the previous stage, up to position
/// `(a, b, c)` in lexicographic order.
spec fn chr_cond(x: T, p: Seq<T>, a: int, b: int, c: int) -> bool {
    x matches T::IfElse(g, t, e) && {
        ||| (p.take(a).contains(*g) && p.contains(*t) && p.contains(*e))
        ||| (0 <= a < p.len() && *g == p[a] && {
            ||| (p.take(b).contains(*t) && p.contains(*e))
            ||| (0 <= b < p.len() && *t == p[b] && p.take(c).contains(*e))
        })
    }
}

/// Pushing an element a sequence does not hold keeps it duplicate-free.
proof fn lemma_no_dup_push<A>(s: Seq<A>, v: A)
    requires
        s.no_duplicates(),
        !s.contains(v),
    ensures
        s.push(v).no_duplicates(),
{
    assert forall|i: int, j: int|
        0 <= i < s.push(v).len() && 0 <= j < s.push(v).len() && i != j implies s.push(v)[i]
        != s.push(v)[j] by {
        if i < s.len() && j < s.len() {
        } else if i < s.len() {
            assert(s[i] == s.push(v)[i]);
        } else if j < s.len() {
            assert(s[j] == s.push(v)[j]);
        }
    }
}

impl T {
    /// The terms of depth at most `index`, each exactly once.
    pub fn generate(index: usize) -> (r: Vec<T>)
        ensures
            r@.to_set() == spec_generate(index as nat),
            r@.no_duplicates(),
        decreases index,
    {
        broadcast use vstd::seq_lib::group_seq_properties;

        if index == 0 {
            let r: Vec<T> = Vec::new();
            proof {
                assert(r@.to_set() =~= spec_generate(0));
            }
            return r;
        }
        let prev = Self::generate(index - 1);
        let ghost s = spec_generate((index - 1) as nat);
        let ghost p = prev@;
        let n = prev.len();
        let mut out: Vec<T> = Vec::new();
        out.push(T::True);
        out.push(T::False);
        out.push(T::Zero);
        proof {
            assert(out@ =~= seq![T::True, T::False, T::Zero]);
            assert(out@.contains(T::True)) by {
                assert(out@[0] == T::True);
            }
            assert(out@.contains(T::False)) by {
                assert(out@[1] == T::False);
            }
            assert(out@.contains(T::Zero)) by {
                assert(out@[2] == T::Zero);
            }
            assert(forall|x: T| #![trigger out@.contains(x)] out@.contains(x) <==> chr_const(x));
            assert(forall|y: T| !p.take(0).contains(y));
        }
        let mut j: usize = 0;
        while j < n
            invariant
                n == p.len(),
                prev@ == p,
                p.to_set() == s,
                p.no_duplicates(),
                j <= n,
                out@.no_duplicates(),
                forall|x: T| #![trigger out@.contains(x)] out@.contains(x) <==> chr_const(x) || chr_unary(x, p, j as int, 0, 0),
            decreases n - j,
        {
            let ghost before = out@;
            out.push(T::Succ(Box::new(prev[j].dup())));
            proof {
                let nu = T::Succ(Box::new(p[j as int]));
                assert(out@ == before.push(nu));
                assert(p.take(j + 1) == p.take(j as int).push(p[j as int]));
                assert(!p.take(j as int).contains(p[j as int])) by {
                    if p.take(j as int).contains(p[j as int]) {
                        let k = choose|k: int|
                            0 <= k < j && p.take(j as int)[k] == p[j as int];
                        assert(p[k] == p[j as int]);
                    }
                }
                assert(before.contains(nu) <==> chr_const(nu) || chr_unary(nu, p, j as int, 0, 0));
                assert(!before.contains(nu));
                lemma_no_dup_push(before, nu);
                assert forall|x: T| #![trigger out@.contains(x)]
                    out@.contains(x) <==> chr_const(x) || chr_unary(x, p, j + 1, 0, 0) by {
                    assert(before.contains(x) <==> chr_const(x) || chr_unary(x, p, j as int, 0, 0));
                    vstd::seq_lib::lemma_seq_contains_after_push(before, nu, x);
                    match x {
                        T::Succ(m) => {
                            vstd::seq_lib::lemma_seq_contains_after_push(
                                p.take(j as int),
                                p[j as int],
                                *m,
                            );
                        },
                        _ => {},
                    }
                }
            }
            j = j + 1;
        }
        proof {
            assert(p.take(n as int) == p);
        }
        let mut j: usize = 0;
        while j < n
            invariant
                n == p.len(),
                prev@ == p,
                p.to_set() == s,
                p.no_duplicates(),
                j <= n,
                out@.no_duplicates(),
                forall|x: T| #![trigger out@.contains(x)] out@.contains(x) <==> chr_const(x) || chr_unary(x, p, n as int, j as int, 0),
            decreases n - j,
        {
            let ghost before = out@;
            out.push(T::Pred(Box::new(prev[j].dup())));
            proof {
                let nu = T::Pred(Box::new(p[j as int]));
                assert(out@ == before.push(nu));
                assert(p.take(j + 1) == p.take(j as int).push(p[j as int]));
                assert(!p.take(j as int).contains(p[j as int])) by {
                    if p.take(j as int).contains(p[j as int]) {
                        let k = choose|k: int|
                            0 <= k < j && p.take(j as int)[k] == p[j as int];
                        assert(p[k] == p[j as int]);
                    }
                }
                assert(before.contains(nu) <==> chr_const(nu) || chr_unary(nu, p, n as int, j as int, 0));
                assert(!before.contains(nu));
                lemma_no_dup_push(before, nu);
                assert forall|x: T| #![trigger out@.contains(x)]
                    out@.contains(x) <==> chr_const(x) || chr_unary(x, p, n as int, j + 1, 0) by {
                    assert(before.contains(x) <==> chr_const(x) || chr_unary(x, p, n as int, j as int, 0));
                    vstd::seq_lib::lemma_seq_contains_after_push(before, nu, x);
                    match x {
                        T::Pred(m) => {
                            vstd::seq_lib::lemma_seq_contains_after_push(
                                p.take(j as int),
                                p[j as int],
                                *m,
                            );
                        },
                        _ => {},
                    }
                }
            }
            j = j + 1;
        }
        let mut j: usize = 0;
        while j < n
            invariant
                n == p.len(),
                prev@ == p,
                p.to_set() == s,
                p.no_duplicates(),
                j <= n,
                out@.no_duplicates(),
                forall|x: T| #![trigger out@.contains(x)] out@.contains(x) <==> chr_const(x) || chr_unary(x, p, n as int, n as int, j as int),
            decreases n - j,
        {
            let ghost before = out@;
            out.push(T::IsZero(Box::new(prev[j].dup())));
            proof {
                let nu = T::IsZero(Box::new(p[j as int]));
                assert(out@ == before.push(nu));
                assert(p.take(j + 1) == p.take(j as int).push(p[j as int]));
                assert(!p.take(j as int).contains(p[j as int])) by {
                    if p.take(j as int).contains(p[j as int]) {
                        let k = choose|k: int|
                            0 <= k < j && p.take(j as int)[k] == p[j as int];
                        assert(p[k] == p[j as int]);
                    }
                }
                assert(before.contains(nu) <==> chr_const(nu) || chr_unary(nu, p, n as int, n as int, j as int));
                assert(!before.contains(nu));
                lemma_no_dup_push(before, nu);
                assert forall|x: T| #![trigger out@.contains(x)]
                    out@.contains(x) <==> chr_const(x) || chr_unary(x, p, n as int, n as int, j + 1) by {
                    assert(before.contains(x) <==> chr_const(x) || chr_unary(x, p, n as int, n as int, j as int));
                    vstd::seq_lib::lemma_seq_contains_after_push(before, nu, x);
                    match x {
                        T::IsZero(m) => {
                            vstd::seq_lib::lemma_seq_contains_after_push(
                                p.take(j as int),
                                p[j as int],
                                *m,
                            );
                        },
                        _ => {},
                    }
                }
            }
            j = j + 1;
        }
        let mut a: usize = 0;
        while a < n
            invariant
                n == p.len(),
                prev@ == p,
                p.to_set() == s,
                p.no_duplicates(),
                a <= n,
                out@.no_duplicates(),
                forall|x: T| #![trigger out@.contains(x)] out@.contains(x) <==> chr_const(x)
                    || chr_unary(x, p, n as int, n as int, n as int)
                    || chr_cond(x, p, a as int, 0, 0),
            decreases n - a,
        {
            let mut b: usize = 0;
            while b < n
                invariant
                    n == p.len(),
                    prev@ == p,
                    p.to_set() == s,
                    p.no_duplicates(),
                    a < n,
                    b <= n,
                    out@.no_duplicates(),
                    forall|x: T| #![trigger out@.contains(x)] out@.contains(x) <==> chr_const(x)
                        || chr_unary(x, p, n as int, n as int, n as int)
                        || chr_cond(x, p, a as int, b as int, 0),
                decreases n - b,
            {
                let mut c: usize = 0;
                while c < n
                    invariant
                        n == p.len(),
                        prev@ == p,
                        p.to_set() == s,
                        p.no_duplicates(),
                        a < n,
                        b < n,
                        c <= n,
                        out@.no_duplicates(),
                        forall|x: T| #![trigger out@.contains(x)] out@.contains(x) <==> chr_const(x)
                            || chr_unary(x, p, n as int, n as int, n as int)
                            || chr_cond(x, p, a as int, b as int, c as int),
                    decreases n - c,
                {
                    let ghost before = out@;
                    out.push(T::IfElse(
                        Box::new(prev[a].dup()),
                        Box::new(prev[b].dup()),
                        Box::new(prev[c].dup()),
                    ));
                    proof {
                        let nu = T::IfElse(
                            Box::new(p[a as int]),
                            Box::new(p[b as int]),
                            Box::new(p[c as int]),
                        );
                        assert(out@ == before.push(nu));
                        assert(p.take(c + 1) == p.take(c as int).push(p[c as int]));
                        assert(!p.take(a as int).contains(p[a as int])) by {
                            if p.take(a as int).contains(p[a as int]) {
                                let k = choose|k: int|
                                    0 <= k < a && p.take(a as int)[k] == p[a as int];
                                assert(p[k] == p[a as int]);
                            }
                        }
                        assert(!p.take(b as int).contains(p[b as int])) by {
                            if p.take(b as int).contains(p[b as int]) {
                                let k = choose|k: int|
                                    0 <= k < b && p.take(b as int)[k] == p[b as int];
                                assert(p[k] == p[b as int]);
                            }
                        }
                        assert(!p.take(c as int).contains(p[c as int])) by {
                            if p.take(c as int).contains(p[c as int]) {
                                let k = choose|k: int|
                                    0 <= k < c && p.take(c as int)[k] == p[c as int];
                                assert(p[k] == p[c as int]);
                            }
                        }
                        assert(p.contains(p[b as int]));
                        assert(p.contains(p[c as int]));
                        assert(before.contains(nu) <==> chr_const(nu)
                            || chr_unary(nu, p, n as int, n as int, n as int)
                            || chr_cond(nu, p, a as int, b as int, c as int));
                        assert(!before.contains(nu));
                        lemma_no_dup_push(before, nu);
                        assert forall|x: T| #![trigger out@.contains(x)] out@.contains(x) <==> chr_const(x)
                            || chr_unary(x, p, n as int, n as int, n as int)
                            || chr_cond(x, p, a as int, b as int, c + 1) by {
                            assert(before.contains(x) <==> chr_const(x)
                                || chr_unary(x, p, n as int, n as int, n as int)
                                || chr_cond(x, p, a as int, b as int, c as int));
                            vstd::seq_lib::lemma_seq_contains_after_push(before, nu, x);
                            match x {
                                T::IfElse(g, t, e) => {
                                    vstd::seq_lib::lemma_seq_contains_after_push(
                                        p.take(c as int),
                                        p[c as int],
                                        *e,
                                    );
                                },
                                _ => {},
                            }
                        }
                    }
                    c = c + 1;
                }
                proof {
                    assert(p.take(b + 1) == p.take(b as int).push(p[b as int]));
                    assert(p.take(n as int) == p);
                    assert forall|x: T| chr_cond(x, p, a as int, b as int, n as int)
                        <==> chr_cond(x, p, a as int, b + 1, 0) by {
                        match x {
                            T::IfElse(g, t, e) => {
                                vstd::seq_lib::lemma_seq_contains_after_push(
                                    p.take(b as int),
                                    p[b as int],
                                    *t,
                                );
                            },
                            _ => {},
                        }
                    }
                }
                b = b + 1;
            }
            proof {
                assert(p.take(a + 1) == p.take(a as int).push(p[a as int]));
                assert(p.take(n as int) == p);
                assert forall|x: T| chr_cond(x, p, a as int, n as int, 0)
                    <==> chr_cond(x, p, a + 1, 0, 0) by {
                    match x {
                        T::IfElse(g, t, e) => {
                            vstd::seq_lib::lemma_seq_contains_after_push(
                                p.take(a as int),
                                p[a as int],
                                *g,
                            );
                        },
                        _ => {},
                    }
                }
            }
            a = a + 1;
        }
        proof {
            assert(p.take(n as int) == p);
            assert(forall|x: T| p.contains(x) <==> s.contains(x));
            assert(out@.to_set() =~= spec_generate(index as nat));
        }
        out
    }
}

/// The number of nodes in the term's abstract syntax tree.
pub open spec fn spec_size(t: T) -> nat
    decreases t,
{
    match t {
        T::True => 1,
        T::False => 1,
        T::Zero => 1,
        T::Succ(n) => spec_size(*n) + 1,
        T::Pred(n) => spec_size(*n) + 1,
        T::IsZero(n) => spec_size(*n) + 1,
        T::IfElse(b, th, el) => spec_size(*b) + spec_size(*th) + spec_size(*el) + 1,
    }
}

/// The depth of the term: the smallest bound on nesting under which the term
/// can be built.
pub open spec fn spec_depth(t: T) -> nat
    decreases t,
{
    match t {
        T::True => 1,
        T::False => 1,
        T::Zero => 1,
        T::Succ(n) => spec_depth(*n) + 1,
        T::Pred(n) => spec_depth(*n) + 1,
        T::IsZero(n) => spec_depth(*n) + 1,
        T::IfElse(b, th, el) => {
            let db = spec_depth(*b);
            let dt = spec_depth(*th);
            let de = spec_depth(*el);
            (if db >= dt && db >= de {
                db
            } else if dt >= de {
                dt
            } else {
                de
            }) + 1
        },
    }
}

impl T {
    /// The number of nodes in the term's abstract syntax tree.
    pub fn size(&self) -> (r: usize)
        requires
            spec_size(*self) <= usize::MAX,
        ensures
            r == spec_size(*self),
        decreases *self,
    {
        match self {
            T::True => 1,
            T::False => 1,
            T::Zero => 1,
            T::Succ(n) => n.size() + 1,
            T::Pred(n) => n.size() + 1,
            T::IsZero(n) => n.size() + 1,
            T::IfElse(b, th, el) => b.size() + th.size() + el.size() + 1,
        }
    }

    /// The depth of the term.
    pub fn depth(&self) -> (r: usize)
        requires
            spec_depth(*self) <= usize::MAX,
        ensures
            r == spec_depth(*self),
        decreases *self,
    {
        match self {
            T::True => 1,
            T::False => 1,
            T::Zero => 1,
            T::Succ(n) => n.depth() + 1,
            T::Pred(n) => n.depth() + 1,
            T::IsZero(n) => n.depth() + 1,
            T::IfElse(b, th, el) => {
                let db = b.depth();
                let dt = th.depth();
                let de = el.depth();
                (if db >= dt && db >= de {
                    db
                } else if dt >= de {
                    dt
                } else {
                    de
                }) + 1
            },
        }
    }
}

} // verus!
