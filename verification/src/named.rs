//! The untyped lambda calculus with named variables, and the set of free
//! variables of a term.
use vstd::prelude::*;

verus! {

/// A term of the untyped lambda calculus with named variables.
#[derive(Debug, PartialEq, Eq)]
pub enum T {
    /// A variable.
    Var(String),
    /// An abstraction binding one name.
    Abs(String, Box<T>),
    /// An application.
    App(Box<T>, Box<T>),
}

/// The set of free variable names of a term.
pub open spec fn spec_free(t: T) -> Set<Seq<char>>
    decreases t,
{
    match t {
        T::Var(x) => set![x@],
        T::Abs(x, body) => spec_free(*body).remove(x@),
        T::App(f, a) => spec_free(*f).union(spec_free(*a)),
    }
}

/// Whether a vector of names holds one with the given text.
fn names_contain(v: &Vec<String>, x: &String) -> (r: bool)
    ensures
        r == v@.map_values(|s: String| s@).contains(x@),
{
    let mut i: usize = 0;
    while i < v.len()
        invariant
            i <= v@.len(),
            forall|k: int| 0 <= k < i ==> (#[trigger] v@[k])@ != x@,
        decreases v@.len() - i,
    {
        if v[i] == *x {
            proof {
                assert(v@.map_values(|s: String| s@)[i as int] == x@);
            }
            return true;
        }
        i = i + 1;
    }
    proof {
        let mv = v@.map_values(|s: String| s@);
        if mv.contains(x@) {
            let w = choose|w: int| 0 <= w < mv.len() && mv[w] == x@;
            assert(mv[w] == v@[w]@);
        }
    }
    false
}

impl T {
    /// The free variable names of the term, each once, as a vector.
    pub fn free(&self) -> (r: Vec<String>)
        ensures
            r@.map_values(|s: String| s@).to_set() == spec_free(*self),
            r@.map_values(|s: String| s@).no_duplicates(),
        decreases *self,
    {
        match self {
            T::Var(x) => {
                let r = vec![x.clone()];
                proof {
                    assert(r@.map_values(|s: String| s@) =~= seq![x@]);
                    assert(seq![x@][0] == x@);
                    assert(seq![x@].to_set() =~= set![x@]);
                }
                r
            },
            T::Abs(x, body) => {
                let inner = body.free();
                let mut out: Vec<String> = Vec::new();
                let mut i: usize = 0;
                let ghost iv = inner@.map_values(|s: String| s@);
                while i < inner.len()
                    invariant
                        i <= inner@.len(),
                        iv == inner@.map_values(|s: String| s@),
                        iv.no_duplicates(),
                        out@.map_values(|s: String| s@).no_duplicates(),
                        out@.map_values(|s: String| s@).to_set() =~= iv.take(i as int).to_set()
                            .remove(x@),
                    decreases inner@.len() - i,
                {
                    let ghost before = out@.map_values(|s: String| s@);
                    if !(inner[i] == *x) {
                        out.push(inner[i].clone());
                        proof {
                            assert(out@.map_values(|s: String| s@) =~= before.push(
                                iv[i as int],
                            ));
                            assert(!before.contains(iv[i as int])) by {
                                if before.contains(iv[i as int]) {
                                    assert(iv.take(i as int).to_set().remove(x@).contains(
                                        iv[i as int],
                                    ));
                                    let w = choose|w: int|
                                        0 <= w < i && iv.take(i as int)[w] == iv[i as int];
                                    assert(iv[w] == iv[i as int]);
                                }
                            }
                            before.lemma_push_to_set_commute(iv[i as int]);
                            vstd::seq_lib::lemma_seq_contains_after_push(
                                before,
                                iv[i as int],
                                x@,
                            );
                        }
                    }
                    proof {
                        assert(iv.take(i + 1) == iv.take(i as int).push(iv[i as int]));
                        iv.take(i as int).lemma_push_to_set_commute(iv[i as int]);
                        assert(out@.map_values(|s: String| s@).to_set() =~= iv.take(i + 1)
                            .to_set().remove(x@));
                    }
                    i = i + 1;
                }
                proof {
                    assert(iv.take(inner@.len() as int) == iv);
                    assert(out@.map_values(|s: String| s@).to_set() =~= spec_free(*self));
                }
                out
            },
            T::App(f, a) => {
                let mut out = f.free();
                let more = a.free();
                let mut i: usize = 0;
                let ghost mv = more@.map_values(|s: String| s@);
                while i < more.len()
                    invariant
                        i <= more@.len(),
                        mv == more@.map_values(|s: String| s@),
                        out@.map_values(|s: String| s@).no_duplicates(),
                        out@.map_values(|s: String| s@).to_set() =~= spec_free(**f).union(
                            mv.take(i as int).to_set(),
                        ),
                    decreases more@.len() - i,
                {
                    let ghost before = out@.map_values(|s: String| s@);
                    if !names_contain(&out, &more[i]) {
                        out.push(more[i].clone());
                        proof {
                            assert(out@.map_values(|s: String| s@) =~= before.push(
                                mv[i as int],
                            ));
                            before.lemma_push_to_set_commute(mv[i as int]);
                        }
                    }
                    proof {
                        assert(mv.take(i + 1) == mv.take(i as int).push(mv[i as int]));
                        mv.take(i as int).lemma_push_to_set_commute(mv[i as int]);
                        assert(out@.map_values(|s: String| s@).to_set() =~= spec_free(
                            **f,
                        ).union(mv.take(i + 1).to_set()));
                    }
                    i = i + 1;
                }
                proof {
                    assert(mv.take(more@.len() as int) == mv);
                    assert(out@.map_values(|s: String| s@).to_set() =~= spec_free(*self));
                }
                out
            },
        }
    }
}

} // verus!
