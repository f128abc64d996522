use vstd::prelude::*;

verus! {

/// A symbolic term: an atom, or an ordered node of sub-terms.
#[derive(Debug)]
pub enum Mu {
    Sym(String),
    Node(Vec<Mu>),
}

/// The mathematical model of a term: symbol names as character sequences.
pub enum Term {
    Sym(Seq<char>),
    Node(Seq<Term>),
}

/// The model of an executable term.
pub open spec fn term_of(m: Mu) -> Term
    decreases m,
{
    match m {
        Mu::Sym(s) => Term::Sym(s@),
        Mu::Node(v) => Term::Node(Seq::new(v@.len(), |i: int|
            if 0 <= i < v@.len() {
                term_of(v@[i])
            } else {
                Term::Sym(Seq::empty())
            },
        )),
    }
}

impl View for Mu {
    type V = Term;

    open spec fn view(&self) -> Term {
        term_of(*self)
    }
}


/// The children of a node term, in order.
pub open spec fn children_of(v: Seq<Mu>) -> Seq<Term> {
    Seq::new(v.len(), |i: int| v[i]@)
}

pub proof fn lemma_node_view(v: Vec<Mu>)
    ensures
        Mu::Node(v)@ == Term::Node(children_of(v@)),
{
    let m = Mu::Node(v);
    assert(m@ == term_of(m));
    assert(term_of(m)->Node_0 =~= children_of(v@));
}

/// The model of an optional term.
pub open spec fn opt_view(o: Option<Mu>) -> Option<Term> {
    match o {
        Some(m) => Some(m@),
        None => None,
    }
}

/// Structural equality of two terms.
pub fn mu_eq(a: &Mu, b: &Mu) -> (r: bool)
    ensures
        r == (a@ == b@),
    decreases a,
{
    match a {
        Mu::Sym(x) => match b {
            Mu::Sym(y) => x.eq(y),
            Mu::Node(_) => false,
        },
        Mu::Node(xs) => {
            let ys = match b {
                Mu::Sym(_) => {
                    return false;
                },
                Mu::Node(ys) => ys,
            };
            proof {
                lemma_node_view(*xs);
                lemma_node_view(*ys);
            }
            if xs.len() != ys.len() {
                proof {
                    assert(children_of(xs@).len() != children_of(ys@).len());
                }
                return false;
            }
            proof {
                assert(decreases_to!(*a => *xs));
            }
            let mut i: usize = 0;
            while i < xs.len()
                invariant
                    decreases_to!(*a => *xs),
                    a@ == Term::Node(children_of(xs@)),
                    b@ == Term::Node(children_of(ys@)),
                    xs.len() == ys.len(),
                    0 <= i <= xs.len(),
                    forall|j: int| 0 <= j < i ==> xs@[j]@ == ys@[j]@,
                decreases xs.len() - i,
            {
                proof {
                    assert(decreases_to!(*xs => xs[i as int]));
                }
                if !mu_eq(&xs[i], &ys[i]) {
                    proof {
                        assert(children_of(xs@)[i as int] != children_of(ys@)[i as int]);
                    }
                    return false;
                }
                i += 1;
            }
            proof {
                assert(children_of(xs@) =~= children_of(ys@));
            }
            true
        },
    }
}

impl PartialEq for Mu {
    fn eq(&self, other: &Mu) -> (r: bool) {
        mu_eq(self, other)
    }
}

impl vstd::std_specs::cmp::PartialEqSpecImpl for Mu {
    open spec fn obeys_eq_spec() -> bool {
        true
    }

    open spec fn eq_spec(&self, other: &Mu) -> bool {
        self@ == other@
    }
}

impl Clone for Mu {
    fn clone(&self) -> (r: Mu)
        ensures
            r@ == self@,
        decreases self,
    {
        match self {
            Mu::Sym(s) => Mu::Sym(s.clone()),
            Mu::Node(xs) => {
                let mut out: Vec<Mu> = Vec::new();
                let mut i: usize = 0;
                proof {
                    assert(decreases_to!(*self => *xs));
                }
                while i < xs.len()
                    invariant
                        decreases_to!(*self => *xs),
                        0 <= i <= xs.len(),
                        out@.len() == i,
                        forall|j: int| 0 <= j < i ==> out@[j]@ == xs@[j]@,
                    decreases xs.len() - i,
                {
                    proof {
                        assert(decreases_to!(*xs => xs[i as int]));
                    }
                    out.push(xs[i].clone());
                    i += 1;
                }
                proof {
                    lemma_node_view(*xs);
                    lemma_node_view(out);
                    assert(children_of(out@) =~= children_of(xs@));
                }
                Mu::Node(out)
            },
        }
    }
}

impl Mu {
    /// A node whose first child is the symbol `head`, followed by `args`.
    pub fn with_head(head: String, args: Vec<Mu>) -> (r: Mu)
        ensures
            r@ == Term::Node(seq![Term::Sym(head@)] + children_of(args@)),
    {
        let mut v: Vec<Mu> = Vec::new();
        v.push(Mu::Sym(head));
        let mut i: usize = 0;
        while i < args.len()
            invariant
                0 <= i <= args.len(),
                v@.len() == i + 1,
                v@[0]@ == Term::Sym(head@),
                forall|j: int| 0 <= j < i ==> v@[j + 1]@ == args@[j]@,
            decreases args.len() - i,
        {
            v.push(args[i].clone());
            i += 1;
        }
        proof {
            lemma_node_view(v);
            assert(children_of(v@) =~= seq![Term::Sym(head@)] + children_of(args@));
        }
        Mu::Node(v)
    }
}

} // verus!
