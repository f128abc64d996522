use vstd::prelude::*;
use crate::term::{Mu, Term, children_of, lemma_node_view};
use crate::text::text_eq;

verus! {

/// The three buckets a term can be routed into.
#[derive(Debug, Clone, Copy, PartialEq, Eq, Structural)]
pub enum Classification {
    Ra,
    Lobe,
    Sink,
}

/// Whether a term is the symbol named `name`.
pub open spec fn is_sym_named(t: Term, name: Seq<char>) -> bool {
    t == Term::Sym(name)
}

/// Every child is a symbol, and all of them carry the same name.
pub open spec fn coherent_symbols(cs: Seq<Term>) -> bool {
    &&& forall|i: int| 0 <= i < cs.len() ==> (#[trigger] cs[i]) is Sym
    &&& forall|i: int| 0 <= i < cs.len() ==> #[trigger] cs[i] == cs[0]
}

/// The structural classifier: tag overrides first, then shape.
pub open spec fn classify_term(t: Term) -> Classification {
    match t {
        Term::Sym(_) => Classification::Ra,
        Term::Node(cs) => if cs.len() > 0 && is_sym_named(cs[0], "UNSTABLE"@) {
            Classification::Lobe
        } else if cs.len() > 0 && is_sym_named(cs[0], "PARADOX"@) {
            Classification::Sink
        } else if cs.len() <= 1 {
            Classification::Lobe
        } else if coherent_symbols(cs) {
            Classification::Lobe
        } else {
            Classification::Sink
        },
    }
}

/// Classifies a term by its structure (total: every term gets one bucket).
pub fn classify(mu: &Mu) -> (r: Classification)
    ensures
        r == classify_term(mu@),
{
    match mu {
        Mu::Sym(_) => Classification::Ra,
        Mu::Node(children) => {
            proof {
                lemma_node_view(*children);
            }
            let ghost cs = children_of(children@);
            if children.len() > 0 {
                if let Mu::Sym(head) = &children[0] {
                    if text_eq(head.as_str(), "UNSTABLE") {
                        return Classification::Lobe;
                    }
                    if text_eq(head.as_str(), "PARADOX") {
                        return Classification::Sink;
                    }
                } else {
                    assert(!is_sym_named(cs[0], "UNSTABLE"@));
                    assert(!is_sym_named(cs[0], "PARADOX"@));
                }
            }
            if children.len() <= 1 {
                return Classification::Lobe;
            }
            let first = &children[0];
            let mut i: usize = 0;
            while i < children.len()
                invariant
                    mu@ == Term::Node(cs),
                    !is_sym_named(cs[0], "UNSTABLE"@),
                    !is_sym_named(cs[0], "PARADOX"@),
                    cs == children_of(children@),
                    cs.len() == children@.len(),
                    children@.len() >= 2,
                    *first == children@[0],
                    0 <= i <= children@.len(),
                    forall|j: int| 0 <= j < i ==> (#[trigger] cs[j]) is Sym && cs[j] == cs[0],
                decreases children.len() - i,
            {
                match &children[i] {
                    Mu::Sym(s) => {
                        if let Mu::Sym(f) = first {
                            if !s.eq(f) {
                                assert(!coherent_symbols(cs));
                                return Classification::Sink;
                            }
                        } else {
                            assert(!(cs[0] is Sym));
                            assert(!coherent_symbols(cs));
                            return Classification::Sink;
                        }
                    },
                    Mu::Node(_) => {
                        assert(!(cs[i as int] is Sym));
                        assert(!coherent_symbols(cs));
                        return Classification::Sink;
                    },
                }
                i += 1;
            }
            Classification::Lobe
        },
    }
}

/// Classification is total and deterministic: every term falls in exactly one
/// of the three buckets, and terms that are equal fall in the same one.
pub proof fn law_classify_total_deterministic(a: Term, b: Term)
    requires
        a == b,
    ensures
        classify_term(a) == classify_term(b),
        classify_term(a) is Ra || classify_term(a) is Lobe || classify_term(a) is Sink,
{
}

} // verus!
