use vstd::prelude::*;
use crate::value::VariableType;

verus! {

/// A pure test on domain values: one value for unary constraints, an ordered
/// pair for binary ones. A value of the wrong variant should fail the test.
pub trait Predicate<T>: Sized {
    /// Whether a single value passes.
    spec fn holds(&self, v: VariableType<T>) -> bool;

    /// Whether an ordered pair of values passes.
    spec fn relates(&self, a: VariableType<T>, b: VariableType<T>) -> bool;

    fn test(&self, v: &VariableType<T>) -> (r: bool)
        ensures
            r == self.holds(*v),
    ;

    fn test_pair(&self, a: &VariableType<T>, b: &VariableType<T>) -> (r: bool)
        ensures
            r == self.relates(*a, *b),
    ;
}

/// A constraint: a predicate on one named variable, or on an ordered pair.
pub enum Constraint<P> {
    Binary(String, String, P),
    Unary(String, P),
}

impl<P> Constraint<P> {
    pub fn unary(name: &str, p: P) -> (r: Self)
        ensures
            r matches Constraint::Unary(x, q) && x@ == name@ && q == p,
    {
        Constraint::Unary(name.to_owned(), p)
    }

    pub fn binary(first: &str, second: &str, p: P) -> (r: Self)
        ensures
            r matches Constraint::Binary(x, y, q) && x@ == first@ && y@ == second@ && q == p,
    {
        Constraint::Binary(first.to_owned(), second.to_owned(), p)
    }
}

/// An oriented use of a constraint: a binary constraint `(x, y, p)` prunes `x`
/// forwards and `y` when reversed (with its arguments swapped); a unary one
/// is used forwards only.
#[derive(Clone, Copy)]
pub struct DirectedArc {
    pub constraint: usize,
    pub reversed: bool,
}

/// The arcs of a constraint list: each unary constraint once, each binary
/// constraint forwards and then reversed, in list order.
pub open spec fn arcs_for<P>(cs: Seq<Constraint<P>>) -> Seq<DirectedArc>
    decreases cs.len(),
{
    if cs.len() == 0 {
        Seq::empty()
    } else {
        let prev = arcs_for(cs.drop_last());
        let k = (cs.len() - 1) as usize;
        match cs.last() {
            Constraint::Unary(_, _) => prev.push(DirectedArc { constraint: k, reversed: false }),
            Constraint::Binary(_, _, _) => prev.push(DirectedArc { constraint: k, reversed: false }).push(
                DirectedArc { constraint: k, reversed: true },
            ),
        }
    }
}

/// Builds the arc list of `constraints`.
pub fn build_arcs<P>(constraints: &Vec<Constraint<P>>) -> (r: Vec<DirectedArc>)
    ensures
        r@ == arcs_for(constraints@),
{
    let mut arcs: Vec<DirectedArc> = Vec::new();
    let mut i: usize = 0;
    assert(constraints@.subrange(0, 0) =~= Seq::<Constraint<P>>::empty());
    while i < constraints.len()
        invariant
            i <= constraints@.len(),
            arcs@ == arcs_for(constraints@.subrange(0, i as int)),
        decreases constraints@.len() - i,
    {
        let ghost pre = constraints@.subrange(0, i as int + 1);
        assert(pre.drop_last() =~= constraints@.subrange(0, i as int));
        match &constraints[i] {
            Constraint::Binary(_, _, _) => {
                arcs.push(DirectedArc { constraint: i, reversed: false });
                arcs.push(DirectedArc { constraint: i, reversed: true });
            },
            Constraint::Unary(_, _) => {
                arcs.push(DirectedArc { constraint: i, reversed: false });
            },
        }
        i = i + 1;
    }
    assert(constraints@.subrange(0, i as int) =~= constraints@);
    arcs
}

} // verus!
