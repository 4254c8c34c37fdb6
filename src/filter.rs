use vstd::prelude::*;
use crate::value::VariableType;
use crate::store::{Variables, has_name, index_of, lemma_filter_from};
use crate::constraint::{Constraint, DirectedArc, Predicate, arcs_for, build_arcs};

verus! {

/// `p` on `(v, w)`, or on `(w, v)` for a reversed arc.
pub open spec fn pair_holds<T, P: Predicate<T>>(p: P, v: VariableType<T>, w: VariableType<T>, reversed: bool) -> bool {
    if reversed {
        p.relates(w, v)
    } else {
        p.relates(v, w)
    }
}

/// Some value of `other` supports `v` under `p`.
pub open spec fn supported<T, P: Predicate<T>>(p: P, v: VariableType<T>, other: Seq<VariableType<T>>, reversed: bool) -> bool {
    exists|k: int| 0 <= k < other.len() && #[trigger] pair_holds(p, v, other[k], reversed)
}

/// The values a unary predicate keeps.
pub open spec fn unary_keep<T, P: Predicate<T>>(p: P) -> spec_fn(VariableType<T>) -> bool {
    |v: VariableType<T>| p.holds(v)
}

/// The values a binary arc keeps: those with support in `other`.
pub open spec fn binary_keep<T, P: Predicate<T>>(p: P, other: Seq<VariableType<T>>, reversed: bool) -> spec_fn(VariableType<T>) -> bool {
    |v: VariableType<T>| supported(p, v, other, reversed)
}

/// The domains after one arc of `c` prunes its source variable. An arc naming
/// a variable that is not in the store changes nothing.
pub open spec fn revise<T, P: Predicate<T>>(
    names: Seq<Seq<char>>,
    doms: Seq<Seq<VariableType<T>>>,
    c: Constraint<P>,
    reversed: bool,
) -> Seq<Seq<VariableType<T>>> {
    match c {
        Constraint::Unary(x, p) => if has_name(names, x@) {
            let i = index_of(names, x@);
            doms.update(i, doms[i].filter(unary_keep(p)))
        } else {
            doms
        },
        Constraint::Binary(x, y, p) => if has_name(names, x@) && has_name(names, y@) {
            let s = if reversed { index_of(names, y@) } else { index_of(names, x@) };
            let o = if reversed { index_of(names, x@) } else { index_of(names, y@) };
            doms.update(s, doms[s].filter(binary_keep(p, doms[o], reversed)))
        } else {
            doms
        },
    }
}

/// The domains after the arcs `arcs` are applied in order.
pub open spec fn sweep<T, P: Predicate<T>>(
    names: Seq<Seq<char>>,
    doms: Seq<Seq<VariableType<T>>>,
    cs: Seq<Constraint<P>>,
    arcs: Seq<DirectedArc>,
) -> Seq<Seq<VariableType<T>>>
    decreases arcs.len(),
{
    if arcs.len() == 0 {
        doms
    } else {
        let before = sweep(names, doms, cs, arcs.drop_last());
        let a = arcs.last();
        if a.constraint < cs.len() {
            revise(names, before, cs[a.constraint as int], a.reversed)
        } else {
            before
        }
    }
}

/// One full sweep over the arcs of `cs`.
pub open spec fn sweep_all<T, P: Predicate<T>>(
    names: Seq<Seq<char>>,
    doms: Seq<Seq<VariableType<T>>>,
    cs: Seq<Constraint<P>>,
) -> Seq<Seq<VariableType<T>>> {
    sweep(names, doms, cs, arcs_for(cs))
}

/// The total number of values over all domains.
pub open spec fn total<V>(doms: Seq<Seq<V>>) -> nat
    decreases doms.len(),
{
    if doms.len() == 0 {
        0
    } else {
        total(doms.drop_last()) + doms.last().len()
    }
}

/// The domains satisfy one constraint: its variables exist and every value of
/// the first has support in the second (or passes the unary test).
pub open spec fn constraint_consistent<T, P: Predicate<T>>(
    names: Seq<Seq<char>>,
    doms: Seq<Seq<VariableType<T>>>,
    c: Constraint<P>,
) -> bool {
    match c {
        Constraint::Unary(x, p) => has_name(names, x@) && {
            let d = doms[index_of(names, x@)];
            forall|a: int| 0 <= a < d.len() ==> p.holds(#[trigger] d[a])
        },
        Constraint::Binary(x, y, p) => has_name(names, x@) && has_name(names, y@) && {
            let d = doms[index_of(names, x@)];
            let e = doms[index_of(names, y@)];
            forall|a: int| 0 <= a < d.len() ==> supported(p, #[trigger] d[a], e, false)
        },
    }
}

/// The domains satisfy every constraint of `cs`.
pub open spec fn consistent<T, P: Predicate<T>>(
    names: Seq<Seq<char>>,
    doms: Seq<Seq<VariableType<T>>>,
    cs: Seq<Constraint<P>>,
) -> bool {
    forall|k: int| 0 <= k < cs.len() ==> constraint_consistent(names, doms, #[trigger] cs[k])
}

/// The domains `filter_domain` leaves: sweep, then stop once the domains are
/// consistent or a sweep removed nothing.
pub open spec fn filtered<T, P: Predicate<T>>(
    names: Seq<Seq<char>>,
    doms: Seq<Seq<VariableType<T>>>,
    cs: Seq<Constraint<P>>,
) -> Seq<Seq<VariableType<T>>>
    decreases total(doms),
{
    let next = sweep_all(names, doms, cs);
    if consistent(names, next, cs) {
        next
    } else if total(next) < total(doms) {
        filtered(names, next, cs)
    } else {
        next
    }
}

pub proof fn lemma_total_update<V>(doms: Seq<Seq<V>>, i: int, s: Seq<V>)
    requires
        0 <= i < doms.len(),
    ensures
        total(doms.update(i, s)) + doms[i].len() == total(doms) + s.len(),
    decreases doms.len(),
{
    let u = doms.update(i, s);
    if i < doms.len() - 1 {
        lemma_total_update(doms.drop_last(), i, s);
        assert(u.drop_last() =~= doms.drop_last().update(i, s));
    } else {
        assert(u.drop_last() =~= doms.drop_last());
    }
}

/// Some value of `other` supports `v`.
fn has_support<T, P: Predicate<T>>(p: &P, v: &VariableType<T>, other: &Vec<VariableType<T>>, reversed: bool) -> (r: bool)
    ensures
        r == supported(*p, *v, other@, reversed),
{
    let mut k: usize = 0;
    while k < other.len()
        invariant
            k <= other@.len(),
            forall|j: int| 0 <= j < k ==> !pair_holds(*p, *v, #[trigger] other@[j], reversed),
        decreases other@.len() - k,
    {
        let ok = if reversed { p.test_pair(&other[k], v) } else { p.test_pair(v, &other[k]) };
        if ok {
            assert(pair_holds(*p, *v, other@[k as int], reversed));
            return true;
        }
        k = k + 1;
    }
    false
}

/// Applies one arc of `c`: the source variable keeps the values that pass the
/// unary test, or that have support in the other variable's domain. Nothing
/// changes when a variable it names is missing. Returns whether a value was removed.
pub fn revise_arc<T, P: Predicate<T>>(variables: &mut Variables<T>, c: &Constraint<P>, reversed: bool) -> (changed: bool)
    requires
        old(variables).wf(),
    ensures
        final(variables).wf(),
        final(variables).names_view() == old(variables).names_view(),
        final(variables).tags() == old(variables).tags(),
        final(variables).doms() == revise(old(variables).names_view(), old(variables).doms(), *c, reversed),
        total(final(variables).doms()) <= total(old(variables).doms()),
        changed == (total(final(variables).doms()) < total(old(variables).doms())),
{
    proof { variables.lemma_wf(); }
    let ghost names = variables.names_view();
    let ghost doms = variables.doms();
    match c {
        Constraint::Unary(x, p) => {
            match variables.find(x) {
                Some(i) => {
                    let d = variables.domain_at(i);
                    let mut keep: Vec<bool> = Vec::new();
                    let mut k: usize = 0;
                    while k < d.len()
                        invariant
                            k <= d@.len(),
                            keep@.len() == k,
                            forall|j: int| 0 <= j < k ==> keep@[j] == unary_keep(*p)(d@[j]),
                        decreases d@.len() - k,
                    {
                        keep.push(p.test(&d[k]));
                        k = k + 1;
                    }
                    let before = d.len();
                    variables.restrict(i, &keep, Ghost(unary_keep(*p)));
                    proof {
                        lemma_total_update(doms, i as int, doms[i as int].filter(unary_keep(*p)));
                        lemma_filter_from(doms[i as int], unary_keep(*p));
                    }
                    let after = variables.domain_at(i).len();
                    after < before
                },
                None => false,
            }
        },
        Constraint::Binary(x, y, p) => {
            match (variables.find(x), variables.find(y)) {
                (Some(ix), Some(iy)) => {
                    let s = if reversed { iy } else { ix };
                    let o = if reversed { ix } else { iy };
                    let d = variables.domain_at(s);
                    let e = variables.domain_at(o);
                    let mut keep: Vec<bool> = Vec::new();
                    let mut k: usize = 0;
                    while k < d.len()
                        invariant
                            k <= d@.len(),
                            keep@.len() == k,
                            forall|j: int| 0 <= j < k ==> keep@[j] == binary_keep(*p, e@, reversed)(d@[j]),
                        decreases d@.len() - k,
                    {
                        keep.push(has_support(p, &d[k], e, reversed));
                        k = k + 1;
                    }
                    let before = d.len();
                    let ghost f = binary_keep(*p, e@, reversed);
                    variables.restrict(s, &keep, Ghost(f));
                    proof {
                        lemma_total_update(doms, s as int, doms[s as int].filter(f));
                        lemma_filter_from(doms[s as int], f);
                    }
                    let after = variables.domain_at(s).len();
                    after < before
                },
                _ => false,
            }
        },
    }
}

/// Applies every arc once, in order. Returns whether a value was removed.
pub fn arc_consistency<T, P: Predicate<T>>(
    variables: &mut Variables<T>,
    constraints: &Vec<Constraint<P>>,
    arcs: &Vec<DirectedArc>,
) -> (changed: bool)
    requires
        old(variables).wf(),
    ensures
        final(variables).wf(),
        final(variables).names_view() == old(variables).names_view(),
        final(variables).tags() == old(variables).tags(),
        final(variables).doms() == sweep(old(variables).names_view(), old(variables).doms(), constraints@, arcs@),
        total(final(variables).doms()) <= total(old(variables).doms()),
        changed == (total(final(variables).doms()) < total(old(variables).doms())),
{
    let ghost names = variables.names_view();
    let ghost start = variables.doms();
    let mut changed = false;
    let mut i: usize = 0;
    assert(arcs@.subrange(0, 0) =~= Seq::<DirectedArc>::empty());
    while i < arcs.len()
        invariant
            i <= arcs@.len(),
            variables.wf(),
            variables.names_view() == names,
            variables.tags() == old(variables).tags(),
            variables.doms() == sweep(names, start, constraints@, arcs@.subrange(0, i as int)),
            total(variables.doms()) <= total(start),
            changed == (total(variables.doms()) < total(start)),
        decreases arcs@.len() - i,
    {
        let ghost pre = arcs@.subrange(0, i as int + 1);
        assert(pre.drop_last() =~= arcs@.subrange(0, i as int));
        let a = arcs[i];
        if a.constraint < constraints.len() {
            let step = revise_arc(variables, &constraints[a.constraint], a.reversed);
            changed = changed || step;
        }
        i = i + 1;
    }
    assert(arcs@.subrange(0, i as int) =~= arcs@);
    changed
}

/// Every value of `d` has support in `e`.
fn all_supported<T, P: Predicate<T>>(p: &P, d: &Vec<VariableType<T>>, e: &Vec<VariableType<T>>) -> (r: bool)
    ensures
        r == forall|a: int| 0 <= a < d@.len() ==> supported(*p, #[trigger] d@[a], e@, false),
{
    let mut k: usize = 0;
    while k < d.len()
        invariant
            k <= d@.len(),
            forall|a: int| 0 <= a < k ==> supported(*p, #[trigger] d@[a], e@, false),
        decreases d@.len() - k,
    {
        if !has_support(p, &d[k], e, false) {
            return false;
        }
        k = k + 1;
    }
    true
}

/// Every value of `d` passes `p`.
fn all_hold<T, P: Predicate<T>>(p: &P, d: &Vec<VariableType<T>>) -> (r: bool)
    ensures
        r == forall|a: int| 0 <= a < d@.len() ==> p.holds(#[trigger] d@[a]),
{
    let mut k: usize = 0;
    while k < d.len()
        invariant
            k <= d@.len(),
            forall|a: int| 0 <= a < k ==> p.holds(#[trigger] d@[a]),
        decreases d@.len() - k,
    {
        if !p.test(&d[k]) {
            return false;
        }
        k = k + 1;
    }
    true
}

/// Whether the current domains satisfy every constraint; a constraint naming
/// a missing variable is unsatisfied.
pub fn is_consistent<T, P: Predicate<T>>(variables: &Variables<T>, constraints: &Vec<Constraint<P>>) -> (r: bool)
    requires
        variables.wf(),
    ensures
        r == consistent(variables.names_view(), variables.doms(), constraints@),
{
    proof { variables.lemma_wf(); }
    let ghost names = variables.names_view();
    let ghost doms = variables.doms();
    let mut i: usize = 0;
    while i < constraints.len()
        invariant
            i <= constraints@.len(),
            variables.wf(),
            names == variables.names_view(),
            doms == variables.doms(),
            forall|k: int| 0 <= k < i ==> constraint_consistent(names, doms, #[trigger] constraints@[k]),
        decreases constraints@.len() - i,
    {
        let ok = match &constraints[i] {
            Constraint::Binary(x, y, p) => {
                match (variables.find(x), variables.find(y)) {
                    (Some(ix), Some(iy)) => {
                        let d = variables.domain_at(ix);
                        let e = variables.domain_at(iy);
                        let r = all_supported(p, d, e);
                        assert(d@ == doms[index_of(names, x@)]);
                        assert(e@ == doms[index_of(names, y@)]);
                        assert(r == constraint_consistent(names, doms, constraints@[i as int]));
                        r
                    },
                    _ => false,
                }
            },
            Constraint::Unary(x, p) => {
                match variables.find(x) {
                    Some(ix) => {
                        let d = variables.domain_at(ix);
                        let r = all_hold(p, d);
                        assert(d@ == doms[index_of(names, x@)]);
                        assert(r == constraint_consistent(names, doms, constraints@[i as int]));
                        r
                    },
                    None => false,
                }
            },
        };
        assert(ok == constraint_consistent(names, doms, constraints@[i as int]));
        if !ok {
            return false;
        }
        i = i + 1;
    }
    true
}

/// Prunes the domains: sweeps every arc, and repeats until the domains are
/// consistent with `constraints` or a sweep removes nothing.
pub fn filter_domain<T, P: Predicate<T>>(variables: &mut Variables<T>, constraints: &Vec<Constraint<P>>)
    requires
        old(variables).wf(),
    ensures
        final(variables).wf(),
        final(variables).names_view() == old(variables).names_view(),
        final(variables).tags() == old(variables).tags(),
        final(variables).doms() == filtered(old(variables).names_view(), old(variables).doms(), constraints@),
{
    let arcs = build_arcs(constraints);
    let ghost names = variables.names_view();
    let ghost goal = filtered(names, variables.doms(), constraints@);
    loop
        invariant_except_break
            filtered(names, variables.doms(), constraints@) == goal,
        invariant
            variables.wf(),
            variables.names_view() == names,
            variables.tags() == old(variables).tags(),
            arcs@ == arcs_for(constraints@),
        ensures
            variables.wf(),
            variables.names_view() == names,
            variables.tags() == old(variables).tags(),
            variables.doms() == goal,
        decreases total(variables.doms()),
    {
        let ghost before = variables.doms();
        let changed = arc_consistency(variables, constraints, &arcs);
        assert(variables.doms() == sweep_all(names, before, constraints@));
        if is_consistent(variables, constraints) {
            assert(filtered(names, before, constraints@) == variables.doms());
            break;
        }
        if !changed {
            assert(filtered(names, before, constraints@) == variables.doms());
            break;
        }
        assert(filtered(names, before, constraints@) == filtered(names, variables.doms(), constraints@));
    }
}

} // verus!
