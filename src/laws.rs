use vstd::prelude::*;
use crate::value::VariableType;
use crate::store::{has_name, index_of, lemma_filter_from, tags_hold, has_tag, distinct_names};
use crate::value::last_match;
use crate::solver::{pairs, drawn, satisfies_all, satisfied, lemma_last_match_distinct};
use crate::constraint::{Constraint, DirectedArc, Predicate};
use crate::filter::{
    revise, sweep, sweep_all, filtered, total, consistent, lemma_total_update, unary_keep, binary_keep,
    supported, pair_holds,
};

verus! {

/// `new` has the shape of `old`, and each of its domains keeps only values of
/// the matching domain of `old`.
pub open spec fn shrinks<V>(new: Seq<Seq<V>>, old: Seq<Seq<V>>) -> bool {
    new.len() == old.len() && forall|i: int, v: V| 0 <= i < new.len() && #[trigger] new[i].contains(v) ==> old[i].contains(v)
}

proof fn lemma_filter_same_len<V>(s: Seq<V>, f: spec_fn(V) -> bool)
    requires
        s.filter(f).len() == s.len(),
    ensures
        s.filter(f) == s,
    decreases s.len(),
{
    reveal_with_fuel(Seq::filter, 1);
    if s.len() > 0 {
        let t = s.drop_last();
        lemma_filter_from(t, f);
        if f(s.last()) {
            lemma_filter_same_len(t, f);
            assert(t.push(s.last()) =~= s);
        }
    }
}

proof fn lemma_keep_filter<V>(d: Seq<Seq<V>>, i: int, f: spec_fn(V) -> bool)
    requires
        0 <= i < d.len(),
    ensures
        shrinks(d.update(i, d[i].filter(f)), d),
        total(d.update(i, d[i].filter(f))) <= total(d),
        total(d.update(i, d[i].filter(f))) == total(d) ==> d.update(i, d[i].filter(f)) == d,
{
    let u = d.update(i, d[i].filter(f));
    lemma_filter_from(d[i], f);
    lemma_total_update(d, i, d[i].filter(f));
    assert forall|j: int, v: V| 0 <= j < u.len() && #[trigger] u[j].contains(v) implies d[j].contains(v) by {
        if j == i {
            let m = choose|m: int| 0 <= m < u[j].len() && u[j][m] == v;
            assert(d[i].filter(f)[m] == v);
        }
    }
    if total(u) == total(d) {
        lemma_filter_same_len(d[i], f);
        assert(u =~= d);
    }
}

proof fn lemma_revise<T, P: Predicate<T>>(names: Seq<Seq<char>>, d: Seq<Seq<VariableType<T>>>, c: Constraint<P>, reversed: bool)
    requires
        d.len() == names.len(),
    ensures
        shrinks(revise(names, d, c, reversed), d),
        total(revise(names, d, c, reversed)) <= total(d),
        total(revise(names, d, c, reversed)) == total(d) ==> revise(names, d, c, reversed) == d,
{
    match c {
        Constraint::Unary(x, p) => {
            if has_name(names, x@) {
                lemma_keep_filter(d, index_of(names, x@), unary_keep(p));
            }
        },
        Constraint::Binary(x, y, p) => {
            if has_name(names, x@) && has_name(names, y@) {
                let s = if reversed { index_of(names, y@) } else { index_of(names, x@) };
                let o = if reversed { index_of(names, x@) } else { index_of(names, y@) };
                lemma_keep_filter(d, s, binary_keep(p, d[o], reversed));
            }
        },
    }
}

proof fn lemma_sweep<T, P: Predicate<T>>(
    names: Seq<Seq<char>>,
    d: Seq<Seq<VariableType<T>>>,
    cs: Seq<Constraint<P>>,
    arcs: Seq<DirectedArc>,
)
    requires
        d.len() == names.len(),
    ensures
        shrinks(sweep(names, d, cs, arcs), d),
        total(sweep(names, d, cs, arcs)) <= total(d),
        total(sweep(names, d, cs, arcs)) == total(d) ==> sweep(names, d, cs, arcs) == d,
    decreases arcs.len(),
{
    if arcs.len() > 0 {
        lemma_sweep(names, d, cs, arcs.drop_last());
        let before = sweep(names, d, cs, arcs.drop_last());
        let a = arcs.last();
        if a.constraint < cs.len() {
            lemma_revise(names, before, cs[a.constraint as int], a.reversed);
        }
    }
}

proof fn lemma_filtered<T, P: Predicate<T>>(names: Seq<Seq<char>>, d: Seq<Seq<VariableType<T>>>, cs: Seq<Constraint<P>>)
    requires
        d.len() == names.len(),
    ensures
        shrinks(filtered(names, d, cs), d),
        total(filtered(names, d, cs)) <= total(d),
    decreases total(d),
{
    let next = sweep_all(names, d, cs);
    lemma_sweep(names, d, cs, crate::constraint::arcs_for(cs));
    if !consistent(names, next, cs) && total(next) < total(d) {
        lemma_filtered(names, next, cs);
    }
}

/// Filtering only removes values: every value left in a domain was in that
/// variable's domain before, and no variable is added or dropped.
pub proof fn lemma_filter_monotone<T, P: Predicate<T>>(
    names: Seq<Seq<char>>,
    doms: Seq<Seq<VariableType<T>>>,
    cs: Seq<Constraint<P>>,
)
    requires
        doms.len() == names.len(),
    ensures
        filtered(names, doms, cs).len() == doms.len(),
        forall|i: int, v: VariableType<T>|
            0 <= i < doms.len() && #[trigger] filtered(names, doms, cs)[i].contains(v) ==> doms[i].contains(v),
{
    lemma_filtered(names, doms, cs);
}

/// Filtering the filtered domains again leaves them unchanged exactly when
/// one more sweep over the arcs removes nothing from them.
pub proof fn lemma_filter_idempotent<T, P: Predicate<T>>(
    names: Seq<Seq<char>>,
    doms: Seq<Seq<VariableType<T>>>,
    cs: Seq<Constraint<P>>,
)
    requires
        doms.len() == names.len(),
    ensures
        filtered(names, filtered(names, doms, cs), cs) == filtered(names, doms, cs)
            <==> sweep_all(names, filtered(names, doms, cs), cs) == filtered(names, doms, cs),
{
    let f = filtered(names, doms, cs);
    lemma_filtered(names, doms, cs);
    let s = sweep_all(names, f, cs);
    lemma_sweep(names, f, cs, crate::constraint::arcs_for(cs));
    if s != f {
        assert(total(s) < total(f));
        if !consistent(names, s, cs) {
            lemma_filtered(names, s, cs);
        }
    }
}

/// Variant fidelity survives filtering: if every value of every domain has its
/// variable's variant, the same holds of the filtered domains.
pub proof fn lemma_filter_keeps_variants<T, P: Predicate<T>>(
    names: Seq<Seq<char>>,
    tags: Seq<bool>,
    doms: Seq<Seq<VariableType<T>>>,
    cs: Seq<Constraint<P>>,
)
    requires
        doms.len() == names.len(),
        tags_hold(tags, doms),
    ensures
        tags_hold(tags, filtered(names, doms, cs)),
{
    lemma_filtered(names, doms, cs);
    let f = filtered(names, doms, cs);
    assert forall|i: int, k: int| 0 <= i < f.len() && 0 <= k < f[i].len() implies has_tag(#[trigger] f[i][k], tags[i]) by {
        assert(f[i].contains(f[i][k]));
        let m = choose|m: int| 0 <= m < doms[i].len() && doms[i][m] == f[i][k];
        assert(has_tag(doms[i][m], tags[i]));
    }
}

/// Arc duality: the forward arc of a binary constraint `(x, y, p)` leaves in
/// `dom(x)` exactly the values with a partner `w` in `dom(y)` such that
/// `p(v, w)`; the reversed arc leaves in `dom(y)` exactly the values `v` with a
/// partner `w` in `dom(x)` such that `p(w, v)`.
pub proof fn lemma_arc_duality<T, P: Predicate<T>>(
    names: Seq<Seq<char>>,
    doms: Seq<Seq<VariableType<T>>>,
    x: String,
    y: String,
    p: P,
)
    requires
        doms.len() == names.len(),
        has_name(names, x@),
        has_name(names, y@),
    ensures
        ({
            let ix = index_of(names, x@);
            let iy = index_of(names, y@);
            forall|v: VariableType<T>| #[trigger] revise(names, doms, Constraint::Binary(x, y, p), false)[ix].contains(v)
                <==> doms[ix].contains(v) && exists|k: int| 0 <= k < doms[iy].len() && p.relates(v, #[trigger] doms[iy][k])
        }),
        ({
            let ix = index_of(names, x@);
            let iy = index_of(names, y@);
            forall|v: VariableType<T>| #[trigger] revise(names, doms, Constraint::Binary(x, y, p), true)[iy].contains(v)
                <==> doms[iy].contains(v) && exists|k: int| 0 <= k < doms[ix].len() && p.relates(#[trigger] doms[ix][k], v)
        }),
{
    broadcast use vstd::seq_lib::group_filter_ensures;
    let ix = index_of(names, x@);
    let iy = index_of(names, y@);
    let c = Constraint::Binary(x, y, p);
    let ff = binary_keep(p, doms[iy], false);
    let fr = binary_keep(p, doms[ix], true);
    lemma_filter_from(doms[ix], ff);
    lemma_filter_from(doms[iy], fr);
    assert(revise(names, doms, c, false)[ix] == doms[ix].filter(ff));
    assert(revise(names, doms, c, true)[iy] == doms[iy].filter(fr));
    assert forall|v: VariableType<T>| #[trigger] revise(names, doms, c, false)[ix].contains(v)
        <==> doms[ix].contains(v) && exists|k: int| 0 <= k < doms[iy].len() && p.relates(v, #[trigger] doms[iy][k]) by {
        if revise(names, doms, c, false)[ix].contains(v) {
            let m = choose|m: int| 0 <= m < doms[ix].filter(ff).len() && doms[ix].filter(ff)[m] == v;
            assert(ff(v));
            let k = choose|k: int| 0 <= k < doms[iy].len() && #[trigger] pair_holds(p, v, doms[iy][k], false);
            assert(p.relates(v, doms[iy][k]));
        }
        if doms[ix].contains(v) && exists|k: int| 0 <= k < doms[iy].len() && p.relates(v, #[trigger] doms[iy][k]) {
            let k = choose|k: int| 0 <= k < doms[iy].len() && p.relates(v, #[trigger] doms[iy][k]);
            assert(pair_holds(p, v, doms[iy][k], false));
            assert(supported(p, v, doms[iy], false));
            let m = choose|m: int| 0 <= m < doms[ix].len() && doms[ix][m] == v;
            assert(ff(doms[ix][m]));
        }
    }
    assert forall|v: VariableType<T>| #[trigger] revise(names, doms, c, true)[iy].contains(v)
        <==> doms[iy].contains(v) && exists|k: int| 0 <= k < doms[ix].len() && p.relates(#[trigger] doms[ix][k], v) by {
        if revise(names, doms, c, true)[iy].contains(v) {
            let m = choose|m: int| 0 <= m < doms[iy].filter(fr).len() && doms[iy].filter(fr)[m] == v;
            assert(fr(v));
            let k = choose|k: int| 0 <= k < doms[ix].len() && #[trigger] pair_holds(p, v, doms[ix][k], true);
            assert(p.relates(doms[ix][k], v));
        }
        if doms[iy].contains(v) && exists|k: int| 0 <= k < doms[ix].len() && p.relates(#[trigger] doms[ix][k], v) {
            let k = choose|k: int| 0 <= k < doms[ix].len() && p.relates(#[trigger] doms[ix][k], v);
            assert(pair_holds(p, v, doms[ix][k], true));
            assert(supported(p, v, doms[ix], true));
            let m = choose|m: int| 0 <= m < doms[iy].len() && doms[iy][m] == v;
            assert(fr(doms[iy][m]));
        }
    }
}

/// In the assignment that binds each name to its value, a name of the store
/// is bound to the value at its position.
pub proof fn lemma_pairs_lookup<V>(names: Seq<Seq<char>>, vals: Seq<V>, n: Seq<char>)
    requires
        distinct_names(names),
        vals.len() == names.len(),
        has_name(names, n),
    ensures
        last_match(pairs(names, vals), n) == Some(vals[index_of(names, n)]),
{
    let i = index_of(names, n);
    let s = pairs(names, vals);
    assert forall|a: int, b: int| 0 <= a < s.len() && 0 <= b < s.len() && a != b implies s[a].0 != s[b].0 by {
        assert(s[a].0 == names[a] && s[b].0 == names[b]);
    }
    lemma_last_match_distinct(s, i);
}

proof fn lemma_keep_member<V>(d: Seq<V>, f: spec_fn(V) -> bool, v: V)
    requires
        d.contains(v),
        f(v),
    ensures
        d.filter(f).contains(v),
{
    broadcast use vstd::seq_lib::group_filter_ensures;
    let m = choose|m: int| 0 <= m < d.len() && d[m] == v;
    assert(f(d[m]));
}

proof fn lemma_revise_keeps<T, P: Predicate<T>>(
    names: Seq<Seq<char>>,
    d: Seq<Seq<VariableType<T>>>,
    c: Constraint<P>,
    reversed: bool,
    vals: Seq<VariableType<T>>,
)
    requires
        d.len() == names.len(),
        distinct_names(names),
        drawn(d, vals),
        satisfied(pairs(names, vals), c),
    ensures
        drawn(revise(names, d, c, reversed), vals),
{
    let r = revise(names, d, c, reversed);
    match c {
        Constraint::Unary(x, p) => {
            if has_name(names, x@) {
                let i = index_of(names, x@);
                lemma_pairs_lookup(names, vals, x@);
                assert(d[i].contains(vals[i]));
                lemma_keep_member(d[i], unary_keep(p), vals[i]);
                assert forall|j: int| 0 <= j < vals.len() implies r[j].contains(#[trigger] vals[j]) by {
                    if j != i {
                        assert(d[j].contains(vals[j]));
                    }
                }
            }
        },
        Constraint::Binary(x, y, p) => {
            if has_name(names, x@) && has_name(names, y@) {
                let ix = index_of(names, x@);
                let iy = index_of(names, y@);
                lemma_pairs_lookup(names, vals, x@);
                lemma_pairs_lookup(names, vals, y@);
                let s = if reversed { iy } else { ix };
                let o = if reversed { ix } else { iy };
                assert(d[o].contains(vals[o]));
                let k = choose|k: int| 0 <= k < d[o].len() && d[o][k] == vals[o];
                assert(pair_holds(p, vals[s], d[o][k], reversed));
                assert(supported(p, vals[s], d[o], reversed));
                assert(d[s].contains(vals[s]));
                lemma_keep_member(d[s], binary_keep(p, d[o], reversed), vals[s]);
                assert forall|j: int| 0 <= j < vals.len() implies r[j].contains(#[trigger] vals[j]) by {
                    if j != s {
                        assert(d[j].contains(vals[j]));
                    }
                }
            }
        },
    }
}

proof fn lemma_sweep_keeps<T, P: Predicate<T>>(
    names: Seq<Seq<char>>,
    d: Seq<Seq<VariableType<T>>>,
    cs: Seq<Constraint<P>>,
    arcs: Seq<DirectedArc>,
    vals: Seq<VariableType<T>>,
)
    requires
        d.len() == names.len(),
        distinct_names(names),
        drawn(d, vals),
        satisfies_all(pairs(names, vals), cs),
    ensures
        drawn(sweep(names, d, cs, arcs), vals),
    decreases arcs.len(),
{
    if arcs.len() > 0 {
        lemma_sweep_keeps(names, d, cs, arcs.drop_last(), vals);
        lemma_sweep(names, d, cs, arcs.drop_last());
        let before = sweep(names, d, cs, arcs.drop_last());
        let a = arcs.last();
        if a.constraint < cs.len() {
            assert(satisfied(pairs(names, vals), cs[a.constraint as int]));
            lemma_revise_keeps(names, before, cs[a.constraint as int], a.reversed, vals);
        }
    }
}

/// Filtering never removes a value that a solution uses: if one value drawn
/// from each domain satisfies every constraint, each of those values is still
/// in its variable's filtered domain.
pub proof fn lemma_filter_keeps_solutions<T, P: Predicate<T>>(
    names: Seq<Seq<char>>,
    doms: Seq<Seq<VariableType<T>>>,
    cs: Seq<Constraint<P>>,
    vals: Seq<VariableType<T>>,
)
    requires
        doms.len() == names.len(),
        distinct_names(names),
        drawn(doms, vals),
        satisfies_all(pairs(names, vals), cs),
    ensures
        drawn(filtered(names, doms, cs), vals),
    decreases total(doms),
{
    let next = sweep_all(names, doms, cs);
    lemma_sweep(names, doms, cs, crate::constraint::arcs_for(cs));
    lemma_sweep_keeps(names, doms, cs, crate::constraint::arcs_for(cs), vals);
    if !consistent(names, next, cs) && total(next) < total(doms) {
        lemma_filter_keeps_solutions(names, next, cs, vals);
    }
}

} // verus!
