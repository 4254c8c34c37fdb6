use vstd::prelude::*;
use crate::value::{VariableType, last_match};
use crate::store::Variables;
use crate::constraint::{Constraint, Predicate};

verus! {

/// The bindings of a list of (name, value) entries.
pub open spec fn bindings_of<'a, T>(v: Seq<(String, &'a VariableType<T>)>) -> Seq<(Seq<char>, VariableType<T>)> {
    v.map_values(|e: (String, &'a VariableType<T>)| (e.0@, *e.1))
}

/// An assignment satisfies one constraint: the variables it names are bound,
/// and the bound values pass the predicate.
pub open spec fn satisfied<T, P: Predicate<T>>(a: Seq<(Seq<char>, VariableType<T>)>, c: Constraint<P>) -> bool {
    match c {
        Constraint::Unary(x, p) => last_match(a, x@) is Some && p.holds(last_match(a, x@)->0),
        Constraint::Binary(x, y, p) => last_match(a, x@) is Some && last_match(a, y@) is Some
            && p.relates(last_match(a, x@)->0, last_match(a, y@)->0),
    }
}

/// An assignment satisfies every constraint of `cs`.
pub open spec fn satisfies_all<T, P: Predicate<T>>(a: Seq<(Seq<char>, VariableType<T>)>, cs: Seq<Constraint<P>>) -> bool {
    forall|k: int| 0 <= k < cs.len() ==> satisfied(a, #[trigger] cs[k])
}

/// The assignment binding `names[j]` to `vals[j]`.
pub open spec fn pairs<V>(names: Seq<Seq<char>>, vals: Seq<V>) -> Seq<(Seq<char>, V)> {
    Seq::new(vals.len(), |j: int| (names[j], vals[j]))
}

/// `vals` picks one value from each domain, in order.
pub open spec fn drawn<V>(doms: Seq<Seq<V>>, vals: Seq<V>) -> bool {
    vals.len() == doms.len() && forall|j: int| 0 <= j < vals.len() ==> doms[j].contains(#[trigger] vals[j])
}

/// `b` binds the first variables of the store, in order, each to a value of
/// its domain.
pub open spec fn binds_prefix<T>(variables: Variables<T>, b: Seq<(Seq<char>, VariableType<T>)>) -> bool {
    &&& b.len() <= variables.names_view().len()
    &&& forall|j: int| 0 <= j < b.len() ==> (#[trigger] b[j]).0 == variables.names_view()[j]
        && variables.doms()[j].contains(b[j].1)
}

/// `vals` agrees with the values bound by `b`.
pub open spec fn extends<V>(vals: Seq<V>, b: Seq<(Seq<char>, V)>) -> bool {
    b.len() <= vals.len() && forall|j: int| 0 <= j < b.len() ==> vals[j] == (#[trigger] b[j]).1
}

/// A constraint whose variables are all bound fails on the bound values.
pub open spec fn violated<T, P: Predicate<T>>(a: Seq<(Seq<char>, VariableType<T>)>, c: Constraint<P>) -> bool {
    match c {
        Constraint::Unary(x, p) => last_match(a, x@) is Some && !p.holds(last_match(a, x@)->0),
        Constraint::Binary(x, y, p) => last_match(a, x@) is Some && last_match(a, y@) is Some
            && !p.relates(last_match(a, x@)->0, last_match(a, y@)->0),
    }
}

proof fn lemma_last_match_entry<X>(s: Seq<(Seq<char>, X)>, n: Seq<char>)
    requires
        last_match(s, n) is Some,
    ensures
        exists|j: int| 0 <= j < s.len() && s[j] == (n, last_match(s, n)->0),
    decreases s.len(),
{
    if s.last().0 != n {
        lemma_last_match_entry(s.drop_last(), n);
        let j = choose|j: int| 0 <= j < s.drop_last().len() && s.drop_last()[j] == (n, last_match(s, n)->0);
        assert(s[j] == s.drop_last()[j]);
    } else {
        assert(s[s.len() - 1] == s.last());
    }
}

pub proof fn lemma_last_match_distinct<X>(s: Seq<(Seq<char>, X)>, j: int)
    requires
        0 <= j < s.len(),
        forall|a: int, b: int| 0 <= a < s.len() && 0 <= b < s.len() && a != b ==> s[a].0 != s[b].0,
    ensures
        last_match(s, s[j].0) == Some(s[j].1),
    decreases s.len(),
{
    if j < s.len() - 1 {
        assert(s.last() == s[s.len() - 1]);
        lemma_last_match_distinct(s.drop_last(), j);
    }
}

/// A constraint that fails on a bound prefix fails on every completion of it.
proof fn lemma_violation_persists<T, P: Predicate<T>>(
    variables: Variables<T>,
    b: Seq<(Seq<char>, VariableType<T>)>,
    vals: Seq<VariableType<T>>,
    c: Constraint<P>,
)
    requires
        variables.wf(),
        binds_prefix(variables, b),
        drawn(variables.doms(), vals),
        extends(vals, b),
        violated(b, c),
    ensures
        !satisfied(pairs(variables.names_view(), vals), c),
{
    variables.lemma_wf();
    let names = variables.names_view();
    let full = pairs(names, vals);
    assert forall|n: Seq<char>| #[trigger] last_match(b, n) is Some implies last_match(full, n) == last_match(b, n) by {
        lemma_last_match_entry(b, n);
        let j = choose|j: int| 0 <= j < b.len() && b[j] == (n, last_match(b, n)->0);
        assert(full[j] == (names[j], vals[j]));
        lemma_last_match_distinct(full, j);
    }
}

/// A choice of one value for some variables, by name.
pub struct Assignment<'a, T> {
    entries: Vec<(String, &'a VariableType<T>)>,
}

impl<'a, T> Assignment<'a, T> {
    /// The (name, value) bindings, in the order they were made.
    pub closed spec fn bindings(&self) -> Seq<(Seq<char>, VariableType<T>)> {
        bindings_of(self.entries@)
    }

    /// The number of bindings.
    pub fn len(&self) -> (r: usize)
        ensures
            r == self.bindings().len(),
    {
        self.entries.len()
    }

    /// The value bound to `name`, if any.
    pub fn get(&self, name: &str) -> (r: Option<&'a VariableType<T>>)
        ensures
            match r {
                Some(v) => last_match(self.bindings(), name@) == Some(*v),
                None => last_match(self.bindings(), name@) is None,
            },
    {
        let key = name.to_owned();
        lookup(&self.entries, &key)
    }

    /// The name and value of binding `i`.
    pub fn entry(&self, i: usize) -> (r: (&String, &'a VariableType<T>))
        requires
            i < self.bindings().len(),
        ensures
            (r.0@, *r.1) == self.bindings()[i as int],
    {
        (&self.entries[i].0, self.entries[i].1)
    }
}

/// The value bound to `key` in `a`, later bindings first.
fn lookup<'a, T>(a: &Vec<(String, &'a VariableType<T>)>, key: &String) -> (r: Option<&'a VariableType<T>>)
    ensures
        match r {
            Some(v) => last_match(bindings_of(a@), key@) == Some(*v),
            None => last_match(bindings_of(a@), key@) is None,
        },
{
    let mut i: usize = a.len();
    assert(bindings_of(a@).subrange(0, i as int) =~= bindings_of(a@));
    while i > 0
        invariant
            i <= a@.len(),
            last_match(bindings_of(a@), key@) == last_match(bindings_of(a@).subrange(0, i as int), key@),
        decreases i,
    {
        let ghost pre = bindings_of(a@).subrange(0, i as int);
        assert(pre.drop_last() =~= bindings_of(a@).subrange(0, i - 1));
        if a[i - 1].0 == *key {
            return Some(a[i - 1].1);
        }
        i = i - 1;
    }
    None
}

/// Whether a constraint naming `key` fails on the bound values. When the
/// bindings before the last one had no failing constraint, this decides
/// whether any constraint fails.
fn has_violation<'a, T, P: Predicate<T>>(a: &Vec<(String, &'a VariableType<T>)>, constraints: &Vec<Constraint<P>>, key: &String) -> (r: bool)
    requires
        a@.len() > 0,
        a@.last().0@ == key@,
        forall|k: int| 0 <= k < constraints@.len() ==> !violated(bindings_of(a@.drop_last()), #[trigger] constraints@[k]),
    ensures
        r == exists|k: int| 0 <= k < constraints@.len() && violated(bindings_of(a@), #[trigger] constraints@[k]),
{
    let ghost b = bindings_of(a@);
    assert(b.drop_last() =~= bindings_of(a@.drop_last()));
    let mut i: usize = 0;
    while i < constraints.len()
        invariant
            i <= constraints@.len(),
            b == bindings_of(a@),
            b.drop_last() == bindings_of(a@.drop_last()),
            b.len() > 0,
            b.last().0 == key@,
            forall|k: int| 0 <= k < constraints@.len() ==> !violated(b.drop_last(), #[trigger] constraints@[k]),
            forall|k: int| 0 <= k < i ==> !violated(b, #[trigger] constraints@[k]),
        decreases constraints@.len() - i,
    {
        let bad = match &constraints[i] {
            Constraint::Binary(x, y, p) => {
                if *x == *key || *y == *key {
                    match (lookup(a, x), lookup(a, y)) {
                        (Some(vx), Some(vy)) => !p.test_pair(vx, vy),
                        _ => false,
                    }
                } else {
                    false
                }
            },
            Constraint::Unary(x, p) => {
                if *x == *key {
                    match lookup(a, x) {
                        Some(v) => !p.test(v),
                        None => false,
                    }
                } else {
                    false
                }
            },
        };
        assert(!violated(b.drop_last(), constraints@[i as int]));
        assert(bad == violated(b, constraints@[i as int]));
        if bad {
            return true;
        }
        i = i + 1;
    }
    false
}

/// Whether the bindings satisfy every constraint; an unbound variable fails.
fn is_solution<'a, T, P: Predicate<T>>(a: &Vec<(String, &'a VariableType<T>)>, constraints: &Vec<Constraint<P>>) -> (r: bool)
    ensures
        r == satisfies_all(bindings_of(a@), constraints@),
{
    let mut i: usize = 0;
    while i < constraints.len()
        invariant
            i <= constraints@.len(),
            forall|k: int| 0 <= k < i ==> satisfied(bindings_of(a@), #[trigger] constraints@[k]),
        decreases constraints@.len() - i,
    {
        let ok = match &constraints[i] {
            Constraint::Binary(x, y, p) => match (lookup(a, x), lookup(a, y)) {
                (Some(vx), Some(vy)) => p.test_pair(vx, vy),
                _ => false,
            },
            Constraint::Unary(x, p) => match lookup(a, x) {
                Some(v) => p.test(v),
                None => false,
            },
        };
        assert(ok == satisfied(bindings_of(a@), constraints@[i as int]));
        if !ok {
            return false;
        }
        i = i + 1;
    }
    true
}

fn backtrack<'a, T, P: Predicate<T>>(
    a: &mut Vec<(String, &'a VariableType<T>)>,
    variables: &'a Variables<T>,
    constraints: &Vec<Constraint<P>>,
    index: usize,
) -> (found: bool)
    requires
        variables.wf(),
        index <= variables.names_view().len(),
        old(a)@.len() == index,
        binds_prefix(*variables, bindings_of(old(a)@)),
        forall|k: int| 0 <= k < constraints@.len() ==> !violated(bindings_of(old(a)@), #[trigger] constraints@[k]),
    ensures
        found ==> satisfies_all(bindings_of(final(a)@), constraints@) && binds_prefix(*variables, bindings_of(final(a)@)),
        found ==> final(a)@.len() >= index && final(a)@.subrange(0, index as int) == old(a)@,
        !found ==> final(a)@ == old(a)@,
        !found ==> forall|vals: Seq<VariableType<T>>|
            drawn(variables.doms(), vals) && extends(vals, bindings_of(old(a)@))
                ==> !satisfies_all(pairs(variables.names_view(), vals), constraints@),
    decreases variables.names_view().len() - index,
{
    proof { variables.lemma_wf(); }
    if is_solution(a, constraints) {
        assert(a@.subrange(0, index as int) =~= a@);
        return true;
    }
    let ghost names = variables.names_view();
    let ghost doms = variables.doms();
    if index >= variables.len() {
        assert forall|vals: Seq<VariableType<T>>|
            drawn(doms, vals) && extends(vals, bindings_of(a@))
                implies !satisfies_all(pairs(names, vals), constraints@) by {
            assert(pairs(names, vals) =~= bindings_of(a@));
        }
        return false;
    }
    let next = index + 1;
    let dom = variables.domain_at(index);
    let ghost start = a@;
    let mut k: usize = 0;
    while k < dom.len()
        invariant
            variables.wf(),
            k <= dom@.len(),
            next == index + 1,
            doms.len() == names.len(),
            dom@ == doms[index as int],
            index < names.len(),
            names == variables.names_view(),
            doms == variables.doms(),
            a@ == start,
            start == old(a)@,
            start.len() == index,
            binds_prefix(*variables, bindings_of(start)),
            forall|k: int| 0 <= k < constraints@.len() ==> !violated(bindings_of(start), #[trigger] constraints@[k]),
            forall|vals: Seq<VariableType<T>>|
                drawn(doms, vals) && extends(vals, bindings_of(start)) && (exists|m: int| 0 <= m < k && vals[index as int] == dom@[m])
                    ==> !satisfies_all(pairs(names, vals), constraints@),
        decreases dom@.len() - k,
    {
        let name = variables.name_at(index).clone();
        let key = name.clone();
        a.push((name, &dom[k]));
        proof {
            assert(bindings_of(a@) =~= bindings_of(start).push((names[index as int], dom@[k as int])));
            assert(dom@[k as int] == doms[index as int][k as int]);
        }
        let ghost pushed = a@;
        let ghost pb = bindings_of(start).push((names[index as int], dom@[k as int]));
        assert(bindings_of(pushed) == pb);
        assert(a@.drop_last() =~= start);
        if has_violation(a, constraints, &key) {
            assert forall|vals: Seq<VariableType<T>>|
                drawn(doms, vals) && extends(vals, pb)
                    implies !satisfies_all(pairs(names, vals), constraints@) by {
                let c = choose|c: int| 0 <= c < constraints@.len() && violated(pb, #[trigger] constraints@[c]);
                lemma_violation_persists(*variables, pb, vals, constraints@[c]);
            }
        } else if backtrack(a, variables, constraints, next) {
            assert(a@.subrange(0, index as int) =~= a@.subrange(0, next as int).subrange(0, index as int));
            assert(pushed.subrange(0, index as int) =~= start);
            return true;
        }
        assert forall|vals: Seq<VariableType<T>>|
            drawn(doms, vals) && extends(vals, bindings_of(start)) && vals[index as int] == dom@[k as int]
                implies !satisfies_all(pairs(names, vals), constraints@) by {
            assert forall|j: int| 0 <= j < pb.len() implies vals[j] == (#[trigger] pb[j]).1 by {
                if j < index {
                    assert(pb[j] == bindings_of(start)[j]);
                }
            }
            assert(extends(vals, bindings_of(pushed)));
        }
        a.pop();
        assert(a@ =~= start);
        k = k + 1;
    }
    assert forall|vals: Seq<VariableType<T>>|
        drawn(doms, vals) && extends(vals, bindings_of(start))
            implies !satisfies_all(pairs(names, vals), constraints@) by {
        assert(doms[index as int].contains(vals[index as int]));
        let m = choose|m: int| 0 <= m < dom@.len() && dom@[m] == vals[index as int];
        assert(0 <= m < k && vals[index as int] == dom@[m]);
    }
    false
}

/// Searches depth-first, in store order, for an assignment that satisfies
/// every constraint; values are tried in domain order, and a branch is
/// abandoned as soon as a constraint over bound variables fails (no solution
/// lies below it). The result binds the first variables of the store, each to
/// a value of its domain; it is found whenever some choice of one value per
/// domain satisfies every constraint.
pub fn solution<'a, T, P: Predicate<T>>(variables: &'a Variables<T>, constraints: &Vec<Constraint<P>>) -> (r: Option<Assignment<'a, T>>)
    requires
        variables.wf(),
    ensures
        match r {
            Some(asg) => satisfies_all(asg.bindings(), constraints@) && binds_prefix(*variables, asg.bindings()),
            None => forall|vals: Seq<VariableType<T>>|
                drawn(variables.doms(), vals) ==> !satisfies_all(pairs(variables.names_view(), vals), constraints@),
        },
        (exists|vals: Seq<VariableType<T>>|
            drawn(variables.doms(), vals) && satisfies_all(pairs(variables.names_view(), vals), constraints@))
            ==> r is Some,
{
    let mut a: Vec<(String, &'a VariableType<T>)> = Vec::new();
    assert(bindings_of(a@) =~= Seq::<(Seq<char>, VariableType<T>)>::empty());
    assert forall|k: int| 0 <= k < constraints@.len() implies !violated(bindings_of(a@), #[trigger] constraints@[k]) by {
        assert(last_match(bindings_of(a@), Seq::<char>::empty()) is None);
    }
    if backtrack(&mut a, variables, constraints, 0) {
        Some(Assignment { entries: a })
    } else {
        None
    }
}

} // verus!
