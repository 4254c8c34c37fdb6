use vstd::prelude::*;
use crate::value::{Record, VariableType};

verus! {

/// Whether `names` holds `n`.
pub open spec fn has_name(names: Seq<Seq<char>>, n: Seq<char>) -> bool {
    exists|i: int| 0 <= i < names.len() && names[i] == n
}

/// The position of `n` in `names` (meaningful when `has_name` holds and the
/// names are distinct).
pub open spec fn index_of(names: Seq<Seq<char>>, n: Seq<char>) -> int {
    choose|i: int| 0 <= i < names.len() && names[i] == n
}

/// No name occurs twice.
pub open spec fn distinct_names(names: Seq<Seq<char>>) -> bool {
    forall|i: int, j: int| 0 <= i < names.len() && 0 <= j < names.len() && i != j ==> names[i] != names[j]
}

/// Whether a value carries the given variant tag (`true` for records).
pub open spec fn has_tag<T>(v: VariableType<T>, hidden: bool) -> bool {
    match v {
        VariableType::Value(_) => !hidden,
        VariableType::Hidden(_) => hidden,
    }
}

/// Every value of every domain carries its variable's variant tag.
pub open spec fn tags_hold<T>(tags: Seq<bool>, doms: Seq<Seq<VariableType<T>>>) -> bool {
    forall|i: int, k: int| 0 <= i < doms.len() && 0 <= k < doms[i].len() ==> has_tag(#[trigger] doms[i][k], tags[i])
}

/// Wraps scalars as domain values.
pub open spec fn scalars<T>(vs: Seq<T>) -> Seq<VariableType<T>> {
    vs.map_values(|x: T| VariableType::Value(x))
}

/// Wraps records as domain values.
pub open spec fn records<T>(vs: Seq<Record<T>>) -> Seq<VariableType<T>> {
    vs.map_values(|x: Record<T>| VariableType::Hidden(x))
}

/// The character sequences of a list of strings.
pub open spec fn string_views(v: Seq<String>) -> Seq<Seq<char>> {
    v.map_values(|s: String| s@)
}

/// A store of variables: each name is bound to a variant tag and a domain.
pub struct Variables<T> {
    names: Vec<String>,
    hidden: Vec<bool>,
    domains: Vec<Vec<VariableType<T>>>,
}

impl<T> Variables<T> {
    /// The names, in insertion order.
    pub closed spec fn names_view(&self) -> Seq<Seq<char>> {
        string_views(self.names@)
    }

    /// The variant tag of each variable (`true` for record variables).
    pub closed spec fn tags(&self) -> Seq<bool> {
        self.hidden@
    }

    /// The current domain of each variable.
    pub closed spec fn doms(&self) -> Seq<Seq<VariableType<T>>> {
        self.domains@.map_values(|d: Vec<VariableType<T>>| d@)
    }

    /// The domain of the variable named `n`, if there is one.
    pub open spec fn dom_of(&self, n: Seq<char>) -> Option<Seq<VariableType<T>>> {
        if has_name(self.names_view(), n) {
            Some(self.doms()[index_of(self.names_view(), n)])
        } else {
            None
        }
    }

    /// Names are distinct, and every domain holds only values of its
    /// variable's variant.
    pub closed spec fn wf(&self) -> bool {
        &&& self.names@.len() == self.hidden@.len()
        &&& self.names@.len() == self.domains@.len()
        &&& distinct_names(self.names_view())
        &&& tags_hold(self.tags(), self.doms())
    }

    pub proof fn lemma_wf(&self)
        requires
            self.wf(),
        ensures
            self.names_view().len() == self.tags().len(),
            self.names_view().len() == self.doms().len(),
            distinct_names(self.names_view()),
            tags_hold(self.tags(), self.doms()),
    {
    }

    pub fn new() -> (r: Self)
        ensures
            r.wf(),
            r.names_view() == Seq::<Seq<char>>::empty(),
    {
        let r = Variables { names: Vec::new(), hidden: Vec::new(), domains: Vec::new() };
        assert(r.names_view() =~= Seq::<Seq<char>>::empty());
        assert(r.doms() =~= Seq::<Seq<VariableType<T>>>::empty());
        r
    }

    /// The position of the variable named `key`.
    pub fn find(&self, key: &String) -> (r: Option<usize>)
        requires
            self.wf(),
        ensures
            match r {
                Some(i) => i < self.names_view().len() && self.names_view()[i as int] == key@
                    && has_name(self.names_view(), key@) && index_of(self.names_view(), key@) == i,
                None => !has_name(self.names_view(), key@),
            },
    {
        let mut i: usize = 0;
        while i < self.names.len()
            invariant
                self.wf(),
                i <= self.names@.len(),
                forall|j: int| 0 <= j < i ==> self.names_view()[j] != key@,
            decreases self.names@.len() - i,
        {
            if self.names[i] == *key {
                assert(self.names_view()[i as int] == key@);
                let ghost k = index_of(self.names_view(), key@);
                assert(self.names_view()[k] == key@);
                return Some(i);
            }
            i = i + 1;
        }
        None
    }

    /// Registers `key` with the given domain and tag; an existing variable of
    /// the same tag has its domain replaced, one of the other tag is left alone.
    fn put(&mut self, key: &str, domain: Vec<VariableType<T>>, tag: bool) -> (ok: bool)
        requires
            old(self).wf(),
            forall|k: int| 0 <= k < domain@.len() ==> has_tag(#[trigger] domain@[k], tag),
        ensures
            final(self).wf(),
            ok == (old(self).dom_of(key@) is None || old(self).tags()[index_of(old(self).names_view(), key@)] == tag),
            ok ==> final(self).dom_of(key@) == Some(domain@),
            ok ==> final(self).tags()[index_of(final(self).names_view(), key@)] == tag,
            ok && old(self).dom_of(key@) is None ==> final(self).names_view() == old(self).names_view().push(key@)
                && final(self).doms() == old(self).doms().push(domain@)
                && final(self).tags() == old(self).tags().push(tag),
            ok && old(self).dom_of(key@) is Some ==> final(self).names_view() == old(self).names_view()
                && final(self).doms() == old(self).doms().update(index_of(old(self).names_view(), key@), domain@)
                && final(self).tags() == old(self).tags(),
            !ok ==> *final(self) == *old(self),
    {
        let name = key.to_owned();
        match self.find(&name) {
            Some(i) => {
                if self.hidden[i] != tag {
                    return false;
                }
                let ghost d = domain@;
                let mut dom = domain;
                self.domains.set_and_swap(i, &mut dom);
                assert(self.doms() =~= old(self).doms().update(i as int, d));
                assert(self.names_view() =~= old(self).names_view());
                true
            },
            None => {
                let ghost n = name@;
                let ghost d = domain@;
                self.names.push(name);
                self.hidden.push(tag);
                self.domains.push(domain);
                assert(self.names_view() =~= old(self).names_view().push(n));
                assert(self.doms() =~= old(self).doms().push(d));
                assert(self.names_view()[self.names_view().len() - 1] == n);
                assert(distinct_names(self.names_view())) by {
                    assert(!has_name(old(self).names_view(), n));
                }
                assert(has_name(self.names_view(), n));
                let ghost k = index_of(self.names_view(), n);
                assert(self.names_view()[k] == n);
                true
            },
        }
    }

    /// Registers a scalar variable. Fails, changing nothing, when `key` is
    /// already a record variable; an existing scalar variable gets the new domain.
    pub fn insert(&mut self, key: &str, values: Vec<T>) -> (ok: bool)
        requires
            old(self).wf(),
        ensures
            final(self).wf(),
            ok == (old(self).dom_of(key@) is None || !old(self).tags()[index_of(old(self).names_view(), key@)]),
            ok ==> final(self).dom_of(key@) == Some(scalars(values@)),
            ok ==> !final(self).tags()[index_of(final(self).names_view(), key@)],
            ok && old(self).dom_of(key@) is None ==> final(self).names_view() == old(self).names_view().push(key@)
                && final(self).tags() == old(self).tags().push(false),
            ok && old(self).dom_of(key@) is Some ==> final(self).names_view() == old(self).names_view()
                && final(self).tags() == old(self).tags(),
            ok ==> forall|n: Seq<char>| n != key@ ==> final(self).dom_of(n) == old(self).dom_of(n),
            !ok ==> *final(self) == *old(self),
    {
        let mut vals = values;
        let mut rev: Vec<T> = Vec::new();
        while vals.len() > 0
            invariant
                vals@.len() + rev@.len() == values@.len(),
                vals@ == values@.subrange(0, vals@.len() as int),
                forall|j: int| 0 <= j < rev@.len() ==> rev@[j] == values@[values@.len() - 1 - j],
            decreases vals@.len(),
        {
            let x = vals.pop().unwrap();
            rev.push(x);
        }
        let mut domain: Vec<VariableType<T>> = Vec::new();
        while rev.len() > 0
            invariant
                domain@.len() + rev@.len() == values@.len(),
                domain@ == scalars(values@.subrange(0, domain@.len() as int)),
                forall|j: int| 0 <= j < rev@.len() ==> rev@[j] == values@[values@.len() - 1 - j],
            decreases rev@.len(),
        {
            let x = rev.pop().unwrap();
            let ghost k: int = domain@.len() as int;
            domain.push(VariableType::Value(x));
            assert(domain@ =~= scalars(values@.subrange(0, k + 1)));
        }
        assert(values@.subrange(0, values@.len() as int) =~= values@);
        let ghost old_self = *self;
        let ok = self.put(key, domain, false);
        proof { self.lemma_dom_of_frame(old_self, key@, ok); }
        ok
    }

    /// Registers a record variable. Fails, changing nothing, when `key` is
    /// already a scalar variable; an existing record variable gets the new domain.
    pub fn insert_hidden(&mut self, key: &str, values: Vec<Record<T>>) -> (ok: bool)
        requires
            old(self).wf(),
        ensures
            final(self).wf(),
            ok == (old(self).dom_of(key@) is None || old(self).tags()[index_of(old(self).names_view(), key@)]),
            ok ==> final(self).dom_of(key@) == Some(records(values@)),
            ok ==> final(self).tags()[index_of(final(self).names_view(), key@)],
            ok && old(self).dom_of(key@) is None ==> final(self).names_view() == old(self).names_view().push(key@)
                && final(self).tags() == old(self).tags().push(true),
            ok && old(self).dom_of(key@) is Some ==> final(self).names_view() == old(self).names_view()
                && final(self).tags() == old(self).tags(),
            ok ==> forall|n: Seq<char>| n != key@ ==> final(self).dom_of(n) == old(self).dom_of(n),
            !ok ==> *final(self) == *old(self),
    {
        let mut vals = values;
        let mut rev: Vec<Record<T>> = Vec::new();
        while vals.len() > 0
            invariant
                vals@.len() + rev@.len() == values@.len(),
                vals@ == values@.subrange(0, vals@.len() as int),
                forall|j: int| 0 <= j < rev@.len() ==> rev@[j] == values@[values@.len() - 1 - j],
            decreases vals@.len(),
        {
            let x = vals.pop().unwrap();
            rev.push(x);
        }
        let mut domain: Vec<VariableType<T>> = Vec::new();
        while rev.len() > 0
            invariant
                domain@.len() + rev@.len() == values@.len(),
                domain@ == records(values@.subrange(0, domain@.len() as int)),
                forall|j: int| 0 <= j < rev@.len() ==> rev@[j] == values@[values@.len() - 1 - j],
            decreases rev@.len(),
        {
            let x = rev.pop().unwrap();
            let ghost k: int = domain@.len() as int;
            domain.push(VariableType::Hidden(x));
            assert(domain@ =~= records(values@.subrange(0, k + 1)));
        }
        assert(values@.subrange(0, values@.len() as int) =~= values@);
        let ghost old_self = *self;
        let ok = self.put(key, domain, true);
        proof { self.lemma_dom_of_frame(old_self, key@, ok); }
        ok
    }

    proof fn lemma_dom_of_frame(&self, prev: Self, key: Seq<char>, ok: bool)
        requires
            prev.wf(),
            self.wf(),
            ok ==> prev.dom_of(key) is None ==> self.names_view() == prev.names_view().push(key)
                && self.doms() == prev.doms().push(self.doms().last()),
            ok ==> prev.dom_of(key) is Some ==> self.names_view() == prev.names_view()
                && self.doms() == prev.doms().update(index_of(prev.names_view(), key), self.doms()[index_of(prev.names_view(), key)]),
        ensures
            ok ==> forall|n: Seq<char>| n != key ==> self.dom_of(n) == prev.dom_of(n),
    {
        if ok {
            assert forall|n: Seq<char>| n != key implies self.dom_of(n) == prev.dom_of(n) by {
                if has_name(prev.names_view(), n) {
                    let i = index_of(prev.names_view(), n);
                    assert(self.names_view()[i] == n);
                    let j = index_of(self.names_view(), n);
                    assert(self.names_view()[j] == n);
                    if prev.dom_of(key) is Some {
                        let kk = index_of(prev.names_view(), key);
                        assert(prev.names_view()[kk] == key);
                    }
                }
                if has_name(self.names_view(), n) {
                    let j = index_of(self.names_view(), n);
                    assert(self.names_view()[j] == n);
                    if prev.dom_of(key) is None {
                        assert(j < prev.names_view().len());
                        assert(prev.names_view()[j] == n);
                    } else {
                        assert(prev.names_view()[j] == n);
                    }
                }
            }
        }
    }
}


/// Every value kept by a filter comes from the filtered sequence.
pub proof fn lemma_filter_from<V>(s: Seq<V>, f: spec_fn(V) -> bool)
    ensures
        forall|i: int| 0 <= i < s.filter(f).len() ==> s.contains(#[trigger] s.filter(f)[i]),
        s.filter(f).len() <= s.len(),
    decreases s.len(),
{
    reveal_with_fuel(Seq::filter, 1);
    if s.len() > 0 {
        let t = s.drop_last();
        lemma_filter_from(t, f);
        assert forall|i: int| 0 <= i < s.filter(f).len() implies s.contains(#[trigger] s.filter(f)[i]) by {
            if i < t.filter(f).len() {
                let j = choose|j: int| 0 <= j < t.len() && t[j] == t.filter(f)[i];
                assert(s[j] == t[j]);
            } else {
                assert(s[s.len() - 1] == s.last());
            }
        }
    }
}

/// Keeps, in order, the values whose mark is set.
fn retain_marked<V>(d: Vec<V>, keep: &Vec<bool>, Ghost(f): Ghost<spec_fn(V) -> bool>) -> (r: Vec<V>)
    requires
        keep@.len() == d@.len(),
        forall|k: int| 0 <= k < d@.len() ==> keep@[k] == f(d@[k]),
    ensures
        r@ == d@.filter(f),
{
    let ghost orig = d@;
    let n = d.len();
    let mut d = d;
    let mut rev: Vec<V> = Vec::new();
    while d.len() > 0
        invariant
            d@.len() + rev@.len() == n,
            n == orig.len(),
            d@ == orig.subrange(0, d@.len() as int),
            forall|j: int| 0 <= j < rev@.len() ==> rev@[j] == orig[n - 1 - j],
        decreases d@.len(),
    {
        let x = d.pop().unwrap();
        rev.push(x);
    }
    let mut r: Vec<V> = Vec::new();
    let mut k: usize = 0;
    assert(orig.subrange(0, 0) =~= Seq::<V>::empty());
    while rev.len() > 0
        invariant
            k + rev@.len() == n,
            n == orig.len(),
            keep@.len() == n,
            forall|i: int| 0 <= i < n ==> keep@[i] == f(orig[i]),
            forall|j: int| 0 <= j < rev@.len() ==> rev@[j] == orig[n - 1 - j],
            r@ == orig.subrange(0, k as int).filter(f),
        decreases rev@.len(),
    {
        let x = rev.pop().unwrap();
        assert(x == orig[k as int]);
        let ghost pre = orig.subrange(0, k as int + 1);
        assert(pre.drop_last() =~= orig.subrange(0, k as int));
        assert(pre.last() == x);
        proof { reveal_with_fuel(Seq::filter, 1); }
        assert(pre.filter(f) == if f(x) { orig.subrange(0, k as int).filter(f).push(x) } else { orig.subrange(0, k as int).filter(f) });
        if keep[k] {
            r.push(x);
        }
        k = k + 1;
    }
    assert(orig.subrange(0, n as int) =~= orig);
    r
}

impl<T> Variables<T> {
    /// The number of variables.
    pub fn len(&self) -> (r: usize)
        requires
            self.wf(),
        ensures
            r == self.names_view().len(),
    {
        self.names.len()
    }

    /// The name of the variable at position `i`.
    pub fn name_at(&self, i: usize) -> (r: &String)
        requires
            self.wf(),
            i < self.names_view().len(),
        ensures
            r@ == self.names_view()[i as int],
    {
        &self.names[i]
    }

    /// The domain of the variable at position `i`.
    pub fn domain_at(&self, i: usize) -> (r: &Vec<VariableType<T>>)
        requires
            self.wf(),
            i < self.names_view().len(),
        ensures
            r@ == self.doms()[i as int],
    {
        &self.domains[i]
    }

    /// The domain of the variable named `key`, if there is one.
    pub fn get(&self, key: &str) -> (r: Option<&Vec<VariableType<T>>>)
        requires
            self.wf(),
        ensures
            match r {
                Some(d) => self.dom_of(key@) == Some(d@),
                None => self.dom_of(key@) is None,
            },
    {
        let name = key.to_owned();
        match self.find(&name) {
            Some(i) => Some(&self.domains[i]),
            None => None,
        }
    }

    /// All names, in insertion order.
    pub fn names(&self) -> (r: Vec<String>)
        requires
            self.wf(),
        ensures
            r@.len() == self.names_view().len(),
            forall|j: int| 0 <= j < r@.len() ==> #[trigger] r@[j]@ == self.names_view()[j],
    {
        let mut r: Vec<String> = Vec::new();
        let mut i: usize = 0;
        while i < self.names.len()
            invariant
                self.wf(),
                i <= self.names@.len(),
                r@.len() == i,
                forall|j: int| 0 <= j < i ==> #[trigger] r@[j]@ == self.names_view()[j],
            decreases self.names@.len() - i,
        {
            let s = self.names[i].clone();
            r.push(s);
            i = i + 1;
        }
        r
    }

    /// Keeps, in order, the values of domain `i` whose mark is set.
    pub(crate) fn restrict(&mut self, i: usize, keep: &Vec<bool>, Ghost(f): Ghost<spec_fn(VariableType<T>) -> bool>)
        requires
            old(self).wf(),
            i < old(self).names_view().len(),
            keep@.len() == old(self).doms()[i as int].len(),
            forall|k: int| 0 <= k < keep@.len() ==> keep@[k] == f(old(self).doms()[i as int][k]),
        ensures
            final(self).wf(),
            final(self).names_view() == old(self).names_view(),
            final(self).tags() == old(self).tags(),
            final(self).doms() == old(self).doms().update(i as int, old(self).doms()[i as int].filter(f)),
    {
        let mut d: Vec<VariableType<T>> = Vec::new();
        self.domains.set_and_swap(i, &mut d);
        let ghost od = d@;
        assert(od == old(self).doms()[i as int]);
        let mut kept = retain_marked(d, keep, Ghost(f));
        proof { broadcast use vstd::seq_lib::group_filter_ensures; }
        self.domains.set_and_swap(i, &mut kept);
        assert(self.doms() =~= old(self).doms().update(i as int, od.filter(f)));
        assert(self.names_view() =~= old(self).names_view());
        assert forall|a: int, k: int| 0 <= a < self.doms().len() && 0 <= k < self.doms()[a].len()
            implies has_tag(#[trigger] self.doms()[a][k], self.tags()[a]) by {
            if a == i {
                broadcast use vstd::seq_lib::group_filter_ensures;
                assert(self.doms()[a] == od.filter(f));
                let v = self.doms()[a][k];
                assert(od.filter(f)[k] == v);
                lemma_filter_from(od, f);
                assert(od.contains(v));
                let m = choose|m: int| 0 <= m < od.len() && od[m] == v;
                assert(has_tag(old(self).doms()[a][m], old(self).tags()[a]));
            }
        }
    }
}

/// The (name, domain) views of a list of borrowed entries.
pub open spec fn entry_views<'a, T>(v: Seq<(&'a String, &'a Vec<VariableType<T>>)>) -> Seq<(Seq<char>, Seq<VariableType<T>>)> {
    v.map_values(|e: (&'a String, &'a Vec<VariableType<T>>)| (e.0@, e.1@))
}

/// The scalar payload of a value (meaningful for scalars).
pub open spec fn scalar_of<T>(v: VariableType<T>) -> T {
    v->Value_0
}

/// The record payload of a value (meaningful for records).
pub open spec fn record_of<T>(v: VariableType<T>) -> Record<T> {
    v->Hidden_0
}

impl<T> Variables<T> {
    /// The (name, domain) pairs of the first `k` variables whose tag is `hidden`.
    pub open spec fn tagged(&self, hidden: bool, k: int) -> Seq<(Seq<char>, Seq<VariableType<T>>)>
        decreases k,
    {
        if k <= 0 {
            Seq::empty()
        } else {
            let prev = self.tagged(hidden, k - 1);
            if self.tags()[k - 1] == hidden {
                prev.push((self.names_view()[k - 1], self.doms()[k - 1]))
            } else {
                prev
            }
        }
    }

    fn entries_tagged(&self, hidden: bool) -> (r: Vec<(&String, &Vec<VariableType<T>>)>)
        requires
            self.wf(),
        ensures
            entry_views(r@) == self.tagged(hidden, self.names_view().len() as int),
    {
        let mut r: Vec<(&String, &Vec<VariableType<T>>)> = Vec::new();
        let mut i: usize = 0;
        assert(entry_views(r@) =~= self.tagged(hidden, 0));
        while i < self.names.len()
            invariant
                self.wf(),
                i <= self.names@.len(),
                entry_views(r@) == self.tagged(hidden, i as int),
            decreases self.names@.len() - i,
        {
            if self.hidden[i] == hidden {
                let ghost prev = r@;
                r.push((&self.names[i], &self.domains[i]));
                assert(entry_views(r@) =~= entry_views(prev).push((self.names_view()[i as int], self.doms()[i as int])));
            }
            i = i + 1;
        }
        r
    }

    /// The scalar variables with their domains, in insertion order.
    pub fn iter(&self) -> (r: Vec<(&String, &Vec<VariableType<T>>)>)
        requires
            self.wf(),
        ensures
            entry_views(r@) == self.tagged(false, self.names_view().len() as int),
    {
        self.entries_tagged(false)
    }

    /// The record variables with their domains, in insertion order.
    pub fn iter_hidden(&self) -> (r: Vec<(&String, &Vec<VariableType<T>>)>)
        requires
            self.wf(),
        ensures
            entry_views(r@) == self.tagged(true, self.names_view().len() as int),
    {
        self.entries_tagged(true)
    }

    proof fn lemma_tagged_entries(&self, hidden: bool, k: int)
        requires
            self.wf(),
            0 <= k <= self.names_view().len(),
        ensures
            forall|j: int, m: int| 0 <= j < self.tagged(hidden, k).len() && 0 <= m < self.tagged(hidden, k)[j].1.len()
                ==> has_tag(#[trigger] self.tagged(hidden, k)[j].1[m], hidden),
        decreases k,
    {
        if k > 0 {
            self.lemma_tagged_entries(hidden, k - 1);
            let t = self.tagged(hidden, k);
            let prev = self.tagged(hidden, k - 1);
            assert forall|j: int, m: int| 0 <= j < t.len() && 0 <= m < t[j].1.len()
                implies has_tag(#[trigger] t[j].1[m], hidden) by {
                if j < prev.len() {
                    assert(t[j] == prev[j]);
                    assert(has_tag(prev[j].1[m], hidden));
                } else {
                    assert(t[j] == (self.names_view()[k - 1], self.doms()[k - 1]));
                    assert(has_tag(self.doms()[k - 1][m], self.tags()[k - 1]));
                }
            }
        }
    }

    /// The scalar variables with their values, in insertion order.
    pub fn values(&self) -> (r: Vec<(&String, Vec<&T>)>)
        requires
            self.wf(),
        ensures
            r@.len() == self.tagged(false, self.names_view().len() as int).len(),
            forall|j: int| 0 <= j < r@.len() ==> {
                let e = self.tagged(false, self.names_view().len() as int)[j];
                &&& (#[trigger] r@[j]).0@ == e.0
                &&& r@[j].1@.len() == e.1.len()
                &&& forall|k: int| 0 <= k < e.1.len() ==> *r@[j].1@[k] == scalar_of(e.1[k])
            },
    {
        let entries = self.entries_tagged(false);
        proof { self.lemma_tagged_entries(false, self.names_view().len() as int); }
        let ghost t = self.tagged(false, self.names_view().len() as int);
        let mut r: Vec<(&String, Vec<&T>)> = Vec::new();
        let mut j: usize = 0;
        while j < entries.len()
            invariant
                j <= entries@.len(),
                entry_views(entries@) == t,
                self.wf(),
                t == self.tagged(false, self.names_view().len() as int),
                forall|a: int, m: int| 0 <= a < t.len() && 0 <= m < t[a].1.len() ==> has_tag(#[trigger] t[a].1[m], false),
                r@.len() == j,
                forall|m: int| 0 <= m < j ==> {
                    let e = t[m];
                    &&& (#[trigger] r@[m]).0@ == e.0
                    &&& r@[m].1@.len() == e.1.len()
                    &&& forall|k: int| 0 <= k < e.1.len() ==> *r@[m].1@[k] == scalar_of(e.1[k])
                },
            decreases entries@.len() - j,
        {
            let (name, dom) = entries[j];
            assert(t[j as int] == (name@, dom@));
            let mut out: Vec<&T> = Vec::new();
            let mut k: usize = 0;
            while k < dom.len()
                invariant
                    k <= dom@.len(),
                    dom@ == t[j as int].1,
                    j < t.len(),
                    forall|a: int, m: int| 0 <= a < t.len() && 0 <= m < t[a].1.len() ==> has_tag(#[trigger] t[a].1[m], false),
                    out@.len() == k,
                    forall|m: int| 0 <= m < k ==> *out@[m] == scalar_of(dom@[m]),
                decreases dom@.len() - k,
            {
                assert(has_tag(t[j as int].1[k as int], false));
                match &dom[k] {
                    VariableType::Value(x) => out.push(x),
                    VariableType::Hidden(_) => {},
                }
                k = k + 1;
            }
            r.push((name, out));
            j = j + 1;
        }
        r
    }

    /// The record variables with their records, in insertion order.
    pub fn hidden_values(&self) -> (r: Vec<(&String, Vec<&Record<T>>)>)
        requires
            self.wf(),
        ensures
            r@.len() == self.tagged(true, self.names_view().len() as int).len(),
            forall|j: int| 0 <= j < r@.len() ==> {
                let e = self.tagged(true, self.names_view().len() as int)[j];
                &&& (#[trigger] r@[j]).0@ == e.0
                &&& r@[j].1@.len() == e.1.len()
                &&& forall|k: int| 0 <= k < e.1.len() ==> *r@[j].1@[k] == record_of(e.1[k])
            },
    {
        let entries = self.entries_tagged(true);
        proof { self.lemma_tagged_entries(true, self.names_view().len() as int); }
        let ghost t = self.tagged(true, self.names_view().len() as int);
        let ghost hid = true;
        let mut r: Vec<(&String, Vec<&Record<T>>)> = Vec::new();
        let mut j: usize = 0;
        while j < entries.len()
            invariant
                j <= entries@.len(),
                entry_views(entries@) == t,
                self.wf(),
                t == self.tagged(true, self.names_view().len() as int),
                hid == true,
                forall|a: int, m: int| 0 <= a < t.len() && 0 <= m < t[a].1.len() ==> has_tag(#[trigger] t[a].1[m], hid),
                r@.len() == j,
                forall|m: int| 0 <= m < j ==> {
                    let e = t[m];
                    &&& (#[trigger] r@[m]).0@ == e.0
                    &&& r@[m].1@.len() == e.1.len()
                    &&& forall|k: int| 0 <= k < e.1.len() ==> *r@[m].1@[k] == record_of(e.1[k])
                },
            decreases entries@.len() - j,
        {
            let (name, dom) = entries[j];
            assert(t[j as int] == (name@, dom@));
            let mut out: Vec<&Record<T>> = Vec::new();
            let mut k: usize = 0;
            while k < dom.len()
                invariant
                    k <= dom@.len(),
                    dom@ == t[j as int].1,
                    j < t.len(),
                    forall|a: int, m: int| 0 <= a < t.len() && 0 <= m < t[a].1.len() ==> has_tag(#[trigger] t[a].1[m], hid),
                    hid == true,
                    out@.len() == k,
                    forall|m: int| 0 <= m < k ==> *out@[m] == record_of(dom@[m]),
                decreases dom@.len() - k,
            {
                assert(has_tag(t[j as int].1[k as int], hid));
                match &dom[k] {
                    VariableType::Hidden(x) => out.push(x),
                    VariableType::Value(_) => {},
                }
                k = k + 1;
            }
            r.push((name, out));
            j = j + 1;
        }
        r
    }

    /// Replaces the domain of `key` with `values`. Fails, changing nothing,
    /// when `key` is unknown or a value is not of the variable's variant.
    pub fn replace(&mut self, key: &str, values: Vec<VariableType<T>>) -> (ok: bool)
        requires
            old(self).wf(),
        ensures
            final(self).wf(),
            ok == (old(self).dom_of(key@) is Some && forall|k: int| 0 <= k < values@.len()
                ==> has_tag(#[trigger] values@[k], old(self).tags()[index_of(old(self).names_view(), key@)])),
            ok ==> final(self).names_view() == old(self).names_view()
                && final(self).tags() == old(self).tags()
                && final(self).doms() == old(self).doms().update(index_of(old(self).names_view(), key@), values@),
            !ok ==> *final(self) == *old(self),
    {
        let name = key.to_owned();
        match self.find(&name) {
            Some(i) => {
                let tag = self.hidden[i];
                let mut k: usize = 0;
                while k < values.len()
                    invariant
                        k <= values@.len(),
                        *self == *old(self),
                        self.wf(),
                        i < self.names_view().len(),
                        has_name(self.names_view(), key@),
                        index_of(self.names_view(), key@) == i,
                        tag == self.tags()[i as int],
                        forall|m: int| 0 <= m < k ==> has_tag(#[trigger] values@[m], tag),
                    decreases values@.len() - k,
                {
                    let good = match &values[k] {
                        VariableType::Value(_) => !tag,
                        VariableType::Hidden(_) => tag,
                    };
                    if !good {
                        return false;
                    }
                    k = k + 1;
                }
                let ghost d = values@;
                let mut dom = values;
                self.domains.set_and_swap(i, &mut dom);
                assert(self.doms() =~= old(self).doms().update(i as int, d));
                assert(self.names_view() =~= old(self).names_view());
                true
            },
            None => false,
        }
    }
}

} // verus!
