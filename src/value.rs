use vstd::prelude::*;

verus! {

/// The entry bound to `label` in a list of labelled entries; a later entry
/// overrides an earlier one with the same label.
pub open spec fn last_match<X>(s: Seq<(Seq<char>, X)>, label: Seq<char>) -> Option<X>
    decreases s.len(),
{
    if s.len() == 0 {
        None
    } else if s.last().0 == label {
        Some(s.last().1)
    } else {
        last_match(s.drop_last(), label)
    }
}

/// A small labelled tuple: a finite map from string labels to scalars.
pub struct Record<T> {
    entries: Vec<(String, T)>,
}

impl<T> Record<T> {
    /// The entries in insertion order, labels as character sequences.
    pub closed spec fn entries(&self) -> Seq<(Seq<char>, T)> {
        self.entries@.map_values(|e: (String, T)| (e.0@, e.1))
    }

    /// The value bound to `label`, if any.
    pub open spec fn lookup(&self, label: Seq<char>) -> Option<T> {
        last_match(self.entries(), label)
    }

    pub fn new() -> (r: Self)
        ensures
            r.entries() == Seq::<(Seq<char>, T)>::empty(),
            forall|l: Seq<char>| r.lookup(l) is None,
    {
        let r = Record { entries: Vec::new() };
        assert(r.entries() =~= Seq::<(Seq<char>, T)>::empty());
        r
    }

    /// Binds `label` to `v`, replacing any earlier binding of that label.
    pub fn insert(&mut self, label: String, v: T)
        ensures
            final(self).entries() == old(self).entries().push((label@, v)),
            final(self).lookup(label@) == Some(v),
            forall|l: Seq<char>| l != label@ ==> final(self).lookup(l) == old(self).lookup(l),
    {
        let ghost lab = label@;
        self.entries.push((label, v));
        assert(self.entries() =~= old(self).entries().push((lab, v)));
        assert(self.entries().drop_last() =~= old(self).entries());
    }

    /// The value bound to `label`, if any.
    pub fn get(&self, label: &str) -> (r: Option<&T>)
        ensures
            match r {
                Some(x) => self.lookup(label@) == Some(*x),
                None => self.lookup(label@) is None,
            },
    {
        let key = label.to_owned();
        self.get_key(&key)
    }

    /// The value bound to `key`, if any.
    pub fn get_key(&self, key: &String) -> (r: Option<&T>)
        ensures
            match r {
                Some(x) => self.lookup(key@) == Some(*x),
                None => self.lookup(key@) is None,
            },
    {
        let ghost label = key@;
        let mut i: usize = self.entries.len();
        assert(self.entries().subrange(0, i as int) =~= self.entries());
        while i > 0
            invariant
                i <= self.entries@.len(),
                last_match(self.entries(), label) == last_match(
                    self.entries().subrange(0, i as int),
                    label,
                ),
                key@ == label,
            decreases i,
        {
            let ghost pre = self.entries().subrange(0, i as int);
            assert(pre.drop_last() =~= self.entries().subrange(0, i - 1));
            if self.entries[i - 1].0 == *key {
                return Some(&self.entries[i - 1].1);
            }
            i = i - 1;
        }
        None
    }
}

/// `b` has the labels of `a`, in order, each with a clone of its value.
pub open spec fn copy_of<T: Clone>(a: Record<T>, b: Record<T>) -> bool {
    &&& b.entries().len() == a.entries().len()
    &&& forall|i: int| 0 <= i < a.entries().len() ==> (#[trigger] b.entries()[i]).0 == a.entries()[i].0
        && cloned(a.entries()[i].1, b.entries()[i].1)
}

impl<T: Clone> Record<T> {
    /// A copy of the record.
    pub fn duplicate(&self) -> (r: Record<T>)
        ensures
            copy_of(*self, r),
    {
        let mut entries: Vec<(String, T)> = Vec::new();
        let mut i: usize = 0;
        while i < self.entries.len()
            invariant
                i <= self.entries@.len(),
                entries@.len() == i,
                forall|j: int| 0 <= j < i ==> (#[trigger] entries@[j]).0@ == self.entries@[j].0@
                    && cloned(self.entries@[j].1, entries@[j].1),
            decreases self.entries@.len() - i,
        {
            let label = self.entries[i].0.clone();
            let v = self.entries[i].1.clone();
            entries.push((label, v));
            i = i + 1;
        }
        let r = Record { entries };
        assert forall|j: int| 0 <= j < self.entries().len() implies (#[trigger] r.entries()[j]).0 == self.entries()[j].0
            && cloned(self.entries()[j].1, r.entries()[j].1) by {
            assert(r.entries()[j] == (r.entries@[j].0@, r.entries@[j].1));
            assert(self.entries()[j] == (self.entries@[j].0@, self.entries@[j].1));
        }
        r
    }
}

/// A domain value: a scalar, or a record of scalars (a hidden variable's value).
pub enum VariableType<T> {
    Value(T),
    Hidden(Record<T>),
}

impl<T> VariableType<T> {
    /// The scalar payload, when this is a scalar.
    pub fn value(&self) -> (r: Option<&T>)
        ensures
            match *self {
                VariableType::Value(x) => r == Some(&x),
                VariableType::Hidden(_) => r is None,
            },
    {
        match self {
            VariableType::Value(x) => Some(x),
            VariableType::Hidden(_) => None,
        }
    }

    /// The record payload, when this is a record.
    pub fn hidden(&self) -> (r: Option<&Record<T>>)
        ensures
            match *self {
                VariableType::Hidden(h) => r == Some(&h),
                VariableType::Value(_) => r is None,
            },
    {
        match self {
            VariableType::Hidden(h) => Some(h),
            VariableType::Value(_) => None,
        }
    }
}

impl<T: Clone> VariableType<T> {
    /// A copy of the scalar payload, when this is a scalar.
    pub fn value_ref(&self) -> (r: Option<T>)
        ensures
            match *self {
                VariableType::Value(x) => r is Some && cloned(x, r->0),
                VariableType::Hidden(_) => r is None,
            },
    {
        match self {
            VariableType::Value(x) => Some(x.clone()),
            VariableType::Hidden(_) => None,
        }
    }

    /// A copy of the record payload, when this is a record.
    pub fn hidden_ref(&self) -> (r: Option<Record<T>>)
        ensures
            match *self {
                VariableType::Hidden(h) => r is Some && copy_of(h, r->0),
                VariableType::Value(_) => r is None,
            },
    {
        match self {
            VariableType::Hidden(h) => Some(h.duplicate()),
            VariableType::Value(_) => None,
        }
    }
}

} // verus!
