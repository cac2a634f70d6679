//! A small table from names to values that keeps the order of insertion.

use vstd::prelude::*;
use vstd::string::StringExecFns;

verus! {

/// Index of the first of `names` that reads `name`, or `names.len()`.
pub open spec fn position_of(names: Seq<String>, name: Seq<char>) -> int
    decreases names.len(),
{
    if names.len() == 0 {
        0
    } else if names[0]@ == name {
        0
    } else {
        1 + position_of(names.drop_first(), name)
    }
}

/// No two of the names read the same.
pub open spec fn distinct(names: Seq<String>) -> bool {
    forall|i: int, j: int|
        0 <= i < j < names.len() ==> (#[trigger] names[i])@ != (#[trigger] names[j])@
}

pub proof fn lemma_position_of(names: Seq<String>, name: Seq<char>)
    ensures
        0 <= position_of(names, name) <= names.len(),
        position_of(names, name) < names.len() ==> names[position_of(names, name)]@ == name,
        forall|j: int| 0 <= j < position_of(names, name) ==> (#[trigger] names[j])@ != name,
    decreases names.len(),
{
    if names.len() > 0 && names[0]@ != name {
        lemma_position_of(names.drop_first(), name);
        assert forall|j: int| 0 <= j < position_of(names, name) implies (#[trigger] names[j])@
            != name by {
            if j > 0 {
                assert(names.drop_first()[j - 1] == names[j]);
            }
        }
    }
}

pub proof fn lemma_position_is(names: Seq<String>, name: Seq<char>, k: int)
    requires
        0 <= k <= names.len(),
        forall|j: int| 0 <= j < k ==> (#[trigger] names[j])@ != name,
        k < names.len() ==> names[k]@ == name,
    ensures
        position_of(names, name) == k,
{
    lemma_position_of(names, name);
    let f = position_of(names, name);
    if f < k {
    } else if f > k {
    }
}

/// Where names are distinct, each stands at its own position.
pub proof fn lemma_position_of_entry(names: Seq<String>, k: int)
    requires
        distinct(names),
        0 <= k < names.len(),
    ensures
        position_of(names, names[k]@) == k,
{
    lemma_position_is(names, names[k]@, k);
}

/// Values stored under names, in the order in which the names came.
pub struct Table<T> {
    pub names: Vec<String>,
    pub values: Vec<T>,
}

impl<T> Table<T> {
    /// Every name has its value, and no name occurs twice.
    pub open spec fn wf(&self) -> bool {
        &&& self.names.len() == self.values.len()
        &&& distinct(self.names@)
    }

    /// Index of the entry called `name`, or the number of entries.
    pub open spec fn position(&self, name: Seq<char>) -> int {
        position_of(self.names@, name)
    }

    /// Whether an entry is called `name`.
    pub open spec fn has(&self, name: Seq<char>) -> bool {
        self.position(name) < self.names.len()
    }

    pub fn new() -> (table: Self)
        ensures
            table.wf(),
            table.names@.len() == 0,
    {
        Table { names: Vec::new(), values: Vec::new() }
    }

    /// Number of entries.
    pub fn len(&self) -> (n: usize)
        ensures
            n == self.names.len(),
    {
        self.names.len()
    }

    /// Index of the entry called `name`.
    pub fn find(&self, name: &str) -> (r: Option<usize>)
        ensures
            match r {
                Some(k) => self.has(name@) && k == self.position(name@),
                None => !self.has(name@),
            },
    {
        let key = String::from_str(name);
        let mut k: usize = 0;
        while k < self.names.len()
            invariant
                k <= self.names.len(),
                key@ == name@,
                forall|j: int| 0 <= j < k ==> (#[trigger] self.names[j])@ != name@,
            decreases self.names.len() - k,
        {
            if self.names[k] == key {
                proof {
                    lemma_position_is(self.names@, name@, k as int);
                }
                return Some(k);
            }
            k += 1;
        }
        proof {
            lemma_position_is(self.names@, name@, k as int);
        }
        None
    }

    /// Whether an entry is called `name`.
    pub fn contains_key(&self, name: &str) -> (b: bool)
        ensures
            b == self.has(name@),
    {
        self.find(name).is_some()
    }

    /// Stores `value` under `name`: in place of the value that was there, or
    /// else as a new last entry.
    pub fn insert(&mut self, name: String, value: T)
        requires
            old(self).wf(),
        ensures
            final(self).wf(),
            final(self).has(name@),
            final(self).position(name@) == old(self).position(name@),
            final(self).values@[old(self).position(name@)] == value,
            old(self).has(name@) ==> final(self).names@ == old(self).names@ && final(self).values@
                == old(self).values@.update(old(self).position(name@), value),
            !old(self).has(name@) ==> final(self).names@ == old(self).names@.push(name) && final(self).values@ == old(self).values@.push(value),
            forall|other: Seq<char>|
                other != name@ ==> final(self).has(other) == old(self).has(other) && (old(self).has(other) ==> #[trigger] final(self).position(other) == old(self).position(
                    other,
                )),
    {
        proof {
            lemma_position_of(self.names@, name@);
        }
        match self.find(name.as_str()) {
            Some(k) => {
                self.values.set(k, value);
            },
            None => {
                self.names.push(name);
                self.values.push(value);
            },
        }
        proof {
            let p = old(self).position(name@);
            lemma_position_is(self.names@, name@, p);
            assert forall|other: Seq<char>| other != name@ implies final(self).has(other) == old(self).has(other) && (old(self).has(other) ==> #[trigger] final(self).position(other)
                == old(self).position(other)) by {
                lemma_position_of(old(self).names@, other);
                let q = old(self).position(other);
                if q < old(self).names@.len() {
                    lemma_position_is(self.names@, other, q);
                } else {
                    lemma_position_of(self.names@, other);
                    let r = self.position(other);
                    if r < old(self).names@.len() {
                        assert(old(self).names@[r]@ == other);
                    }
                }
            }
        }
    }
}

} // verus!
