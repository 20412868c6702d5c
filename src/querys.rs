use vstd::prelude::*;

use crate::err::Error;

verus! {

/// Key-value pairs of a query, where a key is given a value at most once.
#[derive(Debug)]
pub struct Querys {
    content: Vec<(String, String)>,
}

impl Querys {
    /// The pairs, in the order in which they were inserted.
    pub closed spec fn entries(&self) -> Seq<(Seq<char>, Seq<char>)> {
        self.content@.map_values(|p: (String, String)| (p.0@, p.1@))
    }

    pub open spec fn has_key(&self, k: Seq<char>) -> bool {
        exists|i: int| 0 <= i < self.entries().len() && #[trigger] self.entries()[i].0 == k
    }

    pub fn new() -> (r: Self)
        ensures
            r.entries().len() == 0,
    {
        let r = Querys { content: Vec::new() };
        assert(r.entries() =~= Seq::<(Seq<char>, Seq<char>)>::empty());
        r
    }

    /// The value given to `key`.
    pub fn get(&self, key: &str) -> (r: Option<&String>)
        ensures
            match r {
                Some(v) => exists|i: int|
                    0 <= i < self.entries().len() && #[trigger] self.entries()[i] == (key@, v@)
                        && forall|j: int| 0 <= j < i ==> self.entries()[j].0 != key@,
                None => !self.has_key(key@),
            },
    {
        let k = String::from_str(key);
        let mut i: usize = 0;
        while i < self.content.len()
            invariant
                k@ == key@,
                i <= self.content@.len(),
                forall|j: int| 0 <= j < i ==> self.entries()[j].0 != key@,
            decreases self.content@.len() - i,
        {
            if self.content[i].0 == k {
                assert(self.entries()[i as int] == (key@, self.content@[i as int].1@));
                return Some(&self.content[i].1);
            }
            i = i + 1;
        }
        None
    }

    /// Gives `key` the value `value`, unless `key` already has one.
    pub fn insert(&mut self, key: String, value: String) -> (r: Result<(), Error>)
        ensures
            old(self).has_key(key@) ==> r == Err::<(), Error>(Error::QueryKeyAlreadyExists)
                && final(self).entries() == old(self).entries(),
            !old(self).has_key(key@) ==> r is Ok && final(self).entries() == old(self).entries().push(
                (key@, value@),
            ),
    {
        let mut i: usize = 0;
        while i < self.content.len()
            invariant
                *self == *old(self),
                i <= self.content@.len(),
                forall|j: int| 0 <= j < i ==> self.entries()[j].0 != key@,
            decreases self.content@.len() - i,
        {
            if self.content[i].0 == key {
                assert(self.entries()[i as int].0 == key@);
                return Err(Error::QueryKeyAlreadyExists);
            }
            i = i + 1;
        }
        let ghost k = key@;
        let ghost v = value@;
        self.content.push((key, value));
        assert(self.entries() =~= old(self).entries().push((k, v)));
        Ok(())
    }

    /// Whether `other` holds the pair `(k, v)`.
    fn holds(&self, k: &String, v: &String) -> (r: bool)
        ensures
            r == self.entries().contains((k@, v@)),
    {
        let mut i: usize = 0;
        while i < self.content.len()
            invariant
                i <= self.content@.len(),
                forall|j: int| 0 <= j < i ==> self.entries()[j] != (k@, v@),
            decreases self.content@.len() - i,
        {
            if self.content[i].0 == *k && self.content[i].1 == *v {
                assert(self.entries()[i as int] == (k@, v@));
                return true;
            }
            i = i + 1;
        }
        false
    }
}

/// Same number of pairs, and each pair of `a` is one of `b`.
pub open spec fn same_entries(a: Seq<(Seq<char>, Seq<char>)>, b: Seq<(Seq<char>, Seq<char>)>) -> bool {
    a.len() == b.len() && forall|i: int| 0 <= i < a.len() ==> b.contains(#[trigger] a[i])
}

impl PartialEq for Querys {
    fn eq(&self, other: &Self) -> (r: bool) {
        if self.content.len() != other.content.len() {
            return false;
        }
        let mut i: usize = 0;
        while i < self.content.len()
            invariant
                self.content@.len() == other.content@.len(),
                i <= self.content@.len(),
                forall|j: int| 0 <= j < i ==> other.entries().contains(#[trigger] self.entries()[j]),
            decreases self.content@.len() - i,
        {
            if !other.holds(&self.content[i].0, &self.content[i].1) {
                assert(self.entries()[i as int] == (self.content@[i as int].0@, self.content@[i as int].1@));
                return false;
            }
            i = i + 1;
        }
        true
    }
}

impl vstd::std_specs::cmp::PartialEqSpecImpl for Querys {
    open spec fn obeys_eq_spec() -> bool {
        true
    }

    open spec fn eq_spec(&self, other: &Self) -> bool {
        same_entries(self.entries(), other.entries())
    }
}

impl Default for Querys {
    fn default() -> (r: Self)
        ensures
            r.entries().len() == 0,
    {
        Querys::new()
    }
}

} // verus!
