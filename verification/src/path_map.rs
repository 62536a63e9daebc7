//! A map from paths to values. Paths with the same parts are one.

use crate::paths;
use crate::text_map::TextMap;
use vstd::prelude::*;

verus! {

/// Values by path, which stands for itself as it is when tidied.
pub struct PathMap<V> {
    values: TextMap<V>,
}

impl<V> View for PathMap<V> {
    type V = Map<Seq<char>, V>;

    closed spec fn view(&self) -> Map<Seq<char>, V> {
        self.values@
    }
}

impl<V> PathMap<V> {
    pub closed spec fn wf(self) -> bool {
        self.values.wf()
    }

    /// A map holds finitely many values.
    pub proof fn lemma_finite(self)
        requires
            self.wf(),
        ensures
            self@.dom().finite(),
    {
        self.values.lemma_finite();
    }

    pub fn new() -> (r: PathMap<V>)
        ensures
            r.wf(),
            r@ == Map::<Seq<char>, V>::empty(),
    {
        PathMap { values: TextMap::new() }
    }

    pub fn get(&self, path: &str) -> (r: Option<&V>)
        requires
            self.wf(),
        ensures
            ({
                let key = paths::tidied(path@);
                match r {
                    Some(v) => self@.contains_key(key) && *v == self@[key],
                    None => !self@.contains_key(key),
                }
            }),
    {
        self.values.get(paths::tidy(path).as_str())
    }

    pub fn contains_key(&self, path: &str) -> (r: bool)
        requires
            self.wf(),
        ensures
            r == self@.contains_key(paths::tidied(path@)),
    {
        self.values.contains_key(paths::tidy(path).as_str())
    }

    /// Stores a value; one that the path had before is dropped.
    pub fn insert(&mut self, path: &str, value: V)
        requires
            old(self).wf(),
        ensures
            final(self).wf(),
            final(self)@ == old(self)@.insert(paths::tidied(path@), value),
    {
        self.values.insert(paths::tidy(path), value);
    }

    /// The value of a path, to be changed in place.
    pub fn get_mut(&mut self, path: &str) -> (r: Option<&mut V>)
        requires
            old(self).wf(),
        ensures
            final(self).wf(),
            ({
                let key = paths::tidied(path@);
                match r {
                    Some(v) => {
                        &&& old(self)@.contains_key(key)
                        &&& *v == old(self)@[key]
                        &&& final(self)@ == old(self)@.insert(key, *final(v))
                    },
                    None => !old(self)@.contains_key(key) && final(self)@ == old(self)@,
                }
            }),
    {
        self.values.get_mut(paths::tidy(path).as_str())
    }

    /// Takes the value of a path out of the map.
    pub fn take(&mut self, path: &str) -> (r: Option<V>)
        requires
            old(self).wf(),
        ensures
            final(self).wf(),
            ({
                let key = paths::tidied(path@);
                match r {
                    Some(v) => {
                        &&& old(self)@.contains_key(key)
                        &&& v == old(self)@[key]
                        &&& final(self)@ == old(self)@.remove(key)
                    },
                    None => !old(self)@.contains_key(key) && final(self)@ == old(self)@,
                }
            }),
    {
        self.values.take(paths::tidy(path).as_str())
    }
}

} // verus!
