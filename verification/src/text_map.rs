//! A map from texts to values that can be changed in place and taken out.

use vstd::hash_map::StringHashMap;
use vstd::prelude::*;

verus! {

/// Values by text. A hash map leads from a text to the slot of its value;
/// the slot of a value that was taken out stays empty.
pub struct TextMap<V> {
    index: StringHashMap<usize>,
    slots: Vec<Option<V>>,
}

impl<V> View for TextMap<V> {
    type V = Map<Seq<char>, V>;

    closed spec fn view(&self) -> Map<Seq<char>, V> {
        Map::new(|k: Seq<char>| self.index@.contains_key(k), |k: Seq<char>| self.slot(k)->0)
    }
}

impl<V> TextMap<V> {
    closed spec fn slot(self, k: Seq<char>) -> Option<V> {
        self.slots@[self.index@[k] as int]
    }

    /// Each text leads to a slot of its own, which is full.
    pub closed spec fn wf(self) -> bool {
        &&& forall|k: Seq<char>| #[trigger]
            self.index@.contains_key(k) ==> self.index@[k] < self.slots@.len() && self.slot(
                k,
            ) is Some
        &&& forall|k1: Seq<char>, k2: Seq<char>|
            #![trigger self.index@[k1], self.index@[k2]]
            self.index@.contains_key(k1) && self.index@.contains_key(k2) && self.index@[k1]
                == self.index@[k2] ==> k1 == k2
        &&& self.index@.dom().finite()
    }

    /// A map holds finitely many values.
    pub proof fn lemma_finite(self)
        requires
            self.wf(),
        ensures
            self@.dom().finite(),
    {
        assert(self@.dom() =~= self.index@.dom());
    }

    pub fn new() -> (r: TextMap<V>)
        ensures
            r.wf(),
            r@ == Map::<Seq<char>, V>::empty(),
    {
        let r = TextMap { index: StringHashMap::new(), slots: Vec::new() };
        assert(r@ =~= Map::<Seq<char>, V>::empty());
        r
    }

    pub fn get(&self, text: &str) -> (r: Option<&V>)
        requires
            self.wf(),
        ensures
            match r {
                Some(v) => self@.contains_key(text@) && *v == self@[text@],
                None => !self@.contains_key(text@),
            },
    {
        match self.index.get(text) {
            Some(i) => {
                assert(self.slot(text@) is Some);
                self.slots[*i].as_ref()
            },
            None => None,
        }
    }

    pub fn contains_key(&self, text: &str) -> (r: bool)
        requires
            self.wf(),
        ensures
            r == self@.contains_key(text@),
    {
        self.index.contains_key(text)
    }

    /// Stores a value; one that the text had before is dropped.
    pub fn insert(&mut self, text: String, value: V)
        requires
            old(self).wf(),
        ensures
            final(self).wf(),
            final(self)@ == old(self)@.insert(text@, value),
    {
        let ghost key = text@;
        let ghost before = *self;
        let found = match self.index.get(text.as_str()) {
            Some(i) => Some(*i),
            None => None,
        };
        match found {
            Some(i) => {
                self.slots[i] = Some(value);
                assert(self.wf());
            },
            None => {
                let i = self.slots.len();
                self.slots.push(Some(value));
                self.index.insert(text, i);
                assert forall|k: Seq<char>| #[trigger] before.index@.contains_key(k) implies self.index@[k]
                    == before.index@[k] && self.slot(k) == before.slot(k) by {}
                assert(self.wf());
            },
        }
        assert(self@ =~= before@.insert(key, value));
    }

    /// The value of a text, to be changed in place.
    pub fn get_mut(&mut self, text: &str) -> (r: Option<&mut V>)
        requires
            old(self).wf(),
        ensures
            final(self).wf(),
            match r {
                Some(v) => {
                    &&& old(self)@.contains_key(text@)
                    &&& *v == old(self)@[text@]
                    &&& final(self)@ == old(self)@.insert(text@, *final(v))
                },
                None => !old(self)@.contains_key(text@) && final(self)@ == old(self)@,
            },
    {
        let found = match self.index.get(text) {
            Some(i) => Some(*i),
            None => None,
        };
        match found {
            Some(i) => {
                proof {
                    assert(self.slot(text@) is Some);
                    lemma_slot_changed(*self, text@);
                }
                self.slots[i].as_mut()
            },
            None => None,
        }
    }

    /// Takes the value of a text out of the map.
    pub fn take(&mut self, text: &str) -> (r: Option<V>)
        requires
            old(self).wf(),
        ensures
            final(self).wf(),
            match r {
                Some(v) => {
                    &&& old(self)@.contains_key(text@)
                    &&& v == old(self)@[text@]
                    &&& final(self)@ == old(self)@.remove(text@)
                },
                None => !old(self)@.contains_key(text@) && final(self)@ == old(self)@,
            },
    {
        let ghost before = *self;
        let found = match self.index.get(text) {
            Some(i) => Some(*i),
            None => None,
        };
        match found {
            Some(i) => {
                assert(self.slot(text@) is Some);
                let mut taken: Option<V> = None;
                std::mem::swap(&mut taken, &mut self.slots[i]);
                self.index.remove(text);
                assert forall|k: Seq<char>| #[trigger] self.index@.contains_key(k) implies self.index@[k]
                    == before.index@[k] && self.slot(k) == before.slot(k) by {
                    assert(before.index@[k] != before.index@[text@]);
                }
                assert(self.wf());
                assert(self@ =~= before@.remove(text@));
                taken
            },
            None => None,
        }
    }
}

/// Filling the slot of a text with another value changes the value of this
/// text alone.
proof fn lemma_slot_changed<V>(before: TextMap<V>, text: Seq<char>)
    requires
        before.wf(),
        before.index@.contains_key(text),
    ensures
        forall|after: TextMap<V>|
            ({
                &&& after.index == before.index
                &&& after.slots@ == before.slots@.update(
                    before.index@[text] as int,
                    after.slots@[before.index@[text] as int],
                )
                &&& after.slots@[before.index@[text] as int] is Some
            }) ==> (#[trigger] after.wf()) && after@ == before@.insert(
                text,
                after.slots@[before.index@[text] as int]->0,
            ),
{
    assert forall|after: TextMap<V>|
        ({
            &&& after.index == before.index
            &&& after.slots@ == before.slots@.update(
                before.index@[text] as int,
                after.slots@[before.index@[text] as int],
            )
            &&& after.slots@[before.index@[text] as int] is Some
        }) implies (#[trigger] after.wf()) && after@ == before@.insert(
        text,
        after.slots@[before.index@[text] as int]->0,
    ) by {
        assert(before.slot(text) is Some);
        assert forall|k: Seq<char>| #[trigger] after.index@.contains_key(k) implies after.index@[k]
            < after.slots@.len() && after.slot(k) is Some by {
            assert(before.slot(k) is Some);
        }
        assert(after@ =~= before@.insert(text, after.slots@[before.index@[text] as int]->0));
    }
}

} // verus!
