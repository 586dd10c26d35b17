//! A map keyed by title that keeps the order in which its titles first came.
//! It stands where the order of a walk over the map must not depend on how
//! titles hash.

use crate::text::views;
use vstd::hash_map::StringHashMap;
use vstd::prelude::*;

verus! {

/// Titles and their values as two sequences of one length, the value of a
/// title at the title's position: the mathematical model of a `TitleMap`.
pub struct Assoc<V> {
    pub titles: Seq<Seq<char>>,
    pub values: Seq<V>,
}

impl<V> Assoc<V> {
    /// No titles.
    pub open spec fn empty() -> Assoc<V> {
        Assoc { titles: Seq::empty(), values: Seq::empty() }
    }

    /// One value per title and no title twice.
    pub open spec fn wf(self) -> bool {
        self.titles.len() == self.values.len() && self.titles.no_duplicates()
    }

    /// The value of `title`.
    pub open spec fn get(self, title: Seq<char>) -> Option<V> {
        if self.titles.contains(title) {
            Some(self.values[self.titles.index_of(title)])
        } else {
            None
        }
    }

    /// `title` with the value `value`: in its old place where the title is
    /// held, at the end where it is new.
    pub open spec fn put(self, title: Seq<char>, value: V) -> Assoc<V> {
        if self.titles.contains(title) {
            Assoc {
                titles: self.titles,
                values: self.values.update(self.titles.index_of(title), value),
            }
        } else {
            Assoc { titles: self.titles.push(title), values: self.values.push(value) }
        }
    }

    /// The same titles with `f` applied to every value.
    pub open spec fn map_values<W>(self, f: spec_fn(V) -> W) -> Assoc<W> {
        Assoc { titles: self.titles, values: self.values.map_values(f) }
    }

    /// The titles and values as a map.
    pub open spec fn as_map(self) -> Map<Seq<char>, V> {
        Map::new(
            |t: Seq<char>| self.titles.contains(t),
            |t: Seq<char>| self.values[self.titles.index_of(t)],
        )
    }

    /// `put` keeps well-formedness, and is `insert` on the map.
    pub proof fn lemma_put(self, title: Seq<char>, value: V)
        requires
            self.wf(),
        ensures
            self.put(title, value).wf(),
            self.put(title, value).as_map() == self.as_map().insert(title, value),
    {
        let after = self.put(title, value);
        if self.titles.contains(title) {
            let i = self.titles.index_of(title);
            assert forall|t: Seq<char>| #[trigger] after.as_map().contains_key(t) implies after.as_map()[t]
                == self.as_map().insert(title, value)[t] by {
                let j = after.titles.index_of(t);
                assert(0 <= j < after.titles.len() && after.titles[j] == t);
            }
        } else {
            let at = self.titles.len() as int;
            assert(after.titles[at] == title);
            assert forall|t: Seq<char>| #[trigger] after.as_map().contains_key(t) implies after.as_map()[t]
                == self.as_map().insert(title, value)[t] by {
                let j = after.titles.index_of(t);
                assert(0 <= j < after.titles.len() && after.titles[j] == t);
                if t != title {
                    let k = self.titles.index_of(t);
                    assert(self.titles[j] == t);
                    assert(0 <= k < self.titles.len() && self.titles[k] == t);
                }
            }
            assert forall|t: Seq<char>| self.as_map().insert(title, value).contains_key(
                t,
            ) implies #[trigger] after.as_map().contains_key(t) by {
                if t != title {
                    let k = self.titles.index_of(t);
                    assert(0 <= k < self.titles.len() && self.titles[k] == t);
                    assert(after.titles[k] == t);
                }
            }
        }
        assert(after.as_map() =~= self.as_map().insert(title, value));
    }

    /// Mapping the values after a `put` is a `put` of the mapped value.
    pub proof fn lemma_put_map_values<W>(self, title: Seq<char>, value: V, f: spec_fn(V) -> W)
        requires
            self.wf(),
        ensures
            self.put(title, value).map_values(f) == self.map_values(f).put(title, f(value)),
    {
        let left = self.put(title, value).map_values(f);
        let right = self.map_values(f).put(title, f(value));
        if self.titles.contains(title) {
            let i = self.titles.index_of(title);
            assert(0 <= i < self.titles.len());
        }
        assert(left.titles =~= right.titles);
        assert(left.values =~= right.values);
    }

    /// The titles of a well-formed model are a finite set.
    pub proof fn lemma_finite(self)
        ensures
            self.as_map().dom().finite(),
    {
        vstd::seq_lib::seq_to_set_is_finite(self.titles);
        assert(self.as_map().dom() =~= self.titles.to_set());
    }
}

/// A finite map from titles to values, with its titles in the order of their
/// first insertion. A hash index finds the position of a title.
pub struct TitleMap<V> {
    titles: Vec<String>,
    values: Vec<V>,
    index: StringHashMap<usize>,
}

impl<V> TitleMap<V> {
    /// The titles, in the order of their first insertion.
    pub closed spec fn titles(&self) -> Seq<Seq<char>> {
        views(self.titles@)
    }

    /// The values, each at the position of its title.
    pub closed spec fn values(&self) -> Seq<V> {
        self.values@
    }

    /// The hash index holds exactly the titles, each with its position.
    pub closed spec fn indexed(&self) -> bool {
        &&& forall|i: int|
            0 <= i < self.titles.len() ==> self.index@.contains_key(#[trigger] self.titles@[i]@)
                && self.index@[self.titles@[i]@] == i
        &&& forall|t: Seq<char>| #[trigger]
            self.index@.contains_key(t) ==> self.index@[t] < self.titles.len()
                && self.titles@[self.index@[t] as int]@ == t
    }

    /// Well-formedness: one value per title, no title twice, and an index
    /// that agrees.
    pub open spec fn wf(&self) -> bool {
        &&& self.titles().len() == self.values().len()
        &&& self.titles().no_duplicates()
        &&& self.indexed()
    }

    /// The titles and values together.
    pub open spec fn model(&self) -> Assoc<V> {
        Assoc { titles: self.titles(), values: self.values() }
    }

    /// The position of a title.
    pub open spec fn position(&self, title: Seq<char>) -> Option<int> {
        if self.titles().contains(title) {
            Some(self.titles().index_of(title))
        } else {
            None
        }
    }

    /// The map itself.
    pub open spec fn view(&self) -> Map<Seq<char>, V> {
        self.model().as_map()
    }

    /// A title's position is the one place where it stands.
    pub proof fn lemma_position(&self, i: int)
        requires
            self.wf(),
            0 <= i < self.titles().len(),
        ensures
            self.titles().contains(self.titles()[i]),
            self.titles().index_of(self.titles()[i]) == i,
            self@.contains_key(self.titles()[i]),
            self@[self.titles()[i]] == self.values()[i],
    {
        let t = self.titles()[i];
        let j = self.titles().index_of(t);
        assert(0 <= j < self.titles().len() && self.titles()[j] == t);
    }

    /// An empty map.
    pub fn new() -> (map: TitleMap<V>)
        ensures
            map.wf(),
            map.titles() == Seq::<Seq<char>>::empty(),
            map.values() == Seq::<V>::empty(),
    {
        TitleMap { titles: Vec::new(), values: Vec::new(), index: StringHashMap::new() }
    }

    /// The number of titles.
    pub fn len(&self) -> (n: usize)
        ensures
            n == self.titles().len(),
    {
        self.titles.len()
    }

    /// The position of `title`, where the map holds it.
    pub fn find(&self, title: &str) -> (found: Option<usize>)
        requires
            self.wf(),
        ensures
            match found {
                Some(i) => i < self.titles().len() && self.titles()[i as int] == title@
                    && self.position(title@) == Some(i as int),
                None => !self.titles().contains(title@),
            },
    {
        match self.index.get(title) {
            Some(i) => {
                proof {
                    self.lemma_position(*i as int);
                }
                Some(*i)
            },
            None => None,
        }
    }

    /// Whether the map holds `title`.
    pub fn contains_key(&self, title: &str) -> (held: bool)
        requires
            self.wf(),
        ensures
            held == self@.contains_key(title@),
    {
        self.find(title).is_some()
    }

    /// The value of `title`, where the map holds it.
    pub fn get(&self, title: &str) -> (value: Option<&V>)
        requires
            self.wf(),
        ensures
            match value {
                Some(v) => self@.contains_key(title@) && *v == self@[title@],
                None => !self@.contains_key(title@),
            },
    {
        match self.find(title) {
            Some(i) => Some(&self.values[i]),
            None => None,
        }
    }

    /// The title at position `i`.
    pub fn title_at(&self, i: usize) -> (title: &String)
        requires
            i < self.titles().len(),
        ensures
            title@ == self.titles()[i as int],
    {
        &self.titles[i]
    }

    /// The value at position `i`.
    pub fn value_at(&self, i: usize) -> (value: &V)
        requires
            self.wf(),
            i < self.titles().len(),
        ensures
            *value == self.values()[i as int],
    {
        &self.values[i]
    }

    /// Replaces the value at position `i`.
    pub fn set_value(&mut self, i: usize, value: V)
        requires
            old(self).wf(),
            i < old(self).titles().len(),
        ensures
            final(self).wf(),
            final(self).titles() == old(self).titles(),
            final(self).values() == old(self).values().update(i as int, value),
    {
        self.values.set(i, value);
    }

    /// Gives `title` the value `value`. A title that the map holds keeps its
    /// position; a new one goes to the end.
    pub fn insert(&mut self, title: String, value: V)
        requires
            old(self).wf(),
        ensures
            final(self).wf(),
            final(self).model() == old(self).model().put(title@, value),
            final(self)@ == old(self)@.insert(title@, value),
    {
        proof {
            old(self).model().lemma_put(title@, value);
        }
        match self.find(title.as_str()) {
            Some(i) => {
                self.values.set(i, value);
            },
            None => {
                let ghost at = self.titles.len() as int;
                self.index.insert(title.clone(), self.titles.len());
                self.titles.push(title);
                self.values.push(value);
                proof {
                    let before = *old(self);
                    let after = *self;
                    assert(after.titles() =~= before.titles().push(title@));
                    assert forall|i: int| 0 <= i < after.titles.len() implies after.index@.contains_key(
                        #[trigger] after.titles@[i]@,
                    ) && after.index@[after.titles@[i]@] == i by {
                        if i < at {
                            assert(before.titles()[i] == before.titles@[i]@);
                            assert(before.titles().contains(before.titles()[i]));
                        }
                    }
                }
            },
        }
    }
}

} // verus!
