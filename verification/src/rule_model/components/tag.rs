//! This module defines [Tag], the name of a predicate.

use vstd::prelude::*;
use vstd::std_specs::cmp::PartialEqSpecImpl;

verus! {

/// Name of a predicate.
#[derive(Debug)]
pub struct Tag {
    name: String,
}

impl View for Tag {
    type V = Seq<char>;

    closed spec fn view(&self) -> Seq<char> {
        self.name@
    }
}

impl Tag {
    /// Create a new [Tag] with the given name.
    pub fn new(name: &str) -> (tag: Self)
        ensures
            tag@ == name@,
    {
        Tag { name: name.to_owned() }
    }

    /// Return the name of the predicate.
    pub fn name(&self) -> (name: &str)
        ensures
            name@ == self@,
    {
        self.name.as_str()
    }

}

impl Clone for Tag {
    fn clone(&self) -> (tag: Self)
        ensures
            tag@ == self@,
    {
        Tag { name: self.name.clone() }
    }
}

impl PartialEq for Tag {
    fn eq(&self, other: &Self) -> (r: bool) {
        self.name == other.name
    }
}

impl PartialEqSpecImpl for Tag {
    open spec fn obeys_eq_spec() -> bool {
        true
    }

    open spec fn eq_spec(&self, other: &Tag) -> bool {
        self@ == other@
    }
}

} // verus!

verus! {

/// The views of a sequence of pairs of a predicate and a number.
pub open spec fn tag_index_views(entries: Seq<(Tag, usize)>) -> Seq<(Seq<char>, usize)> {
    entries.map_values(|e: (Tag, usize)| (e.0@, e.1))
}

/// A set of pairs of a predicate and a number, such as predicate positions
/// or predicates with their arity.
#[derive(Debug)]
pub struct TagIndexSet {
    entries: Vec<(Tag, usize)>,
}

impl View for TagIndexSet {
    type V = Set<(Seq<char>, usize)>;

    closed spec fn view(&self) -> Set<(Seq<char>, usize)> {
        tag_index_views(self.entries@).to_set()
    }
}

impl TagIndexSet {
    #[verifier::type_invariant]
    closed spec fn no_duplicates(&self) -> bool {
        tag_index_views(self.entries@).no_duplicates()
    }

    /// The entries of the set, in the order of their insertion.
    pub closed spec fn spec_entries(&self) -> Seq<(Seq<char>, usize)> {
        tag_index_views(self.entries@)
    }

    /// Create an empty set.
    pub fn new() -> (set: Self)
        ensures
            set@ == Set::<(Seq<char>, usize)>::empty(),
    {
        let set = TagIndexSet { entries: Vec::new() };
        assert(tag_index_views(set.entries@) =~= Seq::<(Seq<char>, usize)>::empty());
        set
    }

    /// Return the position of the pair in the entries, if it is there.
    fn find(&self, tag: &Tag, index: usize) -> (r: Option<usize>)
        ensures
            match r {
                Some(k) => k < self.entries@.len() && self.spec_entries()[k as int] == (tag@, index),
                None => !self@.contains((tag@, index)),
            },
    {
        let n = self.entries.len();
        let mut i: usize = 0;
        while i < n
            invariant
                n == self.entries@.len(),
                0 <= i <= n,
                forall|j: int| 0 <= j < i ==> tag_index_views(self.entries@)[j] != (tag@, index),
            decreases n - i,
        {
            if self.entries[i].1 == index && self.entries[i].0 == *tag {
                return Some(i);
            }
            i = i + 1;
        }
        proof {
            if self@.contains((tag@, index)) {
                let k = choose|k: int| 0 <= k < tag_index_views(self.entries@).len() && tag_index_views(self.entries@)[k] == (tag@, index);
                assert(false);
            }
        }
        None
    }

    /// Return true if the pair is in the set.
    pub fn contains(&self, tag: &Tag, index: usize) -> (r: bool)
        ensures
            r == self@.contains((tag@, index)),
    {
        match self.find(tag, index) {
            Some(k) => {
                assert(tag_index_views(self.entries@)[k as int] == (tag@, index));
                true
            },
            None => false,
        }
    }

    /// Add the pair to the set; returns true if it was not in the set before.
    pub fn insert(&mut self, tag: Tag, index: usize) -> (r: bool)
        ensures
            final(self)@ == old(self)@.insert((tag@, index)),
            r == !old(self)@.contains((tag@, index)),
    {
        proof { use_type_invariant(&*self); }
        match self.find(&tag, index) {
            Some(k) => {
                assert(tag_index_views(self.entries@)[k as int] == (tag@, index));
                assert(self@ =~= self@.insert((tag@, index)));
                false
            },
            None => {
                let ghost before = tag_index_views(self.entries@);
                let mut entries: Vec<(Tag, usize)> = Vec::new();
                std::mem::swap(&mut entries, &mut self.entries);
                entries.push((tag, index));
                assert(tag_index_views(entries@) =~= before.push((tag@, index)));
                assert(!before.contains((tag@, index)));
                self.entries = entries;
                proof {
                    assert(tag_index_views(self.entries@) =~= before.push((tag@, index)));
                    broadcast use vstd::seq_lib::group_seq_properties;
                    assert(tag_index_views(self.entries@).to_set() =~= before.to_set().insert((tag@, index)));
                }
                true
            },
        }
    }

    /// Remove the pair from the set; returns true if it was in the set.
    pub fn remove(&mut self, tag: &Tag, index: usize) -> (r: bool)
        ensures
            final(self)@ == old(self)@.remove((tag@, index)),
            r == old(self)@.contains((tag@, index)),
    {
        proof { use_type_invariant(&*self); }
        match self.find(tag, index) {
            Some(k) => {
                let ghost before = tag_index_views(self.entries@);
                let mut entries: Vec<(Tag, usize)> = Vec::new();
                std::mem::swap(&mut entries, &mut self.entries);
                entries.remove(k);
                assert(tag_index_views(entries@) =~= before.remove(k as int));
                self.entries = entries;
                proof {
                    assert(tag_index_views(self.entries@) =~= before.remove(k as int));
                    broadcast use vstd::seq_lib::group_seq_properties;
                    assert forall|x| tag_index_views(self.entries@).to_set().contains(x) <==> before.to_set().remove((tag@, index)).contains(x) by {
                        if before.to_set().contains(x) && x != (tag@, index) {
                            let j = choose|j: int| 0 <= j < before.len() && before[j] == x;
                            if j < k { assert(tag_index_views(self.entries@)[j] == x); }
                            else { assert(tag_index_views(self.entries@)[j - 1] == x); }
                        }
                        if tag_index_views(self.entries@).to_set().contains(x) {
                            let j = choose|j: int| 0 <= j < tag_index_views(self.entries@).len() && tag_index_views(self.entries@)[j] == x;
                            if j < k { assert(before[j] == x); } else { assert(before[j + 1] == x); }
                        }
                    }
                    assert(tag_index_views(self.entries@).to_set() =~= before.to_set().remove((tag@, index)));
                    assert(before[k as int] == (tag@, index));
                }
                true
            },
            None => {
                assert(self@ =~= self@.remove((tag@, index)));
                false
            },
        }
    }

    /// Return the number of pairs in the set.
    pub fn len(&self) -> (n: usize)
        ensures
            n == self@.len(),
    {
        proof {
            use_type_invariant(self);
            tag_index_views(self.entries@).unique_seq_to_set();
        }
        self.entries.len()
    }

    /// Return the pair at the given place of the insertion order.
    pub fn get(&self, k: usize) -> (pair: (&Tag, usize))
        requires
            k < self.spec_entries().len(),
        ensures
            (pair.0@, pair.1) == self.spec_entries()[k as int],
    {
        (&self.entries[k].0, self.entries[k].1)
    }

    /// Return the number of entries; the entries list the set without duplicates.
    pub fn entry_count(&self) -> (n: usize)
        ensures
            n == self.spec_entries().len(),
            self.spec_entries().no_duplicates(),
            self.spec_entries().to_set() == self@,
            self.spec_entries().len() == self@.len(),
    {
        proof {
            use_type_invariant(self);
            tag_index_views(self.entries@).unique_seq_to_set();
        }
        self.entries.len()
    }
}

impl Clone for TagIndexSet {
    fn clone(&self) -> (set: Self)
        ensures
            set@ == self@,
            set.spec_entries() == self.spec_entries(),
    {
        proof { use_type_invariant(self); }
        let mut entries: Vec<(Tag, usize)> = Vec::new();
        let n = self.entries.len();
        let mut i: usize = 0;
        while i < n
            invariant
                n == self.entries@.len(),
                0 <= i <= n,
                tag_index_views(entries@) == tag_index_views(self.entries@).take(i as int),
            decreases n - i,
        {
            let ghost before = entries@;
            let tag = self.entries[i].0.clone();
            entries.push((tag, self.entries[i].1));
            assert(tag_index_views(entries@) =~= tag_index_views(before).push((tag@, self.entries@[i as int].1)));
            assert(tag_index_views(self.entries@)[i as int] == (tag@, self.entries@[i as int].1));
            assert(tag_index_views(entries@) =~= tag_index_views(self.entries@).take(i + 1));
            i = i + 1;
        }
        assert(tag_index_views(self.entries@).take(n as int) =~= tag_index_views(self.entries@));
        TagIndexSet { entries }
    }
}

} // verus!
