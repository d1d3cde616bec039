use vstd::prelude::*;
use vstd::hash_set::StringHashSet;
use crate::notation::views;

verus! {

/// A set of words that also remembers the order in which they came in.
pub struct WordSet {
    items: Vec<String>,
    index: StringHashSet,
}

impl View for WordSet {
    type V = Set<Seq<char>>;

    closed spec fn view(&self) -> Set<Seq<char>> {
        self.index@
    }
}

impl WordSet {
    /// The words of the set, in the order of their first insertion.
    pub closed spec fn listing(&self) -> Seq<Seq<char>> {
        views(self.items@)
    }

    /// The listing holds each word of the set once, and nothing else.
    pub open spec fn wf(&self) -> bool {
        &&& self.listing().no_duplicates()
        &&& forall|w: Seq<char>| self@.contains(w) <==> self.listing().contains(w)
    }

    /// The empty set.
    pub fn new() -> (set: WordSet)
        ensures
            set.wf(),
            set@ == Set::<Seq<char>>::empty(),
            set.listing() == Seq::<Seq<char>>::empty(),
    {
        WordSet { items: Vec::new(), index: StringHashSet::new() }
    }

    /// Whether `word` is in the set.
    pub fn contains(&self, word: &str) -> (found: bool)
        requires
            self.wf(),
        ensures
            found == self@.contains(word@),
    {
        self.index.contains(word)
    }

    /// Adds `word` to the set; says whether it was new.
    pub fn insert(&mut self, word: String) -> (fresh: bool)
        requires
            old(self).wf(),
        ensures
            final(self).wf(),
            final(self)@ == old(self)@.insert(word@),
            fresh == !old(self)@.contains(word@),
            final(self).listing() == if fresh {
                old(self).listing().push(word@)
            } else {
                old(self).listing()
            },
    {
        if self.index.contains(word.as_str()) {
            assert(self@.insert(word@) == self@);
            return false;
        }
        let ghost before = self.listing();
        self.index.insert(word.clone());
        self.items.push(word);
        proof {
            assert(self.listing() == before.push(word@));
            assert(!before.contains(word@));
            assert forall|w: Seq<char>| self@.contains(w) <==> self.listing().contains(w) by {
                if before.contains(w) {
                    let k = choose|k: int| 0 <= k < before.len() && before[k] == w;
                    assert(self.listing()[k] == w);
                }
                if w == word@ {
                    assert(self.listing()[before.len() as int] == w);
                }
            }
        }
        true
    }

    /// The number of words in the set.
    pub fn len(&self) -> (n: usize)
        requires
            self.wf(),
        ensures
            n == self.listing().len(),
            n == self@.len(),
            self@.finite(),
    {
        proof {
            self.listing().unique_seq_to_set();
            assert(self.listing().to_set() == self@);
        }
        self.items.len()
    }

    /// The words of the set, in the order of their first insertion.
    pub fn words(&self) -> (list: &Vec<String>)
        ensures
            views(list@) == self.listing(),
    {
        &self.items
    }
}

} // verus!
