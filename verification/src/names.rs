//! A set of names.

use vstd::prelude::*;
use vstd::string::*;

use crate::text::{clone_texts, holds};
use crate::views::{lemma_texts_push, texts};

verus! {

broadcast use lemma_texts_push;

/// A set of names, each held once, in the order they first came.
#[derive(Debug)]
pub struct NameSet {
    items: Vec<String>,
}

impl View for NameSet {
    type V = Seq<Seq<char>>;

    closed spec fn view(&self) -> Seq<Seq<char>> {
        texts(self.items@)
    }
}

impl NameSet {
    #[verifier::type_invariant]
    spec fn distinct(self) -> bool {
        texts(self.items@).no_duplicates()
    }

    /// The names, whatever their order.
    pub open spec fn names(self) -> Set<Seq<char>> {
        self@.to_set()
    }

    /// No names.
    pub fn new() -> (r: NameSet)
        ensures
            r@ == Seq::<Seq<char>>::empty(),
    {
        let items: Vec<String> = Vec::new();
        assert(texts(items@) =~= seq![]);
        NameSet { items }
    }

    /// Whether `name` is among them.
    pub fn contains(&self, name: &str) -> (r: bool)
        ensures
            r == self@.contains(name@),
    {
        holds(&self.items, name)
    }

    /// Add a name; false when it was there already.
    pub fn insert(&mut self, name: &str) -> (r: bool)
        ensures
            r == !old(self)@.contains(name@),
            final(self)@ == if old(self)@.contains(name@) {
                old(self)@
            } else {
                old(self)@.push(name@)
            },
    {
        proof {
            use_type_invariant(&*self);
        }
        if holds(&self.items, name) {
            false
        } else {
            let ghost before = texts(self.items@);
            let mut items = clone_texts(&self.items);
            items.push(name.to_owned());
            proof {
                let now = before.push(name@);
                assert(texts(items@) =~= now);
                assert forall|i: int, j: int|
                    0 <= i < now.len() && 0 <= j < now.len() && i != j implies now[i] != now[j] by {
                    if i < before.len() && j < before.len() {
                        assert(before[i] != before[j]);
                    } else if i < before.len() {
                        assert(before.contains(before[i]));
                    } else {
                        assert(before.contains(before[j]));
                    }
                }
            }
            self.items = items;
            true
        }
    }

    /// How many names there are.
    pub fn len(&self) -> (r: usize)
        ensures
            r == self@.len(),
            r == self.names().len(),
    {
        proof {
            use_type_invariant(&*self);
            self@.unique_seq_to_set();
        }
        self.items.len()
    }

    /// The names, in the order they first came.
    pub fn list(&self) -> (r: &Vec<String>)
        ensures
            texts(r@) == self@,
            self@.no_duplicates(),
    {
        proof {
            use_type_invariant(&*self);
        }
        &self.items
    }
}

} // verus!
