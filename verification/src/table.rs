//! A table of what is known: in the order in which it became known, with an
//! index by key.

use vstd::prelude::*;
use std::collections::HashMap;

verus! {

broadcast use vstd::std_specs::hash::group_hash_axioms;

/// What is found by a key.
pub trait Keyed: Copy {
    spec fn key_of(self) -> u32;

    /// The key.
    fn key(&self) -> (k: u32)
        ensures
            k == self.key_of(),
    ;
}

/// The first item with the key.
pub open spec fn first_with<T: Keyed>(items: Seq<T>, key: u32) -> Option<T>
    decreases items.len(),
{
    if items.len() == 0 {
        None
    } else if items[0].key_of() == key {
        Some(items[0])
    } else {
        first_with(items.skip(1), key)
    }
}

/// The first item with the key has the key, and none before it has it.
proof fn lemma_first_at<T: Keyed>(items: Seq<T>, key: u32, j: int)
    requires
        0 <= j <= items.len(),
        forall|i: int| 0 <= i < j ==> (#[trigger] items[i]).key_of() != key,
        j < items.len() ==> items[j].key_of() == key,
    ensures
        first_with(items, key) == if j < items.len() {
            Some(items[j])
        } else {
            None
        },
    decreases items.len(),
{
    if j > 0 {
        let rest = items.skip(1);
        assert forall|i: int| 0 <= i < j - 1 implies (#[trigger] rest[i]).key_of() != key by {
            assert(rest[i] == items[i + 1]);
        }
        lemma_first_at(rest, key, j - 1);
    }
}

/// What is found is an item with the key.
pub proof fn lemma_first<T: Keyed>(items: Seq<T>, key: u32)
    ensures
        first_with(items, key) matches Some(x) ==> items.contains(x) && x.key_of() == key,
    decreases items.len(),
{
    if items.len() > 0 && items[0].key_of() != key {
        let rest = items.skip(1);
        lemma_first(rest, key);
        if let Some(x) = first_with(items, key) {
            let i = choose|i: int| 0 <= i < rest.len() && rest[i] == x;
            assert(items[i + 1] == x);
        }
    } else if items.len() > 0 {
        assert(items.contains(items[0]));
    }
}

/// Items, and for each key the place of the first item with it.
pub struct Table<T: Keyed> {
    items: Vec<T>,
    places: HashMap<u32, usize>,
}

impl<T: Keyed> View for Table<T> {
    type V = Seq<T>;

    closed spec fn view(&self) -> Seq<T> {
        self.items@
    }
}

impl<T: Keyed> Table<T> {
    #[verifier::type_invariant]
    spec fn indexed(self) -> bool {
        &&& forall|j: int|
            0 <= j < self.items@.len() ==> self.places@.contains_key(
                (#[trigger] self.items@[j]).key_of(),
            ) && self.places@[self.items@[j].key_of()] <= j
        &&& forall|k: u32| #[trigger]
            self.places@.contains_key(k) ==> self.places@[k] < self.items@.len()
                && self.items@[self.places@[k] as int].key_of() == k
    }

    /// A table without items.
    pub fn new() -> (t: Table<T>)
        ensures
            t@ == Seq::<T>::empty(),
    {
        Table { items: Vec::new(), places: HashMap::new() }
    }

    /// The number of items.
    pub fn len(&self) -> (n: usize)
        ensures
            n == self@.len(),
    {
        self.items.len()
    }

    /// The item with a number.
    pub fn item(&self, k: usize) -> (x: T)
        requires
            k < self@.len(),
        ensures
            x == self@[k as int],
    {
        self.items[k]
    }

    /// The first item with the key.
    pub fn find(&self, key: u32) -> (r: Option<T>)
        ensures
            r == first_with(self@, key),
            r matches Some(x) ==> self@.contains(x) && x.key_of() == key,
    {
        proof {
            use_type_invariant(self);
        }
        match self.places.get(&key) {
            Some(j) => {
                let x = self.items[*j];
                proof {
                    assert(self@[*j as int] == x);
                    lemma_first_at(self@, key, *j as int);
                }
                Some(x)
            },
            None => {
                proof {
                    lemma_first_at(self@, key, self@.len() as int);
                }
                None
            },
        }
    }

    /// Adds an item at the end.
    pub fn push(&mut self, x: T)
        ensures
            final(self)@ == old(self)@.push(x),
    {
        proof {
            use_type_invariant(&*self);
        }
        let mut t = Table::new();
        std::mem::swap(self, &mut t);
        let Table { mut items, mut places } = t;
        let place: usize = items.len();
        let key: u32 = x.key();
        if !places.contains_key(&key) {
            places.insert(key, place);
        }
        items.push(x);
        *self = Table { items, places };
    }

    /// Forgets all items.
    pub fn clear(&mut self)
        ensures
            final(self)@ == Seq::<T>::empty(),
    {
        *self = Table::new();
    }
}

} // verus!
