//! Literal attributes attached to operations.
//!
//! Attributes carry immediates and constants that are not SSA values. The
//! map binds attribute names to [`Attribute`] values; a later insert for a
//! key shadows an earlier one.

use vstd::prelude::*;

verus! {

/// A small literal attribute.
#[derive(Debug, Clone, Copy, PartialEq, Eq, Structural)]
pub enum Attribute {
    Int(u32),
}

/// The binding a sequence of entries gives to `key`: the latest entry for
/// that key, if there is one.
pub open spec fn attr_lookup(entries: Seq<(Seq<char>, Attribute)>, key: Seq<char>) -> Option<
    Attribute,
>
    decreases entries.len(),
{
    if entries.len() == 0 {
        None
    } else if entries.last().0 == key {
        Some(entries.last().1)
    } else {
        attr_lookup(entries.drop_last(), key)
    }
}

/// An association from attribute names to [`Attribute`] values.
#[derive(Debug)]
pub struct AttributeMap {
    entries: Vec<(String, Attribute)>,
}

impl View for AttributeMap {
    type V = Seq<(Seq<char>, Attribute)>;

    closed spec fn view(&self) -> Seq<(Seq<char>, Attribute)> {
        self.entries@.map_values(|e: (String, Attribute)| (e.0@, e.1))
    }
}

impl AttributeMap {
    /// The binding this map gives to `key`.
    pub open spec fn spec_get(&self, key: Seq<char>) -> Option<Attribute> {
        attr_lookup(self@, key)
    }

    /// An empty map.
    pub fn new() -> (m: Self)
        ensures
            m@ =~= Seq::<(Seq<char>, Attribute)>::empty(),
    {
        AttributeMap { entries: Vec::new() }
    }

    /// How many bindings were made.
    pub fn len(&self) -> (n: usize)
        ensures
            n == self@.len(),
    {
        self.entries.len()
    }

    /// Whether no binding was made.
    pub fn is_empty(&self) -> (r: bool)
        ensures
            r == (self@.len() == 0),
    {
        self.entries.is_empty()
    }

    /// Binds `key` to `attr`, shadowing an earlier binding of the same key.
    pub fn insert(&mut self, key: String, attr: Attribute)
        ensures
            final(self)@ =~= old(self)@.push((key@, attr)),
            final(self).spec_get(key@) == Some(attr),
            forall|other: Seq<char>|
                other != key@ ==> final(self).spec_get(other) == old(self).spec_get(other),
    {
        let ghost k = key@;
        self.entries.push((key, attr));
        proof {
            assert(self@ =~= old(self)@.push((k, attr)));
            assert forall|other: Seq<char>| other != k implies final(self).spec_get(other)
                == old(self).spec_get(other) by {
                assert(self@.drop_last() =~= old(self)@);
            }
        }
    }

    /// The entry list, latest binding last.
    pub fn entries(&self) -> (r: &Vec<(String, Attribute)>)
        ensures
            r@.len() == self@.len(),
            forall|i: int|
                0 <= i < r@.len() ==> ((#[trigger] r@[i]).0@, r@[i].1) == self@[i],
    {
        &self.entries
    }
}

} // verus!
