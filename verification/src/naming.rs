//! The registry of names that an expression is built with.

use vstd::prelude::*;
use std::collections::HashMap;

verus! {

/// The index of a name in the registry.
pub type NameID = usize;

/// A duplication id: it tells two instances of one bound name apart.
pub type CopyID = usize;

/// The registry as a mathematical value.
#[verifier::ext_equal]
pub struct Registry {
    /// The spelling of each name, by name identity.
    pub names: Seq<Seq<char>>,
    /// For each name, the next duplication id to hand out.
    pub copies: Seq<nat>,
    /// The names that stand for another one, with the one they stand for.
    pub renames: Map<nat, nat>,
}

impl Registry {
    /// The name identity under which `id` is shown and looked up.
    pub open spec fn canonical(self, id: nat) -> nat {
        if self.renames.contains_key(id) {
            self.renames[id]
        } else {
            id
        }
    }

    /// Each name has its counter, and a name stands for a registered name
    /// only.
    pub open spec fn wf(self) -> bool {
        &&& self.names.len() == self.copies.len()
        &&& forall|id: nat|
            self.renames.contains_key(id) ==> #[trigger] self.renames[id] < self.names.len()
    }
}

/// The spellings held by a vector of strings.
pub open spec fn spellings(names: Seq<String>) -> Seq<Seq<char>> {
    Seq::new(names.len(), |i: int| names[i]@)
}

/// Machine counters as natural numbers.
pub open spec fn counts(copies: Seq<usize>) -> Seq<nat> {
    Seq::new(copies.len(), |i: int| copies[i] as nat)
}

/// A table of machine indices as a map of natural numbers.
pub open spec fn index_map(m: Map<usize, usize>) -> Map<nat, nat> {
    Map::new(
        |k: nat| k <= usize::MAX && m.contains_key(k as usize),
        |k: nat| m[k as usize] as nat,
    )
}

/// Adding an entry to a table adds it to the map that the table stands for.
pub proof fn lemma_index_map_insert(m: Map<usize, usize>, k: usize, v: usize)
    ensures
        index_map(m.insert(k, v)) == index_map(m).insert(k as nat, v as nat),
{
    assert(index_map(m.insert(k, v)) =~= index_map(m).insert(k as nat, v as nat));
}

/// The names of an expression, their duplication counters, and the names that
/// stand for another.
#[derive(Clone, Debug)]
pub struct NameSpace {
    names: Vec<String>,
    copies: Vec<CopyID>,
    renames: HashMap<NameID, NameID>,
}

impl View for NameSpace {
    type V = Registry;

    closed spec fn view(&self) -> Registry {
        Registry {
            names: spellings(self.names@),
            copies: counts(self.copies@),
            renames: index_map(self.renames@),
        }
    }
}

impl NameSpace {
    /// A registry of the names `names`, with their counters and with the
    /// names that stand for another.
    pub fn new(names: Vec<String>, copies: Vec<CopyID>, renames: HashMap<NameID, NameID>) -> (out:
        Self)
        ensures
            out@.names == spellings(names@),
            out@.copies == counts(copies@),
            out@.renames == index_map(renames@),
    {
        Self { names, copies, renames }
    }

    /// How many names the registry holds.
    pub fn len(&self) -> (n: usize)
        ensures
            n == self@.names.len(),
    {
        self.names.len()
    }

    /// The spelling of the name `index`.
    pub fn name(&self, index: NameID) -> (out: &String)
        requires
            index < self@.names.len(),
        ensures
            out@ == self@.names[index as int],
    {
        &self.names[index]
    }

    /// Gives the name `index` the spelling `name`.
    pub fn set_name(&mut self, index: NameID, name: String)
        requires
            index < old(self)@.names.len(),
        ensures
            final(self)@.names == old(self)@.names.update(index as int, name@),
            final(self)@.copies == old(self)@.copies,
            final(self)@.renames == old(self)@.renames,
    {
        self.names.set(index, name);
        assert(spellings(self.names@) =~= spellings(old(self).names@).update(index as int, name@));
    }

    /// The counters, by name.
    pub fn get_copies(&self) -> (out: &Vec<CopyID>)
        ensures
            counts(out@) == self@.copies,
    {
        &self.copies
    }

    /// The counters, to change them: the registry holds what is left in
    /// them.
    pub fn get_mut_copies(&mut self) -> (out: &mut Vec<CopyID>)
        ensures
            counts(out@) == old(self)@.copies,
            final(self)@.copies == counts(final(out)@),
            final(self)@.names == old(self)@.names,
            final(self)@.renames == old(self)@.renames,
    {
        &mut self.copies
    }

    /// The name under which `name_id` is shown and looked up: the one it
    /// stands for, or itself.
    pub fn get_absolute_name_index(&self, name_id: NameID) -> (out: NameID)
        ensures
            out == self@.canonical(name_id as nat),
    {
        match self.renames.get(&name_id) {
            Some(id) => *id,
            None => name_id,
        }
    }
}

} // verus!
