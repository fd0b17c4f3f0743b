//! The in-memory registry: an exclusively-owned mapping from service name to
//! shell command, reconstructed from the registry file on every invocation.
//!
//! The registry is stored as a vector of entries with pairwise-distinct
//! names; its mathematical view is the finite map built by inserting the
//! entries in order.

use vstd::prelude::*;

use crate::bytes::bytes_eq;
use crate::names::{valid_command, valid_name};

verus! {

/// One declared service: a unique name and the shell command that starts it.
pub struct ServiceEntry {
    pub name: Vec<u8>,
    pub command: Vec<u8>,
}

/// The map described by a sequence of entries: each entry inserts its name,
/// later entries overwriting earlier ones.
pub open spec fn map_of(s: Seq<ServiceEntry>) -> Map<Seq<u8>, Seq<u8>>
    decreases s.len(),
{
    if s.len() == 0 {
        Map::empty()
    } else {
        map_of(s.drop_last()).insert(s.last().name@, s.last().command@)
    }
}

/// No two entries share a name.
pub open spec fn unique_names(s: Seq<ServiceEntry>) -> bool {
    forall|i: int, j: int| 0 <= i < j < s.len() ==> s[i].name@ != s[j].name@
}

/// The registry of declared services for one invocation.
pub struct Registry {
    pub entries: Vec<ServiceEntry>,
}

impl View for Registry {
    type V = Map<Seq<u8>, Seq<u8>>;

    open spec fn view(&self) -> Map<Seq<u8>, Seq<u8>> {
        map_of(self.entries@)
    }
}

impl Registry {
    /// Well-formedness: names are pairwise distinct, every name is a
    /// non-empty run of word bytes, and every command fits on a record line.
    pub open spec fn wf(self) -> bool {
        &&& unique_names(self.entries@)
        &&& forall|i: int|
            0 <= i < self.entries@.len() ==> valid_name(#[trigger] self.entries@[i].name@)
                && valid_command(self.entries@[i].command@)
    }

    /// An empty registry.
    pub fn new() -> (r: Registry)
        ensures
            r.wf(),
            r@ == Map::<Seq<u8>, Seq<u8>>::empty(),
    {
        Registry { entries: Vec::new() }
    }

    /// The position of the entry named `name`, if any.
    fn find_index(&self, name: &Vec<u8>) -> (r: Option<usize>)
        ensures
            match r {
                Some(i) => i < self.entries@.len() && self.entries@[i as int].name@ == name@,
                None => forall|i: int|
                    0 <= i < self.entries@.len() ==> (#[trigger] self.entries@[i].name@) != name@,
            },
    {
        let mut i: usize = 0;
        while i < self.entries.len()
            invariant
                i <= self.entries@.len(),
                forall|j: int| 0 <= j < i ==> (#[trigger] self.entries@[j].name@) != name@,
            decreases self.entries@.len() - i,
        {
            if bytes_eq(&self.entries[i].name, name) {
                return Some(i);
            }
            i += 1;
        }
        None
    }

    /// Does the registry hold an entry named `name`?
    pub fn contains(&self, name: &Vec<u8>) -> (r: bool)
        ensures
            r == self@.contains_key(name@),
    {
        proof {
            lemma_map_of_contains(self.entries@, name@);
        }
        match self.find_index(name) {
            Some(_) => true,
            None => false,
        }
    }

    /// The command recorded for `name`, if any.
    pub fn get_command(&self, name: &Vec<u8>) -> (r: Option<Vec<u8>>)
        requires
            self.wf(),
        ensures
            match r {
                Some(c) => self@.contains_key(name@) && c@ == self@[name@],
                None => !self@.contains_key(name@),
            },
    {
        proof {
            lemma_map_of_contains(self.entries@, name@);
        }
        match self.find_index(name) {
            Some(i) => {
                proof {
                    lemma_map_of_index(self.entries@, i as int);
                }
                let c = &self.entries[i].command;
                Some(crate::bytes::copy_region(c, 0, c.len()))
            },
            None => None,
        }
    }

    /// Appends a fresh entry. The name must not be present yet.
    pub fn insert_entry(&mut self, name: Vec<u8>, command: Vec<u8>)
        requires
            old(self).wf(),
            !old(self)@.contains_key(name@),
            valid_name(name@),
            valid_command(command@),
        ensures
            final(self).wf(),
            final(self)@ == old(self)@.insert(name@, command@),
    {
        proof {
            lemma_map_of_contains(self.entries@, name@);
        }
        let ghost old_entries = self.entries@;
        let entry = ServiceEntry { name, command };
        self.entries.push(entry);
        proof {
            assert(self.entries@.drop_last() =~= old_entries);
            assert forall|i: int, j: int| 0 <= i < j < self.entries@.len() implies self.entries@[i].name@
                != self.entries@[j].name@ by {
                if j == self.entries@.len() - 1 {
                    lemma_map_of_contains(old_entries, self.entries@[j].name@);
                }
            }
        }
    }

    /// Deletes the entry named `name`. The name must be present.
    pub fn remove_entry(&mut self, name: &Vec<u8>)
        requires
            old(self).wf(),
            old(self)@.contains_key(name@),
        ensures
            final(self).wf(),
            final(self)@ == old(self)@.remove(name@),
    {
        proof {
            lemma_map_of_contains(self.entries@, name@);
        }
        let idx = match self.find_index(name) {
            Some(i) => i,
            None => {
                proof {
                    assert(false);
                }
                0
            },
        };
        let ghost old_entries = self.entries@;
        proof {
            lemma_map_of_remove(old_entries, idx as int);
        }
        self.entries.remove(idx);
        proof {
            assert(self.entries@ =~= old_entries.remove(idx as int));
        }
    }
}

/// A name is in the map of a sequence of entries exactly when some entry
/// carries it.
pub proof fn lemma_map_of_contains(s: Seq<ServiceEntry>, n: Seq<u8>)
    ensures
        map_of(s).contains_key(n) <==> exists|i: int| 0 <= i < s.len() && s[i].name@ == n,
    decreases s.len(),
{
    if s.len() > 0 {
        lemma_map_of_contains(s.drop_last(), n);
        if s.last().name@ == n {
            assert(s[s.len() - 1].name@ == n);
        } else {
            if exists|i: int| 0 <= i < s.len() && s[i].name@ == n {
                let i = choose|i: int| 0 <= i < s.len() && s[i].name@ == n;
                assert(s.drop_last()[i] == s[i]);
            }
            if exists|i: int| 0 <= i < s.drop_last().len() && s.drop_last()[i].name@ == n {
                let i = choose|i: int| 0 <= i < s.drop_last().len() && s.drop_last()[i].name@
                    == n;
                assert(s[i] == s.drop_last()[i]);
            }
        }
    }
}

/// With distinct names, the map sends each entry's name to its command.
pub proof fn lemma_map_of_index(s: Seq<ServiceEntry>, i: int)
    requires
        unique_names(s),
        0 <= i < s.len(),
    ensures
        map_of(s).contains_key(s[i].name@),
        map_of(s)[s[i].name@] == s[i].command@,
    decreases s.len(),
{
    if i == s.len() - 1 {
        assert(s.last() == s[i]);
    } else {
        assert(s.drop_last()[i] == s[i]);
        lemma_map_of_index(s.drop_last(), i);
        assert(s[i].name@ != s.last().name@);
    }
}

/// With distinct names, deleting entry `i` deletes exactly its name from the
/// map.
pub proof fn lemma_map_of_remove(s: Seq<ServiceEntry>, i: int)
    requires
        unique_names(s),
        0 <= i < s.len(),
    ensures
        map_of(s.remove(i)) == map_of(s).remove(s[i].name@),
    decreases s.len(),
{
    let n = s[i].name@;
    if i == s.len() - 1 {
        assert(s.remove(i) =~= s.drop_last());
        lemma_map_of_contains(s.drop_last(), n);
        assert forall|k: int| 0 <= k < s.drop_last().len() implies s.drop_last()[k].name@ != n by {
            assert(s[k] == s.drop_last()[k]);
        }
        assert(!map_of(s.drop_last()).contains_key(n));
        assert(map_of(s.drop_last()).insert(n, s[i].command@).remove(n) =~= map_of(
            s.drop_last(),
        ));
    } else {
        let t = s.remove(i);
        assert(t.drop_last() =~= s.drop_last().remove(i));
        assert(t.last() == s.last());
        lemma_map_of_remove(s.drop_last(), i);
        assert(s.drop_last()[i] == s[i]);
        assert(s.last().name@ != n);
        assert(map_of(t) == map_of(s.drop_last()).remove(n).insert(
            s.last().name@,
            s.last().command@,
        ));
        assert(map_of(s.drop_last()).remove(n).insert(s.last().name@, s.last().command@) =~= map_of(
            s.drop_last(),
        ).insert(s.last().name@, s.last().command@).remove(n));
    }
}

} // verus!
