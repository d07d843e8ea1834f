//! Names that are found again by their position.

use vstd::prelude::*;
use crate::workflow::schema::key_names;
use crate::workflow::schema::KeyName;

verus! {

/// `i` is the last position at which `names` holds `name`.
pub open spec fn is_last_index_of(names: Seq<KeyName>, name: KeyName, i: int) -> bool {
    &&& 0 <= i < names.len()
    &&& names[i] == name
    &&& forall|j: int| i < j < names.len() ==> names[j] != name
}

/// A list of names in which each name is found again by its position.
pub struct Literals {
    pub names: Vec<String>,
}

impl View for Literals {
    type V = Seq<KeyName>;

    open spec fn view(&self) -> Seq<KeyName> {
        key_names(self.names@)
    }
}

impl Literals {
    /// A list without names.
    pub fn new() -> (r: Self)
        ensures
            r@ == Seq::<KeyName>::empty(),
    {
        let r = Self { names: Vec::new() };
        r
    }

    /// The list that holds `literals` in the given order.
    pub fn new_with_literals(literals: &[&str]) -> (r: Self)
        ensures
            r@.len() == literals@.len(),
            forall|i: int| 0 <= i < literals@.len() ==> r@[i] == literals@[i]@,
    {
        let mut names: Vec<String> = Vec::new();
        let mut i: usize = 0;
        while i < literals.len()
            invariant
                i <= literals.len(),
                names.len() == i,
                forall|j: int| 0 <= j < i ==> (#[trigger] names@[j])@ == literals@[j]@,
            decreases literals.len() - i,
        {
            names.push(literals[i].to_owned());
            i = i + 1;
        }
        Self { names }
    }

    /// The position of `name`: its last one where it occurs more than once.
    pub fn get_index(&self, name: &str) -> (r: Option<usize>)
        ensures
            r matches Some(i) ==> is_last_index_of(self@, name@, i as int),
            r is None ==> !self@.contains(name@),
            r is Some == self@.contains(name@),
    {
        let wanted = name.to_owned();
        let mut i: usize = self.names.len();
        while i > 0
            invariant
                i <= self.names.len(),
                wanted@ == name@,
                forall|j: int| i <= j < self.names.len() ==> self@[j] != name@,
            decreases i,
        {
            i = i - 1;
            if self.names[i] == wanted {
                assert(self@[i as int] == name@);
                return Some(i);
            }
        }
        None
    }

    /// The position of `name`, which is appended first where the list does
    /// not hold it.
    pub fn get_or_add_index(&mut self, name: &str) -> (r: usize)
        ensures
            old(self)@.contains(name@) ==> final(self)@ == old(self)@ && is_last_index_of(
                old(self)@,
                name@,
                r as int,
            ),
            !old(self)@.contains(name@) ==> final(self)@ == old(self)@.push(name@) && r == old(
                self,
            )@.len(),
    {
        match self.get_index(name) {
            Some(i) => i,
            None => {
                let i = self.names.len();
                self.names.push(name.to_owned());
                i
            },
        }
    }

    /// The name at position `idx`.
    pub fn name_at(&self, idx: usize) -> (r: &String)
        requires
            idx < self@.len(),
        ensures
            r@ == self@[idx as int],
    {
        &self.names[idx]
    }

    /// How many names the list holds.
    pub fn len(&self) -> (r: usize)
        ensures
            r == self@.len(),
    {
        self.names.len()
    }
}

} // verus!
