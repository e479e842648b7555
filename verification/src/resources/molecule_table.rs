//! The table of known molecules.
use vstd::prelude::*;

use crate::color::Rgb;
use crate::world::chemistry::{Element, first_position};

verus! {

/// A molecule: its elements with their ratios, and its display color.
#[derive(Debug)]
pub struct Molecule<R> {
    pub name: String,
    pub formula: String,
    pub id: usize,
    pub components: Vec<Element<R>>,
    pub color: Rgb,
}

/// All known molecules.
#[derive(Debug)]
pub struct MoleculeTable<R> {
    pub molecule: Vec<Molecule<R>>,
}

/// The ids of a list of molecules.
pub open spec fn molecule_ids<R>(ms: Seq<Molecule<R>>) -> Seq<usize> {
    ms.map_values(|m: Molecule<R>| m.id)
}

impl<R> MoleculeTable<R> {
    /// The first molecule with the given id.
    pub fn get_molecule(&self, id: usize) -> (res: Option<&Molecule<R>>)
        ensures
            match first_position(molecule_ids(self.molecule@), id, 0) {
                Some(i) => res == Some(&self.molecule@[i]),
                None => res is None,
            },
    {
        let ghost ids = molecule_ids(self.molecule@);
        let mut i: usize = 0;
        while i < self.molecule.len()
            invariant
                i <= self.molecule@.len(),
                ids == molecule_ids(self.molecule@),
                first_position(ids, id, 0) == first_position(ids, id, i as int),
            decreases self.molecule@.len() - i,
        {
            if self.molecule[i].id == id {
                return Some(&self.molecule[i]);
            }
            i += 1;
        }
        None
    }
}

} // verus!
