//! The periodic table: the chemical elements the simulation knows.
use vstd::prelude::*;

use crate::color::{Rgb, spec_black};
use crate::world::chemistry::{Element, first_position};

verus! {

/// A chemical element: its names, id, display color and physical properties `P`.
#[derive(Debug)]
pub struct Chemical<P> {
    pub name: String,
    pub symbol: String,
    pub id: usize,
    pub properties: P,
    pub color: Rgb,
}

/// All known chemical elements.
#[derive(Debug)]
pub struct PeriodicTable<P> {
    pub chemical: Vec<Chemical<P>>,
}

/// The ids of a list of chemicals.
pub open spec fn chemical_ids<P>(cs: Seq<Chemical<P>>) -> Seq<usize> {
    cs.map_values(|c: Chemical<P>| c.id)
}

impl<P> PeriodicTable<P> {
    /// The first chemical with the given id.
    pub fn get_element(&self, id: usize) -> (res: Option<&Chemical<P>>)
        ensures
            match first_position(chemical_ids(self.chemical@), id, 0) {
                Some(i) => res == Some(&self.chemical@[i]),
                None => res is None,
            },
    {
        let ghost ids = chemical_ids(self.chemical@);
        let mut i: usize = 0;
        while i < self.chemical.len()
            invariant
                i <= self.chemical@.len(),
                ids == chemical_ids(self.chemical@),
                first_position(ids, id, 0) == first_position(ids, id, i as int),
            decreases self.chemical@.len() - i,
        {
            if self.chemical[i].id == id {
                return Some(&self.chemical[i]);
            }
            i += 1;
        }
        None
    }

    /// The display color of the element's chemical, black if the table lacks it.
    pub fn get_color<R>(&self, element: &Element<R>) -> (res: Rgb)
        ensures
            match first_position(chemical_ids(self.chemical@), element.element, 0) {
                Some(i) => res == self.chemical@[i].color,
                None => res == spec_black(),
            },
    {
        match self.get_element(element.element) {
            Some(chem_info) => chem_info.color,
            None => Rgb::black(),
        }
    }

    /// The name of the element's chemical, `"Unknown element"` if the table lacks it.
    pub fn get_name<R>(&self, element: &Element<R>) -> (res: String)
        ensures
            match first_position(chemical_ids(self.chemical@), element.element, 0) {
                Some(i) => res@ == self.chemical@[i].name@,
                None => res@ == "Unknown element"@,
            },
    {
        match self.get_element(element.element) {
            Some(chem_info) => chem_info.name.clone(),
            None => "Unknown element".to_owned(),
        }
    }
}

impl<P: Default> PeriodicTable<P> {
    /// The placeholder chemical: `"UNKNOWN ELEMENT"`, symbol `"?"`, id 0, black, with
    /// default properties.
    pub fn create_default_element(&self) -> (res: Chemical<P>)
        ensures
            res.name@ == "UNKNOWN ELEMENT"@,
            res.symbol@ == "?"@,
            res.id == 0,
            res.color == spec_black(),
    {
        Chemical {
            name: "UNKNOWN ELEMENT".to_owned(),
            symbol: "?".to_owned(),
            id: 0,
            properties: P::default(),
            color: Rgb::black(),
        }
    }
}

} // verus!
