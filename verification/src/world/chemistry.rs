//! Chemical compositions: which elements a body is made of, and in what ratio.
use vstd::prelude::*;

use crate::resources::molecule_table::Molecule;

verus! {

/// One element of a composition: its id in the periodic table and its ratio (of type `R`).
#[derive(Clone, Copy, Debug)]
pub struct Element<R> {
    pub element: usize,
    pub ratio: R,
}

/// The elements a body is made of.
#[derive(Clone, Debug)]
pub struct ChemicalComposition<R> {
    pub components: Vec<Element<R>>,
}

/// The first position at or after `from` in `ids` that holds `id`.
pub open spec fn first_position(ids: Seq<usize>, id: usize, from: int) -> Option<int>
    decreases ids.len() - from,
{
    if from < 0 || from >= ids.len() {
        None
    } else if ids[from] == id {
        Some(from)
    } else {
        first_position(ids, id, from + 1)
    }
}

/// The element ids of a list of elements.
pub open spec fn element_ids<R>(es: Seq<Element<R>>) -> Seq<usize> {
    es.map_values(|e: Element<R>| e.element)
}

/// What a found position means: it holds `id` and no earlier one does; `None` means no
/// position holds `id`.
pub proof fn lemma_first_position(ids: Seq<usize>, id: usize, from: int)
    requires
        0 <= from <= ids.len(),
    ensures
        match first_position(ids, id, from) {
            Some(i) => from <= i < ids.len() && ids[i] == id && forall|j: int| from <= j < i ==> ids[j] != id,
            None => forall|j: int| from <= j < ids.len() ==> ids[j] != id,
        },
    decreases ids.len() - from,
{
    if from < ids.len() && ids[from] != id {
        lemma_first_position(ids, id, from + 1);
    }
}

/// The available and demanded ratio of each component of a molecule, while every
/// component is found in `available`; `None` as soon as one is not.
pub open spec fn component_pairs<R>(available: Seq<Element<R>>, demanded: Seq<Element<R>>) -> Option<Seq<(R, R)>>
    decreases demanded.len(),
{
    if demanded.len() == 0 {
        Some(Seq::empty())
    } else {
        match component_pairs(available, demanded.drop_last()) {
            None => None,
            Some(prev) => match first_position(element_ids(available), demanded.last().element, 0) {
                None => None,
                Some(i) => Some(prev.push((available[i].ratio, demanded.last().ratio))),
            },
        }
    }
}

impl<R: Copy> ChemicalComposition<R> {
    /// The first component with the given element id.
    pub fn find_element(&self, element: usize) -> (res: Option<Element<R>>)
        ensures
            match first_position(element_ids(self.components@), element, 0) {
                Some(i) => res == Some(self.components@[i]),
                None => res is None,
            },
    {
        let ghost ids = element_ids(self.components@);
        let mut i: usize = 0;
        while i < self.components.len()
            invariant
                i <= self.components@.len(),
                ids == element_ids(self.components@),
                first_position(ids, element, 0) == first_position(ids, element, i as int),
            decreases self.components@.len() - i,
        {
            if self.components[i].element == element {
                return Some(self.components[i]);
            }
            i += 1;
        }
        None
    }

    /// For each component of `molecule` in order, the ratio available in this composition
    /// and the ratio the molecule demands; `None` if some component's element is missing.
    pub fn component_pairs(&self, molecule: &Molecule<R>) -> (res: Option<Vec<(R, R)>>)
        ensures
            match component_pairs(self.components@, molecule.components@) {
                Some(ps) => res matches Some(v) && v@ == ps,
                None => res is None,
            },
    {
        let mut pairs: Vec<(R, R)> = Vec::new();
        let mut k: usize = 0;
        assert(molecule.components@.take(0) =~= Seq::<Element<R>>::empty());
        while k < molecule.components.len()
            invariant
                k <= molecule.components@.len(),
                component_pairs(self.components@, molecule.components@.take(k as int)) == Some(pairs@),
            decreases molecule.components@.len() - k,
        {
            let demand = molecule.components[k];
            assert(molecule.components@.take(k + 1).drop_last() =~= molecule.components@.take(k as int));
            match self.find_element(demand.element) {
                Some(available) => {
                    pairs.push((available.ratio, demand.ratio));
                },
                None => {
                    proof {
                        lemma_component_pairs_none(self.components@, molecule.components@, k as int + 1);
                    }
                    return None;
                },
            }
            k += 1;
        }
        assert(molecule.components@.take(k as int) =~= molecule.components@);
        Some(pairs)
    }
}

/// Once a prefix of the demanded components fails, the whole list fails.
pub proof fn lemma_component_pairs_none<R>(available: Seq<Element<R>>, demanded: Seq<Element<R>>, k: int)
    requires
        0 <= k <= demanded.len(),
        component_pairs(available, demanded.take(k)) is None,
    ensures
        component_pairs(available, demanded) is None,
    decreases demanded.len() - k,
{
    if k < demanded.len() {
        assert(demanded.take(k + 1).drop_last() =~= demanded.take(k));
        lemma_component_pairs_none(available, demanded, k + 1);
    } else {
        assert(demanded.take(k) =~= demanded);
    }
}

} // verus!
