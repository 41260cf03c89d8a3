//! The colour universe: the fixed palette that chromosomes order.

use crate::gene::Gene;
use color_space::Rgb;
use rand::rngs::StdRng;
use vstd::prelude::*;

verus! {

/// `color_space::Rgb`, carried through as an opaque value: the library only
/// stores colours and hands them back.
#[verifier::external_type_specification]
#[verifier::external_body]
pub struct ExRgb(Rgb);

/// A colour of the palette.
pub type Color = Rgb;

/// The palette. It is fixed once built; chromosomes hold indices into it.
#[derive(Clone, Debug)]
pub struct World {
    colors: Vec<Color>,
}

impl View for World {
    type V = Seq<Color>;

    closed spec fn view(&self) -> Seq<Color> {
        self.colors@
    }
}

impl World {
    /// The palette made of `colors`, in that order.
    pub fn new(colors: Vec<Color>) -> (r: World)
        ensures
            r@ == colors@,
    {
        World { colors }
    }

    /// The number of colours.
    pub fn len(&self) -> (r: usize)
        ensures
            r == self@.len(),
    {
        self.colors.len()
    }

    /// The colour at `index`.
    pub fn color(&self, index: usize) -> (r: Color)
        requires
            index < self@.len(),
        ensures
            r == self@[index as int],
    {
        self.colors[index]
    }

    /// The colours in the order that `gene` gives them.
    pub fn iter_colors(&self, gene: &Gene) -> (r: Vec<Color>)
        requires
            forall|i: int| 0 <= i < gene@.len() ==> #[trigger] gene@[i] < self@.len(),
        ensures
            r@.len() == gene@.len(),
            forall|i: int| 0 <= i < gene@.len() ==> #[trigger] r@[i] == self@[gene@[i] as int],
    {
        let order = gene.indices();
        let mut out: Vec<Color> = Vec::new();
        let mut i: usize = 0;
        while i < order.len()
            invariant
                i <= order@.len(),
                order@ == gene@,
                forall|k: int| 0 <= k < gene@.len() ==> #[trigger] gene@[k] < self@.len(),
                out@.len() == i,
                forall|k: int| 0 <= k < i ==> #[trigger] out@[k] == self@[gene@[k] as int],
            decreases order@.len() - i,
        {
            out.push(self.colors[order[i]]);
            i += 1;
        }
        out
    }

    /// `count` chromosomes, each a uniformly shuffled ordering of the palette.
    pub fn generate_population(&self, count: usize, rng: &mut StdRng) -> (r: Vec<Gene>)
        ensures
            r@.len() == count,
            forall|i: int|
                0 <= i < count ==> (#[trigger] r@[i]).wf() && r@[i]@.len() == self@.len()
                    && r@[i].has_start_probs(),
    {
        let mut out: Vec<Gene> = Vec::new();
        let mut i: usize = 0;
        while i < count
            invariant
                i <= count,
                out@.len() == i,
                forall|k: int|
                    0 <= k < i ==> (#[trigger] out@[k]).wf() && out@[k]@.len() == self@.len()
                        && out@[k].has_start_probs(),
            decreases count - i,
        {
            out.push(Gene::shuffled(self.colors.len(), rng));
            i += 1;
        }
        out
    }

    /// Mutates `gene` in place; see `Gene::mutate`.
    pub fn mutate(&self, gene: &mut Gene, rng: &mut StdRng)
        requires
            old(gene).wf(),
            old(gene)@.len() >= 3,
        ensures
            final(gene).wf(),
            final(gene)@.len() == old(gene)@.len(),
            crate::gene::is_one_move(old(gene)@, final(gene)@),
    {
        gene.mutate(rng)
    }
}

} // verus!
