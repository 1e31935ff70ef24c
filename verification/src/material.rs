//! The materials a hut can be built of.

use vstd::prelude::*;

verus! {

/// What a hut is built of. The material selects the distance model of the hut: a wall
/// of single bricks for straw, one closed shell for the theoretical hut.
#[derive(Debug, Clone, Copy, PartialEq, Eq, Structural)]
pub enum Material {
    Straw,
    Wood,
    Clay,
    Theory,
}

impl Material {
    /// The material has a distance model.
    pub open spec fn modelled(self) -> bool {
        self == Material::Straw || self == Material::Theory
    }

    /// Whether a hut of this material can be sampled: straw and the theoretical hut
    /// have a distance model, wood and clay have none yet.
    pub fn is_modelled(&self) -> (ok: bool)
        ensures
            ok == self.modelled(),
    {
        match self {
            Material::Straw => true,
            Material::Wood => false,
            Material::Clay => false,
            Material::Theory => true,
        }
    }
}

} // verus!
