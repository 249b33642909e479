use vstd::prelude::*;

verus! {

/// The kinds of material a grid cell can hold.
#[derive(Clone, Copy, PartialEq, Eq, Structural, Debug, Hash)]
pub enum Material {
    Air,
    Dirt,
    Wood,
    Sand,
    Leaf,
    Fiber,
}

impl Material {
    /// Everything but air occupies space.
    pub open spec fn solid(self) -> bool {
        self != Material::Air
    }

    /// Ordering key used by the granular rule: a heavier material sinks
    /// through a lighter one.
    pub open spec fn density_of(self) -> u8 {
        match self {
            Material::Air => 0,
            Material::Leaf => 1,
            Material::Fiber => 2,
            Material::Sand => 2,
            Material::Dirt => 3,
            Material::Wood => 5,
        }
    }

    /// Materials that the granular rule moves.
    pub open spec fn granular(self) -> bool {
        self == Material::Sand
    }

    /// Materials that hold a structure in place.
    pub open spec fn ground(self) -> bool {
        self == Material::Dirt || self == Material::Sand
    }

    pub fn is_solid(&self) -> (r: bool)
        ensures
            r == self.solid(),
    {
        !matches!(self, Material::Air)
    }

    pub fn density(&self) -> (r: u8)
        ensures
            r == self.density_of(),
    {
        match self {
            Material::Air => 0,
            Material::Leaf => 1,
            Material::Fiber => 2,
            Material::Sand => 2,
            Material::Dirt => 3,
            Material::Wood => 5,
        }
    }

    pub fn is_granular(&self) -> (r: bool)
        ensures
            r == self.granular(),
    {
        matches!(self, Material::Sand)
    }

    pub fn is_ground(&self) -> (r: bool)
        ensures
            r == self.ground(),
    {
        matches!(self, Material::Dirt | Material::Sand)
    }
}

} // verus!
