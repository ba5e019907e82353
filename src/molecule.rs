//! The particles of the simulation and the bonds between them.

use vstd::prelude::*;
use crate::fixed::Vec3;

verus! {

/// The category of a particle. `Glutenin` carries whether it still has a
/// free reactive site (a thiol group able to form a disulfide bridge).
#[derive(Clone, Copy, Debug, PartialEq, Eq, Structural)]
pub enum MoleculeType {
    Gliadin,
    Glutenin { has_free_thiol: bool },
    Water,
    Yeast,
    CO2,
    Ethanol,
    Sugar,
    Salt,
    Ash,
}

/// A point particle. Position is in micro-units, velocity in micro-units per second.
#[derive(Clone, Copy, Debug, PartialEq, Eq, Structural)]
pub struct Molecule {
    pub id: u64,
    pub pos: Vec3,
    pub velocity: Vec3,
    pub mol_type: MoleculeType,
}

/// An undirected constraint between two particles, with its rest distance in micro-units.
#[derive(Clone, Copy, Debug, PartialEq, Eq, Structural)]
pub struct Bond {
    pub molecule_a_id: u64,
    pub molecule_b_id: u64,
    pub target_distance: i64,
}

/// The radius of each category, in micro-units.
pub open spec fn radius_of(t: MoleculeType) -> i64 {
    match t {
        MoleculeType::Gliadin => 3_000_000,
        MoleculeType::Glutenin { .. } => 4_000_000,
        MoleculeType::Water => 1_500_000,
        MoleculeType::Yeast => 5_000_000,
        MoleculeType::CO2 => 8_000_000,
        MoleculeType::Ethanol => 2_000_000,
        MoleculeType::Sugar => 2_500_000,
        MoleculeType::Salt => 1_800_000,
        MoleculeType::Ash => 2_000_000,
    }
}

/// The mass of each category, in whole mass units.
pub open spec fn mass_of(t: MoleculeType) -> i64 {
    match t {
        MoleculeType::Gliadin => 10,
        MoleculeType::Glutenin { .. } => 12,
        MoleculeType::Water => 1,
        MoleculeType::Yeast => 15,
        MoleculeType::CO2 => 2,
        MoleculeType::Ethanol => 3,
        MoleculeType::Sugar => 4,
        MoleculeType::Salt => 2,
        MoleculeType::Ash => 2,
    }
}

/// The largest radius of any category.
pub const MAX_RADIUS: i64 = 8_000_000;

pub proof fn lemma_radius_bounds(t: MoleculeType)
    ensures
        0 < radius_of(t) <= MAX_RADIUS,
        1 <= mass_of(t) <= 15,
{
}

/// Whether two categories are the same, ignoring a protein's reactive flag.
pub open spec fn same_category(a: MoleculeType, b: MoleculeType) -> bool {
    match (a, b) {
        (MoleculeType::Glutenin { .. }, MoleculeType::Glutenin { .. }) => true,
        _ => a == b,
    }
}

/// A glutenin with a free reactive site.
pub open spec fn is_reactive(t: MoleculeType) -> bool {
    t == (MoleculeType::Glutenin { has_free_thiol: true })
}

impl MoleculeType {
    /// See [`same_category`].
    pub fn same_category(&self, other: &MoleculeType) -> (r: bool)
        ensures
            r == same_category(*self, *other),
    {
        match (self, other) {
            (MoleculeType::Glutenin { .. }, MoleculeType::Glutenin { .. }) => true,
            _ => *self == *other,
        }
    }
}

impl Molecule {
    /// A particle not yet placed in a grid: its id is 0 until it is inserted.
    pub fn new(mol_type: MoleculeType, pos: Vec3, velocity: Vec3) -> (r: Self)
        ensures
            r == (Molecule { id: 0, pos, velocity, mol_type }),
    {
        Molecule { id: 0, pos, velocity, mol_type }
    }

    pub fn radius(&self) -> (r: i64)
        ensures
            r == radius_of(self.mol_type),
    {
        match self.mol_type {
            MoleculeType::Gliadin => 3_000_000,
            MoleculeType::Glutenin { .. } => 4_000_000,
            MoleculeType::Water => 1_500_000,
            MoleculeType::Yeast => 5_000_000,
            MoleculeType::CO2 => 8_000_000,
            MoleculeType::Ethanol => 2_000_000,
            MoleculeType::Sugar => 2_500_000,
            MoleculeType::Salt => 1_800_000,
            MoleculeType::Ash => 2_000_000,
        }
    }

    pub fn mass(&self) -> (r: i64)
        ensures
            r == mass_of(self.mol_type),
    {
        match self.mol_type {
            MoleculeType::Gliadin => 10,
            MoleculeType::Glutenin { .. } => 12,
            MoleculeType::Water => 1,
            MoleculeType::Yeast => 15,
            MoleculeType::CO2 => 2,
            MoleculeType::Ethanol => 3,
            MoleculeType::Sugar => 4,
            MoleculeType::Salt => 2,
            MoleculeType::Ash => 2,
        }
    }
}

} // verus!
