//! The simulation state: the particles, the bonds between them, the recipe
//! and the per-step pipeline (motion, bond formation, yeast metabolism,
//! bond constraints).

use vstd::prelude::*;
use std::collections::HashMap;
use crate::fixed::{Vec3, UNIT, PPM, div_trunc, isqrt, sqrt_floor};
use crate::grid::{SpatialGrid3D, lemma_close_coords_adjacent};
use crate::molecule::{Bond, Molecule, MoleculeType, same_category, is_reactive, lemma_radius_bounds};
use crate::random::random_in;
use crate::physics::{diff, dist_sq, step_molecule, step_exec, FORCE_SPEED_CAP, BOND_SPEED_CAP, within_radius, pushed_velocity, listed_before, lemma_listed_step, within_radius_exec, dist_sq_exec, kick, bond_pull, total_pull, pulled, bond_velocity, bond_pull_exec};
use crate::chemistry::{meeting_product, fermentation, lemma_fermentation_empty, lemma_fermentation_co2, lemma_fermentation_ethanol, BOND_REACH_SQ, bond_threshold, bond_forms, bond_candidate, spent, any_salt, lemma_root_below_reach, listed_id, lemma_listed_id_step, EAT_REACH_SQ, CO2_LIFT, CO2_JITTER, ETHANOL_PPM, co2_threshold, co2_emitted, clamp64_exec, eats, is_eaten, lifted, jitter, eaten_among, lemma_eating_is_local};

verus! {

/// Two reactive proteins closer than this (in micro-units) may bond.
pub const BOND_REACH: i64 = 8_000_000;

/// The side of a grid cell, in micro-units.
pub const CELL_SIZE: i64 = 15_000_000;

/// The largest accepted side of the domain, in micro-units.
pub const MAX_DIM: i64 = 0x100_0000_0000;

/// Every particle other than carbon dioxide and ethanol stays within this bound on each axis.
pub const CORE_BOUND: i64 = 0x1_0000_0000_0000;

/// Every particle stays within this bound on each axis.
pub const POS_BOUND: i64 = 0x2_0000_0000_0000;

/// Default temperature, in thousandths of a degree Celsius.
pub const DEFAULT_TEMPERATURE: i64 = 25_000;

pub const DEFAULT_HYDRATION: i64 = 720_000;

pub const DEFAULT_SALT: i64 = 20_000;

pub const DEFAULT_YEAST: i64 = 200_000;

/// Thirty minutes, in microseconds.
pub const DEFAULT_AUTOLYSE: u64 = 1_800_000_000;

/// Number of flour proteins and of water particles in the classic recipe.
pub const FLOUR_PROTEINS: u64 = 200;

pub const WATER_AMOUNT: u64 = 200;

/// Out of 100, the share of proteins that are gliadin (the rest are glutenin).
pub const GLIADIN_PERCENT: i64 = 40;

/// Whether a point lies in the half-open box `[0, w) x [0, h) x [0, d)`.
pub open spec fn in_domain(p: Vec3, w: i64, h: i64, d: i64) -> bool {
    0 <= p.x < w && 0 <= p.y < h && 0 <= p.z < d
}

/// Every component of `v` lies in `[-s, s)`.
pub open spec fn speed_within(v: Vec3, s: i64) -> bool {
    -s <= v.x < s && -s <= v.y < s && -s <= v.z < s
}

pub open spec fn within_bound(p: Vec3, b: i64) -> bool {
    -b <= p.x <= b && -b <= p.y <= b && -b <= p.z <= b
}

/// A gliadin or a glutenin with a free reactive site.
pub open spec fn is_fresh_protein(t: MoleculeType) -> bool {
    t == MoleculeType::Gliadin || is_reactive(t)
}

/// Two bonds join the same unordered pair.
pub open spec fn same_pair(a: Bond, b: Bond) -> bool {
    (a.molecule_a_id == b.molecule_a_id && a.molecule_b_id == b.molecule_b_id) || (a.molecule_a_id
        == b.molecule_b_id && a.molecule_b_id == b.molecule_a_id)
}

/// No two bonds of `bonds` join the same unordered pair.
pub open spec fn no_duplicate_pairs(bonds: Seq<Bond>) -> bool {
    forall|i: int, j: int|
        0 <= i < j < bonds.len() ==> !same_pair(#[trigger] bonds[i], #[trigger] bonds[j])
}

/// A position that the state accepts for a particle of category `t`.
pub open spec fn position_ok(t: MoleculeType, p: Vec3) -> bool {
    &&& within_bound(p, POS_BOUND)
    &&& (t != MoleculeType::CO2 && t != MoleculeType::Ethanol) ==> within_bound(p, CORE_BOUND)
}

/// A glutenin whose reactive site is used up.
pub open spec fn is_spent(t: MoleculeType) -> bool {
    t == (MoleculeType::Glutenin { has_free_thiol: false })
}

/// Every bond joins ids below `next`, and each of its ends that is live in
/// `g` is a glutenin without a free reactive site.
pub open spec fn bonds_settled(bonds: Seq<Bond>, g: Map<u64, Molecule>, next: u64) -> bool {
    forall|i: int|
        0 <= i < bonds.len() ==> {
            let b = #[trigger] bonds[i];
            &&& b.molecule_a_id < next
            &&& b.molecule_b_id < next
            &&& g.contains_key(b.molecule_a_id) ==> is_spent(g[b.molecule_a_id].mol_type)
            &&& g.contains_key(b.molecule_b_id) ==> is_spent(g[b.molecule_b_id].mol_type)
        }
}

/// Particle `id` is an end of one of the bonds of `bonds` from index `from` on.
pub open spec fn is_endpoint(bonds: Seq<Bond>, from: int, id: u64) -> bool {
    exists|i: int|
        from <= i < bonds.len() && (#[trigger] bonds[i].molecule_a_id == id || bonds[i].molecule_b_id
            == id)
}

proof fn lemma_endpoint_grows(b0: Seq<Bond>, b1: Seq<Bond>, from: int, id: u64)
    requires
        0 <= from,
        is_endpoint(b0, from, id),
        b0.len() <= b1.len(),
        forall|t: int| 0 <= t < b0.len() ==> b1[t] == b0[t],
    ensures
        is_endpoint(b1, from, id),
{
    let i = choose|i: int|
        from <= i < b0.len() && (#[trigger] b0[i].molecule_a_id == id || b0[i].molecule_b_id == id);
    assert(b1[i] == b0[i]);
}

/// Bonds stay settled when no particle below the old `next` becomes reactive
/// or appears.
proof fn lemma_settled_kept(
    bonds: Seq<Bond>,
    g0: Map<u64, Molecule>,
    g1: Map<u64, Molecule>,
    n0: u64,
    n1: u64,
)
    requires
        bonds_settled(bonds, g0, n0),
        n0 <= n1,
        forall|id: u64|
            #[trigger] g1.contains_key(id) && id < n0 ==> g0.contains_key(id) && (g1[id].mol_type
                == g0[id].mol_type || is_spent(g1[id].mol_type)),
    ensures
        bonds_settled(bonds, g1, n1),
{
    assert forall|i: int| 0 <= i < bonds.len() implies {
        let b = #[trigger] bonds[i];
        &&& b.molecule_a_id < n1
        &&& b.molecule_b_id < n1
        &&& g1.contains_key(b.molecule_a_id) ==> is_spent(g1[b.molecule_a_id].mol_type)
        &&& g1.contains_key(b.molecule_b_id) ==> is_spent(g1[b.molecule_b_id].mol_type)
    } by {
        let b = bonds[i];
        if g1.contains_key(b.molecule_a_id) {
            assert(g0.contains_key(b.molecule_a_id));
        }
        if g1.contains_key(b.molecule_b_id) {
            assert(g0.contains_key(b.molecule_b_id));
        }
    }
}

/// The number of particles of an ingredient for a box of `w x h x d`
/// micro-units: the volume in cubic units, times `density / 100000`, times
/// the recipe fraction `ppm / 1000000`, rounded down.
pub open spec fn ingredient_amount(w: i64, h: i64, d: i64, density: int, ppm: i64) -> int {
    ((w / 1000) * (h / 1000) * (d / 1000) * density * ppm) / 100_000_000_000_000_000_000
}

/// A box of `2 * reach` around `c`, cut to `[0, w)` on each axis.
pub open spec fn near_in_box(p: Vec3, c: Vec3, reach: int, w: i64, h: i64, d: i64) -> bool {
    &&& c.x - reach <= p.x < c.x + reach
    &&& c.y - reach <= p.y < c.y + reach
    &&& c.z - reach <= p.z < c.z + reach
    &&& in_domain(p, w, h, d)
}

pub open spec fn min_int(a: int, b: int) -> int {
    if a <= b {
        a
    } else {
        b
    }
}

/// Particles of one ingredient added at ids `from .. from + n`.
pub open spec fn spawned(
    s0: Map<u64, Molecule>,
    s1: Map<u64, Molecule>,
    from: u64,
    n: int,
) -> bool {
    &&& forall|id: u64| #[trigger]
        s1.contains_key(id) <==> s0.contains_key(id) || (from <= id < from + n)
    &&& forall|id: u64| #[trigger] s0.contains_key(id) ==> s1[id] == s0[id]
    &&& forall|id: u64| from <= id < from + n ==> (#[trigger] s1[id]).id == id
}

fn max_i64(a: i64, b: i64) -> (r: i64)
    ensures
        r == if a >= b { a } else { b },
{
    if a >= b {
        a
    } else {
        b
    }
}

fn min_i64(a: i64, b: i64) -> (r: i64)
    ensures
        r == if a <= b { a } else { b },
{
    if a <= b {
        a
    } else {
        b
    }
}

/// A velocity with each component drawn from `[-s, s)`.
fn random_velocity(s: i64) -> (v: Vec3)
    requires
        s > 0,
    ensures
        speed_within(v, s),
{
    Vec3 { x: random_in(-s, s), y: random_in(-s, s), z: random_in(-s, s) }
}

/// The end positions of the bonds of `bonds` whose two ends are live in `g`, in order.
pub open spec fn bond_lines(bonds: Seq<Bond>, g: Map<u64, Molecule>) -> Seq<(Vec3, Vec3)>
    decreases bonds.len(),
{
    if bonds.len() == 0 {
        Seq::empty()
    } else {
        let prev = bond_lines(bonds.drop_last(), g);
        let b = bonds.last();
        if g.contains_key(b.molecule_a_id) && g.contains_key(b.molecule_b_id) {
            prev.push((g[b.molecule_a_id].pos, g[b.molecule_b_id].pos))
        } else {
            prev
        }
    }
}

/// The particles of `ms` of the same category as `t`, in order.
pub open spec fn of_category(ms: Seq<Molecule>, t: MoleculeType) -> Seq<Molecule>
    decreases ms.len(),
{
    if ms.len() == 0 {
        Seq::empty()
    } else {
        let prev = of_category(ms.drop_last(), t);
        if same_category(ms.last().mol_type, t) {
            prev.push(ms.last())
        } else {
            prev
        }
    }
}

/// Adding salt twice has the effect of adding it once, and salt is in after the first call.
pub proof fn lemma_add_salt_idempotent(s0: SimulationState, s1: SimulationState, s2: SimulationState)
    requires
        SimulationState::add_salt_effect(&s0, &s1),
        SimulationState::add_salt_effect(&s1, &s2),
    ensures
        s1.salt_added_spec(),
        s2 == s1,
        s2.molecules() == s1.molecules(),
{
}

/// Adding yeast twice has the effect of adding it once, and yeast is in after the first call.
pub proof fn lemma_add_yeast_idempotent(s0: SimulationState, s1: SimulationState, s2: SimulationState)
    requires
        SimulationState::add_yeast_effect(&s0, &s1),
        SimulationState::add_yeast_effect(&s1, &s2),
    ensures
        s1.yeast_added_spec(),
        s2 == s1,
        s2.molecules() == s1.molecules(),
{
}

/// `a` and `b` are two distinct reactive glutenins of `g` closer than the bonding reach.
pub open spec fn is_candidate(g: Map<u64, Molecule>, a: u64, b: u64) -> bool {
    &&& g.contains_key(a)
    &&& g.contains_key(b)
    &&& a != b
    &&& is_reactive(g[a].mol_type)
    &&& is_reactive(g[b].mol_type)
    &&& dist_sq(g[a].pos, g[b].pos) < BOND_REACH_SQ
}

/// The bond that would join `a` and `b` of `g` at their present distance, rounded down.
pub open spec fn candidate_bond(g: Map<u64, Molecule>, a: u64, b: u64) -> Bond {
    Bond {
        molecule_a_id: a,
        molecule_b_id: b,
        target_distance: sqrt_floor(dist_sq(g[a].pos, g[b].pos)) as i64,
    }
}

/// Some salt particle is among the neighbours (the 3x3x3 cell block) of `p`.
pub open spec fn salt_near(g: SpatialGrid3D, p: Vec3) -> bool {
    exists|id: u64| #[trigger] g.neighborhood(p).contains(id) && g@[id].mol_type == MoleculeType::Salt
}

/// `pairs` lists every unordered candidate pair of `g` once, smaller id first.
pub open spec fn candidate_list(g: Map<u64, Molecule>, pairs: Seq<(u64, u64)>) -> bool {
    &&& pairs.no_duplicates()
    &&& forall|k: int|
        0 <= k < pairs.len() ==> (#[trigger] pairs[k]).0 < pairs[k].1 && is_candidate(
            g,
            pairs[k].0,
            pairs[k].1,
        )
    &&& forall|a: u64, b: u64|
        #[trigger] is_candidate(g, a, b) && a < b ==> pairs.contains((a, b))
}

/// Bonds `new` appended to `bonds` in order, each unless its pair is already bonded.
#[verifier::opaque]
pub open spec fn merged(bonds: Seq<Bond>, new: Seq<Bond>) -> Seq<Bond>
    decreases new.len(),
{
    if new.len() == 0 {
        bonds
    } else {
        let prev = merged(bonds, new.drop_last());
        let b = new.last();
        if exists|i: int| 0 <= i < prev.len() && same_pair(#[trigger] prev[i], b) {
            prev
        } else {
            prev.push(b)
        }
    }
}

/// A particle closer than the bonding reach to another lies in an adjacent cell.
proof fn lemma_bonding_is_local(g: &SpatialGrid3D, a: u64, b: u64)
    requires
        g.wf(),
        g.cell_size_spec() == CELL_SIZE,
        g@.contains_key(a),
        g@.contains_key(b),
        dist_sq(g@[a].pos, g@[b].pos) < BOND_REACH_SQ,
    ensures
        g.neighborhood(g@[a].pos).contains(b),
{
    let p = g@[b].pos;
    let q = g@[a].pos;
    let d = diff(q, p);
    assert(-8_000_000 < d.0 < 8_000_000 && -8_000_000 < d.1 < 8_000_000 && -8_000_000 < d.2
        < 8_000_000) by (nonlinear_arith)
        requires
            d.0 * d.0 + d.1 * d.1 + d.2 * d.2 < 64_000_000_000_000,
    ;
    lemma_close_coords_adjacent(p.x, q.x, CELL_SIZE);
    lemma_close_coords_adjacent(p.y, q.y, CELL_SIZE);
    lemma_close_coords_adjacent(p.z, q.z, CELL_SIZE);
}

/// A particle that some bond pulls is a live end of that bond.
proof fn lemma_pulled_end(bonds: Seq<Bond>, g: Map<u64, Molecule>, id: u64)
    requires
        pulled(bonds, g, id),
    ensures
        g.contains_key(id),
        exists|i: int|
            0 <= i < bonds.len() && (#[trigger] bonds[i].molecule_a_id == id || bonds[i].molecule_b_id
                == id),
    decreases bonds.len(),
{
    if pulled(bonds.drop_last(), g, id) {
        lemma_pulled_end(bonds.drop_last(), g, id);
        let i = choose|i: int|
            0 <= i < bonds.drop_last().len() && (#[trigger] bonds.drop_last()[i].molecule_a_id == id
                || bonds.drop_last()[i].molecule_b_id == id);
        assert(bonds[i] == bonds.drop_last()[i]);
    } else {
        let i = bonds.len() - 1;
        assert(bonds[i] == bonds.last());
    }
}

/// Owns the particles and bonds, the size of the domain, the recipe and the clock.
pub struct SimulationState {
    grid: SpatialGrid3D,
    bonds: Vec<Bond>,
    width: i64,
    height: i64,
    depth: i64,
    temperature: i64,
    time_elapsed: u64,
    recipe_hydration: i64,
    recipe_salt: i64,
    recipe_yeast: i64,
    autolyse_time: u64,
    salt_added: bool,
    yeast_added: bool,
}

impl SimulationState {
    pub closed spec fn grid_spec(&self) -> SpatialGrid3D {
        self.grid
    }

    /// The live particles, by id.
    pub open spec fn molecules(&self) -> Map<u64, Molecule> {
        self.grid_spec()@
    }

    pub closed spec fn bonds_spec(&self) -> Seq<Bond> {
        self.bonds@
    }

    pub closed spec fn width_spec(&self) -> i64 {
        self.width
    }

    pub closed spec fn height_spec(&self) -> i64 {
        self.height
    }

    pub closed spec fn depth_spec(&self) -> i64 {
        self.depth
    }

    pub closed spec fn temperature_spec(&self) -> i64 {
        self.temperature
    }

    pub closed spec fn time_elapsed_spec(&self) -> u64 {
        self.time_elapsed
    }

    pub closed spec fn recipe_spec(&self) -> (i64, i64, i64, u64) {
        (self.recipe_hydration, self.recipe_salt, self.recipe_yeast, self.autolyse_time)
    }

    pub closed spec fn salt_added_spec(&self) -> bool {
        self.salt_added
    }

    pub closed spec fn yeast_added_spec(&self) -> bool {
        self.yeast_added
    }

    /// The id that the next new particle receives.
    pub open spec fn next_id_spec(&self) -> u64 {
        self.grid_spec().next_id_spec()
    }

    /// The domain of this state.
    pub open spec fn in_box(&self, p: Vec3) -> bool {
        in_domain(p, self.width_spec(), self.height_spec(), self.depth_spec())
    }

    /// The state's invariant: a consistent index with cells of `CELL_SIZE`, a
    /// domain of accepted size, particles within the position bounds, recipe
    /// fractions within one, and bonds that join two distinct particles, at
    /// most once per pair, with a rest distance below the bonding reach.
    pub closed spec fn wf(&self) -> bool {
        &&& self.grid.wf()
        &&& self.grid.cell_size_spec() == CELL_SIZE
        &&& 0 < self.width <= MAX_DIM
        &&& 0 < self.height <= MAX_DIM
        &&& 0 < self.depth <= MAX_DIM
        &&& 0 <= self.recipe_salt <= PPM
        &&& 0 <= self.recipe_yeast <= PPM
        &&& forall|id: u64| #[trigger]
            self.grid@.contains_key(id) ==> position_ok(self.grid@[id].mol_type, self.grid@[id].pos)
        &&& no_duplicate_pairs(self.bonds@)
        &&& bonds_settled(self.bonds@, self.grid@, self.grid.next_id_spec())
        &&& forall|i: int|
            0 <= i < self.bonds@.len() ==> {
                let b = #[trigger] self.bonds@[i];
                &&& b.molecule_a_id != b.molecule_b_id
                &&& 0 <= b.target_distance < BOND_REACH
            }
    }

    /// The index of a well-formed state is consistent (see `SpatialGrid3D::wf`)
    /// and uses cells of `CELL_SIZE`.
    pub proof fn lemma_grid_consistent(&self)
        requires
            self.wf(),
        ensures
            self.grid_spec().wf(),
            self.grid_spec().cell_size_spec() == CELL_SIZE,
    {
    }

    /// An empty domain of `width x height x depth` micro-units with the
    /// default recipe. Salt counts as already added here, unlike after
    /// `initialize_classic_recipe`.
    pub fn new(width: i64, height: i64, depth: i64) -> (s: Self)
        requires
            0 < width <= MAX_DIM,
            0 < height <= MAX_DIM,
            0 < depth <= MAX_DIM,
        ensures
            s.wf(),
            s.molecules() == Map::<u64, Molecule>::empty(),
            s.next_id_spec() == 1,
            s.grid_spec().cell_size_spec() == CELL_SIZE,
            s.bonds_spec() == Seq::<Bond>::empty(),
            s.width_spec() == width,
            s.height_spec() == height,
            s.depth_spec() == depth,
            s.temperature_spec() == DEFAULT_TEMPERATURE,
            s.time_elapsed_spec() == 0,
            s.recipe_spec() == (DEFAULT_HYDRATION, DEFAULT_SALT, DEFAULT_YEAST, DEFAULT_AUTOLYSE),
            s.salt_added_spec(),
            !s.yeast_added_spec(),
    {
        SimulationState {
            grid: SpatialGrid3D::new(width, height, depth, CELL_SIZE),
            bonds: Vec::new(),
            width,
            height,
            depth,
            temperature: DEFAULT_TEMPERATURE,
            time_elapsed: 0,
            recipe_hydration: DEFAULT_HYDRATION,
            recipe_salt: DEFAULT_SALT,
            recipe_yeast: DEFAULT_YEAST,
            autolyse_time: DEFAULT_AUTOLYSE,
            salt_added: true,
            yeast_added: false,
        }
    }

    /// Width, height, depth, temperature, clock and recipe agree.
    pub open spec fn same_setup(&self, other: &Self) -> bool {
        &&& self.width_spec() == other.width_spec()
        &&& self.height_spec() == other.height_spec()
        &&& self.depth_spec() == other.depth_spec()
        &&& self.temperature_spec() == other.temperature_spec()
        &&& self.time_elapsed_spec() == other.time_elapsed_spec()
        &&& self.recipe_spec() == other.recipe_spec()
    }

    /// What `add_salt` does: nothing once salt is in; otherwise it adds
    /// `ingredient_amount(.., 5, salt)` salt particles (as many as ids remain)
    /// at random places of the domain, and records that salt is in.
    pub open spec fn add_salt_effect(s0: &Self, s1: &Self) -> bool {
        if s0.salt_added_spec() {
            *s1 == *s0
        } else {
            let from = s0.next_id_spec();
            let n = min_int(
                ingredient_amount(
                    s0.width_spec(),
                    s0.height_spec(),
                    s0.depth_spec(),
                    5,
                    s0.recipe_spec().1,
                ),
                u64::MAX - from,
            );
            &&& s1.wf()
            &&& s1.salt_added_spec()
            &&& s1.yeast_added_spec() == s0.yeast_added_spec()
            &&& s1.same_setup(s0)
            &&& s1.bonds_spec() == s0.bonds_spec()
            &&& s1.next_id_spec() == from + n
            &&& spawned(s0.molecules(), s1.molecules(), from, n)
            &&& forall|id: u64|
                from <= id < from + n ==> {
                    let m = #[trigger] s1.molecules()[id];
                    &&& m.mol_type == MoleculeType::Salt
                    &&& s0.in_box(m.pos)
                    &&& speed_within(m.velocity, 200_000)
                }
        }
    }

    /// What `add_yeast` does: nothing once yeast is in; otherwise it adds
    /// `ingredient_amount(.., 2, yeast)` yeast cells (as many as ids remain
    /// for pairs), each followed by one sugar within 20 units of it, and
    /// records that yeast is in.
    pub open spec fn add_yeast_effect(s0: &Self, s1: &Self) -> bool {
        if s0.yeast_added_spec() {
            *s1 == *s0
        } else {
            let from = s0.next_id_spec();
            let n = min_int(
                ingredient_amount(
                    s0.width_spec(),
                    s0.height_spec(),
                    s0.depth_spec(),
                    2,
                    s0.recipe_spec().2,
                ),
                (u64::MAX - from) / 2,
            );
            &&& s1.wf()
            &&& s1.yeast_added_spec()
            &&& s1.salt_added_spec() == s0.salt_added_spec()
            &&& s1.same_setup(s0)
            &&& s1.bonds_spec() == s0.bonds_spec()
            &&& s1.next_id_spec() == from + 2 * n
            &&& spawned(s0.molecules(), s1.molecules(), from, 2 * n)
            &&& forall|j: int|
                0 <= j < n ==> {
                    let y = #[trigger] s1.molecules()[(from + 2 * j) as u64];
                    let g = s1.molecules()[(from + 2 * j + 1) as u64];
                    &&& y.mol_type == MoleculeType::Yeast
                    &&& s0.in_box(y.pos)
                    &&& speed_within(y.velocity, 100_000)
                    &&& g.mol_type == MoleculeType::Sugar
                    &&& near_in_box(
                        g.pos,
                        y.pos,
                        20 * UNIT,
                        s0.width_spec(),
                        s0.height_spec(),
                        s0.depth_spec(),
                    )
                    &&& speed_within(g.velocity, 100_000)
                }
        }
    }

    /// What `integrate` does.
    pub open spec fn integrate_effect(s0: &Self, s1: &Self, dt: int) -> bool {
        &&& s1.wf()
        &&& s1.same_setup(s0)
        &&& s1.bonds_spec() == s0.bonds_spec()
        &&& s1.salt_added_spec() == s0.salt_added_spec()
        &&& s1.yeast_added_spec() == s0.yeast_added_spec()
        &&& s1.next_id_spec() == s0.next_id_spec()
        &&& s1.grid_spec().order() == s0.grid_spec().order()
        &&& forall|id: u64| #[trigger]
            s1.molecules().contains_key(id) <==> s0.molecules().contains_key(id)
        &&& forall|id: u64| #[trigger]
            s0.molecules().contains_key(id) ==> s1.molecules()[id]
                == step_molecule(
                s0.molecules()[id],
                dt,
                s0.width_spec() as int,
                s0.height_spec() as int,
                s0.depth_spec() as int,
            )
    }

    /// What `form_disulfide_bridges` does, whatever the draws.
    pub open spec fn bridges_effect(s0: &Self, s1: &Self) -> bool {
        exists|pairs: Seq<(u64, u64)>, draws: Seq<i64>|
            #[trigger] Self::bridges_with_effect(s0, s1, pairs, draws) && candidate_list(
                s0.molecules(),
                pairs,
            ) && draws.len() == pairs.len() && forall|k: int|
                0 <= k < draws.len() ==> 0 <= #[trigger] draws[k] < PPM
    }

    /// Whether the pair `(a, b)` of `s` bonds for the draw `draw`: it is a
    /// candidate and the draw falls below `bond_threshold`, with salt counted
    /// when some salt is among the neighbours of `a`.
    pub open spec fn bond_drawn(s: &Self, a: u64, b: u64, draw: i64) -> bool {
        &&& is_candidate(s.molecules(), a, b)
        &&& draw < bond_threshold(
            s.temperature_spec() as int,
            salt_near(s.grid_spec(), s.molecules()[a].pos),
        )
    }

    /// The bonds proposed for `pairs` with their `draws`, in order.
    #[verifier::opaque]
    pub open spec fn proposed(s: &Self, pairs: Seq<(u64, u64)>, draws: Seq<i64>) -> Seq<Bond>
        decreases pairs.len(),
    {
        if pairs.len() == 0 {
            Seq::empty()
        } else {
            let prev = Self::proposed(s, pairs.drop_last(), draws);
            let k = pairs.len() - 1;
            if Self::bond_drawn(s, pairs[k].0, pairs[k].1, draws[k]) {
                prev.push(candidate_bond(s.molecules(), pairs[k].0, pairs[k].1))
            } else {
                prev
            }
        }
    }

    /// What `form_disulfide_bridges_with` does for the given pairs and draws.
    pub open spec fn bridges_with_effect(
        s0: &Self,
        s1: &Self,
        pairs: Seq<(u64, u64)>,
        draws: Seq<i64>,
    ) -> bool {
        &&& s1.bonds_spec() == merged(s0.bonds_spec(), Self::proposed(s0, pairs, draws))
        &&& s1.wf()
        &&& no_duplicate_pairs(s1.bonds_spec())
        &&& s1.same_setup(s0)
        &&& s1.salt_added_spec() == s0.salt_added_spec()
        &&& s1.yeast_added_spec() == s0.yeast_added_spec()
        &&& s1.next_id_spec() == s0.next_id_spec()
        &&& s1.grid_spec().order() == s0.grid_spec().order()
        &&& s0.bonds_spec().len() <= s1.bonds_spec().len()
        &&& forall|i: int|
            0 <= i < s0.bonds_spec().len() ==> #[trigger] s1.bonds_spec()[i]
                == s0.bonds_spec()[i]
        &&& forall|i: int|
            s0.bonds_spec().len() <= i < s1.bonds_spec().len() ==> bond_candidate(
                s0.molecules(),
                #[trigger] s1.bonds_spec()[i],
            )
        &&& forall|id: u64| #[trigger]
            s1.molecules().contains_key(id) <==> s0.molecules().contains_key(id)
        &&& forall|id: u64| #[trigger]
            s0.molecules().contains_key(id) ==> s1.molecules()[id] == if is_endpoint(
                s1.bonds_spec(),
                s0.bonds_spec().len() as int,
                id,
            ) {
                spent(s0.molecules()[id])
            } else {
                s0.molecules()[id]
            }
    }

    /// What `handle_yeast_activity` does, whatever the draws.
    pub open spec fn yeast_effect(s0: &Self, s1: &Self, dt: int) -> bool {
        &&& s1.wf()
        &&& s1.same_setup(s0)
        &&& s1.bonds_spec() == s0.bonds_spec()
        &&& s1.salt_added_spec() == s0.salt_added_spec()
        &&& s1.yeast_added_spec() == s0.yeast_added_spec()
        &&& s0.next_id_spec() <= s1.next_id_spec()
        &&& forall|id: u64| #[trigger]
            s0.molecules().contains_key(id) ==> (s1.molecules().contains_key(id)
                <==> !is_eaten(s0.molecules(), id))
        &&& forall|id: u64| #[trigger]
            s0.molecules().contains_key(id) && s1.molecules().contains_key(id)
                ==> lifted(s0.molecules()[id], s1.molecules()[id])
        &&& exists|prods: Seq<Molecule>, tags: Seq<(u64, u64)>|
            #[trigger] fermentation(s0.molecules(), prods, tags) && Self::products_added(
                s0,
                s1,
                prods,
            ) && (co2_threshold(s0.temperature_spec() as int, dt) <= 0 ==> prods.len() == 0)
    }

    /// The particles new in `s1` are the first products of `prods`, in
    /// order under fresh ids, then lifted (see `lifted`).
    pub open spec fn products_added(s0: &Self, s1: &Self, prods: Seq<Molecule>) -> bool {
        &&& s1.next_id_spec() - s0.next_id_spec() <= prods.len()
        &&& forall|id: u64| #[trigger]
            s1.molecules().contains_key(id) && !s0.molecules().contains_key(id)
                ==> s0.next_id_spec() <= id < s1.next_id_spec() && lifted(
                Molecule { id, ..prods[id - s0.next_id_spec()] },
                s1.molecules()[id],
            )
    }

    /// What `apply_bond_constraints` does.
    pub open spec fn constraints_effect(s0: &Self, s1: &Self) -> bool {
        &&& s1.wf()
        &&& s1.same_setup(s0)
        &&& s1.bonds_spec() == s0.bonds_spec()
        &&& s1.salt_added_spec() == s0.salt_added_spec()
        &&& s1.yeast_added_spec() == s0.yeast_added_spec()
        &&& s1.next_id_spec() == s0.next_id_spec()
        &&& s1.grid_spec().order() == s0.grid_spec().order()
        &&& forall|id: u64| #[trigger]
            s1.molecules().contains_key(id) <==> s0.molecules().contains_key(id)
        &&& forall|id: u64| #[trigger]
            s0.molecules().contains_key(id) ==> s1.molecules()[id] == {
                let m = s0.molecules()[id];
                if pulled(s0.bonds_spec(), s0.molecules(), id) {
                    Molecule {
                        velocity: bond_velocity(s0.bonds_spec(), s0.molecules(), m),
                        ..m
                    }
                } else {
                    m
                }
            }
    }

    /// A uniformly drawn point of the domain.
    fn random_position(&self) -> (p: Vec3)
        requires
            self.wf(),
        ensures
            self.in_box(p),
    {
        Vec3 {
            x: random_in(0, self.width),
            y: random_in(0, self.height),
            z: random_in(0, self.depth),
        }
    }

    /// A point drawn in the box of `2 * reach` around `c`, cut to the domain.
    fn random_position_near(&self, c: Vec3, reach: i64) -> (p: Vec3)
        requires
            self.wf(),
            self.in_box(c),
            0 < reach <= UNIT * 1000,
        ensures
            near_in_box(p, c, reach as int, self.width_spec(), self.height_spec(), self.depth_spec()),
    {
        let x = random_in(max_i64(c.x - reach, 0), min_i64(c.x + reach, self.width));
        let y = random_in(max_i64(c.y - reach, 0), min_i64(c.y + reach, self.height));
        let z = random_in(max_i64(c.z - reach, 0), min_i64(c.z + reach, self.depth));
        Vec3 { x, y, z }
    }

    /// Adds a particle under the next id.
    fn spawn(&mut self, mol_type: MoleculeType, pos: Vec3, velocity: Vec3) -> (id: u64)
        requires
            old(self).wf(),
            old(self).next_id_spec() < u64::MAX,
            position_ok(mol_type, pos),
        ensures
            final(self).wf(),
            id == old(self).next_id_spec(),
            final(self).next_id_spec() == id + 1,
            !old(self).molecules().contains_key(id),
            final(self).molecules() == old(self).molecules().insert(
                id,
                Molecule { id, pos, velocity, mol_type },
            ),
            final(self).same_setup(old(self)),
            final(self).bonds_spec() == old(self).bonds_spec(),
            final(self).salt_added_spec() == old(self).salt_added_spec(),
            final(self).yeast_added_spec() == old(self).yeast_added_spec(),
    {
        let id = self.grid.insert(Molecule::new(mol_type, pos, velocity));
        id
    }

    /// The number of particles of an ingredient for this domain.
    fn ingredient_count(&self, density: i64, ppm: i64) -> (n: u64)
        requires
            self.wf(),
            0 <= density <= 5,
            0 <= ppm <= PPM,
        ensures
            n == ingredient_amount(self.width_spec(), self.height_spec(), self.depth_spec(), density as int, ppm),
    {
        let a = (self.width / 1000) as u128;
        let b = (self.height / 1000) as u128;
        let c = (self.depth / 1000) as u128;
        assert(a <= 1_100_000_000 && b <= 1_100_000_000 && c <= 1_100_000_000);
        assert(a * b <= 1_210_000_000_000_000_000) by (nonlinear_arith)
            requires
                a <= 1_100_000_000,
                b <= 1_100_000_000,
        ;
        let ab = a * b;
        assert(ab * c <= 1_331_000_000_000_000_000_000_000_000) by (nonlinear_arith)
            requires
                ab <= 1_210_000_000_000_000_000,
                c <= 1_100_000_000,
        ;
        let abc = ab * c;
        assert(abc * (density as u128) <= 6_655_000_000_000_000_000_000_000_000) by (nonlinear_arith)
            requires
                abc <= 1_331_000_000_000_000_000_000_000_000,
                0 <= density <= 5,
        ;
        let abcd = abc * (density as u128);
        assert(abcd * (ppm as u128) <= 6_655_000_000_000_000_000_000_000_000 * 1_000_000) by (nonlinear_arith)
            requires
                abcd <= 6_655_000_000_000_000_000_000_000_000,
                0 <= ppm <= 1_000_000,
        ;
        let v: u128 = abcd * (ppm as u128) / 100_000_000_000_000_000_000;
        assert(v <= 6_655_000_000_000_000_000_000_000_000 * 1_000_000 / 100_000_000_000_000_000_000) by (nonlinear_arith)
            requires
                v == abcd * (ppm as u128) / 100_000_000_000_000_000_000,
                abcd * (ppm as u128) <= 6_655_000_000_000_000_000_000_000_000 * 1_000_000,
        ;
        v as u64
    }

    /// Resets the recipe to its defaults, empties the domain, the bonds and
    /// the clock, marks salt and yeast as not added, and places 200 flour
    /// proteins (each gliadin with probability 40%, else a reactive
    /// glutenin) and 200 water particles at random in the domain.
    pub fn initialize_classic_recipe(&mut self)
        requires
            old(self).wf(),
        ensures
            final(self).wf(),
            final(self).width_spec() == old(self).width_spec(),
            final(self).height_spec() == old(self).height_spec(),
            final(self).depth_spec() == old(self).depth_spec(),
            final(self).temperature_spec() == DEFAULT_TEMPERATURE,
            final(self).time_elapsed_spec() == 0,
            final(self).recipe_spec() == (
                DEFAULT_HYDRATION,
                DEFAULT_SALT,
                DEFAULT_YEAST,
                DEFAULT_AUTOLYSE,
            ),
            !final(self).salt_added_spec(),
            !final(self).yeast_added_spec(),
            final(self).bonds_spec() == Seq::<Bond>::empty(),
            final(self).next_id_spec() == FLOUR_PROTEINS + WATER_AMOUNT + 1,
            final(self).grid_spec().cell_size_spec() == CELL_SIZE,
            forall|id: u64| #[trigger]
                final(self).molecules().contains_key(id) <==> 1 <= id <= FLOUR_PROTEINS
                    + WATER_AMOUNT,
            forall|id: u64|
                1 <= id <= FLOUR_PROTEINS ==> {
                    let m = #[trigger] final(self).molecules()[id];
                    &&& is_fresh_protein(m.mol_type)
                    &&& final(self).in_box(m.pos)
                    &&& speed_within(m.velocity, 100_000)
                },
            forall|id: u64|
                FLOUR_PROTEINS < id <= FLOUR_PROTEINS + WATER_AMOUNT ==> {
                    let m = #[trigger] final(self).molecules()[id];
                    &&& m.mol_type == MoleculeType::Water
                    &&& final(self).in_box(m.pos)
                    &&& speed_within(m.velocity, 200_000)
                },
    {
        self.recipe_hydration = DEFAULT_HYDRATION;
        self.recipe_salt = DEFAULT_SALT;
        self.recipe_yeast = DEFAULT_YEAST;
        self.autolyse_time = DEFAULT_AUTOLYSE;
        self.temperature = DEFAULT_TEMPERATURE;
        self.grid = SpatialGrid3D::new(self.width, self.height, self.depth, CELL_SIZE);
        self.bonds = Vec::new();
        self.time_elapsed = 0;
        self.salt_added = false;
        self.yeast_added = false;
        let mut i: u64 = 0;
        while i < FLOUR_PROTEINS
            invariant
                self.wf(),
                0 <= i <= FLOUR_PROTEINS,
                self.width == old(self).width,
                self.height == old(self).height,
                self.depth == old(self).depth,
                self.temperature == DEFAULT_TEMPERATURE,
                self.time_elapsed == 0,
                self.recipe_spec() == (
                    DEFAULT_HYDRATION,
                    DEFAULT_SALT,
                    DEFAULT_YEAST,
                    DEFAULT_AUTOLYSE,
                ),
                !self.salt_added,
                !self.yeast_added,
                self.bonds@ == Seq::<Bond>::empty(),
                self.next_id_spec() == i + 1,
                forall|id: u64| #[trigger] self.molecules().contains_key(id) <==> 1 <= id <= i,
                forall|id: u64|
                    1 <= id <= i ==> {
                        let m = #[trigger] self.molecules()[id];
                        &&& is_fresh_protein(m.mol_type)
                        &&& self.in_box(m.pos)
                        &&& speed_within(m.velocity, 100_000)
                    },
            decreases FLOUR_PROTEINS - i,
        {
            let pos = self.random_position();
            let velocity = random_velocity(100_000);
            let choice = random_in(0, 100);
            let mol_type = if choice < GLIADIN_PERCENT {
                MoleculeType::Gliadin
            } else {
                MoleculeType::Glutenin { has_free_thiol: true }
            };
            self.spawn(mol_type, pos, velocity);
            i = i + 1;
        }
        let mut j: u64 = 0;
        while j < WATER_AMOUNT
            invariant
                self.wf(),
                0 <= j <= WATER_AMOUNT,
                self.width == old(self).width,
                self.height == old(self).height,
                self.depth == old(self).depth,
                self.temperature == DEFAULT_TEMPERATURE,
                self.time_elapsed == 0,
                self.recipe_spec() == (
                    DEFAULT_HYDRATION,
                    DEFAULT_SALT,
                    DEFAULT_YEAST,
                    DEFAULT_AUTOLYSE,
                ),
                !self.salt_added,
                !self.yeast_added,
                self.bonds@ == Seq::<Bond>::empty(),
                self.next_id_spec() == FLOUR_PROTEINS + j + 1,
                forall|id: u64| #[trigger]
                    self.molecules().contains_key(id) <==> 1 <= id <= FLOUR_PROTEINS + j,
                forall|id: u64|
                    1 <= id <= FLOUR_PROTEINS ==> {
                        let m = #[trigger] self.molecules()[id];
                        &&& is_fresh_protein(m.mol_type)
                        &&& self.in_box(m.pos)
                        &&& speed_within(m.velocity, 100_000)
                    },
                forall|id: u64|
                    FLOUR_PROTEINS < id <= FLOUR_PROTEINS + j ==> {
                        let m = #[trigger] self.molecules()[id];
                        &&& m.mol_type == MoleculeType::Water
                        &&& self.in_box(m.pos)
                        &&& speed_within(m.velocity, 200_000)
                    },
            decreases WATER_AMOUNT - j,
        {
            let pos = self.random_position();
            let velocity = random_velocity(200_000);
            self.spawn(MoleculeType::Water, pos, velocity);
            j = j + 1;
        }
    }

    /// Adds salt once: see `add_salt_effect`.
    pub fn add_salt(&mut self)
        requires
            old(self).wf(),
        ensures
            Self::add_salt_effect(old(self), final(self)),
    {
        if !self.salt_added {
            let n = self.ingredient_count(5, self.recipe_salt);
            let ghost from = self.next_id_spec();
            let ghost s0 = *self;
            let mut i: u64 = 0;
            while i < n && self.grid.has_free_id()
                invariant
                    self.wf(),
                    s0.wf(),
                    !s0.salt_added,
                    0 <= i <= n,
                    self.next_id_spec() == from + i,
                    from == s0.next_id_spec(),
                    !self.salt_added,
                    self.yeast_added == s0.yeast_added,
                    self.same_setup(&s0),
                    self.bonds@ == s0.bonds@,
                    spawned(s0.molecules(), self.molecules(), from, i as int),
                    forall|id: u64|
                        from <= id < from + i ==> {
                            let m = #[trigger] self.molecules()[id];
                            &&& m.mol_type == MoleculeType::Salt
                            &&& s0.in_box(m.pos)
                            &&& speed_within(m.velocity, 200_000)
                        },
                decreases n - i,
            {
                let pos = self.random_position();
                let velocity = random_velocity(200_000);
                let ghost before = self.molecules();
                self.spawn(MoleculeType::Salt, pos, velocity);
                assert forall|id: u64| s0.molecules().contains_key(id) implies self.molecules()[id]
                    == s0.molecules()[id] by {
                    assert(before.contains_key(id));
                }
                i = i + 1;
            }
            self.salt_added = true;
        }
    }

    /// Adds yeast once: see `add_yeast_effect`.
    pub fn add_yeast(&mut self)
        requires
            old(self).wf(),
        ensures
            Self::add_yeast_effect(old(self), final(self)),
    {
        if !self.yeast_added {
            let n = self.ingredient_count(2, self.recipe_yeast);
            let ghost from = self.next_id_spec();
            let ghost s0 = *self;
            let mut i: u64 = 0;
            while i < n && self.grid.next_id() < u64::MAX - 1
                invariant
                    self.wf(),
                    s0.wf(),
                    !s0.yeast_added,
                    0 <= i <= n,
                    i <= (u64::MAX - from) / 2,
                    self.next_id_spec() == from + 2 * i,
                    from == s0.next_id_spec(),
                    !self.yeast_added,
                    self.salt_added == s0.salt_added,
                    self.same_setup(&s0),
                    self.bonds@ == s0.bonds@,
                    spawned(s0.molecules(), self.molecules(), from, 2 * i),
                    forall|j: int|
                        0 <= j < i ==> {
                            let y = #[trigger] self.molecules()[(from + 2 * j) as u64];
                            let g = self.molecules()[(from + 2 * j + 1) as u64];
                            &&& y.mol_type == MoleculeType::Yeast
                            &&& s0.in_box(y.pos)
                            &&& speed_within(y.velocity, 100_000)
                            &&& g.mol_type == MoleculeType::Sugar
                            &&& near_in_box(
                                g.pos,
                                y.pos,
                                20 * UNIT,
                                s0.width_spec(),
                                s0.height_spec(),
                                s0.depth_spec(),
                            )
                            &&& speed_within(g.velocity, 100_000)
                        },
                decreases n - i,
            {
                let pos = self.random_position();
                let velocity = random_velocity(100_000);
                let ghost before = self.molecules();
                let yid = self.spawn(MoleculeType::Yeast, pos, velocity);
                let sugar_pos = self.random_position_near(pos, 20 * UNIT);
                let sugar_velocity = random_velocity(100_000);
                let ghost middle = self.molecules();
                let sid = self.spawn(MoleculeType::Sugar, sugar_pos, sugar_velocity);
                assert forall|id: u64| s0.molecules().contains_key(id) implies self.molecules()[id]
                    == s0.molecules()[id] by {
                    assert(before.contains_key(id));
                    assert(middle.contains_key(id));
                }
                assert forall|j: int| 0 <= j < i + 1 implies {
                    let y = #[trigger] self.molecules()[(from + 2 * j) as u64];
                    let g = self.molecules()[(from + 2 * j + 1) as u64];
                    &&& y.mol_type == MoleculeType::Yeast
                    &&& s0.in_box(y.pos)
                    &&& speed_within(y.velocity, 100_000)
                    &&& g.mol_type == MoleculeType::Sugar
                    &&& near_in_box(
                        g.pos,
                        y.pos,
                        20 * UNIT,
                        s0.width_spec(),
                        s0.height_spec(),
                        s0.depth_spec(),
                    )
                    &&& speed_within(g.velocity, 100_000)
                } by {
                    if j < i {
                        assert(before.contains_key((from + 2 * j) as u64));
                        assert(before.contains_key((from + 2 * j + 1) as u64));
                    } else {
                        assert((from + 2 * j) as u64 == yid);
                        assert((from + 2 * j + 1) as u64 == sid);
                    }
                }
                i = i + 1;
            }
            self.yeast_added = true;
        }
    }

    /// Moves every particle by one step of `dt` microseconds (see
    /// `step_molecule`) and files each again under the cell of its new position.
    pub fn integrate(&mut self, dt: u32)
        requires
            old(self).wf(),
        ensures
            Self::integrate_effect(old(self), final(self), dt as int),

    {
        let all = self.grid.get_all_molecules();
        let ghost s0 = *self;
        proof {
            s0.grid.lemma_wf_facts();
        }
        let mut i: usize = 0;
        while i < all.len()
            invariant
                self.wf(),
                s0.wf(),
                0 <= i <= all@.len(),
                all@.len() == s0.grid.order().len(),
                forall|t: int| 0 <= t < all@.len() ==> #[trigger] all@[t] == s0.molecules()[s0.grid.order()[t]],
                forall|t: int| 0 <= t < all@.len() ==> #[trigger] all@[t].id == s0.grid.order()[t],
                s0.grid.order().no_duplicates(),
                forall|id: u64| #[trigger] s0.molecules().contains_key(id) <==> s0.grid.order().contains(id),
                self.same_setup(&s0),
                self.bonds@ == s0.bonds@,
                self.salt_added == s0.salt_added,
                self.yeast_added == s0.yeast_added,
                self.next_id_spec() == s0.next_id_spec(),
                self.grid.order() == s0.grid.order(),
                forall|id: u64| #[trigger]
                    self.molecules().contains_key(id) <==> s0.molecules().contains_key(id),
                forall|t: int|
                    0 <= t < all@.len() ==> #[trigger] self.molecules()[s0.grid.order()[t]] == if t < i {
                        step_molecule(
                            s0.molecules()[s0.grid.order()[t]],
                            dt as int,
                            s0.width as int,
                            s0.height as int,
                            s0.depth as int,
                        )
                    } else {
                        s0.molecules()[s0.grid.order()[t]]
                    },
            decreases all@.len() - i,
        {
            let m = all[i];
            assert(s0.grid.order().contains(m.id));
            let m2 = step_exec(m, dt, self.width, self.height, self.depth);
            let velocity = m2.velocity;
            let pos = m2.pos;
            let ghost before = self.molecules();
            self.grid.set_velocity(m.id, velocity);
            self.grid.update_molecule_pos(m.id, pos);
            assert forall|t: int|
                0 <= t < all@.len() implies #[trigger] self.molecules()[s0.grid.order()[t]] == if t < i + 1 {
                    step_molecule(
                        s0.molecules()[s0.grid.order()[t]],
                        dt as int,
                        s0.width as int,
                        s0.height as int,
                        s0.depth as int,
                    )
                } else {
                    s0.molecules()[s0.grid.order()[t]]
                } by {
                if t != i {
                    assert(s0.grid.order()[t] != s0.grid.order()[i as int]);
                }
            }
            assert forall|id: u64| #[trigger]
                self.grid@.contains_key(id) implies position_ok(self.grid@[id].mol_type, self.grid@[id].pos) by {
                if id != m.id {
                    assert(before.contains_key(id));
                }
            }
            i = i + 1;
        }
        assert forall|id: u64| #[trigger]
            s0.molecules().contains_key(id) implies self.molecules()[id] == step_molecule(
                s0.molecules()[id],
                dt as int,
                s0.width as int,
                s0.height as int,
                s0.depth as int,
            ) by {
            let t = choose|t: int| 0 <= t < s0.grid.order().len() && s0.grid.order()[t] == id;
            assert(self.molecules()[s0.grid.order()[t]] == self.molecules()[id]);
        }
    }

    /// Pushes every particle of the 3x3x3 cell block around `center` that
    /// lies closer than `radius` to it: `force / mass` is added to its
    /// velocity, whose speed is then limited to `FORCE_SPEED_CAP`.
    pub fn apply_force_to_region(&mut self, center: Vec3, radius: i64, force: Vec3)
        requires
            old(self).wf(),
        ensures
            final(self).wf(),
            final(self).same_setup(old(self)),
            final(self).bonds_spec() == old(self).bonds_spec(),
            final(self).salt_added_spec() == old(self).salt_added_spec(),
            final(self).yeast_added_spec() == old(self).yeast_added_spec(),
            final(self).next_id_spec() == old(self).next_id_spec(),
            final(self).grid_spec().order() == old(self).grid_spec().order(),
            forall|id: u64| #[trigger]
                final(self).molecules().contains_key(id) <==> old(self).molecules().contains_key(id),
            forall|id: u64| #[trigger]
                old(self).molecules().contains_key(id) ==> final(self).molecules()[id] == {
                    let m = old(self).molecules()[id];
                    if old(self).grid_spec().neighborhood(center).contains(id) && within_radius(
                        m.pos,
                        center,
                        radius as int,
                    ) {
                        Molecule { velocity: pushed_velocity(m, force), ..m }
                    } else {
                        m
                    }
                },
    {
        let nb = self.grid.get_neighbors(center);
        let ghost s0 = *self;
        let mut i: usize = 0;
        while i < nb.len()
            invariant
                self.wf(),
                s0.wf(),
                0 <= i <= nb@.len(),
                forall|t: int|
                    0 <= t < nb@.len() ==> {
                        let m = #[trigger] nb@[t];
                        &&& s0.molecules().contains_key(m.id)
                        &&& s0.molecules()[m.id] == m
                    },
                forall|a: int, b: int|
                    0 <= a < b < nb@.len() ==> #[trigger] nb@[a].id != #[trigger] nb@[b].id,
                self.same_setup(&s0),
                self.bonds@ == s0.bonds@,
                self.salt_added == s0.salt_added,
                self.yeast_added == s0.yeast_added,
                self.next_id_spec() == s0.next_id_spec(),
                self.grid.order() == s0.grid.order(),
                forall|id: u64| #[trigger]
                    self.molecules().contains_key(id) <==> s0.molecules().contains_key(id),
                forall|id: u64| #[trigger]
                    s0.molecules().contains_key(id) ==> self.molecules()[id] == {
                        let m = s0.molecules()[id];
                        if listed_before(nb@, id, i as int) && within_radius(m.pos, center, radius as int) {
                            Molecule { velocity: pushed_velocity(m, force), ..m }
                        } else {
                            m
                        }
                    },
            decreases nb@.len() - i,
        {
            let m = nb[i];
            if within_radius_exec(m.pos, center, radius) {
                let mass = m.mass();
                proof {
                    lemma_radius_bounds(m.mol_type);
                }
                let v = kick(
                    m.velocity,
                    div_trunc(force.x as i128, mass as i128),
                    div_trunc(force.y as i128, mass as i128),
                    div_trunc(force.z as i128, mass as i128),
                    FORCE_SPEED_CAP,
                );
                self.grid.set_velocity(m.id, v);
            }
            assert forall|id: u64| #[trigger]
                s0.molecules().contains_key(id) implies self.molecules()[id] == {
                    let m = s0.molecules()[id];
                    if listed_before(nb@, id, i + 1) && within_radius(m.pos, center, radius as int) {
                        Molecule { velocity: pushed_velocity(m, force), ..m }
                    } else {
                        m
                    }
                } by {
                lemma_listed_step(nb@, id, i as int);
                if nb@[i as int].id == id {
                    assert(!listed_before(nb@, id, i as int)) by {
                        if listed_before(nb@, id, i as int) {
                            let t = choose|t: int| 0 <= t < i && nb@[t].id == id;
                        }
                    }
                }
            }
            i = i + 1;
        }
        assert forall|id: u64| #[trigger]
            s0.molecules().contains_key(id) implies (listed_before(nb@, id, nb@.len() as int)
                <==> s0.grid.neighborhood(center).contains(id)) by {
            if listed_before(nb@, id, nb@.len() as int) {
                let t = choose|t: int| 0 <= t < nb@.len() && nb@[t].id == id;
                assert(nb@[t].id == id);
            }
            if s0.grid.neighborhood(center).contains(id) {
                let t = choose|t: int| 0 <= t < nb@.len() && #[trigger] nb@[t].id == id;
                assert(listed_before(nb@, id, nb@.len() as int));
            }
        }
    }

    /// Whether a bond already joins `a` and `b`, in either order.
    fn has_bond(&self, a: u64, b: u64) -> (r: bool)
        ensures
            r == exists|i: int|
                0 <= i < self.bonds@.len() && same_pair(
                    #[trigger] self.bonds@[i],
                    Bond { molecule_a_id: a, molecule_b_id: b, target_distance: 0 },
                ),
    {
        let mut i: usize = 0;
        while i < self.bonds.len()
            invariant
                0 <= i <= self.bonds@.len(),
                forall|t: int|
                    0 <= t < i ==> !same_pair(
                        #[trigger] self.bonds@[t],
                        Bond { molecule_a_id: a, molecule_b_id: b, target_distance: 0 },
                    ),
            decreases self.bonds@.len() - i,
        {
            let c = self.bonds[i];
            if (c.molecule_a_id == a && c.molecule_b_id == b) || (c.molecule_a_id == b
                && c.molecule_b_id == a) {
                assert(same_pair(
                    self.bonds@[i as int],
                    Bond { molecule_a_id: a, molecule_b_id: b, target_distance: 0 },
                ));
                return true;
            }
            i = i + 1;
        }
        false
    }

    /// Every unordered pair of reactive glutenins closer than the bonding
    /// reach, once, smaller id first: the pairs that get one draw each.
    pub fn candidate_pairs(&self) -> (r: Vec<(u64, u64)>)
        requires
            self.wf(),
        ensures
            candidate_list(self.molecules(), r@),
    {
        let all = self.grid.get_all_molecules();
        let ghost g = self.molecules();
        let ghost order = self.grid.order();
        proof {
            self.grid.lemma_wf_facts();
        }
        let mut r: Vec<(u64, u64)> = Vec::new();
        let mut i: usize = 0;
        while i < all.len()
            invariant
                self.wf(),
                g == self.molecules(),
                order == self.grid.order(),
                order.no_duplicates(),
                forall|id: u64| #[trigger] g.contains_key(id) <==> order.contains(id),
                0 <= i <= all@.len(),
                all@.len() == order.len(),
                forall|t: int| 0 <= t < all@.len() ==> #[trigger] all@[t] == g[order[t]],
                forall|t: int| 0 <= t < all@.len() ==> #[trigger] all@[t].id == order[t],
                r@.no_duplicates(),
                forall|k: int|
                    0 <= k < r@.len() ==> (#[trigger] r@[k]).0 < r@[k].1 && is_candidate(g, r@[k].0, r@[k].1)
                        && listed_id(order, r@[k].0, i as int),
                forall|a: u64, b: u64|
                    #[trigger] is_candidate(g, a, b) && a < b && listed_id(order, a, i as int) ==> r@.contains((a, b)),
            decreases all@.len() - i,
        {
            let m = all[i];
            assert(order.contains(m.id));
            let ghost r_start = r@;
            proof {
                assert forall|x: u64| listed_id(order, x, i + 1) <==> (listed_id(order, x, i as int) || order[i as int] == x) by {
                    lemma_listed_id_step(order, x, i as int);
                }
            }
            if m.mol_type == (MoleculeType::Glutenin { has_free_thiol: true }) {
                let nb = self.grid.get_neighbors(m.pos);
                let mut j: usize = 0;
                while j < nb.len()
                    invariant
                        self.wf(),
                        g == self.molecules(),
                        order == self.grid.order(),
                        order.no_duplicates(),
                        0 <= i < all@.len(),
                        all@.len() == order.len(),
                        m == all@[i as int],
                        m.id == order[i as int],
                        g.contains_key(m.id),
                        g[m.id] == m,
                        is_reactive(m.mol_type),
                        0 <= j <= nb@.len(),
                        forall|t: int|
                            0 <= t < nb@.len() ==> {
                                let n = #[trigger] nb@[t];
                                &&& g.contains_key(n.id)
                                &&& g[n.id] == n
                            },
                        forall|x: int, y: int| 0 <= x < y < nb@.len() ==> #[trigger] nb@[x].id != #[trigger] nb@[y].id,
                        forall|x: u64| listed_id(order, x, i + 1) <==> (listed_id(order, x, i as int) || order[i as int] == x),
                        r_start.len() <= r@.len(),
                        forall|k: int| 0 <= k < r_start.len() ==> #[trigger] r@[k] == r_start[k],
                        r_start.no_duplicates(),
                        forall|k: int|
                            0 <= k < r_start.len() ==> listed_id(order, (#[trigger] r_start[k]).0, i as int),
                        r@.no_duplicates(),
                        forall|k: int|
                            0 <= k < r@.len() ==> (#[trigger] r@[k]).0 < r@[k].1 && is_candidate(g, r@[k].0, r@[k].1),
                        forall|k: int|
                            r_start.len() <= k < r@.len() ==> (#[trigger] r@[k]).0 == m.id && listed_before(nb@, r@[k].1, j as int),
                        forall|a: u64, b: u64|
                            #[trigger] is_candidate(g, a, b) && a < b && listed_id(order, a, i as int) ==> r@.contains((a, b)),
                        forall|b: u64|
                            #[trigger] is_candidate(g, m.id, b) && m.id < b && listed_before(nb@, b, j as int) ==> r@.contains((m.id, b)),
                    decreases nb@.len() - j,
                {
                    let n = nb[j];
                    let ghost r0 = r@;
                    proof {
                        assert forall|b: u64| listed_before(nb@, b, j + 1) <==> (listed_before(nb@, b, j as int) || nb@[j as int].id == b) by {
                            lemma_listed_step(nb@, b, j as int);
                        }
                    }
                    if m.id < n.id && n.mol_type == (MoleculeType::Glutenin { has_free_thiol: true }) {
                        proof {
                            self.lemma_positions_bounded(m.id);
                            self.lemma_positions_bounded(n.id);
                        }
                        let d2 = dist_sq_exec(m.pos, n.pos);
                        if d2 < BOND_REACH_SQ {
                            assert(!r0.contains((m.id, n.id))) by {
                                if r0.contains((m.id, n.id)) {
                                    let k = choose|k: int| 0 <= k < r0.len() && r0[k] == (m.id, n.id);
                                    if k < r_start.len() {
                                        assert(listed_id(order, r_start[k].0, i as int));
                                        let t = choose|t: int| 0 <= t < i && order[t] == m.id;
                                        assert(order[t] == order[i as int]);
                                    } else {
                                        assert(listed_before(nb@, r0[k].1, j as int));
                                        let t = choose|t: int| 0 <= t < j && nb@[t].id == n.id;
                                        assert(nb@[t].id == nb@[j as int].id);
                                    }
                                }
                            }
                            r.push((m.id, n.id));
                            assert(r@ == r0.push((m.id, n.id)));
                            assert forall|a: u64, b: u64|
                                #[trigger] is_candidate(g, a, b) && a < b && listed_id(order, a, i as int) implies r@.contains((a, b)) by {
                                let k = choose|k: int| 0 <= k < r0.len() && r0[k] == (a, b);
                                assert(r@[k] == (a, b));
                            }
                            assert forall|b: u64|
                                #[trigger] is_candidate(g, m.id, b) && m.id < b && listed_before(nb@, b, j + 1) implies r@.contains((m.id, b)) by {
                                if listed_before(nb@, b, j as int) {
                                    let k = choose|k: int| 0 <= k < r0.len() && r0[k] == (m.id, b);
                                    assert(r@[k] == (m.id, b));
                                } else {
                                    assert(r@[r0.len() as int] == (m.id, b));
                                }
                            }
                            assert forall|k: int| r_start.len() <= k < r@.len() implies (#[trigger] r@[k]).0 == m.id
                                && listed_before(nb@, r@[k].1, j + 1) by {
                                if k < r0.len() {
                                    assert(r@[k] == r0[k]);
                                }
                            }
                        }
                    }
                    proof {
                        if r@ == r0 {
                            assert forall|b: u64|
                                #[trigger] is_candidate(g, m.id, b) && m.id < b && listed_before(nb@, b, j + 1) implies r@.contains((m.id, b)) by {
                                if !listed_before(nb@, b, j as int) {
                                    assert(nb@[j as int].id == b);
                                    self.lemma_positions_bounded(m.id);
                                    self.lemma_positions_bounded(b);
                                }
                            }
                        }
                    }
                    j = j + 1;
                }
                proof {
                    assert forall|a: u64, b: u64|
                        #[trigger] is_candidate(g, a, b) && a < b && listed_id(order, a, i + 1) implies r@.contains((a, b)) by {
                        if !listed_id(order, a, i as int) {
                            assert(a == m.id);
                            lemma_bonding_is_local(&self.grid, a, b);
                            let t = choose|t: int| 0 <= t < nb@.len() && #[trigger] nb@[t].id == b;
                            assert(listed_before(nb@, b, nb@.len() as int));
                        }
                    }
                    assert forall|k: int| 0 <= k < r@.len() implies listed_id(order, (#[trigger] r@[k]).0, i + 1) by {
                        if k < r_start.len() {
                            assert(r@[k] == r_start[k]);
                        } else {
                            assert(r@[k].0 == order[i as int]);
                        }
                    }
                }
            } else {
                proof {
                    assert forall|a: u64, b: u64|
                        #[trigger] is_candidate(g, a, b) && a < b && listed_id(order, a, i + 1) implies r@.contains((a, b)) by {
                        if !listed_id(order, a, i as int) {
                            assert(a == m.id);
                        }
                    }
                }
            }
            i = i + 1;
        }
        proof {
            assert forall|a: u64, b: u64| #[trigger] is_candidate(g, a, b) && a < b implies r@.contains((a, b)) by {
                assert(order.contains(a));
                let t = choose|t: int| 0 <= t < order.len() && order[t] == a;
                assert(listed_id(order, a, all@.len() as int));
            }
        }
        r
    }

    /// Draws once, uniformly in `[0, PPM)`, for every candidate pair (see
    /// `candidate_pairs`), and bonds them as `form_disulfide_bridges_with` does.
    pub fn form_disulfide_bridges(&mut self)
        requires
            old(self).wf(),
        ensures
            Self::bridges_effect(old(self), final(self)),
    {
        let pairs = self.candidate_pairs();
        let mut draws: Vec<i64> = Vec::new();
        let mut k: usize = 0;
        while k < pairs.len()
            invariant
                0 <= k <= pairs@.len(),
                draws@.len() == k,
                forall|q: int| 0 <= q < draws@.len() ==> 0 <= #[trigger] draws@[q] < PPM,
            decreases pairs@.len() - k,
        {
            draws.push(random_in(0, PPM));
            k = k + 1;
        }
        let ghost s0 = *self;
        self.form_disulfide_bridges_with(&pairs, &draws);
        assert(Self::bridges_with_effect(&s0, self, pairs@, draws@));
    }

    /// The bonds that `pairs` with `draws` propose, planned against this
    /// state, and the proteins they join.
    fn plan_bonds(&self, pairs: &Vec<(u64, u64)>, draws: &Vec<i64>) -> (res: (Vec<Bond>, Vec<u64>))
        requires
            self.wf(),
            pairs@.len() == draws@.len(),
        ensures
            res.0@ == Self::proposed(self, pairs@, draws@),
            forall|q: int| 0 <= q < res.0@.len() ==> bond_candidate(self.molecules(), #[trigger] res.0@[q]),
            forall|q: int| 0 <= q < res.0@.len() ==> 0 <= #[trigger] res.0@[q].target_distance < BOND_REACH,
            forall|q: int| 0 <= q < res.0@.len() ==> res.1@.contains(#[trigger] res.0@[q].molecule_a_id)
                && res.1@.contains(res.0@[q].molecule_b_id),
            forall|q: int| 0 <= q < res.1@.len() ==> self.molecules().contains_key(#[trigger] res.1@[q])
                && is_reactive(self.molecules()[res.1@[q]].mol_type),
            forall|q: int| 0 <= q < res.1@.len() ==> is_endpoint(res.0@, 0, #[trigger] res.1@[q]),
    {
        proof {
            self.grid.lemma_wf_facts();
            reveal(SimulationState::proposed);
        }
        let mut planned: Vec<Bond> = Vec::new();
        let mut flagged: Vec<u64> = Vec::new();
        let mut k: usize = 0;
        while k < pairs.len()
            invariant
                self.wf(),
                                0 <= k <= pairs@.len(),
                pairs@.len() == draws@.len(),
                planned@ == Self::proposed(self, pairs@.subrange(0, k as int), draws@),
                forall|q: int| 0 <= q < planned@.len() ==> bond_candidate(self.molecules(), #[trigger] planned@[q]),
                forall|q: int| 0 <= q < planned@.len() ==> 0 <= #[trigger] planned@[q].target_distance < BOND_REACH,
                forall|q: int| 0 <= q < planned@.len() ==> flagged@.contains(#[trigger] planned@[q].molecule_a_id)
                    && flagged@.contains(planned@[q].molecule_b_id),
                forall|q: int| 0 <= q < flagged@.len() ==> self.molecules().contains_key(#[trigger] flagged@[q])
                    && is_reactive(self.molecules()[flagged@[q]].mol_type),
                forall|q: int| 0 <= q < flagged@.len() ==> is_endpoint(planned@, 0, #[trigger] flagged@[q]),
            decreases pairs@.len() - k,
        {
            let (a, b) = pairs[k];
            let draw = draws[k];
            assert(pairs@.subrange(0, k + 1).drop_last() =~= pairs@.subrange(0, k as int));
            assert(pairs@.subrange(0, k + 1)[k as int] == (a, b));
            let ghost f0 = flagged@;
            let ghost planned0 = planned@;
            let ea = self.grid.get_molecule(a);
            let eb = self.grid.get_molecule(b);
            let mut bonded = false;
            if ea.is_some() && eb.is_some() && a != b {
                let ma = *ea.unwrap();
                let mb = *eb.unwrap();
                if ma.mol_type == (MoleculeType::Glutenin { has_free_thiol: true })
                    && mb.mol_type == (MoleculeType::Glutenin { has_free_thiol: true }) {
                    proof {
                        self.lemma_positions_bounded(a);
                        self.lemma_positions_bounded(b);
                    }
                    let d2 = dist_sq_exec(ma.pos, mb.pos);
                    if d2 < BOND_REACH_SQ {
                        let nb = self.grid.get_neighbors(ma.pos);
                        let salt = any_salt(&nb);
                        proof {
                            if salt {
                                let t = choose|t: int| 0 <= t < nb@.len() && #[trigger] nb@[t].mol_type == MoleculeType::Salt;
                                assert(self.grid.neighborhood(ma.pos).contains(nb@[t].id));
                            }
                            if salt_near(self.grid, ma.pos) {
                                let id = choose|id: u64| #[trigger] self.grid.neighborhood(ma.pos).contains(id)
                                    && self.grid@[id].mol_type == MoleculeType::Salt;
                                let t = choose|t: int| 0 <= t < nb@.len() && #[trigger] nb@[t].id == id;
                                assert(nb@[t].mol_type == MoleculeType::Salt);
                            }
                        }
                        assert(salt == salt_near(self.grid, ma.pos));
                        if bond_forms(draw, self.temperature, salt) {
                            let root = isqrt(d2);
                            proof {
                                lemma_root_below_reach(d2 as int, root as int);
                            }
                            let bond = Bond { molecule_a_id: a, molecule_b_id: b, target_distance: root as i64 };
                            assert(bond == candidate_bond(self.molecules(), a, b));
                            planned.push(bond);
                            flagged.push(a);
                            flagged.push(b);
                            bonded = true;
                            assert(flagged@ == f0.push(a).push(b));
                            assert forall|q: int| 0 <= q < planned@.len() implies flagged@.contains(
                                #[trigger] planned@[q].molecule_a_id,
                            ) && flagged@.contains(planned@[q].molecule_b_id) by {
                                if q < planned0.len() {
                                    assert(planned0[q] == planned@[q]);
                                    let x = choose|x: int| 0 <= x < f0.len() && f0[x] == planned0[q].molecule_a_id;
                                    let y = choose|y: int| 0 <= y < f0.len() && f0[y] == planned0[q].molecule_b_id;
                                    assert(flagged@[x] == f0[x]);
                                    assert(flagged@[y] == f0[y]);
                                } else {
                                    assert(flagged@[f0.len() as int] == a);
                                    assert(flagged@[f0.len() as int + 1] == b);
                                }
                            }
                            assert forall|q: int| 0 <= q < flagged@.len() implies self.molecules().contains_key(
                                #[trigger] flagged@[q],
                            ) && is_reactive(self.molecules()[flagged@[q]].mol_type) by {
                                if q < f0.len() {
                                    assert(f0[q] == flagged@[q]);
                                }
                            }
                            assert forall|q: int| 0 <= q < flagged@.len() implies is_endpoint(
                                planned@,
                                0,
                                #[trigger] flagged@[q],
                            ) by {
                                if q < f0.len() {
                                    assert(f0[q] == flagged@[q]);
                                    assert(is_endpoint(planned0, 0, f0[q]));
                                    let w = choose|w: int|
                                        0 <= w < planned0.len() && (#[trigger] planned0[w].molecule_a_id
                                            == f0[q] || planned0[w].molecule_b_id == f0[q]);
                                    assert(planned@[w] == planned0[w]);
                                } else {
                                    assert(planned@[planned0.len() as int] == bond);
                                    assert(planned@[planned0.len() as int].molecule_a_id == a);
                                    assert(planned@[planned0.len() as int].molecule_b_id == b);
                                }
                            }
                        }
                    }
                }
            }
            proof {
                if !bonded {
                    assert(planned@ == planned0);
                    assert(flagged@ == f0);
                }
            }
            proof {
                reveal(SimulationState::proposed);
                assert(planned@ == Self::proposed(self, pairs@.subrange(0, k + 1), draws@));
            }
            k = k + 1;
        }
        assert(pairs@.subrange(0, pairs@.len() as int) =~= pairs@);
        (planned, flagged)
    }

    /// Every particle listed in `flagged` (all reactive glutenins) loses its
    /// reactive site; nothing else changes.
    fn spend_sites(&mut self, flagged: &Vec<u64>)
        requires
            old(self).wf(),
            forall|t: int| 0 <= t < flagged@.len() ==> old(self).molecules().contains_key(#[trigger] flagged@[t])
                && is_reactive(old(self).molecules()[flagged@[t]].mol_type),
        ensures
            final(self).wf(),
            final(self).same_setup(old(self)),
            final(self).salt_added_spec() == old(self).salt_added_spec(),
            final(self).yeast_added_spec() == old(self).yeast_added_spec(),
            final(self).bonds_spec() == old(self).bonds_spec(),
            final(self).next_id_spec() == old(self).next_id_spec(),
            final(self).grid_spec().order() == old(self).grid_spec().order(),
            forall|id: u64| #[trigger]
                final(self).molecules().contains_key(id) <==> old(self).molecules().contains_key(id),
            forall|id: u64| #[trigger]
                old(self).molecules().contains_key(id) ==> final(self).molecules()[id] == if listed_id(
                    flagged@,
                    id,
                    flagged@.len() as int,
                ) {
                    spent(old(self).molecules()[id])
                } else {
                    old(self).molecules()[id]
                },
    {
        proof {
            old(self).grid.lemma_wf_facts();
        }
        let mut f: usize = 0;
        while f < flagged.len()
            invariant
                self.wf(),
                old(self).wf(),
                self.same_setup(old(self)),
                self.salt_added == old(self).salt_added,
                self.yeast_added == old(self).yeast_added,
                self.bonds@ == old(self).bonds@,
                self.next_id_spec() == old(self).next_id_spec(),
                self.grid.order() == old(self).grid.order(),
                0 <= f <= flagged@.len(),
                forall|t: int| 0 <= t < flagged@.len() ==> old(self).molecules().contains_key(#[trigger] flagged@[t])
                    && is_reactive(old(self).molecules()[flagged@[t]].mol_type),
                forall|id: u64| #[trigger]
                    self.molecules().contains_key(id) <==> old(self).molecules().contains_key(id),
                forall|id: u64| #[trigger]
                    old(self).molecules().contains_key(id) ==> self.molecules()[id] == if listed_id(
                        flagged@,
                        id,
                        f as int,
                    ) {
                        spent(old(self).molecules()[id])
                    } else {
                        old(self).molecules()[id]
                    },
            decreases flagged@.len() - f,
        {
            let id = flagged[f];
            let ghost before = self.molecules();
            self.grid.set_mol_type(id, MoleculeType::Glutenin { has_free_thiol: false });
            assert forall|x: u64| #[trigger]
                old(self).molecules().contains_key(x) implies self.molecules()[x] == if listed_id(
                    flagged@,
                    x,
                    f + 1,
                ) {
                    spent(old(self).molecules()[x])
                } else {
                    old(self).molecules()[x]
                } by {
                lemma_listed_id_step(flagged@, x, f as int);
            }
            assert forall|x: u64| #[trigger]
                self.grid@.contains_key(x) implies position_ok(self.grid@[x].mol_type, self.grid@[x].pos) by {
                assert(old(self).molecules().contains_key(x));
            }
            proof {
                lemma_settled_kept(
                    self.bonds@,
                    before,
                    self.molecules(),
                    self.next_id_spec(),
                    self.next_id_spec(),
                );
            }
            f = f + 1;
        }
    }

    /// Appends the planned bonds that repeat no pair, in order.
    fn add_planned(&mut self, planned: &Vec<Bond>, flagged: &Vec<u64>, Ghost(s0): Ghost<SimulationState>)
        requires
            old(self).wf(),
            s0.wf(),
            old(self).same_setup(&s0),
            old(self).salt_added == s0.salt_added,
            old(self).yeast_added == s0.yeast_added,
            forall|t: int| 0 <= t < planned@.len() ==> bond_candidate(s0.molecules(), #[trigger] planned@[t]),
            forall|t: int| 0 <= t < planned@.len() ==> 0 <= #[trigger] planned@[t].target_distance < BOND_REACH,
            forall|t: int| 0 <= t < planned@.len() ==> flagged@.contains(#[trigger] planned@[t].molecule_a_id)
                && flagged@.contains(planned@[t].molecule_b_id),
            old(self).bonds@ == s0.bonds@,
            forall|id: u64| #[trigger]
                s0.molecules().contains_key(id) ==> old(self).molecules().contains_key(id) && old(self).molecules()[id] == if listed_id(
                    flagged@,
                    id,
                    flagged@.len() as int,
                ) {
                    spent(s0.molecules()[id])
                } else {
                    s0.molecules()[id]
                },
            forall|id: u64| #[trigger] old(self).molecules().contains_key(id) <==> s0.molecules().contains_key(id),
            old(self).next_id_spec() == s0.next_id_spec(),
            old(self).grid.order() == s0.grid.order(),
        ensures
            final(self).wf(),
            final(self).grid == old(self).grid,
            final(self).same_setup(&s0),
            final(self).salt_added == s0.salt_added,
            final(self).yeast_added == s0.yeast_added,
            s0.bonds@.len() <= final(self).bonds@.len(),
            forall|t: int| 0 <= t < s0.bonds@.len() ==> #[trigger] final(self).bonds@[t] == s0.bonds@[t],
            forall|t: int|
                s0.bonds@.len() <= t < final(self).bonds@.len() ==> {
                    let b = #[trigger] final(self).bonds@[t];
                    &&& bond_candidate(s0.molecules(), b)
                    &&& flagged@.contains(b.molecule_a_id)
                    &&& flagged@.contains(b.molecule_b_id)
                },
            forall|t: int|
                0 <= t < planned@.len() ==> is_endpoint(final(self).bonds@, s0.bonds@.len() as int, #[trigger] planned@[t].molecule_a_id)
                    && is_endpoint(final(self).bonds@, s0.bonds@.len() as int, planned@[t].molecule_b_id),
            final(self).bonds@ == merged(s0.bonds@, planned@),
    {
        let ghost s1 = *self;
        proof {
            reveal(merged);
            assert(planned@.subrange(0, 0) =~= Seq::<Bond>::empty());
            assert(merged(s0.bonds@, planned@.subrange(0, 0)) == s0.bonds@);
        }
        // Commit: add the planned bonds that repeat no pair.
        let mut k: usize = 0;
        while k < planned.len()
            invariant
                self.wf(),
                s0.wf(),
                s1.wf(),
                self.grid == s1.grid,
                self.same_setup(&s0),
                self.salt_added == s0.salt_added,
                self.yeast_added == s0.yeast_added,
                0 <= k <= planned@.len(),
                s0.bonds@.len() <= self.bonds@.len(),
                forall|t: int| 0 <= t < s0.bonds@.len() ==> #[trigger] self.bonds@[t] == s0.bonds@[t],
                forall|t: int|
                    s0.bonds@.len() <= t < self.bonds@.len() ==> {
                        let b = #[trigger] self.bonds@[t];
                        &&& bond_candidate(s0.molecules(), b)
                        &&& flagged@.contains(b.molecule_a_id)
                        &&& flagged@.contains(b.molecule_b_id)
                    },
                forall|t: int| 0 <= t < planned@.len() ==> bond_candidate(s0.molecules(), #[trigger] planned@[t]),
                forall|t: int| 0 <= t < planned@.len() ==> 0 <= #[trigger] planned@[t].target_distance < BOND_REACH,
                forall|t: int| 0 <= t < planned@.len() ==> flagged@.contains(#[trigger] planned@[t].molecule_a_id)
                    && flagged@.contains(planned@[t].molecule_b_id),
                forall|t: int|
                    0 <= t < k ==> is_endpoint(self.bonds@, s0.bonds@.len() as int, #[trigger] planned@[t].molecule_a_id)
                        && is_endpoint(self.bonds@, s0.bonds@.len() as int, planned@[t].molecule_b_id),
                forall|id: u64| #[trigger]
                    s0.molecules().contains_key(id) ==> s1.molecules().contains_key(id) && s1.molecules()[id] == if listed_id(
                        flagged@,
                        id,
                        flagged@.len() as int,
                    ) {
                        spent(s0.molecules()[id])
                    } else {
                        s0.molecules()[id]
                    },
                forall|id: u64| #[trigger] s1.molecules().contains_key(id) <==> s0.molecules().contains_key(id),
                s1.next_id_spec() == s0.next_id_spec(),
                s1.grid.order() == s0.grid.order(),
                self.bonds@ == merged(s0.bonds@, planned@.subrange(0, k as int)),
            decreases planned@.len() - k,
        {
            let b = planned[k];
            let ghost sub1 = planned@.subrange(0, k + 1);
            assert(sub1.drop_last() =~= planned@.subrange(0, k as int));
            assert(sub1.last() == b);
            let ghost b0 = self.bonds@;
            assert(planned@[k as int] == b);
            if !self.has_bond(b.molecule_a_id, b.molecule_b_id) {
                self.bonds.push(b);
                assert forall|x: int, y: int|
                    0 <= x < y < self.bonds@.len() implies !same_pair(
                    #[trigger] self.bonds@[x],
                    #[trigger] self.bonds@[y],
                ) by {
                    if y == b0.len() {
                        assert(self.bonds@[x] == b0[x]);
                        if same_pair(b0[x], b) {
                            assert(same_pair(
                                b0[x],
                                Bond {
                                    molecule_a_id: b.molecule_a_id,
                                    molecule_b_id: b.molecule_b_id,
                                    target_distance: 0,
                                },
                            ));
                        }
                    } else {
                        assert(self.bonds@[x] == b0[x] && self.bonds@[y] == b0[y]);
                    }
                }
                assert forall|t: int|
                    0 <= t < self.bonds@.len() implies {
                        let c = #[trigger] self.bonds@[t];
                        &&& c.molecule_a_id != c.molecule_b_id
                        &&& 0 <= c.target_distance < BOND_REACH
                    } by {
                    if t < b0.len() {
                        assert(self.bonds@[t] == b0[t]);
                    }
                }
                assert forall|t: int|
                    s0.bonds@.len() <= t < self.bonds@.len() implies {
                        let c = #[trigger] self.bonds@[t];
                        &&& bond_candidate(s0.molecules(), c)
                        &&& flagged@.contains(c.molecule_a_id)
                        &&& flagged@.contains(c.molecule_b_id)
                    } by {
                    if t < b0.len() {
                        assert(self.bonds@[t] == b0[t]);
                    }
                }
                assert(listed_id(flagged@, b.molecule_a_id, flagged@.len() as int)) by {
                    let x = choose|x: int| 0 <= x < flagged@.len() && flagged@[x] == b.molecule_a_id;
                }
                assert(listed_id(flagged@, b.molecule_b_id, flagged@.len() as int)) by {
                    let x = choose|x: int| 0 <= x < flagged@.len() && flagged@[x] == b.molecule_b_id;
                }
                assert(bonds_settled(self.bonds@, self.grid@, self.grid.next_id_spec())) by {
                    s0.grid.lemma_wf_facts();
                    assert(s0.molecules().contains_key(b.molecule_a_id));
                    assert(s0.molecules().contains_key(b.molecule_b_id));
                    assert forall|t: int| 0 <= t < self.bonds@.len() implies {
                        let c = #[trigger] self.bonds@[t];
                        &&& c.molecule_a_id < self.grid.next_id_spec()
                        &&& c.molecule_b_id < self.grid.next_id_spec()
                        &&& self.grid@.contains_key(c.molecule_a_id) ==> is_spent(self.grid@[c.molecule_a_id].mol_type)
                        &&& self.grid@.contains_key(c.molecule_b_id) ==> is_spent(self.grid@[c.molecule_b_id].mol_type)
                    } by {
                        if t < b0.len() {
                            assert(self.bonds@[t] == b0[t]);
                        }
                    }
                }
                assert(self.bonds@[b0.len() as int] == b);
                assert forall|t: int| 0 <= t < k + 1 implies is_endpoint(
                    self.bonds@,
                    s0.bonds@.len() as int,
                    #[trigger] planned@[t].molecule_a_id,
                ) && is_endpoint(self.bonds@, s0.bonds@.len() as int, planned@[t].molecule_b_id) by {
                    if t < k {
                        lemma_endpoint_grows(b0, self.bonds@, s0.bonds@.len() as int, planned@[t].molecule_a_id);
                        lemma_endpoint_grows(b0, self.bonds@, s0.bonds@.len() as int, planned@[t].molecule_b_id);
                    } else {
                        assert(self.bonds@[b0.len() as int].molecule_a_id == planned@[t].molecule_a_id);
                        assert(self.bonds@[b0.len() as int].molecule_b_id == planned@[t].molecule_b_id);
                    }
                }
            } else {
                proof {
                    let j = choose|j: int|
                        0 <= j < b0.len() && same_pair(
                            #[trigger] b0[j],
                            Bond {
                                molecule_a_id: b.molecule_a_id,
                                molecule_b_id: b.molecule_b_id,
                                target_distance: 0,
                            },
                        );
                    if j < s0.bonds@.len() {
                        assert(b0[j] == s0.bonds@[j]);
                        assert(bond_candidate(s0.molecules(), b));
                        assert(false);
                    }
                    assert(self.bonds@[j] == b0[j]);
                    assert forall|t: int| 0 <= t < k + 1 implies is_endpoint(
                        self.bonds@,
                        s0.bonds@.len() as int,
                        #[trigger] planned@[t].molecule_a_id,
                    ) && is_endpoint(self.bonds@, s0.bonds@.len() as int, planned@[t].molecule_b_id) by {
                        if t == k {
                            assert(self.bonds@[j].molecule_a_id == b.molecule_a_id
                                || self.bonds@[j].molecule_b_id == b.molecule_a_id);
                            assert(self.bonds@[j].molecule_a_id == b.molecule_b_id
                                || self.bonds@[j].molecule_b_id == b.molecule_b_id);
                        }
                    }
                }
            }
            proof {
                if exists|i: int| 0 <= i < b0.len() && same_pair(#[trigger] b0[i], b) {
                    let i = choose|i: int| 0 <= i < b0.len() && same_pair(#[trigger] b0[i], b);
                    assert(same_pair(
                        b0[i],
                        Bond { molecule_a_id: b.molecule_a_id, molecule_b_id: b.molecule_b_id, target_distance: 0 },
                    ));
                    assert(self.bonds@ == b0);
                } else {
                    assert(self.bonds@ == b0.push(b));
                }
                reveal(merged);
                assert(self.bonds@ == merged(s0.bonds@, sub1));
            }
            k = k + 1;
        }
        assert(planned@.subrange(0, planned@.len() as int) =~= planned@);
    }

    /// Bonds the candidate pairs of `pairs` whose draw falls below
    /// `bond_threshold` (see `bond_drawn`). The bonds are planned against the
    /// state as it was before; then every protein of a planned bond loses its
    /// reactive site, and the planned bonds that repeat no pair are added. A
    /// protein loses its site exactly when it ends a new bond.
    #[verifier::rlimit(100)]
    pub fn form_disulfide_bridges_with(&mut self, pairs: &Vec<(u64, u64)>, draws: &Vec<i64>)
        requires
            old(self).wf(),
            pairs@.len() == draws@.len(),
        ensures
            Self::bridges_with_effect(old(self), final(self), pairs@, draws@),
    {
        let ghost s0 = *self;
        proof {
            s0.grid.lemma_wf_facts();
        }
        let (planned, flagged) = self.plan_bonds(pairs, draws);
        // Commit: every protein of a planned bond loses its reactive site.
        self.spend_sites(&flagged);
        let ghost s1 = *self;
        proof {
            reveal(merged);
            assert(planned@.subrange(0, 0) =~= Seq::<Bond>::empty());
            assert(merged(s0.bonds@, planned@.subrange(0, 0)) == s0.bonds@);
        }
        self.add_planned(&planned, &flagged, Ghost(s0));
        assert(planned@.subrange(0, planned@.len() as int) =~= planned@);
        proof {
            assert forall|id: u64| #[trigger]
                s0.molecules().contains_key(id) implies (listed_id(flagged@, id, flagged@.len() as int)
                    <==> is_endpoint(self.bonds@, s0.bonds@.len() as int, id)) by {
                if listed_id(flagged@, id, flagged@.len() as int) {
                    let x = choose|x: int| 0 <= x < flagged@.len() && flagged@[x] == id;
                    assert(is_endpoint(planned@, 0, flagged@[x]));
                    let w = choose|w: int|
                        0 <= w < planned@.len() && (#[trigger] planned@[w].molecule_a_id == id
                            || planned@[w].molecule_b_id == id);
                    assert(is_endpoint(self.bonds@, s0.bonds@.len() as int, planned@[w].molecule_a_id));
                    assert(is_endpoint(self.bonds@, s0.bonds@.len() as int, planned@[w].molecule_b_id));
                }
                if is_endpoint(self.bonds@, s0.bonds@.len() as int, id) {
                    let t = choose|t: int|
                        s0.bonds@.len() <= t < self.bonds@.len() && (#[trigger] self.bonds@[t].molecule_a_id
                            == id || self.bonds@[t].molecule_b_id == id);
                    let c = self.bonds@[t];
                    if c.molecule_a_id == id {
                        let x = choose|x: int| 0 <= x < flagged@.len() && flagged@[x] == c.molecule_a_id;
                    } else {
                        let x = choose|x: int| 0 <= x < flagged@.len() && flagged@[x] == c.molecule_b_id;
                    }
                }
            }
        }
    }

    /// Every bond of a well-formed state joins two distinct particles and has
    /// a rest distance below the bonding reach.
    pub proof fn lemma_bond_facts(&self, i: int)
        requires
            self.wf(),
            0 <= i < self.bonds_spec().len(),
        ensures
            self.bonds_spec()[i].molecule_a_id != self.bonds_spec()[i].molecule_b_id,
            0 <= self.bonds_spec()[i].target_distance < BOND_REACH,
    {
    }

    /// Only glutenins without a free reactive site are pulled by bonds: the
    /// bond step changes no other particle.
    pub proof fn lemma_pulled_is_spent(&self, id: u64)
        requires
            self.wf(),
            pulled(self.bonds_spec(), self.molecules(), id),
        ensures
            self.molecules().contains_key(id),
            is_spent(self.molecules()[id].mol_type),
    {
        lemma_pulled_end(self.bonds_spec(), self.molecules(), id);
        let i = choose|i: int|
            0 <= i < self.bonds_spec().len() && (#[trigger] self.bonds_spec()[i].molecule_a_id == id
                || self.bonds_spec()[i].molecule_b_id == id);
        assert(bonds_settled(self.bonds@, self.grid@, self.grid.next_id_spec()));
    }

    /// Every particle of a well-formed state lies within `POS_BOUND` on each axis.
    pub proof fn lemma_positions_bounded(&self, id: u64)
        requires
            self.wf(),
            self.molecules().contains_key(id),
        ensures
            within_bound(self.molecules()[id].pos, POS_BOUND),
    {
    }

    /// Yeast metabolism, then buoyancy. Every sugar closer than 5 units to a
    /// yeast cell is consumed; for each such meeting a draw below
    /// `co2_threshold` makes carbon dioxide near the yeast, and then with
    /// probability 30% also ethanol. Consumed sugar is removed only after the
    /// scan and products are added under fresh ids. Finally every carbon
    /// dioxide particle is lifted (see `lifted`).
    pub fn handle_yeast_activity(&mut self, dt: u32)
        requires
            old(self).wf(),
        ensures
            Self::yeast_effect(old(self), final(self), dt as int),

    {
        let all = self.grid.get_all_molecules();
        let ghost s0 = *self;
        proof {
            s0.grid.lemma_wf_facts();
        }
        let mut consumed: Vec<u64> = Vec::new();
        let mut produced: Vec<Molecule> = Vec::new();
        let ghost mut tags: Seq<(u64, u64)> = Seq::empty();
        let ghost order = s0.grid.order();
        let ghost g = s0.molecules();
        proof {
            lemma_fermentation_empty(g);
        }
        let mut i: usize = 0;
        while i < all.len()
            invariant
                s0.wf(),
                *self == s0,
                0 <= i <= all@.len(),
                forall|t: int| 0 <= t < all@.len() ==> #[trigger] all@[t] == s0.molecules()[s0.grid.order()[t]],
                forall|t: int| 0 <= t < all@.len() ==> #[trigger] all@[t].id == s0.grid.order()[t],
                all@.len() == s0.grid.order().len(),
                forall|id: u64| #[trigger] s0.molecules().contains_key(id) <==> s0.grid.order().contains(id),
                forall|k: int| 0 <= k < consumed@.len() ==> is_eaten(s0.molecules(), #[trigger] consumed@[k]),
                order == s0.grid.order(),
                g == s0.molecules(),
                order.no_duplicates(),
                fermentation(g, produced@, tags),
                forall|k: int| 0 <= k < tags.len() ==> listed_id(order, (#[trigger] tags[k]).0, i as int),
                co2_threshold(s0.temperature as int, dt as int) <= 0 ==> produced@.len() == 0,
                forall|k: int| 0 <= k < produced@.len() ==> within_bound((#[trigger] produced@[k]).pos, POS_BOUND),
                forall|k: int| 0 <= k < produced@.len() ==> (#[trigger] produced@[k]).mol_type == MoleculeType::CO2 || produced@[k].mol_type == MoleculeType::Ethanol,
                forall|sid: u64| #[trigger]
                    eaten_among(s0.molecules(), s0.grid.order(), sid, i as int) ==> consumed@.contains(sid),
            decreases all@.len() - i,
        {
            let y = all[i];
            assert(s0.grid.order().contains(y.id));
            let ghost tags_start = tags.len();
            proof {
                assert forall|x: u64| listed_id(order, x, i + 1) <==> (listed_id(order, x, i as int) || order[i as int] == x) by {
                    lemma_listed_id_step(order, x, i as int);
                }
            }
            if y.mol_type == MoleculeType::Yeast {
                let nb = self.grid.get_neighbors(y.pos);
                let mut j: usize = 0;
                while j < nb.len()
                    invariant
                        s0.wf(),
                        *self == s0,
                        0 <= j <= nb@.len(),
                        s0.molecules().contains_key(y.id),
                        s0.molecules()[y.id] == y,
                        y.mol_type == MoleculeType::Yeast,
                        forall|t: int|
                            0 <= t < nb@.len() ==> {
                                let n = #[trigger] nb@[t];
                                &&& s0.molecules().contains_key(n.id)
                                &&& s0.molecules()[n.id] == n
                            },
                        forall|k: int| 0 <= k < consumed@.len() ==> is_eaten(s0.molecules(), #[trigger] consumed@[k]),
                        order == s0.grid.order(),
                        g == s0.molecules(),
                        order.no_duplicates(),
                        0 <= i < all@.len(),
                        all@.len() == order.len(),
                        y.id == order[i as int],
                        forall|x: int, z: int| 0 <= x < z < nb@.len() ==> #[trigger] nb@[x].id != #[trigger] nb@[z].id,
                        fermentation(g, produced@, tags),
                        tags_start <= tags.len(),
                        forall|k: int| 0 <= k < tags_start ==> listed_id(order, (#[trigger] tags[k]).0, i as int),
                        forall|k: int|
                            tags_start <= k < tags.len() ==> (#[trigger] tags[k]).0 == y.id && listed_before(nb@, tags[k].1, j as int),
                        co2_threshold(s0.temperature as int, dt as int) <= 0 ==> produced@.len() == 0,
                        forall|k: int| 0 <= k < produced@.len() ==> within_bound((#[trigger] produced@[k]).pos, POS_BOUND),
                        forall|k: int| 0 <= k < produced@.len() ==> (#[trigger] produced@[k]).mol_type == MoleculeType::CO2 || produced@[k].mol_type == MoleculeType::Ethanol,
                        forall|sid: u64| #[trigger]
                            eaten_among(s0.molecules(), s0.grid.order(), sid, i as int) ==> consumed@.contains(sid),
                        forall|sid: u64|
                            #[trigger] eats(s0.molecules(), y.id, sid) && s0.molecules().contains_key(sid)
                                && s0.molecules()[sid].mol_type == MoleculeType::Sugar && listed_before(nb@, sid, j as int)
                                ==> consumed@.contains(sid),
                    decreases nb@.len() - j,
                {
                    let n = nb[j];
                    let ghost c_before = consumed@;
                    if n.id != y.id && n.mol_type == MoleculeType::Sugar {
                        proof {
                            s0.lemma_positions_bounded(y.id);
                            s0.lemma_positions_bounded(n.id);
                        }
                        let d2 = dist_sq_exec(y.pos, n.pos);
                        if d2 < EAT_REACH_SQ {
                            assert(eats(s0.molecules(), y.id, n.id));
                            consumed.push(n.id);
                            let sample = random_in(0, PPM);
                            if co2_emitted(sample, self.temperature, dt) {
                                assert(within_bound(y.pos, CORE_BOUND));
                                let pos = jitter(y.pos, 3 * UNIT);
                                let co2 = Molecule::new(MoleculeType::CO2, pos, random_velocity(200_000));
                                let ghost p0 = produced@;
                                let ghost t0 = tags;
                                produced.push(co2);
                                proof {
                                    assert forall|k: int| 0 <= k < t0.len() implies #[trigger] t0[k] != (y.id, n.id) by {
                                        if k < tags_start {
                                            assert(listed_id(order, t0[k].0, i as int));
                                            if t0[k].0 == y.id {
                                                let t = choose|t: int| 0 <= t < i && order[t] == y.id;
                                                assert(order[t] == order[i as int]);
                                            }
                                        } else {
                                            assert(listed_before(nb@, t0[k].1, j as int));
                                            if t0[k].1 == n.id {
                                                let t = choose|t: int| 0 <= t < j && nb@[t].id == n.id;
                                                assert(nb@[t].id == nb@[j as int].id);
                                            }
                                        }
                                    }
                                    assert(meeting_product(g, co2, (y.id, n.id))) by {
                                        reveal(meeting_product);
                                        assert(g[y.id] == y);
                                    }
                                    lemma_fermentation_co2(g, p0, t0, co2, (y.id, n.id));
                                    tags = tags.push((y.id, n.id));
                                }
                                let second = random_in(0, PPM);
                                if second < ETHANOL_PPM {
                                    let pos2 = jitter(y.pos, 2 * UNIT);
                                    let eth = Molecule::new(MoleculeType::Ethanol, pos2, random_velocity(100_000));
                                    let ghost p1 = produced@;
                                    let ghost t1 = tags;
                                    produced.push(eth);
                                    proof {
                                        assert(p1.last() == co2);
                                        assert(t1.last() == (y.id, n.id));
                                        assert(meeting_product(g, eth, (y.id, n.id))) by {
                                            reveal(meeting_product);
                                            assert(g[y.id] == y);
                                        }
                                        lemma_fermentation_ethanol(g, p1, t1, eth);
                                        tags = tags.push(t1.last());
                                    }
                                }
                            }
                        }
                    }
                    assert forall|sid: u64| c_before.contains(sid) implies consumed@.contains(sid) by {
                        let t = choose|t: int| 0 <= t < c_before.len() && c_before[t] == sid;
                        assert(consumed@[t] == sid);
                    }
                    assert forall|sid: u64|
                        #[trigger] eats(s0.molecules(), y.id, sid) && s0.molecules().contains_key(sid)
                            && s0.molecules()[sid].mol_type == MoleculeType::Sugar && listed_before(nb@, sid, j + 1)
                            implies consumed@.contains(sid) by {
                        lemma_listed_step(nb@, sid, j as int);
                        if nb@[j as int].id == sid {
                            assert(consumed@[consumed@.len() - 1] == sid);
                        }
                    }
                    j = j + 1;
                }
                assert forall|sid: u64| #[trigger]
                    eaten_among(s0.molecules(), s0.grid.order(), sid, i + 1) implies consumed@.contains(sid) by {
                    let t = choose|t: int| 0 <= t < i + 1 && #[trigger] eats(s0.molecules(), s0.grid.order()[t], sid);
                    if t < i {
                        assert(eaten_among(s0.molecules(), s0.grid.order(), sid, i as int));
                    } else {
                        assert(s0.grid.order()[t] == y.id);
                        lemma_eating_is_local(&s0.grid, y.id, sid);
                        let u = choose|u: int| 0 <= u < nb@.len() && #[trigger] nb@[u].id == sid;
                        assert(listed_before(nb@, sid, nb@.len() as int));
                    }
                }
            } else {
                assert forall|sid: u64| #[trigger]
                    eaten_among(s0.molecules(), s0.grid.order(), sid, i + 1) implies consumed@.contains(sid) by {
                    let t = choose|t: int| 0 <= t < i + 1 && #[trigger] eats(s0.molecules(), s0.grid.order()[t], sid);
                    if t < i {
                        assert(eaten_among(s0.molecules(), s0.grid.order(), sid, i as int));
                    }
                }
            }
            i = i + 1;
        }
        // Add the products under fresh ids.
        let mut k: usize = 0;
        while k < produced.len() && self.grid.has_free_id()
            invariant
                self.wf(),
                s0.wf(),
                0 <= k <= produced@.len(),
                self.same_setup(&s0),
                self.bonds@ == s0.bonds@,
                self.salt_added == s0.salt_added,
                self.yeast_added == s0.yeast_added,
                s0.next_id_spec() <= self.next_id_spec(),
                forall|id: u64| #[trigger]
                    self.molecules().contains_key(id) <==> s0.molecules().contains_key(id) || (
                    s0.next_id_spec() <= id < self.next_id_spec()),
                forall|id: u64| #[trigger]
                    s0.molecules().contains_key(id) ==> self.molecules()[id] == s0.molecules()[id],
                self.next_id_spec() == s0.next_id_spec() + k,
                forall|id: u64|
                    s0.next_id_spec() <= id < self.next_id_spec() ==> #[trigger] self.molecules()[id]
                        == (Molecule { id, ..produced@[id - s0.next_id_spec()] }),
                forall|t: int| 0 <= t < produced@.len() ==> within_bound((#[trigger] produced@[t]).pos, POS_BOUND),
                forall|t: int| 0 <= t < produced@.len() ==> (#[trigger] produced@[t]).mol_type == MoleculeType::CO2 || produced@[t].mol_type == MoleculeType::Ethanol,
            decreases produced@.len() - k,
        {
            let m = produced[k];
            let ghost before = self.molecules();
            proof {
                s0.grid.lemma_wf_facts();
            }
            let id = self.spawn(m.mol_type, m.pos, m.velocity);
            assert forall|x: u64| #[trigger] s0.molecules().contains_key(x) implies self.molecules()[x]
                == s0.molecules()[x] by {
                assert(before.contains_key(x));
            }
            assert forall|x: u64|
                s0.next_id_spec() <= x < self.next_id_spec() implies #[trigger] self.molecules()[x]
                == (Molecule { id: x, ..produced@[x - s0.next_id_spec()] }) by {
                if x != id {
                    assert(before.contains_key(x));
                }
            }
            k = k + 1;
        }
        // Remove the consumed sugar.
        let ghost s1 = *self;
        let mut c: usize = 0;
        while c < consumed.len()
            invariant
                self.wf(),
                s0.wf(),
                s1.wf(),
                0 <= c <= consumed@.len(),
                self.same_setup(&s0),
                self.bonds@ == s0.bonds@,
                self.salt_added == s0.salt_added,
                self.yeast_added == s0.yeast_added,
                self.next_id_spec() == s1.next_id_spec(),
                s0.next_id_spec() <= s1.next_id_spec(),
                forall|k: int| 0 <= k < consumed@.len() ==> is_eaten(s0.molecules(), #[trigger] consumed@[k]),
                forall|id: u64| #[trigger]
                    s1.molecules().contains_key(id) <==> s0.molecules().contains_key(id) || (
                    s0.next_id_spec() <= id < s1.next_id_spec()),
                forall|id: u64| #[trigger]
                    self.molecules().contains_key(id) <==> s1.molecules().contains_key(id) && !listed_id(
                        consumed@,
                        id,
                        c as int,
                    ),
                forall|id: u64| #[trigger]
                    self.molecules().contains_key(id) ==> self.molecules()[id] == s1.molecules()[id],
            decreases consumed@.len() - c,
        {
            let id = consumed[c];
            let ghost before = self.molecules();
            self.grid.remove(id);
            assert forall|x: u64| #[trigger]
                self.molecules().contains_key(x) <==> s1.molecules().contains_key(x) && !listed_id(
                    consumed@,
                    x,
                    c + 1,
                ) by {
                lemma_listed_id_step(consumed@, x, c as int);
                assert(before.contains_key(x) <==> s1.molecules().contains_key(x) && !listed_id(
                    consumed@,
                    x,
                    c as int,
                ));
            }
            c = c + 1;
        }
        let ghost s2 = *self;
        assert forall|id: u64| #[trigger]
            s0.molecules().contains_key(id) implies (s2.molecules().contains_key(id)
                <==> !is_eaten(s0.molecules(), id)) by {
            if !s2.molecules().contains_key(id) {
                let t = choose|t: int| 0 <= t < consumed@.len() && consumed@[t] == id;
                assert(is_eaten(s0.molecules(), consumed@[t]));
            }
            if is_eaten(s0.molecules(), id) {
                let yid = choose|yid: u64| #[trigger] eats(s0.molecules(), yid, id);
                assert(s0.grid.order().contains(yid));
                let t = choose|t: int| 0 <= t < s0.grid.order().len() && s0.grid.order()[t] == yid;
                assert(eats(s0.molecules(), s0.grid.order()[t], id));
                assert(eaten_among(s0.molecules(), s0.grid.order(), id, all@.len() as int));
                assert(consumed@.contains(id));
                let c = choose|c: int| 0 <= c < consumed@.len() && consumed@[c] == id;
                assert(listed_id(consumed@, id, consumed@.len() as int));
            }
        }
        self.lift_bubbles();
        assert forall|id: u64| #[trigger]
            self.molecules().contains_key(id) && !s0.molecules().contains_key(id) implies s0.next_id_spec() <= id
                < self.next_id_spec() && lifted(
                Molecule { id, ..produced@[id - s0.next_id_spec()] },
                self.molecules()[id],
            ) by {
            assert(s2.molecules().contains_key(id));
            assert(s1.molecules()[id] == (Molecule { id, ..produced@[id - s0.next_id_spec()] }));
            assert(lifted(s2.molecules()[id], self.molecules()[id]));
        }
        assert(Self::products_added(&s0, self, produced@));
        assert(fermentation(s0.molecules(), produced@, tags));
        assert forall|id: u64| #[trigger]
            s0.molecules().contains_key(id) && self.molecules().contains_key(id) implies lifted(
            s0.molecules()[id],
            self.molecules()[id],
        ) by {
            assert(s2.molecules().contains_key(id));
            assert(s2.molecules()[id] == s0.molecules()[id]);
        }
    }

    /// Every carbon dioxide particle is lifted and jittered (see `lifted`);
    /// nothing else changes.
    fn lift_bubbles(&mut self)
        requires
            old(self).wf(),
        ensures
            final(self).wf(),
            final(self).same_setup(old(self)),
            final(self).bonds_spec() == old(self).bonds_spec(),
            final(self).salt_added_spec() == old(self).salt_added_spec(),
            final(self).yeast_added_spec() == old(self).yeast_added_spec(),
            final(self).next_id_spec() == old(self).next_id_spec(),
            forall|id: u64| #[trigger]
                final(self).molecules().contains_key(id) <==> old(self).molecules().contains_key(id),
            forall|id: u64| #[trigger]
                old(self).molecules().contains_key(id) ==> lifted(
                    old(self).molecules()[id],
                    final(self).molecules()[id],
                ),
    {
        let all = self.grid.get_all_molecules();
        let ghost s0 = *self;
        proof {
            s0.grid.lemma_wf_facts();
        }
        let mut i: usize = 0;
        while i < all.len()
            invariant
                self.wf(),
                s0.wf(),
                0 <= i <= all@.len(),
                all@.len() == s0.grid.order().len(),
                forall|t: int| 0 <= t < all@.len() ==> #[trigger] all@[t] == s0.molecules()[s0.grid.order()[t]],
                forall|t: int| 0 <= t < all@.len() ==> #[trigger] all@[t].id == s0.grid.order()[t],
                s0.grid.order().no_duplicates(),
                forall|id: u64| #[trigger] s0.molecules().contains_key(id) <==> s0.grid.order().contains(id),
                self.same_setup(&s0),
                self.bonds@ == s0.bonds@,
                self.salt_added == s0.salt_added,
                self.yeast_added == s0.yeast_added,
                self.next_id_spec() == s0.next_id_spec(),
                forall|id: u64| #[trigger]
                    self.molecules().contains_key(id) <==> s0.molecules().contains_key(id),
                forall|t: int|
                    0 <= t < all@.len() ==> if t < i {
                        lifted(s0.molecules()[s0.grid.order()[t]], #[trigger] self.molecules()[s0.grid.order()[t]])
                    } else {
                        self.molecules()[s0.grid.order()[t]] == s0.molecules()[s0.grid.order()[t]]
                    },
            decreases all@.len() - i,
        {
            let m = all[i];
            assert(s0.grid.order().contains(m.id));
            let ghost before = self.molecules();
            if m.mol_type == MoleculeType::CO2 {
                let j = random_in(-CO2_JITTER, CO2_JITTER);
                let v = Vec3 {
                    x: clamp64_exec((m.velocity.x as i128) + (j as i128)),
                    y: clamp64_exec((m.velocity.y as i128) - (CO2_LIFT as i128)),
                    z: m.velocity.z,
                };
                self.grid.set_velocity(m.id, v);
                assert(lifted(m, self.molecules()[m.id]));
            }
            assert forall|t: int|
                0 <= t < all@.len() implies if t < i + 1 {
                    lifted(s0.molecules()[s0.grid.order()[t]], #[trigger] self.molecules()[s0.grid.order()[t]])
                } else {
                    self.molecules()[s0.grid.order()[t]] == s0.molecules()[s0.grid.order()[t]]
                } by {
                if t != i {
                    assert(s0.grid.order()[t] != s0.grid.order()[i as int]);
                }
            }
            assert forall|x: u64| #[trigger]
                self.grid@.contains_key(x) implies position_ok(self.grid@[x].mol_type, self.grid@[x].pos) by {
                assert(before.contains_key(x));
            }
            i = i + 1;
        }
        assert forall|id: u64| #[trigger]
            s0.molecules().contains_key(id) implies lifted(s0.molecules()[id], self.molecules()[id]) by {
            let t = choose|t: int| 0 <= t < s0.grid.order().len() && s0.grid.order()[t] == id;
            assert(lifted(s0.molecules()[s0.grid.order()[t]], self.molecules()[s0.grid.order()[t]]));
        }
    }

    /// Pulls bonded particles toward their rest distance: the pulls of all
    /// bonds (see `bond_pull`) are summed per particle first, then each
    /// pulled particle gets its sum divided by its mass added to its
    /// velocity, whose speed is then limited to `BOND_SPEED_CAP`. Bonds with
    /// a missing end are skipped and kept.
    pub fn apply_bond_constraints(&mut self)
        requires
            old(self).wf(),
        ensures
            Self::constraints_effect(old(self), final(self)),

    {
        let ghost s0 = *self;
        let ghost g = s0.molecules();
        let mut forces: HashMap<u64, (i128, i128, i128)> = HashMap::new();
        let mut k: usize = 0;
        while k < self.bonds.len()
            invariant
                *self == s0,
                s0.wf(),
                0 <= k <= s0.bonds@.len(),
                g == s0.molecules(),
                forall|id: u64| #[trigger]
                    forces@.contains_key(id) <==> pulled(s0.bonds@.subrange(0, k as int), g, id),
                forall|id: u64| #[trigger]
                    forces@.contains_key(id) ==> {
                        let f = forces@[id];
                        let p = total_pull(s0.bonds@.subrange(0, k as int), g, id);
                        &&& (f.0 as int, f.1 as int, f.2 as int) == p
                        &&& -(k * 0x10_0000_0000_0000) <= f.0 <= k * 0x10_0000_0000_0000
                        &&& -(k * 0x10_0000_0000_0000) <= f.1 <= k * 0x10_0000_0000_0000
                        &&& -(k * 0x10_0000_0000_0000) <= f.2 <= k * 0x10_0000_0000_0000
                        &&& k * 0x10_0000_0000_0000 <= 0x1_0000_0000_0000_0000 * 0x10_0000_0000_0000
                    },
                forall|id: u64|
                    !forces@.contains_key(id) ==> #[trigger] total_pull(s0.bonds@.subrange(0, k as int), g, id)
                        == (0int, 0int, 0int),
            decreases s0.bonds@.len() - k,
        {
            let b = self.bonds[k];
            let ghost pre = s0.bonds@.subrange(0, k as int);
            let ghost post = s0.bonds@.subrange(0, k + 1);
            assert(post.drop_last() =~= pre);
            assert(post.last() == b);
            assert(k < 0x1_0000_0000_0000_0000);
            let ea = self.grid.get_molecule(b.molecule_a_id);
            let eb = self.grid.get_molecule(b.molecule_b_id);
            let ghost f0 = forces@;
            let ghost kk = k as int;
            let ghost bound0 = kk * 0x10_0000_0000_0000;
            let ghost bound1 = (kk + 1) * 0x10_0000_0000_0000;
            assert(0 <= bound0 && bound1 == bound0 + 0x10_0000_0000_0000);
            assert(bound1 <= 0x1_0000_0000_0000_0000 * 0x10_0000_0000_0000) by (nonlinear_arith)
                requires
                    bound1 == (kk + 1) * 0x10_0000_0000_0000,
                    kk + 1 <= 0x1_0000_0000_0000_0000,
            ;
            if ea.is_some() && eb.is_some() {
                let ma = *ea.unwrap();
                let mb = *eb.unwrap();
                proof {
                    s0.lemma_positions_bounded(b.molecule_a_id);
                    s0.lemma_positions_bounded(b.molecule_b_id);
                    assert(s0.bonds@[k as int] == b);
                    s0.lemma_bond_facts(k as int);
                }
                let pull = bond_pull_exec(ma.pos, mb.pos, b.target_distance);
                match pull {
                    Some(c) => {
                        assert(bond_pull(g, b) == Some((c.0 as int, c.1 as int, c.2 as int)));
                        let fa = match forces.get(&b.molecule_a_id) {
                            Some(f) => *f,
                            None => (0, 0, 0),
                        };
                        forces.insert(b.molecule_a_id, (fa.0 + c.0, fa.1 + c.1, fa.2 + c.2));
                        let ghost f1 = forces@;
                        let fb = match forces.get(&b.molecule_b_id) {
                            Some(f) => *f,
                            None => (0, 0, 0),
                        };
                        forces.insert(b.molecule_b_id, (fb.0 - c.0, fb.1 - c.1, fb.2 - c.2));
                        assert(b.molecule_a_id != b.molecule_b_id);
                    },
                    None => {
                        assert(bond_pull(g, b).is_none());
                    },
                }
            } else {
                assert(bond_pull(g, b).is_none());
            }
            assert forall|id: u64| #[trigger]
                forces@.contains_key(id) <==> pulled(post, g, id) by {
                assert(pulled(post, g, id) == (pulled(pre, g, id) || (bond_pull(g, b).is_some() && (
                b.molecule_a_id == id || b.molecule_b_id == id))));
            }
            assert forall|id: u64| #[trigger]
                forces@.contains_key(id) implies {
                    let f = forces@[id];
                    let p = total_pull(post, g, id);
                    &&& (f.0 as int, f.1 as int, f.2 as int) == p
                    &&& -bound1 <= f.0 <= bound1
                    &&& -bound1 <= f.1 <= bound1
                    &&& -bound1 <= f.2 <= bound1
                } by {
                if f0.contains_key(id) {
                    assert(-bound0 <= f0[id].0 <= bound0);
                } else {
                    assert(total_pull(pre, g, id) == (0int, 0int, 0int));
                }
            }
            assert forall|id: u64|
                !forces@.contains_key(id) implies #[trigger] total_pull(post, g, id) == (0int, 0int, 0int) by {
                assert(!f0.contains_key(id));
                assert(total_pull(pre, g, id) == (0int, 0int, 0int));
            }
            k = k + 1;
        }
        assert(k == s0.bonds@.len());
        assert(s0.bonds@.subrange(0, s0.bonds@.len() as int) =~= s0.bonds@);
        let all = self.grid.get_all_molecules();
        proof {
            s0.grid.lemma_wf_facts();
        }
        let mut i: usize = 0;
        while i < all.len()
            invariant
                self.wf(),
                s0.wf(),
                g == s0.molecules(),
                0 <= i <= all@.len(),
                all@.len() == s0.grid.order().len(),
                forall|t: int| 0 <= t < all@.len() ==> #[trigger] all@[t] == s0.molecules()[s0.grid.order()[t]],
                forall|t: int| 0 <= t < all@.len() ==> #[trigger] all@[t].id == s0.grid.order()[t],
                s0.grid.order().no_duplicates(),
                forall|id: u64| #[trigger] s0.molecules().contains_key(id) <==> s0.grid.order().contains(id),
                self.same_setup(&s0),
                self.bonds@ == s0.bonds@,
                self.salt_added == s0.salt_added,
                self.yeast_added == s0.yeast_added,
                self.next_id_spec() == s0.next_id_spec(),
                self.grid.order() == s0.grid.order(),
                forall|id: u64| #[trigger]
                    self.molecules().contains_key(id) <==> s0.molecules().contains_key(id),
                forall|id: u64| #[trigger]
                    forces@.contains_key(id) <==> pulled(s0.bonds@, g, id),
                forall|id: u64| #[trigger]
                    forces@.contains_key(id) ==> {
                        let f = forces@[id];
                        &&& (f.0 as int, f.1 as int, f.2 as int) == total_pull(s0.bonds@, g, id)
                        &&& -0x1_0000_0000_0000_0000 * 0x10_0000_0000_0000 <= f.0 <= 0x1_0000_0000_0000_0000 * 0x10_0000_0000_0000
                        &&& -0x1_0000_0000_0000_0000 * 0x10_0000_0000_0000 <= f.1 <= 0x1_0000_0000_0000_0000 * 0x10_0000_0000_0000
                        &&& -0x1_0000_0000_0000_0000 * 0x10_0000_0000_0000 <= f.2 <= 0x1_0000_0000_0000_0000 * 0x10_0000_0000_0000
                    },
                forall|t: int|
                    0 <= t < all@.len() ==> #[trigger] self.molecules()[s0.grid.order()[t]] == {
                        let m = s0.molecules()[s0.grid.order()[t]];
                        if t < i && pulled(s0.bonds@, g, m.id) {
                            Molecule { velocity: bond_velocity(s0.bonds@, g, m), ..m }
                        } else {
                            m
                        }
                    },
            decreases all@.len() - i,
        {
            let m = all[i];
            assert(s0.grid.order().contains(m.id));
            let ghost before = self.molecules();
            match forces.get(&m.id) {
                Some(f) => {
                    let mass = m.mass();
                    proof {
                        lemma_radius_bounds(m.mol_type);
                    }
                    let v = kick(
                        m.velocity,
                        div_trunc(f.0, mass as i128),
                        div_trunc(f.1, mass as i128),
                        div_trunc(f.2, mass as i128),
                        BOND_SPEED_CAP,
                    );
                    self.grid.set_velocity(m.id, v);
                },
                None => {},
            }
            assert forall|x: u64| #[trigger]
                self.molecules().contains_key(x) <==> s0.molecules().contains_key(x) by {
                assert(before.contains_key(x) <==> s0.molecules().contains_key(x));
            }
            assert forall|x: u64| #[trigger]
                self.grid@.contains_key(x) implies position_ok(self.grid@[x].mol_type, self.grid@[x].pos) by {
                assert(before.contains_key(x));
            }
            assert forall|t: int|
                0 <= t < all@.len() implies #[trigger] self.molecules()[s0.grid.order()[t]] == {
                    let m = s0.molecules()[s0.grid.order()[t]];
                    if t < i + 1 && pulled(s0.bonds@, g, m.id) {
                        Molecule { velocity: bond_velocity(s0.bonds@, g, m), ..m }
                    } else {
                        m
                    }
                } by {
                if t != i {
                    assert(s0.grid.order()[t] != s0.grid.order()[i as int]);
                }
            }
            i = i + 1;
        }
        assert forall|id: u64| #[trigger]
            s0.molecules().contains_key(id) implies self.molecules()[id] == {
                let m = s0.molecules()[id];
                if pulled(s0.bonds@, g, id) {
                    Molecule { velocity: bond_velocity(s0.bonds@, g, m), ..m }
                } else {
                    m
                }
            } by {
            let t = choose|t: int| 0 <= t < s0.grid.order().len() && s0.grid.order()[t] == id;
            assert(self.molecules()[s0.grid.order()[t]] == self.molecules()[id]);
        }
    }

    /// What `handle_chemistry` does: bond formation, then yeast metabolism once yeast is in.
    pub open spec fn chemistry_effect(s0: &Self, s1: &Self, dt: int) -> bool {
        exists|b: Self|
            #[trigger] Self::bridges_effect(s0, &b) && if s0.yeast_added_spec() {
                Self::yeast_effect(&b, s1, dt)
            } else {
                *s1 == b
            }
    }

    /// `a` and `b` differ at most in their clocks.
    pub open spec fn same_but_clock(a: &Self, b: &Self) -> bool {
        &&& a.grid_spec() == b.grid_spec()
        &&& a.bonds_spec() == b.bonds_spec()
        &&& a.width_spec() == b.width_spec()
        &&& a.height_spec() == b.height_spec()
        &&& a.depth_spec() == b.depth_spec()
        &&& a.temperature_spec() == b.temperature_spec()
        &&& a.recipe_spec() == b.recipe_spec()
        &&& a.salt_added_spec() == b.salt_added_spec()
        &&& a.yeast_added_spec() == b.yeast_added_spec()
    }

    /// Bond formation, then yeast metabolism once yeast is in.
    fn handle_chemistry(&mut self, dt: u32)
        requires
            old(self).wf(),
        ensures
            Self::chemistry_effect(old(self), final(self), dt as int),
    {
        self.form_disulfide_bridges();
        let ghost b = *self;
        if self.yeast_added {
            self.handle_yeast_activity(dt);
        }
        assert(Self::bridges_effect(old(self), &b));
    }

    /// Advances the simulation by `dt` microseconds: motion and walls
    /// (`integrate`), bond formation, yeast metabolism once yeast is in, and
    /// bond constraints, in that order; then the clock (saturating). Bonds
    /// are only ever added, no pair is ever bonded twice, and without yeast
    /// no particle appears or disappears.
    pub fn tick(&mut self, dt: u32)
        requires
            old(self).wf(),
        ensures
            final(self).wf(),
            final(self).time_elapsed_spec() == old(self).time_elapsed_spec().saturating_add(dt as u64),
            exists|a: Self, c: Self, d: Self|
                #[trigger] Self::integrate_effect(old(self), &a, dt as int)
                    && Self::chemistry_effect(&a, &c, dt as int)
                    && #[trigger] Self::constraints_effect(&c, &d)
                    && Self::same_but_clock(&d, final(self)),
            no_duplicate_pairs(final(self).bonds_spec()),
            final(self).salt_added_spec() == old(self).salt_added_spec(),
            final(self).yeast_added_spec() == old(self).yeast_added_spec(),
            old(self).next_id_spec() <= final(self).next_id_spec(),
            old(self).bonds_spec().len() <= final(self).bonds_spec().len(),
            forall|i: int|
                0 <= i < old(self).bonds_spec().len() ==> #[trigger] final(self).bonds_spec()[i]
                    == old(self).bonds_spec()[i],
            !old(self).yeast_added_spec() ==> forall|id: u64| #[trigger]
                final(self).molecules().contains_key(id) <==> old(self).molecules().contains_key(id),
    {
        self.integrate(dt);
        let ghost a = *self;
        self.handle_chemistry(dt);
        let ghost c = *self;
        self.apply_bond_constraints();
        let ghost d = *self;
        self.time_elapsed = self.time_elapsed.saturating_add(dt as u64);
        assert(Self::integrate_effect(old(self), &a, dt as int));
        assert(Self::constraints_effect(&c, &d));
        assert(Self::same_but_clock(&d, self));
        let ghost b = choose|b: Self|
            #[trigger] Self::bridges_effect(&a, &b) && if a.yeast_added_spec() {
                Self::yeast_effect(&b, &c, dt as int)
            } else {
                c == b
            };
        assert(forall|i: int|
            0 <= i < old(self).bonds_spec().len() ==> #[trigger] b.bonds_spec()[i]
                == old(self).bonds_spec()[i]);
        proof {
            if !old(self).yeast_added_spec() {
                assert(c == b);
            }
        }
    }

    /// The end positions of every bond whose two ends are live, for drawing.
    pub fn get_bond_for_display(&self) -> (r: Vec<(Vec3, Vec3)>)
        requires
            self.wf(),
        ensures
            r@ == bond_lines(self.bonds_spec(), self.molecules()),
    {
        let mut r: Vec<(Vec3, Vec3)> = Vec::new();
        let mut i: usize = 0;
        while i < self.bonds.len()
            invariant
                self.wf(),
                0 <= i <= self.bonds@.len(),
                r@ == bond_lines(self.bonds@.subrange(0, i as int), self.molecules()),
            decreases self.bonds@.len() - i,
        {
            let b = self.bonds[i];
            assert(self.bonds@.subrange(0, i + 1).drop_last() =~= self.bonds@.subrange(0, i as int));
            let ea = self.grid.get_molecule(b.molecule_a_id);
            let eb = self.grid.get_molecule(b.molecule_b_id);
            if ea.is_some() && eb.is_some() {
                let pa = ea.unwrap().pos;
                let pb = eb.unwrap().pos;
                r.push((pa, pb));
            }
            i = i + 1;
        }
        assert(self.bonds@.subrange(0, self.bonds@.len() as int) =~= self.bonds@);
        r
    }

    /// The live particles of the same category as `mol_type` (whatever a
    /// protein's reactive flag), in the order of the grid's `order()`.
    pub fn get_molecules_by_type(&self, mol_type: &MoleculeType) -> (r: Vec<Molecule>)
        requires
            self.wf(),
        ensures
            r@ == of_category(
                self.grid_spec().order().map_values(|id: u64| self.molecules()[id]),
                *mol_type,
            ),
    {
        let all = self.grid.get_all_molecules();
        let ghost ms = self.grid.order().map_values(|id: u64| self.molecules()[id]);
        assert(all@ =~= ms);
        let mut r: Vec<Molecule> = Vec::new();
        let mut i: usize = 0;
        while i < all.len()
            invariant
                0 <= i <= all@.len(),
                r@ == of_category(all@.subrange(0, i as int), *mol_type),
            decreases all@.len() - i,
        {
            let m = all[i];
            assert(all@.subrange(0, i + 1).drop_last() =~= all@.subrange(0, i as int));
            if m.mol_type.same_category(mol_type) {
                r.push(m);
            }
            i = i + 1;
        }
        assert(all@.subrange(0, all@.len() as int) =~= all@);
        r
    }

    pub fn grid(&self) -> (r: &SpatialGrid3D)
        ensures
            *r == self.grid_spec(),
    {
        &self.grid
    }

    pub fn bonds(&self) -> (r: &Vec<Bond>)
        ensures
            r@ == self.bonds_spec(),
    {
        &self.bonds
    }

    pub fn width(&self) -> (r: i64)
        ensures
            r == self.width_spec(),
    {
        self.width
    }

    pub fn height(&self) -> (r: i64)
        ensures
            r == self.height_spec(),
    {
        self.height
    }

    pub fn depth(&self) -> (r: i64)
        ensures
            r == self.depth_spec(),
    {
        self.depth
    }

    /// In thousandths of a degree Celsius.
    pub fn temperature(&self) -> (r: i64)
        ensures
            r == self.temperature_spec(),
    {
        self.temperature
    }

    /// In microseconds.
    pub fn time_elapsed(&self) -> (r: u64)
        ensures
            r == self.time_elapsed_spec(),
    {
        self.time_elapsed
    }

    /// In parts per million.
    pub fn recipe_hydration(&self) -> (r: i64)
        ensures
            r == self.recipe_spec().0,
    {
        self.recipe_hydration
    }

    /// In parts per million.
    pub fn recipe_salt(&self) -> (r: i64)
        ensures
            r == self.recipe_spec().1,
    {
        self.recipe_salt
    }

    /// In parts per million.
    pub fn recipe_yeast(&self) -> (r: i64)
        ensures
            r == self.recipe_spec().2,
    {
        self.recipe_yeast
    }

    /// In microseconds.
    pub fn autolyse_time(&self) -> (r: u64)
        ensures
            r == self.recipe_spec().3,
    {
        self.autolyse_time
    }

    pub fn salt_added(&self) -> (r: bool)
        ensures
            r == self.salt_added_spec(),
    {
        self.salt_added
    }

    pub fn yeast_added(&self) -> (r: bool)
        ensures
            r == self.yeast_added_spec(),
    {
        self.yeast_added
    }
}

} // verus!
