//! Chemistry: when proteins bond and when yeast consumes sugar, and what
//! fermentation produces.

use vstd::prelude::*;
use crate::fixed::{Vec3, UNIT, is_sqrt_floor, sqrt_floor};
use crate::grid::{SpatialGrid3D, lemma_close_coords_adjacent};
use crate::molecule::{Bond, Molecule, MoleculeType, is_reactive};
use crate::physics::{diff, dist_sq};
use crate::random::random_in;
use crate::sim::{BOND_REACH, CELL_SIZE, CORE_BOUND, within_bound};

verus! {

/// Base bond probability, in parts per million (20%).
pub const BOND_BASE_PPM: i64 = 200_000;

/// Squared bonding reach.
pub const BOND_REACH_SQ: u128 = 64_000_000_000_000;

/// Chance, in parts per million per step, that a candidate pair bonds:
/// 20% times `max(temperature / 25 degrees, 0.1)`, times 1.2 with salt
/// nearby, times the frequency scale 0.1; rounded down.
pub open spec fn bond_threshold(temperature: int, salt_nearby: bool) -> int {
    let heat = if 40 * temperature >= 100_000 {
        40 * temperature
    } else {
        100_000
    };
    let salt: int = if salt_nearby {
        12
    } else {
        10
    };
    (BOND_BASE_PPM * heat * salt) / 100_000_000
}

/// Whether a pair bonds for a uniform `sample` in `[0, PPM)`.
pub fn bond_forms(sample: i64, temperature: i64, salt_nearby: bool) -> (r: bool)
    ensures
        r == (sample < bond_threshold(temperature as int, salt_nearby)),
{
    let t = temperature as i128;
    let heat: i128 = if 40 * t >= 100_000 {
        40 * t
    } else {
        100_000
    };
    let salt: i128 = if salt_nearby {
        12
    } else {
        10
    };
    assert(0 < 200_000 * heat * salt <= 0x10_0000_0000_0000_0000_0000_0000) by (nonlinear_arith)
        requires
            100_000 <= heat <= 0x40_0000_0000_0000_0000,
            10 <= salt <= 12,
    ;
    let product = (BOND_BASE_PPM as i128) * heat * salt;
    assert(product > 0) by (nonlinear_arith)
        requires
            heat >= 100_000,
            salt >= 10,
            product == 200_000 * heat * salt,
    ;
    (sample as i128) < product / 100_000_000
}

/// `b` joins two distinct reactive glutenins of `g` closer than the
/// bonding reach, and its rest distance is their distance rounded down.
pub open spec fn bond_candidate(g: Map<u64, Molecule>, b: Bond) -> bool {
    &&& g.contains_key(b.molecule_a_id)
    &&& g.contains_key(b.molecule_b_id)
    &&& b.molecule_a_id != b.molecule_b_id
    &&& is_reactive(g[b.molecule_a_id].mol_type)
    &&& is_reactive(g[b.molecule_b_id].mol_type)
    &&& dist_sq(g[b.molecule_a_id].pos, g[b.molecule_b_id].pos) < BOND_REACH_SQ
    &&& b.target_distance == sqrt_floor(dist_sq(g[b.molecule_a_id].pos, g[b.molecule_b_id].pos))
}

/// A glutenin whose reactive site is used up.
pub open spec fn spent(m: Molecule) -> Molecule {
    Molecule { mol_type: MoleculeType::Glutenin { has_free_thiol: false }, ..m }
}

/// Whether `nb` holds a salt particle.
pub(crate) fn any_salt(nb: &Vec<Molecule>) -> (r: bool)
    ensures
        r == exists|t: int| 0 <= t < nb@.len() && #[trigger] nb@[t].mol_type == MoleculeType::Salt,
{
    let mut i: usize = 0;
    while i < nb.len()
        invariant
            0 <= i <= nb@.len(),
            forall|t: int| 0 <= t < i ==> #[trigger] nb@[t].mol_type != MoleculeType::Salt,
        decreases nb@.len() - i,
    {
        if nb[i].mol_type == MoleculeType::Salt {
            return true;
        }
        i = i + 1;
    }
    false
}

pub(crate) proof fn lemma_root_below_reach(d2: int, r: int)
    requires
        is_sqrt_floor(d2, r),
        d2 < BOND_REACH_SQ,
    ensures
        0 <= r < BOND_REACH,
{
    if r >= BOND_REACH {
        assert(r * r >= BOND_REACH * BOND_REACH) by (nonlinear_arith)
            requires
                r >= BOND_REACH,
        ;
    }
}

/// Some entry of `ids` before index `i` is `id`.
pub open spec fn listed_id(ids: Seq<u64>, id: u64, i: int) -> bool {
    exists|t: int| 0 <= t < i && ids[t] == id
}

pub(crate) proof fn lemma_listed_id_step(ids: Seq<u64>, id: u64, i: int)
    requires
        0 <= i < ids.len(),
    ensures
        listed_id(ids, id, i + 1) <==> (listed_id(ids, id, i) || ids[i] == id),
{
    if listed_id(ids, id, i + 1) && ids[i] != id {
        let t = choose|t: int| 0 <= t < i + 1 && ids[t] == id;
        assert(0 <= t < i && ids[t] == id);
    }
    if listed_id(ids, id, i) {
        let t = choose|t: int| 0 <= t < i && ids[t] == id;
        assert(0 <= t < i + 1 && ids[t] == id);
    }
    if ids[i] == id {
        assert(0 <= i < i + 1 && ids[i] == id);
    }
}

/// Squared reach within which a yeast cell consumes sugar (5 units).
pub const EAT_REACH_SQ: u128 = 25_000_000_000_000;

/// Upward push given to carbon dioxide every step, in micro-units per second.
pub const CO2_LIFT: i64 = 50_000;

/// Bound of the sideways jitter given to carbon dioxide every step.
pub const CO2_JITTER: i64 = 20_000;

/// Chance, in parts per million, that carbon dioxide also comes with ethanol.
pub const ETHANOL_PPM: i64 = 300_000;

/// Chance, in parts per million, that a consumed sugar yields carbon dioxide
/// within a step of `dt` microseconds: `0.01 * max(temperature / 20 degrees, 0.1)`
/// per second, rounded down at each step.
pub open spec fn co2_threshold(temperature: int, dt: int) -> int {
    let heat = if 50 * temperature >= 100_000 {
        50 * temperature
    } else {
        100_000
    };
    ((10_000 * heat) / 1_000_000) * dt / 1_000_000
}

/// Whether a consumed sugar yields carbon dioxide for a uniform `sample` in `[0, PPM)`.
pub fn co2_emitted(sample: i64, temperature: i64, dt: u32) -> (r: bool)
    ensures
        r == (sample < co2_threshold(temperature as int, dt as int)),
{
    let t = temperature as i128;
    let heat: i128 = if 50 * t >= 100_000 {
        50 * t
    } else {
        100_000
    };
    assert(0 < 10_000 * heat <= 0x100_0000_0000_0000_0000_0000) by (nonlinear_arith)
        requires
            100_000 <= heat <= 0x40_0000_0000_0000_0000,
    ;
    let rate = (10_000 * heat) / 1_000_000;
    assert(0 <= rate <= 0x100_0000_0000_0000_0000_0000) by (nonlinear_arith)
        requires
            rate == (10_000 * heat) / 1_000_000,
            0 < 10_000 * heat <= 0x100_0000_0000_0000_0000_0000,
    ;
    assert(0 <= rate * dt <= 0x1000_0000_0000_0000_0000_0000_0000_0000) by (nonlinear_arith)
        requires
            0 <= rate <= 0x100_0000_0000_0000_0000_0000,
            0 <= dt < 0x1_0000_0000,
    ;
    (sample as i128) < rate * (dt as i128) / 1_000_000
}

/// `x` held to the range of `i64`.
pub open spec fn clamp64(x: int) -> int {
    if x > i64::MAX {
        i64::MAX as int
    } else if x < i64::MIN {
        i64::MIN as int
    } else {
        x
    }
}

pub(crate) fn clamp64_exec(x: i128) -> (r: i64)
    ensures
        r == clamp64(x as int),
{
    if x > i64::MAX as i128 {
        i64::MAX
    } else if x < i64::MIN as i128 {
        i64::MIN
    } else {
        x as i64
    }
}

/// Yeast cell `yid` of `g` is closer than 5 units to the particle `id`.
pub open spec fn eats(g: Map<u64, Molecule>, yid: u64, id: u64) -> bool {
    &&& g.contains_key(yid)
    &&& g[yid].mol_type == MoleculeType::Yeast
    &&& yid != id
    &&& dist_sq(g[yid].pos, g[id].pos) < EAT_REACH_SQ
}

/// The particle `id` of `g` is a sugar that some yeast cell is close enough to consume.
pub open spec fn is_eaten(g: Map<u64, Molecule>, id: u64) -> bool {
    &&& g.contains_key(id)
    &&& g[id].mol_type == MoleculeType::Sugar
    &&& exists|yid: u64| #[trigger] eats(g, yid, id)
}

/// `m2` is `m` after one step of buoyancy: carbon dioxide is pushed up
/// (toward smaller `y`) by `CO2_LIFT` and jittered sideways by a draw from
/// `[-CO2_JITTER, CO2_JITTER)`; other particles are unchanged.
pub open spec fn lifted(m: Molecule, m2: Molecule) -> bool {
    if m.mol_type == MoleculeType::CO2 {
        &&& m2 == Molecule { velocity: m2.velocity, ..m }
        &&& m2.velocity.y == clamp64(m.velocity.y - CO2_LIFT)
        &&& m2.velocity.z == m.velocity.z
        &&& clamp64(m.velocity.x - CO2_JITTER) <= m2.velocity.x
        &&& (m.velocity.x + CO2_JITTER <= i64::MAX ==> m2.velocity.x < m.velocity.x + CO2_JITTER)
        &&& m2.velocity.x <= clamp64(m.velocity.x + CO2_JITTER)
    } else {
        m2 == m
    }
}

/// `p` lies in the half-open cube `[c - reach, c + reach)` on each axis.
pub open spec fn in_cube(p: Vec3, c: Vec3, reach: int) -> bool {
    &&& c.x - reach <= p.x < c.x + reach
    &&& c.y - reach <= p.y < c.y + reach
    &&& c.z - reach <= p.z < c.z + reach
}

/// `m` is a product of yeast cell `yid` of `g`: carbon dioxide within
/// 3 units of it, or ethanol within 2 units (half-open cubes).
pub open spec fn product_of(g: Map<u64, Molecule>, m: Molecule, yid: u64) -> bool {
    &&& g.contains_key(yid)
    &&& g[yid].mol_type == MoleculeType::Yeast
    &&& if m.mol_type == MoleculeType::CO2 {
        in_cube(m.pos, g[yid].pos, 3 * UNIT as int)
    } else {
        m.mol_type == MoleculeType::Ethanol && in_cube(m.pos, g[yid].pos, 2 * UNIT as int)
    }
}

/// `m` is a product of the meeting `tag` of `g`: yeast cell `tag.0` close
/// enough to consume sugar `tag.1`.
#[verifier::opaque]
pub open spec fn meeting_product(g: Map<u64, Molecule>, m: Molecule, tag: (u64, u64)) -> bool {
    &&& eats(g, tag.0, tag.1)
    &&& g.contains_key(tag.1)
    &&& g[tag.1].mol_type == MoleculeType::Sugar
    &&& product_of(g, m, tag.0)
}

/// The product at index `k` is ethanol.
pub open spec fn ethanol_at(prods: Seq<Molecule>, k: int) -> bool {
    prods[k].mol_type == MoleculeType::Ethanol
}

/// `prods` are what the yeast–sugar meetings `tags` of `g` produced: each
/// product comes from the yeast of its meeting; each carbon dioxide from a
/// different meeting; each ethanol right after the carbon dioxide of its own
/// meeting.
#[verifier::opaque]
pub open spec fn fermentation(g: Map<u64, Molecule>, prods: Seq<Molecule>, tags: Seq<(u64, u64)>) -> bool {
    &&& prods.len() == tags.len()
    &&& forall|k: int| 0 <= k < prods.len() ==> #[trigger] meeting_product(g, prods[k], tags[k])
    &&& forall|k: int|
        0 <= k < prods.len() && #[trigger] ethanol_at(prods, k) ==> 0 < k && prods[k - 1].mol_type
            == MoleculeType::CO2 && tags[k - 1] == tags[k]
    &&& forall|j: int, k: int|
        0 <= j < k < prods.len() && (#[trigger] prods[j]).mol_type == MoleculeType::CO2
            && (#[trigger] prods[k]).mol_type == MoleculeType::CO2 ==> tags[j] != tags[k]
}

/// Nothing has been produced yet.
pub proof fn lemma_fermentation_empty(g: Map<u64, Molecule>)
    ensures
        fermentation(g, Seq::empty(), Seq::empty()),
{
    reveal(fermentation);
}

/// A new meeting `tag` that yields carbon dioxide `m`.
pub proof fn lemma_fermentation_co2(
    g: Map<u64, Molecule>,
    prods: Seq<Molecule>,
    tags: Seq<(u64, u64)>,
    m: Molecule,
    tag: (u64, u64),
)
    requires
        fermentation(g, prods, tags),
        forall|k: int| 0 <= k < tags.len() ==> #[trigger] tags[k] != tag,
        m.mol_type == MoleculeType::CO2,
        meeting_product(g, m, tag),
    ensures
        fermentation(g, prods.push(m), tags.push(tag)),
{
    reveal(fermentation);
    let p = prods.push(m);
    let t = tags.push(tag);
    assert forall|k: int| 0 <= k < p.len() implies #[trigger] meeting_product(g, p[k], t[k]) by {
        if k < prods.len() {
            assert(p[k] == prods[k] && t[k] == tags[k]);
        }
    }
    assert forall|k: int|
        0 <= k < p.len() && #[trigger] ethanol_at(p, k) implies 0 < k && p[k - 1].mol_type
            == MoleculeType::CO2 && t[k - 1] == t[k] by {
        if k < prods.len() {
            assert(p[k] == prods[k] && t[k] == tags[k]);
            assert(ethanol_at(prods, k));
            assert(p[k - 1] == prods[k - 1] && t[k - 1] == tags[k - 1]);
        } else {
            assert(p[k] == m);
        }
    }
    assert forall|j: int, k: int|
        0 <= j < k < p.len() && (#[trigger] p[j]).mol_type == MoleculeType::CO2
            && (#[trigger] p[k]).mol_type == MoleculeType::CO2 implies t[j] != t[k] by {
        assert(p[j] == prods[j] && t[j] == tags[j]);
        if k < prods.len() {
            assert(p[k] == prods[k] && t[k] == tags[k]);
        }
    }
}

/// Ethanol `m` from the meeting whose carbon dioxide was produced last.
pub proof fn lemma_fermentation_ethanol(
    g: Map<u64, Molecule>,
    prods: Seq<Molecule>,
    tags: Seq<(u64, u64)>,
    m: Molecule,
)
    requires
        fermentation(g, prods, tags),
        prods.len() > 0,
        tags.len() > 0,
        prods.last().mol_type == MoleculeType::CO2,
        m.mol_type == MoleculeType::Ethanol,
        meeting_product(g, m, tags.last()),
    ensures
        fermentation(g, prods.push(m), tags.push(tags.last())),
{
    reveal(fermentation);
    let p = prods.push(m);
    let t = tags.push(tags.last());
    assert forall|k: int| 0 <= k < p.len() implies #[trigger] meeting_product(g, p[k], t[k]) by {
        if k < prods.len() {
            assert(p[k] == prods[k] && t[k] == tags[k]);
        } else {
            assert(t[k] == tags[tags.len() - 1]);
        }
    }
    assert forall|k: int|
        0 <= k < p.len() && #[trigger] ethanol_at(p, k) implies 0 < k && p[k - 1].mol_type
            == MoleculeType::CO2 && t[k - 1] == t[k] by {
        if k < prods.len() {
            assert(p[k] == prods[k] && t[k] == tags[k]);
            assert(ethanol_at(prods, k));
            assert(p[k - 1] == prods[k - 1] && t[k - 1] == tags[k - 1]);
        } else {
            assert(p[k - 1] == prods[k - 1] && t[k - 1] == tags[k - 1]);
        }
    }
    assert forall|j: int, k: int|
        0 <= j < k < p.len() && (#[trigger] p[j]).mol_type == MoleculeType::CO2
            && (#[trigger] p[k]).mol_type == MoleculeType::CO2 implies t[j] != t[k] by {
        assert(p[j] == prods[j] && t[j] == tags[j]);
        assert(p[k] == prods[k] && t[k] == tags[k]);
    }
}

/// A position near `c`: each axis offset by a draw from `[-reach, reach)`.
pub(crate) fn jitter(c: Vec3, reach: i64) -> (p: Vec3)
    requires
        within_bound(c, CORE_BOUND),
        0 < reach <= 3 * UNIT,
    ensures
        in_cube(p, c, reach as int),
{
    Vec3 {
        x: c.x + random_in(-reach, reach),
        y: c.y + random_in(-reach, reach),
        z: c.z + random_in(-reach, reach),
    }
}

/// The particle `sid` of `g` is a sugar that one of the yeast cells among
/// the first `i` ids of `ids` is close enough to consume.
pub open spec fn eaten_among(g: Map<u64, Molecule>, ids: Seq<u64>, sid: u64, i: int) -> bool {
    &&& g.contains_key(sid)
    &&& g[sid].mol_type == MoleculeType::Sugar
    &&& exists|t: int| 0 <= t < i && #[trigger] eats(g, ids[t], sid)
}

/// A particle closer than 5 units to another lies in an adjacent cell.
pub(crate) proof fn lemma_eating_is_local(g: &SpatialGrid3D, yid: u64, sid: u64)
    requires
        g.wf(),
        g.cell_size_spec() == CELL_SIZE,
        eats(g@, yid, sid),
        g@.contains_key(sid),
    ensures
        g.neighborhood(g@[yid].pos).contains(sid),
{
    let a = g@[sid].pos;
    let b = g@[yid].pos;
    let d = diff(b, a);
    assert(-5_000_000 < d.0 < 5_000_000 && -5_000_000 < d.1 < 5_000_000 && -5_000_000 < d.2
        < 5_000_000) by (nonlinear_arith)
        requires
            d.0 * d.0 + d.1 * d.1 + d.2 * d.2 < 25_000_000_000_000,
    ;
    lemma_close_coords_adjacent(a.x, b.x, CELL_SIZE);
    lemma_close_coords_adjacent(a.y, b.y, CELL_SIZE);
    lemma_close_coords_adjacent(a.z, b.z, CELL_SIZE);
}

} // verus!
