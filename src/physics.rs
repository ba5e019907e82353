//! Motion of particles: drift, walls, drag, distances, and the velocity
//! changes that forces and bonds cause.

use vstd::prelude::*;
use crate::fixed::{lemma_component_within_root, norm_sq, Vec3, MICROS, tdiv, div_trunc, capped, limit_speed, isqrt, sqrt_floor, is_sqrt_floor};
use crate::molecule::{Bond, Molecule, MAX_RADIUS, radius_of, mass_of, lemma_radius_bounds};
use crate::sim::{BOND_REACH, CORE_BOUND, MAX_DIM, POS_BOUND, within_bound};

verus! {

/// A velocity component after bouncing off a wall: reversed and scaled by
/// the restitution 4/5, rounded toward zero.
pub open spec fn reflect(v: int) -> int {
    tdiv(-4 * v, 5)
}

/// A velocity component after one step of drag: scaled by 999/1000.
pub open spec fn damp(v: int) -> int {
    tdiv(v * 999, 1000)
}

/// A position component after moving for `dt` microseconds at speed `v`.
pub open spec fn drift(p: int, v: int, dt: int) -> int {
    p + tdiv(v * dt, MICROS as int)
}

/// Position and velocity on one axis after the walls at `r` and `dim - r`:
/// a position past a wall is put back on it and its velocity reflected.
pub open spec fn resolve_axis_spec(p: int, v: int, r: int, dim: int) -> (int, int) {
    let (q, w) = if p < r {
        (r, reflect(v))
    } else {
        (p, v)
    };
    if q > dim - r {
        (dim - r, reflect(w))
    } else {
        (q, w)
    }
}

/// A particle after one step of `dt` microseconds in a `w x h x d` domain:
/// it moves, bounces off the walls (its radius as margin), and is slowed by drag.
pub open spec fn step_molecule(m: Molecule, dt: int, w: int, h: int, d: int) -> Molecule {
    let r = radius_of(m.mol_type) as int;
    let (x, vx) = resolve_axis_spec(drift(m.pos.x as int, m.velocity.x as int, dt), m.velocity.x as int, r, w);
    let (y, vy) = resolve_axis_spec(drift(m.pos.y as int, m.velocity.y as int, dt), m.velocity.y as int, r, h);
    let (z, vz) = resolve_axis_spec(drift(m.pos.z as int, m.velocity.z as int, dt), m.velocity.z as int, r, d);
    Molecule {
        pos: Vec3 { x: x as i64, y: y as i64, z: z as i64 },
        velocity: Vec3 { x: damp(vx) as i64, y: damp(vy) as i64, z: damp(vz) as i64 },
        ..m
    }
}

/// Bouncing keeps a particle inside `[r, dim - r]` when the domain is at
/// least two radii wide, and a particle that crossed a wall leaves it with
/// its velocity reversed and scaled by exactly 4/5.
pub proof fn lemma_boundary_containment(p: int, v: int, r: int, dim: int)
    requires
        0 < r,
        2 * r <= dim,
    ensures
        r <= resolve_axis_spec(p, v, r, dim).0 <= dim - r,
        p < r ==> resolve_axis_spec(p, v, r, dim) == (r, reflect(v)),
        p > dim - r ==> resolve_axis_spec(p, v, r, dim) == (dim - r, reflect(v)),
        r <= p <= dim - r ==> resolve_axis_spec(p, v, r, dim) == (p, v),
{
}

/// Position and velocity on one axis after the walls of a domain of size `dim`.
pub fn resolve_axis(p: i128, v: i64, r: i64, dim: i64) -> (res: (i64, i64))
    requires
        0 < r <= MAX_DIM,
        0 < dim <= MAX_DIM,
    ensures
        (res.0 as int, res.1 as int) == resolve_axis_spec(p as int, v as int, r as int, dim as int),
        res.0 <= dim - r,
        res.0 >= r || res.0 == dim - r,
{
    let mut q = p;
    let mut w = v;
    if q < r as i128 {
        q = r as i128;
        w = reflect_exec(w);
    }
    if q > (dim - r) as i128 {
        q = (dim - r) as i128;
        w = reflect_exec(w);
    }
    (q as i64, w)
}

pub(crate) fn reflect_exec(v: i64) -> (r: i64)
    ensures
        r == reflect(v as int),
{
    let w = 0 - (v as i128) * 4;
    let q = div_trunc(w, 5);
    assert(-(0x8000_0000_0000_0000 as int) < q < 0x8000_0000_0000_0000) by (nonlinear_arith)
        requires
            q == tdiv(-4 * v, 5),
            -0x8000_0000_0000_0000 <= v < 0x8000_0000_0000_0000,
    ;
    q as i64
}

pub(crate) fn damp_exec(v: i64) -> (r: i64)
    ensures
        r == damp(v as int),
{
    let q = div_trunc((v as i128) * 999, 1000);
    assert(-(0x8000_0000_0000_0000 as int) <= q < 0x8000_0000_0000_0000) by (nonlinear_arith)
        requires
            q == tdiv(v * 999, 1000),
            -0x8000_0000_0000_0000 <= v < 0x8000_0000_0000_0000,
    ;
    q as i64
}

/// See `drift`.
pub(crate) fn drift_exec(p: i64, v: i64, dt: u32) -> (r: i128)
    ensures
        r == drift(p as int, v as int, dt as int),
{
    assert(-0x1_0000_0000_0000_0000_0000_0000 <= v * dt <= 0x1_0000_0000_0000_0000_0000_0000) by (nonlinear_arith)
        requires
            -0x8000_0000_0000_0000 <= v < 0x8000_0000_0000_0000,
            0 <= dt < 0x1_0000_0000,
    ;
    let prod = (v as i128) * (dt as i128);
    let q = div_trunc(prod, MICROS as i128);
    assert(-0x1_0000_0000_0000_0000_0000_0000 <= q <= 0x1_0000_0000_0000_0000_0000_0000) by (nonlinear_arith)
        requires
            q == tdiv(v * dt, 1_000_000),
            -0x1_0000_0000_0000_0000_0000_0000 <= v * dt <= 0x1_0000_0000_0000_0000_0000_0000,
    ;
    (p as i128) + q
}

/// See `step_molecule`.
pub(crate) fn step_exec(m: Molecule, dt: u32, w: i64, h: i64, d: i64) -> (r: Molecule)
    requires
        0 < w <= MAX_DIM,
        0 < h <= MAX_DIM,
        0 < d <= MAX_DIM,
    ensures
        r == step_molecule(m, dt as int, w as int, h as int, d as int),
        r == (Molecule { pos: r.pos, velocity: r.velocity, ..m }),
        within_bound(r.pos, CORE_BOUND),
{
    let r = m.radius();
    proof {
        lemma_radius_bounds(m.mol_type);
    }
    let (x, vx) = resolve_axis(
        drift_exec(m.pos.x, m.velocity.x, dt),
        m.velocity.x,
        r,
        w,
    );
    let (y, vy) = resolve_axis(
        drift_exec(m.pos.y, m.velocity.y, dt),
        m.velocity.y,
        r,
        h,
    );
    let (z, vz) = resolve_axis(
        drift_exec(m.pos.z, m.velocity.z, dt),
        m.velocity.z,
        r,
        d,
    );
    let velocity = Vec3 { x: damp_exec(vx), y: damp_exec(vy), z: damp_exec(vz) };
    let pos = Vec3 { x, y, z };
    Molecule { pos, velocity, ..m }
}

/// The largest speed a pushed particle keeps, in micro-units per second.
pub const FORCE_SPEED_CAP: i64 = 5_000_000;

/// The largest speed a particle pulled by its bonds keeps.
pub const BOND_SPEED_CAP: i64 = 3_000_000;

pub open spec fn diff(a: Vec3, b: Vec3) -> (int, int, int) {
    (a.x - b.x, a.y - b.y, a.z - b.z)
}

/// The squared distance between two points.
pub open spec fn dist_sq(a: Vec3, b: Vec3) -> int {
    let d = diff(a, b);
    norm_sq(d.0, d.1, d.2)
}

/// `p` lies strictly closer than `radius` to `c`.
pub open spec fn within_radius(p: Vec3, c: Vec3, radius: int) -> bool {
    radius > 0 && dist_sq(p, c) < radius * radius
}

/// Velocity `v` after adding `dv`, with its speed limited to `cap` (see `capped`).
pub open spec fn kicked(v: Vec3, dv: (int, int, int), cap: int) -> Vec3 {
    let c = capped(v.x + dv.0, v.y + dv.1, v.z + dv.2, cap);
    Vec3 { x: c.0 as i64, y: c.1 as i64, z: c.2 as i64 }
}

/// The velocity of `m` after it is pushed by `force`, divided by its mass.
pub open spec fn pushed_velocity(m: Molecule, force: Vec3) -> Vec3 {
    let mass = mass_of(m.mol_type) as int;
    kicked(
        m.velocity,
        (tdiv(force.x as int, mass), tdiv(force.y as int, mass), tdiv(force.z as int, mass)),
        FORCE_SPEED_CAP as int,
    )
}

/// Some entry of `nb` before index `i` has this id.
pub open spec fn listed_before(nb: Seq<Molecule>, id: u64, i: int) -> bool {
    exists|t: int| 0 <= t < i && nb[t].id == id
}

pub(crate) proof fn lemma_listed_step(nb: Seq<Molecule>, id: u64, i: int)
    requires
        0 <= i < nb.len(),
    ensures
        listed_before(nb, id, i + 1) <==> (listed_before(nb, id, i) || nb[i].id == id),
{
    if listed_before(nb, id, i + 1) && nb[i].id != id {
        let t = choose|t: int| 0 <= t < i + 1 && nb[t].id == id;
        assert(0 <= t < i && nb[t].id == id);
    }
    if listed_before(nb, id, i) {
        let t = choose|t: int| 0 <= t < i && nb[t].id == id;
        assert(0 <= t < i + 1 && nb[t].id == id);
    }
    if nb[i].id == id {
        assert(0 <= i < i + 1 && nb[i].id == id);
    }
}

/// See `within_radius`.
pub fn within_radius_exec(p: Vec3, c: Vec3, radius: i64) -> (r: bool)
    ensures
        r == within_radius(p, c, radius as int),
{
    if radius <= 0 {
        return false;
    }
    let dx = (p.x as i128) - (c.x as i128);
    let dy = (p.y as i128) - (c.y as i128);
    let dz = (p.z as i128) - (c.z as i128);
    let rr = radius as i128;
    if dx >= rr || dx <= -rr || dy >= rr || dy <= -rr || dz >= rr || dz <= -rr {
        assert(!within_radius(p, c, radius as int)) by (nonlinear_arith)
            requires
                dx >= rr || dx <= -rr || dy >= rr || dy <= -rr || dz >= rr || dz <= -rr,
                rr > 0,
                (dx as int, dy as int, dz as int) == diff(p, c),
                rr == radius,
        ;
        return false;
    }
    assert(0 <= dx * dx < 0x4000_0000_0000_0000_0000_0000_0000_0000) by (nonlinear_arith)
        requires
            -rr < dx < rr,
            rr < 0x8000_0000_0000_0000,
    ;
    assert(0 <= dy * dy < 0x4000_0000_0000_0000_0000_0000_0000_0000) by (nonlinear_arith)
        requires
            -rr < dy < rr,
            rr < 0x8000_0000_0000_0000,
    ;
    assert(0 <= dz * dz < 0x4000_0000_0000_0000_0000_0000_0000_0000) by (nonlinear_arith)
        requires
            -rr < dz < rr,
            rr < 0x8000_0000_0000_0000,
    ;
    assert(0 <= rr * rr < 0x4000_0000_0000_0000_0000_0000_0000_0000) by (nonlinear_arith)
        requires
            0 < rr < 0x8000_0000_0000_0000,
    ;
    let s: u128 = (dx * dx) as u128 + (dy * dy) as u128 + (dz * dz) as u128;
    s < (rr * rr) as u128
}

/// The squared distance between two points of the state.
pub(crate) fn dist_sq_exec(a: Vec3, b: Vec3) -> (r: u128)
    requires
        within_bound(a, POS_BOUND),
        within_bound(b, POS_BOUND),
    ensures
        r == dist_sq(a, b),
        r < 0x100_0000_0000_0000_0000_0000_0000,
{
    let dx = (a.x as i128) - (b.x as i128);
    let dy = (a.y as i128) - (b.y as i128);
    let dz = (a.z as i128) - (b.z as i128);
    assert(0 <= dx * dx <= 0x10_0000_0000_0000_0000_0000_0000) by (nonlinear_arith)
        requires
            -0x4_0000_0000_0000 <= dx <= 0x4_0000_0000_0000,
    ;
    assert(0 <= dy * dy <= 0x10_0000_0000_0000_0000_0000_0000) by (nonlinear_arith)
        requires
            -0x4_0000_0000_0000 <= dy <= 0x4_0000_0000_0000,
    ;
    assert(0 <= dz * dz <= 0x10_0000_0000_0000_0000_0000_0000) by (nonlinear_arith)
        requires
            -0x4_0000_0000_0000 <= dz <= 0x4_0000_0000_0000,
    ;
    (dx * dx) as u128 + (dy * dy) as u128 + (dz * dz) as u128
}

/// See `kicked`.
pub(crate) fn kick(v: Vec3, dx: i128, dy: i128, dz: i128, cap: i64) -> (r: Vec3)
    requires
        0 <= cap,
        -0x4000_0000_0000_0000_0000_0000_0000_0000 <= dx <= 0x4000_0000_0000_0000_0000_0000_0000_0000,
        -0x4000_0000_0000_0000_0000_0000_0000_0000 <= dy <= 0x4000_0000_0000_0000_0000_0000_0000_0000,
        -0x4000_0000_0000_0000_0000_0000_0000_0000 <= dz <= 0x4000_0000_0000_0000_0000_0000_0000_0000,
    ensures
        r == kicked(v, (dx as int, dy as int, dz as int), cap as int),
{
    limit_speed((v.x as i128) + dx, (v.y as i128) + dy, (v.z as i128) + dz, cap)
}

/// The velocity change that bond `b` pulls its first particle by (its
/// second particle gets the opposite), before division by mass: the vector
/// from the first to the second particle times `(rest - n) / (2 n)`, where
/// `n` is their distance rounded down. None when an end is missing or the
/// rounded distance is zero.
pub open spec fn bond_pull(g: Map<u64, Molecule>, b: Bond) -> Option<(int, int, int)> {
    if g.contains_key(b.molecule_a_id) && g.contains_key(b.molecule_b_id) {
        let d = diff(g[b.molecule_b_id].pos, g[b.molecule_a_id].pos);
        let n = sqrt_floor(norm_sq(d.0, d.1, d.2));
        if n > 0 {
            let k = b.target_distance - n;
            Some((tdiv(d.0 * k, 2 * n), tdiv(d.1 * k, 2 * n), tdiv(d.2 * k, 2 * n)))
        } else {
            None
        }
    } else {
        None
    }
}

/// The sum of the pulls of `bonds` on particle `id`.
pub open spec fn total_pull(bonds: Seq<Bond>, g: Map<u64, Molecule>, id: u64) -> (int, int, int)
    decreases bonds.len(),
{
    if bonds.len() == 0 {
        (0, 0, 0)
    } else {
        let prev = total_pull(bonds.drop_last(), g, id);
        let b = bonds.last();
        match bond_pull(g, b) {
            Some(c) => {
                let with_a = if b.molecule_a_id == id {
                    (prev.0 + c.0, prev.1 + c.1, prev.2 + c.2)
                } else {
                    prev
                };
                if b.molecule_b_id == id {
                    (with_a.0 - c.0, with_a.1 - c.1, with_a.2 - c.2)
                } else {
                    with_a
                }
            },
            None => prev,
        }
    }
}

/// Some bond of `bonds` with both ends present and a non-zero length has `id` as an end.
pub open spec fn pulled(bonds: Seq<Bond>, g: Map<u64, Molecule>, id: u64) -> bool
    decreases bonds.len(),
{
    if bonds.len() == 0 {
        false
    } else {
        let b = bonds.last();
        pulled(bonds.drop_last(), g, id) || (bond_pull(g, b).is_some() && (b.molecule_a_id == id
            || b.molecule_b_id == id))
    }
}

/// The velocity of `m` after the bonds have pulled it: the summed pull
/// divided by its mass is added, and its speed limited to `BOND_SPEED_CAP`.
pub open spec fn bond_velocity(bonds: Seq<Bond>, g: Map<u64, Molecule>, m: Molecule) -> Vec3 {
    let p = total_pull(bonds, g, m.id);
    let mass = mass_of(m.mol_type) as int;
    kicked(m.velocity, (tdiv(p.0, mass), tdiv(p.1, mass), tdiv(p.2, mass)), BOND_SPEED_CAP as int)
}

/// See `bond_pull`; the components lie within `2^52`.
pub(crate) fn bond_pull_exec(a: Vec3, b: Vec3, rest: i64) -> (r: Option<(i128, i128, i128)>)
    requires
        within_bound(a, POS_BOUND),
        within_bound(b, POS_BOUND),
        0 <= rest < BOND_REACH,
    ensures
        match r {
            Some(c) => {
                let d = diff(b, a);
                let n = sqrt_floor(norm_sq(d.0, d.1, d.2));
                &&& n > 0
                &&& c.0 == tdiv(d.0 * (rest - n), 2 * n)
                &&& c.1 == tdiv(d.1 * (rest - n), 2 * n)
                &&& c.2 == tdiv(d.2 * (rest - n), 2 * n)
                &&& -0x10_0000_0000_0000 <= c.0 <= 0x10_0000_0000_0000
                &&& -0x10_0000_0000_0000 <= c.1 <= 0x10_0000_0000_0000
                &&& -0x10_0000_0000_0000 <= c.2 <= 0x10_0000_0000_0000
            },
            None => {
                let d = diff(b, a);
                sqrt_floor(norm_sq(d.0, d.1, d.2)) == 0
            },
        },
{
    let d2 = dist_sq_exec(b, a);
    let n = isqrt(d2);
    if n == 0 {
        return None;
    }
    let dx = (b.x as i128) - (a.x as i128);
    let dy = (b.y as i128) - (a.y as i128);
    let dz = (b.z as i128) - (a.z as i128);
    assert(n * n <= d2 < 0x100_0000_0000_0000_0000_0000_0000);
    assert(n <= 0x10_0000_0000_0000) by (nonlinear_arith)
        requires
            n * n < 0x100_0000_0000_0000_0000_0000_0000,
            n >= 0,
    ;
    assert(dx * dx >= 0 && dy * dy >= 0 && dz * dz >= 0) by (nonlinear_arith);
    let k = (rest as i128) - (n as i128);
    let c0 = pull_component(dx, k, n, d2);
    let c1 = pull_component(dy, k, n, d2);
    let c2 = pull_component(dz, k, n, d2);
    Some((c0, c1, c2))
}

/// `tdiv(d * k, 2 n)` for a component `d` of a vector of squared length `d2`
/// whose rounded-down length is `n`.
pub(crate) fn pull_component(d: i128, k: i128, n: u64, d2: u128) -> (r: i128)
    requires
        n > 0,
        is_sqrt_floor(d2 as int, n as int),
        d * d <= d2,
        n <= 0x10_0000_0000_0000,
        -0x10_0000_0000_0000 <= k <= 0x10_0000_0000_0000,
    ensures
        r == tdiv(d * k, 2 * n),
        -0x10_0000_0000_0000 <= r <= 0x10_0000_0000_0000,
{
    proof {
        lemma_component_within_root(d as int, d2 as int, n as int);
    }
    assert(-(n * 0x10_0000_0000_0000) <= d * k <= n * 0x10_0000_0000_0000) by (nonlinear_arith)
        requires
            -(n as int) <= d <= n,
            -0x10_0000_0000_0000 <= k <= 0x10_0000_0000_0000,
            n > 0,
    ;
    assert(n * 0x10_0000_0000_0000 <= 0x100_0000_0000_0000_0000_0000_0000) by (nonlinear_arith)
        requires
            0 < n <= 0x10_0000_0000_0000,
    ;
    let q = div_trunc(d * k, 2 * (n as i128));
    assert(-0x10_0000_0000_0000 <= q <= 0x10_0000_0000_0000) by (nonlinear_arith)
        requires
            q == tdiv(d * k, 2 * n),
            -(n * 0x10_0000_0000_0000) <= d * k <= n * 0x10_0000_0000_0000,
            n > 0,
    ;
    q
}

/// In a domain at least two of the largest radii wide on each axis, a step
/// leaves every particle within `[radius, side - radius]` on each axis.
pub proof fn lemma_step_contained(m: Molecule, dt: int, w: int, h: int, d: int)
    requires
        2 * MAX_RADIUS <= w,
        2 * MAX_RADIUS <= h,
        2 * MAX_RADIUS <= d,
        w <= MAX_DIM,
        h <= MAX_DIM,
        d <= MAX_DIM,
    ensures
        ({
            let r = radius_of(m.mol_type) as int;
            let p = step_molecule(m, dt, w, h, d).pos;
            &&& r <= p.x <= w - r
            &&& r <= p.y <= h - r
            &&& r <= p.z <= d - r
        }),
{
    lemma_radius_bounds(m.mol_type);
    let r = radius_of(m.mol_type) as int;
    lemma_boundary_containment(drift(m.pos.x as int, m.velocity.x as int, dt), m.velocity.x as int, r, w);
    lemma_boundary_containment(drift(m.pos.y as int, m.velocity.y as int, dt), m.velocity.y as int, r, h);
    lemma_boundary_containment(drift(m.pos.z as int, m.velocity.z as int, dt), m.velocity.z as int, r, d);
}

} // verus!
