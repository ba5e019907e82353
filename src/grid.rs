//! The spatial index: it owns every live particle, assigns ids, and buckets
//! particles into cubic cells for neighbourhood queries.

use vstd::prelude::*;
use std::collections::HashMap;
use crate::fixed::Vec3;
use crate::molecule::{Molecule, MoleculeType};

verus! {

broadcast use vstd::std_specs::hash::group_hash_axioms;

/// The smallest accepted cell size: with it every cell coordinate of the
/// 64-bit position range, and its neighbours, fit in 42 bits.
pub const MIN_CELL_SIZE: i64 = 0x80_0000;

/// Added to a cell coordinate so that it is non-negative before packing.
pub const CELL_OFFSET: i64 = 0x200_0000_0000;

/// Three 42-bit digits packed into one key.
pub open spec fn pack(a: u128, b: u128, c: u128) -> u128 {
    (a << 84u128) | (b << 42u128) | c
}

/// The cell coordinate of one position component: `floor(c / cell_size)`.
pub open spec fn cell_coord(c: i64, cell_size: i64) -> int {
    c as int / cell_size as int
}

/// The cell that holds position `p`.
pub open spec fn cell_of(p: Vec3, cell_size: i64) -> (int, int, int) {
    (cell_coord(p.x, cell_size), cell_coord(p.y, cell_size), cell_coord(p.z, cell_size))
}

/// The key under which cell `c` is stored.
pub open spec fn cell_key(c: (int, int, int)) -> u128 {
    pack(
        (c.0 + CELL_OFFSET) as u128,
        (c.1 + CELL_OFFSET) as u128,
        (c.2 + CELL_OFFSET) as u128,
    )
}

/// Cells `a` and `b` are equal or touch by a face, an edge or a corner.
pub open spec fn adjacent(a: (int, int, int), b: (int, int, int)) -> bool {
    -1 <= a.0 - b.0 <= 1 && -1 <= a.1 - b.1 <= 1 && -1 <= a.2 - b.2 <= 1
}

/// The position of cell `c` in the 27 cells around `center`, counted in
/// lexicographic order of the offsets.
pub open spec fn offset_index(c: (int, int, int), center: (int, int, int)) -> int {
    (c.0 - center.0 + 1) * 9 + (c.1 - center.1 + 1) * 3 + (c.2 - center.2 + 1)
}

/// A cell coordinate that the keys can hold.
pub open spec fn coord_in_range(c: int) -> bool {
    -CELL_OFFSET <= c < CELL_OFFSET
}

pub open spec fn cell_in_range(c: (int, int, int)) -> bool {
    coord_in_range(c.0) && coord_in_range(c.1) && coord_in_range(c.2)
}

proof fn lemma_pack_injective(a1: u128, b1: u128, c1: u128, a2: u128, b2: u128, c2: u128)
    requires
        a1 < 0x400_0000_0000,
        b1 < 0x400_0000_0000,
        c1 < 0x400_0000_0000,
        a2 < 0x400_0000_0000,
        b2 < 0x400_0000_0000,
        c2 < 0x400_0000_0000,
        (a1 << 84u128) | (b1 << 42u128) | c1 == (a2 << 84u128) | (b2 << 42u128) | c2,
    ensures
        a1 == a2 && b1 == b2 && c1 == c2,
{
    assert(a1 == a2 && b1 == b2 && c1 == c2) by (bit_vector)
        requires
            a1 < 0x400_0000_0000,
            b1 < 0x400_0000_0000,
            c1 < 0x400_0000_0000,
            a2 < 0x400_0000_0000,
            b2 < 0x400_0000_0000,
            c2 < 0x400_0000_0000,
            (a1 << 84u128) | (b1 << 42u128) | c1 == (a2 << 84u128) | (b2 << 42u128) | c2,
    ;
}

/// Distinct cells have distinct keys.
pub proof fn lemma_cell_key_injective(c: (int, int, int), d: (int, int, int))
    requires
        cell_in_range(c),
        cell_in_range(d),
        cell_key(c) == cell_key(d),
    ensures
        c == d,
{
    lemma_pack_injective(
        (c.0 + CELL_OFFSET) as u128,
        (c.1 + CELL_OFFSET) as u128,
        (c.2 + CELL_OFFSET) as u128,
        (d.0 + CELL_OFFSET) as u128,
        (d.1 + CELL_OFFSET) as u128,
        (d.2 + CELL_OFFSET) as u128,
    );
}

/// With a cell size of at least `MIN_CELL_SIZE`, a cell coordinate lies well inside the key range.
proof fn lemma_cell_coord_bounds(c: i64, cell_size: i64)
    requires
        cell_size >= MIN_CELL_SIZE,
    ensures
        -0x100_0000_0000 <= cell_coord(c, cell_size) < 0x100_0000_0000,
{
    let q = c as int / cell_size as int;
    vstd::arithmetic::div_mod::lemma_fundamental_div_mod(c as int, cell_size as int);
    let r = c as int % cell_size as int;
    assert(0 <= r < cell_size);
    assert(c == cell_size * q + r);
    if q >= 0x100_0000_0000 {
        assert(cell_size * q >= MIN_CELL_SIZE * 0x100_0000_0000) by (nonlinear_arith)
            requires
                cell_size >= MIN_CELL_SIZE,
                q >= 0x100_0000_0000,
        ;
    }
    if q < -0x100_0000_0000 {
        assert(cell_size * q <= -cell_size * 0x100_0000_0000 - cell_size) by (nonlinear_arith)
            requires
                cell_size >= MIN_CELL_SIZE,
                q <= -0x100_0000_0000 - 1,
        ;
        assert(cell_size * 0x100_0000_0000 >= MIN_CELL_SIZE * 0x100_0000_0000) by (nonlinear_arith)
            requires
                cell_size >= MIN_CELL_SIZE,
        ;
    }
}

/// Two coordinates closer than one cell size lie in the same or adjacent cells.
pub proof fn lemma_close_coords_adjacent(a: i64, b: i64, cell_size: i64)
    requires
        cell_size > 0,
        -cell_size < a - b < cell_size,
    ensures
        -1 <= cell_coord(a, cell_size) - cell_coord(b, cell_size) <= 1,
{
    let cs = cell_size as int;
    vstd::arithmetic::div_mod::lemma_fundamental_div_mod(a as int, cs);
    vstd::arithmetic::div_mod::lemma_fundamental_div_mod(b as int, cs);
    let qa = a as int / cs;
    let qb = b as int / cs;
    let ra = a as int % cs;
    let rb = b as int % cs;
    if qa - qb >= 2 {
        assert(cs * qa - cs * qb >= 2 * cs) by (nonlinear_arith)
            requires
                qa - qb >= 2,
                cs > 0,
        ;
    }
    if qb - qa >= 2 {
        assert(cs * qb - cs * qa >= 2 * cs) by (nonlinear_arith)
            requires
                qb - qa >= 2,
                cs > 0,
        ;
    }
}

/// `floor(a / b)` for a positive `b`.
fn floor_div(a: i64, b: i64) -> (r: i64)
    requires
        b > 0,
    ensures
        r as int == a as int / b as int,
{
    if a >= 0 {
        a / b
    } else {
        let n: i64 = -(a + 1);
        let q = n / b;
        proof {
            vstd::arithmetic::div_mod::lemma_fundamental_div_mod(n as int, b as int);
            let rem = n as int % b as int;
            assert(a == (-q - 1) * b + (b - rem - 1)) by (nonlinear_arith)
                requires
                    n == b * q + rem,
                    n == -(a + 1),
            ;
            vstd::arithmetic::div_mod::lemma_fundamental_div_mod_converse(
                a as int,
                b as int,
                -q - 1,
                b - rem - 1,
            );
        }
        -q - 1
    }
}

/// The key of the cell at offset `(dx, dy, dz)` from cell `(cx, cy, cz)`.
fn key_of_cell(cx: i64, cy: i64, cz: i64, dx: i64, dy: i64, dz: i64) -> (k: u128)
    requires
        -0x100_0000_0000 <= cx < 0x100_0000_0000,
        -0x100_0000_0000 <= cy < 0x100_0000_0000,
        -0x100_0000_0000 <= cz < 0x100_0000_0000,
        -1 <= dx <= 1,
        -1 <= dy <= 1,
        -1 <= dz <= 1,
    ensures
        k == cell_key((cx + dx, cy + dy, cz + dz)),
{
    let a = (cx + dx + CELL_OFFSET) as u128;
    let b = (cy + dy + CELL_OFFSET) as u128;
    let c = (cz + dz + CELL_OFFSET) as u128;
    (a << 84u128) | (b << 42u128) | c
}

/// The elements of `v` other than `x`, in their order.
fn without(v: &Vec<u64>, x: u64) -> (r: Vec<u64>)
    requires
        v@.no_duplicates(),
    ensures
        r@.no_duplicates(),
        forall|y: u64| #[trigger] r@.contains(y) <==> (v@.contains(y) && y != x),
{
    let mut r: Vec<u64> = Vec::new();
    let mut i: usize = 0;
    while i < v.len()
        invariant
            0 <= i <= v@.len(),
            v@.no_duplicates(),
            r@.no_duplicates(),
            forall|y: u64| #[trigger]
                r@.contains(y) <==> (exists|j: int| 0 <= j < i && v@[j] == y) && y != x,
        decreases v@.len() - i,
    {
        let y = v[i];
        if y != x {
            assert(!r@.contains(y)) by {
                if r@.contains(y) {
                    let j = choose|j: int| 0 <= j < i && v@[j] == y;
                    assert(v@[j] == v@[i as int]);
                }
            }
            let ghost r0 = r@;
            r.push(y);
            assert(r@ == r0.push(y));
            assert forall|z: u64| #[trigger]
                r@.contains(z) <==> (exists|j: int| 0 <= j < i + 1 && v@[j] == z) && z != x by {
                if r@.contains(z) {
                    let t = choose|t: int| 0 <= t < r@.len() && r@[t] == z;
                    if t < r0.len() {
                        assert(r0[t] == z);
                        assert(r0.contains(z));
                    } else {
                        assert(v@[i as int] == z);
                    }
                }
                if (exists|j: int| 0 <= j < i + 1 && v@[j] == z) && z != x {
                    let j = choose|j: int| 0 <= j < i + 1 && v@[j] == z;
                    if j < i {
                        assert(r0.contains(z));
                        let t = choose|t: int| 0 <= t < r0.len() && r0[t] == z;
                        assert(r@[t] == z);
                    } else {
                        assert(r@[r0.len() as int] == z);
                    }
                }
            }
        } else {
            assert forall|z: u64| #[trigger]
                r@.contains(z) <==> (exists|j: int| 0 <= j < i + 1 && v@[j] == z) && z != x by {
                if (exists|j: int| 0 <= j < i + 1 && v@[j] == z) && z != x {
                    let j = choose|j: int| 0 <= j < i + 1 && v@[j] == z;
                    assert(j < i);
                }
            }
        }
        i = i + 1;
    }
    assert forall|y: u64| #[trigger] r@.contains(y) <==> (v@.contains(y) && y != x) by {
        if v@.contains(y) {
            let j = choose|j: int| 0 <= j < v@.len() && v@[j] == y;
            assert(0 <= j < i && v@[j] == y);
        }
    }
    r
}

/// Owns every live particle, keyed by id, and buckets the ids by cell.
pub struct SpatialGrid3D {
    cell_size: i64,
    cells: HashMap<u128, Vec<u64>>,
    molecules: HashMap<u64, Molecule>,
    order: Vec<u64>,
    next_id: u64,
}

impl View for SpatialGrid3D {
    type V = Map<u64, Molecule>;

    /// The live particles, by id.
    closed spec fn view(&self) -> Map<u64, Molecule> {
        self.molecules@
    }
}

/// Every live particle is found by the neighbourhood query at its own position.
pub proof fn lemma_self_in_neighborhood(g: &SpatialGrid3D, id: u64)
    requires
        g.wf(),
        g@.contains_key(id),
    ensures
        g.neighborhood(g@[id].pos).contains(id),
{
}

impl SpatialGrid3D {
    /// The id that the next insertion receives.
    pub closed spec fn next_id_spec(&self) -> u64 {
        self.next_id
    }

    pub closed spec fn cell_size_spec(&self) -> i64 {
        self.cell_size
    }

    /// The ids of the live particles, in the order in which they are listed.
    pub closed spec fn order(&self) -> Seq<u64> {
        self.order@
    }

    /// The cell of a position in this grid.
    pub open spec fn cell(&self, p: Vec3) -> (int, int, int) {
        cell_of(p, self.cell_size_spec())
    }

    /// The ids of the particles whose cell is `c` or touches it.
    pub open spec fn neighborhood(&self, p: Vec3) -> Set<u64> {
        Set::new(|id: u64| self@.contains_key(id) && adjacent(self.cell(self@[id].pos), self.cell(p)))
    }

    /// The particle `id` is live and its cell has key `k`.
    pub open spec fn filed_under(&self, id: u64, k: u128) -> bool {
        self@.contains_key(id) && cell_key(self.cell(self@[id].pos)) == k
    }

    /// The particle `id` is live, its cell touches `center`, and comes before
    /// position `bound` in the lexicographic order of the 27 cells.
    pub open spec fn covered(&self, id: u64, center: (int, int, int), bound: int) -> bool {
        &&& self@.contains_key(id)
        &&& adjacent(self.cell(self@[id].pos), center)
        &&& offset_index(self.cell(self@[id].pos), center) < bound
    }

    /// The cell index is consistent: every live particle is listed once, in
    /// the cell of its current position and in no other; ids are below `next_id`.
    pub closed spec fn wf(&self) -> bool {
        &&& self.cell_size >= MIN_CELL_SIZE
        &&& self.next_id >= 1
        &&& forall|id: u64| #[trigger]
            self.molecules@.contains_key(id) ==> self.molecules@[id].id == id && 1 <= id
                < self.next_id
        &&& self.order@.no_duplicates()
        &&& forall|id: u64| #[trigger]
            self.molecules@.contains_key(id) <==> self.order@.contains(id)
        &&& forall|id: u64| #[trigger]
            self.molecules@.contains_key(id) ==> {
                let k = cell_key(cell_of(self.molecules@[id].pos, self.cell_size));
                self.cells@.contains_key(k) && self.cells@[k]@.contains(id)
            }
        &&& forall|k: u128, j: int|
            #![trigger self.cells@[k]@[j]]
            self.cells@.contains_key(k) && 0 <= j < self.cells@[k]@.len() ==> {
                let id = self.cells@[k]@[j];
                self.molecules@.contains_key(id) && cell_key(
                    cell_of(self.molecules@[id].pos, self.cell_size),
                ) == k
            }
        &&& forall|k: u128| #[trigger]
            self.cells@.contains_key(k) ==> self.cells@[k]@.no_duplicates()
    }

    pub proof fn lemma_wf_facts(&self)
        requires
            self.wf(),
        ensures
            self.cell_size_spec() >= MIN_CELL_SIZE,
            self.next_id_spec() >= 1,
            forall|id: u64| #[trigger]
                self@.contains_key(id) ==> self@[id].id == id && 1 <= id < self.next_id_spec(),
            self.order().no_duplicates(),
            forall|id: u64| #[trigger] self@.contains_key(id) <==> self.order().contains(id),
    {
    }

    /// An empty grid with cells of `cell_size` micro-units; the domain size is not used.
    pub fn new(_width: i64, _height: i64, _depth: i64, cell_size: i64) -> (g: Self)
        requires
            cell_size >= MIN_CELL_SIZE,
        ensures
            g.wf(),
            g@ == Map::<u64, Molecule>::empty(),
            g.order() == Seq::<u64>::empty(),
            g.next_id_spec() == 1,
            g.cell_size_spec() == cell_size,
    {
        SpatialGrid3D {
            cell_size,
            cells: HashMap::new(),
            molecules: HashMap::new(),
            order: Vec::new(),
            next_id: 1,
        }
    }

    /// The cell of a position, each coordinate `floor(c / cell_size)`.
    pub fn get_cell_coords(&self, pos: Vec3) -> (r: (i64, i64, i64))
        requires
            self.wf(),
        ensures
            (r.0 as int, r.1 as int, r.2 as int) == self.cell(pos),
            -0x100_0000_0000 <= r.0 < 0x100_0000_0000,
            -0x100_0000_0000 <= r.1 < 0x100_0000_0000,
            -0x100_0000_0000 <= r.2 < 0x100_0000_0000,
    {
        proof {
            lemma_cell_coord_bounds(pos.x, self.cell_size);
            lemma_cell_coord_bounds(pos.y, self.cell_size);
            lemma_cell_coord_bounds(pos.z, self.cell_size);
        }
        (
            floor_div(pos.x, self.cell_size),
            floor_div(pos.y, self.cell_size),
            floor_div(pos.z, self.cell_size),
        )
    }

    fn key_of_pos(&self, pos: Vec3) -> (k: u128)
        requires
            self.wf(),
        ensures
            k == cell_key(self.cell(pos)),
            cell_in_range(self.cell(pos)),
    {
        let c = self.get_cell_coords(pos);
        key_of_cell(c.0, c.1, c.2, 0, 0, 0)
    }

    /// Stores `molecule` under the next id, files it in the cell of its
    /// position, and returns the id. Ids start at 1 and are never reused.
    pub fn insert(&mut self, molecule: Molecule) -> (id: u64)
        requires
            old(self).wf(),
            old(self).next_id_spec() < u64::MAX,
        ensures
            final(self).wf(),
            id == old(self).next_id_spec(),
            !old(self)@.contains_key(id),
            final(self).next_id_spec() == id + 1,
            final(self)@ == old(self)@.insert(id, Molecule { id, ..molecule }),
            final(self).order() == old(self).order().push(id),
            final(self).cell_size_spec() == old(self).cell_size_spec(),
    {
        let id = self.next_id;
        self.next_id = self.next_id + 1;
        let m = Molecule { id, ..molecule };
        let k = self.key_of_pos(m.pos);
        let ghost cells0 = self.cells@;
        let ghost mols0 = self.molecules@;
        assert(!mols0.contains_key(id));
        self.molecules.insert(id, m);
        self.order.push(id);
        let opt = self.cells.remove(&k);
        let mut v = match opt {
            Some(v) => v,
            None => Vec::new(),
        };
        let ghost v0 = v@;
        assert(!v0.contains(id)) by {
            if v0.contains(id) {
                let j = choose|j: int| 0 <= j < v0.len() && v0[j] == id;
                assert(cells0[k]@[j] == id);
            }
        }
        v.push(id);
        self.cells.insert(k, v);
        assert forall|i: u64| #[trigger]
            self.molecules@.contains_key(i) <==> self.order@.contains(i) by {
            if self.order@.contains(i) && i != id {
                let j = choose|j: int| 0 <= j < self.order@.len() && self.order@[j] == i;
                assert(old(self).order@[j] == i);
            }
            if i == id {
                assert(self.order@[self.order@.len() - 1] == id);
            }
            if old(self).order@.contains(i) {
                let j = choose|j: int| 0 <= j < old(self).order@.len() && old(self).order@[j] == i;
                assert(self.order@[j] == i);
            }
        }
        assert forall|i: u64| #[trigger]
            self.molecules@.contains_key(i) implies {
                let k2 = cell_key(cell_of(self.molecules@[i].pos, self.cell_size));
                self.cells@.contains_key(k2) && self.cells@[k2]@.contains(i)
            } by {
            let k2 = cell_key(cell_of(self.molecules@[i].pos, self.cell_size));
            if i == id {
                assert(self.cells@[k]@[v0.len() as int] == id);
            } else if k2 == k {
                let j = choose|j: int| 0 <= j < v0.len() && v0[j] == i;
                assert(self.cells@[k]@[j] == i);
            }
        }
        assert forall|k2: u128, j: int|
            self.cells@.contains_key(k2) && 0 <= j < self.cells@[k2]@.len() implies {
                let i = #[trigger] self.cells@[k2]@[j];
                self.molecules@.contains_key(i) && cell_key(
                    cell_of(self.molecules@[i].pos, self.cell_size),
                ) == k2
            } by {
            if k2 == k && j < v0.len() {
                assert(cells0[k]@[j] == self.cells@[k2]@[j]);
            } else if k2 != k {
                assert(cells0[k2]@[j] == self.cells@[k2]@[j]);
            }
        }
        assert forall|k2: u128| #[trigger]
            self.cells@.contains_key(k2) implies self.cells@[k2]@.no_duplicates() by {
            if k2 == k {
                assert forall|a: int, b: int|
                    0 <= a < b < self.cells@[k]@.len() implies self.cells@[k]@[a]
                    != self.cells@[k]@[b] by {
                    if b == v0.len() {
                        assert(v0.contains(self.cells@[k]@[a]));
                    }
                }
            }
        }
        assert(self.molecules@ =~= old(self)@.insert(id, Molecule { id, ..molecule }));
        id
    }

    /// Replaces the live particle `m.id` by `m`, which sits at the same position.
    fn replace_in_place(&mut self, m: Molecule)
        requires
            old(self).wf(),
            old(self)@.contains_key(m.id),
            old(self)@[m.id].pos == m.pos,
        ensures
            final(self).wf(),
            final(self)@ == old(self)@.insert(m.id, m),
            final(self).order() == old(self).order(),
            final(self).next_id_spec() == old(self).next_id_spec(),
            final(self).cell_size_spec() == old(self).cell_size_spec(),
    {
        self.molecules.insert(m.id, m);
        assert forall|i: u64| #[trigger]
            self.molecules@.contains_key(i) implies {
                let k2 = cell_key(cell_of(self.molecules@[i].pos, self.cell_size));
                self.cells@.contains_key(k2) && self.cells@[k2]@.contains(i)
            } by {
            assert(old(self).molecules@.contains_key(i));
        }
        assert forall|k2: u128, j: int|
            self.cells@.contains_key(k2) && 0 <= j < self.cells@[k2]@.len() implies {
                let i = #[trigger] self.cells@[k2]@[j];
                self.molecules@.contains_key(i) && cell_key(
                    cell_of(self.molecules@[i].pos, self.cell_size),
                ) == k2
            } by {
            assert(old(self).cells@[k2]@[j] == self.cells@[k2]@[j]);
        }
    }

    /// Sets the velocity of the particle `id`; nothing happens when it is absent.
    pub fn set_velocity(&mut self, id: u64, velocity: Vec3)
        requires
            old(self).wf(),
        ensures
            final(self).wf(),
            final(self)@ == if old(self)@.contains_key(id) {
                old(self)@.insert(id, Molecule { velocity, ..old(self)@[id] })
            } else {
                old(self)@
            },
            final(self).order() == old(self).order(),
            final(self).next_id_spec() == old(self).next_id_spec(),
            final(self).cell_size_spec() == old(self).cell_size_spec(),
    {
        match self.molecules.get(&id) {
            Some(m) => {
                let m2 = Molecule { velocity, ..*m };
                self.replace_in_place(m2);
            },
            None => {},
        }
    }

    /// Sets the category of the particle `id`; nothing happens when it is absent.
    pub fn set_mol_type(&mut self, id: u64, mol_type: MoleculeType)
        requires
            old(self).wf(),
        ensures
            final(self).wf(),
            final(self)@ == if old(self)@.contains_key(id) {
                old(self)@.insert(id, Molecule { mol_type, ..old(self)@[id] })
            } else {
                old(self)@
            },
            final(self).order() == old(self).order(),
            final(self).next_id_spec() == old(self).next_id_spec(),
            final(self).cell_size_spec() == old(self).cell_size_spec(),
    {
        match self.molecules.get(&id) {
            Some(m) => {
                let m2 = Molecule { mol_type, ..*m };
                self.replace_in_place(m2);
            },
            None => {},
        }
    }

    /// Deletes the particle `id` and its cell entry; nothing happens when it is absent.
    pub fn remove(&mut self, id: u64)
        requires
            old(self).wf(),
        ensures
            final(self).wf(),
            final(self)@ == old(self)@.remove(id),
            forall|i: u64| #[trigger]
                final(self).order().contains(i) <==> (old(self).order().contains(i) && i != id),
            final(self).next_id_spec() == old(self).next_id_spec(),
            final(self).cell_size_spec() == old(self).cell_size_spec(),
    {
        let found = match self.molecules.get(&id) {
            Some(m) => Some(m.pos),
            None => None,
        };
        match found {
            Some(pos) => {
                let k = self.key_of_pos(pos);
                let _ = self.molecules.remove(&id);
                let ghost cells0 = self.cells@;
                assert(cells0.contains_key(k) && cells0[k]@.contains(id));
                let new_order = without(&self.order, id);
                self.order = new_order;
                let opt = self.cells.remove(&k);
                match opt {
                    Some(v) => {
                        let w = without(&v, id);
                        self.cells.insert(k, w);
                    },
                    None => {
                        assert(false);
                    },
                }
                assert forall|i: u64| #[trigger]
                    self.molecules@.contains_key(i) implies {
                        let k2 = cell_key(cell_of(self.molecules@[i].pos, self.cell_size));
                        self.cells@.contains_key(k2) && self.cells@[k2]@.contains(i)
                    } by {
                    assert(old(self).molecules@.contains_key(i));
                }
                assert forall|k2: u128, j: int|
                    self.cells@.contains_key(k2) && 0 <= j < self.cells@[k2]@.len() implies {
                        let i = #[trigger] self.cells@[k2]@[j];
                        self.molecules@.contains_key(i) && cell_key(
                            cell_of(self.molecules@[i].pos, self.cell_size),
                        ) == k2
                    } by {
                    let i = self.cells@[k2]@[j];
                    if k2 == k {
                        assert(self.cells@[k2]@.contains(i));
                        assert(cells0[k]@.contains(i));
                        let t = choose|t: int| 0 <= t < cells0[k]@.len() && cells0[k]@[t] == i;
                        assert(cells0[k]@[t] == i);
                    } else {
                        assert(cells0[k2]@[j] == i);
                    }
                }
            },
            None => {},
        }
    }

    /// Moves the particle `id` to `new_pos`, taking it out of its old cell
    /// and filing it in the cell of `new_pos`; nothing happens when it is absent.
    pub fn update_molecule_pos(&mut self, id: u64, new_pos: Vec3)
        requires
            old(self).wf(),
        ensures
            final(self).wf(),
            final(self)@ == if old(self)@.contains_key(id) {
                old(self)@.insert(id, Molecule { pos: new_pos, ..old(self)@[id] })
            } else {
                old(self)@
            },
            final(self).order() == old(self).order(),
            final(self).next_id_spec() == old(self).next_id_spec(),
            final(self).cell_size_spec() == old(self).cell_size_spec(),
    {
        let found = self.molecules.get(&id);
        let m = match found {
            Some(m) => *m,
            None => {
                return;
            },
        };
        let k_old = self.key_of_pos(m.pos);
        let k_new = self.key_of_pos(new_pos);
        let ghost cells0 = self.cells@;
        let ghost mols0 = self.molecules@;
        let m2 = Molecule { pos: new_pos, ..m };
        self.molecules.insert(id, m2);
        let opt = self.cells.remove(&k_old);
        match opt {
            Some(v) => {
                let w = without(&v, id);
                self.cells.insert(k_old, w);
            },
            None => {
                assert(false);
            },
        }
        let ghost cells1 = self.cells@;
        let opt2 = self.cells.remove(&k_new);
        let mut v2 = match opt2 {
            Some(v) => v,
            None => Vec::new(),
        };
        let ghost v0 = v2@;
        assert(!v0.contains(id)) by {
            if v0.contains(id) {
                let j = choose|j: int| 0 <= j < v0.len() && v0[j] == id;
                assert(cells1[k_new]@[j] == id);
                if k_new != k_old {
                    assert(cells0[k_new]@[j] == id);
                }
            }
        }
        v2.push(id);
        self.cells.insert(k_new, v2);
        assert forall|i: u64| #[trigger]
            self.molecules@.contains_key(i) implies {
                let k2 = cell_key(cell_of(self.molecules@[i].pos, self.cell_size));
                self.cells@.contains_key(k2) && self.cells@[k2]@.contains(i)
            } by {
            let k2 = cell_key(cell_of(self.molecules@[i].pos, self.cell_size));
            if i == id {
                assert(self.cells@[k_new]@[v0.len() as int] == id);
            } else {
                assert(mols0.contains_key(i));
                assert(cells1[k2]@.contains(i));
                if k2 == k_new {
                    let j = choose|j: int| 0 <= j < v0.len() && v0[j] == i;
                    assert(self.cells@[k_new]@[j] == i);
                }
            }
        }
        assert forall|k2: u128, j: int|
            self.cells@.contains_key(k2) && 0 <= j < self.cells@[k2]@.len() implies {
                let i = #[trigger] self.cells@[k2]@[j];
                self.molecules@.contains_key(i) && cell_key(
                    cell_of(self.molecules@[i].pos, self.cell_size),
                ) == k2
            } by {
            let i = self.cells@[k2]@[j];
            if k2 == k_new && j == v0.len() {
            } else {
                assert(cells1.contains_key(k2));
                if k2 == k_new {
                    assert(cells1[k2]@[j] == i);
                }
                assert(cells1[k2]@.contains(i)) by {
                    if k2 != k_new {
                        assert(cells1[k2]@[j] == i);
                    }
                }
                if k2 == k_old {
                    assert(i != id);
                    assert(cells0[k2]@.contains(i));
                    let t = choose|t: int| 0 <= t < cells0[k2]@.len() && cells0[k2]@[t] == i;
                    assert(cells0[k2]@[t] == i);
                } else {
                    let t = choose|t: int| 0 <= t < cells1[k2]@.len() && cells1[k2]@[t] == i;
                    assert(cells0[k2]@[t] == i);
                    assert(i != id) by {
                        if i == id {
                            assert(cell_key(cell_of(mols0[id].pos, self.cell_size)) == k2);
                        }
                    }
                }
            }
        }
        assert forall|k2: u128| #[trigger]
            self.cells@.contains_key(k2) implies self.cells@[k2]@.no_duplicates() by {
            if k2 == k_new {
                assert forall|a: int, b: int|
                    0 <= a < b < self.cells@[k_new]@.len() implies self.cells@[k_new]@[a]
                    != self.cells@[k_new]@[b] by {
                    if b == v0.len() {
                        assert(v0.contains(self.cells@[k_new]@[a]));
                    }
                }
            }
        }
    }

    /// Appends to `out` the particles filed under key `k`.
    fn collect_cell(&self, k: u128, out: &mut Vec<Molecule>)
        requires
            self.wf(),
        ensures
            forall|i: int| 0 <= i < old(out)@.len() ==> #[trigger] final(out)@[i] == old(out)@[i],
            final(out)@.len() >= old(out)@.len(),
            forall|i: int|
                old(out)@.len() <= i < final(out)@.len() ==> {
                    let m = #[trigger] final(out)@[i];
                    &&& self@.contains_key(m.id)
                    &&& self@[m.id] == m
                    &&& cell_key(self.cell(m.pos)) == k
                },
            forall|id: u64| #[trigger]
                self.filed_under(id, k) ==> exists|i: int|
                    old(out)@.len() <= i < final(out)@.len() && #[trigger] final(out)@[i].id == id,
            forall|i: int, j: int|
                old(out)@.len() <= i < j < final(out)@.len() ==> #[trigger] final(out)@[i].id
                    != #[trigger] final(out)@[j].id,
    {
        let ghost start = out@.len();
        match self.cells.get(&k) {
            Some(ids) => {
                let mut j: usize = 0;
                while j < ids.len()
                    invariant
                        self.wf(),
                        self.cells@.contains_key(k),
                        *ids == self.cells@[k],
                        0 <= j <= ids@.len(),
                        out@.len() == start + j,
                        forall|i: int| 0 <= i < start ==> #[trigger] out@[i] == old(out)@[i],
                        forall|i: int|
                            start <= i < out@.len() ==> #[trigger] out@[i] == self@[ids@[i - start]]
                                && out@[i].id == ids@[i - start],
                    decreases ids@.len() - j,
                {
                    let id = ids[j];
                    assert(self.cells@[k]@[j as int] == id);
                    match self.molecules.get(&id) {
                        Some(m) => {
                            out.push(*m);
                        },
                        None => {
                            assert(false);
                        },
                    }
                    j = j + 1;
                }
                assert forall|i: int| start <= i < out@.len() implies {
                    let m = #[trigger] out@[i];
                    &&& self@.contains_key(m.id)
                    &&& self@[m.id] == m
                    &&& cell_key(self.cell(m.pos)) == k
                } by {
                    assert(self.cells@[k]@[i - start] == ids@[i - start]);
                }
                assert forall|i: int, j: int|
                    start <= i < j < out@.len() implies #[trigger] out@[i].id
                        != #[trigger] out@[j].id by {
                    assert(self.cells@[k]@.no_duplicates());
                }
                assert forall|id: u64| #[trigger]
                    self.filed_under(id, k) implies exists|i: int|
                        start <= i < out@.len() && #[trigger] out@[i].id == id by {
                    assert(self.cells@[k]@.contains(id));
                    let t = choose|t: int| 0 <= t < ids@.len() && ids@[t] == id;
                    assert(out@[start + t].id == id);
                }
            },
            None => {
                assert forall|id: u64| #[trigger] self.filed_under(id, k) implies false by {
                    assert(self.molecules@.contains_key(id));
                }
            },
        }
    }

    /// `r` holds only live particles of the block around `center`, and every
    /// live particle of its first `n` cells (in the order of `offset_index`).
    pub open spec fn block_progress(&self, r: Seq<Molecule>, center: (int, int, int), n: int) -> bool {
        &&& forall|i: int|
            0 <= i < r.len() ==> {
                let m = #[trigger] r[i];
                &&& self@.contains_key(m.id)
                &&& self@[m.id] == m
                &&& adjacent(self.cell(m.pos), center)
                &&& offset_index(self.cell(m.pos), center) < n
            }
        &&& forall|id: u64| #[trigger]
            self.covered(id, center, n) ==> exists|i: int| 0 <= i < r.len() && #[trigger] r[i].id == id
        &&& forall|i: int, j: int| 0 <= i < j < r.len() ==> #[trigger] r[i].id != #[trigger] r[j].id
    }

    proof fn lemma_progress_same(&self, r: Seq<Molecule>, center: (int, int, int), n1: int, n2: int)
        requires
            self.block_progress(r, center, n1),
            n2 == n1,
        ensures
            self.block_progress(r, center, n2),
    {
        assert forall|id: u64| #[trigger] self.covered(id, center, n2) implies exists|i: int|
            0 <= i < r.len() && #[trigger] r[i].id == id by {
            assert(self.covered(id, center, n1));
        }
    }

    /// Every particle filed in the 3x3x3 block of cells centred on the cell
    /// of `pos`: a superset of those near `pos`, which callers filter by distance.
    pub fn get_neighbors(&self, pos: Vec3) -> (r: Vec<Molecule>)
        requires
            self.wf(),
        ensures
            forall|i: int|
                0 <= i < r@.len() ==> {
                    let m = #[trigger] r@[i];
                    &&& self@.contains_key(m.id)
                    &&& self@[m.id] == m
                    &&& adjacent(self.cell(m.pos), self.cell(pos))
                },
            forall|id: u64| #[trigger]
                self.neighborhood(pos).contains(id) ==> exists|i: int|
                    0 <= i < r@.len() && #[trigger] r@[i].id == id,
            forall|i: int, j: int|
                0 <= i < j < r@.len() ==> #[trigger] r@[i].id != #[trigger] r@[j].id,
    {
        let c = self.get_cell_coords(pos);
        let ghost center = self.cell(pos);
        let mut r: Vec<Molecule> = Vec::new();
        let mut dx: i64 = -1;
        while dx <= 1
            invariant
                self.wf(),
                -1 <= dx <= 2,
                (c.0 as int, c.1 as int, c.2 as int) == center,
                center == self.cell(pos),
                -0x100_0000_0000 <= c.0 < 0x100_0000_0000,
                -0x100_0000_0000 <= c.1 < 0x100_0000_0000,
                -0x100_0000_0000 <= c.2 < 0x100_0000_0000,
                self.block_progress(r@, center, (dx + 1) * 9),
            decreases 2 - dx,
        {
            let mut dy: i64 = -1;
            proof {
                self.lemma_progress_same(r@, center, (dx + 1) * 9, (dx + 1) * 9 + (dy + 1) * 3);
            }
            while dy <= 1
                invariant
                    self.wf(),
                    -1 <= dx <= 1,
                    -1 <= dy <= 2,
                    (c.0 as int, c.1 as int, c.2 as int) == center,
                    center == self.cell(pos),
                    -0x100_0000_0000 <= c.0 < 0x100_0000_0000,
                    -0x100_0000_0000 <= c.1 < 0x100_0000_0000,
                    -0x100_0000_0000 <= c.2 < 0x100_0000_0000,
                    self.block_progress(r@, center, (dx + 1) * 9 + (dy + 1) * 3),
                decreases 2 - dy,
            {
                let mut dz: i64 = -1;
                proof {
                    self.lemma_progress_same(
                        r@,
                        center,
                        (dx + 1) * 9 + (dy + 1) * 3,
                        (dx + 1) * 9 + (dy + 1) * 3 + (dz + 1),
                    );
                }
                while dz <= 1
                    invariant
                        self.wf(),
                        -1 <= dx <= 1,
                        -1 <= dy <= 1,
                        -1 <= dz <= 2,
                        (c.0 as int, c.1 as int, c.2 as int) == center,
                        center == self.cell(pos),
                        -0x100_0000_0000 <= c.0 < 0x100_0000_0000,
                        -0x100_0000_0000 <= c.1 < 0x100_0000_0000,
                        -0x100_0000_0000 <= c.2 < 0x100_0000_0000,
                        self.block_progress(r@, center, (dx + 1) * 9 + (dy + 1) * 3 + (dz + 1)),
                    decreases 2 - dz,
                {
                    let k = key_of_cell(c.0, c.1, c.2, dx, dy, dz);
                    let ghost target = (c.0 + dx, c.1 + dy, c.2 + dz);
                    let ghost r0 = r@;
                    let ghost n0 = (dx + 1) * 9 + (dy + 1) * 3 + (dz + 1);
                    self.collect_cell(k, &mut r);
                    assert forall|i: int|
                        0 <= i < r@.len() implies {
                            let m = #[trigger] r@[i];
                            &&& self@.contains_key(m.id)
                            &&& self@[m.id] == m
                            &&& adjacent(self.cell(m.pos), center)
                            &&& offset_index(self.cell(m.pos), center) < n0 + 1
                        } by {
                        if i < r0.len() {
                            assert(r0[i] == r@[i]);
                        } else {
                            let m = r@[i];
                            lemma_cell_coord_bounds(m.pos.x, self.cell_size_spec());
                            lemma_cell_coord_bounds(m.pos.y, self.cell_size_spec());
                            lemma_cell_coord_bounds(m.pos.z, self.cell_size_spec());
                            lemma_cell_key_injective(self.cell(m.pos), target);
                        }
                    }
                    assert forall|id: u64| #[trigger] self.covered(id, center, n0 + 1) implies exists|
                        i: int,
                    | 0 <= i < r@.len() && #[trigger] r@[i].id == id by {
                        if self.covered(id, center, n0) {
                            let i = choose|i: int| 0 <= i < r0.len() && #[trigger] r0[i].id == id;
                            assert(r@[i].id == id);
                        } else {
                            assert(self.cell(self@[id].pos) == target);
                            assert(self.filed_under(id, k));
                        }
                    }
                    assert forall|i: int, j: int|
                        0 <= i < j < r@.len() implies #[trigger] r@[i].id != #[trigger] r@[j].id by {
                        if j < r0.len() {
                            assert(r0[i] == r@[i] && r0[j] == r@[j]);
                        } else if i < r0.len() {
                            assert(r0[i] == r@[i]);
                            let m = r@[j];
                            lemma_cell_coord_bounds(m.pos.x, self.cell_size_spec());
                            lemma_cell_coord_bounds(m.pos.y, self.cell_size_spec());
                            lemma_cell_coord_bounds(m.pos.z, self.cell_size_spec());
                            lemma_cell_key_injective(self.cell(m.pos), target);
                        }
                    }
                    assert(self.block_progress(r@, center, n0 + 1));
                    dz = dz + 1;
                    proof {
                        self.lemma_progress_same(
                            r@,
                            center,
                            n0 + 1,
                            (dx + 1) * 9 + (dy + 1) * 3 + (dz + 1),
                        );
                    }
                }
                proof {
                    self.lemma_progress_same(
                        r@,
                        center,
                        (dx + 1) * 9 + (dy + 1) * 3 + (dz + 1),
                        (dx + 1) * 9 + (dy + 2) * 3,
                    );
                }
                dy = dy + 1;
            }
            proof {
                self.lemma_progress_same(
                    r@,
                    center,
                    (dx + 1) * 9 + (dy + 1) * 3,
                    (dx + 2) * 9,
                );
            }
            dx = dx + 1;
        }
        assert forall|id: u64| #[trigger]
            self.neighborhood(pos).contains(id) implies exists|i: int|
                0 <= i < r@.len() && #[trigger] r@[i].id == id by {
            assert(self.covered(id, center, (dx + 1) * 9));
        }
        r
    }

    /// The particle with this id, if it is live.
    pub fn get_molecule(&self, id: u64) -> (r: Option<&Molecule>)
        requires
            self.wf(),
        ensures
            match r {
                Some(m) => self@.contains_key(id) && *m == self@[id],
                None => !self@.contains_key(id),
            },
    {
        self.molecules.get(&id)
    }

    /// Every live particle, once each, in the order of `order()`.
    pub fn get_all_molecules(&self) -> (r: Vec<Molecule>)
        requires
            self.wf(),
        ensures
            r@.len() == self.order().len(),
            forall|i: int| 0 <= i < r@.len() ==> #[trigger] r@[i] == self@[self.order()[i]],
            forall|i: int| 0 <= i < r@.len() ==> #[trigger] r@[i].id == self.order()[i],
    {
        let mut r: Vec<Molecule> = Vec::new();
        let mut i: usize = 0;
        while i < self.order.len()
            invariant
                self.wf(),
                0 <= i <= self.order@.len(),
                r@.len() == i,
                forall|t: int| 0 <= t < i ==> #[trigger] r@[t] == self@[self.order@[t]],
                forall|t: int| 0 <= t < i ==> #[trigger] r@[t].id == self.order@[t],
            decreases self.order@.len() - i,
        {
            let id = self.order[i];
            assert(self.order@.contains(id));
            match self.molecules.get(&id) {
                Some(m) => {
                    r.push(*m);
                },
                None => {
                    assert(false);
                },
            }
            i = i + 1;
        }
        r
    }

    /// The id that the next insertion receives.
    pub fn next_id(&self) -> (r: u64)
        ensures
            r == self.next_id_spec(),
    {
        self.next_id
    }

    /// Whether another particle can be inserted: ids are never reused, so they can run out.
    pub fn has_free_id(&self) -> (r: bool)
        ensures
            r == (self.next_id_spec() < u64::MAX),
    {
        self.next_id < u64::MAX
    }
}

} // verus!
