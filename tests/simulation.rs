use pain_core::fixed::{isqrt, limit_speed, UNIT};
use pain_core::grid::MIN_CELL_SIZE;
use pain_core::chemistry::{bond_forms, co2_emitted};
use pain_core::physics::{resolve_axis, within_radius_exec, FORCE_SPEED_CAP};
use pain_core::sim::CELL_SIZE;
use pain_core::{Molecule, MoleculeType, SimulationState, SpatialGrid3D, Vec3};

const W: i64 = 1000 * UNIT;
const H: i64 = 720 * UNIT;
const D: i64 = 1000 * UNIT;

fn v(x: i64, y: i64, z: i64) -> Vec3 {
    Vec3 { x, y, z }
}

fn classic() -> SimulationState {
    let mut s = SimulationState::new(W, H, D);
    s.initialize_classic_recipe();
    s
}

fn count(s: &SimulationState, t: MoleculeType) -> usize {
    s.get_molecules_by_type(&t).len()
}

fn total(s: &SimulationState) -> usize {
    s.grid().get_all_molecules().len()
}

fn speed_sq(m: &Molecule) -> i128 {
    let x = m.velocity.x as i128;
    let y = m.velocity.y as i128;
    let z = m.velocity.z as i128;
    x * x + y * y + z * z
}

#[test]
fn classic_recipe_bootstrap() {
    let s = classic();
    let gliadin = count(&s, MoleculeType::Gliadin);
    let glutenin = count(&s, MoleculeType::Glutenin { has_free_thiol: true });
    assert_eq!(gliadin + glutenin, 200);
    assert!(gliadin >= 45 && gliadin <= 115, "gliadin count {}", gliadin);
    assert_eq!(count(&s, MoleculeType::Water), 200);
    assert_eq!(total(&s), 400);
    assert_eq!(s.bonds().len(), 0);
    assert_eq!(s.time_elapsed(), 0);
    assert!(!s.salt_added());
    assert!(!s.yeast_added());
    assert_eq!(s.temperature(), 25_000);
    assert_eq!(s.recipe_salt(), 20_000);
    for m in s.grid().get_all_molecules() {
        assert!(m.pos.x >= 0 && m.pos.x < W);
        assert!(m.pos.y >= 0 && m.pos.y < H);
        assert!(m.pos.z >= 0 && m.pos.z < D);
    }
}

#[test]
fn new_state_has_salt_flag_set() {
    let s = SimulationState::new(W, H, D);
    assert!(s.salt_added());
    assert!(!s.yeast_added());
    assert_eq!(total(&s), 0);
    assert_eq!(s.width(), W);
    assert_eq!(s.height(), H);
    assert_eq!(s.depth(), D);
    assert_eq!(s.recipe_hydration(), 720_000);
    assert_eq!(s.recipe_yeast(), 200_000);
    assert_eq!(s.autolyse_time(), 1_800_000_000);
}

#[test]
fn salt_idempotence() {
    let mut s = classic();
    s.add_salt();
    assert!(s.salt_added());
    let after_first = total(&s);
    assert_eq!(after_first, 400 + 720);
    assert_eq!(count(&s, MoleculeType::Salt), 720);
    s.add_salt();
    assert_eq!(total(&s), after_first);
    assert!(s.salt_added());
}

#[test]
fn salt_not_added_to_fresh_state() {
    let mut s = SimulationState::new(W, H, D);
    s.add_salt();
    assert_eq!(total(&s), 0);
}

#[test]
fn yeast_idempotence_and_sugar_placement() {
    let mut s = classic();
    s.add_yeast();
    assert!(s.yeast_added());
    assert_eq!(count(&s, MoleculeType::Yeast), 2880);
    assert_eq!(count(&s, MoleculeType::Sugar), 2880);
    let after_first = total(&s);
    assert_eq!(after_first, 400 + 2 * 2880);
    s.add_yeast();
    assert_eq!(total(&s), after_first);
    let g = s.grid();
    let mut id: u64 = 401;
    while id < 401 + 2 * 2880 {
        let y = g.get_molecule(id).unwrap();
        let sugar = g.get_molecule(id + 1).unwrap();
        assert_eq!(y.mol_type, MoleculeType::Yeast);
        assert_eq!(sugar.mol_type, MoleculeType::Sugar);
        assert!((sugar.pos.x - y.pos.x).abs() <= 20 * UNIT);
        assert!((sugar.pos.y - y.pos.y).abs() <= 20 * UNIT);
        assert!((sugar.pos.z - y.pos.z).abs() <= 20 * UNIT);
        assert!(sugar.pos.x >= 0 && sugar.pos.x < W);
        id += 2;
    }
}

#[test]
fn tick_stability() {
    let mut s = classic();
    for _ in 0..1000 {
        s.tick(16_000);
    }
    assert_eq!(total(&s), 400);
    assert_eq!(s.time_elapsed(), 16_000_000);
    for m in s.grid().get_all_molecules() {
        let r = m.radius();
        assert!(m.pos.x >= r && m.pos.x <= W - r);
        assert!(m.pos.y >= r && m.pos.y <= H - r);
        assert!(m.pos.z >= r && m.pos.z <= D - r);
        let cap = FORCE_SPEED_CAP as i128;
        assert!(speed_sq(&m) <= cap * cap);
    }
}

#[test]
fn no_duplicate_bonds_after_ticks() {
    let mut s = SimulationState::new(40 * UNIT, 40 * UNIT, 40 * UNIT);
    s.initialize_classic_recipe();
    for _ in 0..200 {
        s.tick(16_000);
    }
    let bonds = s.bonds();
    assert!(bonds.len() > 0);
    for i in 0..bonds.len() {
        assert_ne!(bonds[i].molecule_a_id, bonds[i].molecule_b_id);
        assert!(bonds[i].target_distance >= 0 && bonds[i].target_distance < 8 * UNIT);
        for j in (i + 1)..bonds.len() {
            let (a, b) = (bonds[i].molecule_a_id, bonds[i].molecule_b_id);
            let (c, d) = (bonds[j].molecule_a_id, bonds[j].molecule_b_id);
            assert!(!((a == c && b == d) || (a == d && b == c)));
        }
    }
    for b in bonds.iter() {
        for id in [b.molecule_a_id, b.molecule_b_id] {
            let m = s.grid().get_molecule(id).unwrap();
            assert_eq!(m.mol_type, MoleculeType::Glutenin { has_free_thiol: false });
        }
    }
    for m in s.get_molecules_by_type(&MoleculeType::Glutenin { has_free_thiol: false }) {
        if m.mol_type == (MoleculeType::Glutenin { has_free_thiol: false }) {
            assert!(bonds.iter().any(|b| b.molecule_a_id == m.id || b.molecule_b_id == m.id));
        }
    }
    assert_eq!(s.get_bond_for_display().len(), bonds.len());
}

#[test]
fn yeast_ticks_consume_sugar() {
    let mut s = SimulationState::new(100 * UNIT, 100 * UNIT, 100 * UNIT);
    s.initialize_classic_recipe();
    s.add_yeast();
    assert_eq!(count(&s, MoleculeType::Yeast), 4);
    assert_eq!(count(&s, MoleculeType::Sugar), 4);
    for _ in 0..50 {
        s.tick(50_000);
    }
    assert_eq!(count(&s, MoleculeType::Yeast), 4);
    assert!(count(&s, MoleculeType::Sugar) <= 4);
    assert_eq!(count(&s, MoleculeType::Water), 200);
    let products = count(&s, MoleculeType::CO2) + count(&s, MoleculeType::Ethanol);
    let eaten = 4 - count(&s, MoleculeType::Sugar);
    assert!(products <= 8 * eaten);
}

#[test]
fn ids_start_at_one_and_are_never_reused() {
    let mut g = SpatialGrid3D::new(W, H, D, CELL_SIZE);
    let m = Molecule::new(MoleculeType::Water, v(UNIT, UNIT, UNIT), v(0, 0, 0));
    assert_eq!(m.id, 0);
    assert_eq!(g.insert(m), 1);
    assert_eq!(g.insert(m), 2);
    assert_eq!(g.insert(m), 3);
    g.remove(2);
    assert!(g.get_molecule(2).is_none());
    assert_eq!(g.insert(m), 4);
    assert_eq!(g.get_molecule(4).unwrap().id, 4);
    g.remove(99);
    assert_eq!(g.get_all_molecules().len(), 3);
    assert_eq!(g.next_id(), 5);
}

#[test]
fn neighbourhood_includes_self_and_follows_moves() {
    let mut g = SpatialGrid3D::new(W, H, D, CELL_SIZE);
    let a = g.insert(Molecule::new(MoleculeType::Water, v(UNIT, UNIT, UNIT), v(0, 0, 0)));
    let b = g.insert(Molecule::new(MoleculeType::Salt, v(20 * UNIT, UNIT, UNIT), v(0, 0, 0)));
    let c = g.insert(Molecule::new(MoleculeType::Sugar, v(200 * UNIT, UNIT, UNIT), v(0, 0, 0)));
    let pa = g.get_molecule(a).unwrap().pos;
    let ids: Vec<u64> = g.get_neighbors(pa).iter().map(|m| m.id).collect();
    assert!(ids.contains(&a));
    assert!(ids.contains(&b));
    assert!(!ids.contains(&c));
    g.update_molecule_pos(c, v(2 * UNIT, UNIT, UNIT));
    let ids: Vec<u64> = g.get_neighbors(pa).iter().map(|m| m.id).collect();
    assert!(ids.contains(&c));
    assert_eq!(ids.len(), 3);
    let far: Vec<u64> = g.get_neighbors(v(200 * UNIT, UNIT, UNIT)).iter().map(|m| m.id).collect();
    assert!(far.is_empty());
    assert_eq!(g.get_cell_coords(v(-1, 15 * UNIT, 29 * UNIT)), (-1, 1, 1));
}

#[test]
fn smallest_cell_size_is_accepted() {
    let mut g = SpatialGrid3D::new(W, H, D, MIN_CELL_SIZE);
    let id = g.insert(Molecule::new(MoleculeType::Ash, v(i64::MIN, i64::MAX, 0), v(0, 0, 0)));
    let ids: Vec<u64> = g.get_neighbors(v(i64::MIN, i64::MAX, 0)).iter().map(|m| m.id).collect();
    assert_eq!(ids, vec![id]);
}

#[test]
fn boundary_reflects_with_restitution() {
    let r = 4 * UNIT;
    assert_eq!(resolve_axis(-5, 100, r, W), (r, -80));
    assert_eq!(resolve_axis((W + 7) as i128, 1000, r, W), (W - r, -800));
    assert_eq!(resolve_axis(50 * UNIT as i128, -7, r, W), (50 * UNIT, -7));
    assert_eq!(resolve_axis(0, -9, r, W), (r, 7));
}

#[test]
fn bond_probability_threshold() {
    assert!(bond_forms(19_999, 25_000, false));
    assert!(!bond_forms(20_000, 25_000, false));
    assert!(bond_forms(23_999, 25_000, true));
    assert!(!bond_forms(24_000, 25_000, true));
    assert!(bond_forms(1_999, -40_000, false));
    assert!(!bond_forms(2_000, -40_000, false));
}

#[test]
fn co2_probability_threshold() {
    assert!(co2_emitted(199, 25_000, 16_000));
    assert!(!co2_emitted(200, 25_000, 16_000));
    assert!(!co2_emitted(0, 25_000, 0));
}

#[test]
fn integer_square_root_and_speed_limit() {
    assert_eq!(isqrt(0), 0);
    assert_eq!(isqrt(99), 9);
    assert_eq!(isqrt(100), 10);
    assert_eq!(isqrt(u128::MAX), u64::MAX);
    assert_eq!(limit_speed(3_000_000, 4_000_000, 0, 1_000_000), v(600_000, 800_000, 0));
    assert_eq!(limit_speed(3, 4, 0, 5), v(3, 4, 0));
    assert_eq!(limit_speed(-30, 0, 40, 10), v(-6, 0, 8));
}

#[test]
fn distance_filter() {
    assert!(within_radius_exec(v(3, 4, 0), v(0, 0, 0), 6));
    assert!(!within_radius_exec(v(3, 4, 0), v(0, 0, 0), 5));
    assert!(!within_radius_exec(v(0, 0, 0), v(0, 0, 0), 0));
    assert!(!within_radius_exec(v(i64::MAX, 0, 0), v(i64::MIN, 0, 0), i64::MAX));
}

#[test]
fn force_pushes_nearby_particles_only() {
    let mut s = classic();
    let center = v(500 * UNIT, 360 * UNIT, 500 * UNIT);
    let before = s.grid().get_all_molecules();
    s.apply_force_to_region(center, 200 * UNIT, v(0, 30 * UNIT, 0));
    for m in before {
        let after = s.grid().get_molecule(m.id).unwrap();
        assert_eq!(after.pos, m.pos);
        let dx = (m.pos.x - center.x).abs();
        let dy = (m.pos.y - center.y).abs();
        let dz = (m.pos.z - center.z).abs();
        if dx >= 45 * UNIT || dy >= 45 * UNIT || dz >= 45 * UNIT {
            assert_eq!(after.velocity, m.velocity);
        }
        let cap = FORCE_SPEED_CAP as i128;
        assert!(speed_sq(after) <= cap * cap);
    }
}

#[test]
fn force_on_single_particle_is_capped() {
    let mut s = SimulationState::new(W, H, D);
    s.add_salt();
    assert_eq!(total(&s), 0);
    let mut t = classic();
    let m = t.grid().get_molecule(1).unwrap().clone();
    t.apply_force_to_region(m.pos, UNIT, v(0, 1000 * UNIT, 0));
    let after = t.grid().get_molecule(1).unwrap();
    assert_ne!(after.velocity, m.velocity);
    let cap = FORCE_SPEED_CAP as i128;
    assert!(speed_sq(after) <= cap * cap);
    assert!(speed_sq(after) >= (cap - 2) * (cap - 2));
}

#[test]
fn random_placement_varies() {
    let s = classic();
    let all = s.grid().get_all_molecules();
    let first = all[0].pos;
    assert!(all.iter().any(|m| m.pos != first));
    assert!(all.iter().any(|m| m.velocity != all[0].velocity));
}

#[test]
fn categories_ignore_reactive_flag() {
    let s = classic();
    let a = s.get_molecules_by_type(&MoleculeType::Glutenin { has_free_thiol: false }).len();
    let b = s.get_molecules_by_type(&MoleculeType::Glutenin { has_free_thiol: true }).len();
    assert_eq!(a, b);
    assert_eq!(count(&s, MoleculeType::CO2), 0);
}

#[test]
fn radius_and_mass_per_category() {
    let m = Molecule::new(MoleculeType::CO2, v(0, 0, 0), v(0, 0, 0));
    assert_eq!(m.radius(), 8 * UNIT);
    assert_eq!(m.mass(), 2);
    let w = Molecule::new(MoleculeType::Water, v(0, 0, 0), v(0, 0, 0));
    assert_eq!(w.radius(), 1_500_000);
    assert_eq!(w.mass(), 1);
    let g = Molecule::new(MoleculeType::Glutenin { has_free_thiol: true }, v(0, 0, 0), v(0, 0, 0));
    assert_eq!(g.radius(), 4 * UNIT);
    assert_eq!(g.mass(), 12);
}

#[test]
fn candidate_pairs_bond_by_their_draws() {
    let mut s = SimulationState::new(40 * UNIT, 40 * UNIT, 40 * UNIT);
    s.initialize_classic_recipe();
    let pairs = s.candidate_pairs();
    assert!(pairs.len() > 0);
    for i in 0..pairs.len() {
        assert!(pairs[i].0 < pairs[i].1);
        for j in (i + 1)..pairs.len() {
            assert_ne!(pairs[i], pairs[j]);
        }
    }
    let mut none = SimulationState::new(40 * UNIT, 40 * UNIT, 40 * UNIT);
    none.initialize_classic_recipe();
    let none_pairs = none.candidate_pairs();
    let high: Vec<i64> = vec![999_999; none_pairs.len()];
    none.form_disulfide_bridges_with(&none_pairs, &high);
    assert_eq!(none.bonds().len(), 0);
    let low: Vec<i64> = vec![0; pairs.len()];
    s.form_disulfide_bridges_with(&pairs, &low);
    assert_eq!(s.bonds().len(), pairs.len());
    for (k, b) in s.bonds().iter().enumerate() {
        assert_eq!((b.molecule_a_id, b.molecule_b_id), pairs[k]);
        assert!(b.target_distance < 8 * UNIT);
    }
    assert!(s.candidate_pairs().is_empty());
}

#[test]
fn bond_draw_at_threshold_does_not_bond() {
    let mut s = SimulationState::new(40 * UNIT, 40 * UNIT, 40 * UNIT);
    s.initialize_classic_recipe();
    let pairs = s.candidate_pairs();
    let at: Vec<i64> = vec![24_000; pairs.len()];
    s.form_disulfide_bridges_with(&pairs, &at);
    assert_eq!(s.bonds().len(), 0);
}
