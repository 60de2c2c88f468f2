use fractory::factory::{resolve_actions, ActiveTiles, Fractory, ResolvedAction};
use fractory::orientation::Transform;
use fractory::path::{IVec2, TilePos};
use fractory::presets::{new_xyyy_biome_landing_zone, new_xyyy_fractory, new_xyyy_fractory_meta, new_xyyy_planet, tiles};
use fractory::presets::tiles::{GROWER, SPINNER, SUCKER, WIRE, X};
use fractory::planet::PlanetCache;
use fractory::tile::Tile;

fn pos(depth: u8, x: i32, y: i32, flop: bool) -> TilePos {
    TilePos { depth, pos: IVec2::new(x, y), flop }
}

#[test]
fn active_tiles_toggle() {
    let mut a = ActiveTiles::new();
    let p = pos(1, 0, 0, true);
    assert!(!a.contains(p));
    assert!(a.activate(p));
    assert!(!a.activate(p));
    assert!(a.contains(p));
    assert!(!a.toggle(p));
    assert!(!a.contains(p));
    assert!(a.toggle(p));
    assert!(a.deactivate(p));
    assert!(!a.deactivate(p));
}

#[test]
fn storing_takes_full_tiles_only() {
    let planet = new_xyyy_planet();
    let biome = new_xyyy_biome_landing_zone();
    let mut f = Fractory::new(&planet, &biome);
    let p = pos(2, 0, 1, false);
    f.store(p);
    assert!(f.inventory.is_empty());
    f.fractal.set(p, tiles()[X]);
    f.store(p);
    f.fractal.set(p, tiles()[X]);
    f.store(p);
    assert_eq!(f.inventory.get(&X), Some(&2));
    assert_eq!(f.fractal.get(p), Tile::space());
}

#[test]
fn actions_resolve_relative_to_the_tile() {
    let planet = new_xyyy_planet();
    let acts = &planet.fragments().behaviors()[SUCKER];
    let p = pos(2, 0, 1, false);
    let resolved = resolve_actions(p, Transform::KU, acts);
    assert_eq!(resolved, vec![ResolvedAction::Store(pos(2, 0, 1, true))]);
    // from the bottom row, the tile below leaves the fractal
    let edge = pos(1, 0, 1, false);
    assert!(resolve_actions(edge, Transform::KU, acts).is_empty());
}

#[test]
fn a_sucker_stores_the_tile_below() {
    let planet = new_xyyy_planet();
    let biome = new_xyyy_biome_landing_zone();
    let mut f = Fractory::new(&planet, &biome);
    let p = pos(2, 0, 1, false);
    let below = pos(2, 0, 1, true);
    f.fractal.set(p, tiles()[SUCKER]);
    f.fractal.set(below, tiles()[X]);
    f.activate(p);
    f.tick(planet.fragments().behaviors(), biome.fragment_filter());
    assert_eq!(f.inventory.get(&X), Some(&1));
    assert_eq!(f.fractal.get(below), Tile::space());
    assert_eq!(f.fractal.get(p), tiles()[SUCKER]);
}

#[test]
fn the_starting_fractory_runs_a_tick() {
    let planet = new_xyyy_planet();
    let biome = new_xyyy_biome_landing_zone();
    let mut f = new_xyyy_fractory();
    assert!(f.activated.contains(pos(3, 0, 1, true)));
    assert!(f.activated.contains(pos(4, 2, 7, false)));
    assert!(f.activated.contains(pos(4, 4, 7, false)));
    assert_eq!(f.fractal.get(pos(4, 2, 7, false)), tiles()[WIRE]);
    f.tick(planet.fragments().behaviors(), biome.fragment_filter());
    f.tick(planet.fragments().behaviors(), biome.fragment_filter());
}

#[test]
fn a_fractory_meta_registers_its_planet() {
    let mut planets = PlanetCache::new();
    let meta = new_xyyy_fractory_meta(&mut planets);
    assert_eq!(meta.planet.0, "XYYY");
    assert_eq!(meta.biome.0, "Landing Zone");
    assert!(planets.get(&meta.planet).is_some());
}

#[test]
fn the_crop_farm_stands_where_it_was_put() {
    let t = tiles();
    let f = new_xyyy_fractory();
    assert_eq!(f.fractal.get(pos(3, 0, 1, false)), t[SPINNER]);
    assert_eq!(f.fractal.get(pos(3, 1, 2, false)), t[GROWER]);
    assert_eq!(f.fractal.get(pos(3, 1, 2, true)), t[X]);
    assert_eq!(f.fractal.get(pos(4, 3, 7, false)), t[SUCKER].add(Transform::KL));
    assert_eq!(f.fractal.get(pos(4, 1, 6, true)), t[SPINNER].add(Transform::KR));
    assert_eq!(f.fractal.get(pos(4, 4, 6, false)), t[SUCKER].add(Transform::KR));
    assert_eq!(f.fractal.get(pos(4, 4, 7, false)), t[SPINNER].add(Transform::KL));
    // positions apart from the farm hold space
    assert_eq!(f.fractal.get(pos(2, 3, 3, false)), Tile::space());
    assert_eq!(f.fractal.get(pos(4, 10, 12, true)), Tile::space());
    assert_eq!(f.activated.positions(), &[pos(3, 0, 1, true), pos(4, 2, 7, false), pos(4, 4, 7, false)]);
}

#[test]
fn a_tick_with_nothing_active_changes_nothing() {
    let planet = new_xyyy_planet();
    let biome = new_xyyy_biome_landing_zone();
    let mut f = Fractory::new(&planet, &biome);
    let p = pos(3, 1, 2, false);
    f.fractal.set(p, tiles()[SPINNER]);
    f.tick(planet.fragments().behaviors(), biome.fragment_filter());
    assert_eq!(f.fractal.get(p), tiles()[SPINNER]);
    assert!(f.inventory.is_empty());
    assert!(f.activated.positions().is_empty());
}

#[test]
fn a_tick_leaves_tiles_out_of_reach_alone() {
    let planet = new_xyyy_planet();
    let biome = new_xyyy_biome_landing_zone();
    let mut f = new_xyyy_fractory();
    let far = pos(4, 12, 14, false);
    f.fractal.set(far, tiles()[X]);
    f.tick(planet.fragments().behaviors(), biome.fragment_filter());
    assert_eq!(f.fractal.get(far), tiles()[X]);
    assert_eq!(f.fractal.get(pos(4, 10, 12, true)), Tile::space());
}

#[test]
fn the_starting_fractory_is_ready_to_tick() {
    let planet = new_xyyy_planet();
    let mut f = new_xyyy_fractory();
    assert!(f.tick_ready(planet.fragments().behaviors()));
    f.inventory.insert(X, usize::MAX);
    assert!(!f.tick_ready(planet.fragments().behaviors()));
}
