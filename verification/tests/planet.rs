use fractory::planet::{BiomeCache, BiomeId, Filter, PlanetCache, PlanetId};
use fractory::presets::tiles::{ROTOR, SPINNER, WIRE, X, Y};
use fractory::presets::{
    new_xyyy_biome_cache, new_xyyy_biome_landing_zone, new_xyyy_biome_spinless, new_xyyy_planet, quads, tiles,
    XYYY_LANDING_ZONE, XYYY_SPINLESS,
};

#[test]
fn filters_allow_by_id() {
    let f = Filter::all(3);
    assert!(f.allows(0) && f.allows(2));
    assert!(!f.allows(3));
    let f = f.without(1);
    assert!(f.allows(0) && !f.allows(1) && f.allows(2));
}

#[test]
fn spinless_biome_forbids_rotors_and_spinners() {
    let b = new_xyyy_biome_spinless();
    assert_eq!(b.leaf_count(), 9);
    assert!(!b.fragment_filter().allows(ROTOR));
    assert!(!b.fragment_filter().allows(SPINNER));
    assert!(b.fragment_filter().allows(X));
    assert!(b.fragment_filter().allows(WIRE));
    assert_eq!(b.starting_tile, tiles()[Y]);
    assert_eq!(b.default_id(), BiomeId(XYYY_SPINLESS.to_string()));
}

#[test]
fn landing_zone_allows_every_fragment() {
    let b = new_xyyy_biome_landing_zone();
    for id in 0..9 {
        assert!(b.fragment_filter().allows(id));
    }
    assert!(!b.fragment_filter().allows(9));
    assert_eq!(b.starting_tile, tiles()[X]);
}

#[test]
fn behaviors_follow_the_filter() {
    let planet = new_xyyy_planet();
    let spinless = new_xyyy_biome_spinless();
    let behaviors = planet.fragments().behaviors();
    assert!(spinless.behavior(behaviors, SPINNER).is_empty());
    assert_eq!(spinless.behavior(behaviors, 3).len(), 2);
    assert!(spinless.behavior(behaviors, 42).is_empty());
    let landing = new_xyyy_biome_landing_zone();
    assert_eq!(landing.behavior(behaviors, SPINNER).len(), 2);
}

#[test]
fn the_biome_cache_holds_both_biomes() {
    let cache = new_xyyy_biome_cache();
    let ids = cache.iter();
    assert_eq!(ids.len(), 2);
    let lz = cache.get(&BiomeId(XYYY_LANDING_ZONE.to_string())).unwrap();
    assert_eq!(lz.starting_tile, tiles()[X]);
    let sp = cache.get(&BiomeId(XYYY_SPINLESS.to_string())).unwrap();
    assert_eq!(sp.starting_tile, tiles()[Y]);
    assert!(cache.get(&BiomeId("Nowhere".to_string())).is_none());
}

#[test]
fn registering_again_replaces() {
    let mut cache = BiomeCache::new();
    let a = new_xyyy_biome_spinless();
    let b = new_xyyy_biome_landing_zone();
    cache.register(BiomeId::from("here".to_string()), a);
    cache.register(BiomeId::from("here".to_string()), b);
    assert_eq!(cache.iter().len(), 1);
    assert_eq!(cache.get(&BiomeId("here".to_string())).unwrap().starting_tile, tiles()[X]);
}

#[test]
fn planets_are_cached_by_name() {
    let mut cache = PlanetCache::new();
    let p = new_xyyy_planet();
    let id = p.default_id();
    assert_eq!(id, PlanetId("XYYY".to_string()));
    cache.register(id.clone(), p);
    let got = cache.get(&id).unwrap();
    assert_eq!(got.fragments().quads.len(), 9);
    assert_eq!(got.fragments().names()[4], "Spinner");
    assert!(cache.get(&PlanetId("other".to_string())).is_none());
}

#[test]
fn xyyy_quads_and_tiles() {
    let ts = tiles();
    let qs = quads();
    assert_eq!(qs.len(), 9);
    assert_eq!(ts[WIRE], fractory::tile::Tile { id: WIRE, orient: fractory::orientation::Orient::RfU });
    assert_eq!(qs[1].0[0], ts[1]);
    assert_eq!(qs[1].0[1], ts[2]);
}

#[test]
fn get_or_load_finds_cached_entries() {
    let mut biomes = new_xyyy_biome_cache();
    let lz = biomes.get_or_load(BiomeId(XYYY_LANDING_ZONE.to_string()));
    assert_eq!(lz.starting_tile, tiles()[X]);
    let mut planets = PlanetCache::new();
    let p = new_xyyy_planet();
    let id = p.default_id();
    planets.register(id.clone(), p);
    planets.get_or_load(id.clone()).desc = "changed".to_string();
    assert_eq!(planets.get(&id).unwrap().desc, "changed");
    assert_eq!(planets.get(&id).unwrap().name, "XYYY");
}

#[test]
fn get_mut_changes_a_cached_planet() {
    let mut planets = PlanetCache::new();
    let p = new_xyyy_planet();
    let id = p.default_id();
    planets.register(id.clone(), p);
    if let Some(planet) = planets.get_mut(&id) {
        planet.name = "renamed".to_string();
    }
    assert_eq!(planets.get(&id).unwrap().name, "renamed");
    assert!(planets.get_mut(&PlanetId("other".to_string())).is_none());
}
