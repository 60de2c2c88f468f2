use fractory::edit::{input_act, input_drop, input_edit, input_flip, input_grab, input_rot, Click, CursorState};
use fractory::factory::ActiveTiles;
use fractory::orientation::Transform;
use fractory::path::{IVec2, TilePos};
use fractory::presets::tiles::{SPINNER, WIRE, X};
use fractory::presets::{new_xyyy_biome_landing_zone, new_xyyy_fractal, tiles};
use fractory::tile::Tile;

fn pos(depth: u8, x: i32, y: i32, flop: bool) -> TilePos {
    TilePos { depth, pos: IVec2::new(x, y), flop }
}

#[test]
fn editing_steps_through_the_fragments() {
    let biome = new_xyyy_biome_landing_zone();
    let mut f = new_xyyy_fractal();
    let p = pos(2, 0, 1, false);
    input_edit(Click::Left, p, &mut f, &biome);
    assert_eq!(f.get(p), tiles()[X]);
    input_edit(Click::Right, p, &mut f, &biome);
    assert_eq!(f.get(p), Tile::space());
    input_edit(Click::Right, p, &mut f, &biome);
    assert_eq!(f.get(p).id, WIRE);
    assert_eq!(f.get(pos(2, 1, 2, false)), Tile::space());
}

#[test]
fn flipping_and_turning_change_the_orientation() {
    let t = tiles();
    let mut f = new_xyyy_fractal();
    let p = pos(1, 0, 1, false);
    f.set(p, t[SPINNER]);
    input_rot(Click::Right, p, &mut f);
    assert_eq!(f.get(p), t[SPINNER].add(Transform::KR));
    input_rot(Click::Left, p, &mut f);
    assert_eq!(f.get(p), t[SPINNER]);
    input_flip(p, &mut f);
    assert_eq!(f.get(p), t[SPINNER].add(Transform::FU));
}

#[test]
fn a_tile_is_picked_up_and_put_down() {
    let t = tiles();
    let mut f = new_xyyy_fractal();
    let a = pos(1, 0, 1, false);
    let b = pos(1, 1, 1, false);
    f.set(a, t[X]);
    let mut cursor = CursorState::Free;
    input_grab(b, &mut f, &mut cursor);
    assert_eq!(cursor, CursorState::Free);
    input_grab(a, &mut f, &mut cursor);
    assert_eq!(cursor, CursorState::Holding(t[X]));
    assert_eq!(f.get(a), Tile::space());
    input_drop(b, &mut f, &mut cursor);
    assert_eq!(cursor, CursorState::Free);
    assert_eq!(f.get(b), t[X]);
}

#[test]
fn dropping_on_a_taken_tile_keeps_holding() {
    let t = tiles();
    let mut f = new_xyyy_fractal();
    let a = pos(1, 0, 1, false);
    f.set(a, t[X]);
    let mut cursor = CursorState::Holding(t[SPINNER]);
    input_drop(a, &mut f, &mut cursor);
    assert_eq!(cursor, CursorState::Holding(t[SPINNER]));
    assert_eq!(f.get(a), t[X]);
}

#[test]
fn acting_toggles_the_activation() {
    let mut act = ActiveTiles::new();
    let p = pos(1, 0, 0, false);
    input_act(p, &mut act);
    assert!(act.contains(p));
    input_act(p, &mut act);
    assert!(!act.contains(p));
}
