use fractory::actions::RawMoveList;
use fractory::fractal::Fractal;
use fractory::orientation::{Orient, Transform};
use fractory::path::{IVec2, TilePos};
use fractory::presets::{new_xyyy_fractal, tiles};
use fractory::presets::tiles::{SPINNER, X, Y};
use fractory::tile::Tile;

fn pos(depth: u8, x: i32, y: i32, flop: bool) -> TilePos {
    TilePos { depth, pos: IVec2::new(x, y), flop }
}

fn setup() -> Fractal {
    let ts = tiles();
    let mut f = new_xyyy_fractal();
    f.set(pos(2, 0, 1, false), ts[X]);
    f.set(pos(2, 1, 2, false), ts[Y]);
    f
}

#[test]
fn a_move_carries_its_tile() {
    let mut f = setup();
    let mut moves = RawMoveList::new();
    moves.add(pos(2, 0, 1, false), pos(2, 2, 3, false), Transform::KU);
    let done = moves.apply(&mut f);
    assert_eq!(done.moves(), &[(pos(2, 0, 1, false), (pos(2, 2, 3, false), Transform::KU))]);
    assert_eq!(f.get(pos(2, 2, 3, false)), tiles()[X]);
    assert_eq!(f.get(pos(2, 0, 1, false)), Tile::space());
}

#[test]
fn a_move_applies_its_transform() {
    let ts = tiles();
    let mut f = new_xyyy_fractal();
    f.set(pos(2, 0, 1, false), ts[SPINNER]);
    let mut moves = RawMoveList::new();
    moves.add(pos(2, 0, 1, false), pos(2, 0, 0, true), Transform::KR);
    let done = moves.apply(&mut f);
    assert_eq!(done.moves().len(), 1);
    assert_eq!(f.get(pos(2, 0, 0, true)), Tile { id: SPINNER, orient: Orient::AKR });
}

#[test]
fn moves_from_empty_tiles_are_dropped() {
    let mut f = setup();
    let mut moves = RawMoveList::new();
    moves.add(pos(2, 3, 3, false), pos(2, 2, 3, false), Transform::KU);
    let done = moves.apply(&mut f);
    assert!(done.moves().is_empty());
}

#[test]
fn a_repeated_move_happens_once() {
    let mut f = setup();
    let mut moves = RawMoveList::new();
    moves.add(pos(2, 0, 1, false), pos(2, 2, 3, false), Transform::KU);
    moves.add(pos(2, 0, 1, false), pos(2, 2, 3, false), Transform::KU);
    let done = moves.apply(&mut f);
    assert_eq!(done.moves().len(), 1);
    assert_eq!(f.get(pos(2, 2, 3, false)), tiles()[X]);
}

#[test]
fn forks_are_dropped() {
    let mut f = setup();
    let mut moves = RawMoveList::new();
    moves.add(pos(2, 0, 1, false), pos(2, 2, 3, false), Transform::KU);
    moves.add(pos(2, 0, 1, false), pos(2, 3, 3, false), Transform::KU);
    let done = moves.apply(&mut f);
    assert!(done.moves().is_empty());
    assert_eq!(f.get(pos(2, 0, 1, false)), tiles()[X]);
    assert_eq!(f.get(pos(2, 2, 3, false)), Tile::space());
    assert_eq!(f.get(pos(2, 3, 3, false)), Tile::space());
    assert_eq!(f.get(pos(2, 1, 2, false)), tiles()[Y]);
}

#[test]
fn merges_are_dropped() {
    let mut f = setup();
    let mut moves = RawMoveList::new();
    moves.add(pos(2, 0, 1, false), pos(2, 2, 3, false), Transform::KU);
    moves.add(pos(2, 1, 2, false), pos(2, 2, 3, false), Transform::KU);
    let done = moves.apply(&mut f);
    assert!(done.moves().is_empty());
    assert_eq!(f.get(pos(2, 2, 3, false)), Tile::space());
    assert_eq!(f.get(pos(2, 0, 1, false)), tiles()[X]);
    assert_eq!(f.get(pos(2, 1, 2, false)), tiles()[Y]);
}

#[test]
fn moves_into_occupied_tiles_are_undone() {
    let mut f = setup();
    let mut moves = RawMoveList::new();
    moves.add(pos(2, 0, 1, false), pos(2, 1, 2, false), Transform::KU);
    let done = moves.apply(&mut f);
    assert!(done.moves().is_empty());
    assert_eq!(f.get(pos(2, 0, 1, false)), tiles()[X]);
    assert_eq!(f.get(pos(2, 1, 2, false)), tiles()[Y]);
}

#[test]
fn a_chain_of_moves_follows_the_vacated_tile() {
    let mut f = setup();
    let mut moves = RawMoveList::new();
    // Y leaves, and X takes its place
    moves.add(pos(2, 1, 2, false), pos(2, 2, 3, false), Transform::KU);
    moves.add(pos(2, 0, 1, false), pos(2, 1, 2, false), Transform::KU);
    let done = moves.apply(&mut f);
    assert_eq!(done.moves().len(), 2);
    assert_eq!(f.get(pos(2, 2, 3, false)), tiles()[Y]);
    assert_eq!(f.get(pos(2, 1, 2, false)), tiles()[X]);
    assert_eq!(f.get(pos(2, 0, 1, false)), Tile::space());
}

#[test]
fn a_blocked_chain_is_undone_whole() {
    let ts = tiles();
    let mut f = setup();
    f.set(pos(2, 3, 3, false), ts[X]);
    let mut moves = RawMoveList::new();
    // Y cannot leave, so X cannot take its place
    moves.add(pos(2, 1, 2, false), pos(2, 3, 3, false), Transform::KU);
    moves.add(pos(2, 0, 1, false), pos(2, 1, 2, false), Transform::KU);
    let done = moves.apply(&mut f);
    assert!(done.moves().is_empty());
    assert_eq!(f.get(pos(2, 1, 2, false)), ts[Y]);
    assert_eq!(f.get(pos(2, 0, 1, false)), ts[X]);
    assert_eq!(f.get(pos(2, 3, 3, false)), ts[X]);
}

#[test]
fn a_dead_end_leaves_every_tile_in_place() {
    let ts = tiles();
    let mut f = new_xyyy_fractal();
    let u = pos(1, 0, 0, false);
    let l = pos(1, 0, 1, false);
    let r = pos(1, 1, 1, false);
    f.set(u, ts[X]);
    f.set(l, ts[X]);
    f.set(r, ts[X]);
    let mut moves = RawMoveList::new();
    // r is taken, so l stays, so u stays
    moves.add(u, l, Transform::KU);
    moves.add(l, r, Transform::KU);
    let done = moves.apply(&mut f);
    assert!(done.moves().is_empty());
    assert_eq!(f.get(u), ts[X]);
    assert_eq!(f.get(l), ts[X]);
    assert_eq!(f.get(r), ts[X]);
    assert_eq!(f.get(pos(1, 0, 0, true)), Tile::space());
}
