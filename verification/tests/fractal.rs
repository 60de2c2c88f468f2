use fractory::fractal::{Fractal, FractalError, TileFill};
use fractory::fractal::TileFill::{Empty, Full, Leaf, Partial};
use fractory::orientation::{Orient, Symmetries, Transform};
use fractory::path::{IVec2, TilePos};
use fractory::presets::{new_xyyy_fractal, tiles};
use fractory::presets::tiles::{GROWER, SPINNER, X, Y};
use fractory::recognizer::Recognizer;
use fractory::tile::{Quad, SubTile, Tile};

fn t(id: usize, orient: Orient) -> Tile {
    Tile { id, orient }
}

fn pos(depth: u8, x: i32, y: i32, flop: bool) -> TilePos {
    TilePos { depth, pos: IVec2::new(x, y), flop }
}

#[test]
fn space_everywhere() {
    let f = Fractal::new_space();
    assert_eq!(f.library.len(), 1);
    assert_eq!(f.root, Tile::space());
    assert_eq!(f.get(pos(3, 1, 2, true)), Tile::space());
    assert_eq!(f.get_info(0).fill, TileFill::Empty);
    assert_eq!(f.get_info(0).symmetries, Symmetries::Isotropic);
}

#[test]
fn an_empty_list_makes_an_empty_library() {
    let f = Fractal::new(&[]).unwrap();
    assert!(f.library.is_empty());
}

#[test]
fn base_tiles_must_be_upright() {
    let space = Quad::space();
    // symmetric under a flip only once turned
    let tilted = Quad([t(1, Orient::Iso), t(2, Orient::Iso), t(1, Orient::Iso), t(2, Orient::Iso)]);
    let e = Fractal::new(&[space, tilted]).unwrap_err();
    assert!(matches!(e, FractalError::NonCanonOrient(1, _)));
}

#[test]
fn only_space_has_holes_and_space_comes_first() {
    let x = Quad([t(1, Orient::Iso), t(2, Orient::Iso), t(2, Orient::Iso), t(2, Orient::Iso)]);
    assert_eq!(Fractal::new(&[x]).unwrap_err(), FractalError::NonLeaf(0));
    let holed = Quad([t(1, Orient::Iso), t(0, Orient::Iso), t(1, Orient::Iso), t(1, Orient::Iso)]);
    assert_eq!(Fractal::new(&[Quad::space(), holed]).unwrap_err(), FractalError::NonLeaf(1));
}

#[test]
fn base_tiles_must_be_unique() {
    let x = Quad([t(1, Orient::Iso), t(2, Orient::Iso), t(2, Orient::Iso), t(2, Orient::Iso)]);
    assert_eq!(Fractal::new(&[Quad::space(), x, x]).unwrap_err(), FractalError::Duplicate(2, 1));
}

#[test]
fn children_must_exist() {
    let q = Quad([t(1, Orient::Iso), t(5, Orient::Iso), t(5, Orient::Iso), t(5, Orient::Iso)]);
    assert_eq!(Fractal::new(&[Quad::space(), q]).unwrap_err(), FractalError::NonExistentTile(1, 5));
}

#[test]
fn children_must_have_the_symmetries_of_their_slots() {
    let one = Quad([t(1, Orient::Iso), t(1, Orient::Iso), t(1, Orient::Iso), t(1, Orient::Iso)]);
    let two = Quad([t(1, Orient::RtK), t(1, Orient::Iso), t(1, Orient::Iso), t(1, Orient::Iso)]);
    assert_eq!(
        Fractal::new(&[Quad::space(), one, two]).unwrap_err(),
        FractalError::WrongSymmetries {
            id: 2,
            sub: SubTile::C,
            sub_id: 1,
            orient: Orient::RtK,
            symmetries: Symmetries::Isotropic,
        }
    );
}

#[test]
fn xyyy_fractal_is_nine_slots() {
    let f = new_xyyy_fractal();
    assert_eq!(f.library.len(), 9);
    assert_eq!(f.get_info(X).fill, TileFill::Leaf);
    assert_eq!(f.get_info(0).fill, TileFill::Empty);
    assert_eq!(f.get_info(SPINNER).symmetries, Symmetries::Asymmetric);
    assert_eq!(f.root, Tile::space());
}

#[test]
fn get_after_set_gives_the_tile_back() {
    let ts = tiles();
    let mut f = new_xyyy_fractal();
    let p = pos(3, 1, 2, false);
    let old = f.set(p, ts[GROWER].add(Transform::KR));
    assert_eq!(old, Tile::space());
    assert_eq!(f.get(p), ts[GROWER].add(Transform::KR));
    // positions off the path stay as they were
    assert_eq!(f.get(pos(3, 1, 2, true)), Tile::space());
    assert_eq!(f.get(pos(3, 6, 7, false)), Tile::space());
    // below the new tile stands the tile's own tree
    let mut below = p;
    below.push_inner(SubTile::C);
    assert_eq!(f.get(below).id, 3);
}

#[test]
fn set_returns_what_was_there_and_writing_it_back_restores() {
    let ts = tiles();
    let mut f = new_xyyy_fractal();
    let p = pos(2, 0, 1, true);
    let q = pos(2, 1, 2, false);
    f.set(q, ts[Y]);
    let before = f.get(p);
    let replaced = f.set(p, ts[X]);
    assert_eq!(replaced, before);
    assert_eq!(f.set(p, ts[X]), ts[X]);
    f.set(p, replaced);
    assert_eq!(f.get(p), before);
    assert_eq!(f.get(q), ts[Y]);
}

#[test]
fn equal_subtrees_share_a_slot() {
    let ts = tiles();
    let mut f = new_xyyy_fractal();
    let n = f.library.len();
    // filling a quad with four X tiles registers one slot for it
    for s in [SubTile::C, SubTile::U, SubTile::R, SubTile::L] {
        let mut p = pos(1, 0, 0, false);
        p.push_inner(s);
        f.set(p, ts[X]);
    }
    let grown = f.library.len();
    assert!(grown > n);
    let g = f.get(pos(1, 0, 0, false));
    for s in [SubTile::C, SubTile::U, SubTile::R, SubTile::L] {
        let mut p = pos(1, 1, 1, false);
        p.push_inner(s);
        f.set(p, ts[X]);
    }
    assert_eq!(f.get(pos(1, 1, 1, false)), g);
}

#[test]
fn recognizer_maps_quads_to_tiles() {
    let mut r = Recognizer::new();
    let q = Quad([t(1, Orient::Iso), t(2, Orient::Iso), t(2, Orient::Iso), t(2, Orient::Iso)]);
    assert_eq!(r.get(&q), None);
    assert_eq!(r.insert(q, t(4, Orient::Iso)), None);
    assert_eq!(r.get(&q), Some(t(4, Orient::Iso)));
    assert_eq!(r.insert(q, t(5, Orient::Iso)), Some(t(4, Orient::Iso)));
    let other = Quad([t(1, Orient::Iso), t(2, Orient::Iso), t(2, Orient::Iso), t(2, Orient::RfU)]);
    assert_eq!(r.get(&other), None);
}

#[test]
fn fills_of_quads() {
    assert_eq!(TileFill::infer(Quad([Empty, Empty, Empty, Empty])), Empty);
    assert_eq!(TileFill::infer(Quad([Full, Leaf, Full, Leaf])), Full);
    assert_eq!(TileFill::infer(Quad([Empty, Leaf, Full, Leaf])), Partial);
    assert_eq!(TileFill::infer(Quad([Leaf, Leaf, Partial, Leaf])), Partial);
    assert!(Empty.is_leaf() && Leaf.is_leaf() && !Full.is_leaf());
    assert!(Full.is_full() && Leaf.is_full() && !Partial.is_full());
}
