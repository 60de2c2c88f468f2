use fractory::path::{IVec2, TileOffset, TilePos, TilePosErr};
use fractory::tile::SubTile;
use std::collections::HashSet;

#[test]
fn test_parse_tilepos() {
    for s in [
        "d0x0y0",
        "d1x0y0f",
        "d1x0y0",
        "d30x1073741823y1073741823",
        "d30x1073741822y1073741822f",
    ] {
        assert_eq!(s, TilePos::from_str(s).unwrap().to_string());
    }

    for (s, e) in [
        ("", TilePosErr::UnexpectedEndOfString),
        ("d", TilePosErr::UnexpectedEndOfString),
        ("a", TilePosErr::UnexpectedToken),
        ("d0x0y0h", TilePosErr::UnexpectedToken),
        ("d1x0y0fh", TilePosErr::UnexpectedToken),
        ("d0x0y0f", TilePosErr::OutOfBounds),
        ("d0x1y0", TilePosErr::OutOfBounds),
        ("d0x0y1", TilePosErr::OutOfBounds),
        ("d1x1y0", TilePosErr::OutOfBounds),
        ("d1x1y0f", TilePosErr::OutOfBounds),
        ("d2x2y1", TilePosErr::OutOfBounds),
        ("d31x0y0", TilePosErr::OutOfBounds),
        ("d30x1073741824y0", TilePosErr::OutOfBounds),
        ("d30x0y1073741824", TilePosErr::OutOfBounds),
        ("d30x0y1073741823f", TilePosErr::OutOfBounds),
        ("d30x1073741823y1073741822f", TilePosErr::OutOfBounds),
    ] {
        assert_eq!(TilePos::from_str(s).unwrap_err(), e);
    }
}

fn subtiles_inner(
    pos: &mut TilePos,
    set_front: &mut HashSet<TilePos>,
    set_back: &mut HashSet<TilePos>,
    depth: u8,
) {
    if depth == 0 {
        return;
    }
    for subtile in SubTile::quad().0 {
        let save = *pos;
        pos.push_outer(subtile);
        assert!(pos.is_valid());
        assert!(set_front.insert(*pos));
        assert!(set_back.insert(*pos));

        subtiles_inner(pos, set_front, set_back, depth - 1);

        assert_eq!(pos.pop_outer(), Some(subtile));
        assert_eq!(*pos, save);
    }
}

#[test]
fn test_subtiles() {
    let mut pos = TilePos::unit();
    assert_eq!(pos.pop_outer(), None);
    assert_eq!(pos.pop_inner(), None);
    let mut set_front = HashSet::new();
    let mut set_back = HashSet::new();
    subtiles_inner(&mut pos, &mut set_front, &mut set_back, 5);
    assert_eq!(pos.pop_outer(), None);
    assert_eq!(pos.pop_inner(), None);
}

#[test]
fn test_supertile_path() {
    let mut pos = TilePos::unit();

    let a = pos;
    pos.push_outer(SubTile::L);
    assert_eq!(pos, TilePos { depth: 1, pos: IVec2::new(0, 1), flop: false });

    let b = pos;
    pos.push_outer(SubTile::U);
    assert_eq!(pos, TilePos { depth: 2, pos: IVec2::new(0, 1), flop: false });

    let c = pos;
    pos.push_outer(SubTile::C);
    assert_eq!(pos, TilePos { depth: 3, pos: IVec2::new(3, 5), flop: true });

    let d = pos;
    pos.push_outer(SubTile::R);
    assert_eq!(pos, TilePos { depth: 4, pos: IVec2::new(11, 13), flop: true });

    assert_eq!(pos.pop_outer(), Some(SubTile::R));
    assert_eq!(pos, d);
    assert_eq!(pos.pop_outer(), Some(SubTile::C));
    assert_eq!(pos, c);
    assert_eq!(pos.pop_outer(), Some(SubTile::U));
    assert_eq!(pos, b);
    assert_eq!(pos.pop_outer(), Some(SubTile::L));
    assert_eq!(pos, a);
    assert_eq!(pos.pop_outer(), None);
    assert_eq!(pos, a);
    assert_eq!(pos, TilePos::unit());
}

#[test]
fn test_flip() {
    let start = TileOffset { depth: 0, offset: IVec2 { x: 0, y: 2 }, flop: true };
    let mut temp = start;
    temp.flip_x();
    assert_eq!(temp, TileOffset { depth: 0, offset: IVec2 { x: 2, y: 2 }, flop: true });
    temp.flip_x();
    assert_eq!(temp, start);
}

#[test]
fn test_rotate_identities() {
    let mut temp = TileOffset { depth: 0, offset: IVec2 { x: 15, y: 27 }, flop: true };
    let a = temp;

    temp.rotate_cc();
    let b = temp;
    assert_ne!(a, b);

    temp.rotate_cc();
    let c = temp;
    assert_ne!(b, c);

    temp.rotate_cc();
    let a2 = temp;
    assert_eq!(a2, a);

    temp.rotate_cw();
    let c2 = temp;
    assert_eq!(c2, c);

    temp.rotate_cw();
    let b2 = temp;
    assert_eq!(b2, b);

    temp.rotate_cw();
    let a3 = temp;
    assert_eq!(a3, a);
}

#[test]
fn inner_end_is_a_double_ended_queue() {
    // pushing at the inner end and popping there undoes it, at every subtile
    let path = [SubTile::C, SubTile::U, SubTile::R, SubTile::L, SubTile::C];
    let pos = TilePos::from_inward_path(&path);
    assert_eq!(pos.depth(), 5);
    let mut p = pos;
    for s in path.iter().rev() {
        assert_eq!(p.pop_inner(), Some(*s));
    }
    assert_eq!(p, TilePos::unit());
    let mut q = pos;
    for s in path.iter() {
        assert_eq!(q.pop_outer(), Some(*s));
    }
    assert_eq!(q, TilePos::unit());
    assert_eq!(TilePos::from_outward_path(&[SubTile::C, SubTile::L, SubTile::R, SubTile::U, SubTile::C]), pos);
}

#[test]
fn offsets_leave_the_fractal_or_land_inside() {
    let mut pos = TilePos::unit();
    pos.push_inner(SubTile::U);
    let below = TileOffset { depth: 0, offset: IVec2::new(0, 0), flop: true };
    let landed = pos.add_offset(below).unwrap();
    assert_eq!(landed, TilePos { depth: 1, pos: IVec2::new(0, 0), flop: true });
    let far = TileOffset { depth: 0, offset: IVec2::new(5, 5), flop: false };
    assert_eq!(pos.add_offset(far), None);
}

#[test]
fn positions_print_as_text() {
    let p = TilePos { depth: 3, pos: IVec2::new(3, 5), flop: true };
    assert_eq!(p.to_string(), "d3x3y5f");
    assert_eq!(TilePos::from_str("d3x3y5f"), Ok(p));
    assert_eq!(TilePos::unit().to_string(), "d0x0y0");
}

#[test]
fn a_row_past_every_depth_is_out_of_bounds() {
    assert_eq!(TilePos::from_str("d0x0y2147483647f"), Err(TilePosErr::OutOfBounds));
    assert_eq!(TilePos::from_str("d30x0y2147483647f"), Err(TilePosErr::OutOfBounds));
    assert_eq!(TilePos::from_str("d30x0y2147483647"), Err(TilePosErr::OutOfBounds));
}
