use fractory::boring::BoringFractal;
use fractory::ui::{tile_name, KeyboardControlMode, ViewState};

#[test]
fn tile_names_fall_back_to_ids() {
    let names = vec!["".to_string(), "X".to_string()];
    assert_eq!(tile_name(&names, 1), "X");
    assert_eq!(tile_name(&names, 0), "");
    assert_eq!(tile_name(&names, 17), "17");
    assert_eq!(tile_name(&names, 2), "2");
}

#[test]
fn modes_toggle_back_and_forth() {
    let mut m = KeyboardControlMode::default();
    assert_eq!(m, KeyboardControlMode::Smooth);
    m.toggle();
    assert_eq!(m, KeyboardControlMode::Snap);
    m.toggle();
    assert_eq!(m, KeyboardControlMode::Smooth);
    let mut v = ViewState::Flat;
    v.cycle();
    assert_eq!(v, ViewState::Shattered);
    v.cycle();
    assert_eq!(v, ViewState::Flat);
}

#[test]
fn boring_fractal_reads_back_writes() {
    let mut f = BoringFractal::new();
    assert_eq!(f.get(&[0, 1, 2]), 0);
    let old = f.set(&[1, 2], 0);
    assert_eq!(old, 0);
    // a node made of space is space itself
    assert_eq!(f.get(&[1, 2]), 0);
    let f2 = BoringFractal::load(1, vec![[0, 0, 0, 0], [0, 0, 0, 0], [0, 1, 0, 0]]);
    assert_eq!(f2.get(&[]), 1);
    assert_eq!(f2.get(&[1]), 1);
    assert_eq!(f2.get(&[1, 1, 0]), 0);
}

#[test]
fn boring_fractal_stores_each_node_once() {
    let mut f = BoringFractal::new();
    let mut g = BoringFractal::new();
    f.set(&[3], 0);
    g.set(&[3], 0);
    // building the same node twice gives the same id
    let mut h = BoringFractal::load(0, vec![[0, 0, 0, 0], [0, 0, 0, 1]]);
    let a = h.set(&[2], 1);
    assert_eq!(a, 0);
    assert_eq!(h.get(&[2]), 1);
    assert_eq!(h.get(&[2, 3]), 1);
    assert_eq!(h.get(&[3]), 0);
    assert_eq!(h.get(&[]), 2);
    let b = h.set(&[2], 1);
    assert_eq!(b, 1);
    assert_eq!(h.get(&[]), 2);
}
