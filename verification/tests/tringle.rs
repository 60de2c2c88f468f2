use fractory::tringle::{Orientation, Rotation};

/// Three numbers arranged [top, right, left] that correspond to a specific
/// triangle orientation.
#[derive(Debug, Clone, Copy, PartialEq, Eq)]
struct TriPoint([usize; 3]);

impl TriPoint {
    fn new() -> Self {
        TriPoint([0, 1, 2])
    }

    fn from_orientation(orientation: Orientation) -> Self {
        let mut out = Self::new();
        out.reorient(orientation);
        out
    }

    fn reorient(&mut self, orientation: Orientation) {
        if orientation.reflected {
            self.0.swap(1, 2);
        }
        let steps = match orientation.rotation {
            Rotation::Up => 0,
            Rotation::Right => 1,
            Rotation::Left => 2,
        };
        self.0.rotate_right(steps);
    }
}

fn all_orientations() -> Vec<Orientation> {
    let mut out = vec![];
    for reflected in [false, true] {
        for rotation in [Rotation::Up, Rotation::Right, Rotation::Left] {
            out.push(Orientation { reflected, rotation });
        }
    }
    out
}

#[test]
fn test_add_orientations() {
    for a in all_orientations() {
        for b in all_orientations() {
            let mut value = TriPoint::new();
            value.reorient(a);
            value.reorient(b);
            let sum = all_orientations()
                .into_iter()
                .find(|&candidate| TriPoint::from_orientation(candidate) == value)
                .unwrap();
            assert_eq!(a.add(b), sum);
        }
    }
}

#[test]
fn test_orientation() {
    for operand in all_orientations() {
        let value = TriPoint::from_orientation(operand);
        let neg = all_orientations()
            .into_iter()
            .find(|&candidate| {
                let mut val = value;
                val.reorient(candidate);
                val == TriPoint::new()
            })
            .unwrap();
        assert_eq!(operand.neg(), neg);
        assert_eq!(operand.add(operand.neg()), Orientation::default());
    }
}

#[test]
fn rotations_add_modulo_a_turn() {
    assert_eq!(Rotation::Right.add(Rotation::Left), Rotation::Up);
    assert_eq!(Rotation::Left.add(Rotation::Left), Rotation::Right);
    assert_eq!(Rotation::Right.neg(), Rotation::Left);
    let flip = Orientation { reflected: true, rotation: Rotation::Up };
    let turn = Orientation { reflected: false, rotation: Rotation::Right };
    assert_eq!(turn.add(flip), Orientation { reflected: true, rotation: Rotation::Left });
    assert_eq!(flip.add(turn), Orientation { reflected: true, rotation: Rotation::Right });
}

#[test]
fn orientations_are_written_in_brackets() {
    let up = Orientation { reflected: false, rotation: Rotation::Up };
    let right = Orientation { reflected: false, rotation: Rotation::Right };
    let left_flipped = Orientation { reflected: true, rotation: Rotation::Left };
    assert_eq!(up.to_string(), "()");
    assert_eq!(right.to_string(), "(>)");
    assert_eq!(left_flipped.to_string(), "(%<)");
}
