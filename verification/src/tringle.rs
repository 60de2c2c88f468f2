//! A triangle's orientation as a pair: whether it is reflected, and how
//! far it is turned.
use vstd::prelude::*;
use crate::path_text::push_char;

verus! {

/// A turn by thirds.
#[derive(Debug, Clone, Copy, PartialEq, Eq, Structural, PartialOrd, Ord, Hash, Default)]
pub enum Rotation {
    #[default]
    Up,
    Right,
    Left,
}

impl Rotation {
    /// The number of thirds turned clockwise.
    pub open spec fn steps(self) -> int {
        match self {
            Rotation::Up => 0,
            Rotation::Right => 1,
            Rotation::Left => 2,
        }
    }

    pub open spec fn from_steps(n: int) -> Rotation {
        if n % 3 == 0 {
            Rotation::Up
        } else if n % 3 == 1 {
            Rotation::Right
        } else {
            Rotation::Left
        }
    }

    pub open spec fn spec_add(self, rhs: Rotation) -> Rotation {
        Rotation::from_steps(self.steps() + rhs.steps())
    }

    pub open spec fn spec_neg(self) -> Rotation {
        Rotation::from_steps(3 - self.steps())
    }

    /// `self + rhs`: the turns added, modulo a whole turn.
    pub fn add(self, rhs: Rotation) -> (r: Rotation)
        ensures
            r == self.spec_add(rhs),
    {
        let a: u8 = match self {
            Rotation::Up => 0,
            Rotation::Right => 1,
            Rotation::Left => 2,
        };
        let b: u8 = match rhs {
            Rotation::Up => 0,
            Rotation::Right => 1,
            Rotation::Left => 2,
        };
        match (a + b) % 3 {
            0 => Rotation::Up,
            1 => Rotation::Right,
            _ => Rotation::Left,
        }
    }

    /// `-self`: the opposite turn.
    pub fn neg(self) -> (r: Rotation)
        ensures
            r == self.spec_neg(),
    {
        match self {
            Rotation::Up => Rotation::Up,
            Rotation::Right => Rotation::Left,
            Rotation::Left => Rotation::Right,
        }
    }
}

/// An orientation: reflected first, then turned.
#[derive(Debug, Clone, Copy, PartialEq, Eq, Structural, PartialOrd, Ord, Hash, Default)]
pub struct Orientation {
    pub reflected: bool,
    pub rotation: Rotation,
}

/// How an orientation is written: between round brackets, `%` when it is
/// reflected, then `>` for a turn right or `<` for a turn left.
pub open spec fn orientation_text(o: Orientation) -> Seq<char> {
    seq!['('] + (if o.reflected {
        seq!['%']
    } else {
        Seq::empty()
    }) + (match o.rotation {
        Rotation::Up => Seq::empty(),
        Rotation::Right => seq!['>'],
        Rotation::Left => seq!['<'],
    }) + seq![')']
}

impl Orientation {
    /// Writes the orientation.
    pub fn to_string(&self) -> (r: String)
        ensures
            r@ == orientation_text(*self),
    {
        let mut out = String::new();
        push_char(&mut out, '(');
        if self.reflected {
            push_char(&mut out, '%');
        }
        match self.rotation {
            Rotation::Up => {},
            Rotation::Right => push_char(&mut out, '>'),
            Rotation::Left => push_char(&mut out, '<'),
        }
        push_char(&mut out, ')');
        proof {
            assert(out@ =~= orientation_text(*self));
        }
        out
    }

    /// The orientation with nothing done.
    pub open spec fn spec_identity() -> Orientation {
        Orientation { reflected: false, rotation: Rotation::Up }
    }

    /// Doing `self`, then `rhs`: a reflection in `rhs` reverses the turn of
    /// `self`.
    pub open spec fn spec_add(self, rhs: Orientation) -> Orientation {
        let rot = if rhs.reflected {
            self.rotation.spec_neg()
        } else {
            self.rotation
        };
        Orientation { reflected: self.reflected != rhs.reflected, rotation: rot.spec_add(rhs.rotation) }
    }

    /// The orientation that undoes `self`.
    pub open spec fn spec_neg(self) -> Orientation {
        if self.reflected {
            self
        } else {
            Orientation { reflected: false, rotation: self.rotation.spec_neg() }
        }
    }

    /// `self + rhs`.
    pub fn add(self, rhs: Orientation) -> (r: Orientation)
        ensures
            r == self.spec_add(rhs),
    {
        let mut out = self;
        if rhs.reflected {
            out.rotation = out.rotation.neg();
        }
        Orientation { reflected: out.reflected != rhs.reflected, rotation: out.rotation.add(rhs.rotation) }
    }

    /// `-self`.
    pub fn neg(self) -> (r: Orientation)
        ensures
            r == self.spec_neg(),
    {
        let mut out = self;
        if !out.reflected {
            out.rotation = out.rotation.neg();
        }
        out
    }
}

/// Orientations form a group: doing nothing is neutral, every orientation
/// is undone by its negation, and adding is associative.
pub proof fn lemma_orientation_group(a: Orientation, b: Orientation, c: Orientation)
    ensures
        a.spec_add(Orientation::spec_identity()) == a,
        Orientation::spec_identity().spec_add(a) == a,
        a.spec_add(a.spec_neg()) == Orientation::spec_identity(),
        a.spec_neg().spec_add(a) == Orientation::spec_identity(),
        a.spec_add(b).spec_add(c) == a.spec_add(b.spec_add(c)),
{
}

} // verus!
