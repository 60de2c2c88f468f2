//! Orientations of triangular tiles and the transforms that act on them.
//!
//! A `Transform` is an element of the symmetry group of the triangle
//! (three rotations, each optionally preceded by a flip). An `Orient` is the
//! orientation of a tile, which is only determined up to the tile's own
//! symmetries: an isotropic tile has one orientation, a rotationally symmetric
//! tile has two, a reflectively symmetric tile three and an asymmetric tile six.
use vstd::prelude::*;

verus! {

#[derive(Debug, Clone, Copy, PartialEq, Eq, Structural, PartialOrd, Ord, Hash, Default)]
pub enum Rotation {
    #[default]
    U,
    R,
    L,
}

impl Rotation {
    /// The number of clockwise thirds of a turn.
    pub open spec fn steps(self) -> nat {
        match self {
            Rotation::U => 0,
            Rotation::R => 1,
            Rotation::L => 2,
        }
    }

    /// Turning by `self`, then by `rhs`.
    pub open spec fn spec_add(self, rhs: Rotation) -> Rotation {
        match (self, rhs) {
            (Rotation::U, _) => rhs,
            (_, Rotation::U) => self,
            (Rotation::R, Rotation::R) => Rotation::L,
            (Rotation::L, Rotation::L) => Rotation::R,
            _ => Rotation::U,
        }
    }

    /// The opposite turn.
    pub open spec fn spec_neg(self) -> Rotation {
        match self {
            Rotation::U => Rotation::U,
            Rotation::R => Rotation::L,
            Rotation::L => Rotation::R,
        }
    }

    /// The number of clockwise thirds of a turn, as an index.
    pub fn index(self) -> (r: usize)
        ensures
            r == self.steps(),
    {
        match self {
            Rotation::U => 0,
            Rotation::R => 1,
            Rotation::L => 2,
        }
    }
}

/// The symmetries that a tile has: whether flipping it, and whether turning
/// it by a third, can leave it unchanged.
#[derive(Debug, Clone, Copy, PartialEq, Eq, Structural, PartialOrd, Ord, Hash, Default)]
pub enum Symmetries {
    #[default]
    Isotropic,
    Rotational,
    Reflective,
    Asymmetric,
}

impl Symmetries {
    /// Whether a tile of this class is left unchanged by some flip.
    pub open spec fn spec_is_reflective(self) -> bool {
        self is Isotropic || self is Reflective
    }

    /// Whether a tile of this class is left unchanged by a third of a turn.
    pub open spec fn spec_is_rotational(self) -> bool {
        self is Isotropic || self is Rotational
    }

    pub open spec fn spec_new(reflective: bool, rotational: bool) -> Symmetries {
        if reflective && rotational {
            Symmetries::Isotropic
        } else if reflective {
            Symmetries::Rotational
        } else if rotational {
            Symmetries::Reflective
        } else {
            Symmetries::Asymmetric
        }
    }

    /// Builds a symmetry class from its two flags.
    ///
    /// When the flags differ, the class built is the one whose flags are
    /// swapped: `new(true, false)` is `Rotational`.
    pub fn new(reflective: bool, rotational: bool) -> (r: Self)
        ensures
            r == Self::spec_new(reflective, rotational),
            reflective == rotational ==> r.spec_is_reflective() == reflective
                && r.spec_is_rotational() == rotational,
    {
        match (reflective, rotational) {
            (true, true) => Symmetries::Isotropic,
            (true, false) => Symmetries::Rotational,
            (false, true) => Symmetries::Reflective,
            (false, false) => Symmetries::Asymmetric,
        }
    }

    pub fn is_reflective(self) -> (r: bool)
        ensures
            r == self.spec_is_reflective(),
    {
        match self {
            Symmetries::Isotropic | Symmetries::Reflective => true,
            _ => false,
        }
    }

    pub fn is_rotational(self) -> (r: bool)
        ensures
            r == self.spec_is_rotational(),
    {
        match self {
            Symmetries::Isotropic | Symmetries::Rotational => true,
            _ => false,
        }
    }
}

#[derive(Debug, Clone, Copy, PartialEq, Eq, Structural, PartialOrd, Ord, Hash, Default)]
pub enum Orient {
    // isotropic
    #[default]
    Iso,
    // rotational
    RtK,  // Keep
    RtF,  // Flip
    // reflective
    RfU,  // Up
    RfR,  // Right
    RfL,  // Left
    // asymmetric
    AKU,
    AKR,
    AKL,
    AFU,
    AFR,
    AFL,
}

#[derive(Debug, Clone, Copy, PartialEq, Eq, Structural, PartialOrd, Ord, Hash)]
pub enum Transform {
    KU,
    KR,
    KL,
    FU,
    FR,
    FL,
}

/// All twelve orientations, in declaration order.
pub open spec fn all_orients() -> Seq<Orient> {
    seq![
        Orient::Iso,
        Orient::RtK,
        Orient::RtF,
        Orient::RfU,
        Orient::RfR,
        Orient::RfL,
        Orient::AKU,
        Orient::AKR,
        Orient::AKL,
        Orient::AFU,
        Orient::AFR,
        Orient::AFL,
    ]
}

/// All six transforms, in declaration order.
pub open spec fn all_transforms() -> Seq<Transform> {
    seq![Transform::KU, Transform::KR, Transform::KL, Transform::FU, Transform::FR, Transform::FL]
}

/// Applies `f` a given number of times.
pub open spec fn rot_cw_n(o: Orient, n: nat) -> Orient
    decreases n,
{
    if n == 0 {
        o
    } else {
        rot_cw_n(o, (n - 1) as nat).spec_rot_cw()
    }
}

impl Orient {
    /// The twelve orientations.
    pub fn orientations() -> (r: [Orient; 12])
        ensures
            r@ == all_orients(),
    {
        let r = [
            Orient::Iso,
            Orient::RtK,
            Orient::RtF,
            Orient::RfU,
            Orient::RfR,
            Orient::RfL,
            Orient::AKU,
            Orient::AKR,
            Orient::AKL,
            Orient::AFU,
            Orient::AFR,
            Orient::AFL,
        ];
        assert(r@ =~= all_orients());
        r
    }

    pub open spec fn spec_flip(self) -> Orient {
        match self {
            Orient::Iso => Orient::Iso,
            Orient::RtK => Orient::RtF,
            Orient::RtF => Orient::RtK,
            Orient::RfU => Orient::RfU,
            Orient::RfR => Orient::RfL,
            Orient::RfL => Orient::RfR,
            Orient::AKU => Orient::AFU,
            Orient::AKR => Orient::AFL,
            Orient::AKL => Orient::AFR,
            Orient::AFU => Orient::AKU,
            Orient::AFR => Orient::AKL,
            Orient::AFL => Orient::AKR,
        }
    }

    pub open spec fn spec_rot_cw(self) -> Orient {
        match self {
            Orient::RfU => Orient::RfR,
            Orient::RfR => Orient::RfL,
            Orient::RfL => Orient::RfU,
            Orient::AKU => Orient::AKR,
            Orient::AKR => Orient::AKL,
            Orient::AKL => Orient::AKU,
            Orient::AFU => Orient::AFR,
            Orient::AFR => Orient::AFL,
            Orient::AFL => Orient::AFU,
            _ => self,
        }
    }

    /// The orientation reached by applying `tf`: flip first if `tf` is a
    /// reflection, then turn clockwise by its rotation.
    pub open spec fn spec_transformed(self, tf: Transform) -> Orient {
        let flipped = if tf.spec_reflected() {
            self.spec_flip()
        } else {
            self
        };
        rot_cw_n(flipped, tf.spec_rotation().steps())
    }

    pub open spec fn spec_symmetries(self) -> Symmetries {
        match self {
            Orient::Iso => Symmetries::Isotropic,
            Orient::RtK | Orient::RtF => Symmetries::Rotational,
            Orient::RfU | Orient::RfR | Orient::RfL => Symmetries::Reflective,
            _ => Symmetries::Asymmetric,
        }
    }

    /// The canonical orientation of the symmetry class.
    pub open spec fn spec_from_symmetries(s: Symmetries) -> Orient {
        match s {
            Symmetries::Isotropic => Orient::Iso,
            Symmetries::Rotational => Orient::RtK,
            Symmetries::Reflective => Orient::RfU,
            Symmetries::Asymmetric => Orient::AKU,
        }
    }

    pub open spec fn spec_upright(self) -> Orient {
        Orient::spec_from_symmetries(self.spec_symmetries())
    }

    pub open spec fn spec_is_upright(self) -> bool {
        self is Iso || self is RtK || self is RfU || self is AKU
    }

    /// The transform that takes the upright orientation to this one.
    pub open spec fn spec_to_transform(self) -> Transform {
        match self {
            Orient::Iso | Orient::RtK | Orient::RfU | Orient::AKU => Transform::KU,
            Orient::RtF | Orient::AFU => Transform::FU,
            Orient::RfR | Orient::AKR => Transform::KR,
            Orient::RfL | Orient::AKL => Transform::KL,
            Orient::AFR => Transform::FR,
            Orient::AFL => Transform::FL,
        }
    }

    pub fn to_transform(self) -> (r: Transform)
        ensures
            r == self.spec_to_transform(),
    {
        Transform::from_orient(self)
    }

    /// `self + tf`: this orientation after applying `tf`.
    pub fn transformed(self, tf: Transform) -> (r: Self)
        ensures
            r == self.spec_transformed(tf),
    {
        proof {
            reveal_with_fuel(rot_cw_n, 3);
        }
        match (self, tf) {
            (Orient::Iso, _) => Orient::Iso,
            (Orient::RtK, Transform::KU | Transform::KR | Transform::KL) => Orient::RtK,
            (Orient::RtK, _) => Orient::RtF,
            (Orient::RtF, Transform::KU | Transform::KR | Transform::KL) => Orient::RtF,
            (Orient::RtF, _) => Orient::RtK,
            (Orient::RfU, Transform::KU | Transform::FU) => Orient::RfU,
            (Orient::RfU, Transform::KR | Transform::FR) => Orient::RfR,
            (Orient::RfU, _) => Orient::RfL,
            (Orient::RfR, Transform::KU | Transform::FL) => Orient::RfR,
            (Orient::RfR, Transform::KR | Transform::FU) => Orient::RfL,
            (Orient::RfR, _) => Orient::RfU,
            (Orient::RfL, Transform::KU | Transform::FR) => Orient::RfL,
            (Orient::RfL, Transform::KR | Transform::FL) => Orient::RfU,
            (Orient::RfL, _) => Orient::RfR,
            (Orient::AKU, Transform::KU) => Orient::AKU,
            (Orient::AKU, Transform::KR) => Orient::AKR,
            (Orient::AKU, Transform::KL) => Orient::AKL,
            (Orient::AKU, Transform::FU) => Orient::AFU,
            (Orient::AKU, Transform::FR) => Orient::AFR,
            (Orient::AKU, Transform::FL) => Orient::AFL,
            (Orient::AKR, Transform::KU) => Orient::AKR,
            (Orient::AKR, Transform::KR) => Orient::AKL,
            (Orient::AKR, Transform::KL) => Orient::AKU,
            (Orient::AKR, Transform::FU) => Orient::AFL,
            (Orient::AKR, Transform::FR) => Orient::AFU,
            (Orient::AKR, Transform::FL) => Orient::AFR,
            (Orient::AKL, Transform::KU) => Orient::AKL,
            (Orient::AKL, Transform::KR) => Orient::AKU,
            (Orient::AKL, Transform::KL) => Orient::AKR,
            (Orient::AKL, Transform::FU) => Orient::AFR,
            (Orient::AKL, Transform::FR) => Orient::AFL,
            (Orient::AKL, Transform::FL) => Orient::AFU,
            (Orient::AFU, Transform::KU) => Orient::AFU,
            (Orient::AFU, Transform::KR) => Orient::AFR,
            (Orient::AFU, Transform::KL) => Orient::AFL,
            (Orient::AFU, Transform::FU) => Orient::AKU,
            (Orient::AFU, Transform::FR) => Orient::AKR,
            (Orient::AFU, Transform::FL) => Orient::AKL,
            (Orient::AFR, Transform::KU) => Orient::AFR,
            (Orient::AFR, Transform::KR) => Orient::AFL,
            (Orient::AFR, Transform::KL) => Orient::AFU,
            (Orient::AFR, Transform::FU) => Orient::AKL,
            (Orient::AFR, Transform::FR) => Orient::AKU,
            (Orient::AFR, Transform::FL) => Orient::AKR,
            (Orient::AFL, Transform::KU) => Orient::AFL,
            (Orient::AFL, Transform::KR) => Orient::AFU,
            (Orient::AFL, Transform::KL) => Orient::AFR,
            (Orient::AFL, Transform::FU) => Orient::AKR,
            (Orient::AFL, Transform::FR) => Orient::AKL,
            (Orient::AFL, Transform::FL) => Orient::AKU,
        }
    }

    /// `self += tf`.
    pub fn transform(&mut self, tf: Transform)
        ensures
            *final(self) == old(self).spec_transformed(tf),
    {
        *self = self.transformed(tf);
    }

    pub fn symmetries(self) -> (r: Symmetries)
        ensures
            r == self.spec_symmetries(),
    {
        match self {
            Orient::Iso => Symmetries::Isotropic,
            Orient::RtK | Orient::RtF => Symmetries::Rotational,
            Orient::RfU | Orient::RfR | Orient::RfL => Symmetries::Reflective,
            _ => Symmetries::Asymmetric,
        }
    }

    pub fn upright(self) -> (r: Self)
        ensures
            r == self.spec_upright(),
            r.spec_is_upright(),
            r.spec_symmetries() == self.spec_symmetries(),
    {
        Orient::from_symmetries(self.symmetries())
    }

    /// Whether flipping leaves this orientation unchanged.
    pub fn is_rfu(self) -> (r: bool)
        ensures
            r == (self is Iso || self is RfU),
            r == (self.spec_flip() == self),
    {
        match self {
            Orient::Iso | Orient::RfU => true,
            _ => false,
        }
    }

    pub fn is_upright(self) -> (r: bool)
        ensures
            r == self.spec_is_upright(),
            r == (self == self.spec_upright()),
    {
        match self {
            Orient::Iso | Orient::RtK | Orient::RfU | Orient::AKU => true,
            _ => false,
        }
    }

    /// This orientation after flipping (if `rhs` is a reflection) and then
    /// turning clockwise by the rotation of `rhs`, one third at a time.
    pub fn reorient(self, rhs: Transform) -> (r: Self)
        ensures
            r == self.spec_transformed(rhs),
    {
        let (flip, rot): (bool, u8) = match rhs {
            Transform::KU => (false, 0),
            Transform::KR => (false, 1),
            Transform::KL => (false, 2),
            Transform::FU => (true, 0),
            Transform::FR => (true, 1),
            Transform::FL => (true, 2),
        };
        let mut o = self;
        if flip {
            o = o.flip();
        }
        let ghost start = o;
        let mut i: u8 = 0;
        while i < rot
            invariant
                i <= rot,
                rot == rhs.spec_rotation().steps(),
                start == (if rhs.spec_reflected() { self.spec_flip() } else { self }),
                o == rot_cw_n(start, i as nat),
            decreases rot - i,
        {
            o = o.rot_cw();
            i += 1;
        }
        o
    }

    pub fn flip(self) -> (r: Self)
        ensures
            r == self.spec_flip(),
    {
        match self {
            Orient::Iso => Orient::Iso,
            Orient::RtK => Orient::RtF,
            Orient::RtF => Orient::RtK,
            Orient::RfU => Orient::RfU,
            Orient::RfR => Orient::RfL,
            Orient::RfL => Orient::RfR,
            Orient::AKU => Orient::AFU,
            Orient::AKR => Orient::AFL,
            Orient::AKL => Orient::AFR,
            Orient::AFU => Orient::AKU,
            Orient::AFR => Orient::AKL,
            Orient::AFL => Orient::AKR,
        }
    }

    pub fn rot_cw(self) -> (r: Self)
        ensures
            r == self.spec_rot_cw(),
    {
        match self {
            Orient::RfU => Orient::RfR,
            Orient::RfR => Orient::RfL,
            Orient::RfL => Orient::RfU,
            Orient::AKU => Orient::AKR,
            Orient::AKR => Orient::AKL,
            Orient::AKL => Orient::AKU,
            Orient::AFU => Orient::AFR,
            Orient::AFR => Orient::AFL,
            Orient::AFL => Orient::AFU,
            _ => self,
        }
    }

    /// The upright orientation of a symmetry class.
    pub fn from_symmetries(symmetries: Symmetries) -> (r: Self)
        ensures
            r == Orient::spec_from_symmetries(symmetries),
            r.spec_symmetries() == symmetries,
            r.spec_is_upright(),
    {
        match symmetries {
            Symmetries::Isotropic => Orient::Iso,
            Symmetries::Rotational => Orient::RtK,
            Symmetries::Reflective => Orient::RfU,
            Symmetries::Asymmetric => Orient::AKU,
        }
    }

    /// `self + rhs`.
    pub fn add(self, rhs: Transform) -> (r: Self)
        ensures
            r == self.spec_transformed(rhs),
    {
        self.transformed(rhs)
    }

    /// `self += rhs`.
    pub fn add_assign(&mut self, rhs: Transform)
        ensures
            *final(self) == old(self).spec_transformed(rhs),
    {
        self.transform(rhs)
    }

    /// `self - rhs`: this orientation after applying the inverse of `rhs`.
    pub fn sub(self, rhs: Transform) -> (r: Self)
        ensures
            r == self.spec_transformed(rhs.spec_neg()),
    {
        self.add(rhs.neg())
    }

    /// `self -= rhs`.
    pub fn sub_assign(&mut self, rhs: Transform)
        ensures
            *final(self) == old(self).spec_transformed(rhs.spec_neg()),
    {
        *self = self.sub(rhs);
    }
}

impl Transform {
    /// The six transforms.
    pub fn transforms() -> (r: [Transform; 6])
        ensures
            r@ == all_transforms(),
    {
        let r = [
            Transform::KU,
            Transform::KR,
            Transform::KL,
            Transform::FU,
            Transform::FR,
            Transform::FL,
        ];
        assert(r@ =~= all_transforms());
        r
    }

    pub open spec fn spec_reflected(self) -> bool {
        self is FU || self is FR || self is FL
    }

    pub open spec fn spec_rotation(self) -> Rotation {
        match self {
            Transform::KU | Transform::FU => Rotation::U,
            Transform::KR | Transform::FR => Rotation::R,
            Transform::KL | Transform::FL => Rotation::L,
        }
    }

    /// The transform that flips when `reflected` and then turns by `rotation`.
    pub open spec fn spec_from_parts(reflected: bool, rotation: Rotation) -> Transform {
        match (reflected, rotation) {
            (false, Rotation::U) => Transform::KU,
            (false, Rotation::R) => Transform::KR,
            (false, Rotation::L) => Transform::KL,
            (true, Rotation::U) => Transform::FU,
            (true, Rotation::R) => Transform::FR,
            (true, Rotation::L) => Transform::FL,
        }
    }

    /// Applying `self` and then `rhs`: a flip commutes past a turn by
    /// reversing the turn.
    pub open spec fn spec_add(self, rhs: Transform) -> Transform {
        let r1 = self.spec_rotation();
        Transform::spec_from_parts(
            self.spec_reflected() != rhs.spec_reflected(),
            (if rhs.spec_reflected() { r1.spec_neg() } else { r1 }).spec_add(rhs.spec_rotation()),
        )
    }

    pub open spec fn spec_neg(self) -> Transform {
        match self {
            Transform::KR => Transform::KL,
            Transform::KL => Transform::KR,
            _ => self,
        }
    }

    pub fn reflected(self) -> (r: bool)
        ensures
            r == self.spec_reflected(),
    {
        match self {
            Transform::KU | Transform::KR | Transform::KL => false,
            Transform::FU | Transform::FR | Transform::FL => true,
        }
    }

    pub fn rotation(self) -> (r: Rotation)
        ensures
            r == self.spec_rotation(),
    {
        match self {
            Transform::KU | Transform::FU => Rotation::U,
            Transform::KR | Transform::FR => Rotation::R,
            Transform::KL | Transform::FL => Rotation::L,
        }
    }

    /// `self + rhs`: the transform that applies `self`, then `rhs`.
    pub fn add(self, rhs: Self) -> (r: Self)
        ensures
            r == self.spec_add(rhs),
    {
        match (self, rhs) {
            (Transform::KU, _) => rhs,
            (Transform::KR, Transform::KU) => Transform::KR,
            (Transform::KR, Transform::KR) => Transform::KL,
            (Transform::KR, Transform::KL) => Transform::KU,
            (Transform::KR, Transform::FU) => Transform::FL,
            (Transform::KR, Transform::FR) => Transform::FU,
            (Transform::KR, Transform::FL) => Transform::FR,
            (Transform::KL, Transform::KU) => Transform::KL,
            (Transform::KL, Transform::KR) => Transform::KU,
            (Transform::KL, Transform::KL) => Transform::KR,
            (Transform::KL, Transform::FU) => Transform::FR,
            (Transform::KL, Transform::FR) => Transform::FL,
            (Transform::KL, Transform::FL) => Transform::FU,
            (Transform::FU, Transform::KU) => Transform::FU,
            (Transform::FU, Transform::KR) => Transform::FR,
            (Transform::FU, Transform::KL) => Transform::FL,
            (Transform::FU, Transform::FU) => Transform::KU,
            (Transform::FU, Transform::FR) => Transform::KR,
            (Transform::FU, Transform::FL) => Transform::KL,
            (Transform::FR, Transform::KU) => Transform::FR,
            (Transform::FR, Transform::KR) => Transform::FL,
            (Transform::FR, Transform::KL) => Transform::FU,
            (Transform::FR, Transform::FU) => Transform::KL,
            (Transform::FR, Transform::FR) => Transform::KU,
            (Transform::FR, Transform::FL) => Transform::KR,
            (Transform::FL, Transform::KU) => Transform::FL,
            (Transform::FL, Transform::KR) => Transform::FU,
            (Transform::FL, Transform::KL) => Transform::FR,
            (Transform::FL, Transform::FU) => Transform::KR,
            (Transform::FL, Transform::FR) => Transform::KL,
            (Transform::FL, Transform::FL) => Transform::KU,
        }
    }

    /// `self - rhs`.
    pub fn sub(self, rhs: Self) -> (r: Self)
        ensures
            r == self.spec_add(rhs.spec_neg()),
    {
        self.add(rhs.neg())
    }

    /// `self * rhs`: `rhs` conjugated by `self`, that is `-self + rhs + self`.
    pub fn mul(self, rhs: Self) -> (r: Self)
        ensures
            r == self.spec_neg().spec_add(rhs).spec_add(self),
    {
        self.neg().add(rhs).add(self)
    }

    /// `-self`: the inverse transform.
    pub fn neg(self) -> (r: Self)
        ensures
            r == self.spec_neg(),
            self.spec_add(r) == Transform::KU,
            r.spec_add(self) == Transform::KU,
    {
        match self {
            Transform::KU => Transform::KU,
            Transform::KR => Transform::KL,
            Transform::KL => Transform::KR,
            Transform::FU => Transform::FU,
            Transform::FR => Transform::FR,
            Transform::FL => Transform::FL,
        }
    }

    /// The transform that takes the upright orientation to `value`.
    pub fn from_orient(value: Orient) -> (r: Self)
        ensures
            r == value.spec_to_transform(),
    {
        match value {
            Orient::Iso | Orient::RtK | Orient::RfU | Orient::AKU => Transform::KU,
            Orient::RtF | Orient::AFU => Transform::FU,
            Orient::RfR | Orient::AKR => Transform::KR,
            Orient::RfL | Orient::AKL => Transform::KL,
            Orient::AFR => Transform::FR,
            Orient::AFL => Transform::FL,
        }
    }
}

/// Applying two transforms in turn to an orientation is applying their sum.
pub proof fn lemma_transformed_add(o: Orient, a: Transform, b: Transform)
    ensures
        o.spec_transformed(a).spec_transformed(b) == o.spec_transformed(a.spec_add(b)),
{
    reveal_with_fuel(rot_cw_n, 3);
}

/// The identity transform leaves every orientation unchanged.
pub proof fn lemma_transformed_identity(o: Orient)
    ensures
        o.spec_transformed(Transform::KU) == o,
{
    reveal_with_fuel(rot_cw_n, 1);
}

/// Transforms form a group: `KU` is neutral, every transform has an inverse,
/// and the sum is associative.
pub proof fn lemma_transform_group(a: Transform, b: Transform, c: Transform)
    ensures
        Transform::KU.spec_add(a) == a,
        a.spec_add(Transform::KU) == a,
        a.spec_add(a.spec_neg()) == Transform::KU,
        a.spec_neg().spec_add(a) == Transform::KU,
        a.spec_add(b).spec_add(c) == a.spec_add(b.spec_add(c)),
{
}

/// No transform changes the symmetry class of an orientation.
pub proof fn lemma_transformed_symmetries(o: Orient, t: Transform)
    ensures
        o.spec_transformed(t).spec_symmetries() == o.spec_symmetries(),
{
    reveal_with_fuel(rot_cw_n, 3);
}

/// A symmetry class is rotational exactly when a third of a turn leaves its
/// orientations unchanged, and reflective exactly when a flip leaves its
/// upright orientation unchanged.
pub proof fn lemma_symmetries_meaning(o: Orient)
    ensures
        o.spec_symmetries().spec_is_rotational() <==> o.spec_rot_cw() == o,
        o.spec_symmetries().spec_is_reflective() <==> o.spec_upright().spec_flip()
            == o.spec_upright(),
{
}

/// Every orientation is its upright orientation after its own transform, and
/// undoing that transform gives the upright orientation back.
pub proof fn lemma_upright_and_to_transform(o: Orient)
    ensures
        o.spec_upright().spec_transformed(o.spec_to_transform()) == o,
        o.spec_transformed(o.spec_to_transform().spec_neg()) == o.spec_upright(),
{
    reveal_with_fuel(rot_cw_n, 3);
}

/// Flipping twice, and turning three times, change nothing.
pub proof fn lemma_flip_and_rotate_cycles(o: Orient)
    ensures
        o.spec_flip().spec_flip() == o,
        o.spec_rot_cw().spec_rot_cw().spec_rot_cw() == o,
{
}

} // verus!
