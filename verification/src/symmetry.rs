//! Which transforms leave a quad unchanged, and how `reorient` finds out.
use vstd::prelude::*;
use crate::orientation::{Orient, Symmetries, Transform, lemma_transform_group, lemma_upright_and_to_transform,
    lemma_transformed_symmetries, lemma_transformed_add};
use crate::tile::{Quad, Tile, lemma_quad_add_add};

verus! {

/// Whether a symmetry class is left unchanged by a transform.
pub open spec fn in_stab(s: Symmetries, t: Transform) -> bool {
    match s {
        Symmetries::Isotropic => true,
        Symmetries::Rotational => !t.spec_reflected(),
        Symmetries::Reflective => t is KU || t is FU,
        Symmetries::Asymmetric => t is KU,
    }
}

/// The transforms that leave `q` unchanged are exactly those of the class.
pub open spec fn stab_exact(q: Quad<Tile>, s: Symmetries) -> bool {
    forall|t: Transform| #![trigger q.spec_transformed(t)] (q.spec_transformed(t) == q) <==> in_stab(s, t)
}

/// The transforms by which `cache` records a quad of a class: one for each
/// distinct transformed quad.
pub open spec fn cache_transforms(s: Symmetries) -> Seq<Transform> {
    match s {
        Symmetries::Isotropic => seq![Transform::KU],
        Symmetries::Rotational => seq![Transform::KU, Transform::FU],
        Symmetries::Reflective => seq![Transform::KU, Transform::KR, Transform::KL],
        Symmetries::Asymmetric => seq![
            Transform::KU,
            Transform::KR,
            Transform::KL,
            Transform::FU,
            Transform::FR,
            Transform::FL,
        ],
    }
}

/// Two transforms give the same quad exactly when one undoes to the other
/// by a transform that leaves the quad unchanged.
pub proof fn lemma_same_transformed(q: Quad<Tile>, a: Transform, b: Transform)
    ensures
        (q.spec_transformed(a) == q.spec_transformed(b)) <==> (q.spec_transformed(
            a.spec_add(b.spec_neg()),
        ) == q),
{
    lemma_quad_add_add(q, a, b.spec_neg());
    lemma_quad_add_add(q, b, b.spec_neg());
    lemma_quad_add_add(q.spec_transformed(a.spec_add(b.spec_neg())), b, Transform::KU);
    lemma_quad_add_add(q, a.spec_add(b.spec_neg()), b);
    lemma_transform_group(a, b.spec_neg(), b);
    lemma_transform_group(b, b, b);
    lemma_transform_group(a, a, a);
    lemma_quad_add_add(q, Transform::KU, Transform::KU);
}

/// The position in `cache_transforms(s)` of the transform that gives the
/// same quad as `t`, for a quad of class `s`.
pub open spec fn cache_index(s: Symmetries, t: Transform) -> int {
    match s {
        Symmetries::Isotropic => 0,
        Symmetries::Rotational => if t.spec_reflected() {
            1
        } else {
            0
        },
        Symmetries::Reflective => match t {
            Transform::KU | Transform::FU => 0,
            Transform::KR | Transform::FR => 1,
            _ => 2,
        },
        Symmetries::Asymmetric => match t {
            Transform::KU => 0,
            Transform::KR => 1,
            Transform::KL => 2,
            Transform::FU => 3,
            Transform::FR => 4,
            Transform::FL => 5,
        },
    }
}

/// The recorded transforms give pairwise distinct quads, and every transform
/// of the quad is one of them.
pub proof fn lemma_cache_transforms(q: Quad<Tile>, s: Symmetries)
    requires
        stab_exact(q, s),
    ensures
        forall|i: int, j: int|
            0 <= i < j < cache_transforms(s).len() ==> q.spec_transformed(cache_transforms(s)[i])
                != q.spec_transformed(cache_transforms(s)[j]),
        forall|t: Transform|
            #![trigger cache_index(s, t)]
            0 <= cache_index(s, t) < cache_transforms(s).len() && q.spec_transformed(t)
                == q.spec_transformed(cache_transforms(s)[cache_index(s, t)]),
{
    let ts = cache_transforms(s);
    assert forall|i: int, j: int| 0 <= i < j < ts.len() implies q.spec_transformed(ts[i])
        != q.spec_transformed(ts[j]) by {
        lemma_same_transformed(q, ts[i], ts[j]);
        assert(q.spec_transformed(ts[i].spec_add(ts[j].spec_neg())) == q <==> in_stab(
            s,
            ts[i].spec_add(ts[j].spec_neg()),
        ));
    }
    assert forall|t: Transform|
        #![trigger cache_index(s, t)]
        0 <= cache_index(s, t) < ts.len() && q.spec_transformed(t) == q.spec_transformed(
            ts[cache_index(s, t)],
        ) by {
        let i = cache_index(s, t);
        lemma_same_transformed(q, t, ts[i]);
        assert(q.spec_transformed(t.spec_add(ts[i].spec_neg())) == q <==> in_stab(
            s,
            t.spec_add(ts[i].spec_neg()),
        ));
    }
}

/// A tile of an upright orientation transformed by `t` denotes the same quad
/// as the quad transformed by `t`, when the quad has exactly the symmetries of
/// the orientation.
pub proof fn lemma_upright_tile_denotes(q: Quad<Tile>, u: Orient, t: Transform)
    requires
        u.spec_is_upright(),
        stab_exact(q, u.spec_symmetries()),
    ensures
        q.spec_transformed(u.spec_transformed(t).spec_to_transform()) == q.spec_transformed(t),
        u.spec_transformed(t).spec_symmetries() == u.spec_symmetries(),
{
    reveal_with_fuel(crate::orientation::rot_cw_n, 3);
    let o = u.spec_transformed(t);
    lemma_transformed_symmetries(u, t);
    lemma_same_transformed(q, o.spec_to_transform(), t);
    assert(in_stab(u.spec_symmetries(), o.spec_to_transform().spec_add(t.spec_neg())));
}

/// Reorienting a quad leaves it with exactly the symmetries of the returned
/// orientation.
pub proof fn lemma_reorient_stab(q: Quad<Tile>)
    ensures
        stab_exact(q.spec_reorient().0, q.spec_reorient().1.spec_symmetries()),
{
    let q1 = q.spec_transformed(Transform::KR);
    let q2 = q1.spec_transformed(Transform::KR);
    let (r, o) = q.spec_reorient();
    // facts that relate the quads reached by turning
    lemma_quad_add_add(q, Transform::KR, Transform::KR);
    lemma_quad_add_add(q1, Transform::KR, Transform::KR);
    lemma_quad_add_add(q, Transform::KL, Transform::KR);
    lemma_quad_add_add(q, Transform::KR, Transform::KL);
    lemma_quad_add_add(q, Transform::KU, Transform::KU);
    assert forall|t: Transform| #![trigger r.spec_transformed(t)] (r.spec_transformed(t) == r)
        <==> in_stab(o.spec_symmetries(), t) by {
        // every transform fixing `r` is composed from the generators
        lemma_generated(r, t);
        lemma_same_transformed(q, Transform::KR, Transform::KU);
        lemma_same_transformed(q1, Transform::KR, Transform::KU);
        lemma_same_transformed(q2, Transform::KR, Transform::KU);
        lemma_conj(q, t);
        lemma_conj(q1, t);
        lemma_conj(q2, t);
    }
}

/// How the fixed transforms of a quad relate to those of its turned copy.
proof fn lemma_conj(q: Quad<Tile>, t: Transform)
    ensures
        (q.spec_transformed(Transform::KR).spec_transformed(t) == q.spec_transformed(Transform::KR))
            <==> (q.spec_transformed(Transform::KR.spec_add(t).spec_add(Transform::KL)) == q),
{
    let k = Transform::KR;
    lemma_quad_add_add(q, k, t);
    lemma_same_transformed(q, k.spec_add(t), k);
    lemma_transform_group(k, t, k);
    assert(k.spec_neg() == Transform::KL);
}

/// A quad is fixed by `t` exactly as the generators `FU` and `KR` decide.
proof fn lemma_generated(r: Quad<Tile>, t: Transform)
    ensures
        (r.spec_transformed(Transform::FU) == r && r.spec_transformed(Transform::KR) == r) ==> r.spec_transformed(t) == r,
        r.spec_transformed(Transform::KR) == r ==> (r.spec_transformed(Transform::KL) == r),
        (r.spec_transformed(Transform::KR) == r && r.spec_transformed(t) == r && t.spec_reflected())
            ==> r.spec_transformed(Transform::FU) == r,
        r.spec_transformed(Transform::KL) == r ==> r.spec_transformed(Transform::KR) == r,
        (r.spec_transformed(Transform::FU) == r && r.spec_transformed(t) == r && !(t is KU) && !(t is FU))
            ==> r.spec_transformed(Transform::KR) == r,
{
    lemma_quad_add_add(r, Transform::KR, Transform::KR);
    lemma_quad_add_add(r, Transform::FU, Transform::KR);
    lemma_quad_add_add(r, Transform::FU, Transform::KL);
    lemma_quad_add_add(r, Transform::KL, Transform::KL);
    lemma_quad_add_add(r, t, Transform::FU);
    lemma_quad_add_add(r, t, Transform::KR);
    lemma_quad_add_add(r, t, Transform::KL);
    lemma_quad_add_add(r, t, t);
    lemma_quad_add_add(r, Transform::FU, Transform::FU);
    lemma_quad_add_add(r, t.spec_add(Transform::FU), Transform::KL);
    lemma_quad_add_add(r, t.spec_add(Transform::FU), t.spec_add(Transform::FU));
    lemma_quad_add_add(r, t.spec_add(Transform::KR), Transform::FU);
}

} // verus!
