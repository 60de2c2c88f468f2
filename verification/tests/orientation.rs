use fractory::orientation::{Orient, Symmetries, Transform};

#[test]
fn test_reorient_table() {
    for a in Orient::orientations() {
        for b in Transform::transforms() {
            let result = a.reorient(b);
            assert_eq!(result, a.add(b));
        }
    }
}

#[test]
fn test_neg_table() {
    for a in Orient::orientations() {
        assert_eq!(a.upright(), a.sub(a.to_transform()));
    }
}

#[test]
fn transforms_form_a_group() {
    let all = Transform::transforms();
    for a in all {
        assert_eq!(Transform::KU.add(a), a);
        assert_eq!(a.add(Transform::KU), a);
        assert_eq!(a.add(a.neg()), Transform::KU);
        for b in all {
            for c in all {
                assert_eq!(a.add(b).add(c), a.add(b.add(c)));
            }
        }
    }
}

#[test]
fn adding_transforms_to_orientations_composes() {
    for o in Orient::orientations() {
        for a in Transform::transforms() {
            for b in Transform::transforms() {
                assert_eq!(o.add(a).add(b), o.add(a.add(b)));
            }
        }
        assert_eq!(o.add(Transform::KU), o);
    }
}

#[test]
fn symmetries_of_orientations() {
    assert_eq!(Orient::Iso.symmetries(), Symmetries::Isotropic);
    assert_eq!(Orient::RtF.symmetries(), Symmetries::Rotational);
    assert_eq!(Orient::RfL.symmetries(), Symmetries::Reflective);
    assert_eq!(Orient::AFR.symmetries(), Symmetries::Asymmetric);
    assert!(Symmetries::Isotropic.is_reflective() && Symmetries::Isotropic.is_rotational());
    assert!(!Symmetries::Asymmetric.is_reflective() && !Symmetries::Asymmetric.is_rotational());
    assert_eq!(Symmetries::new(true, true), Symmetries::Isotropic);
    assert_eq!(Symmetries::new(false, false), Symmetries::Asymmetric);
    for o in Orient::orientations() {
        assert_eq!(o.upright().symmetries(), o.symmetries());
        assert!(o.upright().is_upright());
        assert_eq!(o.flip().flip(), o);
        assert_eq!(o.rot_cw().rot_cw().rot_cw(), o);
    }
}

#[test]
fn exact_sums_of_transforms() {
    assert_eq!(Transform::KR.add(Transform::KR), Transform::KL);
    assert_eq!(Transform::FU.add(Transform::KR), Transform::FR);
    assert_eq!(Transform::KR.add(Transform::FU), Transform::FL);
    assert_eq!(Transform::KR.neg(), Transform::KL);
    assert_eq!(Orient::AKU.add(Transform::KR), Orient::AKR);
    assert_eq!(Orient::RfU.add(Transform::FU), Orient::RfU);
}
