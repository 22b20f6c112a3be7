use kiss_conformance::determinism::{
    atom_determinism_class, check_advertisement, class_permissiveness, is_selection_producer,
    op_true_class, EXACT_BYTE_ATOMS, TRANSCENDENTAL_ATOMS,
};
use kiss_conformance::structural::Monoid;
use kiss_conformance::DeterminismClass;
use kiss_conformance::DeterminismClass::{ExactByte, OrderInvariant, UlpTolerance};

#[test]
fn atom_class_is_some_for_atoms_none_for_folds() {
    assert_eq!(atom_determinism_class("add"), Some(DeterminismClass::ExactByte));
    assert_eq!(atom_determinism_class("exp"), Some(DeterminismClass::UlpTolerance));
    assert_eq!(atom_determinism_class("reduce"), None);
    assert_eq!(atom_determinism_class("not_an_op"), None);
}

#[test]
fn op_true_class_covers_atoms_and_folds() {
    assert_eq!(op_true_class("add", None), Some(DeterminismClass::ExactByte));
    assert_eq!(op_true_class("reduce", Some(Monoid::Sum)), Some(DeterminismClass::OrderInvariant));
    assert_eq!(op_true_class("reduce", Some(Monoid::Prod)), Some(DeterminismClass::OrderInvariant));
    assert_eq!(op_true_class("reduce", Some(Monoid::Max)), Some(DeterminismClass::ExactByte));
    assert_eq!(op_true_class("reduce", Some(Monoid::Min)), Some(DeterminismClass::ExactByte));
    assert_eq!(op_true_class("reduce", None), None);
}

#[test]
fn honesty_rejects_only_too_permissive() {
    assert!(class_permissiveness(ExactByte) < class_permissiveness(UlpTolerance));
    assert!(class_permissiveness(UlpTolerance) < class_permissiveness(OrderInvariant));
    assert_eq!(check_advertisement(OrderInvariant, OrderInvariant), Ok(OrderInvariant));
    assert!(check_advertisement(OrderInvariant, ExactByte).is_err());
    assert_eq!(check_advertisement(ExactByte, OrderInvariant), Ok(ExactByte));
}

#[test]
fn atan2_is_a_transcendental_never_exact_byte() {
    assert_eq!(atom_determinism_class("atan2"), Some(DeterminismClass::UlpTolerance));
    assert_eq!(op_true_class("atan2", Some(Monoid::Max)), Some(DeterminismClass::UlpTolerance));
    assert_eq!(EXACT_BYTE_ATOMS.len(), 39);
    assert_eq!(TRANSCENDENTAL_ATOMS.len(), 9);
    for t in TRANSCENDENTAL_ATOMS {
        assert!(!EXACT_BYTE_ATOMS.contains(&t));
    }
}

#[test]
fn prefix_scan_is_classed_by_its_monoid() {
    assert_eq!(op_true_class("prefix_scan", Some(Monoid::Sum)), Some(DeterminismClass::OrderInvariant));
    assert_eq!(op_true_class("prefix_scan", Some(Monoid::Min)), Some(DeterminismClass::ExactByte));
    assert_eq!(op_true_class("prefix_scan", None), None);
    assert_eq!(op_true_class("matmul", Some(Monoid::Sum)), None);
}

#[test]
fn dishonest_advertisement_message_names_both_classes() {
    assert_eq!(
        check_advertisement(DeterminismClass::UlpTolerance, DeterminismClass::ExactByte),
        Err("dishonest advertisement: UlpTolerance is more permissive than the true class ExactByte (§6.0-0005) — its comparator could not catch a real error".to_string())
    );
}

#[test]
fn only_comparisons_produce_selections() {
    for op in ["cmp_eq", "cmp_ne", "cmp_lt", "cmp_le", "cmp_gt", "cmp_ge"] {
        assert!(is_selection_producer(op));
    }
    for op in ["add", "exp", "select", "reduce", ""] {
        assert!(!is_selection_producer(op));
    }
}
