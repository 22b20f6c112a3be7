use kiss_conformance::structural::{Combine, Monoid};
use kiss_conformance::DeterminismClass;

#[test]
fn class_dispatch_matches_spec() {
    assert_eq!(Monoid::Max.class_f32(), DeterminismClass::ExactByte);
    assert_eq!(Monoid::Min.class_f32(), DeterminismClass::ExactByte);
    assert_eq!(Monoid::Sum.class_f32(), DeterminismClass::OrderInvariant);
    assert_eq!(Monoid::Prod.class_f32(), DeterminismClass::OrderInvariant);
    assert_eq!(Combine::AtomicAdd.class_f32(), DeterminismClass::OrderInvariant);
    assert_eq!(Combine::Assign.class_f32(), DeterminismClass::ExactByte);
    assert_eq!(Combine::AtomicMax.class_f32(), DeterminismClass::ExactByte);
    assert_eq!(Combine::AtomicMin.class_f32(), DeterminismClass::ExactByte);
}
