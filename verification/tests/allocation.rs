//! Allocation within the budget.

use phaios_core::allocation::{
    check_shape, image_from_samples, zeros2, zeros3, MAX_ALLOCATION_BYTES,
};
use phaios_core::error::PhaiosError;

#[test]
fn ordinary_shapes_are_allocated() {
    let a = zeros3((4, 5, 3)).unwrap();
    assert_eq!(a.dim(), (4, 5, 3));
    for y in 0..4 {
        for x in 0..5 {
            for k in 0..3 {
                assert_eq!(f32::from_bits(a.get(y, x, k).unwrap()), 0.0);
            }
        }
    }
    assert_eq!(zeros3((0, 5, 3)).unwrap().dim(), (0, 5, 3));
}

#[test]
fn a_24_megapixel_frame_is_comfortably_inside_the_budget() {
    // The benchmark size, three channels: this must never be the thing the
    // limit catches.
    let n: u64 = 4323 * 5764 * 3;
    assert!(n * (std::mem::size_of::<f32>() as u64) < MAX_ALLOCATION_BYTES / 20);
}

#[test]
fn an_oversized_shape_is_refused_rather_than_attempted() {
    let err = zeros3((100_000, 100_000, 3)).unwrap_err();
    assert!(matches!(err, PhaiosError::Allocation(_)));
    assert!(err.to_string().contains("above the"), "{}", err.to_string());
}

#[test]
fn an_overflowing_shape_is_refused() {
    let err = zeros3((usize::MAX, 2, 2)).unwrap_err();
    assert!(matches!(err, PhaiosError::Allocation(_)));
}

#[test]
fn the_budget_accounts_for_element_size() {
    // The same element count is inside the budget as u16 and outside it as
    // f64: the limit is bytes, not elements.
    let n = (3usize << 30) / 2;
    assert!(check_shape::<u16>((n, 1, 1)).is_ok());
    assert!(matches!(
        check_shape::<f64>((n, 1, 1)).unwrap_err(),
        PhaiosError::Allocation(_)
    ));
}

#[test]
fn check_shape_agrees_with_the_allocating_form() {
    for shape in [(4, 5, 3), (100_000, 100_000, 3), (usize::MAX, 2, 2)] {
        assert_eq!(
            check_shape::<f32>(shape).is_err(),
            zeros3(shape).is_err(),
            "disagreement on {shape:?}"
        );
    }
}

#[test]
fn a_table_is_allocated_within_the_same_budget() {
    let t = zeros2((3, 2)).unwrap();
    assert_eq!(t.dim(), (3, 2));
    assert_eq!(t.get(2, 1), Some(0));
    assert_eq!(t.get(3, 0), None);
    assert!(matches!(
        zeros2((1_000_000, 1_000_000)).unwrap_err(),
        PhaiosError::Allocation(_)
    ));
}

#[test]
fn samples_have_to_fill_their_shape() {
    let img = image_from_samples((1, 2, 1), vec![7, 9]).unwrap();
    assert_eq!((img.get(0, 0, 0), img.get(0, 1, 0)), (Some(7), Some(9)));
    for samples in [vec![], vec![1], vec![1, 2, 3]] {
        let err = image_from_samples((1, 2, 1), samples).unwrap_err();
        assert!(matches!(err, PhaiosError::Shape(_)));
    }
    assert!(image_from_samples((0, usize::MAX, usize::MAX), Vec::new()).is_err());
    assert_eq!(image_from_samples((0, 7, 3), Vec::new()).unwrap().dim(), (0, 7, 3));
}
