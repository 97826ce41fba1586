use fastblur::planner::{create_box_gauss, Sigma};

#[test]
fn plan_sigma_ten_gives_three_equal_widths() {
    // Ideal width sqrt(12 * 100 / 3) + 1 = 21; the mixing count rounds to 4,
    // which is at least 3, so every pass uses the lower width.
    let sizes = create_box_gauss(Sigma::from_int(10), 3);
    assert_eq!(sizes, vec![21, 21, 21]);
    for wd in sizes {
        assert_eq!((wd - 1) / 2, 10);
    }
}

#[test]
fn plan_sigma_zero_gives_unit_widths() {
    let sizes = create_box_gauss(Sigma::from_int(0), 3);
    assert_eq!(sizes, vec![1, 1, 1]);
    for wd in sizes {
        assert!(wd <= 1);
        assert_eq!((wd - 1) / 2, 0);
    }
}

#[test]
fn plan_sigma_two_gives_width_five() {
    let sizes = create_box_gauss(Sigma::from_int(2), 3);
    assert_eq!(sizes, vec![5, 5, 5]);
}

#[test]
fn plan_fractional_sigma_mixes_widths() {
    // sigma = 19/5 = 3.8: lower width 7, upper width 9, mixing count 2.
    let sizes = create_box_gauss(Sigma::new(19, 5), 3);
    assert_eq!(sizes, vec![7, 7, 9]);
}

#[test]
fn plan_widths_are_odd_and_ordered() {
    for num in 0..40u64 {
        let sizes = create_box_gauss(Sigma::new(num, 3), 3);
        assert_eq!(sizes.len(), 3);
        for i in 0..3 {
            assert_eq!(sizes[i] % 2, 1);
            assert!(sizes[i] >= 1);
            if i > 0 {
                assert!(sizes[i - 1] <= sizes[i]);
            }
        }
    }
}

#[test]
fn plan_is_deterministic() {
    let a = create_box_gauss(Sigma::new(7, 2), 3);
    let b = create_box_gauss(Sigma::new(7, 2), 3);
    assert_eq!(a, b);
}
