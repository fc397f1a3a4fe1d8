use atlas_packer::geometry::{Rect, Size};

fn rect(left: u32, top: u32, width: u32, height: u32) -> Rect {
    Rect { left, top, size: Size { width, height } }
}

#[test]
fn zero_is_zero() {
    let z = Size::zero();
    assert_eq!(z.width, 0);
    assert_eq!(z.height, 0);
}

#[test]
fn fit_in_is_reflexive() {
    let a = Size { width: 7, height: 3 };
    assert!(a.fit_in(a));
}

#[test]
fn fit_in_smaller_fits_larger_does_not() {
    let small = Size { width: 4, height: 4 };
    let big = Size { width: 10, height: 5 };
    assert!(small.fit_in(big));
    assert!(!big.fit_in(small));
    // one dimension too large is enough to fail
    let wide = Size { width: 11, height: 1 };
    assert!(!wide.fit_in(big));
}

#[test]
fn fit_in_composes() {
    let a = Size { width: 2, height: 2 };
    let b = Size { width: 5, height: 3 };
    let c = Size { width: 9, height: 7 };
    assert!(a.fit_in(b));
    assert!(b.fit_in(c));
    assert!(a.fit_in(c));
}

#[test]
fn max_is_componentwise() {
    let a = Size { width: 7, height: 2 };
    let b = Size { width: 3, height: 9 };
    let m = a.max(b);
    assert_eq!(m.width, 7);
    assert_eq!(m.height, 9);
}

#[test]
fn area_is_exact() {
    let s = Size { width: 6, height: 4 };
    assert_eq!(s.area(), 24);
    let huge = Size { width: u32::MAX, height: u32::MAX };
    assert_eq!(huge.area(), (u32::MAX as u64) * (u32::MAX as u64));
}

#[test]
fn bound_size_is_bottom_right_extent() {
    let r = rect(2, 3, 4, 5);
    let c = r.bound_size();
    assert_eq!(c.width, 6);
    assert_eq!(c.height, 8);
}

#[test]
fn insert_full_width_shrinks_below() {
    let mut space = rect(0, 0, 10, 10);
    let got = space.insert(Size { width: 10, height: 4 });
    let (placed, leftover) = got.expect("must fit");
    assert_eq!(placed, rect(0, 0, 10, 4));
    assert!(leftover.is_none());
    assert_eq!(space, rect(0, 4, 10, 6));
}

#[test]
fn insert_full_height_shrinks_right() {
    let mut space = rect(0, 0, 10, 10);
    let got = space.insert(Size { width: 4, height: 10 });
    let (placed, leftover) = got.expect("must fit");
    assert_eq!(placed, rect(0, 0, 4, 10));
    assert!(leftover.is_none());
    assert_eq!(space, rect(4, 0, 6, 10));
}

#[test]
fn insert_general_case_splits_off_side_strip() {
    let mut space = rect(0, 0, 10, 10);
    let got = space.insert(Size { width: 6, height: 4 });
    let (placed, leftover) = got.expect("must fit");
    assert_eq!(placed, rect(0, 0, 6, 4));
    assert_eq!(leftover.expect("general split leaves a strip"), rect(6, 0, 4, 4));
    assert_eq!(space, rect(0, 4, 10, 6));
}

#[test]
fn insert_exact_fit_leaves_zero_height_space() {
    let mut space = rect(0, 0, 10, 10);
    let got = space.insert(Size { width: 10, height: 10 });
    let (placed, leftover) = got.expect("must fit");
    assert_eq!(placed, rect(0, 0, 10, 10));
    assert!(leftover.is_none());
    assert_eq!(space, rect(0, 10, 10, 0));
}

#[test]
fn insert_no_fit_leaves_space_untouched() {
    let mut space = rect(0, 0, 5, 5);
    let got = space.insert(Size { width: 10, height: 10 });
    assert!(got.is_none());
    assert_eq!(space, rect(0, 0, 5, 5));
}

#[test]
fn split_conserves_area() {
    let mut space = rect(0, 0, 10, 10);
    let original_area = space.size.area();
    let (placed, leftover) = space.insert(Size { width: 6, height: 4 }).expect("must fit");
    let pieces = placed.size.area()
        + leftover.map(|l| l.size.area()).unwrap_or(0)
        + space.size.area();
    assert_eq!(pieces, original_area);
    assert_eq!(placed.size.area(), 24);
}
