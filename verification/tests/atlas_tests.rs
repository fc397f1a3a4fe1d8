use atlas_packer::atlas::{Atlas, AtlasBuilder};
use atlas_packer::geometry::{Rect, Size};

fn size(width: u32, height: u32) -> Size {
    Size { width, height }
}

fn rect(left: u32, top: u32, width: u32, height: u32) -> Rect {
    Rect { left, top, size: Size { width, height } }
}

fn placement(atlas: &Atlas, name: &str) -> Option<Rect> {
    atlas.textures.iter().find(|(n, _)| n == name).map(|(_, r)| *r)
}

#[test]
fn exact_fit_single_image() {
    let mut builder = AtlasBuilder::new(10, 10);
    let ok = builder.build(vec![("img".to_string(), size(10, 10))]);
    assert!(ok.is_some());
    let atlas = builder.get_map();
    assert_eq!(atlas.size, size(10, 10));
    assert_eq!(atlas.textures.len(), 1);
    assert_eq!(placement(&atlas, "img"), Some(rect(0, 0, 10, 10)));
}

#[test]
fn capacity_overflow_leaves_map_empty() {
    let mut builder = AtlasBuilder::new(5, 5);
    let ok = builder.build(vec![("big".to_string(), size(10, 10))]);
    assert!(ok.is_none());
    let atlas = builder.get_map();
    assert!(atlas.textures.is_empty());
    assert_eq!(atlas.size, size(0, 0));
}

#[test]
fn shelf_split_places_second_image_in_side_strip() {
    let mut builder = AtlasBuilder::new(10, 10);
    let ok = builder.build(vec![
        ("a".to_string(), size(6, 4)),
        ("b".to_string(), size(4, 4)),
    ]);
    assert!(ok.is_some());
    let atlas = builder.get_map();
    assert_eq!(placement(&atlas, "a"), Some(rect(0, 0, 6, 4)));
    assert_eq!(placement(&atlas, "b"), Some(rect(6, 0, 4, 4)));
    assert_eq!(atlas.size, size(10, 4));
}

#[test]
fn equal_areas_keep_input_order() {
    let mut first = AtlasBuilder::new(20, 10);
    assert!(first
        .build(vec![
            ("a".to_string(), size(10, 10)),
            ("b".to_string(), size(10, 10)),
        ])
        .is_some());
    let atlas_ab = first.get_map();
    assert_eq!(placement(&atlas_ab, "a"), Some(rect(0, 0, 10, 10)));
    assert_eq!(placement(&atlas_ab, "b"), Some(rect(10, 0, 10, 10)));

    let mut second = AtlasBuilder::new(20, 10);
    assert!(second
        .build(vec![
            ("b".to_string(), size(10, 10)),
            ("a".to_string(), size(10, 10)),
        ])
        .is_some());
    let atlas_ba = second.get_map();
    assert_eq!(placement(&atlas_ba, "b"), Some(rect(0, 0, 10, 10)));
    assert_eq!(placement(&atlas_ba, "a"), Some(rect(10, 0, 10, 10)));
}

#[test]
fn larger_area_is_packed_first() {
    let mut builder = AtlasBuilder::new(10, 10);
    let ok = builder.build(vec![
        ("small".to_string(), size(2, 2)),
        ("big".to_string(), size(8, 8)),
    ]);
    assert!(ok.is_some());
    let atlas = builder.get_map();
    assert_eq!(placement(&atlas, "big"), Some(rect(0, 0, 8, 8)));
    // the side strip {8,0,2,8} is the most recent free rectangle, so the
    // small image lands there rather than in the strip below
    assert_eq!(placement(&atlas, "small"), Some(rect(8, 0, 2, 2)));
    assert_eq!(atlas.size, size(10, 8));
}

#[test]
fn duplicate_identifier_last_write_wins() {
    let mut builder = AtlasBuilder::new(10, 10);
    assert!(builder.add_rect("x".to_string(), size(2, 2)).is_some());
    assert!(builder.add_rect("x".to_string(), size(2, 2)).is_some());
    let atlas = builder.get_map();
    assert_eq!(atlas.textures.len(), 1);
    // the second placement went into the side strip left by the first
    assert_eq!(placement(&atlas, "x"), Some(rect(2, 0, 2, 2)));
}

#[test]
fn failure_keeps_successful_prefix() {
    // "big" has the larger area, so it is placed first and succeeds; the
    // wide strip no longer fits anywhere afterwards and stops the build
    let mut builder = AtlasBuilder::new(10, 10);
    let ok = builder.build(vec![
        ("big".to_string(), size(9, 9)),
        ("wide".to_string(), size(10, 2)),
    ]);
    assert!(ok.is_none());
    let atlas = builder.get_map();
    assert_eq!(placement(&atlas, "big"), Some(rect(0, 0, 9, 9)));
    assert_eq!(placement(&atlas, "wide"), None);
}

#[test]
fn mixed_areas_sort_then_pack() {
    // equal-area "a" and "c" keep their input order ahead of the smaller "b"
    let mut builder = AtlasBuilder::new(30, 10);
    let ok = builder.build(vec![
        ("a".to_string(), size(10, 10)),
        ("b".to_string(), size(5, 2)),
        ("c".to_string(), size(10, 10)),
    ]);
    assert!(ok.is_some());
    let atlas = builder.get_map();
    assert_eq!(placement(&atlas, "a"), Some(rect(0, 0, 10, 10)));
    assert_eq!(placement(&atlas, "c"), Some(rect(10, 0, 10, 10)));
    assert_eq!(placement(&atlas, "b"), Some(rect(20, 0, 5, 2)));
    assert_eq!(atlas.size, size(25, 10));
}

#[test]
fn min_bounding_rect_is_zero_when_empty() {
    let builder = AtlasBuilder::new(64, 64);
    assert_eq!(builder.min_bounding_rect(), size(0, 0));
}

#[test]
fn min_bounding_rect_is_repeatable() {
    let mut builder = AtlasBuilder::new(10, 10);
    assert!(builder.build(vec![("a".to_string(), size(3, 7))]).is_some());
    let once = builder.min_bounding_rect();
    let twice = builder.min_bounding_rect();
    assert_eq!(once, twice);
    assert_eq!(once, size(3, 7));
}

#[test]
fn placements_never_overlap() {
    let mut builder = AtlasBuilder::new(16, 16);
    let ok = builder.build(vec![
        ("a".to_string(), size(8, 8)),
        ("b".to_string(), size(8, 8)),
        ("c".to_string(), size(8, 8)),
        ("d".to_string(), size(8, 8)),
    ]);
    assert!(ok.is_some());
    let atlas = builder.get_map();
    let rects: Vec<Rect> = atlas.textures.iter().map(|(_, r)| *r).collect();
    assert_eq!(rects.len(), 4);
    for i in 0..rects.len() {
        for j in 0..rects.len() {
            if i != j {
                let a = rects[i];
                let b = rects[j];
                let apart = a.left + a.size.width <= b.left
                    || b.left + b.size.width <= a.left
                    || a.top + a.size.height <= b.top
                    || b.top + b.size.height <= a.top;
                assert!(apart, "placements {i} and {j} overlap");
            }
        }
    }
}

#[test]
fn placements_stay_within_atlas_size() {
    let mut builder = AtlasBuilder::new(16, 16);
    let ok = builder.build(vec![
        ("a".to_string(), size(5, 9)),
        ("b".to_string(), size(7, 3)),
        ("c".to_string(), size(2, 2)),
    ]);
    assert!(ok.is_some());
    let atlas = builder.get_map();
    for (_, r) in atlas.textures.iter() {
        assert!(r.left + r.size.width <= atlas.size.width);
        assert!(r.top + r.size.height <= atlas.size.height);
    }
}
