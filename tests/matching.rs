use gamebot::color::{
    channel_threshold, ColorPoint, ColorPointGroup, ColorPointGroupIn, Image, ImageIn, Tolerance,
};
use gamebot::geometry::{fullscreen_region, Point, Rect, Region};
use gamebot::screenshot::Screenshot;

fn frame(width: u32, height: u32, rgb: (u8, u8, u8)) -> Screenshot {
    let mut data = Vec::new();
    for _ in 0..width * height {
        data.push(rgb.0);
        data.push(rgb.1);
        data.push(rgb.2);
        data.push(255);
    }
    Screenshot::new(width, height, data, 0).unwrap()
}

fn paint(s: &mut Screenshot, x: u32, y: u32, rgba: (u8, u8, u8, u8)) {
    let i = ((y * s.width + x) * 4) as usize;
    s.data[i] = rgba.0;
    s.data[i + 1] = rgba.1;
    s.data[i + 2] = rgba.2;
    s.data[i + 3] = rgba.3;
}

fn cp(x: u32, y: u32, rgb: (u8, u8, u8)) -> ColorPoint {
    ColorPoint::new(x, y, rgb.0, rgb.1, rgb.2)
}

#[test]
fn lib_it_works() {
    let result = gamebot::add(2, 2);
    assert_eq!(result, 4);
}

#[test]
fn group_in_finds_shifted_anchor_only() {
    let mut s = frame(100, 100, (255, 255, 255));
    paint(&mut s, 15, 15, (0, 0, 0, 255));
    let g = ColorPointGroupIn {
        group: vec![cp(0, 0, (255, 255, 255)), cp(10, 10, (0, 0, 0))],
        tolerance: 0,
        region: Region::new(0, 0, 100, 100),
    };
    assert_eq!(s.find_all_color_point_group_in(&g, usize::MAX), vec![Point::new(5, 5)]);
    assert_eq!(s.find_color_point_group_in(&g), Some(Point::new(5, 5)));
}

#[test]
fn color_point_is_exact_and_ignores_alpha() {
    let mut s = frame(4, 4, (10, 20, 30));
    paint(&mut s, 2, 1, (10, 20, 30, 0));
    assert_eq!(s.find_color_point(&cp(2, 1, (10, 20, 30))), Some(Point::new(2, 1)));
    assert_eq!(s.find_color_point(&cp(2, 1, (10, 20, 31))), None);
    assert_eq!(s.find_color_point(&cp(2, 1, (11, 20, 30))), None);
    assert_eq!(s.find_color_point(&cp(4, 1, (10, 20, 30))), None);
    assert_eq!(s.find_color_point(&cp(1, 4, (10, 20, 30))), None);
}

#[test]
fn group_tolerance_only_widens() {
    let s = frame(8, 8, (100, 100, 100));
    let members = vec![cp(3, 4, (110, 100, 100)), cp(1, 1, (100, 95, 100))];
    let strict = ColorPointGroup { group: members.clone(), tolerance: 0 };
    let loose = ColorPointGroup { group: members.clone(), tolerance: 50_000 };
    assert_eq!(channel_threshold(50_000), 12);
    assert_eq!(s.find_color_point_group(&strict), None);
    assert_eq!(s.find_color_point_group(&loose), Some(Point::new(3, 4)));
    let too_tight = ColorPointGroup { group: members, tolerance: 39_000 };
    assert_eq!(channel_threshold(39_000), 9);
    assert_eq!(s.find_color_point_group(&too_tight), None);
    assert_eq!(channel_threshold(2_000_000), 255);
}

#[test]
fn empty_group_finds_nothing() {
    let s = frame(8, 8, (0, 0, 0));
    let g = ColorPointGroup { group: vec![], tolerance: 0 };
    assert_eq!(s.find_color_point_group(&g), None);
    let gi = ColorPointGroupIn { group: vec![], tolerance: 0, region: s.region() };
    assert!(s.find_all_color_point_group_in(&gi, 10).is_empty());
}

#[test]
fn group_in_tolerance_only_widens() {
    let mut s = frame(20, 20, (0, 0, 0));
    paint(&mut s, 7, 9, (200, 0, 0, 255));
    let group = vec![cp(0, 0, (190, 0, 0))];
    let strict = ColorPointGroupIn { group: group.clone(), tolerance: 0, region: s.region() };
    let loose = ColorPointGroupIn { group, tolerance: 40_000, region: s.region() };
    assert!(s.find_all_color_point_group_in(&strict, 5).is_empty());
    assert_eq!(s.find_all_color_point_group_in(&loose, 5), vec![Point::new(7, 9)]);
}

#[test]
fn shifted_group_is_found_at_chosen_offset() {
    let mut s = frame(30, 30, (0, 0, 0));
    // group at absolute (2, 3), (4, 3), (2, 6); embedded shifted by (11, 7)
    paint(&mut s, 13, 10, (255, 0, 0, 255));
    paint(&mut s, 15, 10, (0, 255, 0, 255));
    paint(&mut s, 13, 13, (0, 0, 255, 255));
    let g = ColorPointGroupIn {
        group: vec![cp(2, 3, (255, 0, 0)), cp(4, 3, (0, 255, 0)), cp(2, 6, (0, 0, 255))],
        tolerance: 0,
        region: Region::new(5, 5, 20, 20),
    };
    let r = s.find_all_color_point_group_in(&g, usize::MAX);
    assert!(r.contains(&Point::new(13, 10)));
    assert_eq!(r.len(), 1);
}

#[test]
fn matches_come_in_row_major_order() {
    let mut s = frame(10, 10, (0, 0, 0));
    for &(x, y) in &[(7, 2), (1, 5), (3, 2), (8, 8), (0, 5)] {
        paint(&mut s, x, y, (9, 9, 9, 255));
    }
    let g = ColorPointGroupIn { group: vec![cp(0, 0, (9, 9, 9))], tolerance: 0, region: s.region() };
    let all = s.find_all_color_point_group_in(&g, usize::MAX);
    assert_eq!(
        all,
        vec![Point::new(3, 2), Point::new(7, 2), Point::new(0, 5), Point::new(1, 5), Point::new(8, 8)]
    );
    assert_eq!(s.find_all_color_point_group_in(&g, 2), vec![Point::new(3, 2), Point::new(7, 2)]);
    assert!(s.find_all_color_point_group_in(&g, 0).is_empty());
    let img = ImageIn {
        img: Image::from_raw(1, 1, vec![9, 9, 9, 255]).unwrap(),
        region: s.region(),
        tolerance: Tolerance::MAE(0),
    };
    assert_eq!(s.find_all_image_in(&img, usize::MAX), all);
}

#[test]
fn group_in_region_must_lie_in_frame() {
    let s = frame(10, 10, (0, 0, 0));
    let g = ColorPointGroupIn {
        group: vec![cp(0, 0, (0, 0, 0))],
        tolerance: 0,
        region: Region::new(5, 5, 6, 2),
    };
    assert!(s.find_all_color_point_group_in(&g, 10).is_empty());
    let wide = ColorPointGroupIn {
        group: vec![cp(0, 0, (0, 0, 0)), cp(5, 0, (0, 0, 0))],
        tolerance: 0,
        region: Region::new(0, 0, 5, 10),
    };
    assert!(s.find_all_color_point_group_in(&wide, 10).is_empty());
}

fn template() -> Image {
    Image::from_raw(
        2,
        2,
        vec![10, 20, 30, 255, 40, 50, 60, 255, 70, 80, 90, 255, 100, 110, 120, 255],
    )
    .unwrap()
}

#[test]
fn template_round_trip_finds_single_copy() {
    let mut s = frame(12, 9, (0, 0, 0));
    let t = template();
    for iy in 0..2u32 {
        for ix in 0..2u32 {
            let i = ((iy * 2 + ix) * 4) as usize;
            paint(&mut s, 6 + ix, 4 + iy, (t.data[i], t.data[i + 1], t.data[i + 2], 255));
        }
    }
    let img = ImageIn { img: t, region: s.region(), tolerance: Tolerance::MAE(0) };
    assert_eq!(s.find_all_image_in(&img, usize::MAX), vec![Point::new(6, 4)]);
    assert_eq!(s.find_image_in(&img), Some(Point::new(6, 4)));
    let near = img.within(Region::new(6, 4, 2, 2));
    assert_eq!(s.find_all_image_in(&near, usize::MAX), vec![Point::new(6, 4)]);
    let small = img.within(Region::new(6, 4, 1, 2));
    assert!(s.find_all_image_in(&small, usize::MAX).is_empty());
}

#[test]
fn mae_limit_is_normalized() {
    let s = frame(3, 1, (10, 0, 0));
    let img = |lim: u32| ImageIn {
        img: Image::from_raw(1, 1, vec![0, 0, 0, 255]).unwrap(),
        region: s.region(),
        tolerance: Tolerance::MAE(lim),
    };
    // error 10 / 255 on one channel of three: 0.013071...
    assert!(s.find_all_image_in(&img(13_000), 5).is_empty());
    assert_eq!(s.find_all_image_in(&img(13_100), 5).len(), 3);
}

#[test]
fn mse_and_max_limits_are_normalized() {
    let s = frame(2, 1, (0, 51, 0));
    let with = |tol: Tolerance| ImageIn {
        img: Image::from_raw(1, 1, vec![0, 0, 0, 255]).unwrap(),
        region: s.region(),
        tolerance: tol,
    };
    // squared error (51 / 255)^2 / 3 = 0.013333...
    assert!(s.find_all_image_in(&with(Tolerance::MSE(13_333)), 5).is_empty());
    assert_eq!(s.find_all_image_in(&with(Tolerance::MSE(13_334)), 5).len(), 2);
    // largest error 51 / 255 = 0.2
    assert!(s.find_all_image_in(&with(Tolerance::MAX(199_999)), 5).is_empty());
    assert_eq!(s.find_all_image_in(&with(Tolerance::MAX(200_000)), 5).len(), 2);
}

#[test]
fn transparent_template_pixels_are_ignored() {
    let s = frame(4, 4, (200, 200, 200));
    let img = ImageIn {
        img: Image::from_raw(2, 1, vec![200, 200, 200, 255, 0, 0, 0, 0]).unwrap(),
        region: s.region(),
        tolerance: Tolerance::MAX(0),
    };
    assert_eq!(s.find_all_image_in(&img, usize::MAX).len(), 12);
}

#[test]
fn image_larger_than_region_finds_nothing() {
    let s = frame(4, 4, (0, 0, 0));
    let img = ImageIn {
        img: Image::from_raw(3, 1, vec![0; 12]).unwrap(),
        region: Region::new(0, 0, 2, 4),
        tolerance: Tolerance::MAE(1_000_000),
    };
    assert!(s.find_all_image_in(&img, 10).is_empty());
}

#[test]
fn constructors_check_buffer_size() {
    assert!(Screenshot::new(2, 2, vec![0; 15], 0).is_none());
    assert!(Screenshot::new(2, 2, vec![0; 16], 7).is_some());
    assert!(Image::from_raw(1, 2, vec![0; 7]).is_none());
    let s = Screenshot::new(3, 5, vec![0; 60], 7).unwrap();
    assert_eq!(s.region(), Region::new(0, 0, 3, 5));
    assert_eq!(fullscreen_region(3, 5), Region::new(0, 0, 3, 5));
}

#[test]
fn region_and_rect_geometry() {
    let outer = Region::new(2, 3, 10, 20);
    assert_eq!(outer.right(), 12);
    assert_eq!(outer.bottom(), 23);
    assert!(outer.contains(&Region::new(2, 3, 10, 20)));
    assert!(outer.contains(&Region::new(5, 5, 1, 1)));
    assert!(!outer.contains(&Region::new(5, 5, 8, 1)));
    assert!(!outer.contains(&Region::new(1, 5, 1, 1)));
    let r = Rect { left: -5, top: -2, width: 10, height: 4 };
    assert_eq!(r.right(), 5);
    assert_eq!(r.bottom(), 2);
    assert!(r.contains(&Rect { left: -5, top: 0, width: 10, height: 2 }));
    assert!(!r.contains(&Rect { left: -6, top: 0, width: 1, height: 1 }));
}
