use team_trial_tracker::image_helper::{
    find_crop_area, get_standard_crop_area, recognised_crop_area, shrink_crop_area, Rectangle,
};

fn rect(left: u32, top: u32, width: u32, height: u32) -> Rectangle {
    Rectangle { left, top, width, height }
}

#[test]
fn standard_crop_areas_of_known_resolutions() {
    assert_eq!(get_standard_crop_area((1920, 1080)), rect(375, 90, 450, 852));
    assert_eq!(get_standard_crop_area((2560, 1440)), rect(510, 125, 585, 1130));
    assert_eq!(get_standard_crop_area((3840, 2160)), rect(760, 190, 890, 1693));
    assert_eq!(get_standard_crop_area((1680, 1050)), rect(330, 135, 392, 742));
    assert_eq!(get_standard_crop_area((1170, 2532)), rect(250, 406, 860, 1635));
    assert_eq!(get_standard_crop_area((1080, 2340)), rect(230, 380, 795, 1503));
}

#[test]
fn unknown_resolution_keeps_whole_image() {
    assert_eq!(get_standard_crop_area((800, 600)), rect(0, 0, 800, 600));
    assert_eq!(recognised_crop_area((800, 600)), None);
    assert_eq!(recognised_crop_area((1920, 1080)), Some(rect(375, 90, 450, 852)));
}

#[test]
fn shrink_keeps_name_and_score_columns() {
    let r = shrink_crop_area(&rect(100, 20, 1000, 500));
    assert_eq!(r, rect(315, 20, 741, 500));
    // Rounded down, as the floating-point computation does.
    let r = shrink_crop_area(&rect(0, 0, 220, 365));
    assert_eq!(r.left, (220f64 * 0.215) as u32);
    assert_eq!(r.width, (220f64 * 0.741) as u32);
}

#[test]
fn shrink_matches_floating_point_on_many_widths() {
    for w in (0u32..5000).chain((0u32..=u32::MAX).step_by(9973)).chain([u32::MAX / 2, u32::MAX - 7, u32::MAX]) {
        let r = shrink_crop_area(&rect(0, 0, w, 1));
        assert_eq!(r.left, (f64::from(w) * 0.215) as u32);
        assert_eq!(r.width, (f64::from(w) * 0.741) as u32);
    }
}

/// A labelled image of the given size with one rectangle of label `label`.
fn image_with_box(w: u32, h: u32, label: u32, left: u32, top: u32, bw: u32, bh: u32) -> Vec<u32> {
    let mut labels = vec![0u32; (w * h) as usize];
    for y in top..top + bh {
        for x in left..left + bw {
            labels[(y * w + x) as usize] = label;
        }
    }
    labels
}

#[test]
fn finds_region_with_score_list_shape() {
    let labels = image_with_box(300, 400, 1, 10, 5, 221, 366);
    // The region spans 220 by 365 pixels from its corner: ratio 0.603.
    let found = find_crop_area(&labels, 300, 400);
    assert_eq!(found, Some(rect(10 + 47, 5, 163, 365)));
}

#[test]
fn ignores_regions_of_other_shapes() {
    // Too small.
    let labels = image_with_box(300, 400, 2, 0, 0, 100, 100);
    assert_eq!(find_crop_area(&labels, 300, 400), None);
    // Too wide for its height.
    let labels = image_with_box(400, 400, 3, 0, 0, 350, 320);
    assert_eq!(find_crop_area(&labels, 400, 400), None);
    // Background only.
    assert_eq!(find_crop_area(&vec![0u32; 12], 4, 3), None);
    assert_eq!(find_crop_area(&Vec::new(), 0, 0), None);
}

#[test]
fn first_qualifying_region_is_chosen() {
    let mut labels = image_with_box(600, 400, 7, 0, 0, 50, 50);
    for y in 10..376 {
        for x in 300..521 {
            labels[y * 600 + x] = 9;
        }
    }
    assert_eq!(find_crop_area(&labels, 600, 400), Some(rect(300 + 47, 10, 163, 365)));
}
