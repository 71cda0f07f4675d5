use orca::press::{clip_glyph, line_height_from, line_width, FreeTypePress, GlyphClip, PressError};

#[test]
fn line_width_sums_whole_pixels() {
    assert_eq!(line_width(&[]), 0);
    assert_eq!(line_width(&[640, 64, 63]), 11);
    assert_eq!(line_width(&[128, -70]), 1);
}

#[test]
fn line_width_clamps() {
    assert_eq!(line_width(&[-640]), 0);
    assert_eq!(line_width(&[i64::MAX, i64::MAX]), u32::MAX);
    assert_eq!(line_width(&[i64::MIN, 64]), 0);
}

#[test]
fn line_height_from_metric_or_point_size() {
    assert_eq!(line_height_from(Some(1152), 12), 18);
    assert_eq!(line_height_from(Some(1000), 12), 15);
    assert_eq!(line_height_from(Some(-100), 12), -1);
    assert_eq!(line_height_from(None, 12), 18);
    assert_eq!(line_height_from(None, 7), 10);
    assert_eq!(line_height_from(Some(i64::MAX), 12), i32::MAX);
    assert_eq!(line_height_from(None, u32::MAX), i32::MAX);
}

#[test]
fn missing_font_file_is_a_face_error() {
    // the press's font file is not shipped with the tests
    match FreeTypePress::new() {
        Err(PressError::Face(_)) | Err(PressError::Library(_)) => {}
        Err(e) => panic!("unexpected error {:?}", e),
        Ok(press) => assert!(press.measure_str("").unwrap().1 == 10),
    }
}

#[test]
fn glyph_inside_the_surface_is_kept_whole() {
    let c = clip_glyph((10, 20), 1, 8, 5, 9, 100, 100).unwrap();
    assert_eq!(
        c,
        GlyphClip { dest_x: 11, dest_y: 12, src_x: 0, src_y: 0, width: 5, rows: 9 }
    );
}

#[test]
fn glyph_is_clipped_at_right_and_bottom() {
    let c = clip_glyph((8, 8), 0, 0, 5, 5, 10, 11).unwrap();
    assert_eq!(
        c,
        GlyphClip { dest_x: 8, dest_y: 8, src_x: 0, src_y: 0, width: 2, rows: 3 }
    );
}

#[test]
fn glyph_is_clipped_at_left_and_top() {
    let c = clip_glyph((0, 0), -2, 3, 5, 5, 10, 10).unwrap();
    assert_eq!(
        c,
        GlyphClip { dest_x: 0, dest_y: 0, src_x: 2, src_y: 3, width: 3, rows: 2 }
    );
}

#[test]
fn glyph_outside_the_surface_is_dropped() {
    assert_eq!(clip_glyph((50, 0), 0, 0, 5, 5, 10, 10), None);
    assert_eq!(clip_glyph((0, 0), -5, 0, 5, 5, 10, 10), None);
    assert_eq!(clip_glyph((0, 0), 0, 0, 0, 5, 10, 10), None);
}
