use opencv_ui_cli::alpha::{split_alpha, AlphaPixel};
use opencv_ui_cli::descent::Position;
use opencv_ui_cli::double::Double;
use opencv_ui_cli::entry::{make_entry, MatchEntry};
use opencv_ui_cli::masking::mask_region;
use opencv_ui_cli::overlay::{
    blend_overlay, blend_pixel, copy_picture, generate_mask_image, RenderError,
};
use opencv_ui_cli::picture::{gray_picture, Mask, Picture, Pixel, Rect};
use opencv_ui_cli::reconstruct::{
    design_labels, generate_reconstructed_design, paste_components, Layer,
};
use opencv_ui_cli::svg::{design_svg, mask_svg, palette_color};

fn d(x: f64) -> Double {
    Double { bits: x.to_bits() }
}

fn gray(v: u8) -> Pixel {
    Pixel { b: v, g: v, r: v }
}

fn rect(x: i32, y: i32, width: i32, height: i32) -> Rect {
    Rect { x, y, width, height }
}

fn picture(rows: i32, cols: i32, values: &[u8]) -> Picture {
    Picture { rows, cols, pixels: Some(values.iter().map(|v| gray(*v)).collect()) }
}

fn values(img: &Picture) -> Vec<u8> {
    match &img.pixels {
        Some(pixels) => pixels.iter().map(|p| p.g).collect(),
        None => panic!("no pixels"),
    }
}

fn position(x: i32, y: i32, width: i32, height: i32, confidence: f64, trust: &str) -> Position {
    Position { x, y, width, height, confidence: d(confidence), trust: String::from(trust) }
}

fn entry(name: &str, positions: Vec<Position>) -> MatchEntry {
    make_entry(name, positions)
}

fn done<T>(result: Result<T, RenderError>) -> T {
    match result {
        Ok(v) => v,
        Err(e) => panic!("{:?}", e),
    }
}

#[test]
fn pixels_are_read_and_written_by_row_and_column() {
    let mut img = picture(2, 3, &[1, 2, 3, 4, 5, 6]);
    assert_eq!(img.pixel(1, 0), Some(gray(4)));
    assert_eq!(img.pixel(2, 0), None);
    assert_eq!(img.pixel(0, 3), None);
    assert_eq!(img.pixel(-1, 0), None);
    assert!(img.set_pixel(1, 2, gray(9)));
    assert!(!img.set_pixel(0, 3, gray(9)));
    assert_eq!(values(&img), vec![1, 2, 3, 4, 5, 9]);
    let mut unreadable = Picture { rows: 2, cols: 2, pixels: None };
    assert_eq!(unreadable.pixel(0, 0), None);
    assert!(!unreadable.set_pixel(0, 0, gray(1)));
}

#[test]
fn alpha_values_are_parted_and_thresholded() {
    let p = |a: u8| AlphaPixel { b: 1, g: 2, r: 3, a };
    let pixels = vec![p(0), p(1), p(199), p(200), p(201), p(255)];
    let (colors, mask) = split_alpha(2, 3, &pixels, 200);
    assert_eq!(colors.pixels, Some(vec![Pixel { b: 1, g: 2, r: 3 }; 6]));
    assert_eq!((colors.rows, colors.cols, mask.rows, mask.cols), (2, 3, 2, 3));
    assert_eq!(mask.alpha, Some(vec![0, 0, 0, 200, 201, 255]));
    let (_, all) = split_alpha(2, 3, &pixels, 0);
    assert_eq!(all.alpha, Some(vec![0, 1, 199, 200, 201, 255]));
    let (_, some) = split_alpha(2, 3, &pixels, 1);
    assert_eq!(some.alpha, Some(vec![0, 1, 199, 200, 201, 255]));
}

#[test]
fn a_region_takes_the_mean_of_its_border() {
    let mut img = picture(3, 3, &[10, 20, 30, 40, 200, 60, 70, 80, 90]);
    mask_region(&mut img, rect(1, 1, 1, 1), &None);
    // Above 20, below 80, left 40, right 60: the corners do not count.
    assert_eq!(values(&img), vec![10, 20, 30, 40, 50, 60, 70, 80, 90]);
}

#[test]
fn a_border_is_two_pixels_wide() {
    let mut img = picture(1, 7, &[0, 10, 20, 99, 40, 50, 255]);
    mask_region(&mut img, rect(3, 0, 1, 1), &None);
    assert_eq!(values(&img), vec![0, 10, 20, 30, 40, 50, 255]);
}

#[test]
fn the_mean_is_cut_down() {
    let mut img = picture(1, 3, &[10, 99, 13]);
    mask_region(&mut img, rect(1, 0, 1, 1), &None);
    assert_eq!(values(&img), vec![10, 11, 13]);
}

#[test]
fn a_region_without_border_turns_gray() {
    let mut img = picture(2, 2, &[1, 2, 3, 4]);
    mask_region(&mut img, rect(0, 0, 2, 2), &None);
    assert_eq!(values(&img), vec![128; 4]);
}

#[test]
fn transparent_pixels_survive_masking() {
    let mut img = picture(1, 4, &[8, 1, 2, 8]);
    let mask = Some(Mask { rows: 1, cols: 2, alpha: Some(vec![0, 255]) });
    mask_region(&mut img, rect(1, 0, 2, 1), &mask);
    assert_eq!(values(&img), vec![8, 1, 8, 8]);
    let clear = Some(Mask { rows: 1, cols: 2, alpha: Some(vec![0, 0]) });
    let before = img.clone();
    mask_region(&mut img, rect(0, 0, 2, 1), &clear);
    assert_eq!(img, before);
}

#[test]
fn a_region_over_the_edge_is_cut() {
    let mut img = picture(2, 2, &[1, 2, 30, 40]);
    mask_region(&mut img, rect(-1, -1, 2, 2), &None);
    // The border of the one cell that is left: 2 to its right, 30 below it.
    assert_eq!(values(&img), vec![16, 2, 30, 40]);
    let mut far = picture(1, 1, &[5]);
    mask_region(&mut far, rect(7, 7, 3, 3), &None);
    assert_eq!(values(&far), vec![5]);
}

#[test]
fn masking_leaves_an_unreadable_picture() {
    let mut img = Picture { rows: 3, cols: 3, pixels: None };
    mask_region(&mut img, rect(0, 0, 2, 2), &None);
    assert_eq!(img, Picture { rows: 3, cols: 3, pixels: None });
}

#[test]
fn blending_ends_at_both_colors() {
    for over in 0..=255u8 {
        for under in [0u8, 1, 17, 128, 254, 255] {
            assert_eq!(blend_pixel(gray(over), gray(under), 255), gray(over));
            assert_eq!(blend_pixel(gray(over), gray(under), 0), gray(under));
        }
    }
}

#[test]
fn blending_is_that_of_the_machine() {
    for alpha in 0..=255u8 {
        let w = alpha as f64 / 255.0;
        for (over, under) in [(0u8, 255u8), (255, 0), (10, 200), (77, 78), (255, 255)] {
            let expected = (over as f64 * w + under as f64 * (1.0 - w)) as u8;
            assert_eq!(blend_pixel(gray(over), gray(under), alpha), gray(expected));
        }
    }
}

#[test]
fn drawings_are_laid_over_where_they_show() {
    let mut img = picture(1, 3, &[100, 100, 100]);
    let drawing = vec![1, 2, 3, 255, 9, 9, 9, 0, 200, 0, 0, 128];
    assert_eq!(blend_overlay(&mut img, &drawing), Ok(()));
    let w = 128.0f64 / 255.0;
    let faded = (100.0 * (1.0 - w)) as u8;
    let red = (200.0 * w + 100.0 * (1.0 - w)) as u8;
    assert_eq!(
        img.pixels,
        Some(vec![Pixel { b: 3, g: 2, r: 1 }, gray(100), Pixel { b: faded, g: faded, r: red }])
    );
}

#[test]
fn an_unreadable_picture_is_drawn_over_only_by_nothing() {
    let mut img = Picture { rows: 1, cols: 1, pixels: None };
    assert_eq!(blend_overlay(&mut img, &vec![5, 5, 5, 0]), Ok(()));
    assert_eq!(blend_overlay(&mut img, &vec![5, 5, 5, 1]), Err(RenderError::Unreadable));
    assert_eq!(img.pixels, None);
}

#[test]
fn gray_values_stand_for_all_three_colors() {
    assert_eq!(gray_picture(1, 3, &vec![0, 7, 255]), picture(1, 3, &[0, 7, 255]));
}

#[test]
fn boxes_are_drawn_over_a_reconstructed_design() {
    // One faint box over an empty component: only the drawing shows on white.
    let all = vec![entry("a.png", vec![position(1, 1, 2, 2, 1.0, "high")])];
    let empty = vec![Layer { colors: Picture { rows: 0, cols: 0, pixels: Some(vec![]) }, alpha: None }];
    let out = done(generate_reconstructed_design((6, 4), &all, &empty));
    let inside = out.pixel(1, 1);
    assert!(inside.is_some() && inside != Some(gray(255)));
    for r in 0..4 {
        for c in 0..6 {
            let expected = if (1..3).contains(&r) && (1..3).contains(&c) { inside } else { Some(gray(255)) };
            assert_eq!(out.pixel(r, c), expected);
        }
    }
}

#[test]
fn a_drawing_can_fail() {
    let positions = || vec![position(0, 0, 1, 1, 1.0, "high")];
    let img = picture(1, 1, &[7]);
    assert_eq!(generate_mask_image(&img, &positions(), "a & b"), Err(RenderError::BadSvg));
    let flat = picture(0, 3, &[]);
    assert_eq!(generate_mask_image(&flat, &positions(), "a"), Err(RenderError::BadSvg));
    let wide = Picture { rows: 1, cols: 600_000_000, pixels: None };
    assert_eq!(generate_mask_image(&wide, &positions(), "a"), Err(RenderError::BadSize));
    let unreadable = Picture { rows: 2, cols: 2, pixels: None };
    assert_eq!(generate_mask_image(&unreadable, &positions(), "a"), Err(RenderError::Unreadable));
}

#[test]
fn plain_names_are_always_drawn() {
    let design = picture(3, 3, &[9; 9]);
    for name in ["", "a.png", " b \"c\" 'd'.png", "\u{e9}\u{1f600}]].png", "100%;#x.png"] {
        let positions = vec![position(-5, 1, i32::MAX, 2, f64::NAN, "low"), position(0, 0, 0, -1, -1e300, "high")];
        assert!(generate_mask_image(&design, &positions, name).is_ok(), "{}", name);
    }
}

#[test]
fn a_copy_shows_the_same() {
    let img = picture(2, 2, &[1, 2, 3, 4]);
    assert_eq!(copy_picture(&img), img);
}

#[test]
fn marks_are_drawn_as_svg_text() {
    let positions = vec![
        position(3, 20, 10, 5, 0.98765, "high"),
        position(-1, 2, 10, 5, 0.8, "medium"),
        position(0, 16, 1, 1, 0.5, "low"),
    ];
    let svg = mask_svg(40, 30, &positions, "a.png");
    let expected = String::from("<svg width=\"40\" height=\"30\" xmlns=\"http://www.w3.org/2000/svg\">")
        + "<rect x=\"3\" y=\"20\" width=\"10\" height=\"5\" fill=\"rgba(0,200,0,0.25)\" stroke=\"rgb(0,180,0)\" stroke-width=\"2\"/>"
        + "<text x=\"3\" y=\"16\" font-size=\"13\" font-family=\"sans-serif\" fill=\"rgb(0,140,0)\">a.png conf:0.99</text>"
        + "<rect x=\"-1\" y=\"2\" width=\"10\" height=\"5\" fill=\"rgba(200,200,0,0.25)\" stroke=\"rgb(180,180,0)\" stroke-width=\"2\"/>"
        + "<text x=\"-1\" y=\"21\" font-size=\"13\" font-family=\"sans-serif\" fill=\"rgb(140,140,0)\">a.png conf:0.80</text>"
        + "<rect x=\"0\" y=\"16\" width=\"1\" height=\"1\" fill=\"rgba(200,0,0,0.25)\" stroke=\"rgb(180,0,0)\" stroke-width=\"2\"/>"
        + "<text x=\"0\" y=\"12\" font-size=\"13\" font-family=\"sans-serif\" fill=\"rgb(140,0,0)\">a.png conf:0.50</text>"
        + "</svg>";
    assert_eq!(svg, expected);
}

#[test]
fn faint_boxes_take_the_colors_of_the_palette() {
    let all = vec![
        entry("a.png", vec![position(1, 2, 3, 4, 0.9, "high")]),
        entry("b.png", vec![]),
        entry("c.png", vec![position(5, 6, 7, 8, 0.9, "high")]),
    ];
    let expected = String::from("<svg width=\"9\" height=\"8\" xmlns=\"http://www.w3.org/2000/svg\">")
        + "<rect x=\"1\" y=\"2\" width=\"3\" height=\"4\" fill=\"#3543cb\" fill-opacity=\"0.15\"/>"
        + "<rect x=\"5\" y=\"6\" width=\"7\" height=\"8\" fill=\"#3498db\" fill-opacity=\"0.15\"/>"
        + "</svg>";
    assert_eq!(design_svg(9, 8, &all), expected);
}

#[test]
fn the_palette_repeats() {
    assert_eq!(palette_color(0), Pixel { b: 203, g: 67, r: 53 });
    assert_eq!(palette_color(7), Pixel { b: 165, g: 111, r: 41 });
    for i in 0..8 {
        assert_eq!(palette_color(i), palette_color(i + 8));
    }
}

#[test]
fn mask_images_mark_what_was_found() {
    let design = picture(40, 40, &[100; 1600]);
    let out = done(generate_mask_image(&design, &vec![position(10, 20, 10, 10, 1.0, "high")], "a.png"));
    // Far from the mark nothing changes; inside it the green fill shows.
    assert_eq!(out.pixel(0, 0), Some(gray(100)));
    match out.pixel(25, 15) {
        Some(p) => {
            assert!(p.g > p.r && p.g > p.b);
        },
        None => panic!("no pixel"),
    }
    assert_eq!(design.pixel(25, 15), Some(gray(100)));
}

#[test]
fn components_are_pasted_onto_white() {
    let all = vec![entry("a.png", vec![position(1, 0, 2, 1, 1.0, "high"), position(3, 1, 2, 1, 1.0, "high")])];
    let layers = vec![Layer { colors: picture(1, 2, &[10, 20]), alpha: None }];
    let canvas = done(paste_components(4, 2, &all, &layers));
    assert_eq!(values(&canvas), vec![255, 10, 20, 255, 255, 255, 255, 10]);
}

#[test]
fn opaque_pixels_replace_and_transparent_ones_do_not() {
    let all = vec![entry("a.png", vec![position(0, 0, 3, 1, 1.0, "high")])];
    let alpha = Some(Mask { rows: 1, cols: 3, alpha: Some(vec![255, 0, 51]) });
    let layers = vec![Layer { colors: picture(1, 3, &[10, 20, 30]), alpha }];
    let canvas = done(paste_components(3, 1, &all, &layers));
    let w = 51.0f64 / 255.0;
    let third = (30.0 * w + 255.0 * (1.0 - w)) as u8;
    assert_eq!(values(&canvas), vec![10, 255, third]);
}

#[test]
fn positions_off_the_canvas_paste_nothing() {
    let all = vec![entry("a.png", vec![position(9, 9, 1, 1, 1.0, "high"), position(-5, -5, 1, 1, 1.0, "low")])];
    let layers = vec![Layer { colors: picture(1, 1, &[10]), alpha: None }];
    // A corner before the canvas is moved onto it.
    assert_eq!(values(&done(paste_components(2, 1, &all, &layers))), vec![10, 255]);
}

#[test]
fn later_components_cover_earlier_ones() {
    let p = || vec![position(0, 0, 1, 1, 1.0, "high")];
    let all = vec![entry("a.png", p()), entry("b.png", p())];
    let layers = vec![
        Layer { colors: picture(1, 1, &[10]), alpha: None },
        Layer { colors: picture(1, 1, &[20]), alpha: None },
    ];
    assert_eq!(values(&done(paste_components(1, 1, &all, &layers))), vec![20]);
}

#[test]
fn unreadable_components_fail_only_where_they_are_opaque() {
    let all = vec![entry("a.png", vec![position(0, 0, 1, 1, 1.0, "high")])];
    let unreadable = || Picture { rows: 1, cols: 1, pixels: None };
    let mask = |a: u8| Some(Mask { rows: 1, cols: 1, alpha: Some(vec![a]) });
    let with = |alpha: Option<Mask>| vec![Layer { colors: unreadable(), alpha }];
    assert_eq!(values(&done(paste_components(1, 1, &all, &with(None)))), vec![255]);
    assert_eq!(values(&done(paste_components(1, 1, &all, &with(mask(0))))), vec![255]);
    assert_eq!(paste_components(1, 1, &all, &with(mask(1))), Err(RenderError::Unreadable));
    assert_eq!(
        generate_reconstructed_design((1, 1), &all, &with(mask(1))),
        Err(RenderError::Unreadable)
    );
}

#[test]
fn a_design_is_put_together_again() {
    let all = vec![entry("a.png", vec![position(2, 2, 3, 3, 1.0, "high")])];
    let layers = vec![Layer { colors: picture(3, 3, &[0; 9]), alpha: None }];
    let out = done(generate_reconstructed_design((8, 8), &all, &layers));
    assert_eq!((out.rows, out.cols), (8, 8));
    assert_eq!(out.pixel(0, 0), Some(gray(255)));
    match out.pixel(3, 3) {
        Some(p) => {
            // Black under a faint box in the first color of the palette.
            assert!(p.b > p.g && p.b > p.r && p.b < 60);
        },
        None => panic!("no pixel"),
    }
}

#[test]
fn a_design_without_size_cannot_be_put_together() {
    let result = generate_reconstructed_design((0, 5), &vec![], &vec![]);
    assert_eq!(result, Err(RenderError::BadSvg));
}

#[test]
fn labels_carry_the_short_name_and_the_confidence() {
    let all = vec![
        entry("a.png.png", vec![position(3, 20, 10, 5, 0.98765, "high"), position(4, 19, 10, 5, 0.5, "low")]),
        entry("b.jpg", vec![position(0, 0, 2, 2, 1.0, "high")]),
    ];
    let labels = design_labels(&all);
    assert_eq!(labels.len(), 3);
    assert_eq!(labels[0].text, "a (0.99)");
    assert_eq!((labels[0].x, labels[0].y), (3, 14));
    assert_eq!(labels[0].rect, rect(3, 20, 10, 5));
    assert_eq!(labels[0].color, palette_color(0));
    assert_eq!(labels[1].text, "a (0.50)");
    assert_eq!((labels[1].x, labels[1].y), (4, 40));
    assert_eq!(labels[2].text, "b.jpg (1.00)");
    assert_eq!(labels[2].color, palette_color(1));
    assert_eq!((labels[2].x, labels[2].y), (0, 18));
}

#[test]
fn without_positions_nothing_is_drawn() {
    let design = picture(3, 4, &[1, 2, 3, 4, 5, 6, 7, 8, 9, 10, 11, 12]);
    assert_eq!(done(generate_mask_image(&design, &vec![], "a.png")), design);
    let unreadable = Picture { rows: 2, cols: 2, pixels: None };
    assert_eq!(done(generate_mask_image(&unreadable, &vec![], "a.png")), unreadable);
    let white = picture(2, 3, &[255; 6]);
    assert_eq!(done(generate_reconstructed_design((3, 2), &vec![], &vec![])), white);
    let empty = vec![entry("a.png", vec![])];
    let layers = vec![Layer { colors: picture(1, 1, &[0]), alpha: None }];
    assert_eq!(done(generate_reconstructed_design((3, 2), &empty, &layers)), white);
}

#[test]
fn a_drawing_is_the_same_each_time() {
    let design = picture(30, 30, &[90; 900]);
    let positions = || vec![position(3, 20, 7, 5, 0.9, "high"), position(-2, -3, 9, 9, 0.8, "medium")];
    let first = done(generate_mask_image(&design, &positions(), "a.png"));
    assert_eq!(done(generate_mask_image(&design, &positions(), "a.png")), first);
    assert_ne!(first, design);
}

#[test]
fn boxes_may_reach_far_over_the_canvas() {
    let far = || vec![
        position(0, -100_000_000, 10, 100_000_100, 1.0, "high"),
        position(-100_000_000, 0, 200_000_000, 1, 1.0, "low"),
        position(i32::MIN, -100_000_000, i32::MAX, i32::MAX, 1.0, "low"),
    ];
    let small = picture(1, 1, &[9]);
    assert!(generate_mask_image(&small, &far(), "a.png").is_ok());
    let tall = picture(20_000, 2, &vec![9; 40_000]);
    assert!(generate_mask_image(&tall, &far(), "a.png").is_ok());
    let all = vec![entry("a.png", far())];
    let empty = vec![Layer { colors: Picture { rows: 0, cols: 0, pixels: Some(vec![]) }, alpha: None }];
    assert!(generate_reconstructed_design((9, 9), &all, &empty).is_ok());
}
