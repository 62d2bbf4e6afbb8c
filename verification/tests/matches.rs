use opencv_ui_cli::descent::{match_component, report, trust_label, MatchError};
use opencv_ui_cli::double::Double;
use opencv_ui_cli::matching::{match_template_nms, plan_match, Match, MatchPlan, Method, ScoreMap};
use opencv_ui_cli::overlap::iou;
use opencv_ui_cli::picture::{is_masked_out, Mask, Picture, Pixel, Rect};
use opencv_ui_cli::variance::template_variance;

fn d(x: f64) -> Double {
    Double { bits: x.to_bits() }
}

fn f(x: Double) -> f64 {
    f64::from_bits(x.bits)
}

fn rect(x: i32, y: i32, width: i32, height: i32) -> Rect {
    Rect { x, y, width, height }
}

fn gray(v: u8) -> Pixel {
    Pixel { b: v, g: v, r: v }
}

fn picture(rows: i32, cols: i32, values: &[u8]) -> Picture {
    Picture { rows, cols, pixels: Some(values.iter().map(|v| gray(*v)).collect()) }
}

fn map(method: Method, templ: (i32, i32), rows: i32, cols: i32, scores: &[f32]) -> ScoreMap {
    ScoreMap {
        method,
        templ_rows: templ.0,
        templ_cols: templ.1,
        rows,
        cols,
        scores: scores.iter().map(|s| s.to_bits()).collect(),
    }
}

fn corners(matches: &Vec<Match>) -> Vec<(i32, i32)> {
    matches.iter().map(|m| (m.rect.x, m.rect.y)).collect()
}

#[test]
fn overlap_of_shifted_squares() {
    let a = rect(0, 0, 10, 10);
    let b = rect(5, 0, 10, 10);
    assert_eq!(f(iou(&a, &b)), 50.0 / 150.0);
    assert_eq!(f(iou(&b, &a)), 50.0 / 150.0);
}

#[test]
fn overlap_with_itself_is_one() {
    assert_eq!(f(iou(&rect(3, 4, 7, 9), &rect(3, 4, 7, 9))), 1.0);
    let huge = rect(0, 0, 2147483647, 2147483646);
    assert_eq!(f(iou(&huge, &huge)), 1.0);
}

#[test]
fn rectangles_that_share_nothing_do_not_overlap() {
    assert_eq!(f(iou(&rect(0, 0, 5, 5), &rect(5, 0, 5, 5))), 0.0);
    assert_eq!(f(iou(&rect(0, 0, 5, 5), &rect(100, 100, 5, 5))), 0.0);
    assert_eq!(f(iou(&rect(0, 0, 0, 0), &rect(0, 0, 0, 0))), 0.0);
}

#[test]
fn overlap_lies_between_zero_and_one() {
    for x in 0..12 {
        for w in 1..9 {
            let v = f(iou(&rect(2, 3, 5, 4), &rect(x, 1, w, 7)));
            assert!((0.0..=1.0).contains(&v));
        }
    }
}

#[test]
fn a_solid_template_does_not_vary() {
    let solid = picture(3, 4, &[77; 12]);
    assert_eq!(f(template_variance(&solid, &None)), 0.0);
    let plan = plan_match(10, 20, &solid, &None);
    assert_eq!(plan, Some(MatchPlan { method: Method::SquaredDifference, rows: 8, cols: 17 }));
}

#[test]
fn variance_is_that_of_the_least_varying_channel() {
    let mut pixels: Vec<Pixel> = Vec::new();
    for (b, g, r) in [(0u8, 10u8, 5u8), (100, 20, 5), (0, 10, 5), (100, 20, 6)] {
        pixels.push(Pixel { b, g, r });
    }
    let templ = Picture { rows: 2, cols: 2, pixels: Some(pixels) };
    let mean: f64 = 21.0 / 4.0;
    assert_eq!(f(template_variance(&templ, &None)), 111.0 / 4.0 - mean * mean);
    let varied = picture(2, 2, &[0, 100, 200, 50]);
    let m: f64 = 350.0 / 4.0;
    assert_eq!(f(template_variance(&varied, &None)), 52500.0 / 4.0 - m * m);
    let plan = plan_match(2, 2, &varied, &None);
    assert_eq!(plan, Some(MatchPlan { method: Method::Correlation, rows: 1, cols: 1 }));
}

#[test]
fn masked_pixels_do_not_vary() {
    let templ = picture(2, 2, &[9, 200, 9, 9]);
    let mask = Some(Mask { rows: 2, cols: 2, alpha: Some(vec![255, 0, 1, 255]) });
    assert_eq!(f(template_variance(&templ, &mask)), 0.0);
    assert!(is_masked_out(&mask, 0, 1));
    assert!(!is_masked_out(&mask, 1, 0));
    assert!(!is_masked_out(&mask, 5, 5));
    assert!(!is_masked_out(&None, 0, 1));
}

#[test]
fn small_and_unreadable_templates_do_not_vary() {
    assert_eq!(f(template_variance(&picture(1, 4, &[1, 2, 3, 4]), &None)), 0.0);
    let unreadable = Picture { rows: 5, cols: 5, pixels: None };
    assert_eq!(f(template_variance(&unreadable, &None)), 0.0);
    let all_out = Some(Mask { rows: 2, cols: 2, alpha: Some(vec![0, 0, 0, 9]) });
    assert_eq!(f(template_variance(&picture(2, 2, &[1, 99, 3, 4]), &all_out)), 0.0);
}

#[test]
fn a_template_larger_than_the_picture_is_not_matched() {
    assert_eq!(plan_match(2, 9, &picture(3, 2, &[1, 2, 3, 4, 5, 6]), &None), None);
    assert_eq!(plan_match(9, 1, &picture(3, 2, &[1, 2, 3, 4, 5, 6]), &None), None);
}

#[test]
fn matches_come_best_first_and_apart() {
    let scores = [0.9f32, 0.95, 0.2, 0.1, 0.3, 0.92];
    let m = map(Method::Correlation, (2, 2), 1, 6, &scores);
    let found = match_template_nms(&m, d(0.9), d(0.3));
    assert_eq!(corners(&found), vec![(1, 0), (5, 0)]);
    assert_eq!(f(found[0].score), 0.95f32 as f64);
    assert_eq!(found[0].rect, rect(1, 0, 2, 2));
    for i in 0..found.len() {
        for j in 0..found.len() {
            if i != j {
                assert!(f(iou(&found[i].rect, &found[j].rect)) <= 0.3);
            }
        }
    }
}

#[test]
fn equal_scores_keep_the_order_of_rows() {
    let m = map(Method::Correlation, (1, 1), 2, 3, &[0.5, 0.7, 0.5, 0.7, 0.5, 0.7]);
    let found = match_template_nms(&m, d(0.4), d(0.3));
    assert_eq!(corners(&found), vec![(1, 0), (0, 1), (2, 1), (0, 0), (2, 0), (1, 1)]);
}

#[test]
fn squared_differences_are_turned_round() {
    let m = map(Method::SquaredDifference, (1, 1), 1, 3, &[0.0, 0.25, 1.0]);
    let found = match_template_nms(&m, d(0.5), d(0.3));
    assert_eq!(corners(&found), vec![(0, 0), (1, 0)]);
    assert_eq!(f(found[0].score), 1.0);
    assert_eq!(f(found[1].score), 0.75);
}

#[test]
fn scores_that_are_no_numbers_are_left_out() {
    let m = map(Method::Correlation, (1, 1), 1, 4, &[f32::NAN, f32::INFINITY, f32::NEG_INFINITY, 0.3]);
    assert_eq!(corners(&match_template_nms(&m, d(0.0), d(0.3))), vec![(3, 0)]);
}

#[test]
fn dropped_candidates_overlap_a_match() {
    let m = map(Method::Correlation, (4, 4), 1, 3, &[0.8, 0.9, 0.85]);
    let found = match_template_nms(&m, d(0.5), d(0.3));
    assert_eq!(corners(&found), vec![(1, 0)]);
    assert!(f(iou(&rect(0, 0, 4, 4), &found[0].rect)) > 0.3);
    assert!(f(iou(&rect(2, 0, 4, 4), &found[0].rect)) > 0.3);
    assert!(f(found[0].score) >= 0.85);
}

#[test]
fn a_lower_threshold_still_finds() {
    let m = map(Method::Correlation, (1, 1), 1, 3, &[0.1, 0.6, 0.4]);
    for t in [0.6f32 as f64, 0.5, 0.3, 0.0] {
        assert_eq!(match_template_nms(&m, d(t), d(0.3))[0].rect, rect(1, 0, 1, 1));
    }
    assert!(match_template_nms(&m, d(0.7), d(0.3)).is_empty());
}

#[test]
fn the_first_threshold_with_a_match_is_reported() {
    let m = Some(map(Method::Correlation, (2, 3), 1, 2, &[0.72, 0.1]));
    let (threshold, positions) = match match_component(&m, "a.png", d(0.95), d(0.05), d(0.3)) {
        Ok(found) => found,
        Err(_) => panic!("no match"),
    };
    assert_eq!(f(threshold), 0.7);
    assert_eq!(positions.len(), 1);
    assert_eq!((positions[0].x, positions[0].y), (0, 0));
    assert_eq!((positions[0].width, positions[0].height), (3, 2));
    assert_eq!(f(positions[0].confidence), 0.72);
    assert_eq!(positions[0].trust, "low");
}

#[test]
fn a_component_that_is_nowhere_is_named() {
    let m = Some(map(Method::Correlation, (1, 1), 1, 2, &[-0.5, -0.1]));
    let result = match_component(&m, "b.png", d(0.95), d(0.05), d(0.3));
    assert_eq!(result, Err(MatchError::NoMatches(String::from("b.png"))));
    let none = match_component(&None, "c.png", d(0.95), d(0.05), d(0.3));
    assert_eq!(none, Err(MatchError::NoMatches(String::from("c.png"))));
}

#[test]
fn a_score_of_zero_is_found_at_the_last_threshold() {
    let m = Some(map(Method::Correlation, (1, 1), 1, 1, &[0.0]));
    match match_component(&m, "z", d(0.95), d(0.05), d(0.3)) {
        Ok((threshold, positions)) => {
            assert_eq!(f(threshold), 0.0);
            assert_eq!(positions.len(), 1);
        },
        Err(_) => panic!("no match"),
    }
}

#[test]
fn a_small_step_finds_and_ends() {
    let m = Some(map(Method::Correlation, (1, 1), 1, 1, &[0.1]));
    match match_component(&m, "d.png", d(0.5), d(0.001), d(0.3)) {
        Ok((threshold, positions)) => {
            assert!(f(threshold) <= 0.1f32 as f64 && f(threshold) > 0.09);
            assert_eq!(f(positions[0].confidence), 0.1);
        },
        Err(_) => panic!("no match"),
    }
    let none = match_component(&None, "button.png", d(0.95), d(0.004), d(0.3));
    assert_eq!(none, Err(MatchError::NoMatches(String::from("button.png"))));
}

#[test]
fn a_step_that_changes_nothing_is_given_up() {
    let m = Some(map(Method::Correlation, (1, 1), 1, 1, &[0.1]));
    for step in [0.0, -0.1, 1e-20] {
        assert_eq!(match_component(&m, "e.png", d(0.5), d(step), d(0.3)), Err(MatchError::Endless));
    }
    // A match at the first threshold needs no step.
    assert!(match_component(&m, "e.png", d(0.05), d(0.0), d(0.3)).is_ok());
    // Nor is there one below the floor.
    let below = match_component(&m, "e.png", d(-1.0), d(0.0), d(0.3));
    assert_eq!(below, Err(MatchError::NoMatches(String::from("e.png"))));
}

#[test]
fn a_start_above_one_comes_down() {
    let m = Some(map(Method::Correlation, (1, 1), 1, 1, &[-1.0]));
    let result = match_component(&m, "f", d(2.0), d(0.01), d(0.3));
    assert_eq!(result, Err(MatchError::NoMatches(String::from("f"))));
}

#[test]
fn trust_goes_by_confidence() {
    assert_eq!(trust_label(d(1.0)), "high");
    assert_eq!(trust_label(d(0.90)), "high");
    assert_eq!(trust_label(d(0.8999999)), "medium");
    assert_eq!(trust_label(d(0.75)), "medium");
    assert_eq!(trust_label(d(0.7499999)), "low");
    assert_eq!(trust_label(d(f64::NAN)), "low");
}

#[test]
fn trust_is_that_of_the_score_before_rounding() {
    let p = report(&Match { score: d(0.89996), rect: rect(1, 2, 3, 4) });
    assert_eq!(f(p.confidence), 0.9);
    assert_eq!(p.trust, "medium");
    assert_eq!((p.x, p.y, p.width, p.height), (1, 2, 3, 4));
}

#[test]
fn what_is_found_lies_on_the_design() {
    // A template of two by three on a design of four by five.
    let m = map(Method::Correlation, (2, 3), 3, 3, &[0.9, 0.1, 0.9, 0.1, 0.1, 0.1, 0.9, 0.1, 0.9]);
    let found = match_template_nms(&m, d(0.5), d(0.3));
    assert_eq!(corners(&found), vec![(0, 0), (2, 0), (0, 2), (2, 2)]);
    for k in &found {
        let p = report(k);
        assert!(p.x >= 0 && p.x + p.width <= 5);
        assert!(p.y >= 0 && p.y + p.height <= 4);
    }
}

#[test]
fn scores_are_held_between_zero_and_one() {
    let m = map(Method::Correlation, (1, 1), 1, 4, &[-1.0, 1.5, 0.5, 1.25]);
    let found = match_template_nms(&m, d(-1.0), d(0.3));
    let scores: Vec<f64> = found.iter().map(|k| f(k.score)).collect();
    assert_eq!(corners(&found), vec![(1, 0), (3, 0), (2, 0), (0, 0)]);
    assert_eq!(scores, vec![1.0, 1.0, 0.5, 0.0]);
    // The threshold is held against the score as it was.
    assert_eq!(match_template_nms(&m, d(0.0), d(0.3)).len(), 3);
}

#[test]
fn transparent_pixels_of_a_template_have_no_influence() {
    let mask = Some(Mask { rows: 2, cols: 2, alpha: Some(vec![255, 0, 9, 0]) });
    let a = picture(2, 2, &[1, 50, 201, 60]);
    let b = picture(2, 2, &[1, 0, 201, 255]);
    assert_eq!(template_variance(&a, &mask), template_variance(&b, &mask));
    assert_eq!(plan_match(7, 8, &a, &mask), plan_match(7, 8, &b, &mask));
}

#[test]
fn a_lower_threshold_only_adds_at_the_end() {
    let scores = [0.9f32, 0.2, 0.95, 0.5, 0.5, 0.91, 0.1, 0.8, 1.5, 0.3, 0.89, 1.2];
    let m = map(Method::Correlation, (2, 2), 3, 4, &scores);
    let thresholds = [1.3, 1.0, 0.95, 0.9, 0.85, 0.5, 0.3, 0.0, -1.0];
    for i in 1..thresholds.len() {
        let few = match_template_nms(&m, d(thresholds[i - 1]), d(0.3));
        let all = match_template_nms(&m, d(thresholds[i]), d(0.3));
        assert!(few.len() <= all.len());
        assert_eq!(few[..], all[..few.len()]);
        for (n, k) in all.iter().enumerate() {
            let raw = scores[(k.rect.y * 4 + k.rect.x) as usize] as f64;
            assert_eq!(n < few.len(), raw >= thresholds[i - 1]);
        }
    }
}
