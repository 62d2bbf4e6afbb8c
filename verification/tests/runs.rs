use opencv_ui_cli::descent::{MatchError, Position};
use opencv_ui_cli::double::Double;
use opencv_ui_cli::entry::{make_entry, MatchEntry};
use opencv_ui_cli::files::{
    component_files, is_mask_output, is_picture_extension, mask_file_name, short_name, DirectoryEntry,
};
use opencv_ui_cli::matching::{Method, ScoreMap};
use opencv_ui_cli::passes::{
    best_of, find_entry, first_pass, largest_first, mask_matches, merge_second_pass, second_pass, Search,
    SecondPass,
};
use opencv_ui_cli::picture::{Mask, Picture, Pixel, Rect};
use opencv_ui_cli::region::{refine_yolo_region, search_region};
use opencv_ui_cli::venv::{
    ensure_venv, venv_arguments, venv_pip, venv_python, CommandOutcome, PythonCommand, VenvFailure, VenvStep,
    VenvWord,
};
use opencv_ui_cli::yolo::{
    detect_arguments, is_cache_stale, run_yolo, train_arguments, DatedEntry, YoloConfig, YoloDetection,
    YoloEvent, YoloFailure, YoloResult, YoloStep, YoloWord,
};

fn d(x: f64) -> Double {
    Double { bits: x.to_bits() }
}

fn f(x: Double) -> f64 {
    f64::from_bits(x.bits)
}

fn position(x: i32, y: i32, width: i32, height: i32, confidence: f64) -> Position {
    Position { x, y, width, height, confidence: d(confidence), trust: String::from("high") }
}

fn entry(name: &str, confidences: &[f64]) -> MatchEntry {
    make_entry(name, confidences.iter().map(|c| position(0, 0, 1, 1, *c)).collect())
}

fn search() -> Search {
    Search { start_threshold: d(0.95), step: d(0.05), nms_threshold: d(0.3) }
}

fn scores(templ: (i32, i32), rows: i32, cols: i32, values: &[f32]) -> Option<ScoreMap> {
    Some(ScoreMap {
        method: Method::Correlation,
        templ_rows: templ.0,
        templ_cols: templ.1,
        rows,
        cols,
        scores: values.iter().map(|s| s.to_bits()).collect(),
    })
}

fn listed(name: &str) -> DirectoryEntry {
    DirectoryEntry {
        is_file: true,
        name: String::from(name),
        extension: name.rsplit_once('.').map(|(_, e)| String::from(e)),
        bytes: name.as_bytes().to_vec(),
    }
}

#[test]
fn components_are_picture_files_in_the_order_of_names() {
    let mut entries: Vec<DirectoryEntry> = Vec::new();
    for name in ["z.png", "b.JPG", "a.txt", "c.webp", "Z.bmp", "b-matches-2.png", "d.JpEg", "readme", "a.gif"] {
        entries.push(listed(name));
    }
    entries.push(DirectoryEntry { is_file: false, ..listed("dir.png") });
    let names: Vec<String> = component_files(&entries).iter().map(|k| entries[*k].name.clone()).collect();
    assert_eq!(names, vec!["Z.bmp", "b.JPG", "c.webp", "d.JpEg", "z.png"]);
}

#[test]
fn names_sort_as_the_machine_sorts_them() {
    let names = ["b.png", "a.png", "ab.png", "a-b.png", "B.png", "\u{e9}.png", "\u{1f600}.png", "\u{ffff}.png", "a.png2.png"];
    let entries: Vec<DirectoryEntry> = names.iter().map(|n| listed(n)).collect();
    let mut sorted: Vec<&str> = names.to_vec();
    sorted.sort();
    let found: Vec<&str> = component_files(&entries).iter().map(|k| names[*k]).collect();
    assert_eq!(found, sorted);
}

#[test]
fn lower_case_goes_beyond_ascii() {
    // The Kelvin sign becomes a plain k, which makes no known extension.
    let odd = listed("a.JPE\u{212a}");
    let even = listed("b.PNG");
    assert_eq!(component_files(&vec![odd, even]), vec![1]);
}

#[test]
fn names_that_are_no_text_are_ordered_by_their_bytes() {
    let mut entries = vec![listed("z.png"), listed("a.png")];
    let bytes = vec![b'm', 0xff, b'.', b'p', b'n', b'g'];
    entries.push(DirectoryEntry { name: String::new(), bytes, ..listed("m.png") });
    assert_eq!(component_files(&entries), vec![1, 2, 0]);
}

#[test]
fn extensions_of_pictures() {
    for e in ["png", "jpg", "jpeg", "webp", "bmp"] {
        assert!(is_picture_extension(&String::from(e)));
    }
    for e in ["PNG", "gif", "", "pn"] {
        assert!(!is_picture_extension(&String::from(e)));
    }
}

#[test]
fn mask_images_are_recognised() {
    let name = mask_file_name("button", 12);
    assert_eq!(name, "button-matches-12.png");
    assert!(is_mask_output(name.as_str()));
    assert!(component_files(&vec![listed(name.as_str())]).is_empty());
    assert!(!is_mask_output("a-matches-1.jpg"));
    assert!(!is_mask_output("a-match-1.png"));
    assert!(is_mask_output("-matches-.png"));
    assert!(!is_mask_output(""));
}

#[test]
fn short_names_lose_every_ending() {
    assert_eq!(short_name("a.png"), "a");
    assert_eq!(short_name("a.png.png"), "a");
    assert_eq!(short_name(".png"), "");
    assert_eq!(short_name("a.PNG"), "a.PNG");
    assert_eq!(short_name("a.png.jpg"), "a.png.jpg");
    assert_eq!(short_name("\u{e9}.png"), "\u{e9}");
}

#[test]
fn the_first_pass_adds_what_it_finds() {
    let mut all: Vec<MatchEntry> = Vec::new();
    let found = first_pass(&mut all, &scores((1, 1), 1, 2, &[0.96, 0.97]), "a.png", search());
    assert_eq!(found, Ok(d(0.95)));
    let none = first_pass(&mut all, &None, "b.png", search());
    assert_eq!(none, Err(MatchError::NoMatches(String::from("b.png"))));
    let few = Search { step: d(0.0), ..search() };
    let out = first_pass(&mut all, &scores((1, 1), 1, 1, &[0.1]), "c.png", few);
    assert_eq!(out, Err(MatchError::Endless));
    assert_eq!(all.len(), 1);
    assert_eq!((all[0].component.as_str(), all[0].count), ("a.png", 2));
    assert_eq!(all[0].positions[0].x, 1);
}

#[test]
fn the_best_confidence_is_at_least_zero() {
    assert_eq!(f(best_of(&entry("a", &[0.2, 0.9, 0.5]).positions)), 0.9);
    assert_eq!(f(best_of(&entry("a", &[]).positions)), 0.0);
    assert_eq!(f(best_of(&entry("a", &[-0.5]).positions)), 0.0);
    assert_eq!(f(best_of(&entry("a", &[f64::NAN, 0.3]).positions)), 0.3);
}

#[test]
fn the_second_pass_replaces_only_what_is_worse() {
    let mut all = vec![entry("a", &[0.5, 0.8]), entry("b", &[0.9])];
    assert_eq!(merge_second_pass(&mut all, "a", entry("a", &[0.8]).positions), SecondPass::Kept(0));
    assert_eq!(all[0], entry("a", &[0.5, 0.8]));
    assert_eq!(merge_second_pass(&mut all, "b", entry("b", &[0.2, 0.95]).positions), SecondPass::Replaced(1));
    assert_eq!(merge_second_pass(&mut all, "c", entry("c", &[0.1]).positions), SecondPass::Added);
    assert_eq!(all, vec![entry("a", &[0.5, 0.8]), entry("b", &[0.2, 0.95]), entry("c", &[0.1])]);
    assert_eq!(all[1].count, 2);
}

#[test]
fn the_first_of_two_entries_is_found() {
    let all = vec![entry("a", &[0.1]), entry("b", &[0.2]), entry("b", &[0.3])];
    assert_eq!(find_entry(&all, "b"), Some(1));
    assert_eq!(find_entry(&all, "x"), None);
}

#[test]
fn the_second_pass_looks_again() {
    let mut all = vec![entry("a", &[0.5])];
    let better = second_pass(&mut all, &scores((1, 1), 1, 1, &[0.75]), "a", search());
    assert_eq!(better, Ok((d(0.75), SecondPass::Replaced(0))));
    assert_eq!(f(all[0].positions[0].confidence), 0.75);
    let none = second_pass(&mut all, &None, "a", search());
    assert_eq!(none, Err(MatchError::NoMatches(String::from("a"))));
    let few = Search { step: d(0.0), ..search() };
    let out = second_pass(&mut all, &scores((1, 1), 1, 1, &[0.1]), "a", few);
    assert_eq!(out, Err(MatchError::Endless));
    let new = second_pass(&mut all, &scores((1, 1), 1, 1, &[0.99]), "n", search());
    assert_eq!(new, Ok((d(0.95), SecondPass::Added)));
    assert_eq!(all.len(), 2);
}

#[test]
fn the_largest_comes_first() {
    let sized = |w: i32, h: i32| make_entry("x", vec![position(0, 0, w, h, 1.0), position(0, 0, 99, 99, 1.0)]);
    let all = vec![sized(2, 3), sized(4, 4), make_entry("e", vec![]), sized(3, 2), sized(1, 1)];
    let order: Vec<usize> = largest_first(&all).iter().map(|e| e.index).collect();
    assert_eq!(order, vec![1, 0, 3, 4, 2]);
}

#[test]
fn what_was_found_is_painted_over_largest_first() {
    let gray = |v: u8| Pixel { b: v, g: v, r: v };
    let row = [50u8, 50, 10, 20, 30, 50, 50];
    let mut img = Picture { rows: 1, cols: 7, pixels: Some(row.iter().map(|v| gray(*v)).collect()) };
    // A small component embedded in a large one.
    let all = vec![
        make_entry("small", vec![position(3, 0, 1, 1, 1.0)]),
        make_entry("large", vec![position(2, 0, 3, 1, 1.0)]),
        make_entry("lost", vec![position(0, 0, 7, 1, 1.0)]),
    ];
    let holed: Option<Mask> = Some(Mask { rows: 1, cols: 3, alpha: Some(vec![255, 0, 255]) });
    mask_matches(&mut img, &all, &vec![Some(None), Some(holed), None]);
    // The large one turns to its border, and then the small one to that color.
    assert_eq!(img.pixels, Some(vec![gray(50); 7]));
}

#[test]
fn regions_are_expanded_and_cut_at_the_design() {
    let around = |bbox: Rect| search_region((100, 80), (10, 10), bbox, d(0.2));
    assert_eq!(
        around(Rect { x: 40, y: 30, width: 20, height: 12 }),
        Some(Rect { x: 36, y: 28, width: 28, height: 16 })
    );
    assert_eq!(
        around(Rect { x: 1, y: 70, width: 20, height: 20 }),
        Some(Rect { x: 0, y: 66, width: 25, height: 14 })
    );
    assert_eq!(around(Rect { x: 1, y: 75, width: 20, height: 20 }), None);
    assert_eq!(
        around(Rect { x: 1, y: 60, width: 20, height: 20 }),
        Some(Rect { x: 0, y: 56, width: 25, height: 24 })
    );
    assert_eq!(
        around(Rect { x: 90, y: 0, width: 20, height: 20 }),
        Some(Rect { x: 86, y: 0, width: 14, height: 24 })
    );
}

#[test]
fn a_region_stays_inside_the_expanded_box() {
    for x in -20..60 {
        let bbox = Rect { x, y: 5, width: 10, height: 10 };
        if let Some(r) = search_region((40, 40), (1, 1), bbox, d(0.5)) {
            assert!(r.x >= 0 && r.x + r.width <= 40);
            assert!(r.x >= x - 5 && r.x + r.width <= x + 15);
            assert_eq!((r.y, r.height), (0, 20));
        }
    }
    assert_eq!(search_region((3, 3), (1, 1), Rect { x: 0, y: 0, width: 1, height: 1 }, d(1.0)), Some(Rect { x: 0, y: 0, width: 2, height: 2 }));
    let huge = Rect { x: i32::MAX, y: i32::MIN, width: i32::MAX, height: i32::MIN };
    assert_eq!(search_region((9, 9), (1, 1), huge, d(1e9)), None);
}

#[test]
fn a_template_larger_than_its_region_is_not_looked_for() {
    let bbox = Rect { x: 0, y: 0, width: 10, height: 10 };
    assert_eq!(search_region((50, 50), (15, 5), bbox, d(0.2)), None);
    assert_eq!(search_region((50, 50), (12, 12), bbox, d(0.2)), Some(Rect { x: 0, y: 0, width: 12, height: 12 }));
    assert_eq!(search_region((50, 50), (13, 12), bbox, d(0.2)), None);
    assert_eq!(search_region((50, 50), (5, 15), bbox, d(0.2)), None);
}

#[test]
fn the_last_of_the_best_is_refined() {
    let region = Rect { x: 10, y: 20, width: 3, height: 1 };
    let found = refine_yolo_region(region, &scores((1, 1), 1, 3, &[0.96, 0.99, 0.99]), search());
    match found {
        Ok(Some(r)) => {
            assert_eq!((r.position.x, r.position.y), (12, 20));
            assert_eq!((r.position.width, r.position.height), (1, 1));
            assert_eq!(f(r.position.confidence), 0.99);
            assert_eq!(r.position.trust, "high");
            assert_eq!(r.source, "yolo+template");
        },
        _ => panic!("no position"),
    }
    assert_eq!(refine_yolo_region(region, &None, search()), Ok(None));
    let few = Search { step: d(0.0), ..search() };
    assert_eq!(
        refine_yolo_region(region, &scores((1, 1), 1, 1, &[0.1]), few),
        Err(MatchError::Endless)
    );
}

fn set_up(outcomes: &[CommandOutcome]) -> VenvStep {
    let mut step = VenvStep::LookForPython;
    for o in outcomes {
        step = ensure_venv(step, *o);
    }
    step
}

#[test]
fn an_environment_is_set_up_step_by_step() {
    let (yes, no, never) = (CommandOutcome::Succeeded, CommandOutcome::Failed, CommandOutcome::NotRun);
    assert_eq!(set_up(&[yes, yes]), VenvStep::Ready);
    assert_eq!(set_up(&[yes, no]), VenvStep::InstallDetector);
    assert_eq!(set_up(&[yes, never, yes]), VenvStep::Ready);
    assert_eq!(set_up(&[yes, no, no]), VenvStep::Failed(VenvFailure::InstallFailed));
    assert_eq!(set_up(&[yes, no, never]), VenvStep::Failed(VenvFailure::InstallNotRun));
    assert_eq!(set_up(&[no]), VenvStep::TryPython(PythonCommand::Python3));
    assert_eq!(set_up(&[no, yes]), VenvStep::CreateVenv(PythonCommand::Python3));
    assert_eq!(set_up(&[no, never, yes]), VenvStep::CreateVenv(PythonCommand::Python));
    assert_eq!(set_up(&[no, no, no]), VenvStep::Failed(VenvFailure::NoPython));
    assert_eq!(set_up(&[no, yes, no]), VenvStep::Failed(VenvFailure::CreationFailed));
    assert_eq!(set_up(&[no, yes, never]), VenvStep::Failed(VenvFailure::CreationNotRun));
    assert_eq!(set_up(&[no, no, yes, yes, yes]), VenvStep::Ready);
    assert_eq!(set_up(&[no, no, yes, yes, yes, no]), VenvStep::Ready);
    assert_eq!(set_up(&[no, no, no, yes]), VenvStep::Failed(VenvFailure::NoPython));
}

#[test]
fn the_commands_of_a_set_up() {
    assert_eq!(PythonCommand::Python3.name(), "python3");
    assert_eq!(PythonCommand::Python.name(), "python");
    assert_eq!(
        venv_arguments(VenvStep::CheckDetector),
        vec![VenvWord::Text("-c"), VenvWord::Text("import ultralytics")]
    );
    assert_eq!(
        venv_arguments(VenvStep::CreateVenv(PythonCommand::Python)),
        vec![VenvWord::Text("-m"), VenvWord::Text("venv"), VenvWord::VenvDir]
    );
    assert_eq!(
        venv_arguments(VenvStep::InstallDetector),
        vec![VenvWord::Text("install"), VenvWord::Text("-q"), VenvWord::Text("ultralytics")]
    );
    assert_eq!(venv_arguments(VenvStep::TryPython(PythonCommand::Python)), vec![VenvWord::Text("--version")]);
    assert_eq!(venv_arguments(VenvStep::Ready), vec![]);
    assert_eq!(venv_python(false), ("bin", "python"));
    assert_eq!(venv_python(true), ("Scripts", "python.exe"));
    assert_eq!(venv_pip(false), ("bin", "pip"));
    assert_eq!(venv_pip(true), ("Scripts", "pip.exe"));
}

fn config(enabled: bool) -> YoloConfig {
    YoloConfig { enabled, threshold: d(0.5), conf: d(0.25), epochs: 100, cache: String::from("model.pt") }
}

fn run(events: &[YoloEvent]) -> YoloStep {
    let mut step = run_yolo(&config(true), YoloStep::Begin, YoloEvent::Done(CommandOutcome::Succeeded));
    for e in events {
        step = run_yolo(&config(true), step, e.clone());
    }
    step
}

fn result(error: Option<&str>) -> YoloResult {
    let seen = YoloDetection { class_name: String::from("button"), confidence: d(0.7), bbox: [1, 2, 3, 4] };
    YoloResult { detections: vec![seen], count: 1, error: error.map(String::from) }
}

#[test]
fn a_run_that_is_not_enabled_does_nothing() {
    let step = run_yolo(&config(false), YoloStep::Begin, YoloEvent::Done(CommandOutcome::Succeeded));
    assert_eq!(step, YoloStep::Nothing);
}

#[test]
fn a_run_goes_through_its_steps() {
    let yes = YoloEvent::Done(CommandOutcome::Succeeded);
    let no = YoloEvent::Done(CommandOutcome::Failed);
    let never = YoloEvent::Done(CommandOutcome::NotRun);
    let fresh = YoloEvent::Cache { present: true, stale: false };
    let stale = YoloEvent::Cache { present: true, stale: true };
    let absent = YoloEvent::Cache { present: false, stale: false };
    assert_eq!(run(&[]), YoloStep::SetUpDirectory);
    assert_eq!(run(&[no.clone()]), YoloStep::Nothing);
    assert_eq!(run(&[yes.clone()]), YoloStep::SetUpVenv);
    assert_eq!(run(&[yes.clone(), no.clone()]), YoloStep::Nothing);
    assert_eq!(run(&[yes.clone(), yes.clone()]), YoloStep::ExamineCache);
    assert_eq!(run(&[yes.clone(), yes.clone(), fresh.clone()]), YoloStep::Detect);
    assert_eq!(run(&[yes.clone(), yes.clone(), absent]), YoloStep::Train);
    let up = |rest: &[YoloEvent]| {
        let mut all = vec![yes.clone(), yes.clone(), stale.clone()];
        all.extend_from_slice(rest);
        run(&all)
    };
    assert_eq!(up(&[]), YoloStep::Train);
    assert_eq!(up(&[no.clone()]), YoloStep::Nothing);
    assert_eq!(up(&[never.clone()]), YoloStep::Failed(YoloFailure::TrainNotRun));
    assert_eq!(up(&[yes.clone(), no]), YoloStep::Nothing);
    assert_eq!(up(&[yes.clone(), never]), YoloStep::Failed(YoloFailure::DetectNotRun));
    assert_eq!(up(&[yes.clone(), yes.clone()]), YoloStep::ReadOutput);
    let read = |e: YoloEvent| up(&[yes.clone(), yes.clone(), e]);
    assert_eq!(read(YoloEvent::Unreadable), YoloStep::Failed(YoloFailure::OutputNotRead));
    assert_eq!(read(YoloEvent::Unparsable), YoloStep::Failed(YoloFailure::OutputNotParsed));
    assert_eq!(read(YoloEvent::Output(result(Some("bad")))), YoloStep::Nothing);
    assert_eq!(read(YoloEvent::Output(result(Some("")))), YoloStep::Found(result(None).detections));
    assert_eq!(read(YoloEvent::Output(result(None))), YoloStep::Found(result(None).detections));
}

#[test]
fn a_run_that_has_ended_stays() {
    let yes = YoloEvent::Done(CommandOutcome::Succeeded);
    assert_eq!(run_yolo(&config(true), YoloStep::Nothing, yes.clone()), YoloStep::Nothing);
    let failed = YoloStep::Failed(YoloFailure::TrainNotRun);
    assert_eq!(run_yolo(&config(true), failed.clone(), yes), failed);
}

#[test]
fn the_commands_of_a_run() {
    assert_eq!(
        train_arguments(&config(true)),
        vec![
            YoloWord::Script,
            YoloWord::Text("train"),
            YoloWord::Text("--components"),
            YoloWord::ComponentsDir,
            YoloWord::Text("--output"),
            YoloWord::Cache,
            YoloWord::Text("--epochs"),
            YoloWord::Number(String::from("100")),
        ]
    );
    assert_eq!(
        detect_arguments(&config(true)),
        vec![
            YoloWord::Script,
            YoloWord::Text("detect"),
            YoloWord::Text("--model"),
            YoloWord::Cache,
            YoloWord::Text("--source"),
            YoloWord::Design,
            YoloWord::Text("--output"),
            YoloWord::Output,
            YoloWord::Text("--conf"),
            YoloWord::Fraction(d(0.25)),
        ]
    );
}

#[test]
fn a_model_is_stale_when_a_component_has_changed() {
    let file = |name: &str, modified: Option<i128>| DatedEntry { is_file: true, name: String::from(name), modified };
    let old = vec![file("a.png", Some(5)), file("b.png", Some(10)), file("c.png", None)];
    assert!(!is_cache_stale(Some(10), &Some(old.clone())));
    assert!(is_cache_stale(Some(9), &Some(old.clone())));
    assert!(is_cache_stale(None, &Some(old.clone())));
    assert!(is_cache_stale(Some(10), &None));
    assert!(!is_cache_stale(Some(10), &Some(vec![])));
    let mut masks = old.clone();
    masks.push(file(mask_file_name("a", 3).as_str(), Some(99)));
    masks.push(DatedEntry { is_file: false, name: String::from("dir"), modified: Some(99) });
    assert!(!is_cache_stale(Some(10), &Some(masks)));
    let mut changed = old;
    changed.push(file("notes.txt", Some(11)));
    assert!(is_cache_stale(Some(10), &Some(changed)));
}
