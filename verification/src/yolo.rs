//! Running a detector next to template matching.
//!
//! Whoever runs commands and reads files performs the step that is due and
//! hands back what happened; which step comes next, and what the run ends with,
//! is decided here.
use crate::double::Double;
use crate::text::{append_number, chars_of, decimal, holds, text_holds};
use crate::venv::CommandOutcome;
use vstd::prelude::*;
use vstd::string::*;

verus! {

/// One component that the detector has seen, with its box as left, top, width
/// and height.
#[derive(Clone, Debug, PartialEq, Eq)]
pub struct YoloDetection {
    pub class_name: String,
    pub confidence: Double,
    pub bbox: [i32; 4],
}

/// What the detector has written. An empty error is none.
#[derive(Clone, Debug, PartialEq, Eq)]
pub struct YoloResult {
    pub detections: Vec<YoloDetection>,
    pub count: usize,
    pub error: Option<String>,
}

/// How the detector is run.
#[derive(Clone, Debug, PartialEq, Eq)]
pub struct YoloConfig {
    pub enabled: bool,
    pub threshold: Double,
    pub conf: Double,
    pub epochs: u32,
    /// The path of the trained model.
    pub cache: String,
}

/// Why a run has failed.
#[derive(Clone, Copy, Debug, PartialEq, Eq, Structural)]
pub enum YoloFailure {
    /// The training could not be run.
    TrainNotRun,
    /// The detector could not be run.
    DetectNotRun,
    /// What the detector has written could not be read.
    OutputNotRead,
    /// What the detector has written could not be parsed.
    OutputNotParsed,
}

/// What is due next.
#[derive(Clone, Debug, PartialEq, Eq)]
pub enum YoloStep {
    /// Begin.
    Begin,
    /// Set up the directory of the detector.
    SetUpDirectory,
    /// Set up the Python environment.
    SetUpVenv,
    /// See whether the trained model is there and not stale.
    ExamineCache,
    /// Train the model.
    Train,
    /// Run the detector.
    Detect,
    /// Read what the detector has written.
    ReadOutput,
    /// The run has ended with nothing to add to the template matches.
    Nothing,
    /// The run has ended with detections.
    Found(Vec<YoloDetection>),
    /// The run has failed.
    Failed(YoloFailure),
}

/// What a step came to.
#[derive(Clone, Debug, PartialEq, Eq)]
pub enum YoloEvent {
    /// A command or a set-up came to this.
    Done(CommandOutcome),
    /// Whether the trained model is there, and whether it is stale.
    Cache { present: bool, stale: bool },
    /// What the detector has written was read and parsed.
    Output(YoloResult),
    /// What the detector has written could not be read.
    Unreadable,
    /// What the detector has written could not be parsed.
    Unparsable,
}

/// Whether the detector reports an error.
pub open spec fn reports_error(result: YoloResult) -> bool {
    result.error matches Some(error) && error@.len() > 0
}

/// The step after the given one. A run that is not enabled ends before anything
/// is done. A set-up, a training or a detection that fails ends it with nothing,
/// as an error that the detector reports does. An event that a step does not come
/// to counts as its failure.
pub open spec fn next_yolo_step(enabled: bool, step: YoloStep, event: YoloEvent) -> YoloStep {
    let ok = event == YoloEvent::Done(CommandOutcome::Succeeded);
    match step {
        YoloStep::Begin => if enabled {
            YoloStep::SetUpDirectory
        } else {
            YoloStep::Nothing
        },
        YoloStep::SetUpDirectory => if ok {
            YoloStep::SetUpVenv
        } else {
            YoloStep::Nothing
        },
        YoloStep::SetUpVenv => if ok {
            YoloStep::ExamineCache
        } else {
            YoloStep::Nothing
        },
        YoloStep::ExamineCache => if event == (YoloEvent::Cache { present: true, stale: false }) {
            YoloStep::Detect
        } else {
            YoloStep::Train
        },
        YoloStep::Train => if event == YoloEvent::Done(CommandOutcome::NotRun) {
            YoloStep::Failed(YoloFailure::TrainNotRun)
        } else if ok {
            YoloStep::Detect
        } else {
            YoloStep::Nothing
        },
        YoloStep::Detect => if event == YoloEvent::Done(CommandOutcome::NotRun) {
            YoloStep::Failed(YoloFailure::DetectNotRun)
        } else if ok {
            YoloStep::ReadOutput
        } else {
            YoloStep::Nothing
        },
        YoloStep::ReadOutput => match event {
            YoloEvent::Output(result) => if reports_error(result) {
                YoloStep::Nothing
            } else {
                YoloStep::Found(result.detections)
            },
            YoloEvent::Unparsable => YoloStep::Failed(YoloFailure::OutputNotParsed),
            _ => YoloStep::Failed(YoloFailure::OutputNotRead),
        },
        ended => ended,
    }
}

fn succeeded(event: &YoloEvent) -> (r: bool)
    ensures
        r == (*event == YoloEvent::Done(CommandOutcome::Succeeded)),
{
    match event {
        YoloEvent::Done(CommandOutcome::Succeeded) => true,
        _ => false,
    }
}

fn not_run(event: &YoloEvent) -> (r: bool)
    ensures
        r == (*event == YoloEvent::Done(CommandOutcome::NotRun)),
{
    match event {
        YoloEvent::Done(CommandOutcome::NotRun) => true,
        _ => false,
    }
}

/// The step after the given one, which came to the given event. The first is
/// `YoloStep::Begin`, which any event follows.
pub fn run_yolo(config: &YoloConfig, step: YoloStep, event: YoloEvent) -> (next: YoloStep)
    ensures
        next == next_yolo_step(config.enabled, step, event),
{
    match step {
        YoloStep::Begin => if config.enabled {
            YoloStep::SetUpDirectory
        } else {
            YoloStep::Nothing
        },
        YoloStep::SetUpDirectory => if succeeded(&event) {
            YoloStep::SetUpVenv
        } else {
            YoloStep::Nothing
        },
        YoloStep::SetUpVenv => if succeeded(&event) {
            YoloStep::ExamineCache
        } else {
            YoloStep::Nothing
        },
        YoloStep::ExamineCache => match event {
            YoloEvent::Cache { present, stale } => if !present || stale {
                YoloStep::Train
            } else {
                YoloStep::Detect
            },
            _ => YoloStep::Train,
        },
        YoloStep::Train => if not_run(&event) {
            YoloStep::Failed(YoloFailure::TrainNotRun)
        } else if succeeded(&event) {
            YoloStep::Detect
        } else {
            YoloStep::Nothing
        },
        YoloStep::Detect => if not_run(&event) {
            YoloStep::Failed(YoloFailure::DetectNotRun)
        } else if succeeded(&event) {
            YoloStep::ReadOutput
        } else {
            YoloStep::Nothing
        },
        YoloStep::ReadOutput => match event {
            YoloEvent::Output(result) => {
                let failed: bool = match &result.error {
                    Some(error) => error.as_str().unicode_len() > 0,
                    None => false,
                };
                if failed {
                    YoloStep::Nothing
                } else {
                    YoloStep::Found(result.detections)
                }
            },
            YoloEvent::Unparsable => YoloStep::Failed(YoloFailure::OutputNotParsed),
            _ => YoloStep::Failed(YoloFailure::OutputNotRead),
        },
        ended => ended,
    }
}

/// A word of a command line.
#[derive(Clone, Debug, PartialEq, Eq)]
pub enum YoloWord {
    Text(&'static str),
    /// The path of the script.
    Script,
    /// The directory of the components.
    ComponentsDir,
    /// The path of the trained model.
    Cache,
    /// The path of the design.
    Design,
    /// The path that the detector writes to.
    Output,
    /// A whole number, in decimal.
    Number(String),
    /// A binary64 number, in the shortest decimal that reads back as it.
    Fraction(Double),
}

/// The number of epochs as a word.
fn epochs_word(epochs: u32) -> (word: YoloWord)
    ensures
        word matches YoloWord::Number(text) && text@ == decimal(epochs as nat),
{
    let mut text: String = String::from_str("");
    proof {
        reveal_strlit("");
    }
    append_number(&mut text, epochs as u64);
    assert(text@ =~= decimal(epochs as nat));
    YoloWord::Number(text)
}

/// The words that follow the Python command when the model is trained.
pub fn train_arguments(config: &YoloConfig) -> (words: Vec<YoloWord>)
    ensures
        words@.len() == 8,
        words@.take(7) == seq![
            YoloWord::Script,
            YoloWord::Text("train"),
            YoloWord::Text("--components"),
            YoloWord::ComponentsDir,
            YoloWord::Text("--output"),
            YoloWord::Cache,
            YoloWord::Text("--epochs"),
        ],
        words@[7] matches YoloWord::Number(text) && text@ == decimal(config.epochs as nat),
{
    let mut words: Vec<YoloWord> = vec![
        YoloWord::Script,
        YoloWord::Text("train"),
        YoloWord::Text("--components"),
        YoloWord::ComponentsDir,
        YoloWord::Text("--output"),
        YoloWord::Cache,
        YoloWord::Text("--epochs"),
    ];
    let ghost first = words@;
    words.push(epochs_word(config.epochs));
    assert(words@.take(7) =~= first);
    words
}

/// The words that follow the Python command when the detector is run.
pub fn detect_arguments(config: &YoloConfig) -> (words: Vec<YoloWord>)
    ensures
        words@ == seq![
            YoloWord::Script,
            YoloWord::Text("detect"),
            YoloWord::Text("--model"),
            YoloWord::Cache,
            YoloWord::Text("--source"),
            YoloWord::Design,
            YoloWord::Text("--output"),
            YoloWord::Output,
            YoloWord::Text("--conf"),
            YoloWord::Fraction(config.conf),
        ],
{
    vec![
        YoloWord::Script,
        YoloWord::Text("detect"),
        YoloWord::Text("--model"),
        YoloWord::Cache,
        YoloWord::Text("--source"),
        YoloWord::Design,
        YoloWord::Text("--output"),
        YoloWord::Output,
        YoloWord::Text("--conf"),
        YoloWord::Fraction(config.conf),
    ]
}

/// An entry of the directory of components, with the time of its last change,
/// if that is known, counted from any fixed moment.
#[derive(Clone, Debug, PartialEq, Eq)]
pub struct DatedEntry {
    pub is_file: bool,
    pub name: String,
    pub modified: Option<i128>,
}

/// Whether an entry is a file, other than a mask image, that has changed since
/// the given time.
pub open spec fn changed_since(entry: DatedEntry, time: i128) -> bool {
    &&& entry.is_file
    &&& !holds(entry.name@, "-matches-"@)
    &&& entry.modified matches Some(modified) && modified > time
}

/// Whether an entry has changed since the given time.
pub open spec fn some_changed_since(entries: Seq<DatedEntry>, time: i128) -> bool {
    exists|i: int| 0 <= i < entries.len() && changed_since(#[trigger] entries[i], time)
}

/// Whether a trained model is stale: when it was trained is not known, the
/// components cannot be listed, or one of them has changed since.
pub open spec fn stale(cache_modified: Option<i128>, entries: Option<Seq<DatedEntry>>) -> bool {
    match (cache_modified, entries) {
        (Some(time), Some(entries)) => some_changed_since(entries, time),
        _ => true,
    }
}

fn find_change(entries: &Vec<DatedEntry>, time: i128) -> (r: bool)
    ensures
        r == some_changed_since(entries@, time),
{
    let mark: Vec<char> = chars_of("-matches-");
    let mut i: usize = 0;
    while i < entries.len()
        invariant
            mark@ == "-matches-"@,
            i <= entries.len(),
            forall|j: int| 0 <= j < i ==> !changed_since(#[trigger] entries@[j], time),
        decreases entries.len() - i,
    {
        let entry: &DatedEntry = &entries[i];
        if entry.is_file && !text_holds(&chars_of(entry.name.as_str()), &mark) {
            if let Some(modified) = entry.modified {
                if modified > time {
                    assert(changed_since(entries@[i as int], time));
                    return true;
                }
            }
        }
        i = i + 1;
    }
    false
}

/// Whether a trained model is stale.
pub fn is_cache_stale(cache_modified: Option<i128>, entries: &Option<Vec<DatedEntry>>) -> (r: bool)
    ensures
        r == stale(
            cache_modified,
            match entries {
                Some(entries) => Some(entries@),
                None => None,
            },
        ),
{
    match (cache_modified, entries) {
        (Some(time), Some(entries)) => find_change(entries, time),
        _ => true,
    }
}

/// Whether a run has ended.
pub open spec fn yolo_ended(step: YoloStep) -> bool {
    step is Nothing || step is Found || step is Failed
}

/// How many steps are left at most.
pub open spec fn yolo_steps_left(step: YoloStep) -> nat {
    match step {
        YoloStep::Begin => 7,
        YoloStep::SetUpDirectory => 6,
        YoloStep::SetUpVenv => 5,
        YoloStep::ExamineCache => 4,
        YoloStep::Train => 3,
        YoloStep::Detect => 2,
        YoloStep::ReadOutput => 1,
        _ => 0,
    }
}

/// Every step brings a run nearer to its end, whatever happens, and a run that
/// has ended stays as it is.
pub proof fn law_run_ends(enabled: bool, step: YoloStep, event: YoloEvent)
    ensures
        yolo_steps_left(step) == 0 <==> yolo_ended(step),
        !yolo_ended(step) ==> yolo_steps_left(next_yolo_step(enabled, step, event))
            < yolo_steps_left(step),
        yolo_ended(step) ==> next_yolo_step(enabled, step, event) == step,
{
}

/// A run that is not enabled ends with nothing before anything is set up, run
/// or read.
pub proof fn law_disabled_does_nothing(event: YoloEvent)
    ensures
        next_yolo_step(false, YoloStep::Begin, event) == YoloStep::Nothing,
{
}

/// A model is trained exactly where there is none or it is stale.
pub proof fn law_trains_only_stale(
    enabled: bool,
    present: bool,
    cache_modified: Option<i128>,
    entries: Option<Seq<DatedEntry>>,
)
    ensures
        next_yolo_step(
            enabled,
            YoloStep::ExamineCache,
            YoloEvent::Cache { present, stale: stale(cache_modified, entries) },
        ) == (if !present || stale(cache_modified, entries) {
            YoloStep::Train
        } else {
            YoloStep::Detect
        }),
{
}

/// Detections are reported only as they were read, and only where the detector
/// reports no error.
pub proof fn law_detections_as_read(enabled: bool, step: YoloStep, event: YoloEvent)
    requires
        !yolo_ended(step),
        next_yolo_step(enabled, step, event) is Found,
    ensures
        step is ReadOutput,
        event matches YoloEvent::Output(result) && !reports_error(result) && next_yolo_step(
            enabled,
            step,
            event,
        ) == YoloStep::Found(result.detections),
{
}

/// Mask images do not make a trained model stale.
pub proof fn law_mask_images_keep_cache(
    time: i128,
    entries: Seq<DatedEntry>,
    entry: DatedEntry,
    stem: Seq<char>,
    count: nat,
)
    requires
        entry.name@ == crate::files::mask_file(stem, count),
    ensures
        stale(Some(time), Some(entries.push(entry))) == stale(Some(time), Some(entries)),
{
    let middle = "-matches-"@;
    assert(entry.name@.subrange(stem.len() as int, stem.len() as int + middle.len()) =~= middle);
    assert(crate::text::stands_at(entry.name@, middle, stem.len() as int));
    let more = entries.push(entry);
    if stale(Some(time), Some(entries)) {
        let i = choose|i: int|
            0 <= i < entries.len() && changed_since(#[trigger] entries[i], time);
        assert(changed_since(more[i], time));
    }
    if stale(Some(time), Some(more)) {
        let i = choose|i: int| 0 <= i < more.len() && changed_since(#[trigger] more[i], time);
        assert(changed_since(entries[i], time));
    }
}

/// What a run does after each step: the directory, the environment and the cache
/// come in this order, the model is trained before it is used unless it is there
/// and not stale, and what the detector has written is read last.
pub proof fn law_run_goes_on(enabled: bool, event: YoloEvent)
    ensures
        ({
            let ok = event == YoloEvent::Done(CommandOutcome::Succeeded);
            let fresh = event == (YoloEvent::Cache { present: true, stale: false });
            &&& next_yolo_step(enabled, YoloStep::Begin, event) == YoloStep::SetUpDirectory
                <==> enabled
            &&& next_yolo_step(enabled, YoloStep::SetUpDirectory, event) == YoloStep::SetUpVenv
                <==> ok
            &&& next_yolo_step(enabled, YoloStep::SetUpVenv, event) == YoloStep::ExamineCache <==> ok
            &&& next_yolo_step(enabled, YoloStep::ExamineCache, event) == YoloStep::Detect
                <==> fresh
            &&& next_yolo_step(enabled, YoloStep::ExamineCache, event) == YoloStep::Train
                <==> !fresh
            &&& next_yolo_step(enabled, YoloStep::Train, event) == YoloStep::Detect <==> ok
            &&& next_yolo_step(enabled, YoloStep::Detect, event) == YoloStep::ReadOutput <==> ok
        }),
{
}

/// When a run fails, and by which failure: where the training or the detector
/// cannot be run, and where what was written cannot be read or parsed.
pub proof fn law_run_fails(enabled: bool, step: YoloStep, event: YoloEvent, failure: YoloFailure)
    requires
        !yolo_ended(step),
    ensures
        next_yolo_step(enabled, step, event) == YoloStep::Failed(failure) <==> match failure {
            YoloFailure::TrainNotRun => step is Train && event == YoloEvent::Done(
                CommandOutcome::NotRun,
            ),
            YoloFailure::DetectNotRun => step is Detect && event == YoloEvent::Done(
                CommandOutcome::NotRun,
            ),
            YoloFailure::OutputNotParsed => step is ReadOutput && event is Unparsable,
            YoloFailure::OutputNotRead => step is ReadOutput && !(event is Unparsable)
                && !(event is Output),
        },
{
}

/// When a run ends with nothing: where it is not enabled, where a set-up fails,
/// where the training or the detector runs and fails, and where the detector
/// reports an error that is not empty.
pub proof fn law_run_adds_nothing(enabled: bool, step: YoloStep, event: YoloEvent)
    requires
        !yolo_ended(step),
    ensures
        ({
            let ok = event == YoloEvent::Done(CommandOutcome::Succeeded);
            let not_run = event == YoloEvent::Done(CommandOutcome::NotRun);
            next_yolo_step(enabled, step, event) is Nothing <==> match step {
                YoloStep::Begin => !enabled,
                YoloStep::SetUpDirectory | YoloStep::SetUpVenv => !ok,
                YoloStep::Train | YoloStep::Detect => !ok && !not_run,
                YoloStep::ReadOutput => event is Output && event->Output_0.error is Some
                    && event->Output_0.error->0@.len() > 0,
                _ => false,
            }
        }),
{
}

/// A trained model is stale exactly where the time of its training or the listing
/// of the components is not known, or where a file other than a mask image was
/// changed after that time.
pub proof fn law_stale_by_time(cache_modified: Option<i128>, entries: Option<Seq<DatedEntry>>)
    ensures
        stale(cache_modified, entries) <==> cache_modified is None || entries is None || exists|i: int|
            0 <= i < entries->0.len() && ({
                let entry = #[trigger] entries->0[i];
                &&& entry.is_file
                &&& !holds(entry.name@, "-matches-"@)
                &&& entry.modified is Some
                &&& entry.modified->0 > cache_modified->0
            }),
{
    if cache_modified is Some && entries is Some {
        let (time, all) = (cache_modified->0, entries->0);
        if stale(cache_modified, entries) {
            let i = choose|i: int| 0 <= i < all.len() && changed_since(#[trigger] all[i], time);
            assert(changed_since(all[i], time));
        }
        if exists|i: int|
            0 <= i < all.len() && ({
                let entry = #[trigger] all[i];
                &&& entry.is_file
                &&& !holds(entry.name@, "-matches-"@)
                &&& entry.modified is Some
                &&& entry.modified->0 > time
            }) {
            let i = choose|i: int|
                0 <= i < all.len() && ({
                    let entry = #[trigger] all[i];
                    &&& entry.is_file
                    &&& !holds(entry.name@, "-matches-"@)
                    &&& entry.modified is Some
                    &&& entry.modified->0 > time
                });
            assert(changed_since(all[i], time));
        }
    }
}

} // verus!
