//! Setting up the Python environment that the detector runs in.
//!
//! Whoever runs commands and looks at files performs the step that is due and
//! hands back what happened; which step comes next is decided here.
use vstd::prelude::*;

verus! {

/// The commands that may start a Python, in the order in which they are tried.
#[derive(Clone, Copy, Debug, PartialEq, Eq, Structural)]
pub enum PythonCommand {
    Python3,
    Python,
}

impl PythonCommand {
    /// The word by which the command is called.
    pub open spec fn word(self) -> Seq<char> {
        match self {
            PythonCommand::Python3 => "python3"@,
            PythonCommand::Python => "python"@,
        }
    }

    /// The word by which the command is called.
    pub fn name(self) -> (name: &'static str)
        ensures
            name@ == self.word(),
    {
        match self {
            PythonCommand::Python3 => "python3",
            PythonCommand::Python => "python",
        }
    }
}

/// Why there is no environment.
#[derive(Clone, Copy, Debug, PartialEq, Eq, Structural)]
pub enum VenvFailure {
    /// No command starts a Python.
    NoPython,
    /// The command that creates the environment could not be run.
    CreationNotRun,
    /// The command that creates the environment has failed.
    CreationFailed,
    /// The installer could not be run.
    InstallNotRun,
    /// The installer has failed.
    InstallFailed,
}

/// What is due next.
#[derive(Clone, Copy, Debug, PartialEq, Eq, Structural)]
pub enum VenvStep {
    /// See whether the environment has a Python.
    LookForPython,
    /// See whether that Python has the detector.
    CheckDetector,
    /// Ask a command of the system for its version.
    TryPython(PythonCommand),
    /// Create the environment with a command of the system.
    CreateVenv(PythonCommand),
    /// Install the detector into the environment.
    InstallDetector,
    /// The environment is there.
    Ready,
    /// There is no environment.
    Failed(VenvFailure),
}

/// What a command came to.
#[derive(Clone, Copy, Debug, PartialEq, Eq, Structural)]
pub enum CommandOutcome {
    /// It could not be run.
    NotRun,
    /// It has failed, or what was looked for is not there.
    Failed,
    /// It has succeeded, or what was looked for is there.
    Succeeded,
}

/// The step after the given one.
pub open spec fn next_venv_step(step: VenvStep, outcome: CommandOutcome) -> VenvStep {
    let ok = outcome == CommandOutcome::Succeeded;
    match step {
        VenvStep::LookForPython => if ok {
            VenvStep::CheckDetector
        } else {
            VenvStep::TryPython(PythonCommand::Python3)
        },
        VenvStep::CheckDetector => if ok {
            VenvStep::Ready
        } else {
            VenvStep::InstallDetector
        },
        VenvStep::TryPython(command) => if ok {
            VenvStep::CreateVenv(command)
        } else if command == PythonCommand::Python3 {
            VenvStep::TryPython(PythonCommand::Python)
        } else {
            VenvStep::Failed(VenvFailure::NoPython)
        },
        VenvStep::CreateVenv(_) => match outcome {
            CommandOutcome::NotRun => VenvStep::Failed(VenvFailure::CreationNotRun),
            CommandOutcome::Failed => VenvStep::Failed(VenvFailure::CreationFailed),
            CommandOutcome::Succeeded => VenvStep::InstallDetector,
        },
        VenvStep::InstallDetector => match outcome {
            CommandOutcome::NotRun => VenvStep::Failed(VenvFailure::InstallNotRun),
            CommandOutcome::Failed => VenvStep::Failed(VenvFailure::InstallFailed),
            CommandOutcome::Succeeded => VenvStep::Ready,
        },
        VenvStep::Ready => VenvStep::Ready,
        VenvStep::Failed(failure) => VenvStep::Failed(failure),
    }
}

/// The step after the given one, which came to the given outcome. The first is
/// `VenvStep::LookForPython`.
pub fn ensure_venv(step: VenvStep, outcome: CommandOutcome) -> (next: VenvStep)
    ensures
        next == next_venv_step(step, outcome),
{
    match (step, outcome) {
        (VenvStep::LookForPython, CommandOutcome::Succeeded) => VenvStep::CheckDetector,
        (VenvStep::LookForPython, _) => VenvStep::TryPython(PythonCommand::Python3),
        (VenvStep::CheckDetector, CommandOutcome::Succeeded) => VenvStep::Ready,
        (VenvStep::CheckDetector, _) => VenvStep::InstallDetector,
        (VenvStep::TryPython(command), CommandOutcome::Succeeded) => VenvStep::CreateVenv(command),
        (VenvStep::TryPython(PythonCommand::Python3), _) => VenvStep::TryPython(
            PythonCommand::Python,
        ),
        (VenvStep::TryPython(PythonCommand::Python), _) => VenvStep::Failed(VenvFailure::NoPython),
        (VenvStep::CreateVenv(_), CommandOutcome::NotRun) => VenvStep::Failed(
            VenvFailure::CreationNotRun,
        ),
        (VenvStep::CreateVenv(_), CommandOutcome::Failed) => VenvStep::Failed(
            VenvFailure::CreationFailed,
        ),
        (VenvStep::CreateVenv(_), CommandOutcome::Succeeded) => VenvStep::InstallDetector,
        (VenvStep::InstallDetector, CommandOutcome::NotRun) => VenvStep::Failed(
            VenvFailure::InstallNotRun,
        ),
        (VenvStep::InstallDetector, CommandOutcome::Failed) => VenvStep::Failed(
            VenvFailure::InstallFailed,
        ),
        (VenvStep::InstallDetector, CommandOutcome::Succeeded) => VenvStep::Ready,
        (VenvStep::Ready, _) => VenvStep::Ready,
        (VenvStep::Failed(failure), _) => VenvStep::Failed(failure),
    }
}

/// Whether nothing is left to do.
pub open spec fn venv_settled(step: VenvStep) -> bool {
    step is Ready || step is Failed
}

/// How many steps are left at most.
pub open spec fn venv_steps_left(step: VenvStep) -> nat {
    match step {
        VenvStep::LookForPython => 5,
        VenvStep::TryPython(PythonCommand::Python3) => 4,
        VenvStep::TryPython(PythonCommand::Python) => 3,
        VenvStep::CreateVenv(_) | VenvStep::CheckDetector => 2,
        VenvStep::InstallDetector => 1,
        VenvStep::Ready | VenvStep::Failed(_) => 0,
    }
}

/// Every step brings the set-up nearer to its end, whatever happens, and where
/// it has ended it stays.
pub proof fn law_venv_settles(step: VenvStep, outcome: CommandOutcome)
    ensures
        venv_steps_left(step) == 0 <==> venv_settled(step),
        !venv_settled(step) ==> venv_steps_left(next_venv_step(step, outcome)) < venv_steps_left(
            step,
        ),
        venv_settled(step) ==> next_venv_step(step, outcome) == step,
{
}

/// The environment is taken to be there only where the detector was seen in it
/// or has just been installed.
pub proof fn law_venv_ready_has_detector(step: VenvStep, outcome: CommandOutcome)
    requires
        !venv_settled(step),
        next_venv_step(step, outcome) is Ready,
    ensures
        outcome == CommandOutcome::Succeeded,
        step is CheckDetector || step is InstallDetector,
{
}

/// An environment that is there is never created anew.
pub proof fn law_venv_not_created_twice(outcome: CommandOutcome, then: CommandOutcome)
    ensures
        next_venv_step(
            VenvStep::LookForPython,
            CommandOutcome::Succeeded,
        ) == VenvStep::CheckDetector,
        !(next_venv_step(VenvStep::CheckDetector, outcome) is CreateVenv),
        !(next_venv_step(VenvStep::CheckDetector, outcome) is TryPython),
        !(next_venv_step(VenvStep::InstallDetector, then) is CreateVenv),
        !(next_venv_step(VenvStep::InstallDetector, then) is TryPython),
{
}

/// A word of a command line.
#[derive(Clone, Copy, Debug, PartialEq, Eq)]
pub enum VenvWord {
    Text(&'static str),
    /// The directory of the environment.
    VenvDir,
}

/// The words that follow the command of a step, none where the step runs none.
pub fn venv_arguments(step: VenvStep) -> (words: Vec<VenvWord>)
    ensures
        words@ == (match step {
            VenvStep::CheckDetector => seq![
                VenvWord::Text("-c"),
                VenvWord::Text("import ultralytics"),
            ],
            VenvStep::TryPython(_) => seq![VenvWord::Text("--version")],
            VenvStep::CreateVenv(_) => seq![
                VenvWord::Text("-m"),
                VenvWord::Text("venv"),
                VenvWord::VenvDir,
            ],
            VenvStep::InstallDetector => seq![
                VenvWord::Text("install"),
                VenvWord::Text("-q"),
                VenvWord::Text("ultralytics"),
            ],
            _ => Seq::empty(),
        }),
{
    match step {
        VenvStep::CheckDetector => vec![VenvWord::Text("-c"), VenvWord::Text("import ultralytics")],
        VenvStep::TryPython(_) => vec![VenvWord::Text("--version")],
        VenvStep::CreateVenv(_) => vec![
            VenvWord::Text("-m"),
            VenvWord::Text("venv"),
            VenvWord::VenvDir,
        ],
        VenvStep::InstallDetector => vec![
            VenvWord::Text("install"),
            VenvWord::Text("-q"),
            VenvWord::Text("ultralytics"),
        ],
        _ => Vec::new(),
    }
}

/// Where the Python of an environment lies: a directory in it, and a file there.
pub fn venv_python(windows: bool) -> (path: (&'static str, &'static str))
    ensures
        path.0@ == (if windows {
            "Scripts"@
        } else {
            "bin"@
        }),
        path.1@ == (if windows {
            "python.exe"@
        } else {
            "python"@
        }),
{
    if windows {
        ("Scripts", "python.exe")
    } else {
        ("bin", "python")
    }
}

/// Where the installer of an environment lies: a directory in it, and a file there.
pub fn venv_pip(windows: bool) -> (path: (&'static str, &'static str))
    ensures
        path.0@ == (if windows {
            "Scripts"@
        } else {
            "bin"@
        }),
        path.1@ == (if windows {
            "pip.exe"@
        } else {
            "pip"@
        }),
{
    if windows {
        ("Scripts", "pip.exe")
    } else {
        ("bin", "pip")
    }
}

/// How an environment is set up: one that has a Python is looked into, and the
/// detector installed where it is not in it; otherwise the first command that
/// starts a Python creates one, into which the detector is installed.
pub proof fn law_venv_goes_on(command: PythonCommand, outcome: CommandOutcome)
    ensures
        ({
            let ok = outcome == CommandOutcome::Succeeded;
            let look = next_venv_step(VenvStep::LookForPython, outcome);
            let check = next_venv_step(VenvStep::CheckDetector, outcome);
            let attempt = next_venv_step(VenvStep::TryPython(command), outcome);
            let create = next_venv_step(VenvStep::CreateVenv(command), outcome);
            let install = next_venv_step(VenvStep::InstallDetector, outcome);
            &&& ok ==> look == VenvStep::CheckDetector && check == VenvStep::Ready && attempt
                == VenvStep::CreateVenv(command) && create == VenvStep::InstallDetector && install
                == VenvStep::Ready
            &&& !ok ==> look == VenvStep::TryPython(PythonCommand::Python3) && check
                == VenvStep::InstallDetector
            &&& !ok && command == PythonCommand::Python3 ==> attempt == VenvStep::TryPython(
                PythonCommand::Python,
            )
        }),
{
}

/// When the set-up of an environment fails, and by which failure: where neither
/// command starts a Python, and where creating the environment or installing the
/// detector cannot be run or fails.
pub proof fn law_venv_fails(step: VenvStep, outcome: CommandOutcome, failure: VenvFailure)
    requires
        !venv_settled(step),
    ensures
        next_venv_step(step, outcome) == VenvStep::Failed(failure) <==> match failure {
            VenvFailure::NoPython => step == VenvStep::TryPython(PythonCommand::Python) && outcome
                != CommandOutcome::Succeeded,
            VenvFailure::CreationNotRun => step is CreateVenv && outcome == CommandOutcome::NotRun,
            VenvFailure::CreationFailed => step is CreateVenv && outcome == CommandOutcome::Failed,
            VenvFailure::InstallNotRun => step is InstallDetector && outcome
                == CommandOutcome::NotRun,
            VenvFailure::InstallFailed => step is InstallDetector && outcome
                == CommandOutcome::Failed,
        },
{
}

} // verus!
