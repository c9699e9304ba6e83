//! The host's side of a guest run: which step comes next, and when the run
//! stops.
//!
//! The steps themselves are work of the guest runtime. The host performs a
//! step, tells here how it ended, and learns what to do next.

use vstd::bytes::{spec_u32_from_le_bytes, u32_from_le_bytes};
use vstd::prelude::*;
use vstd::slice::slice_subrange;

verus! {

/// The first four bytes of a compiled module, read as a little-endian word.
pub const AOT_MAGIC: u32 = 0x746f_6100;

/// Bytes that a compiled module has at least.
pub const AOT_MIN_SIZE: usize = 16;

/// One step of a run.
#[derive(Clone, Copy, PartialEq, Eq, Structural, Debug)]
pub enum Step {
    /// Start the guest runtime.
    InitRuntime,
    /// Register the logging callback with the runtime.
    RegisterLog,
    /// Load the compiled module. The image is to be admitted first.
    LoadModule,
    /// Make an instance of the module.
    Instantiate,
    /// Look up the function `run` in the instance.
    LookupRun,
    /// Make the environment in which the function runs.
    CreateExecEnv,
    /// Call the function and destroy the environment again.
    CallRun,
}

/// Why a run stopped.
#[derive(Clone, Copy, PartialEq, Eq, Structural, Debug)]
pub enum RunError {
    /// The runtime did not start.
    RuntimeInit,
    /// The logging callback was not accepted.
    RegisterLog,
    /// The image has fewer bytes than a compiled module.
    ImageTooSmall,
    /// The image does not start as a compiled module does.
    ImageBadMagic,
    /// The runtime did not load the module.
    LoadModule,
    /// The runtime made no instance.
    Instantiate,
    /// The instance has no function `run`.
    RunNotFound,
    /// No environment could be made.
    ExecEnv,
    /// The call failed and the guest left an exception.
    GuestException,
    /// The call failed without an exception.
    CallFailed,
}

/// What follows a step.
#[derive(Clone, Copy, PartialEq, Eq, Structural, Debug)]
pub enum Next {
    /// This step is to be performed.
    Perform(Step),
    /// The run is complete.
    Finished,
    /// The run stops with this error.
    Stopped(RunError),
}

/// What follows `step` after it succeeded or failed. `exception` tells
/// whether the guest has left an exception; it counts for the call only.
pub open spec fn step_after(step: Step, succeeded: bool, exception: bool) -> Next {
    match step {
        Step::InitRuntime => if succeeded {
            Next::Perform(Step::RegisterLog)
        } else {
            Next::Stopped(RunError::RuntimeInit)
        },
        Step::RegisterLog => if succeeded {
            Next::Perform(Step::LoadModule)
        } else {
            Next::Stopped(RunError::RegisterLog)
        },
        Step::LoadModule => if succeeded {
            Next::Perform(Step::Instantiate)
        } else {
            Next::Stopped(RunError::LoadModule)
        },
        Step::Instantiate => if succeeded {
            Next::Perform(Step::LookupRun)
        } else {
            Next::Stopped(RunError::Instantiate)
        },
        Step::LookupRun => if succeeded {
            Next::Perform(Step::CreateExecEnv)
        } else {
            Next::Stopped(RunError::RunNotFound)
        },
        Step::CreateExecEnv => if succeeded {
            Next::Perform(Step::CallRun)
        } else {
            Next::Stopped(RunError::ExecEnv)
        },
        Step::CallRun => if succeeded {
            Next::Finished
        } else if exception {
            Next::Stopped(RunError::GuestException)
        } else {
            Next::Stopped(RunError::CallFailed)
        },
    }
}

/// The step with which a run begins.
pub fn first_step() -> (step: Step)
    ensures
        step == Step::InitRuntime,
{
    Step::InitRuntime
}

/// Tells what follows `step`.
pub fn next_step(step: Step, succeeded: bool, exception: bool) -> (next: Next)
    ensures
        next == step_after(step, succeeded, exception),
{
    match step {
        Step::InitRuntime => if succeeded {
            Next::Perform(Step::RegisterLog)
        } else {
            Next::Stopped(RunError::RuntimeInit)
        },
        Step::RegisterLog => if succeeded {
            Next::Perform(Step::LoadModule)
        } else {
            Next::Stopped(RunError::RegisterLog)
        },
        Step::LoadModule => if succeeded {
            Next::Perform(Step::Instantiate)
        } else {
            Next::Stopped(RunError::LoadModule)
        },
        Step::Instantiate => if succeeded {
            Next::Perform(Step::LookupRun)
        } else {
            Next::Stopped(RunError::Instantiate)
        },
        Step::LookupRun => if succeeded {
            Next::Perform(Step::CreateExecEnv)
        } else {
            Next::Stopped(RunError::RunNotFound)
        },
        Step::CreateExecEnv => if succeeded {
            Next::Perform(Step::CallRun)
        } else {
            Next::Stopped(RunError::ExecEnv)
        },
        Step::CallRun => if succeeded {
            Next::Finished
        } else if exception {
            Next::Stopped(RunError::GuestException)
        } else {
            Next::Stopped(RunError::CallFailed)
        },
    }
}

/// The little-endian word that stands `at` bytes into the image.
pub open spec fn word_at(image: Seq<u8>, at: int) -> u32 {
    spec_u32_from_le_bytes(image.subrange(at, at + 4))
}

/// Whether an image is admitted, and with which error it is not: it has
/// to have the least size and to start with the magic word.
pub open spec fn admitted(image: Seq<u8>) -> Result<u32, RunError> {
    if image.len() < AOT_MIN_SIZE {
        Err(RunError::ImageTooSmall)
    } else if word_at(image, 0) != AOT_MAGIC {
        Err(RunError::ImageBadMagic)
    } else {
        Ok(word_at(image, 4))
    }
}

/// Checks the head of a compiled module before it is loaded and gives the
/// version that the image states.
pub fn admit_image(image: &[u8]) -> (version: Result<u32, RunError>)
    ensures
        version == admitted(image@),
{
    if image.len() < AOT_MIN_SIZE {
        return Err(RunError::ImageTooSmall);
    }
    let magic = u32_from_le_bytes(slice_subrange(image, 0, 4));
    if magic != AOT_MAGIC {
        return Err(RunError::ImageBadMagic);
    }
    Ok(u32_from_le_bytes(slice_subrange(image, 4, 8)))
}

impl RunError {
    /// The error in words.
    pub fn message(&self) -> (text: &'static str)
        ensures
            text@ == match *self {
                RunError::RuntimeInit => "Failed to initialize WAMR runtime"@,
                RunError::RegisterLog => "failed to register log function"@,
                RunError::ImageTooSmall => "AOT file too small"@,
                RunError::ImageBadMagic => "Invalid AOT magic number"@,
                RunError::LoadModule => "Failed to load module"@,
                RunError::Instantiate => "Failed to instantiate module"@,
                RunError::RunNotFound => "function 'run' not found"@,
                RunError::ExecEnv => "failed to create exec environment"@,
                RunError::GuestException => "Wasm exception"@,
                RunError::CallFailed => "failed to call 'run' function"@,
            },
    {
        match self {
            RunError::RuntimeInit => "Failed to initialize WAMR runtime",
            RunError::RegisterLog => "failed to register log function",
            RunError::ImageTooSmall => "AOT file too small",
            RunError::ImageBadMagic => "Invalid AOT magic number",
            RunError::LoadModule => "Failed to load module",
            RunError::Instantiate => "Failed to instantiate module",
            RunError::RunNotFound => "function 'run' not found",
            RunError::ExecEnv => "failed to create exec environment",
            RunError::GuestException => "Wasm exception",
            RunError::CallFailed => "failed to call 'run' function",
        }
    }
}

} // verus!
