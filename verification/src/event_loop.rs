//! What the launcher does after it has handled the events of a microVM.

use crate::text::message;
use vstd::prelude::*;
use vstd::string::StringExecFns;

verus! {

/// The next step of the event loop.
#[derive(Debug)]
pub enum LoopStep {
    /// Wait for more events.
    GoOn,
    /// The microVM has shut down, and nothing went wrong.
    Stop,
    /// The microVM has shut down with an error: say so, and exit with this code.
    Exit { code: i32, message: String },
}

/// Decides on the next step of the event loop. `shutdown` is the exit code of the microVM and the
/// code's name, once it has shut down; zero is the code where nothing went wrong.
pub fn after_events(shutdown: Option<(i32, &str)>) -> (step: LoopStep)
    ensures
        match shutdown {
            None => step is GoOn,
            Some((code, name)) => if code == 0 {
                step is Stop
            } else {
                &&& step is Exit
                &&& step->code == code
                &&& step->message@ == "[joos-fire] shutdown with exit code "@ + name@
            },
        },
{
    match shutdown {
        None => LoopStep::GoOn,
        Some((code, name)) => {
            if code == 0 {
                return LoopStep::Stop;
            }
            let mut m = message("[joos-fire] shutdown with exit code ");
            m.append(name);
            LoopStep::Exit { code, message: m }
        },
    }
}

} // verus!
