//! What a configuration leads to.

use vstd::prelude::*;
use vstd::string::*;

use crate::config::{Config, ConfigView};
use crate::layout::texts;
use crate::render::{Renderer, Step};
use crate::walk::{Demand, Status, Walk};

verus! {

/// What is to be done for a configuration.
pub enum Course {
    /// This text is all there is to print.
    Say(String),
    /// A rendering has begun: the step holds its first line and asks for
    /// the listing of the root.
    Render(Renderer, Step),
}

/// What is printed for a configuration that holds an error.
pub open spec fn error_text(error: Seq<char>) -> Seq<char> {
    "Error: "@ + error
}

/// Decides what a configuration leads to: its message, its error behind
/// `Error: `, or the beginning of a rendering.
pub fn run(config: Config) -> (course: Course)
    requires
        config@ is Render ==> config@->max_depth >= 1,
    ensures
        match config@ {
            ConfigView::Message(message) => course matches Course::Say(text) && text@ == message,
            ConfigView::Error(error) => course matches Course::Say(text) && text@ == error_text(
                error,
            ),
            ConfigView::Render { root_dir, max_depth, dir_len_limit, total_len_limit } => {
                &&& course matches Course::Render(renderer, step)
                &&& renderer.wf()
                &&& renderer@ == (Walk {
                    depth_limit: max_depth,
                    dir_len_limit,
                    total_len_limit,
                    total: 0,
                    above: seq![],
                    status: Status::Scanning,
                })
                &&& texts(step.lines@) == seq![root_dir]
                &&& step.next@ == Demand::List(seq![])
            },
        },
{
    if let Some(message) = config.get_message() {
        Course::Say(message)
    } else if let Some(error) = config.get_error() {
        let mut text = String::from_str("Error: ");
        text.append(error.as_str());
        Course::Say(text)
    } else {
        let (renderer, step) = Renderer::render_directory(config);
        Course::Render(renderer, step)
    }
}

} // verus!
