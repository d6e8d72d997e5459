//! What `pw-dump` printed.
use vstd::prelude::*;

use crate::audio::choices::{views, ChoiceView, InputDeviceChoice};
use crate::audio::json::{parse_json, parsed, Json, JsonTree};
use crate::audio::layout::{
    dumped_layout, mono_layout, pipewire_capture_layout_from, LayoutView, PipeWireCaptureLayout,
};
use crate::audio::ordering::is_stable_sort;
use crate::audio::pipewire::{by_label, dumped_choices, pipewire_source_choices_from};

verus! {

/// The end of a command that could be run.
pub struct CommandOutput {
    /// Whether the command reported success.
    pub success: bool,
    /// What the command wrote to its standard output.
    pub stdout: Vec<u8>,
}

/// The object dump of a command: none where it could not be run, failed, or did
/// not print JSON.
pub open spec fn printed_dump(output: Option<CommandOutput>) -> Option<JsonTree> {
    match output {
        Some(done) => if done.success {
            parsed(done.stdout@)
        } else {
            None
        },
        None => None,
    }
}

/// The choices in the object dump of a command, in its order.
pub open spec fn printed_choices(output: Option<CommandOutput>) -> Seq<ChoiceView> {
    match printed_dump(output) {
        Some(dump) => dumped_choices(dump),
        None => Seq::empty(),
    }
}

/// The layout for `target` in the object dump of a command, plain mono where it
/// states none.
pub open spec fn printed_layout(output: Option<CommandOutput>, target: Seq<char>) -> LayoutView {
    match printed_dump(output) {
        Some(dump) => match dumped_layout(dump, target) {
            Some(layout) => layout,
            None => mono_layout(),
        },
        None => mono_layout(),
    }
}

/// The objects that `pw-dump` printed.
pub fn pipewire_objects(output: &Option<CommandOutput>) -> (r: Option<Json>)
    ensures
        (match r {
            Some(objects) => printed_dump(*output) == Some(objects@),
            None => printed_dump(*output) is None,
        }),
{
    match output {
        Some(done) => if done.success {
            parse_json(done.stdout.as_slice())
        } else {
            None
        },
        None => None,
    }
}

/// The source nodes that `pw-dump` printed, ordered by label without regard to
/// letter case.
pub fn pipewire_source_choices(output: &Option<CommandOutput>) -> (r: Vec<InputDeviceChoice>)
    ensures
        is_stable_sort(by_label(printed_choices(*output)), by_label(views(r@))),
{
    match pipewire_objects(output) {
        Some(objects) => pipewire_source_choices_from(&objects),
        None => {
            let none: Vec<InputDeviceChoice> = Vec::new();
            assert(views(none@) =~= Seq::<ChoiceView>::empty());
            none
        },
    }
}

/// The layout in which to capture the source node named `target`: what `pw-dump`
/// printed of it, plain mono where that cannot be used.
pub fn pipewire_capture_layout(output: &Option<CommandOutput>, target: &str) -> (r:
    PipeWireCaptureLayout)
    ensures
        r@ == printed_layout(*output, target@),
        1 <= r.channels <= 64,
{
    match pipewire_objects(output) {
        Some(objects) => match pipewire_capture_layout_from(&objects, target) {
            Some(layout) => layout,
            None => PipeWireCaptureLayout::default(),
        },
        None => PipeWireCaptureLayout::default(),
    }
}

/// Only what a command printed that ran to success counts, and only where it is JSON:
/// then the dump is what it printed, and the choices and the layout are those of the
/// dump. In every other case there is no choice, and capture is plain mono.
pub proof fn only_successful_output_counts(output: Option<CommandOutput>, target: Seq<char>)
    ensures
        match output {
            Some(done) => if done.success && parsed(done.stdout@) is Some {
                let dump = parsed(done.stdout@)->0;
                &&& printed_dump(output) == Some(dump)
                &&& printed_choices(output) == dumped_choices(dump)
                &&& match dumped_layout(dump, target) {
                    Some(layout) => printed_layout(output, target) == layout,
                    None => printed_layout(output, target) == (LayoutView {
                        channels: 1,
                        channel_map: None,
                        apple_t2: false,
                    }),
                }
            } else {
                &&& printed_dump(output) is None
                &&& printed_choices(output).len() == 0
                &&& printed_layout(output, target) == (LayoutView {
                    channels: 1,
                    channel_map: None,
                    apple_t2: false,
                })
            },
            None => {
                &&& printed_dump(output) is None
                &&& printed_choices(output).len() == 0
                &&& printed_layout(output, target) == (LayoutView {
                    channels: 1,
                    channel_map: None,
                    apple_t2: false,
                })
            },
        },
{
}

} // verus!
