//! Running `pw-record`.
use vstd::prelude::*;
use vstd::string::*;

use crate::audio::choices::texts;
use crate::audio::layout::{LayoutView, PipeWireCaptureLayout};
use crate::audio::SAMPLE_RATE;
use crate::text::{
    decimal, decimal_reads_back, decimal_text, is_blank, number_of, trim, trimmed,
    trimming_takes_surrounding_white_space, white_space,
};

verus! {

/// The arguments of `pw-record` that capture `target` in `layout`, as raw samples
/// of 16 bits on standard output.
pub open spec fn record_args(target: Seq<char>, layout: LayoutView) -> Seq<Seq<char>> {
    let source = seq![
        "--target"@,
        target,
        "--rate"@,
        decimal(SAMPLE_RATE as nat),
        "--channels"@,
        decimal(layout.channels as nat),
    ];
    let map = match layout.channel_map {
        Some(map) => seq!["--channel-map"@, map],
        None => Seq::empty(),
    };
    source + map + seq!["--format"@, "s16"@, "--raw"@, "-"@]
}

/// The arguments of `pw-record` that capture `target` in `layout`.
pub fn pw_record_args(target: &str, layout: &PipeWireCaptureLayout) -> (r: Vec<String>)
    ensures
        texts(r@) == record_args(target@, layout@),
{
    let mut args: Vec<String> = Vec::new();
    args.push("--target".to_owned());
    args.push(target.to_owned());
    args.push("--rate".to_owned());
    args.push(decimal_text(SAMPLE_RATE));
    args.push("--channels".to_owned());
    args.push(decimal_text(layout.channels as u32));
    if let Some(map) = &layout.channel_map {
        args.push("--channel-map".to_owned());
        args.push(map.as_str().to_owned());
    }
    args.push("--format".to_owned());
    args.push("s16".to_owned());
    args.push("--raw".to_owned());
    args.push("-".to_owned());
    assert(texts(args@) =~= record_args(target@, layout@));
    args
}

/// What is added to an error message for what a command wrote to standard error.
pub open spec fn error_detail(stderr: Seq<char>) -> Seq<char> {
    if trimmed(stderr).len() == 0 {
        Seq::empty()
    } else {
        " — "@ + trimmed(stderr)
    }
}

/// The message that `pw-record` ended before it captured anything.
pub fn open_error_message(target: &str, status: &str, stderr: &str) -> (r: String)
    ensures
        r@ == "pw-record could not open PipeWire microphone "@ + target@ + ": "@ + status@
            + error_detail(stderr@),
{
    let mut message = "pw-record could not open PipeWire microphone ".to_owned();
    message.append(target);
    message.append(": ");
    message.append(status);
    let detail = trim(stderr);
    if !detail.is_empty() {
        message.append(" — ");
        message.append(detail);
    }
    assert(message@ =~= "pw-record could not open PipeWire microphone "@ + target@ + ": "@
        + status@ + error_detail(stderr@));
    message
}

/// The arguments name the target, ask for 16000 samples a second and for the channels of
/// the layout, by numbers that read back as these; they hand on the channel map exactly
/// where there is one, and ask for raw samples of 16 bits on standard output.
pub proof fn record_args_follow_target_and_layout(target: Seq<char>, layout: LayoutView)
    ensures
        ({
            let args = record_args(target, layout);
            let n = args.len();
            &&& n == if layout.channel_map is Some {
                12int
            } else {
                10int
            }
            &&& args[0] == "--target"@
            &&& args[1] == target
            &&& args[2] == "--rate"@
            &&& number_of(args[3]) == 16000
            &&& args[4] == "--channels"@
            &&& number_of(args[5]) == layout.channels
            &&& layout.channel_map matches Some(map) ==> args[6] == "--channel-map"@ && args[7]
                == map
            &&& args[n - 4] == "--format"@
            &&& args[n - 3] == "s16"@
            &&& args[n - 2] == "--raw"@
            &&& args[n - 1] == "-"@
        }),
{
    decimal_reads_back(SAMPLE_RATE as nat);
    decimal_reads_back(layout.channels as nat);
}

/// The detail is what was written to standard error, without white space around it,
/// behind a dash; there is none where nothing but white space was written.
pub proof fn error_detail_is_what_was_written(
    before: Seq<char>,
    text: Seq<char>,
    behind: Seq<char>,
)
    requires
        is_blank(before),
        is_blank(behind),
        text.len() > 0 ==> !white_space(text.first()) && !white_space(text.last()),
    ensures
        error_detail(before + text + behind) == if text.len() > 0 {
            " — "@ + text
        } else {
            Seq::empty()
        },
{
    trimming_takes_surrounding_white_space(before, text, behind);
}

} // verus!
