//! Opening the configured microphone.
use vstd::prelude::*;
use vstd::string::*;

use crate::audio::choices::{is_named, PIPEWIRE_NODE_PREFIX};
use crate::audio::json::JsonTree;
use crate::audio::pipewire::{props_of, source_choice};
use crate::audio::{CHANNELS, SAMPLE_RATE};
use crate::text::{
    ascii_lower, eq_ignore_ascii_case, letter_case_is_all_that_is_ignored,
    same_ignoring_ascii_case, same_text, strip_prefix,
};

verus! {

/// How a configured device is captured.
#[derive(Debug, PartialEq, Eq)]
pub enum CaptureRoute {
    /// The PipeWire node of this name, through `pw-record`.
    PipeWireNode(String),
    /// The default input device of the host's audio system.
    DefaultDevice,
    /// The input device of the host's audio system that has this name.
    NamedDevice(String),
}

/// What a route stands for.
pub enum RouteView {
    PipeWireNode(Seq<char>),
    DefaultDevice,
    NamedDevice(Seq<char>),
}

impl View for CaptureRoute {
    type V = RouteView;

    open spec fn view(&self) -> RouteView {
        match self {
            CaptureRoute::PipeWireNode(node) => RouteView::PipeWireNode(node@),
            CaptureRoute::DefaultDevice => RouteView::DefaultDevice,
            CaptureRoute::NamedDevice(name) => RouteView::NamedDevice(name@),
        }
    }
}

/// The route for a configured device.
pub open spec fn route(configured: Seq<char>) -> RouteView {
    if PIPEWIRE_NODE_PREFIX@.is_prefix_of(configured) {
        RouteView::PipeWireNode(configured.skip(PIPEWIRE_NODE_PREFIX@.len() as int))
    } else if same_ignoring_ascii_case(configured, "default"@) {
        RouteView::DefaultDevice
    } else {
        RouteView::NamedDevice(configured)
    }
}

/// The route for a configured device. The special name `default`, in any letter
/// case, selects the host's default input device.
pub fn capture_route(configured_device: &str) -> (r: CaptureRoute)
    ensures
        r@ == route(configured_device@),
{
    match strip_prefix(configured_device, PIPEWIRE_NODE_PREFIX) {
        Some(target) => CaptureRoute::PipeWireNode(target.to_owned()),
        None => if eq_ignore_ascii_case(configured_device, "default") {
            CaptureRoute::DefaultDevice
        } else {
            CaptureRoute::NamedDevice(configured_device.to_owned())
        },
    }
}

/// The position of the first device that reports the name `wanted`. A device
/// whose name could not be read reports none.
pub fn find_named_device(reported: &Vec<Option<String>>, wanted: &str) -> (r: Option<usize>)
    ensures
        (match r {
            Some(found) => {
                &&& found < reported@.len()
                &&& is_named(reported@[found as int], wanted@)
                &&& forall|i: int| 0 <= i < found ==> !is_named(#[trigger] reported@[i], wanted@)
            },
            None => forall|i: int|
                0 <= i < reported@.len() ==> !is_named(#[trigger] reported@[i], wanted@),
        }),
{
    let mut i: usize = 0;
    while i < reported.len()
        invariant
            i <= reported.len(),
            forall|j: int| 0 <= j < i ==> !is_named(#[trigger] reported@[j], wanted@),
        decreases reported.len() - i,
    {
        if let Some(name) = &reported[i] {
            if same_text(name.as_str(), wanted) {
                return Some(i);
            }
        }
        i += 1;
    }
    None
}

/// A range of stream configurations that a device supports.
#[derive(Debug, Clone, Copy, PartialEq, Eq)]
pub struct SupportedRange {
    pub channels: u16,
    pub min_sample_rate: u32,
    pub max_sample_rate: u32,
    /// Whether its samples are signed integers of 16 bits.
    pub is_i16: bool,
}

/// Whether a range holds the configuration that is captured in.
pub open spec fn holds_capture_format(range: SupportedRange) -> bool {
    &&& range.channels == CHANNELS
    &&& range.min_sample_rate <= SAMPLE_RATE <= range.max_sample_rate
    &&& range.is_i16
}

/// Whether a device supports the configuration that is captured in without
/// conversion.
pub fn supports_capture_format(ranges: &Vec<SupportedRange>) -> (r: bool)
    ensures
        r == exists|i: int| 0 <= i < ranges@.len() && holds_capture_format(#[trigger] ranges@[i]),
{
    let mut i: usize = 0;
    while i < ranges.len()
        invariant
            i <= ranges.len(),
            forall|j: int| 0 <= j < i ==> !holds_capture_format(#[trigger] ranges@[j]),
        decreases ranges.len() - i,
    {
        let range: &SupportedRange = &ranges[i];
        if range.channels == CHANNELS && range.min_sample_rate <= SAMPLE_RATE
            && range.max_sample_rate >= SAMPLE_RATE && range.is_i16 {
            assert(holds_capture_format(ranges@[i as int]));
            return true;
        }
        i += 1;
    }
    false
}

/// Selecting a source node captures that node: its identifier is routed to the
/// node's own name.
pub proof fn source_choice_routes_to_its_node(object: JsonTree)
    requires
        source_choice(object) is Some,
    ensures
        ({
            let name = props_of(object)->0.text_at("node.name"@);
            &&& name is Some
            &&& route(source_choice(object)->0.id) == RouteView::PipeWireNode(name->0)
        }),
{
    let name = props_of(object)->0.text_at("node.name"@)->0;
    let id = PIPEWIRE_NODE_PREFIX@ + name;
    assert(PIPEWIRE_NODE_PREFIX@.is_prefix_of(id));
    assert(id.skip(PIPEWIRE_NODE_PREFIX@.len() as int) =~= name);
}

/// The name `default` selects the host's default device, in whatever letter case
/// it is written.
pub proof fn default_name_routes_to_default_device(configured: Seq<char>)
    requires
        same_ignoring_ascii_case(configured, "default"@),
    ensures
        route(configured) == RouteView::DefaultDevice,
{
    reveal_strlit("default");
    reveal_strlit("pipewire-node:");
    let lower = |c: char| ascii_lower(c);
    assert(configured.map_values(lower).len() == "default"@.map_values(lower).len());
}

/// A device identified as a node of PipeWire is captured from the node named behind the
/// prefix, whatever that name is; `default` in any letter case is the host's default;
/// every other device is looked for by its full name.
pub proof fn devices_are_routed_by_prefix_and_default(configured: Seq<char>, node: Seq<char>)
    ensures
        route("pipewire-node:"@ + node) == RouteView::PipeWireNode(node),
        !("pipewire-node:"@.is_prefix_of(configured)) ==> route(configured) == if {
            &&& configured.len() == 7
            &&& configured[0] == 'd' || configured[0] == 'D'
            &&& configured[1] == 'e' || configured[1] == 'E'
            &&& configured[2] == 'f' || configured[2] == 'F'
            &&& configured[3] == 'a' || configured[3] == 'A'
            &&& configured[4] == 'u' || configured[4] == 'U'
            &&& configured[5] == 'l' || configured[5] == 'L'
            &&& configured[6] == 't' || configured[6] == 'T'
        } {
            RouteView::DefaultDevice
        } else {
            RouteView::NamedDevice(configured)
        },
{
    reveal_strlit("default");
    let id = "pipewire-node:"@ + node;
    assert("pipewire-node:"@.is_prefix_of(id));
    assert(id.skip("pipewire-node:"@.len() as int) =~= node);
    letter_case_is_all_that_is_ignored(configured, "default"@);
    let word = "default"@;
    assert(word.len() == 7);
    if same_ignoring_ascii_case(configured, word) {
        assert(configured[0] == configured[0] && configured[1] == configured[1] && configured[2]
            == configured[2] && configured[3] == configured[3] && configured[4] == configured[4]
            && configured[5] == configured[5] && configured[6] == configured[6]);
    }
}

/// A range holds the configuration that is captured in exactly where it is one of one
/// channel and of signed integers of 16 bits, and 16000 samples a second lie in it.
pub proof fn capture_format_is_mono_at_16000(range: SupportedRange)
    ensures
        holds_capture_format(range) <==> range.channels == 1 && range.is_i16
            && range.min_sample_rate <= 16000 && 16000 <= range.max_sample_rate,
{
}

/// A route stands for its kind and the name that it holds.
pub proof fn routes_stand_for_what_they_hold(taken: CaptureRoute)
    ensures
        taken matches CaptureRoute::PipeWireNode(node) ==> taken@ == RouteView::PipeWireNode(node@),
        taken is DefaultDevice <==> taken@ is DefaultDevice,
        taken matches CaptureRoute::NamedDevice(name) ==> taken@ == RouteView::NamedDevice(name@),
{
}

} // verus!
