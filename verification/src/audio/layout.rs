//! Channels in which a PipeWire source is captured.
use vstd::prelude::*;
use vstd::string::*;

use crate::audio::choices::texts;
use crate::audio::json::{Json, JsonTree};
use crate::audio::pipewire::props_of;
use crate::audio::CHANNELS;
use crate::text::{
    ascii_alphanumeric, ascii_alphanumeric_are_letters_and_digits, chars_of, fields,
    fields_of_joined, is_ascii_alphanumeric, is_blank, joined, trim, trimmed,
    trimmed_text_stands_between_white_space, trimming_takes_surrounding_white_space,
};

verus! {

/// The channels to record from a source.
#[derive(Debug, Clone, PartialEq, Eq)]
pub struct PipeWireCaptureLayout {
    pub channels: u16,
    pub channel_map: Option<String>,
    pub apple_t2: bool,
}

/// What a layout stands for.
pub struct LayoutView {
    pub channels: u16,
    pub channel_map: Option<Seq<char>>,
    pub apple_t2: bool,
}

impl View for PipeWireCaptureLayout {
    type V = LayoutView;

    open spec fn view(&self) -> LayoutView {
        LayoutView {
            channels: self.channels,
            channel_map: match self.channel_map {
                Some(map) => Some(map@),
                None => None,
            },
            apple_t2: self.apple_t2,
        }
    }
}

/// Plain mono capture.
pub open spec fn mono_layout() -> LayoutView {
    LayoutView { channels: CHANNELS, channel_map: None, apple_t2: false }
}

impl Default for PipeWireCaptureLayout {
    fn default() -> (r: Self)
        ensures
            r@ == mono_layout(),
    {
        PipeWireCaptureLayout { channels: CHANNELS, channel_map: None, apple_t2: false }
    }
}

/// The fields that hold more than white space, without white space at their ends.
pub open spec fn named_fields(parts: Seq<Seq<char>>) -> Seq<Seq<char>>
    decreases parts.len(),
{
    if parts.len() == 0 {
        Seq::empty()
    } else {
        let before = named_fields(parts.drop_last());
        let name = trimmed(parts.last());
        if name.len() == 0 {
            before
        } else {
            before.push(name)
        }
    }
}

/// Letters and digits only.
pub open spec fn all_alphanumeric(name: Seq<char>) -> bool {
    forall|i: int| 0 <= i < name.len() ==> ascii_alphanumeric(#[trigger] name[i])
}

/// Names of letters and digits only.
pub open spec fn plain_names(names: Seq<Seq<char>>) -> bool {
    forall|i: int| 0 <= i < names.len() ==> all_alphanumeric(#[trigger] names[i])
}

/// The channel map for a list of positions in square brackets, where it names as
/// many plain positions as there are channels.
pub open spec fn channel_map(positions: Seq<char>, channels: u16) -> Option<Seq<char>> {
    let list = trimmed(positions);
    if list.len() < 2 || list.first() != '[' || list.last() != ']' {
        None
    } else {
        let names = named_fields(fields(list.subrange(1, list.len() - 1), ','));
        if names.len() != channels || !plain_names(names) {
            None
        } else {
            Some(joined(names, ','))
        }
    }
}

/// Whether `name` holds letters and digits only.
fn is_all_alphanumeric(name: &str) -> (r: bool)
    ensures
        r == all_alphanumeric(name@),
{
    let chars = chars_of(name);
    let mut i: usize = 0;
    while i < chars.len()
        invariant
            chars@ == name@,
            i <= chars.len(),
            forall|j: int| 0 <= j < i ==> ascii_alphanumeric(#[trigger] name@[j]),
        decreases chars.len() - i,
    {
        if !is_ascii_alphanumeric(chars[i]) {
            assert(!ascii_alphanumeric(name@[i as int]));
            return false;
        }
        i += 1;
    }
    true
}

/// Adds `field` to `names`, where it holds more than white space.
fn push_named(names: &mut Vec<String>, field: &str)
    ensures
        texts(final(names)@) == if trimmed(field@).len() == 0 {
            texts(old(names)@)
        } else {
            texts(old(names)@).push(trimmed(field@))
        },
{
    let name = trim(field);
    if !name.is_empty() {
        let ghost before = texts(names@);
        names.push(name.to_owned());
        assert(texts(names@) =~= before.push(name@));
    }
}

/// The fields of `list` between commas that hold more than white space.
fn position_names(list: &str) -> (r: Vec<String>)
    ensures
        texts(r@) == named_fields(fields(list@, ',')),
{
    let chars = chars_of(list);
    let mut names: Vec<String> = Vec::new();
    let ghost mut complete: Seq<Seq<char>> = Seq::empty();
    let mut start: usize = 0;
    let mut i: usize = 0;
    assert(texts(names@) =~= Seq::<Seq<char>>::empty());
    assert(list@.subrange(0, 0) =~= Seq::<char>::empty());
    assert(fields(list@.take(0), ',') =~= complete.push(list@.subrange(0, 0)));
    while i < chars.len()
        invariant
            chars@ == list@,
            start <= i <= chars.len(),
            fields(list@.take(i as int), ',') == complete.push(
                list@.subrange(start as int, i as int),
            ),
            texts(names@) == named_fields(complete),
        decreases chars.len() - i,
    {
        let ghost next = list@.take(i + 1);
        let ghost current = list@.subrange(start as int, i as int);
        let ghost before = fields(list@.take(i as int), ',');
        assert(next.drop_last() =~= list@.take(i as int));
        assert(next.last() == list@[i as int]);
        assert(before.last() == current);
        assert(before.drop_last() =~= complete);
        if chars[i] == ',' {
            push_named(&mut names, list.substring_char(start, i));
            proof {
                assert(complete.push(current).drop_last() =~= complete);
                complete = complete.push(current);
            }
            start = i + 1;
            assert(list@.subrange(start as int, i + 1) =~= Seq::<char>::empty());
        } else {
            assert(list@.subrange(start as int, i + 1) =~= current.push(list@[i as int]));
        }
        i += 1;
    }
    assert(list@.take(i as int) =~= list@);
    push_named(&mut names, list.substring_char(start, i));
    assert(complete.push(list@.subrange(start as int, i as int)).drop_last() =~= complete);
    names
}

/// Whether all of `names` hold letters and digits only.
fn are_plain(names: &Vec<String>) -> (r: bool)
    ensures
        r == plain_names(texts(names@)),
{
    let mut i: usize = 0;
    while i < names.len()
        invariant
            i <= names.len(),
            forall|j: int| 0 <= j < i ==> all_alphanumeric(#[trigger] texts(names@)[j]),
        decreases names.len() - i,
    {
        assert(texts(names@)[i as int] == names@[i as int]@);
        if !is_all_alphanumeric(names[i].as_str()) {
            return false;
        }
        i += 1;
    }
    true
}

/// `names` with commas between them.
fn join_names(names: &Vec<String>) -> (r: String)
    ensures
        r@ == joined(texts(names@), ','),
{
    let mut text = String::new();
    let mut i: usize = 0;
    proof {
        reveal_strlit(",");
    }
    assert(texts(names@.take(0)) =~= Seq::<Seq<char>>::empty());
    while i < names.len()
        invariant
            ","@ =~= seq![','],
            i <= names.len(),
            text@ == joined(texts(names@.take(i as int)), ','),
        decreases names.len() - i,
    {
        let ghost before = texts(names@.take(i as int));
        let ghost parts = texts(names@.take(i + 1));
        assert(parts.drop_last() =~= before);
        assert(parts.last() == names@[i as int]@);
        let ghost so_far = text@;
        if i > 0 {
            text.append(",");
            assert(text@ =~= so_far.push(','));
        }
        text.append(names[i].as_str());
        assert(text@ =~= joined(parts, ','));
        i += 1;
    }
    assert(names@.take(i as int) =~= names@);
    text
}

/// The channel map that `pw-record` takes, from a list of positions such as
/// `[ AUX0, AUX1 ]`. Nothing where the list is not in square brackets, does not
/// name `channels` positions, or names one by more than letters and digits.
pub fn parse_pipewire_channel_map(positions: &str, channels: u16) -> (r: Option<String>)
    ensures
        (match r {
            Some(map) => channel_map(positions@, channels) == Some(map@),
            None => channel_map(positions@, channels) is None,
        }),
{
    let list = trim(positions);
    let chars = chars_of(list);
    let len: usize = chars.len();
    if len < 2 || chars[0] != '[' || chars[len - 1] != ']' {
        return None;
    }
    let names = position_names(list.substring_char(1, len - 1));
    if names.len() != channels as usize || !are_plain(&names) {
        return None;
    }
    Some(join_names(&names))
}

/// Whether an object is the source node named `target`.
pub open spec fn is_source(object: JsonTree, target: Seq<char>) -> bool {
    match props_of(object) {
        Some(props) => {
            &&& props.text_at("media.class"@) == Some("Audio/Source"@)
            &&& props.text_at("node.name"@) == Some(target)
        },
        None => false,
    }
}

/// The properties of the first source node named `target`.
pub open spec fn source_props(objects: Seq<JsonTree>, target: Seq<char>) -> Option<JsonTree>
    decreases objects.len(),
{
    if objects.len() == 0 {
        None
    } else if is_source(objects.first(), target) {
        props_of(objects.first())
    } else {
        source_props(objects.drop_first(), target)
    }
}

/// The channel count that properties state, where it fits 16 bits.
pub open spec fn stated_channels(props: JsonTree) -> Option<u16> {
    match props.get("audio.channels"@) {
        Some(JsonTree::Number(Some(n))) => if n <= u16::MAX {
            Some(n as u16)
        } else {
            None
        },
        _ => None,
    }
}

/// Whether properties name the Apple T2 sound card.
pub open spec fn is_apple_t2(props: JsonTree) -> bool {
    ||| props.text_at("alsa.card_name"@) == Some("Apple T2 Audio"@)
    ||| props.text_at("api.alsa.card.name"@) == Some("Apple T2 Audio"@)
}

/// The layout that properties ask for: plain mono where the channel count is
/// not one of 2 to 64, none where the count or the positions cannot be used.
pub open spec fn stated_layout(props: JsonTree) -> Option<LayoutView> {
    match stated_channels(props) {
        Some(channels) => if channels <= CHANNELS || channels > 64 {
            Some(mono_layout())
        } else {
            match props.text_at("audio.position"@) {
                Some(positions) => match channel_map(positions, channels) {
                    Some(map) => Some(
                        LayoutView { channels, channel_map: Some(map), apple_t2: is_apple_t2(props) },
                    ),
                    None => None,
                },
                None => None,
            }
        },
        None => None,
    }
}

/// The layout that a dump states for the source node named `target`.
pub open spec fn dumped_layout(dump: JsonTree, target: Seq<char>) -> Option<LayoutView> {
    match dump {
        JsonTree::Array(objects) => match source_props(objects, target) {
            Some(props) => stated_layout(props),
            None => None,
        },
        _ => None,
    }
}

/// The properties of `object`, where it is the source node named `target`.
fn props_of_source<'a>(object: &'a Json, target: &str) -> (r: Option<&'a Json>)
    ensures
        (match r {
            Some(props) => is_source(object@, target@) && props_of(object@) == Some(props@),
            None => !is_source(object@, target@),
        }),
{
    match object.get("info") {
        Some(info) => match info.get("props") {
            Some(props) => if props.has_text_at("media.class", "Audio/Source")
                && props.has_text_at("node.name", target) {
                Some(props)
            } else {
                None
            },
            None => None,
        },
        None => None,
    }
}

/// The layout that `props` ask for.
fn layout_of(props: &Json) -> (r: Option<PipeWireCaptureLayout>)
    ensures
        (match r {
            Some(layout) => stated_layout(props@) == Some(layout@),
            None => stated_layout(props@) is None,
        }),
{
    let channels: u16 = match props.get("audio.channels") {
        Some(Json::Number(Some(n))) => if *n <= 0xffff {
            *n as u16
        } else {
            return None;
        },
        _ => {
            return None;
        },
    };
    if channels <= CHANNELS || channels > 64 {
        return Some(PipeWireCaptureLayout::default());
    }
    let apple_t2 = props.has_text_at("alsa.card_name", "Apple T2 Audio") || props.has_text_at(
        "api.alsa.card.name",
        "Apple T2 Audio",
    );
    match props.text_at("audio.position") {
        Some(positions) => match parse_pipewire_channel_map(positions, channels) {
            Some(map) => Some(
                PipeWireCaptureLayout { channels, channel_map: Some(map), apple_t2 },
            ),
            None => None,
        },
        None => None,
    }
}

/// The layout in which to capture the source node named `target`, as an object
/// dump of PipeWire states it. Nothing where the dump has no such node, or states
/// no channel count or no usable positions for it.
pub fn pipewire_capture_layout_from(objects: &Json, target: &str) -> (r: Option<
    PipeWireCaptureLayout,
>)
    ensures
        (match r {
            Some(layout) => dumped_layout(objects@, target@) == Some(layout@),
            None => dumped_layout(objects@, target@) is None,
        }),
{
    match objects {
        Json::Array(items) => {
            let ghost all = objects@->Array_0;
            let mut i: usize = 0;
            assert(all.skip(0) =~= all);
            while i < items.len()
                invariant
                    objects == Json::Array(*items),
                    objects@ == JsonTree::Array(all),
                    i <= items.len(),
                    source_props(all, target@) == source_props(all.skip(i as int), target@),
                decreases items.len() - i,
            {
                assert(all[i as int] == items@[i as int]@);
                if let Some(props) = props_of_source(&items[i], target) {
                    return layout_of(props);
                }
                assert(all.skip(i as int).drop_first() =~= all.skip(i + 1));
                i += 1;
            }
            None
        },
        _ => None,
    }
}

/// A channel map names as many positions as there are channels, separated by
/// commas, and every name is made of letters and digits.
pub proof fn channel_map_names_its_channels(positions: Seq<char>, channels: u16)
    requires
        channels > 0,
        channel_map(positions, channels) is Some,
    ensures
        ({
            let names = fields(channel_map(positions, channels)->0, ',');
            &&& names.len() == channels
            &&& plain_names(names)
            &&& forall|i: int| 0 <= i < names.len() ==> (#[trigger] names[i]).len() > 0
        }),
{
    let list = trimmed(positions);
    let parts = fields(list.subrange(1, list.len() - 1), ',');
    let names = named_fields(parts);
    named_fields_are_not_empty(parts);
    assert forall|i: int| 0 <= i < names.len() implies !(#[trigger] names[i]).contains(',') by {
        assert(all_alphanumeric(names[i]));
        if names[i].contains(',') {
            let j = choose|j: int| 0 <= j < names[i].len() && names[i][j] == ',';
            assert(ascii_alphanumeric(names[i][j]));
        }
    }
    fields_of_joined(names, ',');
}

proof fn named_fields_are_not_empty(parts: Seq<Seq<char>>)
    ensures
        forall|i: int|
            0 <= i < named_fields(parts).len() ==> (#[trigger] named_fields(parts)[i]).len() > 0,
    decreases parts.len(),
{
    if parts.len() > 0 {
        let before = named_fields(parts.drop_last());
        named_fields_are_not_empty(parts.drop_last());
        assert forall|i: int| 0 <= i < named_fields(parts).len() implies (
        #[trigger] named_fields(parts)[i]).len() > 0 by {
            if i < before.len() {
                assert(named_fields(parts)[i] == before[i]);
            }
        }
    }
}

/// A layout has at least one and at most 64 channels; it has a channel map where
/// there are several, and where there is one it asks for no conditioning.
pub proof fn dumped_layouts_are_bounded(dump: JsonTree, target: Seq<char>)
    requires
        dumped_layout(dump, target) is Some,
    ensures
        ({
            let layout = dumped_layout(dump, target)->0;
            &&& 1 <= layout.channels <= 64
            &&& layout.channel_map is Some <==> layout.channels > 1
            &&& layout.apple_t2 ==> layout.channels > 1
        }),
{
}

/// The named fields are the fields without white space at their ends, those that are
/// then empty left out, in order.
proof fn named_fields_are_trimmed_fields(parts: Seq<Seq<char>>)
    ensures
        named_fields(parts) == parts.map_values(|part: Seq<char>| trimmed(part)).filter(
            |name: Seq<char>| name.len() > 0,
        ),
    decreases parts.len(),
{
    reveal(Seq::filter);
    let trim_part = |part: Seq<char>| trimmed(part);
    let all = parts.map_values(trim_part);
    if parts.len() > 0 {
        named_fields_are_trimmed_fields(parts.drop_last());
        assert(all.drop_last() =~= parts.drop_last().map_values(trim_part));
        assert(all.last() == trimmed(parts.last()));
    } else {
        assert(all =~= Seq::<Seq<char>>::empty());
    }
}

/// A list in square brackets, with white space around it or not, gives the names between
/// its commas, without white space at their ends and the empty ones left out, joined by
/// commas; nothing where they are not as many as the channels, or where one of them has
/// another character than an ASCII letter or digit.
pub proof fn bracketed_positions_give_their_names(
    before: Seq<char>,
    inner: Seq<char>,
    behind: Seq<char>,
    channels: u16,
)
    requires
        is_blank(before),
        is_blank(behind),
    ensures
        ({
            let names = fields(inner, ',').map_values(|part: Seq<char>| trimmed(part)).filter(
                |name: Seq<char>| name.len() > 0,
            );
            let usable = names.len() == channels && forall|i: int, j: int|
                0 <= i < names.len() && 0 <= j < names[i].len() ==> {
                    ||| '0' <= #[trigger] names[i][j] <= '9'
                    ||| 'A' <= names[i][j] <= 'Z'
                    ||| 'a' <= names[i][j] <= 'z'
                };
            channel_map(before + (seq!['['] + inner + seq![']']) + behind, channels) == if usable {
                Some(joined(names, ','))
            } else {
                None
            }
        }),
{
    let list = seq!['['] + inner + seq![']'];
    assert(list.first() == '[' && list.last() == ']');
    trimming_takes_surrounding_white_space(before, list, behind);
    assert(list.subrange(1, list.len() - 1) =~= inner);
    named_fields_are_trimmed_fields(fields(inner, ','));
    let names = named_fields(fields(inner, ','));
    if plain_names(names) {
        assert forall|i: int, j: int| 0 <= i < names.len() && 0 <= j < names[i].len() implies {
            ||| '0' <= #[trigger] names[i][j] <= '9'
            ||| 'A' <= names[i][j] <= 'Z'
            ||| 'a' <= names[i][j] <= 'z'
        } by {
            assert(all_alphanumeric(names[i]));
            assert(ascii_alphanumeric(names[i][j]));
            ascii_alphanumeric_are_letters_and_digits(names[i][j]);
        }
    }
    if forall|i: int, j: int|
        0 <= i < names.len() && 0 <= j < names[i].len() ==> {
            ||| '0' <= #[trigger] names[i][j] <= '9'
            ||| 'A' <= names[i][j] <= 'Z'
            ||| 'a' <= names[i][j] <= 'z'
        } {
        assert forall|i: int| 0 <= i < names.len() implies all_alphanumeric(#[trigger] names[i]) by {
            assert forall|j: int| 0 <= j < names[i].len() implies ascii_alphanumeric(
                #[trigger] names[i][j],
            ) by {
                ascii_alphanumeric_are_letters_and_digits(names[i][j]);
            }
        }
    }
}

/// A list gives a channel map only where, white space around it aside, it stands in
/// square brackets.
pub proof fn positions_without_brackets_give_no_map(positions: Seq<char>, channels: u16)
    requires
        channel_map(positions, channels) is Some,
    ensures
        exists|before: Seq<char>, inner: Seq<char>, behind: Seq<char>|
            is_blank(before) && is_blank(behind) && positions == #[trigger] (before + (seq!['[']
                + inner + seq![']']) + behind),
{
    let list = trimmed(positions);
    trimmed_text_stands_between_white_space(positions);
    let from = choose|from: int|
        {
            &&& 0 <= from <= from + list.len() <= positions.len()
            &&& positions.subrange(from, from + list.len()) == list
            &&& is_blank(#[trigger] positions.take(from))
            &&& is_blank(positions.skip(from + list.len()))
        };
    let before = positions.take(from);
    let behind = positions.skip(from + list.len());
    let inner = list.subrange(1, list.len() - 1);
    assert(list =~= seq!['['] + inner + seq![']']);
    assert(positions =~= before + (seq!['['] + inner + seq![']']) + behind);
}

/// A layout asks for Apple T2 conditioning exactly where it has several channels and one
/// of the two properties that name the sound card holds the text `Apple T2 Audio`.
pub proof fn only_apple_t2_cards_are_conditioned(props: JsonTree)
    requires
        stated_layout(props) is Some,
    ensures
        stated_layout(props)->0.apple_t2 <==> {
            &&& stated_layout(props)->0.channels > 1
            &&& {
                ||| props.get("alsa.card_name"@) == Some(JsonTree::Text("Apple T2 Audio"@))
                ||| props.get("api.alsa.card.name"@) == Some(JsonTree::Text("Apple T2 Audio"@))
            }
        },
{
}

/// A channel count of 2 to 64 is taken as it is, with the map that the positions give,
/// and there is no layout where they give none.
pub proof fn several_channels_need_their_positions(props: JsonTree, n: u64)
    requires
        props.get("audio.channels"@) == Some(JsonTree::Number(Some(n))),
        2 <= n <= 64,
    ensures
        match props.get("audio.position"@) {
            Some(JsonTree::Text(positions)) => match channel_map(positions, n as u16) {
                Some(map) => {
                    &&& stated_layout(props) is Some
                    &&& stated_layout(props)->0.channels == n
                    &&& stated_layout(props)->0.channel_map == Some(map)
                },
                None => stated_layout(props) is None,
            },
            _ => stated_layout(props) is None,
        },
{
}

/// A count of no channel, of one or of more than 64, as far as 16 bits hold it, asks for
/// one channel without a map or conditioning, whatever else the properties say.
pub proof fn other_counts_ask_for_mono(props: JsonTree, n: u64)
    requires
        props.get("audio.channels"@) == Some(JsonTree::Number(Some(n))),
        n <= 1 || 64 < n <= 65535,
    ensures
        stated_layout(props) == Some(
            LayoutView { channels: 1, channel_map: None, apple_t2: false },
        ),
{
}

/// Without a channel count that 16 bits hold there is no layout.
pub proof fn no_count_gives_no_layout(props: JsonTree)
    requires
        match props.get("audio.channels"@) {
            Some(JsonTree::Number(Some(n))) => n > 65535,
            _ => true,
        },
    ensures
        stated_layout(props) is None,
{
}

/// The layout is that of the first object with properties of class `Audio/Source` and
/// the wanted name, whatever else the dump holds.
pub proof fn layout_is_of_the_first_named_source(
    objects: Seq<JsonTree>,
    target: Seq<char>,
    i: int,
)
    requires
        0 <= i < objects.len(),
        objects[i].get("info"@) is Some,
        objects[i].get("info"@)->0.get("props"@) is Some,
        objects[i].get("info"@)->0.get("props"@)->0.get("media.class"@) == Some(
            JsonTree::Text("Audio/Source"@),
        ),
        objects[i].get("info"@)->0.get("props"@)->0.get("node.name"@) == Some(
            JsonTree::Text(target),
        ),
        forall|j: int|
            0 <= j < i ==> {
                ||| (#[trigger] objects[j]).get("info"@) is None
                ||| objects[j].get("info"@)->0.get("props"@) is None
                ||| objects[j].get("info"@)->0.get("props"@)->0.get("media.class"@) != Some(
                    JsonTree::Text("Audio/Source"@),
                )
                ||| objects[j].get("info"@)->0.get("props"@)->0.get("node.name"@) != Some(
                    JsonTree::Text(target),
                )
            },
    ensures
        dumped_layout(JsonTree::Array(objects), target) == stated_layout(
            objects[i].get("info"@)->0.get("props"@)->0,
        ),
    decreases objects.len(),
{
    if i > 0 {
        let rest = objects.drop_first();
        assert(objects[0] == objects.first());
        assert forall|j: int| 0 <= j < i - 1 implies {
            ||| (#[trigger] rest[j]).get("info"@) is None
            ||| rest[j].get("info"@)->0.get("props"@) is None
            ||| rest[j].get("info"@)->0.get("props"@)->0.get("media.class"@) != Some(
                JsonTree::Text("Audio/Source"@),
            )
            ||| rest[j].get("info"@)->0.get("props"@)->0.get("node.name"@) != Some(
                JsonTree::Text(target),
            )
        } by {
            assert(rest[j] == objects[j + 1]);
        }
        assert(!is_source(objects[0], target));
        layout_is_of_the_first_named_source(rest, target, i - 1);
        assert(source_props(objects, target) == source_props(rest, target));
    } else {
        assert(is_source(objects[0], target));
    }
}

/// There is no layout where no object has properties of class `Audio/Source` and the
/// wanted name, and none where the dump is no array.
pub proof fn no_named_source_gives_no_layout(dump: JsonTree, target: Seq<char>)
    requires
        dump matches JsonTree::Array(objects) ==> forall|j: int|
            0 <= j < objects.len() ==> {
                ||| (#[trigger] objects[j]).get("info"@) is None
                ||| objects[j].get("info"@)->0.get("props"@) is None
                ||| objects[j].get("info"@)->0.get("props"@)->0.get("media.class"@) != Some(
                    JsonTree::Text("Audio/Source"@),
                )
                ||| objects[j].get("info"@)->0.get("props"@)->0.get("node.name"@) != Some(
                    JsonTree::Text(target),
                )
            },
    ensures
        dumped_layout(dump, target) is None,
{
    if let JsonTree::Array(objects) = dump {
        assert forall|j: int| 0 <= j < objects.len() implies !is_source(
            #[trigger] objects[j],
            target,
        ) by {}
        no_source_has_no_props(objects, target);
    }
}

proof fn no_source_has_no_props(objects: Seq<JsonTree>, target: Seq<char>)
    requires
        forall|j: int| 0 <= j < objects.len() ==> !is_source(#[trigger] objects[j], target),
    ensures
        source_props(objects, target) is None,
    decreases objects.len(),
{
    if objects.len() > 0 {
        let rest = objects.drop_first();
        assert(!is_source(objects[0], target));
        assert forall|j: int| 0 <= j < rest.len() implies !is_source(#[trigger] rest[j], target) by {
            assert(rest[j] == objects[j + 1]);
        }
        no_source_has_no_props(rest, target);
    }
}

/// A layout stands for the channels, the map and the conditioning that it holds.
pub proof fn layouts_stand_for_what_they_hold(layout: PipeWireCaptureLayout)
    ensures
        layout@.channels == layout.channels,
        layout@.apple_t2 == layout.apple_t2,
        layout@.channel_map is Some <==> layout.channel_map is Some,
        layout.channel_map matches Some(map) ==> layout@.channel_map == Some(map@),
{
}

} // verus!
