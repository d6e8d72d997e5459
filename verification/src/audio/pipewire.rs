//! Source nodes in an object dump of PipeWire.
use vstd::prelude::*;
use vstd::string::*;

use crate::audio::choices::{
    choice, new_choice, views, ChoiceView, InputDeviceChoice, PIPEWIRE_NODE_PREFIX,
};
use crate::audio::json::{Json, JsonTree};
use crate::audio::ordering::{
    insert_by_key, is_stable_sort, keyed_views, stable_sort_adds_nothing, stable_sort_extends,
    stable_sort_keeps_equals_in_order, stable_sort_orders_keys, stable_sort_permutes, KeyedChoice,
    KeyedView,
};
use crate::text::text_le;

verus! {

/// The properties of a PipeWire object.
pub open spec fn props_of(object: JsonTree) -> Option<JsonTree> {
    match object.get("info"@) {
        Some(info) => info.get("props"@),
        None => None,
    }
}

/// The label of a source: its description, else its nickname, else its name.
pub open spec fn source_label(props: JsonTree, node_name: Seq<char>) -> Seq<char> {
    match props.text_at("node.description"@) {
        Some(description) => description,
        None => match props.text_at("node.nick"@) {
            Some(nick) => nick,
            None => node_name,
        },
    }
}

/// The choice that an object of the dump stands for, where it is a source node
/// that has a name.
pub open spec fn source_choice(object: JsonTree) -> Option<ChoiceView> {
    if object.text_at("type"@) != Some("PipeWire:Interface:Node"@) {
        None
    } else {
        match props_of(object) {
            Some(props) => if props.text_at("media.class"@) != Some("Audio/Source"@) {
                None
            } else {
                match props.text_at("node.name"@) {
                    Some(name) => Some(
                        choice(PIPEWIRE_NODE_PREFIX@ + name, source_label(props, name)),
                    ),
                    None => None,
                }
            },
            None => None,
        }
    }
}

/// The choices that objects stand for, in order.
pub open spec fn source_choices(objects: Seq<JsonTree>) -> Seq<ChoiceView>
    decreases objects.len(),
{
    if objects.len() == 0 {
        Seq::empty()
    } else {
        let before = source_choices(objects.drop_last());
        match source_choice(objects.last()) {
            Some(found) => before.push(found),
            None => before,
        }
    }
}

/// The choices that a dump stands for, in its order; none where it is no array.
pub open spec fn dumped_choices(dump: JsonTree) -> Seq<ChoiceView> {
    match dump {
        JsonTree::Array(objects) => source_choices(objects),
        _ => Seq::empty(),
    }
}

/// What `str::to_lowercase` returns for a text.
pub uninterp spec fn lowercase(text: Seq<char>) -> Seq<char>;

/// Calls `str::to_lowercase`, whose result depends on the text alone: it goes by
/// Unicode's lower case mapping, not by a locale.
#[verifier::external_body]
fn to_lowercase(text: &str) -> (r: String)
    ensures
        r@ == lowercase(text@),
{
    text.to_lowercase()
}

/// A choice with its label in lower case as key.
pub open spec fn keyed_by_label(c: ChoiceView) -> KeyedView {
    KeyedView { key: lowercase(c.label), choice: c }
}

/// Choices with their labels in lower case as keys.
pub open spec fn by_label(choices: Seq<ChoiceView>) -> Seq<KeyedView> {
    choices.map_values(|c: ChoiceView| keyed_by_label(c))
}

/// The choice that `object` stands for, where it is a source node that has a name.
fn source_choice_of(object: &Json) -> (r: Option<InputDeviceChoice>)
    ensures
        (match r {
            Some(found) => source_choice(object@) == Some(found@),
            None => source_choice(object@) is None,
        }),
{
    if !object.has_text_at("type", "PipeWire:Interface:Node") {
        return None;
    }
    let props = match object.get("info") {
        Some(info) => match info.get("props") {
            Some(props) => props,
            None => {
                return None;
            },
        },
        None => {
            return None;
        },
    };
    if !props.has_text_at("media.class", "Audio/Source") {
        return None;
    }
    match props.text_at("node.name") {
        Some(node_name) => {
            let label = match props.text_at("node.description") {
                Some(description) => description,
                None => match props.text_at("node.nick") {
                    Some(nick) => nick,
                    None => node_name,
                },
            };
            let mut id = PIPEWIRE_NODE_PREFIX.to_owned();
            id.append(node_name);
            Some(InputDeviceChoice { id, label: label.to_owned() })
        },
        None => None,
    }
}

/// The source nodes in an object dump of PipeWire, ordered by label without
/// regard to letter case.
pub fn pipewire_source_choices_from(objects: &Json) -> (r: Vec<InputDeviceChoice>)
    ensures
        is_stable_sort(by_label(dumped_choices(objects@)), by_label(views(r@))),
{
    let mut sorted: Vec<KeyedChoice> = Vec::new();
    let ghost mut found: Seq<ChoiceView> = Seq::empty();
    assert(keyed_views(sorted@) =~= Seq::<KeyedView>::empty());
    assert(by_label(found) =~= Seq::<KeyedView>::empty());
    match objects {
        Json::Array(items) => {
            let ghost all = objects@->Array_0;
            let mut i: usize = 0;
            while i < items.len()
                invariant
                    objects == Json::Array(*items),
                    objects@ == JsonTree::Array(all),
                    i <= items.len(),
                    found == source_choices(all.take(i as int)),
                    is_stable_sort(by_label(found), keyed_views(sorted@)),
                decreases items.len() - i,
            {
                assert(all[i as int] == items@[i as int]@);
                assert(all.take(i + 1).drop_last() =~= all.take(i as int));
                if let Some(next) = source_choice_of(&items[i]) {
                    let key = to_lowercase(next.label.as_str());
                    let keyed = KeyedChoice { key, choice: next };
                    let ghost earlier = found;
                    let ghost before = sorted@;
                    insert_by_key(&mut sorted, keyed);
                    proof {
                        found = found.push(next@);
                        assert(by_label(found) =~= by_label(earlier).push(keyed@));
                        stable_sort_extends(
                            by_label(earlier),
                            keyed_views(before),
                            keyed@,
                            keyed_views(sorted@),
                        );
                    }
                }
                i += 1;
            }
            assert(all.take(i as int) =~= all);
        },
        _ => {},
    }
    let mut choices: Vec<InputDeviceChoice> = Vec::new();
    let mut i: usize = 0;
    while i < sorted.len()
        invariant
            i <= sorted.len(),
            views(choices@) == Seq::new(i as nat, |j: int| sorted@[j].choice@),
        decreases sorted.len() - i,
    {
        let ghost before = views(choices@);
        choices.push(
            new_choice(sorted[i].choice.id.as_str(), sorted[i].choice.label.as_str()),
        );
        assert(views(choices@) =~= before.push(sorted@[i as int].choice@));
        i += 1;
    }
    proof {
        let order = keyed_views(sorted@);
        assert forall|j: int| 0 <= j < order.len() implies #[trigger] order[j] == keyed_by_label(
            order[j].choice,
        ) by {
            stable_sort_adds_nothing(by_label(found), order, j);
        }
        assert forall|j: int| 0 <= j < order.len() implies #[trigger] by_label(views(choices@))[j]
            == order[j] by {
            assert(views(choices@)[j] == order[j].choice);
        }
        assert(by_label(views(choices@)) =~= order);
    }
    choices
}

/// The choices of a dump are one per source node that has a name, in whatever
/// order they are listed.
pub proof fn listed_choices_are_one_per_source_node(
    objects: Seq<JsonTree>,
    listed: Seq<ChoiceView>,
)
    requires
        is_stable_sort(by_label(dumped_choices(JsonTree::Array(objects))), by_label(listed)),
    ensures
        listed.len() == objects.filter(|object: JsonTree| source_choice(object) is Some).len(),
        forall|c: ChoiceView| #[trigger]
            listed.contains(c) <==> exists|i: int|
                0 <= i < objects.len() && source_choice(#[trigger] objects[i]) == Some(c),
{
    let found = source_choices(objects);
    let input = by_label(found);
    let output = by_label(listed);
    stable_sort_permutes(input, output);
    found_choices_are_one_per_source_node(objects);
    assert forall|c: ChoiceView| #[trigger] listed.contains(c) <==> found.contains(c) by {
        let item = keyed_by_label(c);
        vstd::seq_lib::to_multiset_contains(input, item);
        vstd::seq_lib::to_multiset_contains(output, item);
        if listed.contains(c) {
            let i = choose|i: int| 0 <= i < listed.len() && listed[i] == c;
            assert(output[i] == item);
            assert(output.contains(item));
            assert(input.contains(item));
            let j = choose|j: int| 0 <= j < input.len() && input[j] == item;
            assert(found[j] == c);
        }
        if found.contains(c) {
            let i = choose|i: int| 0 <= i < found.len() && found[i] == c;
            assert(input[i] == item);
            assert(input.contains(item));
            assert(output.contains(item));
            let j = choose|j: int| 0 <= j < output.len() && output[j] == item;
            assert(listed[j] == c);
        }
    }
}

proof fn found_choices_are_one_per_source_node(objects: Seq<JsonTree>)
    ensures
        source_choices(objects).len() == objects.filter(
            |object: JsonTree| source_choice(object) is Some,
        ).len(),
        forall|c: ChoiceView| #[trigger]
            source_choices(objects).contains(c) <==> exists|i: int|
                0 <= i < objects.len() && source_choice(#[trigger] objects[i]) == Some(c),
    decreases objects.len(),
{
    reveal(Seq::filter);
    if objects.len() > 0 {
        let earlier = objects.drop_last();
        let before = source_choices(earlier);
        let after = source_choices(objects);
        found_choices_are_one_per_source_node(earlier);
        assert forall|c: ChoiceView| #[trigger] after.contains(c) <==> exists|i: int|
            0 <= i < objects.len() && source_choice(#[trigger] objects[i]) == Some(c) by {
            if after.contains(c) {
                let j = choose|j: int| 0 <= j < after.len() && after[j] == c;
                if j < before.len() {
                    assert(before[j] == c);
                    assert(before.contains(c));
                    let i = choose|i: int|
                        0 <= i < earlier.len() && source_choice(#[trigger] earlier[i]) == Some(c);
                    assert(source_choice(objects[i]) == Some(c));
                } else {
                    assert(source_choice(objects[objects.len() - 1]) == Some(c));
                }
            }
            if exists|i: int|
                0 <= i < objects.len() && source_choice(#[trigger] objects[i]) == Some(c) {
                let i = choose|i: int|
                    0 <= i < objects.len() && source_choice(#[trigger] objects[i]) == Some(c);
                if i < earlier.len() {
                    assert(source_choice(earlier[i]) == Some(c));
                    assert(before.contains(c));
                    let j = choose|j: int| 0 <= j < before.len() && before[j] == c;
                    assert(after[j] == c);
                } else {
                    assert(after[before.len() as int] == c);
                }
            }
        }
    }
}

/// A choice stems from a node of class `Audio/Source` that has a name, and from nothing
/// else: not from an object of another type, of another class or without a class, and
/// not from one whose name is no text. It is identified by the name, and labelled by the
/// description of the node, its nickname or its name, the first of them that is a text.
pub proof fn choices_stem_from_named_audio_sources(object: JsonTree)
    ensures
        source_choice(object) is Some <==> {
            &&& object.get("type"@) == Some(JsonTree::Text("PipeWire:Interface:Node"@))
            &&& object.get("info"@) is Some
            &&& object.get("info"@)->0.get("props"@) is Some
            &&& object.get("info"@)->0.get("props"@)->0.get("media.class"@) == Some(
                JsonTree::Text("Audio/Source"@),
            )
            &&& object.get("info"@)->0.get("props"@)->0.get("node.name"@) is Some
            &&& object.get("info"@)->0.get("props"@)->0.get("node.name"@)->0 is Text
        },
        source_choice(object) matches Some(found) ==> {
            let props = object.get("info"@)->0.get("props"@)->0;
            let name = props.get("node.name"@)->0->Text_0;
            &&& found.id == "pipewire-node:"@ + name
            &&& match (props.get("node.description"@), props.get("node.nick"@)) {
                (Some(JsonTree::Text(description)), _) => found.label == description,
                (_, Some(JsonTree::Text(nick))) => found.label == nick,
                _ => found.label == name,
            }
        },
{
}

/// What is listed are the microphones of the dump: a choice is listed exactly where some
/// object of it is a node of class `Audio/Source` whose name the choice is identified by
/// and whose description, nickname or name it is labelled with.
pub proof fn listed_choices_are_the_microphones(
    objects: Seq<JsonTree>,
    listed: Seq<ChoiceView>,
    c: ChoiceView,
)
    requires
        is_stable_sort(by_label(dumped_choices(JsonTree::Array(objects))), by_label(listed)),
    ensures
        listed.contains(c) <==> exists|i: int|
            {
                let props = (#[trigger] objects[i]).get("info"@)->0.get("props"@)->0;
                let name = props.get("node.name"@)->0->Text_0;
                &&& 0 <= i < objects.len()
                &&& objects[i].get("type"@) == Some(JsonTree::Text("PipeWire:Interface:Node"@))
                &&& objects[i].get("info"@) is Some
                &&& objects[i].get("info"@)->0.get("props"@) is Some
                &&& props.get("media.class"@) == Some(JsonTree::Text("Audio/Source"@))
                &&& props.get("node.name"@) is Some
                &&& props.get("node.name"@)->0 is Text
                &&& c.id == "pipewire-node:"@ + name
                &&& match (props.get("node.description"@), props.get("node.nick"@)) {
                    (Some(JsonTree::Text(description)), _) => c.label == description,
                    (_, Some(JsonTree::Text(nick))) => c.label == nick,
                    _ => c.label == name,
                }
            },
{
    listed_choices_are_one_per_source_node(objects, listed);
    if listed.contains(c) {
        let i = choose|i: int|
            0 <= i < objects.len() && source_choice(#[trigger] objects[i]) == Some(c);
        choices_stem_from_named_audio_sources(objects[i]);
    }
    assert forall|i: int|
        {
            let props = (#[trigger] objects[i]).get("info"@)->0.get("props"@)->0;
            let name = props.get("node.name"@)->0->Text_0;
            &&& 0 <= i < objects.len()
            &&& objects[i].get("type"@) == Some(JsonTree::Text("PipeWire:Interface:Node"@))
            &&& objects[i].get("info"@) is Some
            &&& objects[i].get("info"@)->0.get("props"@) is Some
            &&& props.get("media.class"@) == Some(JsonTree::Text("Audio/Source"@))
            &&& props.get("node.name"@) is Some
            &&& props.get("node.name"@)->0 is Text
            &&& c.id == "pipewire-node:"@ + name
            &&& match (props.get("node.description"@), props.get("node.nick"@)) {
                (Some(JsonTree::Text(description)), _) => c.label == description,
                (_, Some(JsonTree::Text(nick))) => c.label == nick,
                _ => c.label == name,
            }
        } implies listed.contains(c) by {
        choices_stem_from_named_audio_sources(objects[i]);
        assert(source_choice(objects[i]) == Some(c));
    }
}

/// The list is ordered by label, letter case aside, and choices whose labels differ at
/// most in letter case stand in the order of the dump.
pub proof fn listed_choices_are_ordered_by_label(
    objects: Seq<JsonTree>,
    listed: Seq<ChoiceView>,
    p: int,
    q: int,
)
    requires
        is_stable_sort(by_label(dumped_choices(JsonTree::Array(objects))), by_label(listed)),
        0 <= p < q < listed.len(),
    ensures
        text_le(lowercase(listed[p].label), lowercase(listed[q].label)),
        lowercase(listed[p].label) == lowercase(listed[q].label) ==> exists|i: int, j: int|
            0 <= i < j < objects.len() && source_choice(#[trigger] objects[i]) == Some(listed[p])
                && source_choice(#[trigger] objects[j]) == Some(listed[q]),
{
    let found = source_choices(objects);
    let input = by_label(found);
    let output = by_label(listed);
    stable_sort_orders_keys(input, output, p, q);
    if lowercase(listed[p].label) == lowercase(listed[q].label) {
        let (a, b) = stable_sort_keeps_equals_in_order(input, output, p, q);
        assert(found[a] == listed[p] && found[b] == listed[q]);
        let (i, j) = places_in_dump(objects, a, b);
        assert(source_choice(objects[i]) == Some(listed[p]));
        assert(source_choice(objects[j]) == Some(listed[q]));
    }
}

/// The objects that two of the found choices stem from.
proof fn places_in_dump(objects: Seq<JsonTree>, a: int, b: int) -> (places: (int, int))
    requires
        0 <= a < b < source_choices(objects).len(),
    ensures
        0 <= places.0 < places.1 < objects.len(),
        source_choice(objects[places.0]) == Some(source_choices(objects)[a]),
        source_choice(objects[places.1]) == Some(source_choices(objects)[b]),
    decreases objects.len(),
{
    let earlier = objects.drop_last();
    if b < source_choices(earlier).len() {
        let places = places_in_dump(earlier, a, b);
        assert(objects[places.0] == earlier[places.0] && objects[places.1] == earlier[places.1]);
        places
    } else {
        let c = source_choices(earlier)[a];
        found_choices_are_one_per_source_node(earlier);
        assert(source_choices(earlier).contains(c));
        let i = choose|i: int|
            0 <= i < earlier.len() && source_choice(#[trigger] earlier[i]) == Some(c);
        assert(objects[i] == earlier[i]);
        (i, objects.len() - 1)
    }
}

/// Nothing is listed for a dump that is no array.
pub proof fn nothing_is_listed_without_an_array(dump: JsonTree, listed: Seq<ChoiceView>)
    requires
        is_stable_sort(by_label(dumped_choices(dump)), by_label(listed)),
        !(dump is Array),
    ensures
        listed.len() == 0,
{
    stable_sort_permutes(by_label(dumped_choices(dump)), by_label(listed));
}

} // verus!
