//! Microphones offered for selection.
use vstd::prelude::*;
use vstd::string::*;

use crate::text::{
    is_text_le, same_text, text_le, text_le_antisymmetric, text_le_reflexive, text_le_total,
    text_le_transitive,
};

verus! {

/// Prefix of the identifier of a native PipeWire source. What follows it is the
/// stable PipeWire `node.name` that `pw-record --target` takes.
pub const PIPEWIRE_NODE_PREFIX: &'static str = "pipewire-node:";

/// A microphone that can be selected.
#[derive(Debug, Clone, PartialEq, Eq)]
pub struct InputDeviceChoice {
    pub id: String,
    pub label: String,
}

/// Identifier and label of a choice.
pub struct ChoiceView {
    pub id: Seq<char>,
    pub label: Seq<char>,
}

impl View for InputDeviceChoice {
    type V = ChoiceView;

    open spec fn view(&self) -> ChoiceView {
        ChoiceView { id: self.id@, label: self.label@ }
    }
}

/// A choice from its identifier and label.
pub open spec fn choice(id: Seq<char>, label: Seq<char>) -> ChoiceView {
    ChoiceView { id, label }
}

/// The views of a sequence of choices.
pub open spec fn views(choices: Seq<InputDeviceChoice>) -> Seq<ChoiceView> {
    choices.map_values(|c: InputDeviceChoice| c@)
}

/// The views of a sequence of texts.
pub open spec fn texts(strings: Seq<String>) -> Seq<Seq<char>> {
    strings.map_values(|s: String| s@)
}

/// Whether one of `choices` is identified by `id`.
pub open spec fn has_id(choices: Seq<ChoiceView>, id: Seq<char>) -> bool {
    exists|i: int| 0 <= i < choices.len() && #[trigger] choices[i].id == id
}

/// The choices that are the first with their identifier, in order.
pub open spec fn first_of_each_id(choices: Seq<ChoiceView>) -> Seq<ChoiceView>
    decreases choices.len(),
{
    if choices.len() == 0 {
        Seq::empty()
    } else {
        let before = first_of_each_id(choices.drop_last());
        if has_id(before, choices.last().id) {
            before
        } else {
            before.push(choices.last())
        }
    }
}

/// The default entry followed by what was found: the PipeWire sources where
/// there are any, the devices of the host's audio system otherwise.
pub open spec fn found_choices(
    sources: Seq<ChoiceView>,
    device_names: Seq<Seq<char>>,
) -> Seq<ChoiceView> {
    if sources.len() > 0 {
        seq![choice("pipewire"@, "PipeWire default"@)] + sources
    } else {
        seq![choice("default"@, "System default"@)] + device_names.map_values(
            |name: Seq<char>| choice(name, name),
        )
    }
}

/// `found`, behind an entry for the configured device where it is not among them.
pub open spec fn with_configured(found: Seq<ChoiceView>, configured: Seq<char>) -> Seq<
    ChoiceView,
> {
    if has_id(found, configured) {
        found
    } else {
        seq![choice(configured, configured)] + found
    }
}

/// The choices offered for a configured device, PipeWire sources and device names.
pub open spec fn offered(
    configured: Seq<char>,
    sources: Seq<ChoiceView>,
    device_names: Seq<Seq<char>>,
) -> Seq<ChoiceView> {
    first_of_each_id(with_configured(found_choices(sources, device_names), configured))
}

/// Whether one of `choices` is identified by `id`.
fn contains_id(choices: &Vec<InputDeviceChoice>, id: &str) -> (r: bool)
    ensures
        r == has_id(views(choices@), id@),
{
    let mut i: usize = 0;
    while i < choices.len()
        invariant
            i <= choices.len(),
            forall|j: int| 0 <= j < i ==> (#[trigger] views(choices@)[j]).id != id@,
        decreases choices.len() - i,
    {
        assert(views(choices@)[i as int] == choices@[i as int]@);
        if same_text(choices[i].id.as_str(), id) {
            assert(views(choices@)[i as int].id == id@);
            return true;
        }
        i += 1;
    }
    false
}

/// A choice from texts.
pub(crate) fn new_choice(id: &str, label: &str) -> (r: InputDeviceChoice)
    ensures
        r@ == choice(id@, label@),
{
    InputDeviceChoice { id: id.to_owned(), label: label.to_owned() }
}

/// Return logical microphone choices for the tray.
///
/// `sources` are the source nodes of PipeWire: one entry per physical or logical
/// microphone. `device_names` are those of the host's audio system, which stand in
/// on systems without PipeWire tools; they are not looked at where there is a
/// source. The configured device is always among the choices, and no identifier
/// occurs twice.
pub fn input_device_choices(
    configured_device: &str,
    sources: Vec<InputDeviceChoice>,
    device_names: Vec<String>,
) -> (r: Vec<InputDeviceChoice>)
    ensures
        views(r@) == offered(configured_device@, views(sources@), texts(device_names@)),
{
    let ghost source_views = views(sources@);
    let mut choices = sources;
    if choices.len() > 0 {
        choices.insert(0, new_choice("pipewire", "PipeWire default"));
        assert(views(choices@) =~= found_choices(source_views, texts(device_names@)));
    } else {
        choices.push(new_choice("default", "System default"));
        let ghost named = |name: Seq<char>| choice(name, name);
        let ghost default_entry = choice("default"@, "System default"@);
        let mut i: usize = 0;
        while i < device_names.len()
            invariant
                i <= device_names.len(),
                named == (|name: Seq<char>| choice(name, name)),
                views(choices@) == seq![default_entry] + texts(
                    device_names@.take(i as int),
                ).map_values(named),
            decreases device_names.len() - i,
        {
            let ghost before = views(choices@);
            choices.push(new_choice(device_names[i].as_str(), device_names[i].as_str()));
            assert(views(choices@) =~= before.push(named(device_names@[i as int]@)));
            assert(texts(device_names@.take(i + 1)).map_values(named) =~= texts(
                device_names@.take(i as int),
            ).map_values(named).push(named(device_names@[i as int]@)));
            i += 1;
        }
        assert(device_names@.take(i as int) =~= device_names@);
    }
    let ghost found = views(choices@);
    assert(found == found_choices(source_views, texts(device_names@)));

    if !contains_id(&choices, configured_device) {
        choices.insert(0, new_choice(configured_device, configured_device));
        assert(views(choices@) =~= seq![choice(configured_device@, configured_device@)] + found);
    }
    unique_choices(choices)
}

/// The choices that are the first with their identifier, in order.
fn unique_choices(choices: Vec<InputDeviceChoice>) -> (r: Vec<InputDeviceChoice>)
    ensures
        views(r@) == first_of_each_id(views(choices@)),
{
    let mut kept: Vec<InputDeviceChoice> = Vec::new();
    let mut i: usize = 0;
    assert(views(kept@) =~= first_of_each_id(views(choices@.take(0))));
    while i < choices.len()
        invariant
            i <= choices.len(),
            views(kept@) == first_of_each_id(views(choices@.take(i as int))),
        decreases choices.len() - i,
    {
        let ghost seen = views(choices@.take(i as int));
        let ghost more = views(choices@.take(i + 1));
        assert(more.drop_last() =~= seen);
        assert(more.last() == choices@[i as int]@);
        if !contains_id(&kept, choices[i].id.as_str()) {
            kept.push(new_choice(choices[i].id.as_str(), choices[i].label.as_str()));
            assert(views(kept@) =~= first_of_each_id(more));
        }
        i += 1;
    }
    assert(choices@.take(i as int) =~= choices@);
    kept
}

/// Names in dictionary order, none of them twice.
pub open spec fn strictly_ordered(names: Seq<Seq<char>>) -> bool {
    forall|i: int, j: int|
        0 <= i < j < names.len() ==> text_le(#[trigger] names[i], #[trigger] names[j]) && names[i]
            != names[j]
}

/// Whether a device reported the name `wanted`.
pub open spec fn is_named(reported: Option<String>, wanted: Seq<char>) -> bool {
    match reported {
        Some(name) => name@ == wanted,
        None => false,
    }
}

/// Whether one of the devices reported the name `wanted`.
pub open spec fn is_reported(reported: Seq<Option<String>>, wanted: Seq<char>) -> bool {
    exists|i: int| 0 <= i < reported.len() && is_named(#[trigger] reported[i], wanted)
}

/// The names that the input devices of the host's audio system report, in order
/// and each of them once. A device whose name could not be read reports none.
pub fn cpal_input_device_names(reported: &Vec<Option<String>>) -> (r: Vec<String>)
    ensures
        strictly_ordered(texts(r@)),
        forall|name: Seq<char>| #[trigger]
            texts(r@).contains(name) <==> is_reported(reported@, name),
{
    let mut names: Vec<String> = Vec::new();
    let mut i: usize = 0;
    while i < reported.len()
        invariant
            i <= reported.len(),
            strictly_ordered(texts(names@)),
            forall|name: Seq<char>| #[trigger]
                texts(names@).contains(name) <==> is_reported(reported@.take(i as int), name),
        decreases reported.len() - i,
    {
        let ghost before = texts(names@);
        if let Some(name) = &reported[i] {
            insert_name(&mut names, name);
        }
        proof {
            let seen = reported@.take(i as int);
            let more = reported@.take(i + 1);
            assert forall|name: Seq<char>| #[trigger]
                texts(names@).contains(name) <==> is_reported(more, name) by {
                if is_reported(seen, name) {
                    let j = choose|j: int|
                        0 <= j < seen.len() && is_named(#[trigger] seen[j], name);
                    assert(is_named(more[j], name));
                }
                if is_named(reported@[i as int], name) {
                    assert(is_named(more[i as int], name));
                }
                if is_reported(more, name) {
                    let j = choose|j: int|
                        0 <= j < more.len() && is_named(#[trigger] more[j], name);
                    if j < i {
                        assert(is_named(seen[j], name));
                    }
                }
                assert(before.contains(name) <==> is_reported(seen, name));
            }
        }
        i += 1;
    }
    assert(reported@.take(i as int) =~= reported@);
    names
}

/// Puts `name` in its place in `names`, where it is not among them.
fn insert_name(names: &mut Vec<String>, name: &String)
    requires
        strictly_ordered(texts(old(names)@)),
    ensures
        strictly_ordered(texts(final(names)@)),
        forall|n: Seq<char>| #[trigger]
            texts(final(names)@).contains(n) <==> texts(old(names)@).contains(n) || n == name@,
{
    let ghost before = texts(names@);
    let mut at: usize = names.len();
    while at > 0 && !is_text_le(names[at - 1].as_str(), name.as_str())
        invariant
            before == texts(names@),
            at <= names.len(),
            forall|j: int| at <= j < names.len() ==> !text_le(#[trigger] before[j], name@),
        decreases at,
    {
        at -= 1;
        assert(before[at as int] == names@[at as int]@);
    }
    if at > 0 {
        assert(before[at - 1] == names@[at - 1]@);
        if same_text(names[at - 1].as_str(), name.as_str()) {
            return;
        }
    }
    names.insert(at, name.clone());
    proof {
        let after = texts(names@);
        assert(after =~= before.insert(at as int, name@));
        assert forall|j: int| 0 <= j < at implies text_le(#[trigger] before[j], name@) && before[j]
            != name@ by {
            if j < at - 1 {
                assert(text_le(before[j], before[at - 1]));
                text_le_transitive(before[j], before[at - 1], name@);
                if before[j] == name@ {
                    text_le_antisymmetric(before[at - 1], name@);
                }
            }
        }
        assert forall|j: int| at <= j < before.len() implies text_le(name@, #[trigger] before[j])
            && before[j] != name@ by {
            text_le_total(name@, before[j]);
            text_le_reflexive(name@);
        }
        assert forall|i: int, j: int| 0 <= i < j < after.len() implies text_le(
            #[trigger] after[i],
            #[trigger] after[j],
        ) && after[i] != after[j] by {
            let p = if i < at {
                i
            } else {
                i - 1
            };
            let q = if j < at {
                j
            } else {
                j - 1
            };
            if i == at {
                assert(after[j] == before[q]);
            } else if j == at {
                assert(after[i] == before[p]);
            } else {
                assert(after[i] == before[p] && after[j] == before[q]);
            }
        }
        assert forall|n: Seq<char>| #[trigger] after.contains(n) <==> before.contains(n) || n
            == name@ by {
            if before.contains(n) {
                let j = choose|j: int| 0 <= j < before.len() && before[j] == n;
                if j < at {
                    assert(after[j] == n);
                } else {
                    assert(after[j + 1] == n);
                }
            }
            assert(after[at as int] == name@);
            if after.contains(n) && n != name@ {
                let j = choose|j: int| 0 <= j < after.len() && after[j] == n;
                if j < at {
                    assert(before[j] == n);
                } else {
                    assert(before[j - 1] == n);
                }
            }
        }
    }
}

/// Order and set determine a list of names: two lists in dictionary order with the
/// same names, none of them twice, are equal.
pub proof fn ordered_names_are_determined(a: Seq<Seq<char>>, b: Seq<Seq<char>>)
    requires
        strictly_ordered(a),
        strictly_ordered(b),
        forall|name: Seq<char>| #[trigger] a.contains(name) <==> b.contains(name),
    ensures
        a == b,
    decreases a.len(),
{
    if a.len() == 0 {
        if b.len() > 0 {
            assert(b.contains(b[0]));
            assert(a.contains(b[0]));
        }
        assert(a =~= b);
    } else {
        assert(a.contains(a[0]));
        assert(b.contains(a[0]));
        let j = choose|j: int| 0 <= j < b.len() && b[j] == a[0];
        assert(b.contains(b[0]));
        assert(a.contains(b[0]));
        let i = choose|i: int| 0 <= i < a.len() && a[i] == b[0];
        if i > 0 && j > 0 {
            assert(text_le(a[0], a[i]));
            assert(text_le(b[0], b[j]));
            text_le_antisymmetric(a[0], b[0]);
        }
        assert(a[0] == b[0]);
        let ta = a.drop_first();
        let tb = b.drop_first();
        tail_is_ordered(a);
        tail_is_ordered(b);
        assert forall|name: Seq<char>| #[trigger] ta.contains(name) <==> tb.contains(name) by {
            tail_contains(a, name);
            tail_contains(b, name);
            assert(a.contains(name) <==> b.contains(name));
        }
        ordered_names_are_determined(ta, tb);
        assert(a =~= seq![a[0]] + ta);
        assert(b =~= seq![b[0]] + tb);
    }
}

proof fn tail_is_ordered(names: Seq<Seq<char>>)
    requires
        names.len() > 0,
        strictly_ordered(names),
    ensures
        strictly_ordered(names.drop_first()),
{
    let tail = names.drop_first();
    assert forall|i: int, j: int| 0 <= i < j < tail.len() implies text_le(
        #[trigger] tail[i],
        #[trigger] tail[j],
    ) && tail[i] != tail[j] by {
        assert(tail[i] == names[i + 1] && tail[j] == names[j + 1]);
    }
}

proof fn tail_contains(names: Seq<Seq<char>>, name: Seq<char>)
    requires
        names.len() > 0,
        strictly_ordered(names),
    ensures
        names.drop_first().contains(name) <==> names.contains(name) && name != names[0],
{
    let tail = names.drop_first();
    if tail.contains(name) {
        let i = choose|i: int| 0 <= i < tail.len() && tail[i] == name;
        assert(names[i + 1] == name);
        assert(names[0] != names[i + 1]);
    }
    if names.contains(name) && name != names[0] {
        let i = choose|i: int| 0 <= i < names.len() && names[i] == name;
        assert(tail[i - 1] == name);
    }
}

/// No identifier is offered twice.
pub proof fn offered_ids_are_distinct(
    configured: Seq<char>,
    sources: Seq<ChoiceView>,
    device_names: Seq<Seq<char>>,
    i: int,
    j: int,
)
    requires
        0 <= i < j < offered(configured, sources, device_names).len(),
    ensures
        offered(configured, sources, device_names)[i].id != offered(
            configured,
            sources,
            device_names,
        )[j].id,
{
    let listed = with_configured(found_choices(sources, device_names), configured);
    first_ids_are_distinct(listed, i, j);
}

proof fn first_ids_are_distinct(choices: Seq<ChoiceView>, i: int, j: int)
    requires
        0 <= i < j < first_of_each_id(choices).len(),
    ensures
        first_of_each_id(choices)[i].id != first_of_each_id(choices)[j].id,
    decreases choices.len(),
{
    let before = first_of_each_id(choices.drop_last());
    if j < before.len() {
        first_ids_are_distinct(choices.drop_last(), i, j);
    } else {
        assert(first_of_each_id(choices)[i] == before[i]);
    }
}

/// Dropping later choices with an identifier drops no identifier.
proof fn first_ids_are_all_ids(choices: Seq<ChoiceView>, id: Seq<char>)
    ensures
        has_id(first_of_each_id(choices), id) == has_id(choices, id),
    decreases choices.len(),
{
    if choices.len() > 0 {
        let earlier = choices.drop_last();
        let before = first_of_each_id(earlier);
        let after = first_of_each_id(choices);
        first_ids_are_all_ids(earlier, id);
        if has_id(before, id) {
            let i = choose|i: int| 0 <= i < before.len() && #[trigger] before[i].id == id;
            assert(after[i].id == id);
        }
        if has_id(earlier, id) {
            let i = choose|i: int| 0 <= i < earlier.len() && #[trigger] earlier[i].id == id;
            assert(choices[i].id == id);
        }
        if choices.last().id == id {
            assert(choices[choices.len() - 1].id == id);
            if !has_id(before, id) {
                assert(after[before.len() as int].id == id);
            }
        }
        if has_id(choices, id) && !has_id(earlier, id) {
            let i = choose|i: int| 0 <= i < choices.len() && #[trigger] choices[i].id == id;
            if i < earlier.len() {
                assert(earlier[i].id == id);
            }
        }
        if has_id(after, id) && !has_id(before, id) {
            let i = choose|i: int| 0 <= i < after.len() && #[trigger] after[i].id == id;
            if i < before.len() {
                assert(before[i].id == id);
            }
        }
    }
}

/// What is offered are the found devices, the default and the configured device:
/// none of them is missing, and nothing else is there.
pub proof fn offered_ids_are_found_or_configured(
    configured: Seq<char>,
    sources: Seq<ChoiceView>,
    device_names: Seq<Seq<char>>,
    id: Seq<char>,
)
    ensures
        has_id(offered(configured, sources, device_names), id) <==> id == configured || has_id(
            found_choices(sources, device_names),
            id,
        ),
{
    let found = found_choices(sources, device_names);
    let listed = with_configured(found, configured);
    first_ids_are_all_ids(listed, id);
    if !has_id(found, configured) {
        assert(listed[0].id == configured);
        if has_id(found, id) {
            let i = choose|i: int| 0 <= i < found.len() && #[trigger] found[i].id == id;
            assert(listed[i + 1].id == id);
        }
        if has_id(listed, id) && id != configured {
            let i = choose|i: int| 0 <= i < listed.len() && #[trigger] listed[i].id == id;
            assert(found[i - 1].id == id);
        }
    }
}

/// There is one entry per source: where the identifiers found are distinct and
/// the configured device is among them, they are offered as they were found.
pub proof fn distinct_choices_are_offered_as_found(
    configured: Seq<char>,
    sources: Seq<ChoiceView>,
    device_names: Seq<Seq<char>>,
)
    requires
        has_id(found_choices(sources, device_names), configured),
        forall|i: int, j: int|
            0 <= i < j < found_choices(sources, device_names).len() ==> (
            #[trigger] found_choices(sources, device_names)[i]).id != (
            #[trigger] found_choices(sources, device_names)[j]).id,
    ensures
        offered(configured, sources, device_names) == found_choices(sources, device_names),
{
    distinct_choices_are_kept(found_choices(sources, device_names));
}

proof fn distinct_choices_are_kept(choices: Seq<ChoiceView>)
    requires
        forall|i: int, j: int|
            0 <= i < j < choices.len() ==> (#[trigger] choices[i]).id != (#[trigger] choices[j]).id,
    ensures
        first_of_each_id(choices) == choices,
    decreases choices.len(),
{
    if choices.len() > 0 {
        let earlier = choices.drop_last();
        assert forall|i: int, j: int| 0 <= i < j < earlier.len() implies (
        #[trigger] earlier[i]).id != (#[trigger] earlier[j]).id by {
            assert(choices[i].id != choices[j].id);
        }
        distinct_choices_are_kept(earlier);
        if has_id(earlier, choices.last().id) {
            let i = choose|i: int|
                0 <= i < earlier.len() && #[trigger] earlier[i].id == choices.last().id;
            assert(choices[i].id != choices[choices.len() - 1].id);
        }
        assert(earlier.push(choices.last()) =~= choices);
    } else {
        assert(first_of_each_id(choices) =~= choices);
    }
}

/// What is found, entry by entry.
proof fn found_choices_by_entry(sources: Seq<ChoiceView>, device_names: Seq<Seq<char>>)
    ensures
        sources.len() > 0 ==> found_choices(sources, device_names) == seq![
            ChoiceView { id: "pipewire"@, label: "PipeWire default"@ },
        ] + sources,
        sources.len() == 0 ==> found_choices(sources, device_names) == seq![
            ChoiceView { id: "default"@, label: "System default"@ },
        ] + Seq::new(
            device_names.len(),
            |i: int| ChoiceView { id: device_names[i], label: device_names[i] },
        ),
{
    if sources.len() == 0 {
        assert(found_choices(sources, device_names) =~= seq![
            ChoiceView { id: "default"@, label: "System default"@ },
        ] + Seq::new(
            device_names.len(),
            |i: int| ChoiceView { id: device_names[i], label: device_names[i] },
        ));
    }
}

/// The identifiers offered are the configured one, that of the default entry and those
/// of the PipeWire sources; where there is no source, those of the host's devices stand
/// in for them, and the default entry is the host's.
pub proof fn offered_ids_are_those_of_devices(
    configured: Seq<char>,
    sources: Seq<ChoiceView>,
    device_names: Seq<Seq<char>>,
    id: Seq<char>,
)
    ensures
        (exists|i: int|
            0 <= i < offered(configured, sources, device_names).len() && (#[trigger] offered(
                configured,
                sources,
                device_names,
            )[i]).id == id) <==> {
            ||| id == configured
            ||| sources.len() > 0 && id == "pipewire"@
            ||| sources.len() > 0 && exists|i: int|
                0 <= i < sources.len() && (#[trigger] sources[i]).id == id
            ||| sources.len() == 0 && id == "default"@
            ||| sources.len() == 0 && device_names.contains(id)
        },
{
    let found = found_choices(sources, device_names);
    offered_ids_are_found_or_configured(configured, sources, device_names, id);
    found_choices_by_entry(sources, device_names);
    assert(has_id(offered(configured, sources, device_names), id) <==> exists|i: int|
        0 <= i < offered(configured, sources, device_names).len() && (#[trigger] offered(
            configured,
            sources,
            device_names,
        )[i]).id == id);
    assert(found[0].id == if sources.len() > 0 {
        "pipewire"@
    } else {
        "default"@
    });
    if sources.len() > 0 {
        assert forall|i: int| 0 <= i < sources.len() implies (#[trigger] sources[i]).id == found[i
            + 1].id by {}
        if has_id(found, id) && id != "pipewire"@ {
            let i = choose|i: int| 0 <= i < found.len() && #[trigger] found[i].id == id;
            assert(sources[i - 1].id == id);
        }
    } else {
        if device_names.contains(id) {
            let i = choose|i: int| 0 <= i < device_names.len() && device_names[i] == id;
            assert(found[i + 1].id == id);
        }
        if has_id(found, id) && id != "default"@ {
            let i = choose|i: int| 0 <= i < found.len() && #[trigger] found[i].id == id;
            assert(device_names[i - 1] == id);
        }
    }
}

/// The default entry is offered first, or second behind the configured device where that
/// is not among what was found; a configured device that was not found is labelled by
/// its own name.
pub proof fn default_entry_is_offered_first(
    configured: Seq<char>,
    sources: Seq<ChoiceView>,
    device_names: Seq<Seq<char>>,
)
    ensures
        ({
            let default_entry = if sources.len() > 0 {
                ChoiceView { id: "pipewire"@, label: "PipeWire default"@ }
            } else {
                ChoiceView { id: "default"@, label: "System default"@ }
            };
            let is_found = {
                ||| configured == default_entry.id
                ||| sources.len() > 0 && exists|i: int|
                    0 <= i < sources.len() && (#[trigger] sources[i]).id == configured
                ||| sources.len() == 0 && device_names.contains(configured)
            };
            let list = offered(configured, sources, device_names);
            if is_found {
                list.len() >= 1 && list[0] == default_entry
            } else {
                &&& list.len() >= 2
                &&& list[0] == ChoiceView { id: configured, label: configured }
                &&& list[1] == default_entry
            }
        }),
{
    let found = found_choices(sources, device_names);
    let listed = with_configured(found, configured);
    found_choices_by_entry(sources, device_names);
    assert(found[0].id == configured ==> has_id(found, configured));
    if sources.len() > 0 {
        assert forall|i: int| 0 <= i < sources.len() implies (#[trigger] sources[i]).id == found[i
            + 1].id by {}
        if has_id(found, configured) && configured != "pipewire"@ {
            let i = choose|i: int| 0 <= i < found.len() && #[trigger] found[i].id == configured;
            assert(sources[i - 1].id == configured);
        }
    } else {
        if device_names.contains(configured) {
            let i = choose|i: int| 0 <= i < device_names.len() && device_names[i] == configured;
            assert(found[i + 1].id == configured);
        }
        if has_id(found, configured) && configured != "default"@ {
            let i = choose|i: int| 0 <= i < found.len() && #[trigger] found[i].id == configured;
            assert(device_names[i - 1] == configured);
        }
    }
    first_choice_is_kept(listed);
    if !has_id(found, configured) {
        assert(listed[1] == found[0]);
        assert(listed[0].id == configured);
        assert(listed[1].id != listed[0].id) by {
            assert(found[0].id != configured);
        }
        second_choice_is_kept(listed);
    }
}

proof fn first_choice_is_kept(choices: Seq<ChoiceView>)
    requires
        choices.len() > 0,
    ensures
        first_of_each_id(choices).len() > 0,
        first_of_each_id(choices)[0] == choices[0],
    decreases choices.len(),
{
    if choices.len() > 1 {
        first_choice_is_kept(choices.drop_last());
    } else {
        reveal_with_fuel(first_of_each_id, 2);
        assert(choices.drop_last() =~= Seq::<ChoiceView>::empty());
    }
}

proof fn second_choice_is_kept(choices: Seq<ChoiceView>)
    requires
        choices.len() > 1,
        choices[0].id != choices[1].id,
    ensures
        first_of_each_id(choices).len() > 1,
        first_of_each_id(choices)[1] == choices[1],
    decreases choices.len(),
{
    if choices.len() > 2 {
        second_choice_is_kept(choices.drop_last());
    } else {
        let one = choices.drop_last();
        reveal_with_fuel(first_of_each_id, 3);
        assert(one.drop_last() =~= Seq::<ChoiceView>::empty());
        assert(first_of_each_id(one) =~= seq![choices[0]]);
        assert(!has_id(first_of_each_id(one), choices[1].id));
    }
}

/// What is offered stands as it was found: two entries, one behind the other, are two
/// entries in this order of `all`, which are the configured device where it was not found,
/// the default entry and what was found, and each is the first there with its identifier.
pub proof fn offered_choices_stand_as_found(
    configured: Seq<char>,
    sources: Seq<ChoiceView>,
    device_names: Seq<Seq<char>>,
    found: Seq<ChoiceView>,
    all: Seq<ChoiceView>,
    p: int,
    q: int,
) -> (places: (int, int))
    requires
        sources.len() > 0 ==> found == seq![
            ChoiceView { id: "pipewire"@, label: "PipeWire default"@ },
        ] + sources,
        sources.len() == 0 ==> found.len() == 1 + device_names.len() && found[0] == (ChoiceView {
            id: "default"@,
            label: "System default"@,
        }) && forall|i: int|
            0 < i < found.len() ==> #[trigger] found[i] == (ChoiceView {
                id: device_names[i - 1],
                label: device_names[i - 1],
            }),
        (exists|i: int| 0 <= i < found.len() && #[trigger] found[i].id == configured) ==> all
            == found,
        !(exists|i: int| 0 <= i < found.len() && #[trigger] found[i].id == configured) ==> all
            == seq![ChoiceView { id: configured, label: configured }] + found,
        0 <= p < q < offered(configured, sources, device_names).len(),
    ensures
        0 <= places.0 < places.1 < all.len(),
        all[places.0] == offered(configured, sources, device_names)[p],
        all[places.1] == offered(configured, sources, device_names)[q],
        forall|k: int| 0 <= k < places.0 ==> (#[trigger] all[k]).id != all[places.0].id,
        forall|k: int| 0 <= k < places.1 ==> (#[trigger] all[k]).id != all[places.1].id,
{
    found_choices_by_entry(sources, device_names);
    assert(found_choices(sources, device_names) =~= found);
    assert(has_id(found, configured) <==> exists|i: int|
        0 <= i < found.len() && #[trigger] found[i].id == configured);
    assert(with_configured(found, configured) =~= all);
    places_of_first(all, p, q)
}

/// Where two of the choices that are the first with their identifier stand.
proof fn places_of_first(choices: Seq<ChoiceView>, p: int, q: int) -> (places: (int, int))
    requires
        0 <= p < q < first_of_each_id(choices).len(),
    ensures
        0 <= places.0 < places.1 < choices.len(),
        choices[places.0] == first_of_each_id(choices)[p],
        choices[places.1] == first_of_each_id(choices)[q],
        forall|k: int|
            0 <= k < places.0 ==> (#[trigger] choices[k]).id != first_of_each_id(choices)[p].id,
        forall|k: int|
            0 <= k < places.1 ==> (#[trigger] choices[k]).id != first_of_each_id(choices)[q].id,
    decreases choices.len(),
{
    let earlier = choices.drop_last();
    let before = first_of_each_id(earlier);
    if q < before.len() {
        let places = places_of_first(earlier, p, q);
        assert(choices[places.0] == earlier[places.0] && choices[places.1] == earlier[places.1]);
        assert forall|k: int| 0 <= k < places.1 implies (#[trigger] choices[k]).id != before[q].id by {
            assert(earlier[k] == choices[k]);
        }
        assert forall|k: int| 0 <= k < places.0 implies (#[trigger] choices[k]).id != before[p].id by {
            assert(earlier[k] == choices[k]);
        }
        places
    } else {
        let i = place_of_first(earlier, p);
        assert(choices[i] == earlier[i]);
        assert forall|k: int| 0 <= k < i implies (#[trigger] choices[k]).id != before[p].id by {
            assert(earlier[k] == choices[k]);
        }
        first_ids_are_all_ids(earlier, choices.last().id);
        assert forall|k: int| 0 <= k < earlier.len() implies (#[trigger] choices[k]).id
            != choices.last().id by {
            assert(earlier[k] == choices[k]);
        }
        (i, earlier.len() as int)
    }
}

proof fn place_of_first(choices: Seq<ChoiceView>, p: int) -> (place: int)
    requires
        0 <= p < first_of_each_id(choices).len(),
    ensures
        0 <= place < choices.len(),
        choices[place] == first_of_each_id(choices)[p],
        forall|k: int|
            0 <= k < place ==> (#[trigger] choices[k]).id != first_of_each_id(choices)[p].id,
    decreases choices.len(),
{
    let earlier = choices.drop_last();
    let before = first_of_each_id(earlier);
    if p < before.len() {
        let place = place_of_first(earlier, p);
        assert(choices[place] == earlier[place]);
        assert forall|k: int| 0 <= k < place implies (#[trigger] choices[k]).id != before[p].id by {
            assert(earlier[k] == choices[k]);
        }
        place
    } else {
        first_ids_are_all_ids(earlier, choices.last().id);
        assert forall|k: int| 0 <= k < earlier.len() implies (#[trigger] choices[k]).id
            != choices.last().id by {
            assert(earlier[k] == choices[k]);
        }
        earlier.len() as int
    }
}

/// The views of choices and of texts hold the texts, each in its place.
pub proof fn views_hold_their_texts(
    choices: Seq<InputDeviceChoice>,
    strings: Seq<String>,
    i: int,
    j: int,
)
    ensures
        views(choices).len() == choices.len(),
        texts(strings).len() == strings.len(),
        0 <= i < choices.len() ==> views(choices)[i] == (ChoiceView {
            id: choices[i].id@,
            label: choices[i].label@,
        }),
        0 <= j < strings.len() ==> texts(strings)[j] == strings[j]@,
{
}

/// Names are strictly ordered exactly where each of two neighbours stands no later than
/// the other and differs from it.
pub proof fn neighbours_decide_strict_order(names: Seq<Seq<char>>)
    ensures
        strictly_ordered(names) <==> forall|i: int|
            0 < i < names.len() ==> text_le(names[i - 1], #[trigger] names[i]) && names[i - 1]
                != names[i],
    decreases names.len(),
{
    if strictly_ordered(names) {
        assert forall|i: int| 0 < i < names.len() implies text_le(names[i - 1], #[trigger] names[i])
            && names[i - 1] != names[i] by {}
    }
    if forall|i: int|
        0 < i < names.len() ==> text_le(names[i - 1], #[trigger] names[i]) && names[i - 1]
            != names[i] {
        assert forall|i: int, j: int| 0 <= i < j < names.len() implies text_le(
            #[trigger] names[i],
            #[trigger] names[j],
        ) && names[i] != names[j] by {
            chain_is_ordered(names, i, j);
        }
    }
}

proof fn chain_is_ordered(names: Seq<Seq<char>>, i: int, j: int)
    requires
        0 <= i < j < names.len(),
        forall|k: int|
            0 < k < names.len() ==> text_le(names[k - 1], #[trigger] names[k]) && names[k - 1]
                != names[k],
    ensures
        text_le(names[i], names[j]),
        names[i] != names[j],
    decreases j - i,
{
    assert(text_le(names[j - 1], names[j]) && names[j - 1] != names[j]);
    if i < j - 1 {
        chain_is_ordered(names, i, j - 1);
        text_le_transitive(names[i], names[j - 1], names[j]);
        if names[i] == names[j] {
            text_le_antisymmetric(names[j - 1], names[j]);
        }
    }
}

/// A name is reported exactly where some device has it, letter by letter; a device
/// without a name reports nothing.
pub proof fn reported_names_are_those_of_devices(reported: Seq<Option<String>>, name: Seq<char>)
    ensures
        is_reported(reported, name) <==> exists|i: int|
            0 <= i < reported.len() && #[trigger] reported[i] is Some && reported[i]->0@ == name,
        forall|i: int|
            0 <= i < reported.len() ==> (is_named(#[trigger] reported[i], name) <==> reported[i] is Some
                && reported[i]->0@ == name),
{
    if is_reported(reported, name) {
        let i = choose|i: int| 0 <= i < reported.len() && is_named(#[trigger] reported[i], name);
        assert(reported[i] is Some && reported[i]->0@ == name);
    }
    if exists|i: int|
        0 <= i < reported.len() && #[trigger] reported[i] is Some && reported[i]->0@ == name {
        let i = choose|i: int|
            0 <= i < reported.len() && #[trigger] reported[i] is Some && reported[i]->0@ == name;
        assert(is_named(reported[i], name));
    }
}

} // verus!
