//! Key codes of Linux input events, and the modifiers among them.
use std::collections::HashSet;

use vstd::prelude::*;

verus! {

/// Type of the input events that report keys.
pub const EV_KEY: u16 = 1;

pub const KEY_LEFTCTRL: u16 = 29;

pub const KEY_A: u16 = 30;

pub const KEY_LEFTSHIFT: u16 = 42;

pub const KEY_RIGHTSHIFT: u16 = 54;

pub const KEY_LEFTALT: u16 = 56;

pub const KEY_RIGHTCTRL: u16 = 97;

pub const KEY_RIGHTALT: u16 = 100;

pub const KEY_LEFTMETA: u16 = 125;

pub const KEY_RIGHTMETA: u16 = 126;

/// The same modifier on the other side of the keyboard; any other key itself.
pub open spec fn other_side(key: u16) -> u16 {
    if key == KEY_LEFTMETA {
        KEY_RIGHTMETA
    } else if key == KEY_RIGHTMETA {
        KEY_LEFTMETA
    } else if key == KEY_LEFTALT {
        KEY_RIGHTALT
    } else if key == KEY_RIGHTALT {
        KEY_LEFTALT
    } else if key == KEY_LEFTCTRL {
        KEY_RIGHTCTRL
    } else if key == KEY_RIGHTCTRL {
        KEY_LEFTCTRL
    } else if key == KEY_LEFTSHIFT {
        KEY_RIGHTSHIFT
    } else if key == KEY_RIGHTSHIFT {
        KEY_LEFTSHIFT
    } else {
        key
    }
}

/// Whether a modifier is held, on either side.
pub open spec fn modifier_is_held(held: Set<u16>, modifier: u16) -> bool {
    held.contains(modifier) || held.contains(other_side(modifier))
}

/// Whether all of `required` are held.
pub open spec fn all_held(held: Set<u16>, required: Seq<u16>) -> bool {
    forall|i: int| 0 <= i < required.len() ==> modifier_is_held(held, #[trigger] required[i])
}

/// The same modifier on the other side of the keyboard; any other key itself.
fn variant(key: u16) -> (r: u16)
    ensures
        r == other_side(key),
{
    match key {
        KEY_LEFTMETA => KEY_RIGHTMETA,
        KEY_RIGHTMETA => KEY_LEFTMETA,
        KEY_LEFTALT => KEY_RIGHTALT,
        KEY_RIGHTALT => KEY_LEFTALT,
        KEY_LEFTCTRL => KEY_RIGHTCTRL,
        KEY_RIGHTCTRL => KEY_LEFTCTRL,
        KEY_LEFTSHIFT => KEY_RIGHTSHIFT,
        KEY_RIGHTSHIFT => KEY_LEFTSHIFT,
        _ => key,
    }
}

/// Check if all required modifier keys (or their left/right variants) are held.
pub fn modifiers_held(held: &HashSet<u16>, required: &[u16]) -> (r: bool)
    ensures
        r == all_held(held@, required@),
{
    let mut i: usize = 0;
    while i < required.len()
        invariant
            i <= required.len(),
            forall|j: int| 0 <= j < i ==> modifier_is_held(held@, #[trigger] required@[j]),
        decreases required.len() - i,
    {
        let modifier: u16 = required[i];
        let other: u16 = variant(modifier);
        if !held.contains(&modifier) && !held.contains(&other) {
            assert(!modifier_is_held(held@, required@[i as int]));
            return false;
        }
        i += 1;
    }
    true
}

/// The sides of a modifier are interchangeable, whether required or held.
pub proof fn sides_are_interchangeable(held: Set<u16>, modifier: u16)
    ensures
        other_side(other_side(modifier)) == modifier,
        modifier_is_held(held, other_side(modifier)) == modifier_is_held(held, modifier),
{
}

/// Holding more keys releases no modifier.
pub proof fn more_keys_keep_modifiers(held: Set<u16>, more: Set<u16>, required: Seq<u16>)
    requires
        held.subset_of(more),
        all_held(held, required),
    ensures
        all_held(more, required),
{
    assert forall|i: int| 0 <= i < required.len() implies modifier_is_held(
        more,
        #[trigger] required[i],
    ) by {
        assert(modifier_is_held(held, required[i]));
    }
}

/// A combination needs every one of its modifiers: it is held exactly where each
/// position of the list names a key that is held itself or on its other side.
pub proof fn every_required_modifier_counts(held: Set<u16>, required: Seq<u16>)
    ensures
        all_held(held, required) <==> forall|i: int|
            0 <= i < required.len() ==> held.contains(#[trigger] required[i]) || held.contains(
                other_side(required[i]),
            ),
{
    assert(all_held(held, required) ==> forall|i: int|
        0 <= i < required.len() ==> modifier_is_held(held, #[trigger] required[i]));
}

/// Letting go of one required modifier, on both of its sides, ends the combination,
/// whatever else is held.
pub proof fn each_modifier_is_needed(held: Set<u16>, required: Seq<u16>, i: int)
    requires
        0 <= i < required.len(),
    ensures
        !all_held(held.remove(required[i]).remove(other_side(required[i])), required),
{
    let fewer = held.remove(required[i]).remove(other_side(required[i]));
    assert(!modifier_is_held(fewer, required[i]));
}

/// Lists of modifiers are held together where each of them is; no modifier is
/// needed for the empty list, and a single one by itself.
pub proof fn combined_modifiers_are_held_together(
    held: Set<u16>,
    first: Seq<u16>,
    second: Seq<u16>,
    modifier: u16,
)
    ensures
        all_held(held, first + second) <==> all_held(held, first) && all_held(held, second),
        all_held(held, Seq::empty()),
        all_held(held, seq![modifier]) <==> held.contains(modifier) || held.contains(
            other_side(modifier),
        ),
{
    let both = first + second;
    assert forall|i: int| 0 <= i < first.len() && all_held(held, both) implies modifier_is_held(
        held,
        #[trigger] first[i],
    ) by {
        assert(both[i] == first[i]);
    }
    assert forall|i: int| 0 <= i < second.len() && all_held(held, both) implies modifier_is_held(
        held,
        #[trigger] second[i],
    ) by {
        assert(both[first.len() + i] == second[i]);
    }
    assert forall|i: int|
        0 <= i < both.len() && all_held(held, first) && all_held(
            held,
            second,
        ) implies modifier_is_held(held, #[trigger] both[i]) by {
        if i < first.len() {
            assert(both[i] == first[i]);
        } else {
            assert(both[i] == second[i - first.len()]);
        }
    }
    assert(seq![modifier][0] == modifier);
}

/// Control, Shift, Alt and Meta are the keys that have another side, with the codes
/// that Linux gives them; every other key, whatever it is, counts only itself.
pub proof fn four_modifiers_have_two_sides(held: Set<u16>, key: u16)
    ensures
        modifier_is_held(held, 29) <==> held.contains(29) || held.contains(97),
        modifier_is_held(held, 97) <==> held.contains(29) || held.contains(97),
        modifier_is_held(held, 42) <==> held.contains(42) || held.contains(54),
        modifier_is_held(held, 54) <==> held.contains(42) || held.contains(54),
        modifier_is_held(held, 56) <==> held.contains(56) || held.contains(100),
        modifier_is_held(held, 100) <==> held.contains(56) || held.contains(100),
        modifier_is_held(held, 125) <==> held.contains(125) || held.contains(126),
        modifier_is_held(held, 126) <==> held.contains(125) || held.contains(126),
        !(seq![29u16, 97, 42, 54, 56, 100, 125, 126].contains(key)) ==> (modifier_is_held(held, key)
            <==> held.contains(key)),
        !(seq![29u16, 97, 42, 54, 56, 100, 125, 126].contains(key)) ==> other_side(key) == key,
        other_side(29) == 97 && other_side(42) == 54 && other_side(56) == 100 && other_side(125)
            == 126,
{
    let sided = seq![29u16, 97, 42, 54, 56, 100, 125, 126];
    assert(sided[0] == 29 && sided[1] == 97 && sided[2] == 42 && sided[3] == 54 && sided[4] == 56
        && sided[5] == 100 && sided[6] == 125 && sided[7] == 126);
}

} // verus!
