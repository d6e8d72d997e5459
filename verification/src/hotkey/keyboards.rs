//! Telling keyboards from other input devices.
use vstd::prelude::*;
use vstd::string::*;

use crate::hotkey::keys::{KEY_A, KEY_LEFTMETA, KEY_RIGHTALT};
use crate::text::{same_text, strip_prefix};

verus! {

/// The text that an option holds.
pub open spec fn text_of(text: Option<&str>) -> Option<Seq<char>> {
    match text {
        Some(t) => Some(t@),
        None => None,
    }
}

/// Whether a file under `/dev/input` is an event node, by its name; a name that
/// is not text is none.
pub fn is_event_node(file_name: Option<&str>) -> (r: bool)
    ensures
        r == (file_name matches Some(name) && "event"@.is_prefix_of(name@)),
{
    match file_name {
        Some(name) => strip_prefix(name, "event").is_some(),
        None => false,
    }
}

/// Whether hotkeys are heard on a device that has `name` and can emit `keys`.
///
/// Composite USB keyboards sometimes expose modifier keys on a secondary event
/// node that does not advertise the full A-Z key set. Any node that can emit Right
/// Alt is taken, so that a standalone RightAlt toggle is not silently missed. The
/// virtual keyboard through which text is typed is not.
pub open spec fn hears_hotkeys(name: Option<Seq<char>>, keys: Option<Seq<u16>>) -> bool {
    match keys {
        Some(codes) => {
            &&& name != Some("whisrs virtual keyboard"@)
            &&& (codes.contains(KEY_A) && codes.contains(KEY_LEFTMETA)) || codes.contains(
                KEY_RIGHTALT,
            )
        },
        None => false,
    }
}

/// The keys that an option holds.
pub open spec fn codes_of(keys: Option<Vec<u16>>) -> Option<Seq<u16>> {
    match keys {
        Some(codes) => Some(codes@),
        None => None,
    }
}

/// Whether `key` is among `keys`.
fn has_key(keys: &Vec<u16>, key: u16) -> (r: bool)
    ensures
        r == keys@.contains(key),
{
    let mut i: usize = 0;
    while i < keys.len()
        invariant
            i <= keys.len(),
            forall|j: int| 0 <= j < i ==> keys@[j] != key,
        decreases keys.len() - i,
    {
        if keys[i] == key {
            assert(keys@[i as int] == key);
            return true;
        }
        i += 1;
    }
    false
}

/// Whether hotkeys are heard on a device that has `name` and can emit `keys`; a
/// device that reports no keys is none.
pub fn is_hotkey_keyboard(name: Option<&str>, keys: &Option<Vec<u16>>) -> (r: bool)
    ensures
        r == hears_hotkeys(text_of(name), codes_of(*keys)),
{
    match keys {
        Some(codes) => {
            let is_virtual_keyboard = match name {
                Some(text) => same_text(text, "whisrs virtual keyboard"),
                None => false,
            };
            let looks_like_keyboard = has_key(codes, KEY_A) && has_key(codes, KEY_LEFTMETA);
            !is_virtual_keyboard && (looks_like_keyboard || has_key(codes, KEY_RIGHTALT))
        },
        None => false,
    }
}

/// A device that can emit Right Alt is heard, and so is one that can emit both A and Left
/// Meta; without Right Alt both of these are needed, and no other key counts. A device
/// that reports no keys is not heard, nor is the one named as the virtual keyboard,
/// whatever it can emit; any other name, or none, makes no difference.
pub proof fn three_keys_tell_keyboards(
    name: Option<Seq<char>>,
    other_name: Option<Seq<char>>,
    keys: Seq<u16>,
    key: u16,
)
    ensures
        !hears_hotkeys(name, None),
        !hears_hotkeys(Some("whisrs virtual keyboard"@), Some(keys)),
        name != Some("whisrs virtual keyboard"@) ==> hears_hotkeys(name, Some(keys.push(100))),
        name != Some("whisrs virtual keyboard"@) ==> hears_hotkeys(
            name,
            Some(keys.push(30).push(125)),
        ),
        !keys.contains(100) && !keys.contains(30) ==> !hears_hotkeys(name, Some(keys)),
        !keys.contains(100) && !keys.contains(125) ==> !hears_hotkeys(name, Some(keys)),
        key != 100 && key != 30 && key != 125 ==> hears_hotkeys(name, Some(keys.push(key)))
            == hears_hotkeys(name, Some(keys)),
        name != Some("whisrs virtual keyboard"@) && other_name != Some(
            "whisrs virtual keyboard"@,
        ) ==> hears_hotkeys(name, Some(keys)) == hears_hotkeys(other_name, Some(keys)),
{
    pushed_keys(keys, 100);
    pushed_keys(keys, 30);
    pushed_keys(keys.push(30), 125);
    pushed_keys(keys, key);
}

proof fn pushed_keys(keys: Seq<u16>, key: u16)
    ensures
        forall|k: u16| #[trigger] keys.push(key).contains(k) <==> keys.contains(k) || k == key,
{
    let more = keys.push(key);
    assert(more[keys.len() as int] == key);
    assert forall|k: u16| #[trigger] more.contains(k) <==> keys.contains(k) || k == key by {
        if keys.contains(k) {
            let i = choose|i: int| 0 <= i < keys.len() && keys[i] == k;
            assert(more[i] == k);
        }
        if more.contains(k) && k != key {
            let i = choose|i: int| 0 <= i < more.len() && more[i] == k;
            assert(keys[i] == k);
        }
    }
}

/// A device is told by the name and the keys that it reports, as they are.
pub proof fn reports_are_taken_as_they_are(name: &str, keys: Vec<u16>)
    ensures
        text_of(Some(name)) == Some(name@),
        text_of(None) is None,
        codes_of(Some(keys)) == Some(keys@),
        codes_of(None) is None,
{
}

} // verus!
