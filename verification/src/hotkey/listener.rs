//! Key events of one keyboard, and the commands they call for.
//!
//! A standalone toggle key fires on release, so that a quick tap can be told from
//! a two-second hold. Each press of it begins a gesture. Two parties may end the
//! gesture, the release of the key and a timer that runs from the press on; the
//! first of them claims it, and the other then finds it claimed.
use std::collections::{HashMap, HashSet};

use vstd::prelude::*;

use crate::hotkey::actions::{Command, HotkeyAction};
use crate::hotkey::keys::{all_held, modifiers_held, EV_KEY};

verus! {

/// Nanoseconds for which a standalone toggle key is held to open the quick menu.
pub const QUICK_MENU_HOLD_NANOS: u128 = 2_000_000_000;

/// An input event.
#[derive(Debug, Clone, Copy, PartialEq, Eq)]
pub struct KeyEvent {
    /// The event's type.
    pub kind: u16,
    /// The key, where the event reports one.
    pub code: u16,
    /// 1 for a press, 0 for a release, 2 for a repeat.
    pub value: i32,
}

/// A toggle key that is down.
#[derive(Debug, Clone, Copy, PartialEq, Eq)]
pub struct PendingToggle {
    /// When it was pressed, in nanoseconds.
    pub pressed_at: u128,
    pub gesture: u64,
}

/// What an event calls for.
#[derive(Debug, PartialEq, Eq)]
pub enum ListenerEffect {
    /// Send a command to the daemon.
    Send(Command),
    /// Run the timer of a gesture for [`QUICK_MENU_HOLD_NANOS`].
    StartHold(u64),
}

/// Keys and gestures of one keyboard.
pub struct ListenerState {
    held: HashSet<u16>,
    pending: HashMap<u16, PendingToggle>,
    unclaimed: HashSet<u64>,
    next_gesture: u64,
}

/// What a [`ListenerState`] stands for.
#[verifier::ext_equal]
pub struct ListenerView {
    /// The keys that are held.
    pub held: Set<u16>,
    /// The toggle keys that are down.
    pub pending: Map<u16, PendingToggle>,
    /// The gestures that neither release nor timer has claimed.
    pub unclaimed: Set<u64>,
    /// The gesture that the next press of a toggle key begins.
    pub next_gesture: u64,
}

impl View for ListenerState {
    type V = ListenerView;

    closed spec fn view(&self) -> ListenerView {
        ListenerView {
            held: self.held@,
            pending: self.pending@,
            unclaimed: self.unclaimed@,
            next_gesture: self.next_gesture,
        }
    }
}

impl ListenerView {
    /// Gestures were begun before the next one, and each by one key.
    pub open spec fn wf(self) -> bool {
        &&& forall|g: u64| #[trigger] self.unclaimed.contains(g) ==> g < self.next_gesture
        &&& forall|key: u16| #[trigger]
            self.pending.contains_key(key) ==> self.pending[key].gesture < self.next_gesture
        &&& forall|a: u16, b: u16| #[trigger]
            self.pending.contains_key(a) && #[trigger] self.pending.contains_key(b) && a != b
                ==> self.pending[a].gesture != self.pending[b].gesture
    }
}

/// Whether a press of `key` calls for `action`.
pub open spec fn fires(action: HotkeyAction, key: u16, held: Set<u16>) -> bool {
    key == action.binding.trigger && all_held(held, action.binding.modifiers@)
}

/// Whether an action is a toggle without modifiers.
pub open spec fn is_standalone_toggle(action: HotkeyAction) -> bool {
    action.command is Toggle && action.binding.modifiers@.len() == 0
}

/// A gesture begins with a press of `key`.
pub open spec fn begun(s: ListenerView, key: u16, now: u128) -> ListenerView {
    ListenerView {
        pending: s.pending.insert(key, PendingToggle { pressed_at: now, gesture: s.next_gesture }),
        unclaimed: s.unclaimed.insert(s.next_gesture),
        next_gesture: (s.next_gesture + 1) as u64,
        ..s
    }
}

/// The state and effects once the actions have been gone through for a press of
/// `key`, which is held.
pub open spec fn pressed(
    s: ListenerView,
    actions: Seq<HotkeyAction>,
    key: u16,
    now: u128,
) -> (ListenerView, Seq<ListenerEffect>)
    decreases actions.len(),
{
    if actions.len() == 0 {
        (s, Seq::empty())
    } else {
        let (t, effects) = pressed(s, actions.drop_last(), key, now);
        let action = actions.last();
        if !fires(action, key, s.held) {
            (t, effects)
        } else if is_standalone_toggle(action) {
            (begun(t, key, now), effects.push(ListenerEffect::StartHold(t.next_gesture)))
        } else {
            (t, effects.push(ListenerEffect::Send(action.command)))
        }
    }
}

/// The state and effects of a release of `key`: a toggle where its gesture was not
/// claimed and it was down for less than the hold.
pub open spec fn released(s: ListenerView, key: u16, now: u128) -> (
    ListenerView,
    Seq<ListenerEffect>,
) {
    let up = ListenerView { held: s.held.remove(key), ..s };
    if s.pending.contains_key(key) {
        let toggle = s.pending[key];
        let ended = ListenerView {
            pending: s.pending.remove(key),
            unclaimed: s.unclaimed.remove(toggle.gesture),
            ..up
        };
        if s.unclaimed.contains(toggle.gesture) && now - toggle.pressed_at
            < QUICK_MENU_HOLD_NANOS {
            (ended, seq![ListenerEffect::Send(Command::Toggle { language: None })])
        } else {
            (ended, Seq::empty())
        }
    } else {
        (up, Seq::empty())
    }
}

/// The state and effects of an event.
pub open spec fn stepped(
    s: ListenerView,
    event: KeyEvent,
    now: u128,
    actions: Seq<HotkeyAction>,
) -> (ListenerView, Seq<ListenerEffect>) {
    if event.kind != EV_KEY {
        (s, Seq::empty())
    } else if event.value == 1 {
        pressed(ListenerView { held: s.held.insert(event.code), ..s }, actions, event.code, now)
    } else if event.value == 0 {
        released(s, event.code, now)
    } else {
        (s, Seq::empty())
    }
}

/// The state and command once the timer of `gesture` has run out: the quick menu
/// where the gesture was not claimed.
pub open spec fn timed_out(s: ListenerView, gesture: u64) -> (ListenerView, Option<Command>) {
    if s.unclaimed.contains(gesture) {
        (
            ListenerView { unclaimed: s.unclaimed.remove(gesture), ..s },
            Some(Command::QuickMenu),
        )
    } else {
        (s, None)
    }
}

impl ListenerState {
    /// A keyboard on which no key is held.
    pub fn new() -> (r: Self)
        ensures
            r@.wf(),
            r@ == (ListenerView {
                held: Set::empty(),
                pending: Map::empty(),
                unclaimed: Set::empty(),
                next_gesture: 0,
            }),
    {
        ListenerState {
            held: HashSet::new(),
            pending: HashMap::new(),
            unclaimed: HashSet::new(),
            next_gesture: 0,
        }
    }

    /// How many gestures can still be numbered.
    pub fn gestures_left(&self) -> (r: u64)
        ensures
            r == u64::MAX - self@.next_gesture,
    {
        u64::MAX - self.next_gesture
    }

    /// Takes in an event that came at `now`, in nanoseconds, and returns what it
    /// calls for, in order.
    pub fn on_event(&mut self, event: KeyEvent, now: u128, actions: &Vec<HotkeyAction>) -> (r: Vec<
        ListenerEffect,
    >)
        requires
            old(self)@.wf(),
            old(self)@.next_gesture + actions@.len() <= u64::MAX,
        ensures
            final(self)@.wf(),
            (final(self)@, r@) == stepped(old(self)@, event, now, actions@),
    {
        if event.kind != EV_KEY {
            return Vec::new();
        }
        if event.value == 1 {
            self.on_press(event.code, now, actions)
        } else if event.value == 0 {
            self.on_release(event.code, now)
        } else {
            Vec::new()
        }
    }

    /// Takes in a press of `key`.
    fn on_press(&mut self, key: u16, now: u128, actions: &Vec<HotkeyAction>) -> (r: Vec<
        ListenerEffect,
    >)
        requires
            old(self)@.wf(),
            old(self)@.next_gesture + actions@.len() <= u64::MAX,
        ensures
            final(self)@.wf(),
            (final(self)@, r@) == pressed(
                (ListenerView { held: old(self)@.held.insert(key), ..old(self)@ }),
                actions@,
                key,
                now,
            ),
    {
        self.held.insert(key);
        let ghost start = ListenerView { held: old(self)@.held.insert(key), ..old(self)@ };
        assert(self@ =~= start);
        let mut effects: Vec<ListenerEffect> = Vec::new();
        let mut i: usize = 0;
        while i < actions.len()
            invariant
                i <= actions.len(),
                start.next_gesture + actions@.len() <= u64::MAX,
                start.next_gesture <= self@.next_gesture <= start.next_gesture + i,
                self@.wf(),
                self@.held == start.held,
                (self@, effects@) == pressed(start, actions@.take(i as int), key, now),
            decreases actions.len() - i,
        {
            let ghost before = self@;
            let ghost so_far = effects@;
            assert(actions@.take(i + 1).drop_last() =~= actions@.take(i as int));
            assert(actions@.take(i + 1).last() == actions@[i as int]);
            let action: &HotkeyAction = &actions[i];
            if key == action.binding.trigger && modifiers_held(
                &self.held,
                action.binding.modifiers.as_slice(),
            ) {
                let is_toggle = match &action.command {
                    Command::Toggle { language: _ } => true,
                    _ => false,
                };
                if is_toggle && action.binding.modifiers.len() == 0 {
                    let gesture: u64 = self.next_gesture;
                    self.pending.insert(key, PendingToggle { pressed_at: now, gesture });
                    self.unclaimed.insert(gesture);
                    self.next_gesture = gesture + 1;
                    effects.push(ListenerEffect::StartHold(gesture));
                    assert(self@ =~= begun(before, key, now));
                } else {
                    effects.push(ListenerEffect::Send(action.command.clone()));
                }
            }
            i += 1;
        }
        assert(actions@.take(i as int) =~= actions@);
        effects
    }

    /// Takes in a release of `key`.
    fn on_release(&mut self, key: u16, now: u128) -> (r: Vec<ListenerEffect>)
        requires
            old(self)@.wf(),
        ensures
            final(self)@.wf(),
            (final(self)@, r@) == released(old(self)@, key, now),
    {
        let mut effects: Vec<ListenerEffect> = Vec::new();
        self.held.remove(&key);
        if let Some(toggle) = self.pending.remove(&key) {
            let waiting: bool = self.unclaimed.remove(&toggle.gesture);
            if waiting && now.saturating_sub(toggle.pressed_at) < QUICK_MENU_HOLD_NANOS {
                effects.push(ListenerEffect::Send(Command::Toggle { language: None }));
            }
        } else {
            assert(self@.pending =~= old(self)@.pending);
        }
        assert(effects@ =~= released(old(self)@, key, now).1);
        assert(self@ =~= released(old(self)@, key, now).0);
        effects
    }

    /// Takes in that the timer of `gesture` has run out, and returns the command
    /// that this calls for.
    pub fn on_hold_elapsed(&mut self, gesture: u64) -> (r: Option<Command>)
        requires
            old(self)@.wf(),
        ensures
            final(self)@.wf(),
            (final(self)@, r) == timed_out(old(self)@, gesture),
    {
        if self.unclaimed.remove(&gesture) {
            assert(self@ =~= timed_out(old(self)@, gesture).0);
            Some(Command::QuickMenu)
        } else {
            assert(self@ =~= old(self)@);
            None
        }
    }
}

} // verus!
