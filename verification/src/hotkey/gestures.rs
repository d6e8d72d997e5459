//! What holds of gestures, whatever keys are pressed and however long.
use vstd::prelude::*;

use crate::hotkey::actions::{Command, HotkeyAction};
use crate::hotkey::keys::{all_held, EV_KEY};
use crate::hotkey::listener::{
    fires, is_standalone_toggle, pressed, released, stepped, timed_out, KeyEvent, ListenerEffect,
    ListenerView, PendingToggle,
};

verus! {

/// A press of `key`.
pub open spec fn press_of(key: u16) -> KeyEvent {
    KeyEvent { kind: EV_KEY, code: key, value: 1 }
}

/// A release of `key`.
pub open spec fn release_of(key: u16) -> KeyEvent {
    KeyEvent { kind: EV_KEY, code: key, value: 0 }
}

/// Whether `key` alone is bound to a toggle.
pub open spec fn is_toggle_key(actions: Seq<HotkeyAction>, key: u16) -> bool {
    exists|i: int|
        0 <= i < actions.len() && is_standalone_toggle(#[trigger] actions[i])
            && actions[i].binding.trigger == key
}

/// What a press leaves as it was, and what it begins.
proof fn press_frame(s: ListenerView, actions: Seq<HotkeyAction>, key: u16, now: u128)
    requires
        s.next_gesture + actions.len() <= u64::MAX,
    ensures
        ({
            let t = pressed(s, actions, key, now).0;
            &&& t.held == s.held
            &&& s.next_gesture <= t.next_gesture <= s.next_gesture + actions.len()
            &&& forall|g: u64|
                g < s.next_gesture ==> (#[trigger] t.unclaimed.contains(g) == s.unclaimed.contains(
                    g,
                ))
            &&& forall|other: u16|
                other != key ==> (#[trigger] t.pending.contains_key(other)
                    == s.pending.contains_key(other))
            &&& forall|other: u16|
                other != key && s.pending.contains_key(other) ==> #[trigger] t.pending[other]
                    == s.pending[other]
            &&& is_toggle_key(actions, key) ==> {
                &&& t.pending.contains_key(key)
                &&& t.pending[key].pressed_at == now
                &&& s.next_gesture <= t.pending[key].gesture < t.next_gesture
                &&& t.unclaimed.contains(t.pending[key].gesture)
            }
        }),
    decreases actions.len(),
{
    if actions.len() > 0 {
        let earlier = actions.drop_last();
        press_frame(s, earlier, key, now);
        if is_toggle_key(actions, key) {
            let i = choose|i: int|
                0 <= i < actions.len() && is_standalone_toggle(#[trigger] actions[i])
                    && actions[i].binding.trigger == key;
            if i < earlier.len() {
                assert(earlier[i] == actions[i]);
                assert(is_toggle_key(earlier, key));
            } else {
                assert(fires(actions.last(), key, s.held));
            }
        }
    }
}

/// A gesture is claimed once: no event and no timer makes a claimed gesture
/// unclaimed again.
pub proof fn claimed_gestures_stay_claimed(
    s: ListenerView,
    event: KeyEvent,
    now: u128,
    actions: Seq<HotkeyAction>,
    timer: u64,
    gesture: u64,
)
    requires
        s.next_gesture + actions.len() <= u64::MAX,
        gesture < s.next_gesture,
        !s.unclaimed.contains(gesture),
    ensures
        gesture < stepped(s, event, now, actions).0.next_gesture,
        !stepped(s, event, now, actions).0.unclaimed.contains(gesture),
        !timed_out(s, timer).0.unclaimed.contains(gesture),
{
    let down = ListenerView { held: s.held.insert(event.code), ..s };
    press_frame(down, actions, event.code, now);
}

/// Other keys do not disturb a gesture: while they are pressed, repeated or
/// released, a toggle key that is down keeps its gesture, and the gesture stays
/// unclaimed.
pub proof fn other_keys_keep_the_gesture(
    s: ListenerView,
    event: KeyEvent,
    now: u128,
    actions: Seq<HotkeyAction>,
    key: u16,
)
    requires
        s.wf(),
        s.next_gesture + actions.len() <= u64::MAX,
        s.pending.contains_key(key),
        event.code != key,
    ensures
        ({
            let t = stepped(s, event, now, actions).0;
            &&& t.pending.contains_key(key)
            &&& t.pending[key] == s.pending[key]
            &&& t.unclaimed.contains(s.pending[key].gesture) == s.unclaimed.contains(
                s.pending[key].gesture,
            )
        }),
{
    let down = ListenerView { held: s.held.insert(event.code), ..s };
    press_frame(down, actions, event.code, now);
}

/// An event that is neither press nor release of a key changes nothing and sends
/// nothing.
pub proof fn other_events_change_nothing(
    s: ListenerView,
    event: KeyEvent,
    now: u128,
    actions: Seq<HotkeyAction>,
)
    requires
        event.kind != EV_KEY || (event.value != 0 && event.value != 1),
    ensures
        stepped(s, event, now, actions) == (s, Seq::<ListenerEffect>::empty()),
{
}

/// The commands of the actions that a press fires, in order, but for toggle keys on
/// their own.
pub open spec fn fired_commands(
    actions: Seq<HotkeyAction>,
    key: u16,
    held: Set<u16>,
) -> Seq<Command>
    decreases actions.len(),
{
    if actions.len() == 0 {
        Seq::empty()
    } else {
        let before = fired_commands(actions.drop_last(), key, held);
        if fires(actions.last(), key, held) && !is_standalone_toggle(actions.last()) {
            before.push(actions.last().command)
        } else {
            before
        }
    }
}

/// The commands that are sent, in order.
pub open spec fn sent_commands(effects: Seq<ListenerEffect>) -> Seq<Command>
    decreases effects.len(),
{
    if effects.len() == 0 {
        Seq::empty()
    } else {
        let before = sent_commands(effects.drop_last());
        match effects.last() {
            ListenerEffect::Send(command) => before.push(command),
            ListenerEffect::StartHold(_) => before,
        }
    }
}

/// The gestures whose timers are started, in order.
pub open spec fn started_holds(effects: Seq<ListenerEffect>) -> Seq<u64>
    decreases effects.len(),
{
    if effects.len() == 0 {
        Seq::empty()
    } else {
        let before = started_holds(effects.drop_last());
        match effects.last() {
            ListenerEffect::Send(_) => before,
            ListenerEffect::StartHold(gesture) => before.push(gesture),
        }
    }
}

/// A press sends, in the order of the actions, the command of every action that it
/// fires with the key itself among those held; a toggle key on its own waits for its
/// release or its timer.
pub proof fn press_sends_fired_commands_in_order(
    s: ListenerView,
    actions: Seq<HotkeyAction>,
    key: u16,
    now: u128,
)
    ensures
        sent_commands(stepped(s, press_of(key), now, actions).1) == fired_commands(
            actions,
            key,
            s.held.insert(key),
        ),
{
    sent_commands_are_fired(
        ListenerView { held: s.held.insert(key), ..s },
        actions,
        key,
        now,
    );
}

proof fn sent_commands_are_fired(
    s: ListenerView,
    actions: Seq<HotkeyAction>,
    key: u16,
    now: u128,
)
    ensures
        sent_commands(pressed(s, actions, key, now).1) == fired_commands(actions, key, s.held),
    decreases actions.len(),
{
    if actions.len() > 0 {
        let earlier = actions.drop_last();
        sent_commands_are_fired(s, earlier, key, now);
        let before = pressed(s, earlier, key, now).1;
        let after = pressed(s, actions, key, now).1;
        if after.len() > before.len() {
            assert(after.drop_last() =~= before);
        }
    }
}

/// The release of a key that no gesture waits for sends nothing and claims nothing.
pub proof fn release_without_gesture_sends_nothing(s: ListenerView, key: u16, now: u128)
    requires
        !s.pending.contains_key(key),
    ensures
        released(s, key, now).1 == Seq::<ListenerEffect>::empty(),
        released(s, key, now).0.unclaimed == s.unclaimed,
{
}

/// What a listener takes in: an event with its time, or the end of a timer.
pub enum Input {
    Event(KeyEvent, u128),
    Timer(u64),
}

/// The state after one input.
pub open spec fn taken_in(
    s: ListenerView,
    input: Input,
    actions: Seq<HotkeyAction>,
) -> ListenerView {
    match input {
        Input::Event(event, now) => stepped(s, event, now, actions).0,
        Input::Timer(gesture) => timed_out(s, gesture).0,
    }
}

/// The state after all of `inputs`.
pub open spec fn run(
    s: ListenerView,
    inputs: Seq<Input>,
    actions: Seq<HotkeyAction>,
) -> ListenerView
    decreases inputs.len(),
{
    if inputs.len() == 0 {
        s
    } else {
        taken_in(run(s, inputs.drop_last(), actions), inputs.last(), actions)
    }
}

/// Whether an input sends a command for `gesture`: the quick menu at the end of
/// its timer, or a toggle when its key is released.
pub open spec fn sends_for(s: ListenerView, input: Input, gesture: u64) -> bool {
    match input {
        Input::Event(event, now) => {
            &&& event.kind == EV_KEY
            &&& event.value == 0
            &&& s.pending.contains_key(event.code)
            &&& s.pending[event.code].gesture == gesture
            &&& released(s, event.code, now).1.len() > 0
        },
        Input::Timer(timer) => timer == gesture && timed_out(s, timer).1 is Some,
    }
}

/// Whether an input presses `key`.
pub open spec fn presses(input: Input, key: u16) -> bool {
    input matches Input::Event(event, _) && event.kind == EV_KEY && event.code == key
        && event.value == 1
}

/// Whether an input releases `key`.
pub open spec fn releases(input: Input, key: u16) -> bool {
    input matches Input::Event(event, _) && event.kind == EV_KEY && event.code == key
        && event.value == 0
}

/// Whether `key` is pressed among `inputs`.
pub open spec fn pressed_in(inputs: Seq<Input>, key: u16) -> bool {
    exists|i: int| 0 <= i < inputs.len() && presses(#[trigger] inputs[i], key)
}

/// Whether `key` is released among `inputs`.
pub open spec fn released_in(inputs: Seq<Input>, key: u16) -> bool {
    exists|i: int| 0 <= i < inputs.len() && releases(#[trigger] inputs[i], key)
}

/// Whether the timer of `gesture` runs out among `inputs`.
pub open spec fn timed_out_in(inputs: Seq<Input>, gesture: u64) -> bool {
    exists|i: int| 0 <= i < inputs.len() && #[trigger] inputs[i] == Input::Timer(gesture)
}

/// Whether `key` is down after `inputs`: pressed and not since released.
pub open spec fn is_down_after(down: bool, inputs: Seq<Input>, key: u16) -> bool
    decreases inputs.len(),
{
    if inputs.len() == 0 {
        down
    } else if presses(inputs.last(), key) {
        true
    } else if releases(inputs.last(), key) {
        false
    } else {
        is_down_after(down, inputs.drop_last(), key)
    }
}

/// The keys that count as held are those that were pressed and not since released.
pub proof fn held_keys_are_those_down(
    s: ListenerView,
    inputs: Seq<Input>,
    actions: Seq<HotkeyAction>,
    key: u16,
)
    ensures
        run(s, inputs, actions).held.contains(key) == is_down_after(
            s.held.contains(key),
            inputs,
            key,
        ),
    decreases inputs.len(),
{
    if inputs.len() > 0 {
        held_keys_are_those_down(s, inputs.drop_last(), actions, key);
        let t = run(s, inputs.drop_last(), actions);
        if let Input::Event(event, now) = inputs.last() {
            press_keeps_held(
                ListenerView { held: t.held.insert(event.code), ..t },
                actions,
                event.code,
                now,
            );
        }
    }
}

proof fn press_keeps_held(s: ListenerView, actions: Seq<HotkeyAction>, key: u16, now: u128)
    ensures
        pressed(s, actions, key, now).0.held == s.held,
    decreases actions.len(),
{
    if actions.len() > 0 {
        press_keeps_held(s, actions.drop_last(), key, now);
    }
}

/// Taking in an input keeps a state well-formed.
pub proof fn inputs_keep_wf(s: ListenerView, input: Input, actions: Seq<HotkeyAction>)
    requires
        s.wf(),
        s.next_gesture + actions.len() <= u64::MAX,
    ensures
        taken_in(s, input, actions).wf(),
        s.next_gesture <= taken_in(s, input, actions).next_gesture <= s.next_gesture
            + actions.len(),
{
    if let Input::Event(event, now) = input {
        let down = ListenerView { held: s.held.insert(event.code), ..s };
        assert(down.wf());
        press_keeps_wf(down, actions, event.code, now);
    }
}

proof fn press_keeps_wf(s: ListenerView, actions: Seq<HotkeyAction>, key: u16, now: u128)
    requires
        s.wf(),
        s.next_gesture + actions.len() <= u64::MAX,
    ensures
        pressed(s, actions, key, now).0.wf(),
        s.next_gesture <= pressed(s, actions, key, now).0.next_gesture <= s.next_gesture
            + actions.len(),
    decreases actions.len(),
{
    if actions.len() > 0 {
        press_keeps_wf(s, actions.drop_last(), key, now);
    }
}

/// A run keeps a state well-formed, and claimed gestures claimed.
proof fn run_keeps_claims(
    s: ListenerView,
    inputs: Seq<Input>,
    actions: Seq<HotkeyAction>,
    gesture: u64,
)
    requires
        s.wf(),
        s.next_gesture + inputs.len() * actions.len() <= u64::MAX,
    ensures
        run(s, inputs, actions).wf(),
        s.next_gesture <= run(s, inputs, actions).next_gesture <= s.next_gesture + inputs.len()
            * actions.len(),
        gesture < s.next_gesture && !s.unclaimed.contains(gesture) ==> !run(
            s,
            inputs,
            actions,
        ).unclaimed.contains(gesture),
    decreases inputs.len(),
{
    if inputs.len() > 0 {
        let n = inputs.len();
        let k = actions.len();
        assert((n - 1) * k + k == n * k) by (nonlinear_arith);
        run_keeps_claims(s, inputs.drop_last(), actions, gesture);
        let t = run(s, inputs.drop_last(), actions);
        inputs_keep_wf(t, inputs.last(), actions);
        if gesture < s.next_gesture && !s.unclaimed.contains(gesture) {
            match inputs.last() {
                Input::Event(event, now) => claimed_gestures_stay_claimed(
                    t,
                    event,
                    now,
                    actions,
                    0,
                    gesture,
                ),
                Input::Timer(_) => {},
            }
        }
    }
}

/// A gesture sends one command at most: of all inputs that a keyboard takes in, no
/// two send a command for the same gesture.
pub proof fn gesture_sends_one_command(
    s: ListenerView,
    inputs: Seq<Input>,
    actions: Seq<HotkeyAction>,
    gesture: u64,
    i: int,
    j: int,
)
    requires
        s.wf(),
        s.next_gesture + inputs.len() * actions.len() <= u64::MAX,
        0 <= i < j < inputs.len(),
        sends_for(run(s, inputs.take(i), actions), inputs[i], gesture),
    ensures
        !sends_for(run(s, inputs.take(j), actions), inputs[j], gesture),
{
    let k = actions.len();
    let n = inputs.len();
    assert(i * k <= n * k && (i + 1) * k <= n * k && (i + 1) * k + (j - i - 1) * k <= n * k)
        by (nonlinear_arith)
        requires
            0 <= i < j < n,
            k >= 0,
    ;
    run_keeps_claims(s, inputs.take(i), actions, gesture);
    run_keeps_claims(s, inputs.take(i + 1), actions, gesture);
    let before = run(s, inputs.take(i), actions);
    let after = run(s, inputs.take(i + 1), actions);
    assert(inputs.take(i + 1).drop_last() =~= inputs.take(i));
    assert(after == taken_in(before, inputs[i], actions));
    assert(before.unclaimed.contains(gesture));
    assert(!after.unclaimed.contains(gesture));
    let between = inputs.subrange(i + 1, j);
    run_keeps_claims(after, between, actions, gesture);
    run_is_compositional(s, inputs.take(i + 1), between, actions);
    assert(inputs.take(i + 1) + between =~= inputs.take(j));
}

/// A run goes on where another ends.
proof fn run_is_compositional(
    s: ListenerView,
    first: Seq<Input>,
    second: Seq<Input>,
    actions: Seq<HotkeyAction>,
)
    ensures
        run(s, first + second, actions) == run(run(s, first, actions), second, actions),
    decreases second.len(),
{
    if second.len() == 0 {
        assert(first + second =~= first);
    } else {
        run_is_compositional(s, first, second.drop_last(), actions);
        assert((first + second).drop_last() =~= first + second.drop_last());
    }
}

/// The state once `inputs` have come behind a press of `key` at `down`.
pub open spec fn since_press(
    s: ListenerView,
    actions: Seq<HotkeyAction>,
    key: u16,
    down: u128,
    inputs: Seq<Input>,
) -> ListenerView {
    run(stepped(s, press_of(key), down, actions).0, inputs, actions)
}

/// The gesture that a press of the toggle key `key` begins.
pub open spec fn gesture_of(
    s: ListenerView,
    actions: Seq<HotkeyAction>,
    key: u16,
    down: u128,
) -> u64 {
    stepped(s, press_of(key), down, actions).0.pending[key].gesture
}

/// Whether the gestures of a press and of `inputs` behind it can be numbered.
pub open spec fn can_number(s: ListenerView, actions: Seq<HotkeyAction>, inputs: nat) -> bool {
    s.next_gesture + (inputs + 1) * actions.len() <= u64::MAX
}

/// A toggle key that is down keeps its gesture until it is pressed or released
/// again; the gesture is unclaimed until its timer runs out.
proof fn run_keeps_gesture(
    s: ListenerView,
    inputs: Seq<Input>,
    actions: Seq<HotkeyAction>,
    key: u16,
)
    requires
        s.wf(),
        s.next_gesture + inputs.len() * actions.len() <= u64::MAX,
        s.pending.contains_key(key),
        s.unclaimed.contains(s.pending[key].gesture),
        !pressed_in(inputs, key),
        !released_in(inputs, key),
    ensures
        ({
            let t = run(s, inputs, actions);
            let gesture = s.pending[key].gesture;
            &&& t.wf()
            &&& t.pending.contains_key(key)
            &&& t.pending[key] == s.pending[key]
            &&& t.unclaimed.contains(gesture) == !timed_out_in(inputs, gesture)
        }),
    decreases inputs.len(),
{
    let gesture = s.pending[key].gesture;
    run_keeps_claims(s, inputs, actions, gesture);
    if inputs.len() > 0 {
        let earlier = inputs.drop_last();
        let last = inputs.last();
        let n = inputs.len();
        let k = actions.len();
        assert((n - 1) * k + k == n * k) by (nonlinear_arith);
        assert forall|i: int| 0 <= i < earlier.len() implies !presses(#[trigger] earlier[i], key)
            && !releases(earlier[i], key) by {
            assert(earlier[i] == inputs[i]);
        }
        run_keeps_gesture(s, earlier, actions, key);
        run_keeps_claims(s, earlier, actions, gesture);
        let t = run(s, earlier, actions);
        assert(inputs[n - 1] == last);
        assert(!presses(last, key) && !releases(last, key));
        if timed_out_in(earlier, gesture) {
            let i = choose|i: int|
                0 <= i < earlier.len() && #[trigger] earlier[i] == Input::Timer(gesture);
            assert(inputs[i] == Input::Timer(gesture));
        }
        if timed_out_in(inputs, gesture) && last != Input::Timer(gesture) {
            let i = choose|i: int|
                0 <= i < inputs.len() && #[trigger] inputs[i] == Input::Timer(gesture);
            assert(earlier[i] == Input::Timer(gesture));
        }
        if let Input::Event(event, now) = last {
            if event.code != key {
                other_keys_keep_the_gesture(t, event, now, actions, key);
            } else {
                assert(stepped(t, event, now, actions).0 == t);
            }
        }
    }
}

/// What a press of a toggle key begins.
proof fn press_begins_gesture(
    s: ListenerView,
    actions: Seq<HotkeyAction>,
    key: u16,
    down: u128,
)
    requires
        s.wf(),
        s.next_gesture + actions.len() <= u64::MAX,
        is_toggle_key(actions, key),
    ensures
        ({
            let t = stepped(s, press_of(key), down, actions).0;
            &&& t.wf()
            &&& t.next_gesture <= s.next_gesture + actions.len()
            &&& t.pending.contains_key(key)
            &&& t.pending[key].pressed_at == down
            &&& t.pending[key].gesture < t.next_gesture
            &&& t.unclaimed.contains(t.pending[key].gesture)
        }),
{
    press_frame(ListenerView { held: s.held.insert(key), ..s }, actions, key, down);
    inputs_keep_wf(s, Input::Event(press_of(key), down), actions);
}

/// The first release behind a press of a toggle key sends a toggle, and nothing else,
/// where it comes less than two seconds later and before the timer of the gesture was
/// heard; else it sends nothing. This holds whatever else came between.
pub proof fn release_toggles_if_quick_and_first(
    s: ListenerView,
    actions: Seq<HotkeyAction>,
    key: u16,
    down: u128,
    between: Seq<Input>,
    up: u128,
)
    requires
        s.wf(),
        can_number(s, actions, between.len()),
        is_toggle_key(actions, key),
        !pressed_in(between, key),
        !released_in(between, key),
    ensures
        ({
            let gesture = gesture_of(s, actions, key, down);
            let t = since_press(s, actions, key, down, between);
            let is_tap = up - down < 2_000_000_000 && !timed_out_in(between, gesture);
            stepped(t, release_of(key), up, actions).1 == if is_tap {
                seq![ListenerEffect::Send(Command::Toggle { language: None })]
            } else {
                Seq::empty()
            }
        }),
{
    let n = between.len();
    let k = actions.len();
    assert((n + 1) * k == n * k + k && n * k >= 0) by (nonlinear_arith);
    press_begins_gesture(s, actions, key, down);
    run_keeps_gesture(stepped(s, press_of(key), down, actions).0, between, actions, key);
}

/// The timer of a gesture opens the quick menu where its key has been down ever
/// since the press and the timer was not heard before; else it sends nothing. This
/// holds whatever else came between, as long as the key is not pressed again; that a
/// press behind the release changes nothing is part of
/// [`tap_toggles_and_opens_no_menu`] and [`late_release_sends_nothing`].
pub proof fn timer_opens_menu_if_still_down(
    s: ListenerView,
    actions: Seq<HotkeyAction>,
    key: u16,
    down: u128,
    between: Seq<Input>,
)
    requires
        s.wf(),
        can_number(s, actions, between.len()),
        is_toggle_key(actions, key),
        !pressed_in(between, key),
    ensures
        ({
            let gesture = gesture_of(s, actions, key, down);
            let t = since_press(s, actions, key, down, between);
            let command = timed_out(t, gesture).1;
            &&& command == if released_in(between, key) || timed_out_in(between, gesture) {
                None::<Command>
            } else {
                Some(Command::QuickMenu)
            }
            &&& command is Some ==> t.held.contains(key)
        }),
{
    let n = between.len();
    let k = actions.len();
    assert((n + 1) * k == n * k + k && n * k >= 0) by (nonlinear_arith);
    press_begins_gesture(s, actions, key, down);
    let start = stepped(s, press_of(key), down, actions).0;
    if released_in(between, key) {
        release_claims(start, between, actions, key);
    } else {
        run_keeps_gesture(start, between, actions, key);
        press_keeps_held(ListenerView { held: s.held.insert(key), ..s }, actions, key, down);
        held_keys_are_those_down(start, between, actions, key);
        stays_down(between, key);
    }
}

/// A key that is neither pressed nor released stays as it is.
proof fn stays_down(inputs: Seq<Input>, key: u16)
    requires
        !pressed_in(inputs, key),
        !released_in(inputs, key),
    ensures
        is_down_after(true, inputs, key),
    decreases inputs.len(),
{
    if inputs.len() > 0 {
        let earlier = inputs.drop_last();
        assert forall|i: int| 0 <= i < earlier.len() implies !presses(#[trigger] earlier[i], key)
            && !releases(earlier[i], key) by {
            assert(earlier[i] == inputs[i]);
        }
        assert(inputs[inputs.len() - 1] == inputs.last());
        stays_down(earlier, key);
    }
}

/// A release of a toggle key among inputs leaves its gesture claimed.
proof fn release_claims(
    s: ListenerView,
    inputs: Seq<Input>,
    actions: Seq<HotkeyAction>,
    key: u16,
)
    requires
        s.wf(),
        s.next_gesture + inputs.len() * actions.len() <= u64::MAX,
        s.pending.contains_key(key),
        s.unclaimed.contains(s.pending[key].gesture),
        !pressed_in(inputs, key),
        released_in(inputs, key),
    ensures
        !run(s, inputs, actions).unclaimed.contains(s.pending[key].gesture),
    decreases inputs.len(),
{
    let gesture = s.pending[key].gesture;
    let earlier = inputs.drop_last();
    let last = inputs.last();
    let n = inputs.len();
    let k = actions.len();
    assert((n - 1) * k + k == n * k) by (nonlinear_arith);
    assert forall|i: int| 0 <= i < earlier.len() implies !presses(#[trigger] earlier[i], key) by {
        assert(earlier[i] == inputs[i]);
    }
    run_keeps_claims(s, earlier, actions, gesture);
    let t = run(s, earlier, actions);
    if released_in(earlier, key) {
        release_claims(s, earlier, actions, key);
        if let Input::Event(event, now) = last {
            claimed_gestures_stay_claimed(t, event, now, actions, 0, gesture);
        }
    } else {
        let i = choose|i: int| 0 <= i < inputs.len() && releases(#[trigger] inputs[i], key);
        if i < earlier.len() {
            assert(releases(earlier[i], key));
        }
        assert(releases(last, key));
        run_keeps_gesture(s, earlier, actions, key);
    }
}

/// A tap of the toggle key sends one toggle, on release, and leaves the quick menu
/// closed when the timer of the gesture runs out. Between press and release
/// anything may come but a press or release of the key and that timer; between
/// release and timer anything at all, other taps of the key among it.
pub proof fn tap_toggles_and_opens_no_menu(
    s: ListenerView,
    actions: Seq<HotkeyAction>,
    key: u16,
    down: u128,
    between: Seq<Input>,
    up: u128,
    later: Seq<Input>,
)
    requires
        s.wf(),
        can_number(s, actions, between.len() + 1 + later.len()),
        is_toggle_key(actions, key),
        !pressed_in(between, key),
        !released_in(between, key),
        !timed_out_in(between, gesture_of(s, actions, key, down)),
        up - down < 2_000_000_000,
    ensures
        ({
            let (after, effects) = stepped(
                since_press(s, actions, key, down, between),
                release_of(key),
                up,
                actions,
            );
            &&& effects == seq![ListenerEffect::Send(Command::Toggle { language: None })]
            &&& timed_out(run(after, later, actions), gesture_of(s, actions, key, down)).1 is None
        }),
{
    released_gesture_opens_no_menu(s, actions, key, down, between, up, later);
}

/// A toggle key that is released after the hold, before the timer was heard, sends
/// nothing, and the timer then sends nothing either. What may come between is the
/// same as for a tap.
pub proof fn late_release_sends_nothing(
    s: ListenerView,
    actions: Seq<HotkeyAction>,
    key: u16,
    down: u128,
    between: Seq<Input>,
    up: u128,
    later: Seq<Input>,
)
    requires
        s.wf(),
        can_number(s, actions, between.len() + 1 + later.len()),
        is_toggle_key(actions, key),
        !pressed_in(between, key),
        !released_in(between, key),
        !timed_out_in(between, gesture_of(s, actions, key, down)),
        up - down >= 2_000_000_000,
    ensures
        ({
            let (after, effects) = stepped(
                since_press(s, actions, key, down, between),
                release_of(key),
                up,
                actions,
            );
            &&& effects == Seq::<ListenerEffect>::empty()
            &&& timed_out(run(after, later, actions), gesture_of(s, actions, key, down)).1 is None
        }),
{
    released_gesture_opens_no_menu(s, actions, key, down, between, up, later);
}

/// Once its key was released, the timer of a gesture sends nothing.
proof fn released_gesture_opens_no_menu(
    s: ListenerView,
    actions: Seq<HotkeyAction>,
    key: u16,
    down: u128,
    between: Seq<Input>,
    up: u128,
    later: Seq<Input>,
)
    requires
        s.wf(),
        can_number(s, actions, between.len() + 1 + later.len()),
        is_toggle_key(actions, key),
        !pressed_in(between, key),
        !released_in(between, key),
    ensures
        ({
            let (after, effects) = stepped(
                since_press(s, actions, key, down, between),
                release_of(key),
                up,
                actions,
            );
            &&& effects == if up - down < 2_000_000_000 && !timed_out_in(
                between,
                gesture_of(s, actions, key, down),
            ) {
                seq![ListenerEffect::Send(Command::Toggle { language: None })]
            } else {
                Seq::empty()
            }
            &&& timed_out(run(after, later, actions), gesture_of(s, actions, key, down)).1 is None
        }),
{
    let n = between.len();
    let m = later.len();
    let k = actions.len();
    assert((n + 1 + m + 1) * k == k + n * k + k + m * k && (n + 1) * k == n * k + k && n * k >= 0
        && m * k >= 0) by (nonlinear_arith);
    release_toggles_if_quick_and_first(s, actions, key, down, between, up);
    press_begins_gesture(s, actions, key, down);
    let start = stepped(s, press_of(key), down, actions).0;
    let gesture = start.pending[key].gesture;
    run_keeps_gesture(start, between, actions, key);
    run_keeps_claims(start, between, actions, gesture);
    let before = run(start, between, actions);
    inputs_keep_wf(before, Input::Event(release_of(key), up), actions);
    let after = stepped(before, release_of(key), up, actions).0;
    run_keeps_claims(after, later, actions, gesture);
}

/// A toggle key that is held until the timer of its gesture runs out opens the
/// quick menu, and sends no toggle when it is released. Between press and timer, and
/// between timer and release, anything may come but a press or release of the key.
pub proof fn hold_opens_menu_and_does_not_toggle(
    s: ListenerView,
    actions: Seq<HotkeyAction>,
    key: u16,
    down: u128,
    between: Seq<Input>,
    later: Seq<Input>,
    up: u128,
)
    requires
        s.wf(),
        can_number(s, actions, between.len() + 1 + later.len()),
        is_toggle_key(actions, key),
        !pressed_in(between, key),
        !released_in(between, key),
        !timed_out_in(between, gesture_of(s, actions, key, down)),
        !pressed_in(later, key),
        !released_in(later, key),
    ensures
        ({
            let (open, command) = timed_out(
                since_press(s, actions, key, down, between),
                gesture_of(s, actions, key, down),
            );
            &&& command == Some(Command::QuickMenu)
            &&& stepped(run(open, later, actions), release_of(key), up, actions).1 == Seq::<
                ListenerEffect,
            >::empty()
        }),
{
    let n = between.len();
    let m = later.len();
    let k = actions.len();
    assert((n + 1) * k <= (n + 1 + m + 1) * k) by (nonlinear_arith);
    timer_opens_menu_if_still_down(s, actions, key, down, between);
    let timer = Input::Timer(gesture_of(s, actions, key, down));
    let first = between.push(timer);
    let all = first + later;
    assert(first.drop_last() =~= between);
    let start = stepped(s, press_of(key), down, actions).0;
    run_is_compositional(start, first, later, actions);
    assert forall|i: int| 0 <= i < all.len() implies !presses(#[trigger] all[i], key) && !releases(
        all[i],
        key,
    ) by {
        if i < between.len() {
            assert(all[i] == between[i]);
        } else if i > between.len() {
            assert(all[i] == later[i - between.len() - 1]);
        }
    }
    assert(all[between.len() as int] == timer);
    release_toggles_if_quick_and_first(s, actions, key, down, all, up);
}

/// Where one action alone is a toggle without modifiers, and its key is `key`, a press
/// of the key begins one gesture, which no press began before, and starts its timer.
pub proof fn one_toggle_begins_one_gesture(
    s: ListenerView,
    actions: Seq<HotkeyAction>,
    key: u16,
    down: u128,
    toggle: int,
)
    requires
        s.next_gesture + actions.len() <= u64::MAX,
        0 <= toggle < actions.len(),
        is_standalone_toggle(actions[toggle]),
        actions[toggle].binding.trigger == key,
        forall|i: int|
            0 <= i < actions.len() && i != toggle ==> !is_standalone_toggle(#[trigger] actions[i]),
    ensures
        stepped(s, press_of(key), down, actions).0.next_gesture == s.next_gesture + 1,
        gesture_of(s, actions, key, down) == s.next_gesture,
        started_holds(stepped(s, press_of(key), down, actions).1) == seq![s.next_gesture],
{
    one_toggle_counts_once(
        ListenerView { held: s.held.insert(key), ..s },
        actions,
        key,
        down,
        toggle,
    );
}

proof fn one_toggle_counts_once(
    s: ListenerView,
    actions: Seq<HotkeyAction>,
    key: u16,
    down: u128,
    toggle: int,
)
    requires
        s.next_gesture + actions.len() <= u64::MAX,
        toggle < actions.len() ==> {
            &&& 0 <= toggle
            &&& is_standalone_toggle(actions[toggle])
            &&& actions[toggle].binding.trigger == key
        },
        forall|i: int|
            0 <= i < actions.len() && i != toggle ==> !is_standalone_toggle(#[trigger] actions[i]),
    ensures
        ({
            let (t, effects) = pressed(s, actions, key, down);
            if toggle < actions.len() {
                &&& t.next_gesture == s.next_gesture + 1
                &&& t.pending.contains_key(key)
                &&& t.pending[key].gesture == s.next_gesture
                &&& started_holds(effects) == seq![s.next_gesture]
            } else {
                &&& t.next_gesture == s.next_gesture
                &&& started_holds(effects) == Seq::<u64>::empty()
            }
        }),
    decreases actions.len(),
{
    if actions.len() > 0 {
        let earlier = actions.drop_last();
        assert forall|i: int| 0 <= i < earlier.len() && i != toggle implies !is_standalone_toggle(
            #[trigger] earlier[i],
        ) by {
            assert(earlier[i] == actions[i]);
        }
        one_toggle_counts_once(s, earlier, key, down, toggle);
        let before = pressed(s, earlier, key, down).1;
        let after = pressed(s, actions, key, down).1;
        if after.len() > before.len() {
            assert(after.drop_last() =~= before);
        }
        if toggle == actions.len() - 1 {
            assert(fires(actions.last(), key, s.held));
        } else {
            assert(!is_standalone_toggle(actions[actions.len() - 1]));
        }
    }
}

/// What a press does for one action. It calls for the action where the key is that of its
/// binding and all of its modifiers are held; it then sends the command, except that a
/// toggle without modifiers begins a gesture, whose timer it starts. Where it does not
/// call for the action, only the key is held from then on.
pub proof fn action_fires_by_its_binding(
    s: ListenerView,
    action: HotkeyAction,
    key: u16,
    now: u128,
)
    requires
        s.next_gesture < u64::MAX,
    ensures
        ({
            let (t, effects) = stepped(s, press_of(key), now, seq![action]);
            let is_bound = action.binding.trigger == key && all_held(
                s.held.insert(key),
                action.binding.modifiers@,
            );
            let is_gesture = action.command is Toggle && action.binding.modifiers@.len() == 0;
            &&& t.held == s.held.insert(key)
            &&& is_bound && !is_gesture ==> effects == seq![ListenerEffect::Send(action.command)]
            &&& is_bound && is_gesture ==> {
                &&& effects == seq![ListenerEffect::StartHold(s.next_gesture)]
                &&& t.next_gesture == s.next_gesture + 1
                &&& t.pending == s.pending.insert(
                    key,
                    PendingToggle { pressed_at: now, gesture: s.next_gesture },
                )
                &&& t.unclaimed == s.unclaimed.insert(s.next_gesture)
            }
            &&& !is_bound ==> effects == Seq::<ListenerEffect>::empty()
            &&& !(is_bound && is_gesture) ==> {
                &&& t.next_gesture == s.next_gesture
                &&& t.pending == s.pending
                &&& t.unclaimed == s.unclaimed
            }
        }),
{
    reveal_with_fuel(pressed, 2);
    assert(seq![action].drop_last() =~= Seq::<HotkeyAction>::empty());
    let effects = stepped(s, press_of(key), now, seq![action]).1;
    assert(effects.len() == 1 ==> effects =~= seq![effects[0]]);
}

/// Actions are gone through one after another, and none keeps another from firing: a
/// press does for two lists of them what it does for the first and then for the second.
pub proof fn actions_are_gone_through_in_turn(
    s: ListenerView,
    first: Seq<HotkeyAction>,
    second: Seq<HotkeyAction>,
    key: u16,
    now: u128,
)
    ensures
        ({
            let (t, start) = stepped(s, press_of(key), now, first);
            let (u, rest) = stepped(t, press_of(key), now, second);
            stepped(s, press_of(key), now, first + second) == (u, start + rest)
        }),
{
    let down = ListenerView { held: s.held.insert(key), ..s };
    let t = pressed(down, first, key, now).0;
    press_keeps_held(down, first, key, now);
    assert(t.held.insert(key) =~= t.held);
    assert(ListenerView { held: t.held.insert(key), ..t } =~= t);
    press_goes_on(down, first, second, key, now);
}

proof fn press_goes_on(
    s: ListenerView,
    first: Seq<HotkeyAction>,
    second: Seq<HotkeyAction>,
    key: u16,
    now: u128,
)
    ensures
        ({
            let (t, start) = pressed(s, first, key, now);
            let (u, rest) = pressed(t, second, key, now);
            pressed(s, first + second, key, now) == (u, start + rest)
        }),
    decreases second.len(),
{
    let (t, start) = pressed(s, first, key, now);
    press_keeps_held(s, first, key, now);
    if second.len() == 0 {
        assert(first + second =~= first);
        assert(start + pressed(t, second, key, now).1 =~= start);
    } else {
        press_goes_on(s, first, second.drop_last(), key, now);
        assert((first + second).drop_last() =~= first + second.drop_last());
        assert(pressed(s, first + second, key, now).1 =~= start + pressed(t, second, key, now).1);
    }
}

/// A release lifts the key that it names and no other, and ends the gesture of that key
/// alone: the toggle keys that are down besides it stay down with their gestures, which
/// stay as they are.
pub proof fn release_ends_one_gesture(s: ListenerView, key: u16, now: u128, other: u16)
    requires
        s.wf(),
        other != key,
        s.pending.contains_key(other),
    ensures
        ({
            let t = stepped(s, release_of(key), now, Seq::empty()).0;
            &&& t.held == s.held.remove(key)
            &&& !t.pending.contains_key(key)
            &&& s.pending.contains_key(key) ==> !t.unclaimed.contains(s.pending[key].gesture)
            &&& t.pending.contains_key(other)
            &&& t.pending[other] == s.pending[other]
            &&& t.unclaimed.contains(s.pending[other].gesture) == s.unclaimed.contains(
                s.pending[other].gesture,
            )
            &&& t.next_gesture == s.next_gesture
        }),
{
}

/// The end of a timer opens the quick menu where neither release nor timer has claimed
/// its gesture, once; it touches no key and no other gesture.
pub proof fn timer_claims_its_gesture_alone(s: ListenerView, gesture: u64, other: u64)
    requires
        other != gesture,
    ensures
        ({
            let (t, command) = timed_out(s, gesture);
            &&& command == if s.unclaimed.contains(gesture) {
                Some(Command::QuickMenu)
            } else {
                None
            }
            &&& timed_out(t, gesture).1 is None
            &&& t.unclaimed.contains(other) == s.unclaimed.contains(other)
            &&& t.held == s.held && t.pending == s.pending && t.next_gesture == s.next_gesture
        }),
{
}

} // verus!
