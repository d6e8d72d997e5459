use std::collections::HashSet;

use evdev::{EventType, Key};
use whisrs::hotkey::actions::{
    hotkey_actions, Command, HotkeyAction, HotkeyBinding, KeyboardSearch, ParsedHotkeys,
    SearchStep,
};
use whisrs::hotkey::keyboards::{is_event_node, is_hotkey_keyboard};
use whisrs::hotkey::keys::{
    modifiers_held, EV_KEY, KEY_A, KEY_LEFTALT, KEY_LEFTCTRL, KEY_LEFTMETA, KEY_LEFTSHIFT,
    KEY_RIGHTALT, KEY_RIGHTCTRL, KEY_RIGHTMETA, KEY_RIGHTSHIFT,
};
use whisrs::hotkey::listener::{
    KeyEvent, ListenerEffect, ListenerState, QUICK_MENU_HOLD_NANOS,
};

const TOGGLE: Command = Command::Toggle { language: None };

fn action(modifiers: Vec<u16>, trigger: u16, command: Command) -> HotkeyAction {
    HotkeyAction {
        binding: HotkeyBinding { modifiers, trigger },
        command,
    }
}

fn press(code: u16) -> KeyEvent {
    KeyEvent {
        kind: EV_KEY,
        code,
        value: 1,
    }
}

fn release(code: u16) -> KeyEvent {
    KeyEvent {
        kind: EV_KEY,
        code,
        value: 0,
    }
}

#[test]
fn key_codes_are_those_of_evdev() {
    assert_eq!(EV_KEY, EventType::KEY.0);
    assert_eq!(KEY_A, Key::KEY_A.code());
    assert_eq!(KEY_LEFTALT, Key::KEY_LEFTALT.code());
    assert_eq!(KEY_LEFTCTRL, Key::KEY_LEFTCTRL.code());
    assert_eq!(KEY_LEFTMETA, Key::KEY_LEFTMETA.code());
    assert_eq!(KEY_LEFTSHIFT, Key::KEY_LEFTSHIFT.code());
    assert_eq!(KEY_RIGHTALT, Key::KEY_RIGHTALT.code());
    assert_eq!(KEY_RIGHTCTRL, Key::KEY_RIGHTCTRL.code());
    assert_eq!(KEY_RIGHTMETA, Key::KEY_RIGHTMETA.code());
    assert_eq!(KEY_RIGHTSHIFT, Key::KEY_RIGHTSHIFT.code());
}

#[test]
fn modifiers_are_held_on_either_side() {
    for (left, right) in [
        (KEY_LEFTMETA, KEY_RIGHTMETA),
        (KEY_LEFTALT, KEY_RIGHTALT),
        (KEY_LEFTCTRL, KEY_RIGHTCTRL),
        (KEY_LEFTSHIFT, KEY_RIGHTSHIFT),
    ] {
        assert!(modifiers_held(&HashSet::from([left]), &[left]));
        assert!(modifiers_held(&HashSet::from([right]), &[left]));
        assert!(modifiers_held(&HashSet::from([right]), &[right]));
        assert!(modifiers_held(&HashSet::from([left]), &[right]));
        assert!(!modifiers_held(&HashSet::from([KEY_A]), &[left]));
        assert!(!modifiers_held(&HashSet::from([KEY_A]), &[right]));
    }
    let held = HashSet::from([KEY_LEFTCTRL, KEY_RIGHTSHIFT]);
    assert!(modifiers_held(&held, &[KEY_LEFTCTRL, KEY_LEFTSHIFT]));
    assert!(!modifiers_held(&held, &[KEY_LEFTCTRL, KEY_LEFTALT]));
    assert!(modifiers_held(&HashSet::new(), &[]));
    assert!(modifiers_held(&HashSet::from([KEY_A]), &[KEY_A]));
}

#[test]
fn tap_toggles_once_per_tap() {
    let actions = vec![action(vec![], KEY_RIGHTALT, TOGGLE)];
    let mut state = ListenerState::new();
    for (tap, at) in [(0, 1_000), (1, 9_000_000_000)] {
        assert_eq!(
            state.on_event(press(KEY_RIGHTALT), at, &actions),
            vec![ListenerEffect::StartHold(tap)]
        );
        assert_eq!(
            state.on_event(release(KEY_RIGHTALT), at + QUICK_MENU_HOLD_NANOS - 1, &actions),
            vec![ListenerEffect::Send(TOGGLE)]
        );
        assert_eq!(state.on_hold_elapsed(tap), None);
    }
}

#[test]
fn escape_cancels_nothing_without_a_cancel_hotkey() {
    let actions = vec![action(vec![], KEY_RIGHTALT, TOGGLE)];
    let mut state = ListenerState::new();
    let escape = Key::KEY_ESC.code();
    assert_eq!(state.on_event(press(escape), 0, &actions), vec![]);
    assert_eq!(state.on_event(release(escape), 1, &actions), vec![]);
}

#[test]
fn hold_opens_the_quick_menu_alone() {
    let actions = vec![action(vec![], KEY_RIGHTALT, TOGGLE)];
    let mut state = ListenerState::new();
    state.on_event(press(KEY_RIGHTALT), 0, &actions);
    assert_eq!(state.on_hold_elapsed(0), Some(Command::QuickMenu));
    assert_eq!(state.on_hold_elapsed(0), None);
    assert_eq!(state.on_event(release(KEY_RIGHTALT), 5, &actions), vec![]);
}

#[test]
fn late_release_sends_nothing() {
    let actions = vec![action(vec![], KEY_RIGHTALT, TOGGLE)];
    let mut state = ListenerState::new();
    state.on_event(press(KEY_RIGHTALT), 7, &actions);
    assert_eq!(
        state.on_event(release(KEY_RIGHTALT), 7 + QUICK_MENU_HOLD_NANOS, &actions),
        vec![]
    );
    assert_eq!(state.on_hold_elapsed(0), None);
}

#[test]
fn clock_that_stands_before_the_press_counts_as_tap() {
    let actions = vec![action(vec![], KEY_RIGHTALT, TOGGLE)];
    let mut state = ListenerState::new();
    state.on_event(press(KEY_RIGHTALT), 100, &actions);
    assert_eq!(
        state.on_event(release(KEY_RIGHTALT), 50, &actions),
        vec![ListenerEffect::Send(TOGGLE)]
    );
}

#[test]
fn repeats_and_other_events_are_ignored() {
    let actions = vec![
        action(vec![], KEY_RIGHTALT, TOGGLE),
        action(vec![], KEY_A, Command::Cancel),
    ];
    let mut state = ListenerState::new();
    for event in [
        KeyEvent { kind: EV_KEY, code: KEY_A, value: 2 },
        KeyEvent { kind: EV_KEY, code: KEY_A, value: -1 },
        KeyEvent { kind: 0, code: KEY_A, value: 1 },
        KeyEvent { kind: 2, code: KEY_RIGHTALT, value: 1 },
        release(KEY_RIGHTALT),
    ] {
        assert_eq!(state.on_event(event, 0, &actions), vec![]);
    }
    assert_eq!(state.gestures_left(), u64::MAX);
}

#[test]
fn combinations_fire_on_press_in_order() {
    let actions = vec![
        action(vec![KEY_LEFTCTRL], KEY_A, TOGGLE),
        action(vec![], KEY_A, Command::Speak),
        action(vec![KEY_LEFTMETA], KEY_A, Command::Cancel),
        action(vec![KEY_LEFTCTRL], KEY_A, Command::CommandMode),
    ];
    let mut state = ListenerState::new();
    assert_eq!(state.on_event(press(KEY_RIGHTCTRL), 0, &actions), vec![]);
    assert_eq!(
        state.on_event(press(KEY_A), 1, &actions),
        vec![
            ListenerEffect::Send(TOGGLE),
            ListenerEffect::Send(Command::Speak),
            ListenerEffect::Send(Command::CommandMode),
        ]
    );
    assert_eq!(state.on_event(release(KEY_A), 2, &actions), vec![]);
    assert_eq!(state.on_event(release(KEY_RIGHTCTRL), 3, &actions), vec![]);
    assert_eq!(
        state.on_event(press(KEY_A), 4, &actions),
        vec![ListenerEffect::Send(Command::Speak)]
    );
}

#[test]
fn sent_toggle_keeps_its_language() {
    let toggle = Command::Toggle {
        language: Some("de".to_string()),
    };
    let actions = vec![action(vec![KEY_LEFTALT], KEY_A, toggle)];
    let mut state = ListenerState::new();
    state.on_event(press(KEY_LEFTALT), 0, &actions);
    assert_eq!(
        state.on_event(press(KEY_A), 0, &actions),
        vec![ListenerEffect::Send(Command::Toggle {
            language: Some("de".to_string()),
        })]
    );
}

#[test]
fn other_keys_leave_a_gesture_alone() {
    let actions = vec![
        action(vec![], KEY_RIGHTALT, TOGGLE),
        action(vec![], KEY_A, TOGGLE),
    ];
    let mut state = ListenerState::new();
    state.on_event(press(KEY_RIGHTALT), 0, &actions);
    assert_eq!(
        state.on_event(press(KEY_A), 1, &actions),
        vec![ListenerEffect::StartHold(1)]
    );
    assert_eq!(
        state.on_event(release(KEY_A), 2, &actions),
        vec![ListenerEffect::Send(TOGGLE)]
    );
    assert_eq!(state.on_hold_elapsed(1), None);
    assert_eq!(state.on_hold_elapsed(0), Some(Command::QuickMenu));
}

#[test]
fn second_press_without_release_begins_another_gesture() {
    let actions = vec![action(vec![], KEY_RIGHTALT, TOGGLE)];
    let mut state = ListenerState::new();
    state.on_event(press(KEY_RIGHTALT), 0, &actions);
    assert_eq!(
        state.on_event(press(KEY_RIGHTALT), 5, &actions),
        vec![ListenerEffect::StartHold(1)]
    );
    assert_eq!(
        state.on_event(release(KEY_RIGHTALT), 6, &actions),
        vec![ListenerEffect::Send(TOGGLE)]
    );
    assert_eq!(state.on_hold_elapsed(0), Some(Command::QuickMenu));
    assert_eq!(state.on_hold_elapsed(1), None);
}

#[test]
fn unread_hotkeys_are_left_out() {
    let binding = |trigger: u16| HotkeyBinding {
        modifiers: vec![KEY_LEFTCTRL],
        trigger,
    };
    let actions = hotkey_actions(ParsedHotkeys {
        toggle: Some(Ok(binding(1))),
        cancel: Some(Err("unknown key".to_string())),
        command: None,
        speak: Some(Ok(binding(2))),
    });
    assert_eq!(
        actions,
        vec![
            action(vec![KEY_LEFTCTRL], 1, TOGGLE),
            action(vec![KEY_LEFTCTRL], 2, Command::Speak),
        ]
    );
    let all = hotkey_actions(ParsedHotkeys {
        toggle: Some(Ok(binding(1))),
        cancel: Some(Ok(binding(2))),
        command: Some(Ok(binding(3))),
        speak: Some(Ok(binding(4))),
    });
    let commands: Vec<&Command> = all.iter().map(|a| &a.command).collect();
    assert_eq!(
        commands,
        vec![&TOGGLE, &Command::Cancel, &Command::CommandMode, &Command::Speak]
    );
}

#[test]
fn keyboard_search_backs_off_and_gives_up() {
    let actions = vec![action(vec![], KEY_RIGHTALT, TOGGLE)];
    let mut search = KeyboardSearch::begin(&actions).unwrap();
    let mut delays = Vec::new();
    loop {
        let found = if delays.len() % 2 == 0 { None } else { Some(0) };
        match search.after_attempt(found) {
            SearchStep::Retry { delay_secs } => delays.push(delay_secs),
            step => {
                assert_eq!(step, SearchStep::GiveUp);
                break;
            }
        }
    }
    assert_eq!(delays, vec![1, 2, 4, 8, 10, 10, 10, 10, 10]);
}

#[test]
fn keyboard_search_ends_with_the_first_keyboard() {
    let actions = vec![action(vec![], KEY_RIGHTALT, TOGGLE)];
    let mut search = KeyboardSearch::begin(&actions).unwrap();
    assert_eq!(
        search.after_attempt(Some(0)),
        SearchStep::Retry { delay_secs: 1 }
    );
    assert_eq!(search.after_attempt(Some(3)), SearchStep::Listen);
    assert!(KeyboardSearch::begin(&vec![]).is_none());
}

#[test]
fn event_nodes_are_told_by_name() {
    assert!(is_event_node(Some("event0")));
    assert!(is_event_node(Some("event")));
    assert!(!is_event_node(Some("mouse0")));
    assert!(!is_event_node(Some("even")));
    assert!(!is_event_node(None));
}

#[test]
fn keyboards_are_told_by_their_keys() {
    let keyboard = Some(vec![1, KEY_A, KEY_LEFTMETA]);
    let alt = Some(vec![KEY_RIGHTALT]);
    assert!(is_hotkey_keyboard(Some("AT keyboard"), &keyboard));
    assert!(is_hotkey_keyboard(None, &keyboard));
    assert!(is_hotkey_keyboard(Some("composite"), &alt));
    assert!(!is_hotkey_keyboard(Some("whisrs virtual keyboard"), &keyboard));
    assert!(!is_hotkey_keyboard(Some("whisrs virtual keyboard"), &alt));
    assert!(!is_hotkey_keyboard(Some("mouse"), &Some(vec![KEY_A])));
    assert!(!is_hotkey_keyboard(Some("mouse"), &Some(vec![KEY_LEFTMETA])));
    assert!(!is_hotkey_keyboard(Some("mouse"), &Some(vec![])));
    assert!(!is_hotkey_keyboard(Some("mouse"), &None));
}

#[test]
fn gestures_are_kept_while_other_inputs_come() {
    let actions = vec![
        action(vec![], KEY_RIGHTALT, TOGGLE),
        action(vec![KEY_RIGHTALT], KEY_A, Command::Speak),
    ];
    let other_inputs = |state: &mut ListenerState| {
        assert_eq!(
            state.on_event(press(KEY_A), 1, &actions),
            vec![ListenerEffect::Send(Command::Speak)]
        );
        for event in [
            KeyEvent { kind: EV_KEY, code: KEY_RIGHTALT, value: 2 },
            KeyEvent { kind: 4, code: KEY_RIGHTALT, value: 0 },
            release(KEY_A),
        ] {
            assert_eq!(state.on_event(event, 2, &actions), vec![]);
        }
        assert_eq!(state.on_hold_elapsed(77), None);
    };

    let mut tap = ListenerState::new();
    tap.on_event(press(KEY_RIGHTALT), 0, &actions);
    other_inputs(&mut tap);
    assert_eq!(
        tap.on_event(release(KEY_RIGHTALT), 3, &actions),
        vec![ListenerEffect::Send(TOGGLE)]
    );
    assert_eq!(
        tap.on_event(press(KEY_RIGHTALT), 4, &actions),
        vec![ListenerEffect::StartHold(1)]
    );
    assert_eq!(tap.on_hold_elapsed(0), None);
    assert_eq!(
        tap.on_event(release(KEY_RIGHTALT), 5, &actions),
        vec![ListenerEffect::Send(TOGGLE)]
    );

    let mut hold = ListenerState::new();
    hold.on_event(press(KEY_RIGHTALT), 0, &actions);
    other_inputs(&mut hold);
    assert_eq!(hold.on_hold_elapsed(0), Some(Command::QuickMenu));
    other_inputs(&mut hold);
    assert_eq!(hold.on_event(release(KEY_RIGHTALT), 3, &actions), vec![]);

    let mut late = ListenerState::new();
    late.on_event(press(KEY_RIGHTALT), 0, &actions);
    other_inputs(&mut late);
    assert_eq!(
        late.on_event(release(KEY_RIGHTALT), QUICK_MENU_HOLD_NANOS, &actions),
        vec![]
    );
    assert_eq!(late.on_hold_elapsed(0), None);
}

#[test]
fn keys_are_held_until_they_are_released() {
    let actions = vec![action(vec![KEY_LEFTCTRL], KEY_A, Command::Cancel)];
    let cancels = vec![ListenerEffect::Send(Command::Cancel)];
    let mut state = ListenerState::new();
    assert_eq!(state.on_event(press(KEY_A), 0, &actions), vec![]);
    state.on_event(press(KEY_LEFTCTRL), 1, &actions);
    state.on_event(press(KEY_LEFTCTRL), 2, &actions);
    assert_eq!(state.on_event(press(KEY_A), 3, &actions), cancels);
    for event in [
        KeyEvent { kind: EV_KEY, code: KEY_LEFTCTRL, value: 2 },
        KeyEvent { kind: 4, code: KEY_LEFTCTRL, value: 0 },
        release(KEY_A),
    ] {
        assert_eq!(state.on_event(event, 4, &actions), vec![]);
    }
    state.on_hold_elapsed(0);
    assert_eq!(state.on_event(press(KEY_A), 5, &actions), cancels);
    assert_eq!(state.on_event(release(KEY_LEFTCTRL), 6, &actions), vec![]);
    assert_eq!(state.on_event(press(KEY_A), 7, &actions), vec![]);
}

#[test]
fn one_configured_toggle_starts_one_timer() {
    let alone = |trigger: u16| {
        Some(Ok(HotkeyBinding {
            modifiers: vec![],
            trigger,
        }))
    };
    let actions = hotkey_actions(ParsedHotkeys {
        toggle: alone(KEY_RIGHTALT),
        cancel: alone(KEY_RIGHTALT),
        command: alone(KEY_A),
        speak: alone(KEY_RIGHTALT),
    });
    let toggles = actions.iter().filter(|a| a.command == TOGGLE).count();
    assert_eq!(toggles, 1);
    let mut state = ListenerState::new();
    assert_eq!(
        state.on_event(press(KEY_RIGHTALT), 0, &actions),
        vec![
            ListenerEffect::StartHold(0),
            ListenerEffect::Send(Command::Cancel),
            ListenerEffect::Send(Command::Speak),
        ]
    );
    assert_eq!(state.gestures_left(), u64::MAX - 1);
}
