use kunai::KeyboardIdentity;
use kunai::config::{
    configured_identities, dedup_bindings, Config, KeyboardConfig, LayoutBinding,
};
use kunai::daemon::{DaemonState, DebounceController, SwitchDecision};
use kunai::input::{is_event_kbd_entry, is_keyboard_name, select_keyboards, HotPlugHandler, Keyboard};
use kunai::niri::{parse_current_index, parse_layout_names, switch_steps, NiriError};
use kunai::text::{chars_of, contains_chars_exec, ends_with_chars_exec, format_hex_u16, parse_hex_u16};

fn id(vendor_id: u16, product_id: u16) -> KeyboardIdentity {
    KeyboardIdentity { vendor_id, product_id }
}

fn kb(name: &str, path: &str, vendor_id: u16, product_id: u16) -> Keyboard {
    Keyboard {
        name: String::from(name),
        device_path: String::from(path),
        vendor_id,
        product_id,
    }
}

fn binding(vendor_id: u16, product_id: u16, name: &str, layout_index: u32) -> LayoutBinding {
    LayoutBinding {
        identity: id(vendor_id, product_id),
        display_name: String::from(name),
        layout_index,
    }
}

fn monitored_ids(state: &DaemonState) -> Vec<KeyboardIdentity> {
    state.monitors.iter().map(|m| m.identity).collect()
}

#[test]
fn chars_of_lists_characters() {
    assert_eq!(chars_of("abc"), vec!['a', 'b', 'c']);
    assert_eq!(chars_of(""), Vec::<char>::new());
}

#[test]
fn substring_search() {
    let hay = chars_of("Logitech USB Keyboard");
    assert!(contains_chars_exec(&hay, &chars_of("Keyboard")));
    assert!(contains_chars_exec(&hay, &chars_of("")));
    assert!(!contains_chars_exec(&hay, &chars_of("Receiver")));
    assert!(!contains_chars_exec(&chars_of("ab"), &chars_of("abc")));
}

#[test]
fn suffix_check() {
    assert!(ends_with_chars_exec(
        &chars_of("usb-Logitech-event-kbd"),
        &chars_of("-event-kbd")
    ));
    assert!(!ends_with_chars_exec(
        &chars_of("usb-Logitech-event-mouse"),
        &chars_of("-event-kbd")
    ));
}

#[test]
fn hex_parsing_accepts_both_cases() {
    assert_eq!(parse_hex_u16("04d9"), Some(0x04d9));
    assert_eq!(parse_hex_u16("ABCD"), Some(0xabcd));
    assert_eq!(parse_hex_u16("0"), Some(0));
    assert_eq!(parse_hex_u16("ffff"), Some(0xffff));
    assert_eq!(parse_hex_u16("00ffff"), Some(0xffff));
}

#[test]
fn hex_parsing_rejects_bad_input() {
    assert_eq!(parse_hex_u16(""), None);
    assert_eq!(parse_hex_u16("xyz"), None);
    assert_eq!(parse_hex_u16("04d "), None);
    assert_eq!(parse_hex_u16("10000"), None);
    assert_eq!(parse_hex_u16("+4d9"), None);
}

#[test]
fn hex_formatting_round_trips() {
    assert_eq!(format_hex_u16(0x04d9), vec!['0', '4', 'd', '9']);
    assert_eq!(format_hex_u16(0), vec!['0', '0', '0', '0']);
    assert_eq!(format_hex_u16(0xffff), vec!['f', 'f', 'f', 'f']);
    for v in [0u16, 1, 0x04d9, 0xa052, 0xffff] {
        let s: String = format_hex_u16(v).into_iter().collect();
        assert_eq!(parse_hex_u16(&s), Some(v));
    }
}

#[test]
fn name_heuristic() {
    assert!(is_keyboard_name("Logitech USB Keyboard"));
    assert!(!is_keyboard_name("Logitech USB Receiver"));
    assert!(!is_keyboard_name("Wireless Keyboard Receiver"));
    assert!(!is_keyboard_name("Gaming Mouse"));
    assert!(!is_keyboard_name("keyboard"));
}

#[test]
fn event_kbd_entry_filter() {
    assert!(is_event_kbd_entry("usb-04d9_USB_Keyboard-event-kbd"));
    assert!(is_event_kbd_entry("-event-kbd"));
    assert!(!is_event_kbd_entry("usb-04d9_USB_Keyboard-event-mouse"));
    assert!(!is_event_kbd_entry("event-kbd-extra"));
}

#[test]
fn selection_filters_and_keeps_keyboards() {
    let out = select_keyboards(vec![
        kb("A Keyboard", "/dev/input/event1", 1, 1),
        kb("USB Receiver", "/dev/input/event2", 2, 2),
        kb("B Keyboard", "/dev/input/event3", 3, 3),
    ]);
    let mut names: Vec<String> = out.iter().map(|k| k.name.clone()).collect();
    names.sort();
    assert_eq!(names, vec![String::from("A Keyboard"), String::from("B Keyboard")]);
}

#[test]
fn duplicate_names_collapse_to_one() {
    let out = select_keyboards(vec![
        kb("Twin Keyboard", "/dev/input/event1", 1, 1),
        kb("Twin Keyboard", "/dev/input/event2", 2, 2),
    ]);
    assert_eq!(out.len(), 1);
    // the later entry wins, as map insertion order dictates
    assert_eq!(out[0].vendor_id, 2);
    assert_eq!(out[0].device_path, "/dev/input/event2");
}

#[test]
fn bindings_parse_and_skip_invalid_records() {
    let config = Config {
        keyboards: vec![
            KeyboardConfig {
                name: String::from("A Keyboard"),
                vendor_id: String::from("04d9"),
                product_id: String::from("a052"),
                layout_index: 1,
            },
            KeyboardConfig {
                name: String::from("Broken"),
                vendor_id: String::from("zzzz"),
                product_id: String::from("0001"),
                layout_index: 2,
            },
        ],
    };
    let bs = config.bindings();
    assert_eq!(bs.len(), 1);
    assert_eq!(bs[0].identity, id(0x04d9, 0xa052));
    assert_eq!(bs[0].display_name, "A Keyboard");
    assert_eq!(bs[0].layout_index, 1);
}

#[test]
fn configured_identities_deduplicate() {
    let bs = vec![
        binding(1, 1, "A", 0),
        binding(2, 2, "B", 1),
        binding(1, 1, "A again", 2),
    ];
    let ids = configured_identities(&bs);
    assert_eq!(ids.len(), 2);
    assert!(ids.contains(&id(1, 1)));
    assert!(ids.contains(&id(2, 2)));
}

#[test]
fn dedup_bindings_last_write_wins() {
    let out = dedup_bindings(vec![
        binding(1, 1, "A", 0),
        binding(2, 2, "B", 1),
        binding(1, 1, "A remapped", 3),
    ]);
    assert_eq!(out.len(), 2);
    let a = out.iter().find(|b| b.identity == id(1, 1)).unwrap();
    assert_eq!(a.layout_index, 3);
    assert_eq!(a.display_name, "A remapped");
}

#[test]
fn hotplug_filter_signals_configured_devices_only() {
    let handler = HotPlugHandler { configured_devices: vec![id(0x1, 0x1), id(0x2, 0x2)] };
    assert!(handler.should_signal(0x1, 0x1));
    assert!(handler.should_signal(0x2, 0x2));
    assert!(!handler.should_signal(0x3, 0x3));
    assert!(!handler.should_signal(0x1, 0x2));
}

#[test]
fn reconcile_starts_and_stops_monitors() {
    // bindings {A: layout 0, B: layout 1}; enumeration sees A and B
    let bindings = dedup_bindings(vec![binding(0x1, 0x1, "A", 0), binding(0x2, 0x2, "B", 1)]);
    let mut state = DaemonState::from_bindings(bindings);

    let plan = state.reconcile(&vec![
        kb("A", "/dev/input/event1", 0x1, 0x1),
        kb("B", "/dev/input/event2", 0x2, 0x2),
    ]);
    assert_eq!(state.monitors.len(), 2);
    assert_eq!(plan.to_start.len(), 2);
    assert_eq!(plan.to_stop.len(), 0);
    let b_start = plan.to_start.iter().find(|s| s.identity == id(0x2, 0x2)).unwrap();
    assert_eq!(b_start.layout_index, 1);
    assert_eq!(b_start.device_path, "/dev/input/event2");

    // B is unplugged: its monitor goes, A's stays untouched
    let plan2 = state.reconcile(&vec![kb("A", "/dev/input/event1", 0x1, 0x1)]);
    assert_eq!(state.monitors.len(), 1);
    assert_eq!(monitored_ids(&state), vec![id(0x1, 0x1)]);
    assert_eq!(plan2.to_start.len(), 0);
    assert_eq!(plan2.to_stop.len(), 1);
    assert_eq!(plan2.to_stop[0].identity, id(0x2, 0x2));
}

#[test]
fn reconcile_ignores_unbound_devices() {
    let bindings = dedup_bindings(vec![binding(0x1, 0x1, "A", 0)]);
    let mut state = DaemonState::from_bindings(bindings);
    let plan = state.reconcile(&vec![
        kb("A", "/dev/input/event1", 0x1, 0x1),
        kb("Stranger", "/dev/input/event9", 0x9, 0x9),
    ]);
    assert_eq!(state.monitors.len(), 1);
    assert_eq!(plan.to_start.len(), 1);
    assert_eq!(plan.to_start[0].identity, id(0x1, 0x1));
}

#[test]
fn reconcile_is_idempotent() {
    let bindings = dedup_bindings(vec![binding(0x1, 0x1, "A", 0), binding(0x2, 0x2, "B", 1)]);
    let mut state = DaemonState::from_bindings(bindings);
    let present = vec![
        kb("A", "/dev/input/event1", 0x1, 0x1),
        kb("B", "/dev/input/event2", 0x2, 0x2),
    ];
    state.reconcile(&present);
    let mut ids_before = monitored_ids(&state);
    ids_before.sort_by_key(|i| i.vendor_id);
    let count_before = state.monitors.len();

    let plan = state.reconcile(&present);
    assert_eq!(state.monitors.len(), count_before);
    let mut ids_after = monitored_ids(&state);
    ids_after.sort_by_key(|i| i.vendor_id);
    assert_eq!(ids_after, ids_before);
    assert_eq!(plan.to_start.len(), 0);
    assert_eq!(plan.to_stop.len(), 0);
}

#[test]
fn reconcile_tracks_each_enumeration_in_turn() {
    let bindings = dedup_bindings(vec![binding(0x1, 0x1, "A", 0), binding(0x2, 0x2, "B", 1)]);
    let mut state = DaemonState::from_bindings(bindings);
    let a = || kb("A", "/dev/input/event1", 0x1, 0x1);
    let b = || kb("B", "/dev/input/event2", 0x2, 0x2);

    state.reconcile(&vec![a()]);
    assert_eq!(monitored_ids(&state), vec![id(0x1, 0x1)]);

    state.reconcile(&vec![a(), b()]);
    let mut ids2 = monitored_ids(&state);
    ids2.sort_by_key(|i| i.vendor_id);
    assert_eq!(ids2, vec![id(0x1, 0x1), id(0x2, 0x2)]);

    state.reconcile(&vec![b()]);
    assert_eq!(monitored_ids(&state), vec![id(0x2, 0x2)]);

    state.reconcile(&vec![]);
    assert_eq!(state.monitors.len(), 0);
}

#[test]
fn failed_start_is_forgotten_and_retried() {
    let bindings = dedup_bindings(vec![binding(0x1, 0x1, "A", 0)]);
    let mut state = DaemonState::from_bindings(bindings);
    let present = vec![kb("A", "/dev/input/event1", 0x1, 0x1)];
    let plan = state.reconcile(&present);
    assert_eq!(plan.to_start.len(), 1);

    // opening the device failed: the registry forgets the monitor
    let removed = state.monitor_start_failed(id(0x1, 0x1));
    assert!(removed.is_some());
    assert_eq!(state.monitors.len(), 0);

    // the next pass retries the same device
    let plan2 = state.reconcile(&present);
    assert_eq!(plan2.to_start.len(), 1);
    assert_eq!(plan2.to_start[0].identity, id(0x1, 0x1));
}

#[test]
fn debounce_same_identity_switches_once() {
    let mut c = DebounceController::new(false, 0);
    let ev = kunai::daemon::ActivationEvent { identity: id(1, 1), target_layout_index: 2 };

    let d1 = c.on_activation(&ev, 200);
    assert!(matches!(d1, SwitchDecision::Switch { target: 2 }));
    c.record_switch(id(1, 1), 200);

    // a second press from the same keyboard right after: suppressed
    let d2 = c.on_activation(&ev, 250);
    assert!(matches!(d2, SwitchDecision::Suppressed));
    // and still suppressed long after, until another keyboard switches
    let d3 = c.on_activation(&ev, 5000);
    assert!(matches!(d3, SwitchDecision::Suppressed));
}

#[test]
fn debounce_distinct_identities_within_window() {
    let mut c = DebounceController::new(false, 0);
    let ev_a = kunai::daemon::ActivationEvent { identity: id(1, 1), target_layout_index: 0 };
    let ev_b = kunai::daemon::ActivationEvent { identity: id(2, 2), target_layout_index: 1 };

    let d1 = c.on_activation(&ev_a, 200);
    assert!(matches!(d1, SwitchDecision::Switch { target: 0 }));
    c.record_switch(id(1, 1), 200);

    // a different keyboard 1ms later still falls inside the time window
    let d2 = c.on_activation(&ev_b, 201);
    assert!(matches!(d2, SwitchDecision::Suppressed));

    // past the window the other keyboard switches
    let d3 = c.on_activation(&ev_b, 301);
    assert!(matches!(d3, SwitchDecision::Switch { target: 1 }));
}

#[test]
fn debounce_window_applies_from_process_start() {
    let mut c = DebounceController::new(false, 1000);
    let ev = kunai::daemon::ActivationEvent { identity: id(1, 1), target_layout_index: 0 };
    assert!(matches!(c.on_activation(&ev, 1050), SwitchDecision::Suppressed));
    assert!(matches!(c.on_activation(&ev, 1101), SwitchDecision::Switch { .. }));
}

#[test]
fn debounce_failed_switch_leaves_state_for_retry() {
    let mut c = DebounceController::new(false, 0);
    let ev = kunai::daemon::ActivationEvent { identity: id(1, 1), target_layout_index: 0 };
    let d1 = c.on_activation(&ev, 200);
    assert!(matches!(d1, SwitchDecision::Switch { .. }));
    // the switch failed: record_switch is not called, so the same device
    // may try again on its next press
    let d2 = c.on_activation(&ev, 400);
    assert!(matches!(d2, SwitchDecision::Switch { .. }));
}

#[test]
fn dry_run_never_issues_a_switch_but_updates_state() {
    let mut c = DebounceController::new(true, 0);
    let ev_a = kunai::daemon::ActivationEvent { identity: id(1, 1), target_layout_index: 2 };
    let ev_b = kunai::daemon::ActivationEvent { identity: id(2, 2), target_layout_index: 3 };

    let d1 = c.on_activation(&ev_a, 200);
    assert!(matches!(d1, SwitchDecision::DryRunSwitch { target: 2 }));

    // debounce state advanced as if it had switched: same identity and
    // close-together events are suppressed exactly as in live mode
    assert!(matches!(c.on_activation(&ev_a, 250), SwitchDecision::Suppressed));
    assert!(matches!(c.on_activation(&ev_b, 250), SwitchDecision::Suppressed));
    let d4 = c.on_activation(&ev_b, 400);
    assert!(matches!(d4, SwitchDecision::DryRunSwitch { target: 3 }));
}

#[test]
fn cyclic_distance_examples() {
    // four layouts, currently on 3, want 1: two forward steps
    assert_eq!(switch_steps(3, 4, 1), 2);
    // already there: no command
    assert_eq!(switch_steps(2, 4, 2), 0);
    assert_eq!(switch_steps(0, 2, 1), 1);
    assert_eq!(switch_steps(1, 2, 0), 1);
    assert_eq!(switch_steps(0, 1, 0), 0);
}

#[test]
fn layout_names_decode_from_reply() {
    let bytes = br#"{"names":["English (US)","German"],"current_idx":1}"#.to_vec();
    let names = parse_layout_names(&bytes).unwrap();
    assert_eq!(names, vec![String::from("English (US)"), String::from("German")]);
    assert_eq!(parse_current_index(&bytes), Ok(1));
}

#[test]
fn layout_names_skip_non_string_elements() {
    let bytes = br#"{"names":["us",7,"de"]}"#.to_vec();
    let names = parse_layout_names(&bytes).unwrap();
    assert_eq!(names, vec![String::from("us"), String::from("de")]);
}

#[test]
fn invalid_json_is_reported() {
    let bytes = b"niri is not running".to_vec();
    assert_eq!(parse_layout_names(&bytes), Err(NiriError::InvalidJson));
    assert_eq!(parse_current_index(&bytes), Err(NiriError::InvalidJson));
}

#[test]
fn missing_names_is_malformed() {
    let no_names = br#"{"current_idx":0}"#.to_vec();
    assert_eq!(parse_layout_names(&no_names), Err(NiriError::MalformedReply));
    let not_array = br#"{"names":"us"}"#.to_vec();
    assert_eq!(parse_layout_names(&not_array), Err(NiriError::MalformedReply));
}

#[test]
fn current_index_defaults_to_zero() {
    assert_eq!(parse_current_index(&br#"{"names":[]}"#.to_vec()), Ok(0));
    assert_eq!(parse_current_index(&br#"{"current_idx":"x"}"#.to_vec()), Ok(0));
    assert_eq!(parse_current_index(&br#"{"current_idx":-3}"#.to_vec()), Ok(0));
}
