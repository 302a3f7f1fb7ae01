use global_hotkey::hotkey::{Code, HotKey};
use talkdedsec_visual::system::{
    autostart_enabled, hotkey_index, run_command, set_autostart, Hotkeys, DEFAULT_HOTKEY, HOTKEYS,
    RUN_VALUE,
};

#[test]
fn hotkey_index_finds_each_offered_label() {
    for (i, label) in HOTKEYS.iter().enumerate() {
        assert_eq!(hotkey_index(label), i);
    }
    assert_eq!(hotkey_index("F6"), 0);
    assert_eq!(hotkey_index("F12"), 6);
}

#[test]
fn unknown_labels_fall_back_to_f9() {
    assert_eq!(hotkey_index("F13"), 3);
    assert_eq!(hotkey_index(""), 3);
    assert_eq!(hotkey_index("f9"), 3);
    assert_eq!(HOTKEYS[DEFAULT_HOTKEY], "F9");
}

#[test]
fn autostart_is_unavailable_without_a_run_key() {
    assert!(!autostart_enabled());
    assert!(!set_autostart(true));
    assert!(!set_autostart(false));
    assert_eq!(RUN_VALUE, "TalkdedsecVisual");
}

#[test]
fn binding_holds_the_parsed_key_and_refuses_unknown_labels() {
    let Some(mut keys) = Hotkeys::new() else {
        return;
    };
    assert_eq!(keys.id(), None);
    assert!(!keys.bind("F13"));
    assert_eq!(keys.id(), None);
    if keys.bind("F9") {
        assert_eq!(keys.id(), Some(HotKey::new(None, Code::F9).id()));
        if keys.bind("F10") {
            assert_eq!(keys.id(), Some(HotKey::new(None, Code::F10).id()));
            assert_ne!(keys.id(), Some(HotKey::new(None, Code::F9).id()));
        }
    }
    assert!(!keys.bind("nope"));
    assert_eq!(keys.id(), None);
}

#[test]
fn offered_keys_have_ids_165_to_171() {
    let codes = [Code::F6, Code::F7, Code::F8, Code::F9, Code::F10, Code::F11, Code::F12];
    for (i, code) in codes.iter().enumerate() {
        assert_eq!(HotKey::new(None, *code).id(), 165 + i as u32);
    }
    let Some(mut keys) = Hotkeys::new() else {
        return;
    };
    if keys.bind("F9") {
        assert_eq!(keys.id(), Some(168));
    }
}

#[test]
fn run_command_quotes_the_program_and_starts_in_the_tray() {
    assert_eq!(run_command("C:\\Apps\\visual.exe"), "\"C:\\Apps\\visual.exe\" --tray");
    assert_eq!(run_command(""), "\"\" --tray");
}

#[test]
fn the_answer_to_a_registration_decides_the_key_held() {
    let Some(mut keys) = Hotkeys::new() else {
        return;
    };
    let f7 = HotKey::new(None, Code::F7);
    assert!(!keys.finish_bind(1, None));
    assert_eq!(keys.id(), None);
    assert!(keys.finish_bind(1, Some(f7.id())));
    assert_eq!(keys.id(), Some(166));
}
