use talkdedsec_visual::profiles::{Profile, Store};

/// Stand-in for the display settings: only the gamma value matters here.
fn sample(gamma: f32) -> f32 {
    gamma
}

fn fresh_store() -> Store<f32> {
    Store::new(sample(1.0))
}

fn exported(store: &Store<f32>) -> Vec<Profile<f32>> {
    store
        .profiles
        .iter()
        .map(|p| Profile { name: p.name.clone(), settings: p.settings })
        .collect()
}

#[test]
fn saving_the_same_name_overwrites() {
    let mut store = fresh_store();
    store.upsert("day", sample(1.2));
    store.upsert("day", sample(2.1));
    assert_eq!(store.profiles.len(), 1);
    assert!((store.profiles[0].settings - 2.1).abs() < 1e-6);
}

#[test]
fn blank_names_are_rejected_and_whitespace_trimmed() {
    let mut store = fresh_store();
    assert!(!store.upsert("   ", sample(1.0)));
    assert!(store.profiles.is_empty());
    assert!(store.upsert("  dusk  ", sample(1.0)));
    assert_eq!(store.profiles[0].name, "dusk");
}

#[test]
fn remove_is_bounds_checked() {
    let mut store = fresh_store();
    store.upsert("a", sample(1.0));
    assert!(!store.remove(9));
    assert!(store.remove(0));
    assert!(store.profiles.is_empty());
}

#[test]
fn export_then_import_restores_every_profile() {
    let mut store = fresh_store();
    store.upsert("a", sample(0.7));
    store.upsert("b", sample(2.0));
    let file = exported(&store);
    assert_eq!(file.len(), 2);

    let mut fresh = fresh_store();
    assert_eq!(fresh.merge(&file), 2);
    assert_eq!(fresh.profiles.len(), 2);
    assert_eq!(fresh.profiles[1].name, "b");
}

#[test]
fn import_merges_by_name_instead_of_duplicating() {
    let mut source = fresh_store();
    source.upsert("shared", sample(2.1));
    let file = exported(&source);

    let mut store = fresh_store();
    store.upsert("shared", sample(1.0));
    store.upsert("mine", sample(1.0));
    store.merge(&file);

    assert_eq!(store.profiles.len(), 2);
    let shared = store.profiles.iter().find(|p| p.name == "shared").unwrap();
    assert!((shared.settings - 2.1).abs() < 1e-6);
}

#[test]
fn new_store_has_the_documented_defaults() {
    let store = fresh_store();
    assert!(store.profiles.is_empty());
    assert!(store.auto_apply);
    assert_eq!(store.hotkey, "F9");
    assert!(store.tray_on_close);
    assert_eq!(store.last, 1.0);
}

#[test]
fn upsert_appends_new_names_in_order() {
    let mut store = fresh_store();
    assert!(store.upsert("one", sample(1.0)));
    assert!(store.upsert("two", sample(2.0)));
    assert!(store.upsert("one", sample(3.0)));
    assert_eq!(store.names(), vec!["one".to_string(), "two".to_string()]);
    assert_eq!(store.profiles[0].settings, 3.0);
    assert_eq!(store.profiles[1].settings, 2.0);
}

#[test]
fn upsert_trims_tabs_and_newlines_and_keeps_inner_spaces() {
    let mut store = fresh_store();
    assert!(store.upsert("\t late night \n", sample(1.0)));
    assert_eq!(store.profiles[0].name, "late night");
    assert!(!store.upsert("\n\t \u{A0}", sample(1.0)));
    assert_eq!(store.profiles.len(), 1);
}

#[test]
fn import_skips_blank_names_and_counts_the_rest() {
    let incoming = vec![
        Profile { name: "  ".to_string(), settings: 1.0f32 },
        Profile { name: " x ".to_string(), settings: 2.0 },
        Profile { name: "x".to_string(), settings: 3.0 },
        Profile { name: "".to_string(), settings: 4.0 },
        Profile { name: "y".to_string(), settings: 5.0 },
    ];
    let mut store = fresh_store();
    assert_eq!(store.merge(&incoming), 3);
    assert_eq!(store.names(), vec!["x".to_string(), "y".to_string()]);
    assert_eq!(store.profiles[0].settings, 3.0);
    assert_eq!(store.profiles[1].settings, 5.0);
}

#[test]
fn remove_keeps_the_order_of_the_rest() {
    let mut store = fresh_store();
    store.upsert("a", sample(1.0));
    store.upsert("b", sample(2.0));
    store.upsert("c", sample(3.0));
    assert!(store.remove(1));
    assert_eq!(store.names(), vec!["a".to_string(), "c".to_string()]);
    assert!(!store.remove(2));
    assert_eq!(store.profiles.len(), 2);
}

#[test]
fn edits_leave_the_other_fields_alone() {
    let mut store = fresh_store();
    store.hotkey = "F11".to_string();
    store.tray_on_close = false;
    store.auto_apply = false;
    store.upsert("night", sample(0.6));
    store.remove(0);
    store.merge(&vec![Profile { name: "z".to_string(), settings: 0.5 }]);
    assert_eq!(store.hotkey, "F11");
    assert!(!store.tray_on_close);
    assert!(!store.auto_apply);
    assert_eq!(store.last, 1.0);
}
