use talkdedsec_visual::color::{identity, Ramp};
use talkdedsec_visual::engine::{
    adapter_name, sys, toggle, Applied, ApplyStep, Display, Engine, EngineError, Toggle, BACKOFF,
    STEPS,
};

fn flat() -> Ramp {
    identity()
}

fn ramp_of(v: u16) -> Ramp {
    [v; 768]
}

fn two_displays() -> Engine {
    let probes = vec![
        (Display::Desktop, Some(ramp_of(1))),
        (Display::Adapter(vec![65, 0]), None),
        (Display::Adapter(vec![66, 0]), Some(ramp_of(2))),
    ];
    match Engine::from_probes(probes) {
        Ok(engine) => engine,
        Err(_) => panic!("two displays were readable"),
    }
}

fn candidates() -> Vec<Ramp> {
    (0..STEPS).map(|k| ramp_of(100 + k as u16)).collect()
}

#[test]
fn probing_keeps_only_readable_displays_in_order() {
    let engine = two_displays();
    assert_eq!(engine.displays(), 2);
    let t = engine.targets();
    assert!(matches!(t[0].0, Display::Desktop));
    assert!(matches!(&t[1].0, Display::Adapter(name) if name == &vec![66, 0]));
    assert_eq!(t[0].1, ramp_of(1));
    assert_eq!(t[1].1, ramp_of(2));
}

#[test]
fn probing_with_nothing_readable_is_an_error() {
    let r = Engine::from_probes(vec![(Display::Desktop, None)]);
    assert!(matches!(r, Err(EngineError::NoDisplay)));
    assert!(matches!(Engine::from_probes(Vec::new()), Err(EngineError::NoDisplay)));
}

#[test]
fn without_a_ramp_api_there_is_no_engine() {
    assert!(sys::displays().is_empty());
    assert!(sys::get(&Display::Desktop).is_none());
    assert!(!sys::set(&Display::Desktop, &flat()));
    match Engine::new() {
        Err(e) => assert_eq!(e.message(), "no display accepted a gamma ramp"),
        Ok(_) => panic!("no display can be read here"),
    }
}

#[test]
fn a_push_counts_when_any_display_takes_it() {
    let mut engine = two_displays();
    assert!(!engine.record_push(ramp_of(7), &vec![false, false]));
    assert_eq!(engine.offer(0, &ramp_of(7)), None);
    assert!(engine.record_push(ramp_of(7), &vec![false, true]));
    assert_eq!(engine.offer(0, &ramp_of(7)), Some(Applied::Full));
    assert_eq!(engine.offer(2, &ramp_of(7)), Some(Applied::Limited(70)));
}

#[test]
fn reset_falls_back_to_linear_only_when_nothing_was_restored() {
    let mut engine = two_displays();
    engine.record_push(ramp_of(9), &vec![true, true]);
    assert_eq!(engine.finish_reset(&vec![false, true]), None);
    assert_eq!(engine.offer(0, &ramp_of(9)), None);
    engine.record_push(ramp_of(9), &vec![true, false]);
    assert_eq!(engine.finish_reset(&vec![false, false]), Some(flat()));
    assert_eq!(engine.offer(0, &ramp_of(9)), None);
}

#[test]
fn the_ladder_walks_down_until_a_rung_is_taken() {
    assert_eq!(BACKOFF, [100, 85, 70, 55, 40, 25, 12]);
    assert_eq!(Engine::begin_apply(true), ApplyStep::Restore);
    assert_eq!(Engine::begin_apply(false), ApplyStep::Offer(0));
    let mut engine = two_displays();
    let c = candidates();
    assert_eq!(engine.after_write(0, c[0], &vec![false, false]), ApplyStep::Offer(1));
    assert_eq!(engine.after_write(1, c[1], &vec![false, false]), ApplyStep::Offer(2));
    assert_eq!(engine.after_write(2, c[2], &vec![true, false]), ApplyStep::Done(Applied::Limited(70)));
    assert_eq!(engine.offer(2, &c[2]), Some(Applied::Limited(70)));
    assert_eq!(engine.after_write(6, c[6], &vec![false, false]), ApplyStep::Done(Applied::Rejected));
    assert_eq!(engine.after_write(0, c[0], &vec![true, true]), ApplyStep::Done(Applied::Full));
}

#[test]
fn outcomes_follow_the_backoff_ladder() {
    assert_eq!(Engine::outcome(0), Applied::Full);
    assert_eq!(Engine::outcome(1), Applied::Limited(85));
    assert_eq!(Engine::outcome(6), Applied::Limited(12));
}

#[test]
fn apply_on_this_backend_stops_only_at_a_ramp_already_showing() {
    let mut engine = two_displays();
    let c = candidates();
    assert_eq!(engine.apply(false, &c), Applied::Rejected);
    engine.record_push(c[3], &vec![true, true]);
    assert_eq!(engine.apply(false, &c), Applied::Limited(55));
    assert_eq!(engine.apply(true, &c), Applied::Rejected);
    assert_eq!(engine.offer(3, &c[3]), None);
    assert_eq!(engine.apply(false, &c), Applied::Rejected);
}

#[test]
fn reset_on_this_backend_forgets_the_applied_ramp() {
    let mut engine = two_displays();
    engine.record_push(ramp_of(5), &vec![true, true]);
    engine.reset();
    assert_eq!(engine.offer(0, &ramp_of(5)), None);
    assert_eq!(engine.displays(), 2);
}

#[test]
fn restoring_reports_full_only_when_some_display_took_a_ramp() {
    assert_eq!(Engine::restore_outcome(&vec![false, true], &vec![]), Applied::Full);
    assert_eq!(Engine::restore_outcome(&vec![false, false], &vec![false, true]), Applied::Full);
    assert_eq!(Engine::restore_outcome(&vec![false, false], &vec![false, false]), Applied::Rejected);
    assert_eq!(Engine::restore_outcome(&vec![], &vec![]), Applied::Rejected);
}

#[test]
fn adapter_names_are_cut_at_the_first_nul() {
    let mut raw = [0u16; 32];
    for (i, c) in "\\\\.\\DISPLAY1".encode_utf16().enumerate() {
        raw[i] = c;
    }
    raw[20] = 77;
    let name = adapter_name(&raw);
    let expected: Vec<u16> = "\\\\.\\DISPLAY1".encode_utf16().chain(std::iter::once(0)).collect();
    assert_eq!(name, expected);
    assert_eq!(adapter_name(&[65, 66]), vec![65, 66, 0]);
    assert_eq!(adapter_name(&[]), vec![0]);
    assert_eq!(adapter_name(&[0, 65]), vec![0]);
}

#[test]
fn an_engine_drives_at_least_one_display() {
    let engine = two_displays();
    assert!(engine.displays() >= 1);
}

#[test]
fn toggling_flips_the_switch_and_says_what_follows() {
    assert_eq!(toggle(false), (true, Toggle::Apply));
    assert_eq!(toggle(true), (false, Toggle::Reset));
}
