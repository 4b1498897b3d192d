use xenwooting::hid;
use xenwooting::hid::HidNames;
use xenwooting::mask::ActiveMask;
use xenwooting::poll::{
    DeviceKeys, KeyReading, PollContext, PollEvent, Poller, Thresholds,
};
use xenwooting::table::KeySet;

const MS: u64 = 1_000_000;

fn context(now_ms: u64) -> PollContext {
    PollContext {
        th: Thresholds { down: 100, up: 95, deep: 120, touch: 1, rapid: true },
        now_ns: now_ms * MS,
        capturing: true,
        skip: ActiveMask::new(),
    }
}

fn reading(code: u8, level: u32) -> KeyReading {
    KeyReading { code: code as u16, level, fell: false }
}

fn names_of(events: &Vec<PollEvent>) -> Vec<String> {
    events
        .iter()
        .map(|e| match e {
            PollEvent::Down { hid, level } => format!("down {} {}", hid, level),
            PollEvent::Update { hid, level } => format!("update {} {}", hid, level),
            PollEvent::Up { hid, level } => format!("up {} {}", hid, level),
            PollEvent::Suppressed { hid, level } => format!("suppressed {} {}", hid, level),
            PollEvent::Fell { hid, peak, level } => format!("fell {} {} {}", hid, peak, level),
            PollEvent::Vanished { hid, missing_ns } => format!("vanished {} {}", hid, missing_ns),
        })
        .collect()
}

struct Rig {
    names: HidNames,
    keys: DeviceKeys,
    mask: ActiveMask,
}

impl Rig {
    fn new() -> Rig {
        let mut r = Rig { names: HidNames::load(), keys: DeviceKeys::new(), mask: ActiveMask::new() };
        assert!(r.poll(0, vec![]).is_empty());
        r
    }

    fn poll(&mut self, now_ms: u64, data: Vec<KeyReading>) -> Vec<String> {
        names_of(&self.keys.poll(&self.names, &context(now_ms), &data, &mut self.mask))
    }
}

#[test]
fn presses_moves_and_releases() {
    let mut r = Rig::new();
    assert!(r.poll(1, vec![reading(hid::A, 100)]).is_empty());
    assert_eq!(r.poll(2, vec![reading(hid::A, 101)]), vec!["down 4 101"]);
    assert_eq!(r.mask.codes(), vec![hid::A]);
    assert_eq!(r.poll(3, vec![reading(hid::A, 97)]), vec!["update 4 97"]);
    assert_eq!(r.poll(4, vec![reading(hid::A, 95)]), vec!["up 4 95"]);
    assert!(r.mask.codes().is_empty());
    assert!(r.poll(5, vec![reading(hid::A, 95)]).is_empty());
}

#[test]
fn keys_without_names_are_left_out() {
    let mut r = Rig::new();
    let far = KeyReading { code: 300, level: 500, fell: false };
    assert!(r.poll(1, vec![reading(0, 500), far]).is_empty());
}

#[test]
fn movement_releases_deep_presses() {
    let mut r = Rig::new();
    r.poll(1, vec![reading(hid::A, 110)]);
    let fell = |level| KeyReading { code: hid::A as u16, level, fell: true };
    assert_eq!(r.poll(2, vec![fell(110)]), vec!["update 4 110"]);
    assert_eq!(r.poll(3, vec![reading(hid::A, 150)]), vec!["update 4 150"]);
    assert_eq!(r.poll(4, vec![fell(130)]), vec!["fell 4 150 130", "up 4 130"]);
    assert_eq!(r.poll(5, vec![reading(hid::A, 130)]), vec!["down 4 130"]);
}

#[test]
fn keys_held_from_the_start_stay_silent() {
    let names = HidNames::load();
    let mut keys = DeviceKeys::new();
    let mut mask = ActiveMask::new();
    let data = vec![reading(hid::A, 200)];
    let events = keys.poll(&names, &context(1), &data, &mut mask);
    assert_eq!(names_of(&events), vec!["suppressed 4 200"]);
    assert!(keys.poll(&names, &context(2), &data, &mut mask).is_empty());
    assert!(keys.poll(&names, &context(3), &vec![reading(hid::A, 0)], &mut mask).is_empty());
    let events = keys.poll(&names, &context(4), &data, &mut mask);
    assert_eq!(names_of(&events), vec!["down 4 200"]);
}

#[test]
fn vanished_keys_are_released_after_a_while() {
    let mut r = Rig::new();
    r.poll(10, vec![reading(hid::A, 200)]);
    assert!(r.poll(59, vec![]).is_empty());
    assert_eq!(r.poll(60, vec![]), vec!["vanished 4 50000000"]);
    assert!(r.mask.codes().is_empty());
    assert!(r.poll(200, vec![]).is_empty());
}

#[test]
fn skipped_keys_are_not_sampled() {
    let mut r = Rig::new();
    let mut cx = context(1);
    cx.skip.set(hid::A, true);
    r.keys.poll(&r.names, &cx, &vec![reading(hid::A, 200), reading(hid::B, 200)], &mut r.mask);
    assert_eq!(r.mask.codes(), vec![hid::B]);
}

#[test]
fn failed_polls_let_go_after_a_while() {
    let mut r = Rig::new();
    r.poll(10, vec![reading(hid::B, 200), reading(hid::A, 200)]);
    assert!(r.keys.poll_failed(20 * MS, 20 * MS).is_none());
    assert!(r.keys.poll_failed(100 * MS, 269 * MS).is_none());
    assert_eq!(r.keys.poll_failed(270 * MS, 271 * MS), Some(vec![hid::A, hid::B]));
    assert_eq!(r.keys.err_since, Some(270 * MS));
    assert!(r.keys.poll_failed(271 * MS, 272 * MS).is_none());
    assert_eq!(r.poll(300, vec![reading(hid::A, 200)]), vec!["down 4 200"]);
    assert!(r.keys.err_since.is_none());
}

#[test]
fn peaks_grow_with_the_level() {
    let mut r = Rig::new();
    r.poll(1, vec![reading(hid::A, 150)]);
    assert_eq!(r.keys.keys[hid::A as usize].peak_after(140), 150);
    assert_eq!(r.keys.keys[hid::A as usize].peak_after(160), 160);
    assert_eq!(r.keys.keys[hid::B as usize].peak_after(5), 5);
}

#[test]
fn keyboards_come_and_go() {
    let mut configured: KeySet<u64> = KeySet::new();
    for id in [5u64, 3, 9] {
        configured.insert(id);
    }
    let mut p = Poller::new();
    p.refresh(&vec![9, 4, 3], &configured);
    assert_eq!(p.ids, vec![3, 9]);
    let names = HidNames::load();
    let mut mask = ActiveMask::new();
    p.devices.entries[0].1.poll(&names, &context(1), &vec![], &mut mask);
    assert_eq!(p.devices.entries[0].0, 3);
    p.refresh(&vec![5, 3], &configured);
    assert_eq!(p.ids, vec![3, 5]);
    assert!(p.devices.get(3).unwrap().seen);
    assert!(!p.devices.get(5).unwrap().seen);
    assert!(p.devices.get(9).is_none());
}
