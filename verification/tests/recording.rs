use std::collections::VecDeque;
use xenwooting::capture::{
    capture_files, capture_is_over, capture_mask, capture_write_sample, captured_samples,
    edge_row_of, key_label_of, sent_row_of, start_capture, take_capture, CaptureEventsState,
    CaptureSamplesState, Sample, CAPTURE_MAX_BYTES,
};
use xenwooting::csv::{csv_escape, csv_line};
use xenwooting::dump::{dbg_push, event_row_of, manual_dump_files, DebugEvent};
use xenwooting::gate::EdgeKind;
use xenwooting::hid;
use xenwooting::hid::HidNames;
use xenwooting::mask::ActiveMask;

fn small_ring(records: usize) -> CaptureSamplesState {
    CaptureSamplesState {
        base_ts_ms: 1000,
        trigger_device_id: 7,
        start_ns: 5_000_000,
        end_ns: 35_000_000,
        start_unix_ms: 1000,
        cfg_line: "CFG x".to_string(),
        ring: vec![0u8; records * 20],
        write_idx: 0,
        wrapped: false,
        dropped_samples: 3,
    }
}

fn sample(t: u64) -> Sample {
    Sample { t_us: t, device_id: 0x0102030405060708, hid: hid::A, analog_q: 0xBEEF }
}

#[test]
fn records_have_their_bytes_in_order() {
    let mut st = small_ring(1);
    capture_write_sample(&mut st, 0x1122334455667788, 0x0102030405060708, 0x04, 0xBEEF);
    assert_eq!(
        st.ring,
        vec![
            0x88, 0x77, 0x66, 0x55, 0x44, 0x33, 0x22, 0x11, 8, 7, 6, 5, 4, 3, 2, 1, 4, 0, 0xEF, 0xBE
        ]
    );
    assert!(st.wrapped);
}

#[test]
fn rings_hold_the_latest_samples() {
    let mut st = small_ring(3);
    assert!(captured_samples(&st).is_empty());
    for t in 0..2u64 {
        capture_write_sample(&mut st, t, 0x0102030405060708, hid::A, 0xBEEF);
    }
    assert_eq!(captured_samples(&st), vec![sample(0), sample(1)]);
    for t in 2..8u64 {
        capture_write_sample(&mut st, t, 0x0102030405060708, hid::A, 0xBEEF);
    }
    assert_eq!(captured_samples(&st), vec![sample(5), sample(6), sample(7)]);
    let mut none = small_ring(0);
    capture_write_sample(&mut none, 1, 2, 3, 4);
    assert_eq!(none.write_idx, 0);
    assert!(captured_samples(&none).is_empty());
}

#[test]
fn masks_are_sampled_in_order_until_the_end() {
    let mut st = small_ring(8);
    let mut mask = ActiveMask::new();
    for code in [200u8, 4, 64] {
        mask.set(code, true);
    }
    let mut travel = vec![0u16; 256];
    travel[4] = 40;
    travel[64] = 640;
    travel[200] = 2000;
    capture_mask(&mut st, 5_012_999, 9, &mask, &travel);
    let got: Vec<(u64, u8, u16)> =
        captured_samples(&st).iter().map(|s| (s.t_us, s.hid, s.analog_q)).collect();
    assert_eq!(got, vec![(12, 4, 40), (12, 64, 640), (12, 200, 2000)]);
    assert!(!capture_is_over(&st, 35_000_000));
    assert!(capture_is_over(&st, 35_000_001));
    capture_mask(&mut st, 35_000_001, 9, &mask, &travel);
    assert_eq!(captured_samples(&st).len(), 3);
}

#[test]
fn masks_hold_what_is_set() {
    let mut m = ActiveMask::new();
    m.set(0, true);
    m.set(63, true);
    m.set(64, true);
    m.set(255, true);
    assert_eq!(m.words(), [0x8000_0000_0000_0001, 1, 0, 0x8000_0000_0000_0000]);
    assert_eq!(m.codes(), vec![0, 63, 64, 255]);
    m.set(63, false);
    m.set(1, false);
    assert_eq!(m.codes(), vec![0, 64, 255]);
    assert!(m.contains(64) && !m.contains(63));
    m.clear_all();
    assert!(m.codes().is_empty());
}

#[test]
fn fields_are_quoted_where_needed() {
    assert_eq!(csv_escape("plain text"), "plain text");
    assert_eq!(csv_escape("a,b"), "\"a,b\"");
    assert_eq!(csv_escape("say \"hi\""), "\"say \"\"hi\"\"\"");
    assert_eq!(csv_escape("two\nlines"), "\"two\nlines\"");
    assert_eq!(csv_escape("cr\r"), "\"cr\r\"");
    assert_eq!(csv_escape(""), "");
    let fields = vec!["a".to_string(), "".to_string(), "b,c".to_string()];
    assert_eq!(csv_line(&fields), "a,,\"b,c\"");
    assert_eq!(csv_line(&[]), "");
}

#[test]
fn captures_begin_with_an_empty_ring() {
    let (st, ev) = start_capture(42, 7, 1_000, false, "CFG");
    assert_eq!(st.ring.len(), CAPTURE_MAX_BYTES);
    assert_eq!(st.end_ns, 30_000_001_000);
    assert_eq!(
        ev.txt_lines,
        vec!["timestamp_ms=42", "trigger_device_id=7", "start_unix_ms=42", "duration_ms_target=30000", "CFG"]
    );
    let (st, ev) = start_capture(42, 7, 0, true, "CFG");
    assert_eq!(st.end_ns, 365 * 24 * 60 * 60 * 1_000_000_000);
    assert_eq!(ev.txt_lines[3], "duration_ms_target=always");
}

fn log() -> CaptureEventsState {
    start_capture(42, 7, 10_000_000, false, "CFG").1
}

#[test]
fn rows_get_their_times() {
    let mut ev = log();
    let row = edge_row_of(5, EdgeKind::Down, 9, "A", "0.5", Some(("0.1".to_string(), "0.09".to_string())));
    assert!(ev.push_row_meta_at(12_500_000, Some(11_000_000), None, 99, row));
    assert_eq!(ev.csv_lines[0], "5,2,EDGE,down,9,A,0.5,,,,,,,,,,,,0.1,0.09,1,1,1,");
    let row = sent_row_of(6, "MIDI", "noteon", 9, "A", 1, 60, Some(100), None);
    assert!(ev.push_row_meta_at(12_500_000, None, Some(4), 99, row));
    assert_eq!(ev.csv_lines[1], "6,2,MIDI,noteon,9,A,,,,,,,,1,60,100,,,,,,,4,noteon");
    let row = sent_row_of(7, "AFTERTOUCH", "polytouch", 9, "A", 1, 60, None, Some(3));
    assert!(ev.push_row_meta_at(0, Some(1), None, 99, row));
    assert_eq!(ev.csv_lines[2], "7,0,AFTERTOUCH,polytouch,9,A,,,,,,,,1,60,,3,,,,,,99,polytouch");
    let row = edge_row_of(8, EdgeKind::Update, 9, "A", "0.5", None);
    assert!(ev.push_row_meta_at(11_000_000, Some(12_000_000), None, 99, row));
    assert_eq!(ev.csv_lines[3], "8,1,EDGE,update,9,A,0.5,,,,,,,,,,,,,,2,,99,");
    let row = edge_row_of(8, EdgeKind::Up, 9, "A", "0.5", None);
    assert!(!ev.push_row_meta_at(30_010_000_001, None, None, 99, row));
    assert_eq!(ev.csv_lines.len(), 4);
}

#[test]
fn captures_end_in_four_files() {
    let names = HidNames::load();
    let mut st = small_ring(2);
    capture_write_sample(&mut st, 10, 7, hid::A, 65535);
    capture_write_sample(&mut st, 11, 7, 0, 0);
    let analogs = vec!["1.000000".to_string(), "0.000000".to_string()];
    let mut ev = log();
    ev.csv_lines.push("row".to_string());
    let f = capture_files(&names, &st, &Some(ev), &analogs, 2000, 4);
    assert_eq!(f.capture_csv.name, "1000_capture.csv");
    assert_eq!(f.capture_txt.name, "1000_capture.txt");
    assert_eq!(f.dump_csv.name, "1000_dump.csv");
    assert_eq!(f.dump_txt.name, "1000_dump.txt");
    assert_eq!(
        f.capture_csv.text,
        "t_us,device_id,hid,analog,analog_q\n10,7,A,1.000000,65535\n11,7,u8_0,0.000000,0\n"
    );
    assert_eq!(
        f.capture_txt.text,
        "timestamp_ms=1000\ntrigger_device_id=7\nstart_unix_ms=1000\nstop_unix_ms=2000\nduration_ms_target=30\nring_bytes=40\nrec_bytes=20\nwrite_idx=2\nwrapped=true\ndropped_samples=3\nlock_drops=4\nCFG x\n"
    );
    assert!(f.dump_csv.text.starts_with("t_ms,t_cap_ms,event,kind,"));
    assert!(f.dump_csv.text.ends_with(",lag_ms,msg\nrow\n"));
    assert!(f.dump_txt.text.ends_with("CFG\nstop_unix_ms=2000\nevents_rows=1\n"));
    let f = capture_files(&names, &st, &None, &analogs, 2000, 4);
    assert_eq!(
        f.dump_txt.text,
        "timestamp_ms=1000\nstop_unix_ms=2000\n(no capture dump events)\n"
    );
    assert!(f.dump_csv.text.ends_with(",thr_up,msg\n"));
}

#[test]
fn captures_are_taken_with_their_log() {
    let mut samples = Some(small_ring(1));
    let mut events = Some(log());
    let (st, ev) = take_capture(&mut samples, &mut events).unwrap();
    assert_eq!(st.trigger_device_id, 7);
    assert!(ev.is_some());
    assert!(samples.is_none() && events.is_none());
    let mut events = Some(log());
    assert!(take_capture(&mut samples, &mut events).is_none());
    assert!(events.is_none());
}

#[test]
fn keys_are_labelled_by_name_or_code() {
    let names = HidNames::load();
    assert_eq!(key_label_of(&names, hid::SPACE), "Space");
    assert_eq!(key_label_of(&names, 0), "u8_0");
}

fn event(t_ms: u64, msg: &str) -> DebugEvent {
    DebugEvent { t_ms, msg: msg.to_string() }
}

fn line_of(msg: &str) -> String {
    csv_line(&event_row_of(&event(1, msg)))
}

#[test]
fn messages_are_taken_apart() {
    assert_eq!(
        line_of("EDGE down dev=7 hid=A analog=0.5 other=1"),
        "1,,EDGE,down,7,A,0.5,,,,,,,,,,,,,,EDGE down dev=7 hid=A analog=0.5 other=1"
    );
    assert_eq!(line_of("EDGE "), "1,,EDGE,,,,,,,,,,,,,,,,,,EDGE ");
    assert_eq!(
        line_of("NOTEON_TICK dev=7 hid=A age_ms=6 playing=false pressed=true peak=0.9 last=0.8 peak_speed=3"),
        "1,,NOTEON_TICK,,7,A,,6,0.9,0.8,3,true,false,,,,,,,,NOTEON_TICK dev=7 hid=A age_ms=6 playing=false pressed=true peak=0.9 last=0.8 peak_speed=3"
    );
    assert_eq!(
        line_of("TAP_NOTE dev=7 hid=A ch=1 note=60 vel=9 age_ms=2 peak=0.3 peak_speed=4"),
        "1,,TAP_NOTE,,7,A,,2,0.3,,4,,,1,60,9,,,,,TAP_NOTE dev=7 hid=A ch=1 note=60 vel=9 age_ms=2 peak=0.3 peak_speed=4"
    );
    assert_eq!(
        line_of("MIDI noteoff ok dev=7 hid=A ch=1 note=60"),
        "1,,MIDI,noteoff,7,A,,,,,,,,1,60,,,,,,MIDI noteoff ok dev=7 hid=A ch=1 note=60"
    );
    assert_eq!(line_of("MIDI panic"), "1,,MIDI,,,,,,,,,,,,,,,,,,MIDI panic");
    assert_eq!(
        line_of("POLL rapid_release device_id=7 hid=A peak=0.9 analog=0.5 delta=0.4 thr_down=0.1 thr_up=0.09"),
        "1,,POLL,rapid_release,7,A,0.5,,0.9,,,,,,,,,0.4,0.1,0.09,POLL rapid_release device_id=7 hid=A peak=0.9 analog=0.5 delta=0.4 thr_down=0.1 thr_up=0.09"
    );
    assert_eq!(
        line_of("SUPPRESS hit dev=7 hid=A kind=up"),
        "1,,SUPPRESS,hit,7,A,,,,,,,,,,,,,,,SUPPRESS hit dev=7 hid=A kind=up"
    );
    assert_eq!(line_of("CFG a,b"), "1,,RAW,,,,,,,,,,,,,,,,,,\"CFG a,b\"");
    assert_eq!(line_of("EDGE up dev=1 dev=2"), "1,,EDGE,up,2,,,,,,,,,,,,,,,,EDGE up dev=1 dev=2");
}

#[test]
fn trails_hold_two_hundred_events() {
    let mut ring: VecDeque<DebugEvent> = VecDeque::new();
    for i in 0..205u64 {
        dbg_push(&mut ring, i, format!("m{}", i));
    }
    assert_eq!(ring.len(), 200);
    assert_eq!(ring[0].msg, "m5");
    assert_eq!(ring[199].t_ms, 204);
}

#[test]
fn trails_are_written_to_two_files() {
    let mut ring: VecDeque<DebugEvent> = VecDeque::new();
    dbg_push(&mut ring, 12, "RGB ok x".to_string());
    dbg_push(&mut ring, 123456789, "EDGE up dev=7".to_string());
    let (csv, txt) = manual_dump_files(99, "dump", "CFG", &ring, 3);
    assert_eq!((csv.name.as_str(), txt.name.as_str()), ("99_dump.csv", "99_dump.txt"));
    assert_eq!(
        txt.text,
        "timestamp_ms=99\nreason=dump\nlen=2\nrgb_drop_critical=3\nCFG\nDBG      12ms RGB ok x\nDBG 123456789ms EDGE up dev=7\n"
    );
    assert_eq!(
        csv.text,
        "t_ms,t_cap_ms,event,kind,device_id,hid,analog,age_ms,peak,last,peak_speed,pressed,playing,ch,note,vel,pressure,delta,thr_down,thr_up,msg\n12,,RAW,,,,,,,,,,,,,,,,,,RGB ok x\n123456789,,EDGE,up,7,,,,,,,,,,,,,,,,EDGE up dev=7\n"
    );
}
