//! Recording key travel: a ring of fixed-size records, and the log of events beside it.
//!
//! Times that a clock gave are nanoseconds since the program began.
use vstd::prelude::*;
use vstd::bytes;
use vstd::bytes::{u16_from_le_bytes, u16_to_le_bytes, u64_from_le_bytes, u64_to_le_bytes};
use vstd::slice::slice_subrange;
use crate::csv;
use crate::gate::EdgeKind;
use crate::hid::HidNames;
use crate::mask::ActiveMask;
use crate::text;

verus! {

/// How many bytes a record takes: the time (8), the device (8), the key (1), a zero byte
/// and the travel (2).
pub const CAPTURE_REC_BYTES: usize = 20;

/// How many bytes the ring has.
pub const CAPTURE_MAX_BYTES: usize = 33_554_432;

/// How long a capture lasts, in milliseconds.
pub const CAPTURE_DURATION_MS: u64 = 30_000;

/// How long a capture lasts that is always on: a year, in milliseconds.
pub const CAPTURE_ALWAYS_MS: u64 = 31_536_000_000;

/// The travel of a key at a time.
#[derive(Debug, Clone, Copy, PartialEq, Eq, Structural)]
pub struct Sample {
    /// Microseconds since the capture began.
    pub t_us: u64,
    pub device_id: u64,
    pub hid: u8,
    /// The travel, from 0 for none to 65535 for all.
    pub analog_q: u16,
}

/// The bytes of a record, numbers with their low byte first.
pub open spec fn encode(s: Sample) -> Seq<u8> {
    bytes::spec_u64_to_le_bytes(s.t_us) + bytes::spec_u64_to_le_bytes(s.device_id) + seq![s.hid, 0u8]
        + bytes::spec_u16_to_le_bytes(s.analog_q)
}

/// The sample that the bytes of a record hold.
pub open spec fn decode(b: Seq<u8>) -> Sample {
    Sample {
        t_us: bytes::spec_u64_from_le_bytes(b.subrange(0, 8)),
        device_id: bytes::spec_u64_from_le_bytes(b.subrange(8, 16)),
        hid: b[16],
        analog_q: bytes::spec_u16_from_le_bytes(b.subrange(18, 20)),
    }
}

/// A record holds twenty bytes, and the sample is read back from them.
pub proof fn record_reads_back(s: Sample)
    ensures
        encode(s).len() == CAPTURE_REC_BYTES,
        decode(encode(s)) == s,
{
    bytes::lemma_auto_spec_u64_to_from_le_bytes();
    bytes::lemma_auto_spec_u16_to_from_le_bytes();
    let b = encode(s);
    assert(bytes::spec_u64_to_le_bytes(s.t_us).len() == 8);
    assert(bytes::spec_u64_to_le_bytes(s.device_id).len() == 8);
    assert(bytes::spec_u16_to_le_bytes(s.analog_q).len() == 2);
    assert(b.subrange(0, 8) =~= bytes::spec_u64_to_le_bytes(s.t_us));
    assert(b.subrange(8, 16) =~= bytes::spec_u64_to_le_bytes(s.device_id));
    assert(b.subrange(18, 20) =~= bytes::spec_u16_to_le_bytes(s.analog_q));
}

/// A capture's samples.
#[derive(Debug, Clone)]
pub struct CaptureSamplesState {
    pub base_ts_ms: u64,
    pub trigger_device_id: u64,
    pub start_ns: u64,
    pub end_ns: u64,
    pub start_unix_ms: u64,
    pub cfg_line: String,
    pub ring: Vec<u8>,
    pub write_idx: u32,
    pub wrapped: bool,
    pub dropped_samples: u64,
}

/// How many records the ring has room for.
pub open spec fn room(ring: Seq<u8>) -> int {
    ring.len() as int / 20
}

/// The bytes of the record at `i`.
pub open spec fn record_bytes(ring: Seq<u8>, i: int) -> Seq<u8> {
    ring.subrange(20 * i, 20 * i + 20)
}

/// The samples that the records of the ring hold.
pub open spec fn slots(ring: Seq<u8>) -> Seq<Sample> {
    Seq::new(room(ring) as nat, |i: int| decode(record_bytes(ring, i)))
}

/// `ring` with the bytes `b` from `off` on.
pub open spec fn overwritten(ring: Seq<u8>, off: int, b: Seq<u8>) -> Seq<u8> {
    ring.take(off) + b + ring.skip(off + b.len())
}

impl CaptureSamplesState {
    /// The number of records is a `u32`, and only a ring with room is ever full.
    pub open spec fn wf(self) -> bool {
        room(self.ring@) <= u32::MAX && (self.wrapped ==> room(self.ring@) > 0)
    }

    /// The ring as its records show it: the samples, how many were written, and whether
    /// every record was.
    pub open spec fn state(self) -> (Seq<Sample>, u32, bool) {
        (slots(self.ring@), self.write_idx, self.wrapped)
    }
}

/// The ring after one more sample.
pub open spec fn stepped(st: (Seq<Sample>, u32, bool), s: Sample) -> (Seq<Sample>, u32, bool) {
    if st.0.len() == 0 {
        st
    } else {
        let next: u32 = if st.1 == u32::MAX {
            0
        } else {
            (st.1 + 1) as u32
        };
        (st.0.update(st.1 as int % st.0.len() as int, s), next, st.2 || next >= st.0.len())
    }
}

/// Where the oldest sample of a ring is.
pub open spec fn oldest(st: (Seq<Sample>, u32, bool)) -> int {
    if st.2 {
        st.1 as int % st.0.len() as int
    } else {
        0
    }
}

/// How many samples a ring holds.
pub open spec fn held(st: (Seq<Sample>, u32, bool)) -> nat {
    if st.2 || st.1 >= st.0.len() {
        st.0.len()
    } else {
        st.1 as nat
    }
}

/// The samples that a ring holds, from the oldest on.
pub open spec fn readout(st: (Seq<Sample>, u32, bool)) -> Seq<Sample> {
    Seq::new(held(st), |i: int| st.0[(oldest(st) + i) % st.0.len() as int])
}

proof fn lemma_slots_after_write(ring: Seq<u8>, idx: int, s: Sample)
    requires
        0 <= idx < room(ring),
    ensures
        overwritten(ring, 20 * idx, encode(s)).len() == ring.len(),
        slots(overwritten(ring, 20 * idx, encode(s))) == slots(ring).update(idx, s),
{
    record_reads_back(s);
    let off = 20 * idx;
    let b = encode(s);
    let after = overwritten(ring, off, b);
    assert(after.len() == ring.len());
    assert forall|i: int| 0 <= i < room(ring) implies slots(after)[i] == slots(ring).update(
        idx,
        s,
    )[i] by {
        if i == idx {
            assert(record_bytes(after, i) =~= b);
        } else {
            assert(record_bytes(after, i) =~= record_bytes(ring, i));
        }
    }
    assert(slots(after) =~= slots(ring).update(idx, s));
}

fn put_bytes(ring: &mut Vec<u8>, off: usize, b: &Vec<u8>)
    requires
        off + b@.len() <= old(ring)@.len(),
    ensures
        final(ring)@ == overwritten(old(ring)@, off as int, b@),
{
    let n: usize = b.len();
    let total: usize = ring.len();
    let mut i: usize = 0;
    let ghost before = ring@;
    while i < n
        invariant
            i <= n,
            n == b@.len(),
            off + n <= total,
            total == before.len(),
            ring@.len() == before.len(),
            forall|j: int|
                0 <= j < ring@.len() ==> #[trigger] ring@[j] == (if off <= j < off + i {
                    b@[j - off]
                } else {
                    before[j]
                }),
        decreases n - i,
    {
        ring.set(off + i, b[i]);
        i += 1;
    }
    assert(ring@ =~= overwritten(before, off as int, b@));
}

/// Writes a sample over the oldest record. A ring without room stays as it is.
pub fn capture_write_sample(
    st: &mut CaptureSamplesState,
    t_us: u64,
    device_id: u64,
    hid: u8,
    analog_q: u16,
)
    requires
        old(st).wf(),
    ensures
        final(st).wf(),
        final(st).state() == stepped(
            old(st).state(),
            (Sample { t_us, device_id, hid, analog_q }),
        ),
        final(st).ring@ == if room(old(st).ring@) == 0 {
            old(st).ring@
        } else {
            overwritten(
                old(st).ring@,
                20 * (old(st).write_idx as int % room(old(st).ring@)),
                encode(Sample { t_us, device_id, hid, analog_q }),
            )
        },
        *final(st) == (CaptureSamplesState {
            ring: final(st).ring,
            write_idx: final(st).write_idx,
            wrapped: final(st).wrapped,
            ..*old(st)
        }),
{
    let cap: u32 = (st.ring.len() / CAPTURE_REC_BYTES) as u32;
    if cap == 0 {
        return;
    }
    let idx: u32 = st.write_idx % cap;
    let off: usize = (idx as usize) * CAPTURE_REC_BYTES;
    let mut rec: Vec<u8> = u64_to_le_bytes(t_us);
    let mut dev: Vec<u8> = u64_to_le_bytes(device_id);
    let mut travel: Vec<u8> = u16_to_le_bytes(analog_q);
    rec.append(&mut dev);
    rec.push(hid);
    rec.push(0);
    rec.append(&mut travel);
    let ghost s = Sample { t_us, device_id, hid, analog_q };
    proof {
        record_reads_back(s);
        lemma_slots_after_write(st.ring@, idx as int, s);
    }
    assert(rec@ =~= encode(s));
    put_bytes(&mut st.ring, off, &rec);
    st.write_idx = st.write_idx.wrapping_add(1);
    if !st.wrapped && st.write_idx >= cap {
        st.wrapped = true;
    }
}

fn read_record(ring: &Vec<u8>, idx: usize) -> (r: Sample)
    requires
        0 <= idx < room(ring@),
    ensures
        r == slots(ring@)[idx as int],
{
    let total: usize = ring.len();
    assert(20 * idx + 20 <= total);
    let off: usize = idx * CAPTURE_REC_BYTES;
    let ghost b = record_bytes(ring@, idx as int);
    let all = ring.as_slice();
    let t = slice_subrange(all, off, off + 8);
    let dev = slice_subrange(all, off + 8, off + 16);
    let travel = slice_subrange(all, off + 18, off + 20);
    assert(t@ =~= b.subrange(0, 8));
    assert(dev@ =~= b.subrange(8, 16));
    assert(travel@ =~= b.subrange(18, 20));
    Sample {
        t_us: u64_from_le_bytes(t),
        device_id: u64_from_le_bytes(dev),
        hid: ring[off + 16],
        analog_q: u16_from_le_bytes(travel),
    }
}

/// The samples of a capture, from the oldest on.
pub fn captured_samples(st: &CaptureSamplesState) -> (r: Vec<Sample>)
    requires
        st.wf(),
    ensures
        r@ == readout(st.state()),
{
    let cap: usize = st.ring.len() / CAPTURE_REC_BYTES;
    let count: usize = if st.wrapped || st.write_idx as usize >= cap {
        cap
    } else {
        st.write_idx as usize
    };
    let start: usize = if st.wrapped {
        (st.write_idx as usize) % cap
    } else {
        0
    };
    let mut out: Vec<Sample> = Vec::new();
    let mut i: usize = 0;
    while i < count
        invariant
            st.wf(),
            cap == room(st.ring@),
            i <= count,
            count == held(st.state()),
            start == oldest(st.state()),
            count <= cap,
            0 < count ==> start < cap,
            out@ == readout(st.state()).take(i as int),
        decreases count - i,
    {
        let idx: usize = if start < cap - i {
            start + i
        } else {
            start - (cap - i)
        };
        proof {
            if start < cap - i {
                vstd::arithmetic::div_mod::lemma_small_mod((start + i) as nat, cap as nat);
            } else {
                vstd::arithmetic::div_mod::lemma_mod_sub_multiples_vanish(
                    (start + i) as int,
                    cap as int,
                );
                vstd::arithmetic::div_mod::lemma_small_mod((start + i - cap) as nat, cap as nat);
            }
        }
        out.push(read_record(&st.ring, idx));
        assert(readout(st.state()).take(i + 1) =~= readout(st.state()).take(i as int).push(
            readout(st.state())[i as int],
        ));
        i += 1;
    }
    assert(out@ =~= readout(st.state()));
    out
}

/// The ring `st` after the samples `s`.
pub open spec fn played(st: (Seq<Sample>, u32, bool), s: Seq<Sample>) -> (Seq<Sample>, u32, bool)
    decreases s.len(),
{
    if s.len() == 0 {
        st
    } else {
        stepped(played(st, s.drop_last()), s.last())
    }
}

proof fn lemma_played(empty: Seq<Sample>, s: Seq<Sample>)
    requires
        empty.len() > 0,
        s.len() <= u32::MAX,
    ensures
        ({
            let st = played((empty, 0, false), s);
            &&& st.0.len() == empty.len()
            &&& st.1 == s.len()
            &&& st.2 == (s.len() >= empty.len())
            &&& forall|k: int|
                0 <= k < s.len() && s.len() - empty.len() <= k ==> st.0[k % (empty.len() as int)]
                    == #[trigger] s[k]
        }),
    decreases s.len(),
{
    if s.len() > 0 {
        let front = s.drop_last();
        let cap = empty.len() as int;
        lemma_played(empty, front);
        let before = played((empty, 0, false), front);
        let st = played((empty, 0, false), s);
        let n = s.len() as int;
        assert forall|k: int| 0 <= k < n && n - cap <= k implies st.0[k % cap] == #[trigger] s[k] by {
            vstd::arithmetic::div_mod::lemma_mod_bound(k, cap);
            vstd::arithmetic::div_mod::lemma_mod_bound(n - 1, cap);
            if k < n - 1 {
                assert(front[k] == s[k]);
                if k % cap == (n - 1) % cap {
                    lemma_same_residue(k, n - 1, cap);
                }
            }
        }
    }
}

proof fn lemma_same_residue(a: int, b: int, cap: int)
    requires
        0 < cap,
        a <= b < a + cap,
        a % cap == b % cap,
    ensures
        a == b,
{
    vstd::arithmetic::div_mod::lemma_fundamental_div_mod(a, cap);
    vstd::arithmetic::div_mod::lemma_fundamental_div_mod(b, cap);
    let q = b / cap - a / cap;
    assert(cap * (b / cap) - cap * (a / cap) == cap * q) by (nonlinear_arith)
        requires
            q == b / cap - a / cap,
    ;
    assert(0 <= cap * q < cap);
    assert(q == 0) by (nonlinear_arith)
        requires
            0 < cap,
            0 <= cap * q < cap,
    ;
}

/// A ring holds the samples written last, as many as it has room for, in the order in
/// which they were written, as long as fewer than two to the thirty-second were.
pub proof fn ring_keeps_the_latest(empty: Seq<Sample>, s: Seq<Sample>)
    requires
        empty.len() > 0,
        s.len() <= u32::MAX,
    ensures
        readout(played((empty, 0, false), s)) == (if s.len() <= empty.len() {
            s
        } else {
            s.skip(s.len() - empty.len())
        }),
{
    lemma_played(empty, s);
    let st = played((empty, 0, false), s);
    let cap = empty.len() as int;
    let n = s.len() as int;
    let got = readout(st);
    let want = if n <= cap {
        s
    } else {
        s.skip(n - cap)
    };
    assert(got.len() == want.len());
    assert forall|i: int| 0 <= i < got.len() implies got[i] == want[i] by {
        if n >= cap {
            let k = n - cap + i;
            vstd::arithmetic::div_mod::lemma_add_mod_noop(n, i, cap);
            vstd::arithmetic::div_mod::lemma_small_mod(i as nat, cap as nat);
            assert((n % cap + i) % cap == (n + i) % cap);
            vstd::arithmetic::div_mod::lemma_mod_sub_multiples_vanish(n + i, cap);
            assert((n + i - cap) % cap == (n + i) % cap);
            assert(want[i] == s[k]);
        } else {
            vstd::arithmetic::div_mod::lemma_small_mod(i as nat, cap as nat);
            assert(want[i] == s[i]);
        }
    }
    assert(got =~= want);
}

/// A capture's log of events.
#[derive(Debug, Clone)]
pub struct CaptureEventsState {
    pub base_ts_ms: u64,
    pub trigger_device_id: u64,
    pub start_ns: u64,
    pub end_ns: u64,
    pub start_unix_ms: u64,
    pub cfg_line: String,
    pub csv_lines: Vec<String>,
    pub txt_lines: Vec<String>,
}

/// How long a capture lasts, in milliseconds.
pub open spec fn duration_ms(always_on: bool) -> int {
    if always_on {
        31_536_000_000
    } else {
        30_000
    }
}

/// The head of the log of a capture that begins.
pub open spec fn opening_lines(
    base_ts_ms: u64,
    trigger_device_id: u64,
    always_on: bool,
    cfg_line: Seq<char>,
) -> Seq<Seq<char>> {
    seq![
        text::setting("timestamp_ms"@, text::decimal(base_ts_ms as nat)),
        text::setting("trigger_device_id"@, text::decimal(trigger_device_id as nat)),
        text::setting("start_unix_ms"@, text::decimal(base_ts_ms as nat)),
        text::setting(
            "duration_ms_target"@,
            if always_on {
                "always"@
            } else {
                text::decimal(30_000)
            },
        ),
        cfg_line,
    ]
}

/// Begins a capture: an empty ring, and a log with its head.
pub fn start_capture(
    base_ts_ms: u64,
    trigger_device_id: u64,
    start_ns: u64,
    always_on: bool,
    cfg_line: &str,
) -> (r: (CaptureSamplesState, CaptureEventsState))
    requires
        start_ns + duration_ms(always_on) * 1_000_000 <= u64::MAX,
    ensures
        r.0.wf(),
        r.0.base_ts_ms == base_ts_ms,
        r.0.trigger_device_id == trigger_device_id,
        r.0.start_ns == start_ns,
        r.0.end_ns == start_ns + duration_ms(always_on) * 1_000_000,
        r.0.start_unix_ms == base_ts_ms,
        r.0.cfg_line@ == cfg_line@,
        r.0.ring@ == Seq::new(CAPTURE_MAX_BYTES as nat, |i: int| 0u8),
        r.0.ring@.len() == 32 * 1024 * 1024,
        r.0.end_ns == start_ns + (if always_on {
            31_536_000_000_000_000int
        } else {
            30_000_000_000
        }),
        r.0.write_idx == 0,
        !r.0.wrapped,
        r.0.dropped_samples == 0,
        r.1.base_ts_ms == base_ts_ms,
        r.1.trigger_device_id == trigger_device_id,
        r.1.start_ns == start_ns,
        r.1.end_ns == r.0.end_ns,
        r.1.start_unix_ms == base_ts_ms,
        r.1.cfg_line@ == cfg_line@,
        r.1.csv_lines@.len() == 0,
        text::strings(r.1.txt_lines@) == opening_lines(
            base_ts_ms,
            trigger_device_id,
            always_on,
            cfg_line@,
        ),
{
    let duration: u64 = if always_on {
        CAPTURE_ALWAYS_MS
    } else {
        CAPTURE_DURATION_MS
    };
    let end_ns: u64 = start_ns + duration * 1_000_000;
    let ring: Vec<u8> = vec![0u8; CAPTURE_MAX_BYTES];
    assert(ring@ =~= Seq::new(CAPTURE_MAX_BYTES as nat, |i: int| 0u8));
    let samples = CaptureSamplesState {
        base_ts_ms,
        trigger_device_id,
        start_ns,
        end_ns,
        start_unix_ms: base_ts_ms,
        cfg_line: text::text_of(cfg_line),
        ring,
        write_idx: 0,
        wrapped: false,
        dropped_samples: 0,
    };
    let target: String = if always_on {
        text::setting_of("duration_ms_target", "always")
    } else {
        text::number_setting("duration_ms_target", CAPTURE_DURATION_MS)
    };
    let txt_lines: Vec<String> = vec![
        text::number_setting("timestamp_ms", base_ts_ms),
        text::number_setting("trigger_device_id", trigger_device_id),
        text::number_setting("start_unix_ms", base_ts_ms),
        target,
        text::text_of(cfg_line),
    ];
    assert(text::strings(txt_lines@) =~= opening_lines(
        base_ts_ms,
        trigger_device_id,
        always_on,
        cfg_line@,
    ));
    let events = CaptureEventsState {
        base_ts_ms,
        trigger_device_id,
        start_ns,
        end_ns,
        start_unix_ms: base_ts_ms,
        cfg_line: text::text_of(cfg_line),
        csv_lines: Vec::new(),
        txt_lines,
    };
    (samples, events)
}

/// Whether a capture's time is over.
pub fn capture_is_over(st: &CaptureSamplesState, now_ns: u64) -> (r: bool)
    ensures
        r == (now_ns > st.end_ns),
{
    now_ns > st.end_ns
}

/// Milliseconds from `start_ns` to `when_ns`, none where it is earlier.
pub open spec fn ms_between(start_ns: u64, when_ns: u64) -> nat {
    if when_ns >= start_ns {
        ((when_ns - start_ns) / 1_000_000) as nat
    } else {
        0
    }
}

/// Milliseconds from `start_ns` to `when_ns`, none where it is earlier.
pub fn ms_since(start_ns: u64, when_ns: u64) -> (r: u64)
    ensures
        r == ms_between(start_ns, when_ns),
{
    if when_ns >= start_ns {
        (when_ns - start_ns) / 1_000_000
    } else {
        0
    }
}

/// A row of the log with its times filled in: when it is written, when the edge it comes
/// from was, how much later that is, and the lag. The lag is the given one, else the
/// delay, else the capture's.
pub open spec fn timed_row(
    row: Seq<Seq<char>>,
    start_ns: u64,
    when_ns: u64,
    edge_ns: Option<u64>,
    lag_ms: Option<u64>,
    capture_lag_ms: u64,
) -> Seq<Seq<char>> {
    let t = ms_between(start_ns, when_ns);
    let row1 = row.update(1, text::decimal(t));
    let row2 = match edge_ns {
        Some(e) => if e >= start_ns {
            let te = ms_between(start_ns, e);
            row1.update(20, text::decimal(te)).update(
                21,
                if t >= te {
                    text::decimal((t - te) as nat)
                } else {
                    Seq::empty()
                },
            )
        } else {
            row1
        },
        None => row1,
    };
    let lag = match lag_ms {
        Some(l) => text::decimal(l as nat),
        None => if row2[21].len() > 0 {
            row2[21]
        } else {
            text::decimal(capture_lag_ms as nat)
        },
    };
    row2.update(22, lag)
}

impl CaptureEventsState {
    /// Adds a row to the log, unless it comes after the capture's end, and says whether
    /// it was added.
    pub fn push_row_meta_at(
        &mut self,
        when_ns: u64,
        edge_ns: Option<u64>,
        lag_ms: Option<u64>,
        capture_lag_ms: u64,
        row: Vec<String>,
    ) -> (r: bool)
        requires
            row@.len() == 24,
        ensures
            r == (when_ns <= old(self).end_ns),
            text::strings(final(self).csv_lines@) == (if r {
                text::strings(old(self).csv_lines@).push(
                    csv::line(
                        timed_row(
                            text::strings(row@),
                            old(self).start_ns,
                            when_ns,
                            edge_ns,
                            lag_ms,
                            capture_lag_ms,
                        ),
                    ),
                )
            } else {
                text::strings(old(self).csv_lines@)
            }),
            *final(self) == (CaptureEventsState {
                csv_lines: final(self).csv_lines,
                ..*old(self)
            }),
    {
        if when_ns > self.end_ns {
            return false;
        }
        let ghost row0 = text::strings(row@);
        let mut row = row;
        let t: u64 = ms_since(self.start_ns, when_ns);
        row.set(1, text::decimal_of(t));
        assert(text::strings(row@) =~= row0.update(1, text::decimal(t as nat)));
        match edge_ns {
            Some(e) => {
                if e >= self.start_ns {
                    let ghost row1 = text::strings(row@);
                    let te: u64 = ms_since(self.start_ns, e);
                    row.set(20, text::decimal_of(te));
                    if t >= te {
                        row.set(21, text::decimal_of(t - te));
                        assert(text::strings(row@) =~= row1.update(
                            20,
                            text::decimal(te as nat),
                        ).update(21, text::decimal((t - te) as nat)));
                    } else {
                        row.set(21, String::new());
                        assert(text::strings(row@) =~= row1.update(
                            20,
                            text::decimal(te as nat),
                        ).update(21, Seq::empty()));
                    }
                }
            },
            None => {},
        }
        let ghost row2 = text::strings(row@);
        assert(row2[21] == row@[21]@);
        let delay: Vec<char> = text::chars_of(row[21].as_str());
        let lag: String = match lag_ms {
            Some(l) => text::decimal_of(l),
            None => if delay.len() > 0 {
                text::string_of(delay.as_slice())
            } else {
                text::decimal_of(capture_lag_ms)
            },
        };
        let ghost lag_text = lag@;
        row.set(22, lag);
        assert(text::strings(row@) =~= row2.update(22, lag_text));
        let ghost lines0 = text::strings(self.csv_lines@);
        let line = csv::csv_line(row.as_slice());
        let ghost line_text = line@;
        self.csv_lines.push(line);
        assert(text::strings(self.csv_lines@) =~= lines0.push(line_text));
        true
    }
}

/// A key's name, or its code where it has none.
pub open spec fn key_label(names: Seq<Option<Seq<char>>>, code: u8) -> Seq<char> {
    if code < names.len() && names[code as int] is Some {
        names[code as int]->0
    } else {
        "u8_"@ + text::decimal(code as nat)
    }
}

/// A key's name, or its code where it has none.
pub fn key_label_of(names: &HidNames, code: u8) -> (r: String)
    ensures
        r@ == key_label(names@, code),
{
    if (code as usize) < names.names.len() {
        match &names.names[code as usize] {
            Some(s) => {
                return text::text_of(s.as_str());
            },
            None => {},
        }
    }
    text::two_texts("u8_", text::decimal_of(code as u64).as_str())
}

/// What is known of a capture besides its samples.
pub open spec fn capture_txt_lines(
    st: CaptureSamplesState,
    stopped_unix_ms: u64,
    lock_drops: u64,
) -> Seq<Seq<char>> {
    seq![
        text::setting("timestamp_ms"@, text::decimal(st.base_ts_ms as nat)),
        text::setting("trigger_device_id"@, text::decimal(st.trigger_device_id as nat)),
        text::setting("start_unix_ms"@, text::decimal(st.start_unix_ms as nat)),
        text::setting("stop_unix_ms"@, text::decimal(stopped_unix_ms as nat)),
        text::setting("duration_ms_target"@, text::decimal(ms_between(st.start_ns, st.end_ns))),
        text::setting("ring_bytes"@, text::decimal(st.ring@.len())),
        text::setting("rec_bytes"@, text::decimal(20)),
        text::setting("write_idx"@, text::decimal(st.write_idx as nat)),
        text::setting("wrapped"@, text::truth(st.wrapped)),
        text::setting("dropped_samples"@, text::decimal(st.dropped_samples as nat)),
        text::setting("lock_drops"@, text::decimal(lock_drops as nat)),
        st.cfg_line@,
    ]
}

fn capture_txt(st: &CaptureSamplesState, stopped_unix_ms: u64, lock_drops: u64) -> (r: String)
    ensures
        r@ == text::lines_text(capture_txt_lines(*st, stopped_unix_ms, lock_drops)),
{
    let lines: Vec<String> = vec![
        text::number_setting("timestamp_ms", st.base_ts_ms),
        text::number_setting("trigger_device_id", st.trigger_device_id),
        text::number_setting("start_unix_ms", st.start_unix_ms),
        text::number_setting("stop_unix_ms", stopped_unix_ms),
        text::number_setting("duration_ms_target", ms_since(st.start_ns, st.end_ns)),
        text::number_setting("ring_bytes", st.ring.len() as u64),
        text::number_setting("rec_bytes", CAPTURE_REC_BYTES as u64),
        text::number_setting("write_idx", st.write_idx as u64),
        text::setting_of("wrapped", text::truth_of(st.wrapped)),
        text::number_setting("dropped_samples", st.dropped_samples),
        text::number_setting("lock_drops", lock_drops),
        text::text_of(st.cfg_line.as_str()),
    ];
    assert(text::strings(lines@) =~= capture_txt_lines(*st, stopped_unix_ms, lock_drops));
    text::lines_text_of(&lines)
}

/// The line of a sample; `analog` is its travel as a fraction, in digits.
pub open spec fn sample_line(
    names: Seq<Option<Seq<char>>>,
    s: Sample,
    analog: Seq<char>,
) -> Seq<char> {
    text::decimal(s.t_us as nat) + seq![','] + text::decimal(s.device_id as nat) + seq![',']
        + csv::escaped(key_label(names, s.hid)) + seq![','] + analog + seq![','] + text::decimal(
        s.analog_q as nat,
    )
}

/// The table of samples.
pub open spec fn capture_csv_lines(
    names: Seq<Option<Seq<char>>>,
    samples: Seq<Sample>,
    analogs: Seq<Seq<char>>,
) -> Seq<Seq<char>> {
    seq!["t_us,device_id,hid,analog,analog_q"@] + Seq::new(
        samples.len(),
        |i: int| sample_line(names, samples[i], analogs[i]),
    )
}

fn capture_csv(names: &HidNames, samples: &Vec<Sample>, analogs: &Vec<String>) -> (r: String)
    requires
        analogs@.len() == samples@.len(),
    ensures
        r@ == text::lines_text(
            capture_csv_lines(names@, samples@, text::strings(analogs@)),
        ),
{
    let mut lines: Vec<String> = Vec::new();
    lines.push(text::text_of("t_us,device_id,hid,analog,analog_q"));
    let ghost want = capture_csv_lines(names@, samples@, text::strings(analogs@));
    assert(text::strings(lines@) =~= want.take(1));
    for i in 0..samples.len()
        invariant
            analogs@.len() == samples@.len(),
            want == capture_csv_lines(names@, samples@, text::strings(analogs@)),
            text::strings(lines@) == want.take(i + 1),
    {
        let s = samples[i];
        let mut out = text::decimal_of(s.t_us);
        out.push(',');
        text::push_decimal(&mut out, s.device_id);
        out.push(',');
        let label = key_label_of(names, s.hid);
        text::push_text(&mut out, csv::csv_escape(label.as_str()).as_str());
        out.push(',');
        text::push_text(&mut out, analogs[i].as_str());
        out.push(',');
        text::push_decimal(&mut out, s.analog_q as u64);
        assert(out@ =~= sample_line(names@, s, analogs@[i as int]@));
        assert(want[i + 1] == out@);
        let ghost before = text::strings(lines@);
        let ghost line = out@;
        lines.push(out);
        assert(text::strings(lines@) =~= before.push(line));
        assert(want.take(i + 2) =~= want.take(i + 1).push(want[i + 1]));
    }
    assert(want.take(samples@.len() as int + 1) =~= want);
    text::lines_text_of(&lines)
}

/// The columns of the log of events.
pub open spec fn event_header() -> Seq<char> {
    "t_ms,t_cap_ms,event,kind,device_id,hid,analog,age_ms,peak,last,peak_speed,pressed,playing,ch,note,vel,pressure,delta,thr_down,thr_up,edge_t_cap_ms,send_delay_ms,lag_ms,msg"@
}

/// The columns of a log that has no events.
pub open spec fn bare_event_header() -> Seq<char> {
    "t_ms,t_cap_ms,event,kind,device_id,hid,analog,age_ms,peak,last,peak_speed,pressed,playing,ch,note,vel,pressure,delta,thr_down,thr_up,msg"@
}

/// The head of the log as it is written at the end of a capture.
pub open spec fn dump_txt_lines(
    base_ts_ms: u64,
    stopped_unix_ms: u64,
    events: Option<CaptureEventsState>,
) -> Seq<Seq<char>> {
    match events {
        Some(ev) => text::strings(ev.txt_lines@) + seq![
            text::setting("stop_unix_ms"@, text::decimal(stopped_unix_ms as nat)),
            text::setting("events_rows"@, text::decimal(ev.csv_lines@.len())),
        ],
        None => seq![
            text::setting("timestamp_ms"@, text::decimal(base_ts_ms as nat)),
            text::setting("stop_unix_ms"@, text::decimal(stopped_unix_ms as nat)),
            "(no capture dump events)"@,
        ],
    }
}

/// The log as it is written at the end of a capture.
pub open spec fn dump_csv_lines(events: Option<CaptureEventsState>) -> Seq<Seq<char>> {
    match events {
        Some(ev) => seq![event_header()] + text::strings(ev.csv_lines@),
        None => seq![bare_event_header()],
    }
}

fn dump_txt(base_ts_ms: u64, stopped_unix_ms: u64, events: &Option<CaptureEventsState>) -> (r:
    String)
    ensures
        r@ == text::lines_text(dump_txt_lines(base_ts_ms, stopped_unix_ms, *events)),
{
    match events {
        Some(ev) => {
            let mut lines: Vec<String> = Vec::new();
            for i in 0..ev.txt_lines.len()
                invariant
                    text::strings(lines@) == text::strings(ev.txt_lines@).take(i as int),
            {
                let l = text::text_of(ev.txt_lines[i].as_str());
                let ghost before = text::strings(lines@);
                let ghost line = l@;
                lines.push(l);
                assert(text::strings(lines@) =~= before.push(line));
            }
            let ghost all = text::strings(ev.txt_lines@);
            assert(all.take(ev.txt_lines@.len() as int) =~= all);
            let stop = text::number_setting("stop_unix_ms", stopped_unix_ms);
            let ghost stop_text = stop@;
            lines.push(stop);
            assert(text::strings(lines@) =~= all.push(stop_text));
            let rows = text::number_setting("events_rows", ev.csv_lines.len() as u64);
            let ghost rows_text = rows@;
            lines.push(rows);
            assert(text::strings(lines@) =~= all.push(stop_text).push(rows_text));
            assert(text::strings(lines@) =~= dump_txt_lines(base_ts_ms, stopped_unix_ms, *events));
            text::lines_text_of(&lines)
        },
        None => {
            let lines: Vec<String> = vec![
                text::number_setting("timestamp_ms", base_ts_ms),
                text::number_setting("stop_unix_ms", stopped_unix_ms),
                text::text_of("(no capture dump events)"),
            ];
            assert(text::strings(lines@) =~= dump_txt_lines(base_ts_ms, stopped_unix_ms, *events));
            text::lines_text_of(&lines)
        },
    }
}

fn dump_csv(events: &Option<CaptureEventsState>) -> (r: String)
    ensures
        r@ == text::lines_text(dump_csv_lines(*events)),
{
    let mut lines: Vec<String> = Vec::new();
    match events {
        Some(ev) => {
            lines.push(
                text::text_of(
                    "t_ms,t_cap_ms,event,kind,device_id,hid,analog,age_ms,peak,last,peak_speed,pressed,playing,ch,note,vel,pressure,delta,thr_down,thr_up,edge_t_cap_ms,send_delay_ms,lag_ms,msg",
                ),
            );
            let ghost want = dump_csv_lines(*events);
            assert(text::strings(lines@) =~= want.take(1));
            for i in 0..ev.csv_lines.len()
                invariant
                    want == seq![event_header()] + text::strings(ev.csv_lines@),
                    text::strings(lines@) == want.take(i + 1),
            {
                let l = text::text_of(ev.csv_lines[i].as_str());
                let ghost before = text::strings(lines@);
                let ghost line = l@;
                lines.push(l);
                assert(text::strings(lines@) =~= before.push(line));
                assert(want.take(i + 2) =~= want.take(i + 1).push(want[i + 1]));
            }
            assert(want.take(ev.csv_lines@.len() as int + 1) =~= want);
        },
        None => {
            lines.push(
                text::text_of(
                    "t_ms,t_cap_ms,event,kind,device_id,hid,analog,age_ms,peak,last,peak_speed,pressed,playing,ch,note,vel,pressure,delta,thr_down,thr_up,msg",
                ),
            );
            assert(text::strings(lines@) =~= dump_csv_lines(*events));
        },
    }
    text::lines_text_of(&lines)
}

/// A file: its name and what it holds.
#[derive(Debug, Clone)]
pub struct TextFile {
    pub name: String,
    pub text: String,
}

/// The files of a capture.
#[derive(Debug, Clone)]
pub struct CaptureFiles {
    pub capture_csv: TextFile,
    pub capture_txt: TextFile,
    pub dump_csv: TextFile,
    pub dump_txt: TextFile,
}

/// The four files that a capture ends in. `analogs` holds, for each sample from the oldest
/// on, its travel as a fraction, in digits.
pub fn capture_files(
    names: &HidNames,
    st: &CaptureSamplesState,
    events: &Option<CaptureEventsState>,
    analogs: &Vec<String>,
    stopped_unix_ms: u64,
    lock_drops: u64,
) -> (r: CaptureFiles)
    requires
        st.wf(),
        analogs@.len() == held(st.state()),
    ensures
        ({
            let base = text::decimal(st.base_ts_ms as nat);
            &&& r.capture_csv.name@ == base + "_capture.csv"@
            &&& r.capture_txt.name@ == base + "_capture.txt"@
            &&& r.dump_csv.name@ == base + "_dump.csv"@
            &&& r.dump_txt.name@ == base + "_dump.txt"@
        }),
        r.capture_csv.text@ == text::lines_text(
            capture_csv_lines(names@, readout(st.state()), text::strings(analogs@)),
        ),
        r.capture_txt.text@ == text::lines_text(
            capture_txt_lines(*st, stopped_unix_ms, lock_drops),
        ),
        r.dump_csv.text@ == text::lines_text(dump_csv_lines(*events)),
        r.dump_txt.text@ == text::lines_text(
            dump_txt_lines(st.base_ts_ms, stopped_unix_ms, *events),
        ),
{
    let base = text::decimal_of(st.base_ts_ms);
    let samples: Vec<Sample> = captured_samples(st);
    CaptureFiles {
        capture_csv: TextFile {
            name: text::two_texts(base.as_str(), "_capture.csv"),
            text: capture_csv(names, &samples, analogs),
        },
        capture_txt: TextFile {
            name: text::two_texts(base.as_str(), "_capture.txt"),
            text: capture_txt(st, stopped_unix_ms, lock_drops),
        },
        dump_csv: TextFile {
            name: text::two_texts(base.as_str(), "_dump.csv"),
            text: dump_csv(events),
        },
        dump_txt: TextFile {
            name: text::two_texts(base.as_str(), "_dump.txt"),
            text: dump_txt(st.base_ts_ms, stopped_unix_ms, events),
        },
    }
}

/// The samples of the keys `codes` of a device at a time.
pub open spec fn samples_of(
    t_us: u64,
    device_id: u64,
    codes: Seq<u8>,
    travel: Seq<u16>,
) -> Seq<Sample> {
    codes.map_values(
        |c: u8| Sample { t_us, device_id, hid: c, analog_q: travel[c as int] },
    )
}

/// Microseconds from `start_ns` to `when_ns`, none where it is earlier.
pub open spec fn us_between(start_ns: u64, when_ns: u64) -> u64 {
    if when_ns >= start_ns {
        ((when_ns - start_ns) / 1000) as u64
    } else {
        0
    }
}

/// Writes a sample of each key in `mask`, in the order of their codes, unless the capture
/// is over. `travel` holds the travel of each key by its code.
pub fn capture_mask(
    st: &mut CaptureSamplesState,
    now_ns: u64,
    device_id: u64,
    mask: &ActiveMask,
    travel: &Vec<u16>,
)
    requires
        old(st).wf(),
        travel@.len() == 256,
    ensures
        final(st).wf(),
        final(st).state() == (if now_ns <= old(st).end_ns {
            played(
                old(st).state(),
                samples_of(
                    us_between(old(st).start_ns, now_ns),
                    device_id,
                    mask.codes_below(256),
                    travel@,
                ),
            )
        } else {
            old(st).state()
        }),
        *final(st) == (CaptureSamplesState {
            ring: final(st).ring,
            write_idx: final(st).write_idx,
            wrapped: final(st).wrapped,
            ..*old(st)
        }),
{
    if now_ns > st.end_ns {
        return;
    }
    let t_us: u64 = if now_ns >= st.start_ns {
        (now_ns - st.start_ns) / 1000
    } else {
        0
    };
    let codes: Vec<u8> = mask.codes();
    let ghost all = samples_of(t_us, device_id, codes@, travel@);
    assert(all.take(0) =~= Seq::empty());
    for i in 0..codes.len()
        invariant
            travel@.len() == 256,
            all == samples_of(t_us, device_id, codes@, travel@),
            st.wf(),
            st.state() == played(old(st).state(), all.take(i as int)),
            *st == (CaptureSamplesState {
                ring: st.ring,
                write_idx: st.write_idx,
                wrapped: st.wrapped,
                ..*old(st)
            }),
    {
        let c: u8 = codes[i];
        capture_write_sample(st, t_us, device_id, c, travel[c as usize]);
        assert(all.take(i + 1).drop_last() =~= all.take(i as int));
    }
    assert(all.take(codes@.len() as int) =~= all);
}

/// Takes a capture out of where it is kept, to be written or thrown away. Its log goes
/// with it; a log without samples is thrown away.
pub fn take_capture(
    samples: &mut Option<CaptureSamplesState>,
    events: &mut Option<CaptureEventsState>,
) -> (r: Option<(CaptureSamplesState, Option<CaptureEventsState>)>)
    ensures
        *final(samples) is None,
        *final(events) is None,
        r == match *old(samples) {
            Some(st) => Some((st, *old(events))),
            None => None,
        },
{
    let ev = events.take();
    match samples.take() {
        Some(st) => Some((st, ev)),
        None => None,
    }
}

/// The row of an edge: when it was, what it was, of which key, how far that was down, and
/// the thresholds where they matter.
pub open spec fn edge_row(
    t_ms: u64,
    kind: EdgeKind,
    device_id: u64,
    hid: Seq<char>,
    analog: Seq<char>,
    thresholds: Option<(Seq<char>, Seq<char>)>,
) -> Seq<Seq<char>> {
    let row = csv::blank_row(24).update(0, text::decimal(t_ms as nat)).update(2, "EDGE"@).update(
        3,
        kind.text(),
    ).update(4, text::decimal(device_id as nat)).update(5, hid).update(6, analog);
    match thresholds {
        Some((down, up)) => row.update(18, down).update(19, up),
        None => row,
    }
}

/// The row of a message that was sent: when, what, for which key, and its channel, note,
/// velocity and pressure. The kind stands at the end again.
pub open spec fn sent_row(
    t_ms: u64,
    event: Seq<char>,
    kind: Seq<char>,
    device_id: u64,
    hid: Seq<char>,
    ch: u8,
    note: u8,
    vel: Option<u8>,
    pressure: Option<u8>,
) -> Seq<Seq<char>> {
    let row = csv::blank_row(24).update(0, text::decimal(t_ms as nat)).update(2, event).update(
        3,
        kind,
    ).update(4, text::decimal(device_id as nat)).update(5, hid).update(
        13,
        text::decimal(ch as nat),
    ).update(14, text::decimal(note as nat)).update(23, kind);
    let row1 = match vel {
        Some(v) => row.update(15, text::decimal(v as nat)),
        None => row,
    };
    match pressure {
        Some(p) => row1.update(16, text::decimal(p as nat)),
        None => row1,
    }
}

/// The row of an edge.
pub fn edge_row_of(
    t_ms: u64,
    kind: EdgeKind,
    device_id: u64,
    hid: &str,
    analog: &str,
    thresholds: Option<(String, String)>,
) -> (r: Vec<String>)
    ensures
        r@.len() == 24,
        text::strings(r@) == edge_row(
            t_ms,
            kind,
            device_id,
            hid@,
            analog@,
            match thresholds {
                Some((d, u)) => Some((d@, u@)),
                None => None,
            },
        ),
{
    let mut row: Vec<String> = csv::blank_row_of(24);
    csv::put(&mut row, 0, text::decimal_of(t_ms));
    csv::put(&mut row, 2, text::text_of("EDGE"));
    csv::put(&mut row, 3, text::text_of(kind.name()));
    csv::put(&mut row, 4, text::decimal_of(device_id));
    csv::put(&mut row, 5, text::text_of(hid));
    csv::put(&mut row, 6, text::text_of(analog));
    match thresholds {
        Some((down, up)) => {
            csv::put(&mut row, 18, down);
            csv::put(&mut row, 19, up);
        },
        None => {},
    }
    row
}

/// The row of a message that was sent.
pub fn sent_row_of(
    t_ms: u64,
    event: &str,
    kind: &str,
    device_id: u64,
    hid: &str,
    ch: u8,
    note: u8,
    vel: Option<u8>,
    pressure: Option<u8>,
) -> (r: Vec<String>)
    ensures
        r@.len() == 24,
        text::strings(r@) == sent_row(
            t_ms,
            event@,
            kind@,
            device_id,
            hid@,
            ch,
            note,
            vel,
            pressure,
        ),
{
    let mut row: Vec<String> = csv::blank_row_of(24);
    csv::put(&mut row, 0, text::decimal_of(t_ms));
    csv::put(&mut row, 2, text::text_of(event));
    csv::put(&mut row, 3, text::text_of(kind));
    csv::put(&mut row, 4, text::decimal_of(device_id));
    csv::put(&mut row, 5, text::text_of(hid));
    csv::put(&mut row, 13, text::decimal_of(ch as u64));
    csv::put(&mut row, 14, text::decimal_of(note as u64));
    csv::put(&mut row, 23, text::text_of(kind));
    match vel {
        Some(v) => {
            csv::put(&mut row, 15, text::decimal_of(v as u64));
        },
        None => {},
    }
    match pressure {
        Some(p) => {
            csv::put(&mut row, 16, text::decimal_of(p as u64));
        },
        None => {},
    }
    row
}

/// The bytes of a record: the time and the device with their low bytes first, the key, a zero
/// and the travel.
pub proof fn records_have_their_parts_in_order(s: Sample)
    ensures
        encode(s).len() == 20,
        encode(s).subrange(0, 8) == bytes::spec_u64_to_le_bytes(s.t_us),
        encode(s).subrange(8, 16) == bytes::spec_u64_to_le_bytes(s.device_id),
        encode(s)[16] == s.hid,
        encode(s)[17] == 0,
        encode(s).subrange(18, 20) == bytes::spec_u16_to_le_bytes(s.analog_q),
{
    bytes::lemma_auto_spec_u64_to_from_le_bytes();
    bytes::lemma_auto_spec_u16_to_from_le_bytes();
    let b = encode(s);
    assert(bytes::spec_u64_to_le_bytes(s.t_us).len() == 8);
    assert(bytes::spec_u64_to_le_bytes(s.device_id).len() == 8);
    assert(bytes::spec_u16_to_le_bytes(s.analog_q).len() == 2);
    assert(b.subrange(0, 8) =~= bytes::spec_u64_to_le_bytes(s.t_us));
    assert(b.subrange(8, 16) =~= bytes::spec_u64_to_le_bytes(s.device_id));
    assert(b.subrange(18, 20) =~= bytes::spec_u16_to_le_bytes(s.analog_q));
}

/// A capture lasts thirty seconds; one that is always on lasts a year of 365 days.
pub proof fn captures_last_half_a_minute()
    ensures
        duration_ms(false) == 30 * 1000,
        duration_ms(true) == 365 * 24 * 60 * 60 * 1000,
{
}

/// The time between two moments is counted in whole milliseconds, or whole microseconds, and
/// is none where the second is earlier.
pub proof fn times_are_whole(start_ns: u64, when_ns: u64)
    ensures
        when_ns >= start_ns ==> {
            &&& ms_between(start_ns, when_ns) * 1_000_000 <= when_ns - start_ns
            &&& when_ns - start_ns < (ms_between(start_ns, when_ns) + 1) * 1_000_000
            &&& us_between(start_ns, when_ns) * 1000 <= when_ns - start_ns
            &&& when_ns - start_ns < (us_between(start_ns, when_ns) + 1) * 1000
        },
        when_ns < start_ns ==> ms_between(start_ns, when_ns) == 0 && us_between(
            start_ns,
            when_ns,
        ) == 0,
{
}

/// The times of a row of the log. The second column is the time since the capture began;
/// where the edge that the row comes from is told and not earlier, the columns behind the
/// thresholds are its time and how much later the row is; the next is the lag: the one that
/// is given, else that delay, else the capture's. No other column changes.
pub proof fn rows_are_timed(
    row: Seq<Seq<char>>,
    start_ns: u64,
    when_ns: u64,
    edge_ns: Option<u64>,
    lag_ms: Option<u64>,
    capture_lag_ms: u64,
    c: int,
)
    requires
        row.len() == 24,
        row[21].len() == 0,
    ensures
        ({
            let out = timed_row(row, start_ns, when_ns, edge_ns, lag_ms, capture_lag_ms);
            let t = ms_between(start_ns, when_ns);
            let from = edge_ns is Some && edge_ns->0 >= start_ns;
            let te = ms_between(start_ns, edge_ns->0);
            &&& out.len() == 24
            &&& out[1] == text::decimal(t)
            &&& 0 <= c < 24 && c != 1 && c != 20 && c != 21 && c != 22 ==> out[c] == row[c]
            &&& !from ==> out[20] == row[20] && out[21] == row[21]
            &&& from ==> out[20] == text::decimal(te)
            &&& from && t >= te ==> out[21] == text::decimal((t - te) as nat)
            &&& from && t < te ==> out[21].len() == 0
            &&& lag_ms is Some ==> out[22] == text::decimal(lag_ms->0 as nat)
            &&& lag_ms is None && from && t >= te ==> out[22] == text::decimal((t - te) as nat)
            &&& lag_ms is None && !(from && t >= te) ==> out[22] == text::decimal(
                capture_lag_ms as nat,
            )
        }),
{
    let t = ms_between(start_ns, when_ns);
    if edge_ns is Some {
        let te = ms_between(start_ns, edge_ns->0);
        if t >= te {
            text::lemma_decimal_is_digits((t - te) as nat);
        }
    }
}

/// The columns of the row of an edge.
pub proof fn edge_rows_have_their_columns(
    t_ms: u64,
    kind: EdgeKind,
    device_id: u64,
    hid: Seq<char>,
    analog: Seq<char>,
    thresholds: Option<(Seq<char>, Seq<char>)>,
    c: int,
)
    ensures
        ({
            let r = edge_row(t_ms, kind, device_id, hid, analog, thresholds);
            &&& r.len() == 24
            &&& r[0] == text::decimal(t_ms as nat)
            &&& r[2] == "EDGE"@
            &&& kind == EdgeKind::Down ==> r[3] == "down"@
            &&& kind == EdgeKind::Update ==> r[3] == "update"@
            &&& kind == EdgeKind::Up ==> r[3] == "up"@
            &&& r[4] == text::decimal(device_id as nat)
            &&& r[5] == hid
            &&& r[6] == analog
            &&& thresholds matches Some((down, up)) ==> r[18] == down && r[19] == up
            &&& thresholds is None ==> r[18].len() == 0 && r[19].len() == 0
            &&& c == 1 || 7 <= c <= 17 || 20 <= c <= 23 ==> r[c].len() == 0
        }),
{
}

/// The columns of the row of a message that was sent.
pub proof fn sent_rows_have_their_columns(
    t_ms: u64,
    event: Seq<char>,
    kind: Seq<char>,
    device_id: u64,
    hid: Seq<char>,
    ch: u8,
    note: u8,
    vel: Option<u8>,
    pressure: Option<u8>,
    c: int,
)
    ensures
        ({
            let r = sent_row(t_ms, event, kind, device_id, hid, ch, note, vel, pressure);
            &&& r.len() == 24
            &&& r[0] == text::decimal(t_ms as nat)
            &&& r[2] == event
            &&& r[3] == kind && r[23] == kind
            &&& r[4] == text::decimal(device_id as nat)
            &&& r[5] == hid
            &&& r[13] == text::decimal(ch as nat)
            &&& r[14] == text::decimal(note as nat)
            &&& vel matches Some(v) ==> r[15] == text::decimal(v as nat)
            &&& vel is None ==> r[15].len() == 0
            &&& pressure matches Some(p) ==> r[16] == text::decimal(p as nat)
            &&& pressure is None ==> r[16].len() == 0
            &&& c == 1 || 6 <= c <= 12 || 17 <= c <= 22 ==> r[c].len() == 0
        }),
{
}

/// A key goes by its name, and one without a name by its code.
pub proof fn keys_go_by_name(names: Seq<Option<Seq<char>>>, code: u8)
    ensures
        code < names.len() && names[code as int] is Some ==> key_label(names, code)
            == names[code as int]->0,
        code >= names.len() || names[code as int] is None ==> key_label(names, code) == "u8_"@
            + text::decimal(code as nat),
{
}

/// The table of samples has a line for each, with the time, the device, the key, the travel
/// as a fraction and the travel as a number, and reads back.
pub proof fn sample_lines_read_back(names: Seq<Option<Seq<char>>>, s: Sample, analog: Seq<char>)
    requires
        !analog.contains(',') && !analog.contains('"') && !analog.contains('\n')
            && !analog.contains('\r'),
    ensures
        csv::read_line(sample_line(names, s, analog)) == seq![
            text::decimal(s.t_us as nat),
            text::decimal(s.device_id as nat),
            key_label(names, s.hid),
            analog,
            text::decimal(s.analog_q as nat),
        ],
{
    let fields = seq![
        text::decimal(s.t_us as nat),
        text::decimal(s.device_id as nat),
        key_label(names, s.hid),
        analog,
        text::decimal(s.analog_q as nat),
    ];
    csv::numbers_are_written_as_they_are(s.t_us as nat);
    csv::numbers_are_written_as_they_are(s.device_id as nat);
    csv::numbers_are_written_as_they_are(s.analog_q as nat);
    csv::plain_fields_are_written_as_they_are(analog);
    let all = csv::all_escaped(fields);
    reveal_with_fuel(text::joined, 6);
    assert(all.drop_first().drop_first().drop_first().drop_first() =~= seq![all[4]]);
    assert(all.drop_first()[0] == all[1]);
    assert(all.drop_first().drop_first()[0] == all[2]);
    assert(all.drop_first().drop_first().drop_first()[0] == all[3]);
    assert(csv::line(fields) =~= sample_line(names, s, analog));
    csv::line_reads_back(fields);
}

/// The table of samples begins with the names of its columns, and then has the samples in
/// order.
pub proof fn samples_are_listed_in_order(
    names: Seq<Option<Seq<char>>>,
    samples: Seq<Sample>,
    analogs: Seq<Seq<char>>,
    i: int,
)
    requires
        0 <= i < samples.len(),
    ensures
        capture_csv_lines(names, samples, analogs).len() == samples.len() + 1,
        capture_csv_lines(names, samples, analogs)[0] == "t_us,device_id,hid,analog,analog_q"@,
        capture_csv_lines(names, samples, analogs)[i + 1] == sample_line(
            names,
            samples[i],
            analogs[i],
        ),
{
}

/// A capture is described by its time stamp, the device that began it, when it began and
/// ended, how long it was to last, its ring and what was lost, each under its name.
pub proof fn captures_are_described(st: CaptureSamplesState, stopped_unix_ms: u64, lock_drops: u64)
    ensures
        ({
            let ls = capture_txt_lines(st, stopped_unix_ms, lock_drops);
            let eq = seq!['='];
            &&& ls.len() == 12
            &&& ls[0] == "timestamp_ms"@ + eq + text::decimal(st.base_ts_ms as nat)
            &&& ls[1] == "trigger_device_id"@ + eq + text::decimal(st.trigger_device_id as nat)
            &&& ls[2] == "start_unix_ms"@ + eq + text::decimal(st.start_unix_ms as nat)
            &&& ls[3] == "stop_unix_ms"@ + eq + text::decimal(stopped_unix_ms as nat)
            &&& ls[4] == "duration_ms_target"@ + eq + text::decimal(
                ms_between(st.start_ns, st.end_ns),
            )
            &&& ls[5] == "ring_bytes"@ + eq + text::decimal(st.ring@.len())
            &&& ls[6] == "rec_bytes"@ + eq + text::decimal(20)
            &&& ls[7] == "write_idx"@ + eq + text::decimal(st.write_idx as nat)
            &&& ls[8] == "wrapped"@ + eq + (if st.wrapped {
                "true"@
            } else {
                "false"@
            })
            &&& ls[9] == "dropped_samples"@ + eq + text::decimal(st.dropped_samples as nat)
            &&& ls[10] == "lock_drops"@ + eq + text::decimal(lock_drops as nat)
            &&& ls[11] == st.cfg_line@
        }),
{
}

/// The log of a capture begins with what is known when it begins.
pub proof fn logs_begin_with_the_capture(
    base_ts_ms: u64,
    trigger_device_id: u64,
    always_on: bool,
    cfg_line: Seq<char>,
)
    ensures
        ({
            let ls = opening_lines(base_ts_ms, trigger_device_id, always_on, cfg_line);
            let eq = seq!['='];
            &&& ls.len() == 5
            &&& ls[0] == "timestamp_ms"@ + eq + text::decimal(base_ts_ms as nat)
            &&& ls[1] == "trigger_device_id"@ + eq + text::decimal(trigger_device_id as nat)
            &&& ls[2] == "start_unix_ms"@ + eq + text::decimal(base_ts_ms as nat)
            &&& always_on ==> ls[3] == "duration_ms_target"@ + eq + "always"@
            &&& !always_on ==> ls[3] == "duration_ms_target"@ + eq + text::decimal(30000)
            &&& ls[4] == cfg_line
        }),
{
}

/// The log is written with its head, when the capture ended and how many rows there are, and
/// then the rows in order under the names of their columns; without a log that is said.
pub proof fn logs_are_written_in_order(
    base_ts_ms: u64,
    stopped_unix_ms: u64,
    ev: CaptureEventsState,
    i: int,
)
    ensures
        ({
            let eq = seq!['='];
            let n = ev.txt_lines@.len() as int;
            let txt = dump_txt_lines(base_ts_ms, stopped_unix_ms, Some(ev));
            let csv_lines = dump_csv_lines(Some(ev));
            let bare = dump_txt_lines(base_ts_ms, stopped_unix_ms, None);
            &&& txt.len() == n + 2
            &&& 0 <= i < n ==> txt[i] == ev.txt_lines@[i]@
            &&& txt[n] == "stop_unix_ms"@ + eq + text::decimal(stopped_unix_ms as nat)
            &&& txt[n + 1] == "events_rows"@ + eq + text::decimal(ev.csv_lines@.len())
            &&& csv_lines.len() == ev.csv_lines@.len() + 1
            &&& csv_lines[0] == event_header()
            &&& 0 <= i < ev.csv_lines@.len() ==> csv_lines[i + 1] == ev.csv_lines@[i]@
            &&& bare.len() == 3
            &&& bare[0] == "timestamp_ms"@ + eq + text::decimal(base_ts_ms as nat)
            &&& bare[1] == "stop_unix_ms"@ + eq + text::decimal(stopped_unix_ms as nat)
            &&& bare[2] == "(no capture dump events)"@
            &&& dump_csv_lines(None).len() == 1
            &&& dump_csv_lines(None)[0] == bare_event_header()
        }),
{
}

/// A sample is taken of each key that is sampled, with its own travel, in the order of their
/// codes.
pub proof fn every_key_is_sampled(
    t_us: u64,
    device_id: u64,
    codes: Seq<u8>,
    travel: Seq<u16>,
    i: int,
)
    requires
        0 <= i < codes.len(),
    ensures
        samples_of(t_us, device_id, codes, travel).len() == codes.len(),
        samples_of(t_us, device_id, codes, travel)[i] == (Sample {
            t_us,
            device_id,
            hid: codes[i],
            analog_q: travel[codes[i] as int],
        }),
{
}

/// A ring is made of records of twenty bytes, one behind the other, and shows the sample of
/// each; its state also tells how many were written and whether all were.
pub proof fn rings_show_their_records(st: CaptureSamplesState, i: int)
    requires
        0 <= i < st.ring@.len() / 20,
    ensures
        st.state().0.len() == st.ring@.len() / 20,
        st.state().0[i] == decode(st.ring@.subrange(20 * i, 20 * i + 20)),
        st.state().1 == st.write_idx,
        st.state().2 == st.wrapped,
{
}

} // verus!
