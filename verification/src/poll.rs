//! From what a keyboard reports of its keys to presses and releases.
//!
//! A level is how far a key is down, as a number that grows with it. Times are
//! nanoseconds since the program began.
use vstd::prelude::*;
use crate::hid::HidNames;
use crate::mask::ActiveMask;
use crate::sorted;
use crate::sorted::Rank;
use crate::table;
use crate::table::{KeySet, Table};

verus! {

/// A key that is missing from the reports for this long counts as released.
pub const MISSING_RELEASE_NS: u64 = 50_000_000;

/// After this long without a report every key counts as released.
pub const POLL_ERR_FAILSAFE_NS: u64 = 250_000_000;

/// What a report says of a key.
#[derive(Debug, Clone, Copy, PartialEq, Eq, Structural)]
pub struct KeyReading {
    pub code: u16,
    pub level: u32,
    /// Whether the key has come up from its highest level by the movement that counts as
    /// a release.
    pub fell: bool,
}

/// The levels at which things happen.
#[derive(Debug, Clone, Copy, PartialEq, Eq, Structural)]
pub struct Thresholds {
    /// Above it, a key goes down.
    pub down: u32,
    /// At it or below, a key that is down comes up.
    pub up: u32,
    /// A key that reached it can be released by movement.
    pub deep: u32,
    /// Above it, a key is touched.
    pub touch: u32,
    /// Whether movement releases keys.
    pub rapid: bool,
}

/// What a poll goes by.
#[derive(Debug, Clone, Copy, PartialEq, Eq, Structural)]
pub struct PollContext {
    pub th: Thresholds,
    pub now_ns: u64,
    /// Whether a capture runs.
    pub capturing: bool,
    /// The keys that are not captured.
    pub skip: ActiveMask,
}

/// What is known of a key.
#[derive(Debug, Clone, Copy)]
pub struct KeyState {
    pub down: bool,
    /// Whether a press was announced and no release yet.
    pub active: bool,
    /// Whether the key was held when the keyboard was first seen and not released since.
    pub suppressed: bool,
    pub last_seen: Option<u64>,
    /// The highest level of this press.
    pub peak: Option<u32>,
}

/// Something that a poll found.
#[derive(Debug, Clone, Copy)]
pub enum PollEvent {
    Down { hid: u8, level: u32 },
    Update { hid: u8, level: u32 },
    Up { hid: u8, level: u32 },
    /// A key went down that was held from the start; no press is announced.
    Suppressed { hid: u8, level: u32 },
    /// A key was released by movement; its release follows, if it was announced.
    Fell { hid: u8, peak: u32, level: u32 },
    /// A key vanished from the reports and counts as released.
    Vanished { hid: u8, missing_ns: u64 },
}

/// A key of which nothing is known.
pub open spec fn idle_key() -> KeyState {
    KeyState { down: false, active: false, suppressed: false, last_seen: None, peak: None }
}

/// The keys of a keyboard of which nothing is known.
pub open spec fn idle_keys() -> Seq<KeyState> {
    Seq::new(256, |c: int| idle_key())
}

/// The highest level of a press, with `level` added.
pub open spec fn peak_with(k: KeyState, level: u32) -> u32 {
    match k.peak {
        Some(p) => if level > p {
            level
        } else {
            p
        },
        None => level,
    }
}

/// Whether the level keeps a key down, or puts it down.
pub open spec fn past_threshold(k: KeyState, level: u32, th: Thresholds) -> bool {
    if k.down {
        level > th.up
    } else {
        level > th.down
    }
}

/// Whether movement releases a key that its level would keep down.
pub open spec fn falls_back(k: KeyState, level: u32, fell: bool, th: Thresholds) -> bool {
    k.down && past_threshold(k, level, th) && th.rapid && peak_with(k, level) >= th.deep && fell
}

/// What a report of a key does to it.
#[derive(Debug, Clone, Copy, PartialEq, Eq, Structural)]
pub enum KeyChange {
    Nothing,
    Suppressed,
    Down,
    Update,
    Up,
    /// A release that was not announced as a press.
    Released,
}

/// What a report of the level `level` does to a key.
pub open spec fn key_change(k: KeyState, level: u32, fell: bool, th: Thresholds) -> KeyChange {
    let is_down = past_threshold(k, level, th) && !falls_back(k, level, fell, th);
    if is_down && !k.down {
        if k.suppressed {
            KeyChange::Suppressed
        } else {
            KeyChange::Down
        }
    } else if !is_down && k.down {
        if k.active {
            KeyChange::Up
        } else {
            KeyChange::Released
        }
    } else if is_down && k.active {
        KeyChange::Update
    } else {
        KeyChange::Nothing
    }
}

/// A key after a report of it.
pub open spec fn key_after(
    k: KeyState,
    level: u32,
    fell: bool,
    th: Thresholds,
    now_ns: u64,
) -> KeyState {
    let seen = KeyState {
        last_seen: Some(now_ns),
        peak: if k.down {
            Some(peak_with(k, level))
        } else {
            k.peak
        },
        ..k
    };
    match key_change(k, level, fell, th) {
        KeyChange::Down => KeyState { down: true, active: true, peak: Some(level), ..seen },
        KeyChange::Suppressed => KeyState { down: true, peak: Some(level), ..seen },
        KeyChange::Up | KeyChange::Released => idle_key(),
        _ => seen,
    }
}

/// What a report of a key gives rise to.
pub open spec fn key_events(
    hid: u8,
    k: KeyState,
    level: u32,
    fell: bool,
    th: Thresholds,
) -> Seq<PollEvent> {
    let head = if falls_back(k, level, fell, th) {
        seq![PollEvent::Fell { hid, peak: peak_with(k, level), level }]
    } else {
        Seq::empty()
    };
    match key_change(k, level, fell, th) {
        KeyChange::Down => head.push(PollEvent::Down { hid, level }),
        KeyChange::Suppressed => head.push(PollEvent::Suppressed { hid, level }),
        KeyChange::Update => head.push(PollEvent::Update { hid, level }),
        KeyChange::Up => head.push(PollEvent::Up { hid, level }),
        _ => head,
    }
}

/// Whether a key is sampled after a report of it, `was` telling whether it was before.
pub open spec fn sampled_after(
    hid: u8,
    k: KeyState,
    level: u32,
    fell: bool,
    cx: PollContext,
    was: bool,
) -> bool {
    match key_change(k, level, fell, cx.th) {
        KeyChange::Down => was || (cx.capturing && !cx.skip.holds(hid)),
        KeyChange::Up | KeyChange::Released => was && !cx.capturing,
        _ => was,
    }
}

/// The keys, which of them are sampled, and what has come of a poll so far.
pub type PollState = (Seq<KeyState>, Seq<bool>, Seq<PollEvent>);

/// Whether a code of a report is a key's.
pub open spec fn known(names: Seq<Option<Seq<char>>>, code: u16) -> bool {
    code <= 255 && code < names.len() && names[code as int] is Some
}

/// A poll after one more reading.
pub open spec fn after_reading(
    names: Seq<Option<Seq<char>>>,
    cx: PollContext,
    st: PollState,
    r: KeyReading,
) -> PollState {
    if known(names, r.code) {
        let c = r.code as int;
        let k = st.0[c];
        (
            st.0.update(c, key_after(k, r.level, r.fell, cx.th, cx.now_ns)),
            st.1.update(c, sampled_after(r.code as u8, k, r.level, r.fell, cx, st.1[c])),
            st.2 + key_events(r.code as u8, k, r.level, r.fell, cx.th),
        )
    } else {
        st
    }
}

/// A poll after the readings of `data`, one after the other.
pub open spec fn after_readings(
    names: Seq<Option<Seq<char>>>,
    cx: PollContext,
    st: PollState,
    data: Seq<KeyReading>,
) -> PollState
    decreases data.len(),
{
    if data.len() == 0 {
        st
    } else {
        after_reading(names, cx, after_readings(names, cx, st, data.drop_last()), data.last())
    }
}

/// Whether the key `code` is among the readings.
pub open spec fn reported(names: Seq<Option<Seq<char>>>, data: Seq<KeyReading>, code: int) -> bool {
    exists|i: int| 0 <= i < data.len() && #[trigger] data[i].code == code && known(names, data[i].code)
}

/// Whether the key `code` is among the readings, and touched.
pub open spec fn touched(
    names: Seq<Option<Seq<char>>>,
    data: Seq<KeyReading>,
    touch: u32,
    code: int,
) -> bool {
    exists|i: int|
        0 <= i < data.len() && #[trigger] data[i].code == code && known(names, data[i].code)
            && data[i].level > touch
}

/// The keys when a keyboard is first seen: what is touched is suppressed.
pub open spec fn first_seen(
    names: Seq<Option<Seq<char>>>,
    keys: Seq<KeyState>,
    data: Seq<KeyReading>,
    touch: u32,
) -> Seq<KeyState> {
    Seq::new(
        keys.len(),
        |c: int| KeyState { suppressed: touched(names, data, touch, c), ..keys[c] },
    )
}

/// Whether a key that is down and not reported has been missing for too long.
pub open spec fn vanishes(k: KeyState, now_ns: u64) -> bool {
    k.last_seen matches Some(t) && now_ns - t >= MISSING_RELEASE_NS
}

/// A poll after the key `code` was looked for.
pub open spec fn after_missing(
    names: Seq<Option<Seq<char>>>,
    cx: PollContext,
    data: Seq<KeyReading>,
    st: PollState,
    code: int,
) -> PollState {
    let k = st.0[code];
    if !k.down || reported(names, data, code) {
        st
    } else if k.last_seen is None {
        (st.0.update(code, KeyState { last_seen: Some(cx.now_ns), ..k }), st.1, st.2)
    } else if !vanishes(k, cx.now_ns) {
        st
    } else if k.active {
        (
            st.0.update(code, idle_key()),
            st.1.update(code, st.1[code] && !(cx.capturing && !cx.skip.holds(code as u8))),
            st.2.push(
                PollEvent::Vanished {
                    hid: code as u8,
                    missing_ns: (cx.now_ns - k.last_seen->Some_0) as u64,
                },
            ),
        )
    } else {
        (st.0.update(code, idle_key()), st.1, st.2)
    }
}

/// A poll after the keys below `n` were looked for.
pub open spec fn after_sweep(
    names: Seq<Option<Seq<char>>>,
    cx: PollContext,
    data: Seq<KeyReading>,
    st: PollState,
    n: int,
) -> PollState
    decreases n,
{
    if n <= 0 {
        st
    } else {
        after_missing(names, cx, data, after_sweep(names, cx, data, st, n - 1), n - 1)
    }
}

/// A whole poll: the readings one after the other, then the keys that are missing.
pub open spec fn polled(
    names: Seq<Option<Seq<char>>>,
    cx: PollContext,
    st: PollState,
    data: Seq<KeyReading>,
) -> PollState {
    after_sweep(names, cx, data, after_readings(names, cx, st, data), 256)
}

/// Which keys a mask holds, by code.
pub open spec fn bits(m: ActiveMask) -> Seq<bool> {
    Seq::new(256, |c: int| m.holds(c as u8))
}

/// The keys of a keyboard.
#[derive(Debug, Clone)]
pub struct DeviceKeys {
    pub keys: Vec<KeyState>,
    /// Whether a report has come in yet.
    pub seen: bool,
    /// Since when no report could be had.
    pub err_since: Option<u64>,
}

/// The keys after reports failed for too long: what was announced is released.
pub open spec fn let_go(keys: Seq<KeyState>) -> Seq<KeyState> {
    keys.map_values(
        |k: KeyState|
            if k.active {
                idle_key()
            } else {
                k
            },
    )
}

/// The codes below `n` of the keys that are announced as pressed, in order.
pub open spec fn active_codes(keys: Seq<KeyState>, n: int) -> Seq<u8>
    decreases n,
{
    if n <= 0 {
        Seq::empty()
    } else if keys[n - 1].active {
        active_codes(keys, n - 1).push((n - 1) as u8)
    } else {
        active_codes(keys, n - 1)
    }
}

fn idle() -> (r: KeyState)
    ensures
        r == idle_key(),
{
    KeyState { down: false, active: false, suppressed: false, last_seen: None, peak: None }
}

impl KeyState {
    /// The highest level of this press, with `level` added.
    pub fn peak_after(&self, level: u32) -> (r: u32)
        ensures
            r == peak_with(*self, level),
    {
        match self.peak {
            Some(p) => if level > p {
                level
            } else {
                p
            },
            None => level,
        }
    }

    fn change(&self, level: u32, fell: bool, th: &Thresholds) -> (r: (KeyChange, bool))
        ensures
            r.0 == key_change(*self, level, fell, *th),
            r.1 == falls_back(*self, level, fell, *th),
    {
        let past: bool = if self.down {
            level > th.up
        } else {
            level > th.down
        };
        let falls: bool = self.down && past && th.rapid && self.peak_after(level) >= th.deep && fell;
        let is_down: bool = past && !falls;
        let change: KeyChange = if is_down && !self.down {
            if self.suppressed {
                KeyChange::Suppressed
            } else {
                KeyChange::Down
            }
        } else if !is_down && self.down {
            if self.active {
                KeyChange::Up
            } else {
                KeyChange::Released
            }
        } else if is_down && self.active {
            KeyChange::Update
        } else {
            KeyChange::Nothing
        };
        (change, falls)
    }
}

fn knows_code(names: &HidNames, code: u16) -> (r: bool)
    ensures
        r == known(names@, code),
{
    code <= 255 && names.knows(code as u8)
}

proof fn lemma_bits_after_set(before: ActiveMask, after: ActiveMask, code: u8, down: bool)
    requires
        forall|c: u8| #[trigger]
            after.holds(c) == (if c == code {
                down
            } else {
                before.holds(c)
            }),
    ensures
        bits(after) == bits(before).update(code as int, down),
{
    assert(bits(after) =~= bits(before).update(code as int, down));
}

impl DeviceKeys {
    pub open spec fn wf(self) -> bool {
        self.keys@.len() == 256
    }

    /// A keyboard of which nothing is known.
    pub fn new() -> (r: Self)
        ensures
            r.wf(),
            r.keys@ == idle_keys(),
            !r.seen,
            r.err_since is None,
    {
        let mut keys: Vec<KeyState> = Vec::new();
        for i in 0..256usize
            invariant
                keys@ =~= Seq::new(i as nat, |c: int| idle_key()),
        {
            keys.push(idle());
        }
        DeviceKeys { keys, seen: false, err_since: None }
    }

    fn suppress_held(&mut self, names: &HidNames, data: &Vec<KeyReading>, touch: u32)
        requires
            old(self).wf(),
        ensures
            final(self).keys@ == first_seen(names@, old(self).keys@, data@, touch),
            *final(self) == (DeviceKeys { keys: final(self).keys, ..*old(self) }),
    {
        let ghost keys0 = self.keys@;
        for i in 0..256usize
            invariant
                self.keys@.len() == 256,
                keys0.len() == 256,
                *self == (DeviceKeys { keys: self.keys, ..*old(self) }),
                forall|c: int|
                    0 <= c < 256 ==> #[trigger] self.keys@[c] == (if c < i {
                        KeyState { suppressed: false, ..keys0[c] }
                    } else {
                        keys0[c]
                    }),
        {
            let k: KeyState = self.keys[i];
            self.keys.set(i, KeyState { suppressed: false, ..k });
        }
        let n: usize = data.len();
        let mut i: usize = 0;
        while i < n
            invariant
                n == data@.len(),
                i <= n,
                self.keys@.len() == 256,
                keys0.len() == 256,
                *self == (DeviceKeys { keys: self.keys, ..*old(self) }),
                forall|c: int|
                    0 <= c < 256 ==> #[trigger] self.keys@[c] == (KeyState {
                        suppressed: touched(names@, data@.take(i as int), touch, c),
                        ..keys0[c]
                    }),
            decreases n - i,
        {
            let r: KeyReading = data[i];
            let ghost head = data@.take(i as int);
            let ghost longer = data@.take(i + 1);
            proof {
                assert forall|c: int| 0 <= c < 256 implies #[trigger] touched(
                    names@,
                    longer,
                    touch,
                    c,
                ) == (touched(names@, head, touch, c) || (r.code == c && known(names@, r.code)
                    && r.level > touch)) by {
                    if touched(names@, head, touch, c) {
                        let j = choose|j: int|
                            0 <= j < head.len() && #[trigger] head[j].code == c && known(
                                names@,
                                head[j].code,
                            ) && head[j].level > touch;
                        assert(longer[j].code == c);
                    }
                    if r.code == c && known(names@, r.code) && r.level > touch {
                        assert(longer[i as int].code == c);
                    }
                    if touched(names@, longer, touch, c) {
                        let j = choose|j: int|
                            0 <= j < longer.len() && #[trigger] longer[j].code == c && known(
                                names@,
                                longer[j].code,
                            ) && longer[j].level > touch;
                        if j < i {
                            assert(head[j].code == c);
                        }
                    }
                }
            }
            if knows_code(names, r.code) && r.level > touch {
                let k: KeyState = self.keys[r.code as usize];
                self.keys.set(r.code as usize, KeyState { suppressed: true, ..k });
            }
            i += 1;
        }
        assert(data@.take(n as int) =~= data@);
        assert(self.keys@ =~= first_seen(names@, keys0, data@, touch));
    }

    fn read_key(
        &mut self,
        names: &HidNames,
        cx: &PollContext,
        r: &KeyReading,
        mask: &mut ActiveMask,
        out: &mut Vec<PollEvent>,
    )
        requires
            old(self).wf(),
        ensures
            (final(self).keys@, bits(*final(mask)), final(out)@) == after_reading(
                names@,
                *cx,
                (old(self).keys@, bits(*old(mask)), old(out)@),
                *r,
            ),
            *final(self) == (DeviceKeys { keys: final(self).keys, ..*old(self) }),
    {
        if !knows_code(names, r.code) {
            return;
        }
        let c: usize = r.code as usize;
        let hid: u8 = r.code as u8;
        let k: KeyState = self.keys[c];
        let (change, falls) = k.change(r.level, r.fell, &cx.th);
        let peak: u32 = k.peak_after(r.level);
        let ghost out0 = out@;
        if falls {
            out.push(PollEvent::Fell { hid, peak, level: r.level });
        }
        let seen = KeyState {
            last_seen: Some(cx.now_ns),
            peak: if k.down {
                Some(peak)
            } else {
                k.peak
            },
            ..k
        };
        let ghost bits0 = bits(*mask);
        let ghost mask0 = *mask;
        match change {
            KeyChange::Down => {
                self.keys.set(
                    c,
                    KeyState { down: true, active: true, peak: Some(r.level), ..seen },
                );
                if cx.capturing && !cx.skip.contains(hid) {
                    mask.set(hid, true);
                    proof {
                        lemma_bits_after_set(mask0, *mask, hid, true);
                    }
                }
                out.push(PollEvent::Down { hid, level: r.level });
            },
            KeyChange::Suppressed => {
                self.keys.set(c, KeyState { down: true, peak: Some(r.level), ..seen });
                out.push(PollEvent::Suppressed { hid, level: r.level });
            },
            KeyChange::Up | KeyChange::Released => {
                self.keys.set(c, idle());
                if cx.capturing {
                    mask.set(hid, false);
                    proof {
                        lemma_bits_after_set(mask0, *mask, hid, false);
                    }
                }
                if k.active {
                    out.push(PollEvent::Up { hid, level: r.level });
                }
            },
            KeyChange::Update => {
                self.keys.set(c, seen);
                out.push(PollEvent::Update { hid, level: r.level });
            },
            KeyChange::Nothing => {
                self.keys.set(c, seen);
            },
        }
        proof {
            let st = after_reading(names@, *cx, (old(self).keys@, bits0, out0), *r);
            assert(out@ =~= st.2);
            assert(bits(*mask) =~= st.1);
        }
    }

    fn sweep_key(
        &mut self,
        cx: &PollContext,
        code: usize,
        is_reported: bool,
        mask: &mut ActiveMask,
        out: &mut Vec<PollEvent>,
        names: Ghost<Seq<Option<Seq<char>>>>,
        data: Ghost<Seq<KeyReading>>,
    )
        requires
            old(self).wf(),
            code < 256,
            is_reported == reported(names@, data@, code as int),
        ensures
            (final(self).keys@, bits(*final(mask)), final(out)@) == after_missing(
                names@,
                *cx,
                data@,
                (old(self).keys@, bits(*old(mask)), old(out)@),
                code as int,
            ),
            *final(self) == (DeviceKeys { keys: final(self).keys, ..*old(self) }),
    {
        let k: KeyState = self.keys[code];
        if !k.down || is_reported {
            return;
        }
        let ghost mask0 = *mask;
        match k.last_seen {
            None => {
                self.keys.set(code, KeyState { last_seen: Some(cx.now_ns), ..k });
            },
            Some(t) => {
                if cx.now_ns < t || cx.now_ns - t < MISSING_RELEASE_NS {
                    return;
                }
                self.keys.set(code, idle());
                if k.active {
                    out.push(
                        PollEvent::Vanished { hid: code as u8, missing_ns: cx.now_ns - t },
                    );
                    if cx.capturing && !cx.skip.contains(code as u8) {
                        mask.set(code as u8, false);
                        proof {
                            lemma_bits_after_set(mask0, *mask, code as u8, false);
                        }
                    }
                    proof {
                        assert(bits(mask0).update(code as int, bits(mask0)[code as int]) =~= bits(
                            mask0,
                        ));
                    }
                }
            },
        }
    }

    /// Takes in the readings of a report: what was pressed, moved or released, in the
    /// order of the readings, and then what vanished. `mask` holds the keys that are
    /// sampled.
    pub fn poll(
        &mut self,
        names: &HidNames,
        cx: &PollContext,
        data: &Vec<KeyReading>,
        mask: &mut ActiveMask,
    ) -> (r: Vec<PollEvent>)
        requires
            old(self).wf(),
        ensures
            final(self).wf(),
            final(self).seen,
            final(self).err_since is None,
            (final(self).keys@, bits(*final(mask)), r@) == polled(
                names@,
                *cx,
                (
                    if old(self).seen {
                        old(self).keys@
                    } else {
                        first_seen(names@, old(self).keys@, data@, cx.th.touch)
                    },
                    bits(*old(mask)),
                    Seq::empty(),
                ),
                data@,
            ),
    {
        self.err_since = None;
        if !self.seen {
            self.seen = true;
            self.suppress_held(names, data, cx.th.touch);
        }
        let mut out: Vec<PollEvent> = Vec::new();
        let ghost st0 = (self.keys@, bits(*mask), out@);
        let n: usize = data.len();
        let mut found: Vec<bool> = vec![false; 256];
        assert(data@.take(0) =~= Seq::empty());
        let mut i: usize = 0;
        while i < n
            invariant
                n == data@.len(),
                i <= n,
                self.wf(),
                self.seen,
                self.err_since is None,
                found@.len() == 256,
                forall|c: int|
                    0 <= c < 256 ==> #[trigger] found@[c] == reported(
                        names@,
                        data@.take(i as int),
                        c,
                    ),
                (self.keys@, bits(*mask), out@) == after_readings(
                    names@,
                    *cx,
                    st0,
                    data@.take(i as int),
                ),
            decreases n - i,
        {
            let r: KeyReading = data[i];
            let ghost head = data@.take(i as int);
            let ghost longer = data@.take(i + 1);
            assert(longer.drop_last() =~= head);
            self.read_key(names, cx, &r, mask, &mut out);
            proof {
                assert forall|c: int| 0 <= c < 256 implies #[trigger] reported(names@, longer, c)
                    == (reported(names@, head, c) || (r.code == c && known(names@, r.code))) by {
                    if reported(names@, head, c) {
                        let j = choose|j: int|
                            0 <= j < head.len() && #[trigger] head[j].code == c && known(
                                names@,
                                head[j].code,
                            );
                        assert(longer[j].code == c);
                    }
                    if r.code == c && known(names@, r.code) {
                        assert(longer[i as int].code == c);
                    }
                    if reported(names@, longer, c) {
                        let j = choose|j: int|
                            0 <= j < longer.len() && #[trigger] longer[j].code == c && known(
                                names@,
                                longer[j].code,
                            );
                        if j < i {
                            assert(head[j].code == c);
                        }
                    }
                }
            }
            if knows_code(names, r.code) {
                found.set(r.code as usize, true);
            }
            i += 1;
        }
        assert(data@.take(n as int) =~= data@);
        let ghost st1 = (self.keys@, bits(*mask), out@);
        let mut c: usize = 0;
        while c < 256
            invariant
                c <= 256,
                self.wf(),
                self.seen,
                self.err_since is None,
                found@.len() == 256,
                forall|j: int|
                    0 <= j < 256 ==> #[trigger] found@[j] == reported(names@, data@, j),
                (self.keys@, bits(*mask), out@) == after_sweep(names@, *cx, data@, st1, c as int),
            decreases 256 - c,
        {
            self.sweep_key(cx, c, found[c], mask, &mut out, Ghost(names@), Ghost(data@));
            c += 1;
        }
        out
    }

    /// Takes in that no report could be had, at `failed_ns`, in a poll that began at
    /// `now_ns`. Once that has gone on for too long, every key that is announced as
    /// pressed is let go, and the wait begins anew: the codes of those keys are returned.
    pub fn poll_failed(&mut self, now_ns: u64, failed_ns: u64) -> (r: Option<Vec<u8>>)
        requires
            old(self).wf(),
        ensures
            final(self).wf(),
            final(self).seen == old(self).seen,
            ({
                let since = match old(self).err_since {
                    Some(t) => t,
                    None => now_ns,
                };
                if failed_ns - since >= 250_000_000 {
                    &&& r is Some
                    &&& r->Some_0@ == active_codes(old(self).keys@, 256)
                    &&& final(self).keys@ == let_go(old(self).keys@)
                    &&& final(self).err_since == Some(now_ns)
                } else {
                    &&& r is None
                    &&& final(self).keys@ == old(self).keys@
                    &&& final(self).err_since == Some(since)
                }
            }),
    {
        let since: u64 = match self.err_since {
            Some(t) => t,
            None => now_ns,
        };
        if failed_ns < since || failed_ns - since < POLL_ERR_FAILSAFE_NS {
            self.err_since = Some(since);
            return None;
        }
        let ghost keys0 = self.keys@;
        let mut out: Vec<u8> = Vec::new();
        let mut c: usize = 0;
        while c < 256
            invariant
                c <= 256,
                self.wf(),
                self.seen == old(self).seen,
                keys0.len() == 256,
                out@ == active_codes(keys0, c as int),
                forall|j: int|
                    0 <= j < 256 ==> #[trigger] self.keys@[j] == (if j < c && keys0[j].active {
                        idle_key()
                    } else {
                        keys0[j]
                    }),
            decreases 256 - c,
        {
            if self.keys[c].active {
                self.keys.set(c, idle());
                out.push(c as u8);
            }
            c += 1;
        }
        assert(self.keys@ =~= let_go(keys0));
        self.err_since = Some(now_ns);
        Some(out)
    }
}

/// A keyboard of which nothing is known.
pub open spec fn is_fresh(d: DeviceKeys) -> bool {
    d.keys@ == idle_keys() && !d.seen && d.err_since is None
}

/// Those of `connected` that are configured.
pub open spec fn wanted(connected: Seq<u64>, configured: Set<u64>) -> Seq<u64>
    decreases connected.len(),
{
    if connected.len() == 0 {
        Seq::empty()
    } else if configured.contains(connected.last()) {
        wanted(connected.drop_last(), configured).push(connected.last())
    } else {
        wanted(connected.drop_last(), configured)
    }
}

/// The keyboards that are polled.
#[derive(Debug, Clone)]
pub struct Poller {
    pub ids: Vec<u64>,
    pub devices: Table<u64, DeviceKeys>,
}

impl Poller {
    /// What is known of exactly the keyboards that are polled.
    pub open spec fn wf(self) -> bool {
        &&& table::distinct_keys(self.devices.entries@)
        &&& forall|id: u64| #[trigger]
            self.devices@.contains_key(id) <==> self.ids@.contains(id)
        &&& forall|id: u64| #[trigger] self.devices@.contains_key(id) ==> self.devices@[id].wf()
    }

    pub fn new() -> (r: Self)
        ensures
            r.wf(),
            r.ids@.len() == 0,
    {
        Poller { ids: Vec::new(), devices: Table::new() }
    }

    /// Polls the keyboards that are connected and configured, from the lowest number up.
    /// What is known of those that were polled before is kept; the others are forgotten.
    pub fn refresh(&mut self, connected: &Vec<u64>, configured: &KeySet<u64>)
        requires
            old(self).wf(),
        ensures
            final(self).wf(),
            sorted::ascending(final(self).ids@),
            forall|i: int, j: int|
                0 <= i < j < final(self).ids@.len() ==> final(self).ids@[i] <= final(self).ids@[j],
            final(self).ids@.to_multiset() == wanted(connected@, configured@).to_multiset(),
            forall|id: u64| #[trigger]
                final(self).devices@.contains_key(id) ==> if old(self).devices@.contains_key(id) {
                    final(self).devices@[id] == old(self).devices@[id]
                } else {
                    is_fresh(final(self).devices@[id])
                },
    {
        let mut keep: Vec<u64> = Vec::new();
        assert(connected@.take(0) =~= Seq::empty());
        for i in 0..connected.len()
            invariant
                keep@ == wanted(connected@.take(i as int), configured@),
        {
            assert(connected@.take(i + 1).drop_last() =~= connected@.take(i as int));
            if configured.contains(connected[i]) {
                keep.push(connected[i]);
            }
        }
        assert(connected@.take(connected@.len() as int) =~= connected@);
        let ids: Vec<u64> = sorted::sort(&keep);
        let ghost old_map = self.devices@;
        let mut devices: Table<u64, DeviceKeys> = Table::new();
        let n: usize = ids.len();
        let mut i: usize = 0;
        while i < n
            invariant
                n == ids@.len(),
                i <= n,
                table::distinct_keys(devices.entries@),
                table::distinct_keys(self.devices.entries@),
                forall|id: u64| #[trigger] old_map.contains_key(id) ==> old_map[id].wf(),
                forall|id: u64| #[trigger]
                    devices@.contains_key(id) <==> ids@.take(i as int).contains(id),
                forall|id: u64| #[trigger]
                    devices@.contains_key(id) ==> devices@[id].wf() && if old_map.contains_key(id) {
                        devices@[id] == old_map[id]
                    } else {
                        is_fresh(devices@[id])
                    },
                forall|id: u64|
                    old_map.contains_key(id) && !#[trigger] devices@.contains_key(id)
                        ==> self.devices@.contains_key(id) && self.devices@[id] == old_map[id],
                forall|id: u64| #[trigger] self.devices@.contains_key(id) ==> old_map.contains_key(
                    id,
                ) && self.devices@[id] == old_map[id],
            decreases n - i,
        {
            let id: u64 = ids[i];
            let ghost head = ids@.take(i as int);
            let ghost longer = ids@.take(i + 1);
            proof {
                assert(longer =~= head.push(id));
                assert forall|x: u64| longer.contains(x) <==> (head.contains(x) || x == id) by {
                    if head.contains(x) {
                        let j = choose|j: int| 0 <= j < head.len() && head[j] == x;
                        assert(longer[j] == x);
                    }
                    if x == id {
                        assert(longer[i as int] == x);
                    }
                }
            }
            if !devices.contains(id) {
                match self.devices.take(id) {
                    Some(d) => {
                        devices.insert(id, d);
                    },
                    None => {
                        devices.insert(id, DeviceKeys::new());
                    },
                }
            }
            i += 1;
        }
        assert(ids@.take(n as int) =~= ids@);
        proof {
            assert forall|a: int, b: int| 0 <= a < b < ids@.len() implies ids@[a] <= ids@[b] by {
                assert(ids@[a].rank() <= ids@[b].rank());
            }
        }
        self.ids = ids;
        self.devices = devices;
    }
}

/// The key that an event is about.
pub open spec fn key_of(e: PollEvent) -> u8 {
    match e {
        PollEvent::Down { hid, .. } => hid,
        PollEvent::Update { hid, .. } => hid,
        PollEvent::Up { hid, .. } => hid,
        PollEvent::Suppressed { hid, .. } => hid,
        PollEvent::Fell { hid, .. } => hid,
        PollEvent::Vanished { hid, .. } => hid,
    }
}

/// Whether the key `c` is announced as pressed after the events, `was` telling whether it
/// was before; `None` where a press comes on a press, or a release or a movement on none.
pub open spec fn plays(events: Seq<PollEvent>, c: u8, was: bool) -> Option<bool>
    decreases events.len(),
{
    if events.len() == 0 {
        Some(was)
    } else {
        match plays(events.drop_last(), c, was) {
            None => None,
            Some(b) => if key_of(events.last()) != c {
                Some(b)
            } else {
                match events.last() {
                    PollEvent::Down { .. } => if b {
                        None
                    } else {
                        Some(true)
                    },
                    PollEvent::Update { .. } => if b {
                        Some(true)
                    } else {
                        None
                    },
                    PollEvent::Up { .. } | PollEvent::Vanished { .. } => if b {
                        Some(false)
                    } else {
                        None
                    },
                    _ => Some(b),
                }
            },
        }
    }
}

/// What holds of every key: one that is announced as pressed is down, and was not held
/// from the start.
pub open spec fn key_ok(k: KeyState) -> bool {
    k.active ==> k.down && !k.suppressed
}

/// What holds of all keys of a keyboard.
pub open spec fn keys_ok(keys: Seq<KeyState>) -> bool {
    keys.len() == 256 && forall|c: int| 0 <= c < 256 ==> key_ok(#[trigger] keys[c])
}

proof fn lemma_plays_push(events: Seq<PollEvent>, e: PollEvent, c: u8, was: bool)
    ensures
        plays(events.push(e), c, was) == match plays(events, c, was) {
            None => None::<bool>,
            Some(b) => plays(seq![e], c, b),
        },
{
    assert(events.push(e).drop_last() =~= events);
    match plays(events, c, was) {
        Some(b) => {
            assert(seq![e].drop_last() =~= Seq::empty());
            assert(plays(seq![e].drop_last(), c, b) == Some(b));
        },
        None => {},
    }
}

spec fn poll_ok(st: PollState, c: u8, was: bool) -> bool {
    keys_ok(st.0) && st.1.len() == 256 && plays(st.2, c, was) == Some(st.0[c as int].active)
}

proof fn lemma_reading_plays(
    names: Seq<Option<Seq<char>>>,
    cx: PollContext,
    st: PollState,
    r: KeyReading,
    c: u8,
    was: bool,
)
    requires
        poll_ok(st, c, was),
    ensures
        poll_ok(after_reading(names, cx, st, r), c, was),
{
    if known(names, r.code) {
        let hid = r.code as u8;
        let k = st.0[r.code as int];
        assert(key_ok(k));
        let fell = PollEvent::Fell { hid, peak: peak_with(k, r.level), level: r.level };
        let head = if falls_back(k, r.level, r.fell, cx.th) {
            seq![fell]
        } else {
            Seq::empty()
        };
        let mid = st.2 + head;
        if falls_back(k, r.level, r.fell, cx.th) {
            assert(mid =~= st.2.push(fell));
            lemma_plays_push(st.2, fell, c, was);
            lemma_plays_one(fell, c, st.0[c as int].active);
        } else {
            assert(mid =~= st.2);
        }
        let last = match key_change(k, r.level, r.fell, cx.th) {
            KeyChange::Down => Some(PollEvent::Down { hid, level: r.level }),
            KeyChange::Suppressed => Some(PollEvent::Suppressed { hid, level: r.level }),
            KeyChange::Update => Some(PollEvent::Update { hid, level: r.level }),
            KeyChange::Up => Some(PollEvent::Up { hid, level: r.level }),
            _ => None,
        };
        let out = after_reading(names, cx, st, r).2;
        match last {
            Some(e) => {
                assert(out =~= mid.push(e));
                lemma_plays_push(mid, e, c, was);
                lemma_plays_one(e, c, st.0[c as int].active);
            },
            None => {
                assert(out =~= mid);
            },
        }
    }
}

proof fn lemma_plays_one(e: PollEvent, c: u8, b: bool)
    ensures
        plays(seq![e], c, b) == (if key_of(e) != c {
            Some(b)
        } else {
            match e {
                PollEvent::Down { .. } => if b {
                    None
                } else {
                    Some(true)
                },
                PollEvent::Update { .. } => if b {
                    Some(true)
                } else {
                    None
                },
                PollEvent::Up { .. } | PollEvent::Vanished { .. } => if b {
                    Some(false)
                } else {
                    None
                },
                _ => Some(b),
            }
        }),
{
    assert(seq![e].drop_last() =~= Seq::empty());
    assert(plays(seq![e].drop_last(), c, b) == Some(b));
}

proof fn lemma_readings_play(
    names: Seq<Option<Seq<char>>>,
    cx: PollContext,
    st: PollState,
    data: Seq<KeyReading>,
    c: u8,
    was: bool,
)
    requires
        poll_ok(st, c, was),
    ensures
        poll_ok(after_readings(names, cx, st, data), c, was),
    decreases data.len(),
{
    if data.len() > 0 {
        lemma_readings_play(names, cx, st, data.drop_last(), c, was);
        lemma_reading_plays(
            names,
            cx,
            after_readings(names, cx, st, data.drop_last()),
            data.last(),
            c,
            was,
        );
    }
}

proof fn lemma_sweep_plays(
    names: Seq<Option<Seq<char>>>,
    cx: PollContext,
    data: Seq<KeyReading>,
    st: PollState,
    n: int,
    c: u8,
    was: bool,
)
    requires
        poll_ok(st, c, was),
        n <= 256,
    ensures
        poll_ok(after_sweep(names, cx, data, st, n), c, was),
    decreases n,
{
    if n > 0 {
        lemma_sweep_plays(names, cx, data, st, n - 1, c, was);
        let before = after_sweep(names, cx, data, st, n - 1);
        let after = after_missing(names, cx, data, before, n - 1);
        let k = before.0[n - 1];
        assert(key_ok(k));
        if after.2 != before.2 {
            let e = after.2.last();
            lemma_plays_push(before.2, e, c, was);
            lemma_plays_one(e, c, before.0[c as int].active);
        }
    }
}

/// Presses and releases of a key take turns: a poll announces a press only of a key that
/// is not announced as pressed, and a movement or a release only of one that is. What
/// holds of the keys goes on holding.
pub proof fn presses_and_releases_take_turns(
    names: Seq<Option<Seq<char>>>,
    cx: PollContext,
    keys: Seq<KeyState>,
    sampled: Seq<bool>,
    data: Seq<KeyReading>,
    c: u8,
)
    requires
        keys_ok(keys),
        sampled.len() == 256,
    ensures
        keys_ok(polled(names, cx, (keys, sampled, Seq::empty()), data).0),
        plays(
            polled(names, cx, (keys, sampled, Seq::empty()), data).2,
            c,
            keys[c as int].active,
        ) == Some(polled(names, cx, (keys, sampled, Seq::empty()), data).0[c as int].active),
{
    let st = (keys, sampled, Seq::<PollEvent>::empty());
    let was = keys[c as int].active;
    lemma_readings_play(names, cx, st, data, c, was);
    lemma_sweep_plays(names, cx, data, after_readings(names, cx, st, data), 256, c, was);
}

/// A keyboard that is first seen has no key announced as pressed, and what holds of the
/// keys holds of it.
pub proof fn first_sight_announces_nothing(
    names: Seq<Option<Seq<char>>>,
    data: Seq<KeyReading>,
    touch: u32,
)
    ensures
        keys_ok(first_seen(names, idle_keys(), data, touch)),
        forall|c: int|
            0 <= c < 256 ==> !(#[trigger] first_seen(names, idle_keys(), data, touch)[c]).active,
{
}

/// A key that was held from the start is not announced before it has been released.
pub proof fn held_keys_stay_silent(k: KeyState, level: u32, fell: bool, th: Thresholds, now_ns: u64)
    requires
        key_ok(k),
        k.suppressed,
    ensures
        !key_after(k, level, fell, th, now_ns).active,
        key_change(k, level, fell, th) != KeyChange::Down,
        key_change(k, level, fell, th) != KeyChange::Update,
        key_change(k, level, fell, th) != KeyChange::Up,
        !key_after(k, level, fell, th, now_ns).suppressed ==> k.down && !key_after(
            k,
            level,
            fell,
            th,
            now_ns,
        ).down,
{
}

/// Between the two thresholds a key stays as it is, unless movement releases it.
pub proof fn noise_changes_nothing(k: KeyState, level: u32, th: Thresholds, now_ns: u64)
    requires
        th.up < level <= th.down,
    ensures
        key_after(k, level, false, th, now_ns).down == k.down,
        key_after(k, level, false, th, now_ns).active == k.active,
{
}

/// After reports have failed for too long no key is announced as pressed, and those that
/// were are the ones let go.
pub proof fn failsafe_lets_go(keys: Seq<KeyState>, c: u8)
    requires
        keys_ok(keys),
    ensures
        keys_ok(let_go(keys)),
        !let_go(keys)[c as int].active,
        active_codes(keys, 256).contains(c) <==> keys[c as int].active,
{
    lemma_active_codes(keys, 256, c);
}

proof fn lemma_active_codes(keys: Seq<KeyState>, n: int, c: u8)
    requires
        keys.len() == 256,
        0 <= n <= 256,
    ensures
        active_codes(keys, n).contains(c) <==> (c < n && keys[c as int].active),
    decreases n,
{
    if n > 0 {
        lemma_active_codes(keys, n - 1, c);
        let before = active_codes(keys, n - 1);
        let after = active_codes(keys, n);
        if before.contains(c) {
            let i = choose|i: int| 0 <= i < before.len() && before[i] == c;
            assert(after[i] == c);
        }
        if c == n - 1 && keys[c as int].active {
            assert(after[before.len() as int] == c);
        }
        if after.contains(c) {
            let i = choose|i: int| 0 <= i < after.len() && after[i] == c;
            if i < before.len() {
                assert(before[i] == c);
            }
        }
    }
}

/// The events that are about the key `c`, in order.
pub open spec fn of_key(events: Seq<PollEvent>, c: u8) -> Seq<PollEvent>
    decreases events.len(),
{
    if events.len() == 0 {
        Seq::empty()
    } else if key_of(events.last()) == c {
        of_key(events.drop_last(), c).push(events.last())
    } else {
        of_key(events.drop_last(), c)
    }
}

proof fn lemma_of_key_push(events: Seq<PollEvent>, e: PollEvent, c: u8)
    ensures
        of_key(events.push(e), c) == (if key_of(e) == c {
            of_key(events, c).push(e)
        } else {
            of_key(events, c)
        }),
{
    assert(events.push(e).drop_last() =~= events);
}

proof fn lemma_of_key_add(a: Seq<PollEvent>, b: Seq<PollEvent>, c: u8)
    ensures
        of_key(a + b, c) == of_key(a, c) + of_key(b, c),
    decreases b.len(),
{
    if b.len() == 0 {
        assert(a + b =~= a);
        assert(of_key(a, c) + of_key(b, c) =~= of_key(a, c));
    } else {
        assert((a + b).drop_last() =~= a + b.drop_last());
        lemma_of_key_add(a, b.drop_last(), c);
        assert(of_key(a + b, c) =~= of_key(a, c) + of_key(b, c));
    }
}

proof fn lemma_of_key_all(events: Seq<PollEvent>, c: u8)
    ensures
        (forall|i: int| 0 <= i < events.len() ==> key_of(#[trigger] events[i]) == c) ==> of_key(
            events,
            c,
        ) == events,
        (forall|i: int| 0 <= i < events.len() ==> key_of(#[trigger] events[i]) != c) ==> of_key(
            events,
            c,
        ) == Seq::<PollEvent>::empty(),
    decreases events.len(),
{
    if events.len() > 0 {
        let front = events.drop_last();
        lemma_of_key_all(front, c);
        if forall|i: int| 0 <= i < events.len() ==> key_of(#[trigger] events[i]) == c {
            assert forall|i: int| 0 <= i < front.len() implies key_of(#[trigger] front[i]) == c by {
                assert(front[i] == events[i]);
            }
            assert(key_of(events[events.len() - 1]) == c);
            assert(front.push(events.last()) =~= events);
        }
        if forall|i: int| 0 <= i < events.len() ==> key_of(#[trigger] events[i]) != c {
            assert forall|i: int| 0 <= i < front.len() implies key_of(#[trigger] front[i]) != c by {
                assert(front[i] == events[i]);
            }
            assert(key_of(events[events.len() - 1]) != c);
        }
    }
}

proof fn lemma_key_events_are_of_the_key(hid: u8, k: KeyState, r: KeyReading, th: Thresholds, c: u8)
    ensures
        of_key(key_events(hid, k, r.level, r.fell, th), c) == (if hid == c {
            key_events(hid, k, r.level, r.fell, th)
        } else {
            Seq::empty()
        }),
{
    let ev = key_events(hid, k, r.level, r.fell, th);
    assert forall|i: int| 0 <= i < ev.len() implies key_of(#[trigger] ev[i]) == hid by {}
    lemma_of_key_all(ev, c);
}

proof fn lemma_other_readings(
    names: Seq<Option<Seq<char>>>,
    cx: PollContext,
    st: PollState,
    data: Seq<KeyReading>,
    c: u8,
)
    requires
        st.0.len() == 256,
        st.1.len() == 256,
        !reported(names, data, c as int),
    ensures
        ({
            let after = after_readings(names, cx, st, data);
            &&& after.0.len() == 256
            &&& after.1.len() == 256
            &&& after.0[c as int] == st.0[c as int]
            &&& after.1[c as int] == st.1[c as int]
            &&& of_key(after.2, c) == of_key(st.2, c)
        }),
    decreases data.len(),
{
    if data.len() > 0 {
        let front = data.drop_last();
        let r = data.last();
        assert(!reported(names, front, c as int)) by {
            if reported(names, front, c as int) {
                let i = choose|i: int|
                    0 <= i < front.len() && #[trigger] front[i].code == c as int && known(
                        names,
                        front[i].code,
                    );
                assert(data[i].code == c as int && known(names, data[i].code));
            }
        }
        lemma_other_readings(names, cx, st, front, c);
        let mid = after_readings(names, cx, st, front);
        if known(names, r.code) {
            assert(data[data.len() - 1].code != c as int);
            let k = mid.0[r.code as int];
            lemma_key_events_are_of_the_key(r.code as u8, k, r, cx.th, c);
            lemma_of_key_add(mid.2, key_events(r.code as u8, k, r.level, r.fell, cx.th), c);
            assert(of_key(mid.2, c) + Seq::<PollEvent>::empty() =~= of_key(mid.2, c));
        }
    }
}

proof fn lemma_one_reading(
    names: Seq<Option<Seq<char>>>,
    cx: PollContext,
    st: PollState,
    data: Seq<KeyReading>,
    i: int,
    c: u8,
)
    requires
        st.0.len() == 256,
        st.1.len() == 256,
        0 <= i < data.len(),
        data[i].code == c,
        known(names, data[i].code),
        forall|j: int| 0 <= j < data.len() && j != i ==> (#[trigger] data[j]).code != c,
    ensures
        ({
            let after = after_readings(names, cx, st, data);
            let k = st.0[c as int];
            let r = data[i];
            &&& after.0.len() == 256
            &&& after.1.len() == 256
            &&& after.0[c as int] == key_after(k, r.level, r.fell, cx.th, cx.now_ns)
            &&& after.1[c as int] == sampled_after(
                c,
                k,
                r.level,
                r.fell,
                cx,
                st.1[c as int],
            )
            &&& of_key(after.2, c) == of_key(st.2, c) + key_events(c, k, r.level, r.fell, cx.th)
        }),
    decreases data.len(),
{
    let front = data.drop_last();
    let last = data.last();
    let mid = after_readings(names, cx, st, front);
    if i == data.len() - 1 {
        assert(!reported(names, front, c as int)) by {
            if reported(names, front, c as int) {
                let j = choose|j: int|
                    0 <= j < front.len() && #[trigger] front[j].code == c as int && known(
                        names,
                        front[j].code,
                    );
                assert(data[j].code == c);
            }
        }
        lemma_other_readings(names, cx, st, front, c);
        let k = mid.0[c as int];
        lemma_key_events_are_of_the_key(c, k, last, cx.th, c);
        lemma_of_key_add(mid.2, key_events(c, k, last.level, last.fell, cx.th), c);
    } else {
        assert(front[i] == data[i]);
        assert forall|j: int| 0 <= j < front.len() && j != i implies (#[trigger] front[j]).code
            != c by {
            assert(front[j] == data[j]);
        }
        lemma_one_reading(names, cx, st, front, i, c);
        assert(data[data.len() - 1].code != c);
        if known(names, last.code) {
            let k = mid.0[last.code as int];
            lemma_key_events_are_of_the_key(last.code as u8, k, last, cx.th, c);
            lemma_of_key_add(
                mid.2,
                key_events(last.code as u8, k, last.level, last.fell, cx.th),
                c,
            );
            assert(of_key(mid.2, c) + Seq::<PollEvent>::empty() =~= of_key(mid.2, c));
        }
    }
}

proof fn lemma_sweep_of_others(
    names: Seq<Option<Seq<char>>>,
    cx: PollContext,
    data: Seq<KeyReading>,
    st: PollState,
    n: int,
    c: u8,
)
    requires
        st.0.len() == 256,
        st.1.len() == 256,
        0 <= n <= 256,
    ensures
        ({
            let after = after_sweep(names, cx, data, st, n);
            let one = after_missing(names, cx, data, (st.0, st.1, of_key(st.2, c)), c as int);
            &&& after.0.len() == 256
            &&& after.1.len() == 256
            &&& c < n ==> after.0[c as int] == one.0[c as int] && after.1[c as int]
                == one.1[c as int] && of_key(after.2, c) == one.2
            &&& c >= n ==> after.0[c as int] == st.0[c as int] && after.1[c as int]
                == st.1[c as int] && of_key(after.2, c) == of_key(st.2, c)
        }),
    decreases n,
{
    if n > 0 {
        lemma_sweep_of_others(names, cx, data, st, n - 1, c);
        let before = after_sweep(names, cx, data, st, n - 1);
        let after = after_missing(names, cx, data, before, n - 1);
        let k = before.0[n - 1];
        if k.down && !reported(names, data, n - 1) && k.last_seen is Some && vanishes(
            k,
            cx.now_ns,
        ) && k.active {
            lemma_of_key_push(before.2, after.2.last(), c);
        }
    }
}

/// A key that no reading of a report names, whatever other keys the report names. While it
/// is down it is released once it was last seen 50 ms ago or longer; that is announced
/// exactly once, if its press was. Before that, and while it is not down, nothing comes of
/// it.
pub proof fn missing_keys_are_released(
    names: Seq<Option<Seq<char>>>,
    cx: PollContext,
    keys: Seq<KeyState>,
    sampled: Seq<bool>,
    data: Seq<KeyReading>,
    c: u8,
)
    requires
        keys.len() == 256,
        sampled.len() == 256,
        forall|i: int|
            0 <= i < data.len() ==> (#[trigger] data[i]).code != c || c >= names.len()
                || names[c as int] is None,
    ensures
        ({
            let k = keys[c as int];
            let after = polled(names, cx, (keys, sampled, Seq::empty()), data);
            let now = after.0[c as int];
            let events = of_key(after.2, c);
            &&& !k.down ==> now == k && events.len() == 0
            &&& k.down && k.last_seen is None ==> now == (KeyState {
                last_seen: Some(cx.now_ns),
                ..k
            }) && events.len() == 0
            &&& k.down && k.last_seen is Some && cx.now_ns - k.last_seen->0 < 50_000_000 ==> now
                == k && events.len() == 0
            &&& k.down && k.last_seen is Some && cx.now_ns - k.last_seen->0 >= 50_000_000 ==> {
                &&& !now.down && !now.active && !now.suppressed
                &&& now.last_seen is None && now.peak is None
                &&& k.active ==> events == seq![
                    PollEvent::Vanished {
                        hid: c,
                        missing_ns: (cx.now_ns - k.last_seen->0) as u64,
                    },
                ]
                &&& !k.active ==> events.len() == 0
            }
            &&& after.1[c as int] == (sampled[c as int] && !(k.down && k.active && k.last_seen is Some
                && cx.now_ns - k.last_seen->0 >= 50_000_000 && cx.capturing && !cx.skip.holds(c)))
        }),
{
    let st = (keys, sampled, Seq::<PollEvent>::empty());
    assert(!reported(names, data, c as int)) by {
        if reported(names, data, c as int) {
            let i = choose|i: int|
                0 <= i < data.len() && #[trigger] data[i].code == c as int && known(
                    names,
                    data[i].code,
                );
            assert(data[i].code == c);
        }
    }
    lemma_other_readings(names, cx, st, data, c);
    let mid = after_readings(names, cx, st, data);
    lemma_sweep_of_others(names, cx, data, mid, 256, c);
    assert(of_key(st.2, c) =~= Seq::empty());
    let k = keys[c as int];
    if k.down && k.last_seen is Some && cx.now_ns - k.last_seen->0 >= 50_000_000 && k.active {
        let e = PollEvent::Vanished {
            hid: c,
            missing_ns: (cx.now_ns - k.last_seen->0) as u64,
        };
        assert(Seq::<PollEvent>::empty().push(e) =~= seq![e]);
    }
}

/// A key that one reading of a report names, whatever other keys the report names. One that
/// is up goes down above the upper threshold; one that is down stays down above the lower
/// one, unless it has come up from a deep enough peak by the movement that releases. Each
/// change is announced, with the level of the reading, but for keys that were held from the
/// start.
pub proof fn reported_keys_follow_their_level(
    names: Seq<Option<Seq<char>>>,
    cx: PollContext,
    keys: Seq<KeyState>,
    sampled: Seq<bool>,
    data: Seq<KeyReading>,
    i: int,
    c: u8,
)
    requires
        keys.len() == 256,
        sampled.len() == 256,
        0 <= i < data.len(),
        data[i].code == c,
        c < names.len() && names[c as int] is Some,
        forall|j: int| 0 <= j < data.len() && j != i ==> (#[trigger] data[j]).code != c,
    ensures
        ({
            let k = keys[c as int];
            let level = data[i].level;
            let after = polled(names, cx, (keys, sampled, Seq::empty()), data);
            let now = after.0[c as int];
            let events = of_key(after.2, c);
            let top = if k.peak is Some && k.peak->0 > level {
                k.peak->0
            } else {
                level
            };
            let falls = cx.th.rapid && data[i].fell && top >= cx.th.deep;
            &&& !k.down && level <= cx.th.down ==> now == (KeyState {
                last_seen: Some(cx.now_ns),
                ..k
            }) && events.len() == 0 && after.1[c as int] == sampled[c as int]
            &&& !k.down && level > cx.th.down ==> {
                &&& now.down && now.suppressed == k.suppressed
                &&& now.last_seen == Some(cx.now_ns) && now.peak == Some(level)
                &&& now.active == (!k.suppressed || k.active)
                &&& events == seq![
                    if k.suppressed {
                        PollEvent::Suppressed { hid: c, level }
                    } else {
                        PollEvent::Down { hid: c, level }
                    },
                ]
                &&& after.1[c as int] == (sampled[c as int] || (!k.suppressed && cx.capturing
                    && !cx.skip.holds(c)))
            }
            &&& k.down && level > cx.th.up && !falls ==> {
                &&& now == (KeyState { last_seen: Some(cx.now_ns), peak: Some(top), ..k })
                &&& k.active ==> events == seq![PollEvent::Update { hid: c, level }]
                &&& !k.active ==> events.len() == 0
                &&& after.1[c as int] == sampled[c as int]
            }
            &&& k.down && (level <= cx.th.up || falls) ==> {
                &&& !now.down && !now.active && !now.suppressed
                &&& now.last_seen is None && now.peak is None
                &&& after.1[c as int] == (sampled[c as int] && !cx.capturing)
            }
            &&& k.down && level <= cx.th.up ==> if k.active {
                events == seq![PollEvent::Up { hid: c, level }]
            } else {
                events.len() == 0
            }
            &&& k.down && level > cx.th.up && falls ==> if k.active {
                events == seq![
                    PollEvent::Fell { hid: c, peak: top, level },
                    PollEvent::Up { hid: c, level },
                ]
            } else {
                events == seq![PollEvent::Fell { hid: c, peak: top, level }]
            }
        }),
{
    let st = (keys, sampled, Seq::<PollEvent>::empty());
    assert(known(names, data[i].code));
    lemma_one_reading(names, cx, st, data, i, c);
    let mid = after_readings(names, cx, st, data);
    assert(reported(names, data, c as int));
    lemma_sweep_of_others(names, cx, data, mid, 256, c);
    assert(of_key(st.2, c) =~= Seq::empty());
    let k = keys[c as int];
    let r = data[i];
    let ev = key_events(c, k, r.level, r.fell, cx.th);
    assert(of_key(mid.2, c) =~= ev);
    let events = of_key(polled(names, cx, st, data).2, c);
    assert(events == ev);
    let e0 = PollEvent::Up { hid: c, level: r.level };
    let f0 = PollEvent::Fell { hid: c, peak: peak_with(k, r.level), level: r.level };
    assert(seq![f0].push(e0) =~= seq![f0, e0]);
    assert(Seq::<PollEvent>::empty().push(e0) =~= seq![e0]);
    let d0 = PollEvent::Down { hid: c, level: r.level };
    assert(Seq::<PollEvent>::empty().push(d0) =~= seq![d0]);
    let s0 = PollEvent::Suppressed { hid: c, level: r.level };
    assert(Seq::<PollEvent>::empty().push(s0) =~= seq![s0]);
    let u0 = PollEvent::Update { hid: c, level: r.level };
    assert(Seq::<PollEvent>::empty().push(u0) =~= seq![u0]);
}

/// Whether `e` tells of the reading `i`.
spec fn tells_of(data: Seq<KeyReading>, e: PollEvent, i: int) -> bool {
    0 <= i < data.len() && data[i].code == key_of(e) && !(e is Vanished)
}

/// For each event so far a reading that it tells of, in the order of the readings.
spec fn told_in_order(data: Seq<KeyReading>, events: Seq<PollEvent>, from: Seq<int>) -> bool {
    &&& from.len() == events.len()
    &&& forall|p: int| 0 <= p < events.len() ==> tells_of(data, #[trigger] events[p], from[p])
    &&& forall|p: int, q: int| 0 <= p <= q < from.len() ==> #[trigger] from[p] <= #[trigger] from[q]
}

proof fn lemma_told_in_order(
    names: Seq<Option<Seq<char>>>,
    cx: PollContext,
    st: PollState,
    data: Seq<KeyReading>,
) -> (from: Seq<int>)
    requires
        st.2.len() == 0,
    ensures
        told_in_order(data, after_readings(names, cx, st, data).2, from),
    decreases data.len(),
{
    if data.len() == 0 {
        Seq::empty()
    } else {
        let front = data.drop_last();
        let r = data.last();
        let before = lemma_told_in_order(names, cx, st, front);
        let mid = after_readings(names, cx, st, front);
        let all = after_readings(names, cx, st, data).2;
        let more = if known(names, r.code) {
            key_events(r.code as u8, mid.0[r.code as int], r.level, r.fell, cx.th)
        } else {
            Seq::empty()
        };
        let from = before + Seq::new(more.len(), |i: int| data.len() - 1);
        assert(all =~= mid.2 + more);
        assert forall|p: int| 0 <= p < all.len() implies tells_of(
            data,
            #[trigger] all[p],
            from[p],
        ) by {
            if p < mid.2.len() {
                assert(all[p] == mid.2[p]);
                assert(tells_of(front, mid.2[p], before[p]));
            } else {
                assert(all[p] == more[p - mid.2.len()]);
            }
        }
        assert forall|p: int, q: int| 0 <= p <= q < from.len() implies #[trigger] from[p]
            <= #[trigger] from[q] by {
            if p < before.len() {
                assert(tells_of(front, mid.2[p], before[p]));
                if q < before.len() {
                    assert(before[p] <= before[q]);
                }
            }
        }
        from
    }
}

proof fn lemma_sweep_order(
    names: Seq<Option<Seq<char>>>,
    cx: PollContext,
    data: Seq<KeyReading>,
    st: PollState,
    n: int,
)
    requires
        n <= 256,
    ensures
        ({
            let out = after_sweep(names, cx, data, st, n).2;
            &&& st.2.len() <= out.len()
            &&& out.take(st.2.len() as int) == st.2
            &&& forall|p: int|
                st.2.len() <= p < out.len() ==> (#[trigger] out[p]) is Vanished && key_of(out[p])
                    < n
            &&& forall|p: int, q: int|
                st.2.len() <= p < q < out.len() ==> key_of(#[trigger] out[p]) < key_of(
                    #[trigger] out[q],
                )
        }),
    decreases n,
{
    if n > 0 {
        lemma_sweep_order(names, cx, data, st, n - 1);
        let before = after_sweep(names, cx, data, st, n - 1).2;
        let out = after_sweep(names, cx, data, st, n).2;
        if out != before {
            assert(out =~= before.push(out.last()));
            assert(out.take(st.2.len() as int) =~= before.take(st.2.len() as int));
            assert forall|p: int| st.2.len() <= p < out.len() implies (#[trigger] out[p]) is Vanished
                && key_of(out[p]) < n by {
                if p < before.len() {
                    assert(out[p] == before[p]);
                }
            }
            assert forall|p: int, q: int| st.2.len() <= p < q < out.len() implies key_of(
                #[trigger] out[p],
            ) < key_of(#[trigger] out[q]) by {
                assert(out[p] == before[p]);
                if q < before.len() {
                    assert(out[q] == before[q]);
                }
            }
        }
    } else {
        assert(st.2.take(st.2.len() as int) =~= st.2);
    }
}

/// What a poll announces comes in the order of the readings; the keys that vanished come
/// last, from the lowest code up.
pub proof fn events_come_in_order(
    names: Seq<Option<Seq<char>>>,
    cx: PollContext,
    keys: Seq<KeyState>,
    sampled: Seq<bool>,
    data: Seq<KeyReading>,
    p: int,
    q: int,
)
    requires
        0 <= p < q < polled(names, cx, (keys, sampled, Seq::empty()), data).2.len(),
    ensures
        ({
            let events = polled(names, cx, (keys, sampled, Seq::empty()), data).2;
            &&& events[p] is Vanished ==> events[q] is Vanished && key_of(events[p]) < key_of(
                events[q],
            )
            &&& !(events[q] is Vanished) ==> exists|i: int, j: int|
                0 <= i <= j < data.len() && (#[trigger] data[i]).code == key_of(events[p]) && (
                #[trigger] data[j]).code == key_of(events[q])
        }),
{
    let st = (keys, sampled, Seq::<PollEvent>::empty());
    let from = lemma_told_in_order(names, cx, st, data);
    let mid = after_readings(names, cx, st, data);
    lemma_sweep_order(names, cx, data, mid, 256);
    let events = polled(names, cx, st, data).2;
    let n = mid.2.len() as int;
    if p < n {
        assert(events.take(n)[p] == events[p]);
        assert(tells_of(data, mid.2[p], from[p]));
    }
    if q < n {
        assert(events.take(n)[q] == events[q]);
        assert(tells_of(data, mid.2[q], from[q]));
        assert(from[p] <= from[q]);
        assert(data[from[p]].code == key_of(events[p]) && data[from[q]].code == key_of(events[q]));
    }
}

/// On the first report a key is held from the start exactly if a reading has it above the
/// level of a touch; nothing else about it changes.
pub proof fn touched_keys_are_held_from_the_start(
    names: Seq<Option<Seq<char>>>,
    keys: Seq<KeyState>,
    data: Seq<KeyReading>,
    touch: u32,
    c: u8,
)
    requires
        keys.len() == 256,
        c < names.len() && names[c as int] is Some,
    ensures
        forall|i: int|
            0 <= i < data.len() && (#[trigger] data[i]).code == c && data[i].level > touch
                ==> first_seen(names, keys, data, touch)[c as int].suppressed,
        (forall|i: int|
            0 <= i < data.len() && (#[trigger] data[i]).code == c ==> data[i].level <= touch)
            ==> !first_seen(names, keys, data, touch)[c as int].suppressed,
        first_seen(names, keys, data, touch).len() == 256,
        first_seen(names, keys, data, touch)[c as int] == (KeyState {
            suppressed: first_seen(names, keys, data, touch)[c as int].suppressed,
            ..keys[c as int]
        }),
{
    assert forall|i: int|
        0 <= i < data.len() && (#[trigger] data[i]).code == c && data[i].level > touch implies
        first_seen(names, keys, data, touch)[c as int].suppressed by {
        assert(data[i].code == c as int && known(names, data[i].code));
        assert(touched(names, data, touch, c as int));
    }
    if forall|i: int|
        0 <= i < data.len() && (#[trigger] data[i]).code == c ==> data[i].level <= touch {
        if touched(names, data, touch, c as int) {
            let i = choose|i: int|
                0 <= i < data.len() && #[trigger] data[i].code == c as int && known(
                    names,
                    data[i].code,
                ) && data[i].level > touch;
            assert(data[i].code == c);
        }
    }
}

/// The keys that are let go when reports have failed for too long are told from the lowest
/// code up, each once, and of the others nothing changes.
pub proof fn failsafe_tells_each_key_once(keys: Seq<KeyState>, c: u8)
    requires
        keys.len() == 256,
    ensures
        forall|p: int, q: int|
            0 <= p < q < active_codes(keys, 256).len() ==> active_codes(keys, 256)[p]
                < active_codes(keys, 256)[q],
        let_go(keys).len() == 256,
        keys[c as int].active ==> !let_go(keys)[c as int].down && !let_go(keys)[c as int].suppressed
            && let_go(keys)[c as int].last_seen is None && let_go(keys)[c as int].peak is None,
        !keys[c as int].active ==> let_go(keys)[c as int] == keys[c as int],
{
    lemma_codes_ascend(keys, 256);
}

proof fn lemma_codes_ascend(keys: Seq<KeyState>, n: int)
    requires
        keys.len() == 256,
        0 <= n <= 256,
    ensures
        forall|p: int| 0 <= p < active_codes(keys, n).len() ==> #[trigger] active_codes(keys, n)[p] < n,
        forall|p: int, q: int|
            0 <= p < q < active_codes(keys, n).len() ==> active_codes(keys, n)[p] < active_codes(
                keys,
                n,
            )[q],
    decreases n,
{
    if n > 0 {
        lemma_codes_ascend(keys, n - 1);
        let before = active_codes(keys, n - 1);
        let after = active_codes(keys, n);
        assert forall|p: int, q: int| 0 <= p < q < after.len() implies after[p] < after[q] by {
            if q < before.len() {
                assert(before[p] < before[q]);
            } else {
                assert(after[p] == before[p]);
            }
        }
    }
}

proof fn lemma_wanted(connected: Seq<u64>, configured: Set<u64>, id: u64)
    ensures
        wanted(connected, configured).to_multiset().count(id) == (if configured.contains(id) {
            connected.to_multiset().count(id)
        } else {
            0
        }),
    decreases connected.len(),
{
    if connected.len() > 0 {
        let front = connected.drop_last();
        let last = connected.last();
        lemma_wanted(front, configured, id);
        assert(connected =~= front.push(last));
        front.to_multiset_ensures();
        wanted(front, configured).to_multiset_ensures();
    } else {
        connected.to_multiset_ensures();
        wanted(connected, configured).to_multiset_ensures();
        assert(!connected.contains(id));
        assert(!wanted(connected, configured).contains(id));
    }
}

/// A keyboard is polled exactly if it is connected and configured, as often as it is
/// connected.
pub proof fn configured_keyboards_are_polled(connected: Seq<u64>, configured: Set<u64>, id: u64)
    ensures
        wanted(connected, configured).to_multiset().count(id) == (if configured.contains(id) {
            connected.to_multiset().count(id)
        } else {
            0
        }),
        wanted(connected, configured).contains(id) <==> connected.contains(id)
            && configured.contains(id),
{
    lemma_wanted(connected, configured, id);
    connected.to_multiset_ensures();
    wanted(connected, configured).to_multiset_ensures();
}

/// Of a keyboard that was not polled before nothing is known: no key is down, and no report
/// has come in.
pub proof fn nothing_is_known_of_new_keyboards(d: DeviceKeys, m: ActiveMask, c: u8)
    requires
        is_fresh(d),
    ensures
        d.keys@.len() == 256,
        !d.keys@[c as int].down && !d.keys@[c as int].active && !d.keys@[c as int].suppressed,
        d.keys@[c as int].last_seen is None && d.keys@[c as int].peak is None,
        !d.seen,
        d.err_since is None,
        bits(m).len() == 256 && bits(m)[c as int] == m.holds(c),
{
}

} // verus!
