//! The thread that drives the lights: which devices it has, and which of them are to be
//! updated.
//!
//! Times are nanoseconds since the program began.
use vstd::prelude::*;
use std::collections::VecDeque;
use crate::dump;
use crate::dump::DebugEvent;
use crate::table;
use crate::table::Table;
use crate::text;

verus! {

/// The colour of one LED.
#[derive(Debug, Clone, Copy, PartialEq, Eq)]
pub struct RgbKey {
    pub device_index: u8,
    pub row: u8,
    pub col: u8,
    pub rgb: (u8, u8, u8),
}

/// What the lights are told.
#[derive(Debug, Clone, Copy, PartialEq, Eq)]
pub enum RgbCmd {
    SetKey(RgbKey),
}

/// How often the lights are updated at most.
pub const FLUSH_EVERY_NS: u64 = 16_000_000;

/// The devices of the worker, each with whether it is to be updated.
#[derive(Debug, Clone)]
pub struct RgbWorker {
    pub dirty: Table<u8, bool>,
    /// Whether it was said that there are no devices.
    pub warned_init: bool,
    pub last_flush_ns: u64,
}

/// Whether a device can be had.
#[derive(Debug, Clone, Copy, PartialEq, Eq, Structural)]
pub enum Admission {
    /// It is there.
    Ready,
    /// There are no devices; with `first` for the first time.
    NoDevices { first: bool },
    /// There are fewer devices.
    OutOfRange,
    /// It is to be selected first.
    Select,
}

/// The devices that are to be updated, of the first `n`.
pub open spec fn dirty_ones(v: Seq<(u8, bool)>, n: int) -> Seq<u8>
    decreases n,
{
    if n <= 0 {
        Seq::empty()
    } else if v[n - 1].1 {
        dirty_ones(v, n - 1).push(v[n - 1].0)
    } else {
        dirty_ones(v, n - 1)
    }
}

/// Whether there is an entry for a device.
pub open spec fn has_device(v: Seq<(u8, bool)>, index: u8) -> bool {
    table::map_of(v).contains_key(index)
}

/// The devices after an update of those that were to be updated.
pub open spec fn all_clean(v: Seq<(u8, bool)>) -> Seq<(u8, bool)> {
    v.map_values(|e: (u8, bool)| (e.0, false))
}

/// Whether a device can be had, when `count` devices are there.
pub open spec fn admission(v: Seq<(u8, bool)>, warned: bool, index: u8, count: u8) -> Admission {
    if has_device(v, index) {
        Admission::Ready
    } else if count == 0 {
        Admission::NoDevices { first: !warned }
    } else if index >= count {
        Admission::OutOfRange
    } else {
        Admission::Select
    }
}

impl RgbWorker {
    pub fn new(now_ns: u64) -> (r: Self)
        ensures
            r.dirty.entries@ == Seq::<(u8, bool)>::empty(),
            !r.warned_init,
            r.last_flush_ns == now_ns,
    {
        let dirty: Table<u8, bool> = Table::new();
        assert(dirty.entries@ =~= Seq::<(u8, bool)>::empty());
        RgbWorker { dirty, warned_init: false, last_flush_ns: now_ns }
    }

    /// The devices to update now: those that changed, when it is time.
    pub fn flush(&mut self, now_ns: u64) -> (r: Vec<u8>)
        requires
            table::distinct_keys(old(self).dirty.entries@),
        ensures
            if now_ns - old(self).last_flush_ns >= 16_000_000 {
                &&& r@ == dirty_ones(
                    old(self).dirty.entries@,
                    old(self).dirty.entries@.len() as int,
                )
                &&& final(self).dirty.entries@ == all_clean(old(self).dirty.entries@)
                &&& (final(self).dirty.entries@, updates(r@)) == worked(
                    old(self).dirty.entries@,
                    WorkerEvent::Flush,
                )
                &&& final(self).last_flush_ns == now_ns
                &&& final(self).warned_init == old(self).warned_init
            } else {
                r@.len() == 0 && *final(self) == *old(self)
            },
            table::distinct_keys(final(self).dirty.entries@),
    {
        let mut out: Vec<u8> = Vec::new();
        if now_ns < self.last_flush_ns || now_ns - self.last_flush_ns < FLUSH_EVERY_NS {
            return out;
        }
        let ghost before = self.dirty.entries@;
        let n: usize = self.dirty.entries.len();
        let mut i: usize = 0;
        while i < n
            invariant
                n == before.len(),
                self.dirty.entries@.len() == n,
                i <= n,
                out@ == dirty_ones(before, i as int),
                self.warned_init == old(self).warned_init,
                forall|j: int|
                    0 <= j < n ==> #[trigger] self.dirty.entries@[j] == (if j < i {
                        (before[j].0, false)
                    } else {
                        before[j]
                    }),
            decreases n - i,
        {
            let e: (u8, bool) = self.dirty.entries[i];
            if e.1 {
                out.push(e.0);
            }
            self.dirty.entries.set(i, (e.0, false));
            i += 1;
        }
        assert(self.dirty.entries@ =~= all_clean(before));
        self.last_flush_ns = now_ns;
        proof {
            assert forall|a: int, b: int| 0 <= a < b < self.dirty.entries@.len() implies (
            #[trigger] self.dirty.entries@[a]).0 != (#[trigger] self.dirty.entries@[b]).0 by {
                assert(before[a].0 != before[b].0);
            }
        }
        out
    }

    /// Whether the worker has a device.
    fn has(&self, device_index: u8) -> (r: bool)
        ensures
            r == has_device(self.dirty.entries@, device_index),
    {
        self.dirty.contains(device_index)
    }

    /// Whether a device can be had, when `count` devices are there.
    fn ask_for(&mut self, device_index: u8, count: u8) -> (r: Admission)
        ensures
            r == admission(
                old(self).dirty.entries@,
                old(self).warned_init,
                device_index,
                count,
            ),
            *final(self) == (RgbWorker {
                warned_init: old(self).warned_init || r is NoDevices,
                ..*old(self)
            }),
    {
        if self.has(device_index) {
            return Admission::Ready;
        }
        if count == 0 {
            let first: bool = !self.warned_init;
            self.warned_init = true;
            return Admission::NoDevices { first };
        }
        if device_index >= count {
            return Admission::OutOfRange;
        }
        Admission::Select
    }

    /// A device was selected.
    fn selected(&mut self, device_index: u8)
        ensures
            final(self).dirty.entries@ == table::put(old(self).dirty.entries@, device_index, false),
            *final(self) == (RgbWorker { dirty: final(self).dirty, ..*old(self) }),
            table::distinct_keys(old(self).dirty.entries@) ==> table::distinct_keys(
                final(self).dirty.entries@,
            ),
    {
        self.dirty.insert(device_index, false);
    }

    /// A light of a device was set: the device is to be updated.
    fn changed(&mut self, device_index: u8)
        ensures
            final(self).dirty.entries@ == table::put(old(self).dirty.entries@, device_index, true),
            *final(self) == (RgbWorker { dirty: final(self).dirty, ..*old(self) }),
            table::distinct_keys(old(self).dirty.entries@) ==> table::distinct_keys(
                final(self).dirty.entries@,
            ),
    {
        self.dirty.insert(device_index, true);
    }

    /// What is to be done next for a light, now that it has come as far as `p`.
    pub fn step(&mut self, key: RgbKey, p: LightProgress) -> (r: LightStep)
        ensures
            r == stepped(
                old(self).dirty.entries@,
                old(self).warned_init,
                key.device_index,
                p,
            ).1,
            final(self).dirty.entries@ == stepped(
                old(self).dirty.entries@,
                old(self).warned_init,
                key.device_index,
                p,
            ).0,
            *final(self) == (RgbWorker {
                dirty: final(self).dirty,
                warned_init: old(self).warned_init || r is NoDevices,
                ..*old(self)
            }),
            table::distinct_keys(old(self).dirty.entries@) ==> table::distinct_keys(
                final(self).dirty.entries@,
            ),
    {
        let index: u8 = key.device_index;
        match p {
            LightProgress::Arrived => if self.has(index) {
                LightStep::SetLight
            } else {
                LightStep::Count
            },
            LightProgress::Counted { count } => match self.ask_for(index, count) {
                Admission::Ready => LightStep::SetLight,
                Admission::NoDevices { first } => LightStep::NoDevices { first },
                Admission::OutOfRange => LightStep::OutOfRange,
                Admission::Select => LightStep::Select,
            },
            LightProgress::Selected { ok } => if ok {
                self.selected(index);
                LightStep::SetLight
            } else {
                LightStep::Done
            },
            LightProgress::Tried { ok } => {
                if ok {
                    self.changed(index);
                }
                LightStep::Done
            },
        }
    }
}

/// How far a light has come.
#[derive(Debug, Clone, Copy, PartialEq, Eq, Structural)]
pub enum LightProgress {
    /// It came in.
    Arrived,
    /// The devices were counted.
    Counted { count: u8 },
    /// Its device was to be selected.
    Selected { ok: bool },
    /// It was to be set.
    Tried { ok: bool },
}

/// What is to be done next for a light.
#[derive(Debug, Clone, Copy, PartialEq, Eq, Structural)]
pub enum LightStep {
    /// Count the devices.
    Count,
    /// Select its device.
    Select,
    /// Set it on its device.
    SetLight,
    /// Nothing: there are no devices; with `first` for the first time.
    NoDevices { first: bool },
    /// Nothing: there are fewer devices.
    OutOfRange,
    /// Nothing more.
    Done,
}

/// The devices once a light for the device `index` has come as far as `p`, and what is to
/// be done next for it.
pub open spec fn stepped(v: Seq<(u8, bool)>, warned: bool, index: u8, p: LightProgress) -> (
    Seq<(u8, bool)>,
    LightStep,
) {
    match p {
        LightProgress::Arrived => (
            v,
            if has_device(v, index) {
                LightStep::SetLight
            } else {
                LightStep::Count
            },
        ),
        LightProgress::Counted { count } => (
            v,
            match admission(v, warned, index, count) {
                Admission::Ready => LightStep::SetLight,
                Admission::NoDevices { first } => LightStep::NoDevices { first },
                Admission::OutOfRange => LightStep::OutOfRange,
                Admission::Select => LightStep::Select,
            },
        ),
        LightProgress::Selected { ok } => if ok {
            (table::put(v, index, false), LightStep::SetLight)
        } else {
            (v, LightStep::Done)
        },
        LightProgress::Tried { ok } => (after_set(v, index, ok), LightStep::Done),
    }
}

/// What doing a step asks of the lights, and how far the light has come then. `count`,
/// `selects` and `sets` say how many devices there are, and what selecting the device and
/// setting the light come to.
pub open spec fn done(s: LightStep, key: RgbKey, count: u8, selects: bool, sets: bool) -> (
    Seq<WorkerCall>,
    Option<LightProgress>,
) {
    match s {
        LightStep::Count => (Seq::empty(), Some(LightProgress::Counted { count })),
        LightStep::Select => (
            seq![WorkerCall::Select { index: key.device_index, count, ok: selects }],
            Some(LightProgress::Selected { ok: selects }),
        ),
        LightStep::SetLight => (
            seq![WorkerCall::SetLight { key, ok: sets }],
            Some(LightProgress::Tried { ok: sets }),
        ),
        _ => (Seq::empty(), None),
    }
}

/// How many steps a light that has come as far as `p` may still take.
pub open spec fn steps_left(p: LightProgress) -> nat {
    match p {
        LightProgress::Arrived => 3,
        LightProgress::Counted { .. } => 2,
        LightProgress::Selected { .. } => 1,
        LightProgress::Tried { .. } => 0,
    }
}

/// A light that has come as far as `p`, taken on step by step until nothing is left to do:
/// the devices then, and what was asked of the lights.
pub open spec fn carried_out(
    v: Seq<(u8, bool)>,
    warned: bool,
    key: RgbKey,
    count: u8,
    selects: bool,
    sets: bool,
    p: LightProgress,
) -> (Seq<(u8, bool)>, Seq<WorkerCall>)
    decreases steps_left(p),
{
    let (v1, s) = stepped(v, warned, key.device_index, p);
    let (calls, next) = done(s, key, count, selects, sets);
    match next {
        Some(q) => {
            let (v2, more) = carried_out(v1, warned, key, count, selects, sets, q);
            (v2, calls + more)
        },
        None => (v1, calls),
    }
}

/// A light that is taken on step by step, as the worker says, comes to what one event of a
/// run comes to.
pub proof fn steps_make_up_an_event(
    v: Seq<(u8, bool)>,
    warned: bool,
    key: RgbKey,
    count: u8,
    selects: bool,
    sets: bool,
)
    ensures
        carried_out(v, warned, key, count, selects, sets, LightProgress::Arrived) == worked(
            v,
            WorkerEvent::Light { key, count, selects, sets },
        ),
{
    reveal_with_fuel(carried_out, 5);
    let e = WorkerEvent::Light { key, count, selects, sets };
    let r = carried_out(v, warned, key, count, selects, sets, LightProgress::Arrived);
    assert(r.1 =~= worked(v, e).1);
}

/// Something that happens to the worker.
pub enum WorkerEvent {
    /// It is time to update the lights.
    Flush,
    /// A light comes in, while `count` devices are there; the last two say what selecting
    /// its device and setting it come to, where they are tried.
    Light { key: RgbKey, count: u8, selects: bool, sets: bool },
}

/// What the worker asks of the lights, and what came of it.
pub enum WorkerCall {
    Select { index: u8, count: u8, ok: bool },
    SetLight { key: RgbKey, ok: bool },
    Update { index: u8 },
}

/// The updates of the devices `v`.
pub open spec fn updates(v: Seq<u8>) -> Seq<WorkerCall> {
    v.map_values(|i: u8| WorkerCall::Update { index: i })
}

/// The devices `v` after a light was set, or not.
pub open spec fn after_set(v: Seq<(u8, bool)>, index: u8, ok: bool) -> Seq<(u8, bool)> {
    if ok {
        table::put(v, index, true)
    } else {
        v
    }
}

/// One event: the devices after it, and what was asked of the lights. A light is set on its
/// device once that is there or has been selected; what fails ends there.
pub open spec fn worked(v: Seq<(u8, bool)>, e: WorkerEvent) -> (Seq<(u8, bool)>, Seq<WorkerCall>) {
    match e {
        WorkerEvent::Flush => (all_clean(v), updates(dirty_ones(v, v.len() as int))),
        WorkerEvent::Light { key, count, selects, sets } => {
            let index = key.device_index;
            match admission(v, true, index, count) {
                Admission::Ready => (
                    after_set(v, index, sets),
                    seq![WorkerCall::SetLight { key, ok: sets }],
                ),
                Admission::Select => if selects {
                    (
                        after_set(table::put(v, index, false), index, sets),
                        seq![
                            WorkerCall::Select { index, count, ok: true },
                            WorkerCall::SetLight { key, ok: sets },
                        ],
                    )
                } else {
                    (v, seq![WorkerCall::Select { index, count, ok: false }])
                },
                _ => (v, Seq::empty()),
            }
        },
    }
}

/// A run of the worker: the devices after the events, and all that was asked of the lights.
pub open spec fn run(es: Seq<WorkerEvent>) -> (Seq<(u8, bool)>, Seq<WorkerCall>)
    decreases es.len(),
{
    if es.len() == 0 {
        (Seq::empty(), Seq::empty())
    } else {
        let (v, calls) = run(es.drop_last());
        let (v1, more) = worked(v, es.last());
        (v1, calls + more)
    }
}

/// Whether a device has been selected.
pub open spec fn was_selected(calls: Seq<WorkerCall>, index: u8) -> bool {
    exists|i: int|
        0 <= i < calls.len() && (#[trigger] calls[i] matches WorkerCall::Select { index: x, ok, .. }
            && x == index && ok)
}

/// Whether a light of a device has been set since the device was last updated.
pub open spec fn awaits_update(calls: Seq<WorkerCall>, index: u8) -> bool
    decreases calls.len(),
{
    if calls.len() == 0 {
        false
    } else {
        match calls.last() {
            WorkerCall::SetLight { key, ok } => if key.device_index == index && ok {
                true
            } else {
                awaits_update(calls.drop_last(), index)
            },
            WorkerCall::Update { index: x } => if x == index {
                false
            } else {
                awaits_update(calls.drop_last(), index)
            },
            _ => awaits_update(calls.drop_last(), index),
        }
    }
}

/// Whether the call `c` may follow `calls`: a device is selected only where it is there and
/// was not selected before; a light is set only on a device that was selected; a device is
/// updated only where a light of it has been set since its last update.
pub open spec fn may_follow(calls: Seq<WorkerCall>, c: WorkerCall) -> bool {
    match c {
        WorkerCall::Select { index, count, .. } => index < count && !was_selected(calls, index),
        WorkerCall::SetLight { key, .. } => was_selected(calls, key.device_index),
        WorkerCall::Update { index } => awaits_update(calls, index),
    }
}

/// Whether each call may follow those before it.
pub open spec fn in_order(calls: Seq<WorkerCall>) -> bool {
    forall|i: int| 0 <= i < calls.len() ==> may_follow(calls.take(i), #[trigger] calls[i])
}

/// The lights that were set, or tried to be, one after the other.
pub open spec fn lights_set(calls: Seq<WorkerCall>) -> Seq<RgbKey>
    decreases calls.len(),
{
    if calls.len() == 0 {
        Seq::empty()
    } else {
        match calls.last() {
            WorkerCall::SetLight { key, .. } => lights_set(calls.drop_last()).push(key),
            _ => lights_set(calls.drop_last()),
        }
    }
}

spec fn run_ok(v: Seq<(u8, bool)>, calls: Seq<WorkerCall>) -> bool {
    &&& table::distinct_keys(v)
    &&& in_order(calls)
    &&& forall|x: u8| #[trigger] has_device(v, x) <==> was_selected(calls, x)
    &&& forall|x: u8| #[trigger] has_device(v, x) ==> (table::map_of(v)[x] <==> awaits_update(calls, x))
}

proof fn lemma_call(calls: Seq<WorkerCall>, c: WorkerCall)
    ensures
        in_order(calls) && may_follow(calls, c) ==> in_order(calls.push(c)),
        forall|x: u8| #[trigger]
            was_selected(calls.push(c), x) <==> was_selected(calls, x) || (c matches WorkerCall::Select {
                index,
                ok,
                ..
            } && index == x && ok),
        forall|x: u8| #[trigger]
            awaits_update(calls.push(c), x) == (match c {
                WorkerCall::SetLight { key, ok } => (key.device_index == x && ok) || awaits_update(
                    calls,
                    x,
                ),
                WorkerCall::Update { index } => index != x && awaits_update(calls, x),
                _ => awaits_update(calls, x),
            }),
        lights_set(calls.push(c)) == (match c {
            WorkerCall::SetLight { key, .. } => lights_set(calls).push(key),
            _ => lights_set(calls),
        }),
{
    let all = calls.push(c);
    assert(all.drop_last() =~= calls);
    if in_order(calls) && may_follow(calls, c) {
        assert forall|i: int| 0 <= i < all.len() implies may_follow(all.take(i), #[trigger] all[i]) by {
            if i < calls.len() {
                assert(all.take(i) =~= calls.take(i));
                assert(all[i] == calls[i]);
            } else {
                assert(all.take(i) =~= calls);
            }
        }
    }
    assert forall|x: u8| #[trigger]
        was_selected(all, x) <==> was_selected(calls, x) || (c matches WorkerCall::Select {
            index,
            ok,
            ..
        } && index == x && ok) by {
        if was_selected(calls, x) {
            let i = choose|i: int|
                0 <= i < calls.len() && (#[trigger] calls[i] matches WorkerCall::Select {
                    index: y,
                    ok,
                    ..
                } && y == x && ok);
            assert(all[i] == calls[i]);
        }
        if was_selected(all, x) {
            let i = choose|i: int|
                0 <= i < all.len() && (#[trigger] all[i] matches WorkerCall::Select {
                    index: y,
                    ok,
                    ..
                } && y == x && ok);
            if i < calls.len() {
                assert(calls[i] == all[i]);
            }
        }
        if c matches WorkerCall::Select { index, ok, .. } && index == x && ok {
            assert(all[calls.len() as int] == c);
        }
    }
}

proof fn lemma_put_device(v: Seq<(u8, bool)>, index: u8, d: bool)
    requires
        table::distinct_keys(v),
    ensures
        table::distinct_keys(table::put(v, index, d)),
        table::map_of(table::put(v, index, d)) == table::map_of(v).insert(index, d),
{
    table::lemma_map_of_put(v, index, d);
}

proof fn lemma_set_ok(v: Seq<(u8, bool)>, calls: Seq<WorkerCall>, key: RgbKey, ok: bool)
    requires
        run_ok(v, calls),
        has_device(v, key.device_index),
    ensures
        run_ok(
            after_set(v, key.device_index, ok),
            calls.push(WorkerCall::SetLight { key, ok }),
        ),
{
    let c = WorkerCall::SetLight { key, ok };
    lemma_call(calls, c);
    lemma_put_device(v, key.device_index, true);
    let after = after_set(v, key.device_index, ok);
    let all = calls.push(c);
    assert forall|x: u8| #[trigger] has_device(after, x) <==> was_selected(all, x) by {
        assert(has_device(v, x) <==> was_selected(calls, x));
    }
    assert forall|x: u8| #[trigger] has_device(after, x) implies (table::map_of(after)[x]
        <==> awaits_update(all, x)) by {
        assert(has_device(v, x));
        assert(awaits_update(all, x) == ((key.device_index == x && ok) || awaits_update(calls, x)));
    }
}

proof fn lemma_select_ok(v: Seq<(u8, bool)>, calls: Seq<WorkerCall>, index: u8, count: u8, ok: bool)
    requires
        run_ok(v, calls),
        !has_device(v, index),
        index < count,
        !awaits_update(calls, index),
    ensures
        run_ok(
            if ok {
                table::put(v, index, false)
            } else {
                v
            },
            calls.push(WorkerCall::Select { index, count, ok }),
        ),
{
    let c = WorkerCall::Select { index, count, ok };
    lemma_call(calls, c);
    lemma_put_device(v, index, false);
    let after = if ok {
        table::put(v, index, false)
    } else {
        v
    };
    let all = calls.push(c);
    assert(!was_selected(calls, index));
    assert forall|x: u8| #[trigger] has_device(after, x) <==> was_selected(all, x) by {
        assert(has_device(v, x) <==> was_selected(calls, x));
    }
    assert forall|x: u8| #[trigger] has_device(after, x) implies (table::map_of(after)[x]
        <==> awaits_update(all, x)) by {
        assert(awaits_update(all, x) == awaits_update(calls, x));
        if x != index {
            assert(has_device(v, x));
        }
    }
}

/// A light that was set was set on a device that was selected.
proof fn lemma_awaits_selected(calls: Seq<WorkerCall>, index: u8)
    requires
        in_order(calls),
        awaits_update(calls, index),
    ensures
        was_selected(calls, index),
    decreases calls.len(),
{
    let front = calls.drop_last();
    let c = calls.last();
    assert(calls =~= front.push(c));
    lemma_call(front, c);
    assert(in_order(front)) by {
        assert forall|i: int| 0 <= i < front.len() implies may_follow(
            front.take(i),
            #[trigger] front[i],
        ) by {
            assert(front.take(i) =~= calls.take(i));
            assert(may_follow(calls.take(i), calls[i]));
        }
    }
    assert(was_selected(calls, index) <==> was_selected(front, index) || (c matches WorkerCall::Select {
        index: x,
        ok,
        ..
    } && x == index && ok));
    match c {
        WorkerCall::SetLight { key, ok } => {
            if key.device_index == index && ok {
                assert(may_follow(calls.take(calls.len() - 1), calls[calls.len() - 1]));
                assert(calls.take(calls.len() - 1) =~= front);
            } else {
                lemma_awaits_selected(front, index);
            }
        },
        _ => {
            lemma_awaits_selected(front, index);
        },
    }
}

/// The devices after the first `n` of those to be updated were.
spec fn cleaned(v: Seq<(u8, bool)>, n: int) -> Seq<(u8, bool)> {
    Seq::new(
        v.len(),
        |i: int|
            if i < n {
                (v[i].0, false)
            } else {
                v[i]
            },
    )
}

proof fn lemma_flush_ok(v: Seq<(u8, bool)>, calls: Seq<WorkerCall>, n: int)
    requires
        run_ok(v, calls),
        0 <= n <= v.len(),
    ensures
        run_ok(cleaned(v, n), calls + updates(dirty_ones(v, n))),
        lights_set(calls + updates(dirty_ones(v, n))) == lights_set(calls),
    decreases n,
{
    if n == 0 {
        assert(cleaned(v, 0) =~= v);
        assert(calls + updates(dirty_ones(v, 0)) =~= calls);
    } else {
        lemma_flush_ok(v, calls, n - 1);
        let v0 = cleaned(v, n - 1);
        let v1 = cleaned(v, n);
        let c0 = calls + updates(dirty_ones(v, n - 1));
        let c1 = calls + updates(dirty_ones(v, n));
        let index = v[n - 1].0;
        table::lemma_entries_are_the_map(v0);
        assert(table::distinct_keys(v1)) by {
            assert forall|a: int, b: int| 0 <= a < b < v1.len() implies (#[trigger] v1[a]).0 != (
            #[trigger] v1[b]).0 by {
                assert(v[a].0 != v[b].0);
            }
        }
        table::lemma_entries_are_the_map(v1);
        assert(v0[n - 1] == v[n - 1]);
        assert(has_device(v0, v0[n - 1].0));
        assert forall|x: u8| has_device(v0, x) <==> has_device(v1, x) by {
            if has_device(v0, x) {
                let i = choose|i: int| 0 <= i < v0.len() && (#[trigger] v0[i]).0 == x;
                assert(v1[i].0 == x);
            }
            if has_device(v1, x) {
                let i = choose|i: int| 0 <= i < v1.len() && (#[trigger] v1[i]).0 == x;
                assert(v0[i].0 == x);
            }
        }
        if v[n - 1].1 {
            let c = WorkerCall::Update { index };
            assert(c1 =~= c0.push(c));
            lemma_call(c0, c);
            assert(awaits_update(c0, index));
        } else {
            assert(c1 =~= c0);
        }
        assert forall|x: u8| #[trigger] has_device(v1, x) <==> was_selected(c1, x) by {
            assert(has_device(v0, x) <==> was_selected(c0, x));
        }
        assert forall|x: u8| #[trigger] has_device(v1, x) implies (table::map_of(v1)[x]
            <==> awaits_update(c1, x)) by {
            let i = choose|i: int| 0 <= i < v1.len() && (#[trigger] v1[i]).0 == x;
            assert(v0[i].0 == x);
            assert(has_device(v0, x));
            assert(table::map_of(v1)[v1[i].0] == v1[i].1);
            assert(table::map_of(v0)[v0[i].0] == v0[i].1);
            if x == index {
                assert(i == n - 1) by {
                    if i < n - 1 {
                        assert(v0[i].0 != v0[n - 1].0);
                    } else if i > n - 1 {
                        assert(v0[n - 1].0 != v0[i].0);
                    }
                }
            } else {
                assert(i != n - 1);
            }
            if v[n - 1].1 {
                assert(awaits_update(c1, x) == (index != x && awaits_update(c0, x)));
            }
        }
    }
}

proof fn lemma_worked_ok(v: Seq<(u8, bool)>, calls: Seq<WorkerCall>, e: WorkerEvent)
    requires
        run_ok(v, calls),
    ensures
        run_ok(worked(v, e).0, calls + worked(v, e).1),
        lights_set(calls + worked(v, e).1) == lights_set(calls) || (e matches WorkerEvent::Light {
            key,
            ..
        } && lights_set(calls + worked(v, e).1) == lights_set(calls).push(key)),
{
    match e {
        WorkerEvent::Flush => {
            lemma_flush_ok(v, calls, v.len() as int);
            assert(cleaned(v, v.len() as int) =~= all_clean(v));
        },
        WorkerEvent::Light { key, count, selects, sets } => {
            let index = key.device_index;
            let more = worked(v, e).1;
            match admission(v, true, index, count) {
                Admission::Ready => {
                    let c = WorkerCall::SetLight { key, ok: sets };
                    lemma_set_ok(v, calls, key, sets);
                    lemma_call(calls, c);
                    assert(calls + more =~= calls.push(c));
                },
                Admission::Select => {
                    assert(!was_selected(calls, index));
                    if awaits_update(calls, index) {
                        lemma_awaits_selected(calls, index);
                    }
                    let c = WorkerCall::Select { index, count, ok: selects };
                    lemma_select_ok(v, calls, index, count, selects);
                    lemma_call(calls, c);
                    if selects {
                        let d = WorkerCall::SetLight { key, ok: sets };
                        let v1 = table::put(v, index, false);
                        lemma_put_device(v, index, false);
                        assert(has_device(v1, index));
                        lemma_set_ok(v1, calls.push(c), key, sets);
                        lemma_call(calls.push(c), d);
                        assert(calls + more =~= calls.push(c).push(d));
                    } else {
                        assert(calls + more =~= calls.push(c));
                    }
                },
                _ => {
                    assert(calls + more =~= calls);
                },
            }
        },
    }
}

proof fn lemma_run_ok(es: Seq<WorkerEvent>)
    ensures
        run_ok(run(es).0, run(es).1),
    decreases es.len(),
{
    if es.len() > 0 {
        lemma_run_ok(es.drop_last());
        let (v, calls) = run(es.drop_last());
        lemma_worked_ok(v, calls, es.last());
    } else {
        let v = Seq::<(u8, bool)>::empty();
        let calls = Seq::<WorkerCall>::empty();
        assert forall|x: u8| #[trigger] has_device(v, x) <==> was_selected(calls, x) by {}
    }
}

/// Over any run of the worker a device is selected only where it is there, and never again
/// once it was; a light is set only on a device that was selected; and a device is updated
/// only where a light of it has been set since its last update.
pub proof fn worker_keeps_its_order(es: Seq<WorkerEvent>)
    ensures
        in_order(run(es).1),
{
    lemma_run_ok(es);
}

/// Lights are set in the order in which they come in, each on its own device, and nothing
/// else is: one more event adds at most its own light.
pub proof fn lights_are_set_as_they_come(es: Seq<WorkerEvent>, e: WorkerEvent)
    ensures
        lights_set(run(es.push(e)).1) == lights_set(run(es).1) || (e matches WorkerEvent::Light {
            key,
            ..
        } && lights_set(run(es.push(e)).1) == lights_set(run(es).1).push(key)),
{
    assert(es.push(e).drop_last() =~= es);
    lemma_run_ok(es);
    lemma_worked_ok(run(es).0, run(es).1, e);
}

/// What came of handing the worker a light.
#[derive(Debug, Clone, Copy, PartialEq, Eq, Structural)]
pub enum SendOutcome {
    Sent,
    /// The worker is behind; the light was dropped.
    Full,
    Disconnected,
}

/// The messages about a light that matters.
pub open spec fn critical_messages(
    outcome: SendOutcome,
    what: Seq<char>,
    cfg_line: Seq<char>,
) -> Seq<Seq<char>> {
    match outcome {
        SendOutcome::Sent => seq!["RGB ok "@ + what],
        SendOutcome::Full => seq!["RGB DROP "@ + what, cfg_line],
        SendOutcome::Disconnected => seq!["RGB DISCONNECTED "@ + what],
    }
}

/// The messages of a trail.
pub open spec fn messages(trail: Seq<DebugEvent>) -> Seq<(u64, Seq<char>)> {
    trail.map_values(|e: DebugEvent| (e.t_ms, e.msg@))
}

/// The trail after the messages `ms`, all at `t_ms`.
pub open spec fn all_pushed(trail: Seq<(u64, Seq<char>)>, t_ms: u64, ms: Seq<Seq<char>>) -> Seq<
    (u64, Seq<char>),
>
    decreases ms.len(),
{
    if ms.len() == 0 {
        trail
    } else {
        dump::pushed(all_pushed(trail, t_ms, ms.drop_last()), (t_ms, ms.last()))
    }
}

fn push_message(trail: &mut VecDeque<DebugEvent>, t_ms: u64, msg: String)
    ensures
        messages(final(trail)@) == dump::pushed(messages(old(trail)@), (t_ms, msg@)),
{
    let ghost before = trail@;
    let ghost m = msg@;
    dump::dbg_push(trail, t_ms, msg);
    assert(messages(trail@) =~= dump::pushed(messages(before), (t_ms, m)));
}

/// Notes in the trail what came of a light that matters, and counts those that were dropped.
pub fn note_critical(
    outcome: SendOutcome,
    trail: &mut VecDeque<DebugEvent>,
    t_ms: u64,
    rgb_drop_critical: &mut u64,
    cfg_line: &str,
    what: &str,
)
    ensures
        messages(final(trail)@) == all_pushed(
            messages(old(trail)@),
            t_ms,
            critical_messages(outcome, what@, cfg_line@),
        ),
        *final(rgb_drop_critical) == (if outcome is Full && *old(rgb_drop_critical) < u64::MAX {
            *old(rgb_drop_critical) + 1
        } else {
            *old(rgb_drop_critical) as int
        }),
{
    let ghost ms = critical_messages(outcome, what@, cfg_line@);
    match outcome {
        SendOutcome::Sent => {
            push_message(trail, t_ms, text::two_texts("RGB ok ", what));
        },
        SendOutcome::Full => {
            *rgb_drop_critical = (*rgb_drop_critical).saturating_add(1);
            push_message(trail, t_ms, text::two_texts("RGB DROP ", what));
            push_message(trail, t_ms, text::text_of(cfg_line));
        },
        SendOutcome::Disconnected => {
            push_message(trail, t_ms, text::two_texts("RGB DISCONNECTED ", what));
        },
    }
    proof {
        reveal_with_fuel(all_pushed, 3);
        assert(ms.drop_last() =~= ms.take(ms.len() - 1));
        if ms.len() == 2 {
            assert(ms.drop_last() =~= seq![ms[0]]);
            assert(ms.drop_last().drop_last() =~= Seq::empty());
        } else {
            assert(ms.drop_last() =~= Seq::empty());
        }
    }
}

/// A device is updated exactly if a light of it was set since, and once.
pub proof fn changed_devices_are_updated(v: Seq<(u8, bool)>, n: int, index: u8)
    requires
        table::distinct_keys(v),
        0 <= n <= v.len(),
    ensures
        dirty_ones(v, n).contains(index) <==> exists|i: int|
            0 <= i < n && (#[trigger] v[i]).0 == index && v[i].1,
        dirty_ones(v, n).no_duplicates(),
    decreases n,
{
    if n > 0 {
        changed_devices_are_updated(v, n - 1, index);
        changed_devices_are_updated(v, n - 1, v[n - 1].0);
        let before = dirty_ones(v, n - 1);
        let all = dirty_ones(v, n);
        if v[n - 1].1 {
            assert(!before.contains(v[n - 1].0)) by {
                if before.contains(v[n - 1].0) {
                    let i = choose|i: int|
                        0 <= i < n - 1 && (#[trigger] v[i]).0 == v[n - 1].0 && v[i].1;
                    assert(v[i].0 != v[n - 1].0);
                }
            }
            assert(all =~= before.push(v[n - 1].0));
            if before.contains(index) {
                let j = choose|j: int| 0 <= j < before.len() && before[j] == index;
                assert(all[j] == index);
            }
            if v[n - 1].0 == index {
                assert(all[before.len() as int] == index);
            }
            if all.contains(index) {
                let j = choose|j: int| 0 <= j < all.len() && all[j] == index;
                if j < before.len() {
                    assert(before[j] == index);
                }
            }
        }
    }
}

/// A light whose device is there, or can be selected, is set on it; and if that comes off,
/// the device is updated the next time the lights are.
pub proof fn lights_get_through(v: Seq<(u8, bool)>, key: RgbKey, count: u8)
    requires
        table::distinct_keys(v),
        has_device(v, key.device_index) || key.device_index < count,
    ensures
        ({
            let e = WorkerEvent::Light { key, count, selects: true, sets: true };
            let (after, calls) = worked(v, e);
            let (clean, updated) = worked(after, WorkerEvent::Flush);
            &&& calls.len() > 0
            &&& calls.last() == (WorkerCall::SetLight { key, ok: true })
            &&& has_device(v, key.device_index) ==> calls.len() == 1
            &&& !has_device(v, key.device_index) ==> calls.len() == 2 && calls[0]
                == (WorkerCall::Select { index: key.device_index, count, ok: true })
            &&& updated.contains(WorkerCall::Update { index: key.device_index })
            &&& worked(clean, WorkerEvent::Flush).1.len() == 0
        }),
{
    let index = key.device_index;
    let e = WorkerEvent::Light { key, count, selects: true, sets: true };
    let after = worked(v, e).0;
    let mid = if has_device(v, index) {
        v
    } else {
        table::put(v, index, false)
    };
    lemma_put_device(v, index, false);
    lemma_put_device(mid, index, true);
    assert(after == table::put(mid, index, true));
    table::lemma_entries_are_the_map(after);
    assert(table::map_of(after).contains_key(index));
    let i = choose|i: int| 0 <= i < after.len() && (#[trigger] after[i]).0 == index;
    assert(table::map_of(after)[after[i].0] == after[i].1);
    changed_devices_are_updated(after, after.len() as int, index);
    let ones = dirty_ones(after, after.len() as int);
    let j = choose|j: int| 0 <= j < ones.len() && ones[j] == index;
    assert(updates(ones)[j] == (WorkerCall::Update { index }));
    let clean = all_clean(after);
    lemma_none_dirty(clean, clean.len() as int);
}

proof fn lemma_none_dirty(v: Seq<(u8, bool)>, n: int)
    requires
        0 <= n <= v.len(),
        forall|i: int| 0 <= i < v.len() ==> !(#[trigger] v[i]).1,
    ensures
        dirty_ones(v, n).len() == 0,
    decreases n,
{
    if n > 0 {
        lemma_none_dirty(v, n - 1);
    }
}

/// A light for a device that is not there, because there are none or fewer, is dropped; that
/// there are none is said once.
pub proof fn lights_without_a_device_are_dropped(
    v: Seq<(u8, bool)>,
    key: RgbKey,
    count: u8,
    selects: bool,
    sets: bool,
    warned: bool,
)
    requires
        !has_device(v, key.device_index),
    ensures
        key.device_index >= count ==> worked(
            v,
            WorkerEvent::Light { key, count, selects, sets },
        ) == (v, Seq::<WorkerCall>::empty()),
        count == 0 ==> admission(v, warned, key.device_index, count) == (Admission::NoDevices {
            first: !warned,
        }),
        0 < count <= key.device_index ==> admission(v, warned, key.device_index, count)
            == Admission::OutOfRange,
        key.device_index < count ==> admission(v, warned, key.device_index, count)
            == Admission::Select,
        stepped(v, warned, key.device_index, LightProgress::Arrived) == (v, LightStep::Count),
        stepped(v, warned, key.device_index, LightProgress::Counted { count }).0 == v,
        count == 0 ==> stepped(v, warned, key.device_index, LightProgress::Counted { count }).1
            == (LightStep::NoDevices { first: !warned }),
        0 < count <= key.device_index ==> stepped(
            v,
            warned,
            key.device_index,
            LightProgress::Counted { count },
        ).1 == LightStep::OutOfRange,
{
}

/// What came of a light that matters is noted: that it was sent, or that it was dropped, with
/// the settings, or that the worker is gone.
pub proof fn lights_that_matter_are_noted(what: Seq<char>, cfg_line: Seq<char>)
    ensures
        critical_messages(SendOutcome::Sent, what, cfg_line) == seq!["RGB ok "@ + what],
        critical_messages(SendOutcome::Full, what, cfg_line) == seq![
            "RGB DROP "@ + what,
            cfg_line,
        ],
        critical_messages(SendOutcome::Disconnected, what, cfg_line) == seq![
            "RGB DISCONNECTED "@ + what,
        ],
{
}

/// Messages are noted one after the other.
pub proof fn messages_are_noted_in_order(
    trail: Seq<(u64, Seq<char>)>,
    t_ms: u64,
    ms: Seq<Seq<char>>,
    m: Seq<char>,
)
    ensures
        all_pushed(trail, t_ms, ms.push(m)) == dump::pushed(all_pushed(trail, t_ms, ms), (t_ms, m)),
        all_pushed(trail, t_ms, Seq::empty()) == trail,
{
    assert(ms.push(m).drop_last() =~= ms);
}

} // verus!
