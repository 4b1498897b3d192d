//! What stands between a key and what it does: the screensaver, keys that are ignored until
//! they are let go, and the chord of the two Ctrl keys.
//!
//! Times are nanoseconds since the program began.
use vstd::prelude::*;
use crate::hid;
use crate::notes::KeyId;
use crate::table::KeySet;

verus! {

/// How long apart the two keys of the Ctrl chord may be pressed.
pub const CHORD_NS: u64 = 400_000_000;

/// What a key did.
#[derive(Debug, Clone, Copy, PartialEq, Eq, Structural)]
pub enum EdgeKind {
    Down,
    Update,
    Up,
}

impl EdgeKind {
    pub open spec fn text(self) -> Seq<char> {
        match self {
            EdgeKind::Down => "down"@,
            EdgeKind::Update => "update"@,
            EdgeKind::Up => "up"@,
        }
    }

    pub fn name(&self) -> (r: &'static str)
        ensures
            r@ == self.text(),
    {
        match self {
            EdgeKind::Down => "down",
            EdgeKind::Update => "update",
            EdgeKind::Up => "up",
        }
    }
}

/// How an edge goes on.
#[derive(Debug, Clone, Copy, PartialEq, Eq, Structural)]
pub enum Passage {
    /// It wakes the lights, and does nothing else.
    Wake,
    /// It completes the Ctrl chord.
    Chord,
    /// Its key is ignored; with `ends` from now on no longer.
    Blocked { ends: bool },
    Through,
}

/// Which keys are down, which are ignored, and whether the lights are out.
#[derive(Debug, Clone)]
pub struct Gate {
    /// Whether the lights are out for want of activity.
    pub screensaver_active: bool,
    pub last_activity_ns: u64,
    pub pressed_keys: KeySet<KeyId>,
    /// The keys that are ignored until they are let go.
    pub suppressed_keys: KeySet<KeyId>,
    /// The keyboard and the time of the last press of each Ctrl key.
    pub last_leftctrl_down: Option<(u64, u64)>,
    pub last_rightctrl_down: Option<(u64, u64)>,
}

/// The same as a value.
pub struct GateState {
    pub dark: bool,
    pub active_ns: u64,
    pub pressed: Set<KeyId>,
    pub ignored: Set<KeyId>,
    pub left: Option<(u64, u64)>,
    pub right: Option<(u64, u64)>,
}

impl View for Gate {
    type V = GateState;

    open spec fn view(&self) -> GateState {
        GateState {
            dark: self.screensaver_active,
            active_ns: self.last_activity_ns,
            pressed: self.pressed_keys@,
            ignored: self.suppressed_keys@,
            left: self.last_leftctrl_down,
            right: self.last_rightctrl_down,
        }
    }
}

/// Whether the other Ctrl key, last pressed at `other`, makes a chord with one pressed now.
pub open spec fn makes_chord(other: Option<(u64, u64)>, device_id: u64, now_ns: u64) -> bool {
    other matches Some((d, t)) && d == device_id && now_ns - t <= CHORD_NS
}

/// The state after an edge was noted: activity, and which keys are down.
pub open spec fn noted(g: GateState, kind: EdgeKind, key: KeyId, now_ns: u64) -> GateState {
    GateState {
        active_ns: if kind == EdgeKind::Update {
            g.active_ns
        } else {
            now_ns
        },
        pressed: match kind {
            EdgeKind::Down => g.pressed.insert(key),
            EdgeKind::Up => g.pressed.remove(key),
            EdgeKind::Update => g.pressed,
        },
        ..g
    }
}

/// The state after a press of a Ctrl key was noted.
pub open spec fn ctrl_noted(g: GateState, key: KeyId, now_ns: u64) -> GateState {
    if key.hid == hid::LEFT_CTRL {
        GateState { left: Some((key.device_id, now_ns)), ..g }
    } else {
        GateState { right: Some((key.device_id, now_ns)), ..g }
    }
}

/// The state after an edge, and how the edge goes on.
pub open spec fn passed(g: GateState, kind: EdgeKind, key: KeyId, now_ns: u64) -> (
    GateState,
    Passage,
) {
    let g1 = noted(g, kind, key, now_ns);
    let ctrl = kind == EdgeKind::Down && (key.hid == hid::LEFT_CTRL || key.hid == hid::RIGHT_CTRL);
    let g2 = if ctrl {
        ctrl_noted(g1, key, now_ns)
    } else {
        g1
    };
    if g.dark && kind == EdgeKind::Down {
        (GateState { dark: false, ignored: g1.ignored.insert(key), ..g1 }, Passage::Wake)
    } else if ctrl && makes_chord(
        if key.hid == hid::LEFT_CTRL {
            g.right
        } else {
            g.left
        },
        key.device_id,
        now_ns,
    ) {
        (g2, Passage::Chord)
    } else if g.ignored.contains(key) {
        (
            GateState {
                ignored: if kind == EdgeKind::Up {
                    g.ignored.remove(key)
                } else {
                    g.ignored
                },
                ..g2
            },
            Passage::Blocked { ends: kind == EdgeKind::Up },
        )
    } else {
        (g2, Passage::Through)
    }
}

/// Whether the lights go out: nothing is pressed, and nothing was for `timeout_sec` seconds;
/// 0 for never.
pub open spec fn goes_dark(g: GateState, enabled: bool, timeout_sec: u32, now_ns: u64) -> bool {
    enabled && !g.dark && g.pressed == Set::<KeyId>::empty() && timeout_sec > 0 && now_ns
        - g.active_ns >= timeout_sec * 1_000_000_000
}

impl Gate {
    pub fn new(now_ns: u64) -> (r: Self)
        ensures
            r@ == (GateState {
                dark: false,
                active_ns: now_ns,
                pressed: Set::empty(),
                ignored: Set::empty(),
                left: None,
                right: None,
            }),
    {
        Gate {
            screensaver_active: false,
            last_activity_ns: now_ns,
            pressed_keys: KeySet::new(),
            suppressed_keys: KeySet::new(),
            last_leftctrl_down: None,
            last_rightctrl_down: None,
        }
    }

    /// Lets an edge through, or not.
    pub fn pass(&mut self, kind: EdgeKind, key: KeyId, now_ns: u64) -> (r: Passage)
        ensures
            (final(self)@, r) == passed(old(self)@, kind, key, now_ns),
    {
        if kind != EdgeKind::Update {
            self.last_activity_ns = now_ns;
        }
        if kind == EdgeKind::Down {
            self.pressed_keys.insert(key);
        } else if kind == EdgeKind::Up {
            self.pressed_keys.remove(key);
        }
        if self.screensaver_active && kind == EdgeKind::Down {
            self.screensaver_active = false;
            self.suppressed_keys.insert(key);
            return Passage::Wake;
        }
        if kind == EdgeKind::Down && (key.hid == hid::LEFT_CTRL || key.hid == hid::RIGHT_CTRL) {
            let other: Option<(u64, u64)> = if key.hid == hid::LEFT_CTRL {
                self.last_leftctrl_down = Some((key.device_id, now_ns));
                self.last_rightctrl_down
            } else {
                self.last_rightctrl_down = Some((key.device_id, now_ns));
                self.last_leftctrl_down
            };
            match other {
                Some((d, t)) => {
                    if d == key.device_id && (now_ns < t || now_ns - t <= CHORD_NS) {
                        return Passage::Chord;
                    }
                },
                None => {},
            }
        }
        if self.suppressed_keys.contains(key) {
            if kind == EdgeKind::Up {
                self.suppressed_keys.remove(key);
                return Passage::Blocked { ends: true };
            }
            return Passage::Blocked { ends: false };
        }
        Passage::Through
    }

    /// Takes in that nothing happened. Says whether the lights go out.
    pub fn idle(&mut self, enabled: bool, timeout_sec: u32, now_ns: u64) -> (r: bool)
        ensures
            r == goes_dark(old(self)@, enabled, timeout_sec, now_ns),
            final(self)@ == (GateState { dark: old(self)@.dark || r, ..old(self)@ }),
    {
        let limit: u64 = (timeout_sec as u64) * 1_000_000_000;
        if enabled && !self.screensaver_active && self.pressed_keys.is_empty() && timeout_sec > 0
            && now_ns >= self.last_activity_ns && now_ns - self.last_activity_ns >= limit {
            self.screensaver_active = true;
            return true;
        }
        false
    }

    /// Takes in activity that is no key's. Says whether the lights were out; they are on.
    pub fn stir(&mut self, now_ns: u64) -> (r: bool)
        ensures
            r == old(self)@.dark,
            final(self)@ == (GateState { dark: false, active_ns: now_ns, ..old(self)@ }),
    {
        let was: bool = self.screensaver_active;
        self.screensaver_active = false;
        self.last_activity_ns = now_ns;
        was
    }

    /// Whether a key is down.
    pub fn is_pressed(&self, key: KeyId) -> (r: bool)
        ensures
            r == self@.pressed.contains(key),
    {
        self.pressed_keys.contains(key)
    }
}

/// The key that wakes the lights does nothing else: it is ignored from then on.
pub proof fn waking_key_is_ignored(g: GateState, key: KeyId, now_ns: u64)
    requires
        g.dark,
    ensures
        passed(g, EdgeKind::Down, key, now_ns).1 == Passage::Wake,
        passed(g, EdgeKind::Down, key, now_ns).0.ignored.contains(key),
        !passed(g, EdgeKind::Down, key, now_ns).0.dark,
{
}

/// A key that is ignored stays so, whatever other keys do, until it is let go, and does
/// nothing meanwhile but take part in the Ctrl chord.
pub proof fn ignored_until_let_go(
    g: GateState,
    kind: EdgeKind,
    key: KeyId,
    ignored: KeyId,
    now_ns: u64,
)
    requires
        g.ignored.contains(ignored),
    ensures
        passed(g, kind, key, now_ns).0.ignored.contains(ignored) <==> !(key == ignored && kind
            == EdgeKind::Up),
        key == ignored && kind != EdgeKind::Down ==> passed(g, kind, key, now_ns).1
            == (Passage::Blocked { ends: kind == EdgeKind::Up }),
        key == ignored ==> passed(g, kind, key, now_ns).1 != Passage::Through,
{
}

/// Movement of a held key is no activity: it does not keep the lights on, and does not
/// change which keys are down.
pub proof fn movement_is_no_activity(g: GateState, key: KeyId, now_ns: u64)
    ensures
        passed(g, EdgeKind::Update, key, now_ns).0 == g,
{
}

/// The lights go out only while no key is down, and any press brings them back.
pub proof fn dark_only_at_rest(
    g: GateState,
    enabled: bool,
    timeout_sec: u32,
    kind: EdgeKind,
    key: KeyId,
    now_ns: u64,
)
    ensures
        goes_dark(g, enabled, timeout_sec, now_ns) ==> !g.pressed.contains(key),
        kind == EdgeKind::Down ==> !passed(g, kind, key, now_ns).0.dark,
{
}

/// The two Ctrl keys of one keyboard make a chord, in either order, where the second is
/// pressed 400 ms after the first or sooner; on two keyboards they make none, nor with more
/// time between.
pub proof fn ctrl_keys_make_a_chord(
    g: GateState,
    first: KeyId,
    second: KeyId,
    first_ns: u64,
    second_ns: u64,
)
    requires
        !g.dark,
        first_ns <= second_ns,
        (first.hid == hid::LEFT_CTRL && second.hid == hid::RIGHT_CTRL) || (first.hid
            == hid::RIGHT_CTRL && second.hid == hid::LEFT_CTRL),
    ensures
        ({
            let between = passed(g, EdgeKind::Down, first, first_ns).0;
            passed(between, EdgeKind::Down, second, second_ns).1 == Passage::Chord
                <==> first.device_id == second.device_id && second_ns - first_ns <= 400_000_000
        }),
{
}

/// Only a press of a Ctrl key makes a chord; an edge of any other key goes through unless it
/// wakes the lights or its key is ignored.
pub proof fn other_edges_go_through(g: GateState, kind: EdgeKind, key: KeyId, now_ns: u64)
    ensures
        ({
            let p = passed(g, kind, key, now_ns).1;
            &&& p == Passage::Wake <==> g.dark && kind == EdgeKind::Down
            &&& p == Passage::Chord ==> kind == EdgeKind::Down && (key.hid == hid::LEFT_CTRL
                || key.hid == hid::RIGHT_CTRL)
            &&& !(g.dark && kind == EdgeKind::Down) && !g.ignored.contains(key) && !(p
                == Passage::Chord) ==> p == Passage::Through
        }),
{
}

/// Presses and releases count as activity, and tell which keys are down; nothing but a press
/// that wakes the lights makes a key ignored, and nothing but that turns the lights on.
pub proof fn edges_are_noted(g: GateState, kind: EdgeKind, key: KeyId, other: KeyId, now_ns: u64)
    ensures
        ({
            let after = passed(g, kind, key, now_ns).0;
            &&& kind != EdgeKind::Update ==> after.active_ns == now_ns
            &&& kind == EdgeKind::Update ==> after.active_ns == g.active_ns
            &&& kind == EdgeKind::Down ==> after.pressed.contains(key)
            &&& kind == EdgeKind::Up ==> !after.pressed.contains(key)
            &&& other != key || kind == EdgeKind::Update ==> (after.pressed.contains(other)
                <==> g.pressed.contains(other))
            &&& after.dark == (g.dark && kind != EdgeKind::Down)
            &&& after.ignored.contains(other) && !g.ignored.contains(other) ==> other == key
                && g.dark && kind == EdgeKind::Down
        }),
{
}

/// The lights go out exactly when there are any, they are on, no key is down, there is a
/// time set, and that many seconds have passed since the last activity.
pub proof fn lights_go_out_after_the_time_set(
    g: GateState,
    enabled: bool,
    timeout_sec: u32,
    now_ns: u64,
)
    ensures
        goes_dark(g, enabled, timeout_sec, now_ns) <==> {
            &&& enabled
            &&& !g.dark
            &&& forall|k: KeyId| !#[trigger] g.pressed.contains(k)
            &&& timeout_sec > 0
            &&& now_ns >= g.active_ns + timeout_sec * 1_000_000_000
        },
{
    if forall|k: KeyId| !#[trigger] g.pressed.contains(k) {
        assert(g.pressed =~= Set::<KeyId>::empty());
    }
}

} // verus!
