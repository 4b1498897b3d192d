//! The keys that control the instrument: the octave, the pressure, the velocity profile and
//! the layout.
//!
//! Times are nanoseconds since the program began.
use vstd::prelude::*;
use crate::hid;
use crate::modes::AftertouchMode;
use crate::table::{KeySet, Table};
use crate::text;

verus! {

/// How long a second press of the aftertouch key is ignored.
pub const DEBOUNCE_NS: u64 = 160_000_000;

/// How many velocity profiles there are.
pub const PROFILES: usize = 5;

/// What a key is bound to.
#[derive(Debug, Clone, Copy, PartialEq, Eq, Structural)]
pub enum Action {
    LayoutNext,
    LayoutPrev,
    OctaveUp,
    OctaveDown,
    /// Something unknown: the key does nothing.
    Other,
}

/// The action with the name `s`.
pub open spec fn action_named(s: Seq<char>) -> Action {
    if s == "layout_next"@ {
        Action::LayoutNext
    } else if s == "layout_prev"@ {
        Action::LayoutPrev
    } else if s == "octave_up"@ {
        Action::OctaveUp
    } else if s == "octave_down"@ {
        Action::OctaveDown
    } else {
        Action::Other
    }
}

/// The action with the name `s`.
pub fn action_of(s: &str) -> (r: Action)
    ensures
        r == action_named(s@),
{
    let cs: Vec<char> = text::chars_of(s);
    if text::same_text(cs.as_slice(), "layout_next") {
        Action::LayoutNext
    } else if text::same_text(cs.as_slice(), "layout_prev") {
        Action::LayoutPrev
    } else if text::same_text(cs.as_slice(), "octave_up") {
        Action::OctaveUp
    } else if text::same_text(cs.as_slice(), "octave_down") {
        Action::OctaveDown
    } else {
        Action::Other
    }
}

/// Whether a key belongs to the control bar, which key's LEDs show it, and in which colour
/// where it is not the usual one.
#[derive(Debug, Clone, Copy, PartialEq, Eq)]
pub struct BarKey {
    pub led_hid: u8,
    pub flash: Option<(u8, u8, u8)>,
}

/// The part of a key in the control bar. The arrows are the bar's right keys on another
/// layer, and show in cyan.
pub open spec fn bar_key(has_cols: bool, code: u8) -> Option<BarKey> {
    if code == hid::ARROW_LEFT {
        Some(BarKey { led_hid: hid::RIGHT_ALT, flash: Some((0, 255, 255)) })
    } else if code == hid::ARROW_DOWN {
        Some(BarKey { led_hid: hid::CONTEXT_MENU, flash: Some((0, 255, 255)) })
    } else if code == hid::ARROW_RIGHT {
        Some(BarKey { led_hid: hid::RIGHT_CTRL, flash: Some((0, 255, 255)) })
    } else if has_cols {
        Some(BarKey { led_hid: code, flash: None })
    } else {
        None
    }
}

/// The part of a key in the control bar.
pub fn bar_key_of(bar_cols: &Table<u8, Vec<u8>>, code: u8) -> (r: Option<BarKey>)
    ensures
        r == bar_key(bar_cols@.contains_key(code), code),
{
    if code == hid::ARROW_LEFT {
        Some(BarKey { led_hid: hid::RIGHT_ALT, flash: Some((0, 255, 255)) })
    } else if code == hid::ARROW_DOWN {
        Some(BarKey { led_hid: hid::CONTEXT_MENU, flash: Some((0, 255, 255)) })
    } else if code == hid::ARROW_RIGHT {
        Some(BarKey { led_hid: hid::RIGHT_CTRL, flash: Some((0, 255, 255)) })
    } else if bar_cols.contains(code) {
        Some(BarKey { led_hid: code, flash: None })
    } else {
        None
    }
}

/// What a press of a key sets.
#[derive(Debug, Clone, Copy, PartialEq, Eq, Structural)]
pub enum Setting {
    /// Nothing.
    Nothing,
    /// The press threshold, down or up.
    Threshold { up: bool },
    /// The speed at which the pressure is greatest, down or up.
    SpeedMax { up: bool },
    /// The velocity profile: the next.
    Profile,
    /// The aftertouch mode: the next.
    Aftertouch,
    /// The aftertouch key again, too soon after the press before, `since_ns` ago.
    Bounced { since_ns: u64 },
    /// Whether the keyboard plays an octave up.
    Hold { on: bool },
}

/// What the control keys have set.
#[derive(Debug, Clone)]
pub struct Controls {
    pub octave_shift: i8,
    /// The keyboards that play an octave up.
    pub hold: KeySet<u64>,
    pub aftertouch: AftertouchMode,
    pub profile: usize,
    /// When the aftertouch key of each keyboard last took effect.
    pub toggled_ns: Table<u64, u64>,
}

impl Controls {
    /// The octave is moved by fifteen at most, and there is such a velocity profile.
    pub open spec fn wf(self) -> bool {
        -15 <= self.octave_shift <= 15 && self.profile < PROFILES
    }

    /// Whether a press of the aftertouch key comes too soon.
    pub open spec fn bounces(self, device_id: u64, now_ns: u64) -> bool {
        self.toggled_ns@.contains_key(device_id) && now_ns - self.toggled_ns@[device_id]
            < DEBOUNCE_NS
    }

    /// What a press of a key sets.
    pub open spec fn setting(self, device_id: u64, code: u8, now_ns: u64) -> Setting {
        let off = self.aftertouch == AftertouchMode::Off;
        if code == hid::ARROW_LEFT {
            if off {
                Setting::Threshold { up: false }
            } else {
                Setting::SpeedMax { up: false }
            }
        } else if code == hid::ARROW_RIGHT {
            if off {
                Setting::Threshold { up: true }
            } else {
                Setting::SpeedMax { up: true }
            }
        } else if code == hid::ARROW_DOWN {
            Setting::Profile
        } else if code == hid::RIGHT_ALT {
            if self.bounces(device_id, now_ns) {
                Setting::Bounced {
                    since_ns: if now_ns >= self.toggled_ns@[device_id] {
                        (now_ns - self.toggled_ns@[device_id]) as u64
                    } else {
                        0
                    },
                }
            } else {
                Setting::Aftertouch
            }
        } else if code == hid::SPACE {
            Setting::Hold { on: !self.hold@.contains(device_id) }
        } else {
            Setting::Nothing
        }
    }

    pub fn new(no_aftertouch: bool) -> (r: Self)
        ensures
            r.wf(),
            r.octave_shift == 0,
            r.hold@ == Set::<u64>::empty(),
            r.aftertouch == (if no_aftertouch {
                AftertouchMode::Off
            } else {
                AftertouchMode::SpeedMapped
            }),
            r.profile == 0,
            r.toggled_ns@ == Map::<u64, u64>::empty(),
    {
        let aftertouch: AftertouchMode = if no_aftertouch {
            AftertouchMode::Off
        } else {
            AftertouchMode::SpeedMapped
        };
        Controls {
            octave_shift: 0,
            hold: KeySet::new(),
            aftertouch,
            profile: 0,
            toggled_ns: Table::new(),
        }
    }

    /// Takes in a press of a key, and says what it sets.
    pub fn key_down(&mut self, device_id: u64, code: u8, now_ns: u64) -> (r: Setting)
        requires
            old(self).wf(),
        ensures
            final(self).wf(),
            r == old(self).setting(device_id, code, now_ns),
            final(self).octave_shift == old(self).octave_shift,
            final(self).profile == (if r is Profile {
                (old(self).profile + 1) % 5
            } else {
                old(self).profile as int
            }),
            final(self).aftertouch == (if r is Aftertouch {
                old(self).aftertouch.turned()
            } else {
                old(self).aftertouch
            }),
            final(self).toggled_ns@ == (if r is Aftertouch {
                old(self).toggled_ns@.insert(device_id, now_ns)
            } else {
                old(self).toggled_ns@
            }),
            final(self).hold@ == (match r {
                Setting::Hold { on: true } => old(self).hold@.insert(device_id),
                Setting::Hold { on: false } => old(self).hold@.remove(device_id),
                _ => old(self).hold@,
            }),
    {
        let off: bool = self.aftertouch == AftertouchMode::Off;
        if code == hid::ARROW_LEFT {
            if off {
                Setting::Threshold { up: false }
            } else {
                Setting::SpeedMax { up: false }
            }
        } else if code == hid::ARROW_RIGHT {
            if off {
                Setting::Threshold { up: true }
            } else {
                Setting::SpeedMax { up: true }
            }
        } else if code == hid::ARROW_DOWN {
            self.profile = (self.profile + 1) % PROFILES;
            Setting::Profile
        } else if code == hid::RIGHT_ALT {
            match self.toggled_ns.get(device_id) {
                Some(t) => {
                    let t: u64 = *t;
                    if now_ns < t {
                        return Setting::Bounced { since_ns: 0 };
                    }
                    if now_ns - t < DEBOUNCE_NS {
                        return Setting::Bounced { since_ns: now_ns - t };
                    }
                },
                None => {},
            }
            self.toggled_ns.insert(device_id, now_ns);
            self.aftertouch = self.aftertouch.next();
            Setting::Aftertouch
        } else if code == hid::SPACE {
            if self.hold.contains(device_id) {
                self.hold.remove(device_id);
                Setting::Hold { on: false }
            } else {
                self.hold.insert(device_id);
                Setting::Hold { on: true }
            }
        } else {
            Setting::Nothing
        }
    }

    /// An octave up, as far as there are octaves.
    pub fn octave_up(&mut self)
        requires
            old(self).wf(),
        ensures
            final(self).wf(),
            final(self).octave_shift == (if old(self).octave_shift < 15 {
                old(self).octave_shift + 1
            } else {
                15
            }),
            *final(self) == (Controls { octave_shift: final(self).octave_shift, ..*old(self) }),
    {
        if self.octave_shift < 15 {
            self.octave_shift = self.octave_shift + 1;
        }
    }

    /// An octave down, as far as there are octaves.
    pub fn octave_down(&mut self)
        requires
            old(self).wf(),
        ensures
            final(self).wf(),
            final(self).octave_shift == (if old(self).octave_shift > -15 {
                old(self).octave_shift - 1
            } else {
                -15
            }),
            *final(self) == (Controls { octave_shift: final(self).octave_shift, ..*old(self) }),
    {
        if self.octave_shift > -15 {
            self.octave_shift = self.octave_shift - 1;
        }
    }

    /// How far the channels of a keyboard are moved.
    pub fn shift_of(&self, device_id: u64) -> (r: i16)
        requires
            self.wf(),
        ensures
            r == self.octave_shift + (if self.hold@.contains(device_id) {
                1int
            } else {
                0
            }),
    {
        let hold: i16 = if self.hold.contains(device_id) {
            1
        } else {
            0
        };
        (self.octave_shift as i16) + hold
    }
}

/// The layout that follows, in a ring of `n`.
pub open spec fn after_layout(i: int, n: int) -> int {
    (i + 1) % n
}

/// The layout before, in a ring of `n`.
pub open spec fn before_layout(i: int, n: int) -> int {
    if i == 0 {
        n - 1
    } else {
        i - 1
    }
}

/// The layout that follows, in a ring of `n`.
pub fn layout_next(i: usize, n: usize) -> (r: usize)
    requires
        i < n,
    ensures
        r == after_layout(i as int, n as int),
        r < n,
{
    if i + 1 == n {
        assert((i + 1) % (n as int) == 0) by {
            vstd::arithmetic::div_mod::lemma_mod_self_0(n as int);
        }
        0
    } else {
        assert((i + 1) % (n as int) == i + 1) by {
            vstd::arithmetic::div_mod::lemma_small_mod((i + 1) as nat, n as nat);
        }
        i + 1
    }
}

/// The layout before, in a ring of `n`.
pub fn layout_prev(i: usize, n: usize) -> (r: usize)
    requires
        i < n,
    ensures
        r == before_layout(i as int, n as int),
        r < n,
{
    if i == 0 {
        n - 1
    } else {
        i - 1
    }
}

/// Stepping through the layouts forth and back, or back and forth, ends where it began.
pub proof fn layouts_go_round(i: int, n: int)
    requires
        0 <= i < n,
    ensures
        before_layout(after_layout(i, n), n) == i,
        after_layout(before_layout(i, n), n) == i,
{
    if i == n - 1 {
        vstd::arithmetic::div_mod::lemma_mod_self_0(n);
    } else {
        vstd::arithmetic::div_mod::lemma_small_mod((i + 1) as nat, n as nat);
    }
    if i == 0 {
        vstd::arithmetic::div_mod::lemma_mod_self_0(n);
    } else {
        vstd::arithmetic::div_mod::lemma_small_mod(i as nat, n as nat);
    }
}

/// What each key of the bar sets. The left and right arrows lower and raise the press
/// threshold while there is no aftertouch, and else the speed at which the pressure is
/// greatest; the down arrow goes to the next velocity profile; the right Alt key turns the
/// aftertouch mode, unless it did so less than 160 ms ago on the same keyboard; the space bar
/// puts its keyboard an octave up, or back. No other key sets anything.
pub proof fn keys_set_what_they_are_for(c: Controls, device_id: u64, code: u8, now_ns: u64)
    ensures
        ({
            let off = c.aftertouch == AftertouchMode::Off;
            let s = c.setting(device_id, code, now_ns);
            let soon = c.toggled_ns@.contains_key(device_id) && now_ns - c.toggled_ns@[device_id]
                < 160_000_000;
            &&& code == hid::ARROW_LEFT && off ==> s == Setting::Threshold { up: false }
            &&& code == hid::ARROW_RIGHT && off ==> s == Setting::Threshold { up: true }
            &&& code == hid::ARROW_LEFT && !off ==> s == Setting::SpeedMax { up: false }
            &&& code == hid::ARROW_RIGHT && !off ==> s == Setting::SpeedMax { up: true }
            &&& code == hid::ARROW_DOWN ==> s == Setting::Profile
            &&& code == hid::RIGHT_ALT && !soon ==> s == Setting::Aftertouch
            &&& code == hid::RIGHT_ALT && soon ==> s is Bounced
            &&& code == hid::RIGHT_ALT && soon && now_ns >= c.toggled_ns@[device_id] ==> s
                == Setting::Bounced { since_ns: (now_ns - c.toggled_ns@[device_id]) as u64 }
            &&& code == hid::SPACE && c.hold@.contains(device_id) ==> s == Setting::Hold { on: false }
            &&& code == hid::SPACE && !c.hold@.contains(device_id) ==> s == Setting::Hold { on: true }
            &&& code != hid::ARROW_LEFT && code != hid::ARROW_RIGHT && code != hid::ARROW_DOWN && code
                != hid::RIGHT_ALT && code != hid::SPACE ==> s == Setting::Nothing
        }),
{
}

/// The codes of the keys that set something are those of the usage tables.
pub proof fn setting_keys_by_usage()
    ensures
        hid::ARROW_RIGHT == 79,
        hid::ARROW_LEFT == 80,
        hid::ARROW_DOWN == 81,
        hid::SPACE == 44,
        hid::RIGHT_ALT == 230,
        hid::CONTEXT_MENU == 101,
        hid::LEFT_CTRL == 224,
        hid::RIGHT_CTRL == 228,
        hid::LEFT_ALT == 226,
        hid::LEFT_META == 227,
{
}

/// The arrows are in the control bar whether they have LEDs or not, and light up in cyan on
/// those of the right Alt, the menu and the right Ctrl key; any other key is in the bar
/// exactly if it has LEDs there, which light up in the usual colour.
pub proof fn arrows_show_on_the_right(has_cols: bool, code: u8)
    ensures
        ({
            let cyan = Some((0u8, 255u8, 255u8));
            let b = bar_key(has_cols, code);
            &&& code == hid::ARROW_LEFT ==> b == Some(
                BarKey { led_hid: hid::RIGHT_ALT, flash: cyan },
            )
            &&& code == hid::ARROW_DOWN ==> b == Some(
                BarKey { led_hid: hid::CONTEXT_MENU, flash: cyan },
            )
            &&& code == hid::ARROW_RIGHT ==> b == Some(
                BarKey { led_hid: hid::RIGHT_CTRL, flash: cyan },
            )
            &&& code != hid::ARROW_LEFT && code != hid::ARROW_DOWN && code != hid::ARROW_RIGHT ==> {
                &&& has_cols ==> b == Some(BarKey { led_hid: code, flash: None })
                &&& !has_cols ==> b is None
            }
        }),
{
}

/// An action goes by one name alone, and every other name is none.
pub proof fn actions_go_by_their_names(s: Seq<char>)
    ensures
        action_named(s) == Action::LayoutNext <==> s == "layout_next"@,
        action_named(s) == Action::LayoutPrev <==> s == "layout_prev"@,
        action_named(s) == Action::OctaveUp <==> s == "octave_up"@,
        action_named(s) == Action::OctaveDown <==> s == "octave_down"@,
{
    reveal_strlit("layout_next");
    reveal_strlit("layout_prev");
    reveal_strlit("octave_up");
    reveal_strlit("octave_down");
    assert("layout_next"@[7] == 'n' && "layout_prev"@[7] == 'p');
    assert("octave_up"@.len() == 9 && "octave_down"@.len() == 11);
    assert("octave_down"@[7] == 'd');
    assert("layout_next"@.len() == 11 && "layout_prev"@.len() == 11);
}

/// The layouts follow one another in the order of the list, and the first follows the last.
pub proof fn layouts_follow_the_list(i: int, n: int)
    requires
        0 <= i < n,
    ensures
        i + 1 < n ==> after_layout(i, n) == i + 1,
        i + 1 == n ==> after_layout(i, n) == 0,
        i > 0 ==> before_layout(i, n) == i - 1,
        i == 0 ==> before_layout(i, n) == n - 1,
{
    if i + 1 == n {
        vstd::arithmetic::div_mod::lemma_mod_self_0(n);
    } else {
        vstd::arithmetic::div_mod::lemma_small_mod((i + 1) as nat, n as nat);
    }
}

} // verus!
