//! What the instrument is doing, as far as its lights and its files show it.
use vstd::prelude::*;
use crate::pitch::GuideMode;

verus! {

/// What the pressure of a held key is made of.
#[derive(Debug, Clone, Copy, PartialEq, Eq, Structural)]
pub enum AftertouchMode {
    SpeedMapped,
    PeakMapped,
    Off,
}

impl AftertouchMode {
    pub open spec fn text(self) -> Seq<char> {
        match self {
            AftertouchMode::SpeedMapped => "speed-mapped"@,
            AftertouchMode::PeakMapped => "peak-mapped"@,
            AftertouchMode::Off => "off"@,
        }
    }

    pub fn name(&self) -> (r: &'static str)
        ensures
            r@ == self.text(),
    {
        match self {
            AftertouchMode::SpeedMapped => "speed-mapped",
            AftertouchMode::PeakMapped => "peak-mapped",
            AftertouchMode::Off => "off",
        }
    }

    /// The mode that follows in turn.
    pub open spec fn turned(self) -> AftertouchMode {
        match self {
            AftertouchMode::SpeedMapped => AftertouchMode::PeakMapped,
            AftertouchMode::PeakMapped => AftertouchMode::Off,
            AftertouchMode::Off => AftertouchMode::SpeedMapped,
        }
    }

    /// The mode that follows in turn.
    pub fn next(&self) -> (r: AftertouchMode)
        ensures
            r == self.turned(),
    {
        match self {
            AftertouchMode::SpeedMapped => AftertouchMode::PeakMapped,
            AftertouchMode::PeakMapped => AftertouchMode::Off,
            AftertouchMode::Off => AftertouchMode::SpeedMapped,
        }
    }
}

/// Three turns bring every mode back, and no fewer.
pub proof fn aftertouch_modes_take_turns(m: AftertouchMode)
    ensures
        m.turned() != m,
        m.turned().turned() != m,
        m.turned().turned().turned() == m,
{
}

/// What the chord trainer shows.
#[derive(Debug, Clone, Copy, PartialEq, Eq, Structural)]
pub enum TrainerMode {
    Off,
    Wait,
    Active,
}

/// The colour of the control bar.
pub open spec fn bar_rgb(tm: TrainerMode) -> (u8, u8, u8) {
    match tm {
        TrainerMode::Wait => (0, 0, 0),
        TrainerMode::Active => (0, 255, 0),
        TrainerMode::Off => (255, 0, 0),
    }
}

/// The colour of the control bar.
pub fn control_bar_rgb_for_tm(tm: TrainerMode) -> (r: (u8, u8, u8))
    ensures
        r == bar_rgb(tm),
{
    match tm {
        TrainerMode::Wait => (0, 0, 0),
        TrainerMode::Active => (0, 255, 0),
        TrainerMode::Off => (255, 0, 0),
    }
}

/// What the trainer shows while the guide is in `mode`.
pub open spec fn trainer_for(mode: GuideMode) -> TrainerMode {
    match mode {
        GuideMode::Off => TrainerMode::Off,
        GuideMode::WaitRoot => TrainerMode::Wait,
        GuideMode::Active => TrainerMode::Active,
    }
}

impl GuideMode {
    pub open spec fn text(self) -> Seq<char> {
        match self {
            GuideMode::Off => "off"@,
            GuideMode::WaitRoot => "wait_root"@,
            GuideMode::Active => "active"@,
        }
    }

    pub fn name(&self) -> (r: &'static str)
        ensures
            r@ == self.text(),
    {
        match self {
            GuideMode::Off => "off",
            GuideMode::WaitRoot => "wait_root",
            GuideMode::Active => "active",
        }
    }

    /// What the trainer shows in this mode.
    pub fn trainer(&self) -> (r: TrainerMode)
        ensures
            r == trainer_for(*self),
    {
        match self {
            GuideMode::Off => TrainerMode::Off,
            GuideMode::WaitRoot => TrainerMode::Wait,
            GuideMode::Active => TrainerMode::Active,
        }
    }
}

/// The modes come in turn: by speed, by peak, none, and again.
pub proof fn aftertouch_goes_from_speed_to_peak_to_none()
    ensures
        AftertouchMode::SpeedMapped.turned() == AftertouchMode::PeakMapped,
        AftertouchMode::PeakMapped.turned() == AftertouchMode::Off,
        AftertouchMode::Off.turned() == AftertouchMode::SpeedMapped,
{
}

/// The control bar is red while there is no guide, out while one waits for its root, and
/// green while it is active.
pub proof fn bars_show_the_guide(mode: GuideMode)
    ensures
        mode == GuideMode::Off ==> bar_rgb(trainer_for(mode)) == (255u8, 0u8, 0u8),
        mode == GuideMode::WaitRoot ==> bar_rgb(trainer_for(mode)) == (0u8, 0u8, 0u8),
        mode == GuideMode::Active ==> bar_rgb(trainer_for(mode)) == (0u8, 255u8, 0u8),
        mode == GuideMode::Off <==> trainer_for(mode) == TrainerMode::Off,
        mode == GuideMode::WaitRoot <==> trainer_for(mode) == TrainerMode::Wait,
{
}

/// No two modes go by one name.
pub proof fn modes_go_by_their_names(a: AftertouchMode, b: AftertouchMode, g: GuideMode, h: GuideMode)
    ensures
        a.text() == b.text() ==> a == b,
        g.text() == h.text() ==> g == h,
        AftertouchMode::Off.text() == "off"@,
        AftertouchMode::PeakMapped.text() == "peak-mapped"@,
        AftertouchMode::SpeedMapped.text() == "speed-mapped"@,
        GuideMode::Off.text() == "off"@,
        GuideMode::WaitRoot.text() == "wait_root"@,
        GuideMode::Active.text() == "active"@,
{
    reveal_strlit("speed-mapped");
    reveal_strlit("peak-mapped");
    reveal_strlit("off");
    reveal_strlit("wait_root");
    reveal_strlit("active");
    assert("speed-mapped"@.len() == 12 && "peak-mapped"@.len() == 11 && "off"@.len() == 3);
    assert("wait_root"@.len() == 9 && "active"@.len() == 6);
}

} // verus!
