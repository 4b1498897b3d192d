//! The configuration: boards, layouts, key bindings and lights.
use vstd::prelude::*;
use crate::text;
use crate::text::IntError;

verus! {

/// The configuration but for its tuning values that are fractions.
#[derive(Debug, Clone)]
pub struct Config {
    pub midi_out_name: String,
    /// How long the peak of a press is followed before the note begins, in milliseconds.
    pub velocity_peak_track_ms: u32,
    /// How long a key must rest below the threshold before its note ends, in milliseconds.
    pub aftershock_ms: u32,
    /// Rise time of the aftertouch envelope, in milliseconds.
    pub aftertouch_speed_attack_ms: u32,
    /// Fall time of the aftertouch envelope, in milliseconds.
    pub aftertouch_speed_decay_ms: u32,
    pub boards: Vec<BoardConfig>,
    pub layouts: Vec<LayoutConfig>,
    pub actions: ActionBindings,
    pub rgb: RgbConfig,
    pub control_bar: ControlBarConfig,
    pub hid_overrides: Vec<HidOverride>,
    /// Where captures and dumps are written.
    pub output_dir: Option<String>,
    /// Whether a capture runs from the start.
    pub capture_always_on: bool,
}

pub fn default_midi_out_name() -> (r: String)
    ensures
        r@ == "XenWTN"@,
{
    text::text_of("XenWTN")
}

pub fn default_velocity_peak_track_ms() -> (r: u32)
    ensures
        r == 6,
{
    6
}

pub fn default_aftershock_ms() -> (r: u32)
    ensures
        r == 35,
{
    35
}

pub fn default_aftertouch_speed_attack_ms() -> (r: u32)
    ensures
        r == 12,
{
    12
}

pub fn default_aftertouch_speed_decay_ms() -> (r: u32)
    ensures
        r == 250,
{
    250
}

pub fn default_control_bar_row() -> (r: u8)
    ensures
        r == 5,
{
    5
}

pub fn default_screensaver_timeout_sec() -> (r: u32)
    ensures
        r == 300,
{
    300
}

pub fn default_highlight_hex() -> (r: String)
    ensures
        r@ == "FFFFFF"@,
{
    text::text_of("FFFFFF")
}

/// One number or several.
#[derive(Debug, Clone)]
pub enum OneOrManyU8 {
    One(u8),
    Many(Vec<u8>),
}

impl View for OneOrManyU8 {
    type V = Seq<u8>;

    open spec fn view(&self) -> Seq<u8> {
        match self {
            OneOrManyU8::One(v) => seq![*v],
            OneOrManyU8::Many(vs) => vs@,
        }
    }
}

impl OneOrManyU8 {
    /// The numbers as a list.
    pub fn as_vec(&self) -> (r: Vec<u8>)
        ensures
            r@ == self@,
    {
        match self {
            OneOrManyU8::One(v) => {
                let mut r: Vec<u8> = Vec::new();
                r.push(*v);
                assert(r@ =~= seq![*v]);
                r
            },
            OneOrManyU8::Many(vs) => {
                let mut r: Vec<u8> = Vec::new();
                for i in 0..vs.len()
                    invariant
                        r@ == vs@.take(i as int),
                {
                    r.push(vs[i]);
                }
                assert(r@ =~= vs@);
                r
            },
        }
    }
}

/// The bar of keys that control the instrument.
#[derive(Debug, Clone)]
pub struct ControlBarConfig {
    /// The LED row of the bar (0 to 5), as the device counts its rows.
    pub row: u8,
    /// The LED columns (0 to 13) of each key of the bar, by the key's name.
    pub led_cols_by_hid: Vec<(String, OneOrManyU8)>,
}

/// The names and columns of `v`.
pub open spec fn cols_by_name(v: Seq<(String, OneOrManyU8)>) -> Seq<(Seq<char>, Seq<u8>)> {
    v.map_values(|e: (String, OneOrManyU8)| (e.0@, e.1@))
}

/// The bottom row of a 60% ANSI keyboard: the space bar spans several LEDs.
pub open spec fn default_bar() -> Seq<(Seq<char>, Seq<u8>)> {
    seq![
        ("LeftCtrl"@, seq![0u8]),
        ("LeftMeta"@, seq![1u8]),
        ("LeftAlt"@, seq![2u8]),
        ("Space"@, seq![4u8, 5, 6, 7, 8]),
        ("RightAlt"@, seq![10u8]),
        ("ContextMenu"@, seq![11u8]),
        ("RightCtrl"@, seq![12u8]),
    ]
}

impl Default for ControlBarConfig {
    fn default() -> (r: Self)
        ensures
            r.row == 5,
            cols_by_name(r.led_cols_by_hid@) == default_bar(),
    {
        let space: Vec<u8> = vec![4, 5, 6, 7, 8];
        assert(space@ =~= seq![4u8, 5, 6, 7, 8]);
        let cols: Vec<(String, OneOrManyU8)> = vec![
            (text::text_of("LeftCtrl"), OneOrManyU8::One(0)),
            (text::text_of("LeftMeta"), OneOrManyU8::One(1)),
            (text::text_of("LeftAlt"), OneOrManyU8::One(2)),
            (text::text_of("Space"), OneOrManyU8::Many(space)),
            (text::text_of("RightAlt"), OneOrManyU8::One(10)),
            (text::text_of("ContextMenu"), OneOrManyU8::One(11)),
            (text::text_of("RightCtrl"), OneOrManyU8::One(12)),
        ];
        assert(cols_by_name(cols@) =~= default_bar());
        ControlBarConfig { row: default_control_bar_row(), led_cols_by_hid: cols }
    }
}

/// A keyboard and its part in the layouts.
#[derive(Debug, Clone)]
pub struct BoardConfig {
    /// The device's number, as text: it may be larger than a configuration file's
    /// integers.
    pub device_id: Option<String>,
    /// Which board of the layout this is.
    pub wtn_board: u8,
    /// How the board is turned: 0 or 180 degrees.
    pub rotation_deg: u16,
    /// Whether the columns count from the right.
    pub mirror_cols: bool,
    pub meta_x: i32,
    pub meta_y: i32,
    /// The key whose travel is sent as a controller, by name.
    pub cc_analog_hid: Option<String>,
    /// The controller that it is sent as.
    pub cc_analog_cc: Option<u8>,
}

/// A device number that is none.
#[derive(Debug, Clone)]
pub struct DeviceIdError {
    pub device_id: String,
    pub cause: IntError,
}

impl DeviceIdError {
    pub fn message(&self) -> (r: String)
        ensures
            r@ == "Invalid device_id '"@ + self.device_id@ + "': "@ + self.cause.text(),
    {
        let mut out = text::text_of("Invalid device_id '");
        text::push_text(&mut out, self.device_id.as_str());
        text::push_text(&mut out, "': ");
        text::push_text(&mut out, self.cause.message());
        out
    }
}

/// The device number of a board, where it names one.
pub open spec fn device_number(b: BoardConfig) -> Result<Option<nat>, IntError> {
    match b.device_id {
        None => Ok(None),
        Some(s) => match text::read_unsigned(text::trim(s@), u64::MAX as nat) {
            Ok(v) => Ok(Some(v)),
            Err(e) => Err(e),
        },
    }
}

/// The key and the controller of a board's analog controller: the left Meta key, on
/// controller 4 for board 0 and 3 for board 1, unless the board says otherwise.
pub open spec fn analog_controller(b: BoardConfig) -> Option<(Seq<char>, u8)> {
    let cc = match b.cc_analog_cc {
        Some(c) => Some(c),
        None => if b.wtn_board == 0 {
            Some(4u8)
        } else if b.wtn_board == 1 {
            Some(3u8)
        } else {
            None
        },
    };
    let name = match b.cc_analog_hid {
        Some(s) => s@,
        None => "LeftMeta"@,
    };
    match cc {
        Some(c) => Some((name, c)),
        None => None,
    }
}

impl BoardConfig {
    /// The board's device number, where it names one.
    pub fn device_id_u64(&self) -> (r: Result<Option<u64>, DeviceIdError>)
        ensures
            match device_number(*self) {
                Ok(None) => r == Ok::<Option<u64>, DeviceIdError>(None),
                Ok(Some(v)) => r == Ok::<Option<u64>, DeviceIdError>(Some(v as u64)) && v
                    <= u64::MAX,
                Err(e) => r is Err && r->Err_0.cause == e && r->Err_0.device_id@
                    == self.device_id->Some_0@,
            },
    {
        match &self.device_id {
            None => Ok(None),
            Some(s) => {
                let cs: Vec<char> = text::chars_of(s.as_str());
                match text::read_u64(text::trimmed(cs.as_slice())) {
                    Ok(v) => Ok(Some(v)),
                    Err(cause) => Err(
                        DeviceIdError { device_id: text::text_of(s.as_str()), cause },
                    ),
                }
            },
        }
    }

    /// The key, by name, and the controller of the board's analog controller.
    pub fn cc_analog(&self) -> (r: Option<(String, u8)>)
        ensures
            match analog_controller(*self) {
                Some((name, cc)) => r is Some && r->Some_0.0@ == name && r->Some_0.1 == cc,
                None => r is None,
            },
    {
        let cc: u8 = match self.cc_analog_cc {
            Some(c) => c,
            None => if self.wtn_board == 0 {
                4
            } else if self.wtn_board == 1 {
                3
            } else {
                return None;
            },
        };
        let name: String = match &self.cc_analog_hid {
            Some(s) => text::text_of(s.as_str()),
            None => text::text_of("LeftMeta"),
        };
        Some((name, cc))
    }
}

/// A layout: a file of cells and the division of the octave it is for.
#[derive(Debug, Clone, PartialEq, Eq)]
pub struct LayoutConfig {
    pub id: String,
    pub name: String,
    pub wtn_path: String,
    pub edo_divisions: i32,
    pub pitch_offset: i32,
}

/// What a layout is sorted by: its name, or its id where the name is blank, and then its
/// id.
pub open spec fn layout_key(l: LayoutConfig) -> (Seq<char>, Seq<char>) {
    (
        if text::trim(l.name@).len() == 0 {
            l.id@
        } else {
            l.name@
        },
        l.id@,
    )
}

impl LayoutConfig {
    /// What the layout is sorted by.
    pub fn sort_key(&self) -> (r: (&str, &str))
        ensures
            (r.0@, r.1@) == layout_key(*self),
    {
        let cs: Vec<char> = text::chars_of(self.name.as_str());
        let primary: &str = if text::trimmed(cs.as_slice()).len() == 0 {
            self.id.as_str()
        } else {
            self.name.as_str()
        };
        (primary, self.id.as_str())
    }
}

/// Which key does what: pairs of an action's name and a key's name.
#[derive(Debug, Clone)]
pub struct ActionBindings {
    pub by_action: Vec<(String, String)>,
}

/// The texts of the pairs of `v`.
pub open spec fn name_pairs(v: Seq<(String, String)>) -> Seq<(Seq<char>, Seq<char>)> {
    v.map_values(|e: (String, String)| (e.0@, e.1@))
}

impl Default for ActionBindings {
    fn default() -> (r: Self)
        ensures
            r.by_action@.len() == 0,
    {
        ActionBindings { by_action: Vec::new() }
    }
}

impl ActionBindings {
    /// The bindings of a fresh configuration.
    pub fn default_with_sane_keys() -> (r: Self)
        ensures
            name_pairs(r.by_action@) == seq![
                ("layout_prev"@, "RightCtrl"@),
                ("layout_next"@, "RightAlt"@),
                ("octave_down"@, "LeftAlt"@),
                ("octave_up"@, "ContextMenu"@),
            ],
    {
        let by_action: Vec<(String, String)> = vec![
            (text::text_of("layout_prev"), text::text_of("RightCtrl")),
            (text::text_of("layout_next"), text::text_of("RightAlt")),
            (text::text_of("octave_down"), text::text_of("LeftAlt")),
            (text::text_of("octave_up"), text::text_of("ContextMenu")),
        ];
        assert(name_pairs(by_action@) =~= seq![
            ("layout_prev"@, "RightCtrl"@),
            ("layout_next"@, "RightAlt"@),
            ("octave_down"@, "LeftAlt"@),
            ("octave_up"@, "ContextMenu"@),
        ]);
        ActionBindings { by_action }
    }
}

/// The lights.
#[derive(Debug, Clone)]
pub struct RgbConfig {
    /// Whether the lights are driven at all.
    pub enabled: bool,
    /// After how many idle seconds the lights go off; 0 for never.
    pub screensaver_timeout_sec: u32,
    /// Which light device a board has, by the board's decimal number.
    pub device_index_by_wtn_board: Vec<(String, u8)>,
    /// The colour of a pressed key.
    pub highlight_hex: String,
}

impl Default for RgbConfig {
    fn default() -> (r: Self)
        ensures
            r.enabled,
            r.screensaver_timeout_sec == 300,
            r.device_index_by_wtn_board@.len() == 0,
            r.highlight_hex@ == "FFFFFF"@,
    {
        RgbConfig {
            enabled: true,
            screensaver_timeout_sec: default_screensaver_timeout_sec(),
            device_index_by_wtn_board: Vec::new(),
            highlight_hex: default_highlight_hex(),
        }
    }
}

/// The value of the first of the pairs with the key `k`.
pub open spec fn first_value(v: Seq<(String, u8)>, k: Seq<char>) -> Option<u8>
    decreases v.len(),
{
    if v.len() == 0 {
        None
    } else if v[0].0@ == k {
        Some(v[0].1)
    } else {
        first_value(v.drop_first(), k)
    }
}

impl RgbConfig {
    /// The light device of a board: the one set for it, or the one with its number.
    pub fn rgb_device_index_for_wtn_board(&self, wtn_board: u8) -> (r: u8)
        ensures
            r == match first_value(
                self.device_index_by_wtn_board@,
                text::decimal(wtn_board as nat),
            ) {
                Some(i) => i,
                None => wtn_board,
            },
    {
        let k = text::decimal_of(wtn_board as u64);
        let kc: Vec<char> = text::chars_of(k.as_str());
        let v = &self.device_index_by_wtn_board;
        assert(v@.skip(0) =~= v@);
        let n: usize = v.len();
        let mut i: usize = 0;
        while i < n
            invariant
                n == v@.len(),
                v@ == self.device_index_by_wtn_board@,
                i <= n,
                kc@ == text::decimal(wtn_board as nat),
                first_value(v@, kc@) == first_value(v@.skip(i as int), kc@),
            decreases n - i,
        {
            assert(v@.skip(i as int)[0] == v@[i as int]);
            assert(v@.skip(i as int).drop_first() =~= v@.skip(i + 1));
            if text::same_text(kc.as_slice(), v[i].0.as_str()) {
                return v[i].1;
            }
            i += 1;
        }
        wtn_board
    }
}

/// The place of a key that is not where the default map has it.
#[derive(Debug, Clone)]
pub struct HidOverride {
    pub hid: String,
    pub midi_row: u8,
    pub midi_col: u8,
    pub led_row: u8,
    pub led_col: u8,
}

/// The overrides as the key map takes them.
pub fn override_tuples(overrides: &Vec<HidOverride>) -> (r: Vec<(String, u8, u8, u8, u8)>)
    ensures
        r@.len() == overrides@.len(),
        forall|i: int|
            0 <= i < r@.len() ==> (#[trigger] r@[i]).0@ == overrides@[i].hid@ && r@[i].1
                == overrides@[i].midi_row && r@[i].2 == overrides@[i].midi_col && r@[i].3
                == overrides@[i].led_row && r@[i].4 == overrides@[i].led_col,
{
    let mut r: Vec<(String, u8, u8, u8, u8)> = Vec::new();
    for i in 0..overrides.len()
        invariant
            r@.len() == i,
            forall|j: int|
                0 <= j < r@.len() ==> (#[trigger] r@[j]).0@ == overrides@[j].hid@ && r@[j].1
                    == overrides@[j].midi_row && r@[j].2 == overrides@[j].midi_col && r@[j].3
                    == overrides@[j].led_row && r@[j].4 == overrides@[j].led_col,
    {
        let o = &overrides[i];
        r.push((text::text_of(o.hid.as_str()), o.midi_row, o.midi_col, o.led_row, o.led_col));
    }
    r
}

/// The board with the number `wtn_board` of a fresh configuration.
pub open spec fn is_fresh_board(
    b: BoardConfig,
    wtn_board: u8,
    rotation_deg: u16,
    meta_x: i32,
    meta_y: i32,
) -> bool {
    b == (BoardConfig {
        device_id: None,
        wtn_board,
        rotation_deg,
        mirror_cols: false,
        meta_x,
        meta_y,
        cc_analog_hid: None,
        cc_analog_cc: None,
    })
}

/// The directory that a setting names, if it is not blank.
pub open spec fn named_dir(setting: Option<String>) -> Option<Seq<char>> {
    match setting {
        Some(s) => if text::trim(s@).len() > 0 {
            Some(text::trim(s@))
        } else {
            None
        },
        None => None,
    }
}

impl Config {
    /// Where captures and dumps are written, if the configuration says so.
    pub fn named_output_dir(&self) -> (r: Option<String>)
        ensures
            match named_dir(self.output_dir) {
                Some(d) => r is Some && r->0@ == d,
                None => r is None,
            },
    {
        match &self.output_dir {
            Some(s) => {
                let cs: Vec<char> = text::chars_of(s.as_str());
                let t: &[char] = text::trimmed(cs.as_slice());
                if t.len() > 0 {
                    Some(text::string_of(t))
                } else {
                    None
                }
            },
            None => None,
        }
    }

    /// The configuration that a first run writes: two boards, the second turned round,
    /// and one layout of twelve equal steps.
    pub fn first_run() -> (r: Self)
        ensures
            r.midi_out_name@ == "XenWTN"@,
            r.velocity_peak_track_ms == 6,
            r.aftershock_ms == 35,
            r.aftertouch_speed_attack_ms == 12,
            r.aftertouch_speed_decay_ms == 250,
            r.boards@.len() == 2,
            is_fresh_board(r.boards@[0], 0, 0, 0, 5),
            is_fresh_board(r.boards@[1], 1, 180, 2, 0),
            r.layouts@.len() == 1,
            r.layouts@[0].id@ == "edo12"@,
            r.layouts@[0].name@ == "12-EDO"@,
            r.layouts@[0].wtn_path@ == "wtn/edo12.wtn"@,
            r.layouts@[0].edo_divisions == 12,
            r.layouts@[0].pitch_offset == 0,
            name_pairs(r.actions.by_action@) == seq![
                ("layout_prev"@, "RightCtrl"@),
                ("layout_next"@, "RightAlt"@),
                ("octave_down"@, "LeftAlt"@),
                ("octave_up"@, "ContextMenu"@),
            ],
            r.rgb.enabled,
            r.rgb.screensaver_timeout_sec == 300,
            r.rgb.device_index_by_wtn_board@.len() == 0,
            r.rgb.highlight_hex@ == "FFFFFF"@,
            r.control_bar.row == 5,
            cols_by_name(r.control_bar.led_cols_by_hid@) == default_bar(),
            r.hid_overrides@.len() == 0,
            r.output_dir is None,
            !r.capture_always_on,
    {
        let north = BoardConfig {
            device_id: None,
            wtn_board: 0,
            rotation_deg: 0,
            mirror_cols: false,
            meta_x: 0,
            meta_y: 5,
            cc_analog_hid: None,
            cc_analog_cc: None,
        };
        let south = BoardConfig {
            device_id: None,
            wtn_board: 1,
            rotation_deg: 180,
            mirror_cols: false,
            meta_x: 2,
            meta_y: 0,
            cc_analog_hid: None,
            cc_analog_cc: None,
        };
        let layout = LayoutConfig {
            id: text::text_of("edo12"),
            name: text::text_of("12-EDO"),
            wtn_path: text::text_of("wtn/edo12.wtn"),
            edo_divisions: 12,
            pitch_offset: 0,
        };
        Config {
            midi_out_name: default_midi_out_name(),
            velocity_peak_track_ms: default_velocity_peak_track_ms(),
            aftershock_ms: default_aftershock_ms(),
            aftertouch_speed_attack_ms: default_aftertouch_speed_attack_ms(),
            aftertouch_speed_decay_ms: default_aftertouch_speed_decay_ms(),
            boards: vec![north, south],
            layouts: vec![layout],
            actions: ActionBindings::default_with_sane_keys(),
            rgb: RgbConfig::default(),
            control_bar: ControlBarConfig::default(),
            hid_overrides: Vec::new(),
            output_dir: None,
            capture_always_on: false,
        }
    }
}

/// A board names a device by its number in decimal, space around it aside; one that says
/// nothing names none.
pub proof fn boards_name_devices_by_number(b: BoardConfig)
    ensures
        b.device_id is None ==> device_number(b) == Ok::<Option<nat>, IntError>(None),
        b.device_id matches Some(s) ==> forall|n: nat|
            n <= u64::MAX && text::trim(s@) == #[trigger] text::decimal(n) ==> device_number(b)
                == Ok::<Option<nat>, IntError>(Some(n)),
        b.device_id matches Some(s) ==> (text::trim(s@).len() == 0 ==> device_number(b) == Err::<
            Option<nat>,
            IntError,
        >(IntError::Empty)),
        device_number(b) matches Ok(Some(n)) ==> n <= u64::MAX,
{
    if b.device_id is Some {
        assert forall|n: nat|
            n <= u64::MAX && text::trim(b.device_id->0@) == #[trigger] text::decimal(
                n,
            ) implies device_number(b) == Ok::<Option<nat>, IntError>(Some(n)) by {
            text::decimal_reads_back(n, u64::MAX as nat);
        }
    }
}

/// A board's analog controller is the one that it says, or else controller 4 on board 0 and
/// 3 on board 1; its key is the one that it says, or else the left Meta key. A further board
/// has none unless it says so.
pub proof fn controllers_are_four_and_three(b: BoardConfig)
    ensures
        b.cc_analog_cc is None && b.wtn_board > 1 ==> analog_controller(b) is None,
        b.cc_analog_cc is Some || b.wtn_board <= 1 ==> {
            let name = if b.cc_analog_hid is Some {
                b.cc_analog_hid->0@
            } else {
                "LeftMeta"@
            };
            let cc = if b.cc_analog_cc is Some {
                b.cc_analog_cc->0
            } else if b.wtn_board == 0 {
                4u8
            } else {
                3u8
            };
            analog_controller(b) == Some((name, cc))
        },
{
}

/// Of the pairs with a key the first counts.
pub proof fn the_first_pair_counts(v: Seq<(String, u8)>, k: Seq<char>, i: int)
    requires
        0 <= i < v.len(),
    ensures
        v[i].0@ == k && (forall|j: int| 0 <= j < i ==> (#[trigger] v[j]).0@ != k) ==> first_value(
            v,
            k,
        ) == Some(v[i].1),
        (forall|j: int| 0 <= j < v.len() ==> (#[trigger] v[j]).0@ != k) ==> first_value(v, k) is None,
    decreases v.len(),
{
    let t = v.drop_first();
    if i > 0 {
        the_first_pair_counts(t, k, i - 1);
        assert(t[i - 1] == v[i]);
    } else if t.len() > 0 {
        the_first_pair_counts(t, k, 0);
    }
    if forall|j: int| 0 <= j < i ==> (#[trigger] v[j]).0@ != k {
        assert forall|j: int| 0 <= j < i - 1 implies (#[trigger] t[j]).0@ != k by {
            assert(t[j] == v[j + 1]);
        }
        if i > 0 {
            assert(v[0].0@ != k);
        }
    }
    if forall|j: int| 0 <= j < v.len() ==> (#[trigger] v[j]).0@ != k {
        assert(v[0].0@ != k);
        assert forall|j: int| 0 <= j < t.len() implies (#[trigger] t[j]).0@ != k by {
            assert(t[j] == v[j + 1]);
        }
    }
}

/// A directory is named by a text that is not blank, space around it aside.
pub proof fn directories_are_named_by_text(s: String)
    ensures
        named_dir(None) is None,
        named_dir(Some(s)) is None <==> forall|i: int|
            0 <= i < s@.len() ==> text::is_space(#[trigger] s@[i]),
        named_dir(Some(s)) matches Some(d) ==> d == text::trim(s@),
{
    text::trimming_takes_the_space_around(s@);
}

/// The control bar of a fresh configuration is the bottom row of the keyboard: each of its
/// keys has one LED, but for the space bar, which has five.
pub proof fn the_default_bar_is_the_bottom_row()
    ensures
        default_bar().len() == 7,
        default_bar()[0] == ("LeftCtrl"@, seq![0u8]),
        default_bar()[1] == ("LeftMeta"@, seq![1u8]),
        default_bar()[2] == ("LeftAlt"@, seq![2u8]),
        default_bar()[3] == ("Space"@, seq![4u8, 5, 6, 7, 8]),
        default_bar()[4] == ("RightAlt"@, seq![10u8]),
        default_bar()[5] == ("ContextMenu"@, seq![11u8]),
        default_bar()[6] == ("RightCtrl"@, seq![12u8]),
{
}

/// A board of a fresh configuration names no device and no controller, and counts its
/// columns from the left.
pub proof fn fresh_boards_name_nothing(
    b: BoardConfig,
    wtn_board: u8,
    rotation_deg: u16,
    meta_x: i32,
    meta_y: i32,
)
    requires
        is_fresh_board(b, wtn_board, rotation_deg, meta_x, meta_y),
    ensures
        b.device_id is None,
        b.wtn_board == wtn_board,
        b.rotation_deg == rotation_deg,
        !b.mirror_cols,
        b.meta_x == meta_x && b.meta_y == meta_y,
        b.cc_analog_hid is None && b.cc_analog_cc is None,
{
}

} // verus!
