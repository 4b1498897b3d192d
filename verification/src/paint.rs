//! Which colour each LED has.
use vstd::prelude::*;
use crate::board;
use crate::board::Board;
use crate::hid;
use crate::hidmap::{HidMap, KeyLoc};
use crate::modes;
use crate::modes::{AftertouchMode, TrainerMode};
use crate::pitch;
use crate::pitch::GuideMode;
use crate::rgb_worker::RgbKey;
use crate::table::{KeySet, Table};
use crate::wtn;
use crate::wtn::{Wtn, WtnCell};

verus! {

/// The keyboards and their LEDs.
#[derive(Debug, Clone)]
pub struct Stage {
    /// Whether there are lights at all.
    pub enabled: bool,
    pub hid_map: HidMap,
    pub boards: Table<u64, Board>,
    /// The light device of each keyboard.
    pub rgb_map: Table<u64, u8>,
    /// The LED row of the control bar.
    pub bar_row: u8,
    /// The LED columns of the keys of the control bar.
    pub bar_cols: Table<u8, Vec<u8>>,
}

/// What the control bar shows besides its colour.
#[derive(Debug, Clone)]
pub struct Marks {
    /// The keyboards that play an octave up.
    pub hold: KeySet<u64>,
    /// The keyboards that show a capture.
    pub armed: KeySet<u64>,
    pub aftertouch: AftertouchMode,
}

/// Those marks as values: the keyboards an octave up, those with a capture, and the mode.
pub type MarkSet = (Set<u64>, Set<u64>, AftertouchMode);

impl View for Marks {
    type V = MarkSet;

    open spec fn view(&self) -> MarkSet {
        (self.hold@, self.armed@, self.aftertouch)
    }
}

/// How the cells of a layout are shown: in their own colours, or dimmed but for the notes of
/// a chord.
#[derive(Debug, Clone)]
pub struct Shading {
    pub mode: GuideMode,
    pub edo: i32,
    pub pitch_offset: i32,
    /// The places of the octave that are in the chord.
    pub pcs: KeySet<i64>,
    /// The dimmed form of each value of a colour's channel.
    pub dims: Vec<u8>,
}

/// A shading as a value: the mode, the steps of the octave, the offset of the pitches, the
/// chord and the dimmed values.
pub type Shade = (GuideMode, i32, i32, Set<i64>, Seq<u8>);

impl View for Shading {
    type V = Shade;

    open spec fn view(&self) -> Shade {
        (self.mode, self.edo, self.pitch_offset, self.pcs@, self.dims@)
    }
}

/// Every cell in its own colour.
pub open spec fn plain() -> Shade {
    (GuideMode::Off, 12, 0, Set::empty(), Seq::empty())
}

/// The colour of a cell.
pub open spec fn shaded(sh: Shade, cell: WtnCell) -> (u8, u8, u8) {
    if sh.0 == GuideMode::Off || (sh.0 == GuideMode::Active && sh.3.contains(
        pitch::pitch_class(cell.key + sh.2, sh.1 as int) as i64,
    )) {
        cell.col_rgb
    } else {
        pitch::dimmed(cell.col_rgb, sh.4)
    }
}

impl Shading {
    /// A shading that dims has a division of the octave, and knows every dimmed value.
    pub open spec fn wf(self) -> bool {
        self.mode != GuideMode::Off ==> self.edo != 0 && self.dims@.len() == 256
    }

    /// Every cell in its own colour.
    pub fn plain() -> (r: Self)
        ensures
            r@ == plain(),
            r.wf(),
    {
        let r = Shading {
            mode: GuideMode::Off,
            edo: 12,
            pitch_offset: 0,
            pcs: KeySet::new(),
            dims: Vec::new(),
        };
        assert(r.dims@ =~= Seq::empty());
        r
    }

    /// The colour of a cell.
    pub fn colour(&self, cell: &WtnCell) -> (r: (u8, u8, u8))
        requires
            self.wf(),
        ensures
            r == shaded(self@, *cell),
    {
        if self.mode == GuideMode::Off {
            return cell.col_rgb;
        }
        let pc: i64 = pitch::pitch_class_of(
            (cell.key as i64) + (self.pitch_offset as i64),
            self.edo,
        );
        if self.mode == GuideMode::Active && self.pcs.contains(pc) {
            cell.col_rgb
        } else {
            pitch::dim_with(cell.col_rgb, &self.dims)
        }
    }
}

/// The LEDs in the columns `cols` of a row, in one colour.
pub open spec fn strip(dev: u8, row: u8, cols: Seq<u8>, rgb: (u8, u8, u8)) -> Seq<RgbKey> {
    cols.map_values(|c: u8| RgbKey { device_index: dev, row, col: c, rgb })
}

/// The columns of a control bar.
pub open spec fn all_cols() -> Seq<u8> {
    Seq::new(14, |c: int| c as u8)
}

/// The columns of a key of the control bar.
pub open spec fn cols_of(bar: Map<u8, Vec<u8>>, hid: u8) -> Seq<u8> {
    if bar.contains_key(hid) {
        bar[hid]@
    } else {
        Seq::empty()
    }
}

/// The colours of the first keys of a board, as many as `locs` has.
pub open spec fn cells_paint(
    locs: Seq<(u8, KeyLoc)>,
    b: Board,
    dev: u8,
    cells: Map<u8, Seq<WtnCell>>,
    sh: Shade,
) -> Seq<RgbKey>
    decreases locs.len(),
{
    if locs.len() == 0 {
        Seq::empty()
    } else {
        let before = cells_paint(locs.drop_last(), b, dev, cells, sh);
        match board::place_at(b, locs.last().1) {
            Some(p) => match wtn::cell_of(cells, b.wtn_board, p.index as int) {
                Some(cell) => before.push(
                    RgbKey {
                        device_index: dev,
                        row: p.led_row,
                        col: p.led_col,
                        rgb: shaded(sh, cell),
                    },
                ),
                None => before,
            },
            None => before,
        }
    }
}

/// The colour of the space bar's mark: white while the keyboard plays an octave up.
pub open spec fn space_rgb(base: (u8, u8, u8), hold: bool) -> (u8, u8, u8) {
    if hold {
        (255, 255, 255)
    } else {
        base
    }
}

/// The colour of the Ctrl keys' mark: yellow while a capture is on.
pub open spec fn ctrl_rgb(base: (u8, u8, u8), on: bool) -> (u8, u8, u8) {
    if on {
        (255, 255, 0)
    } else {
        base
    }
}

/// The colour of the right Alt key's mark.
pub open spec fn aftertouch_rgb(base: (u8, u8, u8), mode: AftertouchMode) -> (u8, u8, u8) {
    match mode {
        AftertouchMode::SpeedMapped => base,
        AftertouchMode::PeakMapped => (255, 255, 0),
        AftertouchMode::Off => (0, 128, 255),
    }
}

impl Stage {
    /// The light device of a keyboard, where its lights are on.
    pub open spec fn light(self, device_id: u64) -> Option<u8> {
        if self.enabled && self.rgb_map@.contains_key(device_id) {
            Some(self.rgb_map@[device_id])
        } else {
            None
        }
    }

    /// A key of a keyboard's control bar, in one colour.
    pub open spec fn mark(self, device_id: u64, hid: u8, rgb: (u8, u8, u8)) -> Seq<RgbKey> {
        match self.light(device_id) {
            Some(dev) => strip(dev, self.bar_row, cols_of(self.bar_cols@, hid), rgb),
            None => Seq::empty(),
        }
    }

    /// The mark of the Ctrl keys.
    pub open spec fn ctrl_mark(self, device_id: u64, base: (u8, u8, u8), on: bool) -> Seq<RgbKey> {
        self.mark(device_id, hid::LEFT_CTRL, ctrl_rgb(base, on)) + self.mark(
            device_id,
            hid::RIGHT_CTRL,
            ctrl_rgb(base, on),
        )
    }

    /// The whole control bar of a keyboard, in one colour.
    pub open spec fn bar(self, device_id: u64, rgb: (u8, u8, u8)) -> Seq<RgbKey> {
        match self.light(device_id) {
            Some(dev) => strip(dev, self.bar_row, all_cols(), rgb),
            None => Seq::empty(),
        }
    }

    /// The control bar of a keyboard with its marks: the capture's before the octave's.
    pub open spec fn marked_bar(self, id: u64, rgb: (u8, u8, u8), marks: MarkSet) -> Seq<RgbKey> {
        self.bar(id, rgb) + self.ctrl_mark(id, rgb, marks.1.contains(id)) + self.mark(
            id,
            hid::SPACE,
            space_rgb(rgb, marks.0.contains(id)),
        ) + self.mark(id, hid::RIGHT_ALT, aftertouch_rgb(rgb, marks.2))
    }

    /// The LEDs of a keyboard's cells.
    pub open spec fn cells(
        self,
        id: u64,
        b: Board,
        cells: Map<u8, Seq<WtnCell>>,
        sh: Shade,
    ) -> Seq<RgbKey> {
        match self.light(id) {
            Some(dev) => cells_paint(self.hid_map.locs.entries@, b, dev, cells, sh),
            None => Seq::empty(),
        }
    }

    /// The LEDs of a keyboard: its cells, and its control bar with the octave's mark before
    /// the capture's.
    pub open spec fn board_paint(
        self,
        id: u64,
        b: Board,
        cells: Map<u8, Seq<WtnCell>>,
        sh: Shade,
        with_bar: bool,
        with_aftertouch: bool,
        rgb: (u8, u8, u8),
        marks: MarkSet,
    ) -> Seq<RgbKey> {
        self.cells(id, b, cells, sh) + (if with_bar {
            self.bar(id, rgb) + self.mark(
                id,
                hid::SPACE,
                space_rgb(rgb, marks.0.contains(id)),
            ) + self.ctrl_mark(id, rgb, marks.1.contains(id)) + (if with_aftertouch {
                self.mark(id, hid::RIGHT_ALT, aftertouch_rgb(rgb, marks.2))
            } else {
                Seq::empty()
            })
        } else {
            Seq::empty()
        })
    }

    /// The LEDs of the first `n` keyboards.
    pub open spec fn boards_paint(
        self,
        n: int,
        cells: Map<u8, Seq<WtnCell>>,
        sh: Shade,
        with_bar: bool,
        with_aftertouch: bool,
        rgb: (u8, u8, u8),
        marks: MarkSet,
    ) -> Seq<RgbKey>
        decreases n,
    {
        if n <= 0 {
            Seq::empty()
        } else {
            let e = self.boards.entries@[n - 1];
            self.boards_paint(n - 1, cells, sh, with_bar, with_aftertouch, rgb, marks)
                + self.board_paint(e.0, e.1, cells, sh, with_bar, with_aftertouch, rgb, marks)
        }
    }

    /// The control bars of the first `n` keyboards.
    pub open spec fn bars_paint(self, n: int, rgb: (u8, u8, u8), marks: MarkSet) -> Seq<RgbKey>
        decreases n,
    {
        if n <= 0 {
            Seq::empty()
        } else {
            self.bars_paint(n - 1, rgb, marks) + self.marked_bar(
                self.boards.entries@[n - 1].0,
                rgb,
                marks,
            )
        }
    }

    /// A keyboard with its lights out.
    pub open spec fn dark(self, id: u64) -> Seq<RgbKey> {
        match self.light(id) {
            Some(dev) => self.hid_map.locs.entries@.map_values(
                |e: (u8, KeyLoc)|
                    RgbKey {
                        device_index: dev,
                        row: e.1.led_row,
                        col: e.1.led_col,
                        rgb: (0u8, 0u8, 0u8),
                    },
            ) + self.bar(id, (0, 0, 0)),
            None => Seq::empty(),
        }
    }

    /// The first `n` keyboards with their lights out.
    pub open spec fn all_dark(self, n: int) -> Seq<RgbKey>
        decreases n,
    {
        if n <= 0 {
            Seq::empty()
        } else {
            self.all_dark(n - 1) + self.dark(self.boards.entries@[n - 1].0)
        }
    }
}

fn push_strip(out: &mut Vec<RgbKey>, dev: u8, row: u8, cols: &Vec<u8>, rgb: (u8, u8, u8))
    ensures
        final(out)@ == old(out)@ + strip(dev, row, cols@, rgb),
{
    let ghost all = strip(dev, row, cols@, rgb);
    for i in 0..cols.len()
        invariant
            all == strip(dev, row, cols@, rgb),
            out@ =~= old(out)@ + all.take(i as int),
    {
        out.push(RgbKey { device_index: dev, row, col: cols[i], rgb });
    }
    assert(all.take(cols@.len() as int) =~= all);
}

impl Stage {
    /// The light device of a keyboard, where its lights are on.
    pub fn light_of(&self, device_id: u64) -> (r: Option<u8>)
        ensures
            r == self.light(device_id),
    {
        if !self.enabled {
            return None;
        }
        match self.rgb_map.get(device_id) {
            Some(dev) => Some(*dev),
            None => None,
        }
    }

    fn push_mark(&self, out: &mut Vec<RgbKey>, device_id: u64, hid: u8, rgb: (u8, u8, u8))
        ensures
            final(out)@ == old(out)@ + self.mark(device_id, hid, rgb),
    {
        match self.light_of(device_id) {
            Some(dev) => {
                match self.bar_cols.get(hid) {
                    Some(cols) => {
                        push_strip(out, dev, self.bar_row, cols, rgb);
                    },
                    None => {
                        assert(strip(dev, self.bar_row, Seq::empty(), rgb) =~= Seq::empty());
                        assert(out@ =~= out@ + self.mark(device_id, hid, rgb));
                    },
                }
            },
            None => {
                assert(out@ =~= out@ + self.mark(device_id, hid, rgb));
            },
        }
    }

    fn push_ctrl_mark(&self, out: &mut Vec<RgbKey>, device_id: u64, base: (u8, u8, u8), on: bool)
        ensures
            final(out)@ == old(out)@ + self.ctrl_mark(device_id, base, on),
    {
        let rgb: (u8, u8, u8) = if on {
            (255, 255, 0)
        } else {
            base
        };
        self.push_mark(out, device_id, hid::LEFT_CTRL, rgb);
        self.push_mark(out, device_id, hid::RIGHT_CTRL, rgb);
        assert(out@ =~= old(out)@ + self.ctrl_mark(device_id, base, on));
    }

    fn push_space_mark(&self, out: &mut Vec<RgbKey>, device_id: u64, base: (u8, u8, u8), hold: bool)
        ensures
            final(out)@ == old(out)@ + self.mark(device_id, hid::SPACE, space_rgb(base, hold)),
    {
        let rgb: (u8, u8, u8) = if hold {
            (255, 255, 255)
        } else {
            base
        };
        self.push_mark(out, device_id, hid::SPACE, rgb);
    }

    fn push_aftertouch_mark(
        &self,
        out: &mut Vec<RgbKey>,
        device_id: u64,
        base: (u8, u8, u8),
        mode: AftertouchMode,
    )
        ensures
            final(out)@ == old(out)@ + self.mark(
                device_id,
                hid::RIGHT_ALT,
                aftertouch_rgb(base, mode),
            ),
    {
        let rgb: (u8, u8, u8) = match mode {
            AftertouchMode::SpeedMapped => base,
            AftertouchMode::PeakMapped => (255, 255, 0),
            AftertouchMode::Off => (0, 128, 255),
        };
        self.push_mark(out, device_id, hid::RIGHT_ALT, rgb);
    }

    fn push_bar(&self, out: &mut Vec<RgbKey>, device_id: u64, rgb: (u8, u8, u8))
        ensures
            final(out)@ == old(out)@ + self.bar(device_id, rgb),
    {
        match self.light_of(device_id) {
            Some(dev) => {
                let cols: Vec<u8> = vec![0, 1, 2, 3, 4, 5, 6, 7, 8, 9, 10, 11, 12, 13];
                assert(cols@ =~= all_cols());
                push_strip(out, dev, self.bar_row, &cols, rgb);
            },
            None => {
                assert(out@ =~= out@ + self.bar(device_id, rgb));
            },
        }
    }

    fn push_cells(&self, out: &mut Vec<RgbKey>, id: u64, b: &Board, wtn: &Wtn, sh: &Shading)
        requires
            self.enabled ==> sh.wf(),
        ensures
            final(out)@ == old(out)@ + self.cells(id, *b, wtn@, sh@),
    {
        let dev: u8 = match self.light_of(id) {
            Some(dev) => dev,
            None => {
                assert(out@ =~= out@ + self.cells(id, *b, wtn@, sh@));
                return;
            },
        };
        let locs = self.hid_map.all_locs();
        assert(locs@.take(0) =~= Seq::empty());
        assert(out@ =~= old(out)@ + cells_paint(locs@.take(0), *b, dev, wtn@, sh@));
        for i in 0..locs.len()
            invariant
                sh.wf(),
                out@ == old(out)@ + cells_paint(locs@.take(i as int), *b, dev, wtn@, sh@),
        {
            assert(locs@.take(i + 1).drop_last() =~= locs@.take(i as int));
            match b.place(locs[i].1) {
                Some(p) => {
                    match wtn.cell(b.wtn_board, p.index) {
                        Some(cell) => {
                            out.push(
                                RgbKey {
                                    device_index: dev,
                                    row: p.led_row,
                                    col: p.led_col,
                                    rgb: sh.colour(&cell),
                                },
                            );
                        },
                        None => {},
                    }
                },
                None => {},
            }
            assert(out@ =~= old(out)@ + cells_paint(locs@.take(i + 1), *b, dev, wtn@, sh@));
        }
        assert(locs@.take(locs@.len() as int) =~= locs@);
    }

    fn push_boards(
        &self,
        wtn: &Wtn,
        sh: &Shading,
        with_bar: bool,
        with_aftertouch: bool,
        rgb: (u8, u8, u8),
        marks: &Marks,
    ) -> (out: Vec<RgbKey>)
        requires
            self.enabled ==> sh.wf(),
        ensures
            out@ == self.boards_paint(
                self.boards.entries@.len() as int,
                wtn@,
                sh@,
                with_bar,
                with_aftertouch,
                rgb,
                marks@,
            ),
    {
        let mut out: Vec<RgbKey> = Vec::new();
        for i in 0..self.boards.entries.len()
            invariant
                self.enabled ==> sh.wf(),
                out@ == self.boards_paint(
                    i as int,
                    wtn@,
                    sh@,
                    with_bar,
                    with_aftertouch,
                    rgb,
                    marks@,
                ),
        {
            let ghost before = out@;
            let id: u64 = self.boards.entries[i].0;
            let b: Board = self.boards.entries[i].1;
            self.push_cells(&mut out, id, &b, wtn, sh);
            if with_bar {
                self.push_bar(&mut out, id, rgb);
                self.push_space_mark(&mut out, id, rgb, marks.hold.contains(id));
                self.push_ctrl_mark(&mut out, id, rgb, marks.armed.contains(id));
                if with_aftertouch {
                    self.push_aftertouch_mark(&mut out, id, rgb, marks.aftertouch);
                }
            }
            assert(out@ =~= before + self.board_paint(
                id,
                b,
                wtn@,
                sh@,
                with_bar,
                with_aftertouch,
                rgb,
                marks@,
            ));
        }
        out
    }

    /// Every keyboard in the colours of the layout, and its control bar where wanted.
    pub fn paint_base(&self, wtn: &Wtn, paint_control_bar: bool, tm: TrainerMode, marks: &Marks) -> (r:
        Vec<RgbKey>)
        ensures
            r@ == self.base_paint(wtn@, paint_control_bar, tm, marks@),
    {
        let plain = Shading::plain();
        self.push_boards(
            wtn,
            &plain,
            paint_control_bar,
            true,
            modes::control_bar_rgb_for_tm(tm),
            marks,
        )
    }

    /// Every keyboard in the colours of the layout, and its control bar where wanted.
    pub open spec fn base_paint(
        self,
        cells: Map<u8, Seq<WtnCell>>,
        with_bar: bool,
        tm: TrainerMode,
        marks: MarkSet,
    ) -> Seq<RgbKey> {
        self.boards_paint(
            self.boards.entries@.len() as int,
            cells,
            plain(),
            with_bar,
            true,
            modes::bar_rgb(tm),
            marks,
        )
    }

    /// Every keyboard as the guide shows it; nothing while the guide is off.
    pub open spec fn guide_paint(
        self,
        cells: Map<u8, Seq<WtnCell>>,
        sh: Shade,
        marks: MarkSet,
    ) -> Seq<RgbKey> {
        if sh.0 == GuideMode::Off {
            Seq::empty()
        } else {
            self.boards_paint(
                self.boards.entries@.len() as int,
                cells,
                sh,
                true,
                false,
                modes::bar_rgb(modes::trainer_for(sh.0)),
                marks,
            )
        }
    }

    /// Every keyboard as the guide shows it; nothing while the guide is off.
    pub fn paint_guide(&self, wtn: &Wtn, sh: &Shading, marks: &Marks) -> (r: Vec<RgbKey>)
        requires
            self.enabled ==> sh.wf(),
        ensures
            r@ == self.guide_paint(wtn@, sh@, marks@),
    {
        if sh.mode == GuideMode::Off {
            let r: Vec<RgbKey> = Vec::new();
            assert(r@ =~= Seq::empty());
            return r;
        }
        self.push_boards(
            wtn,
            sh,
            true,
            false,
            modes::control_bar_rgb_for_tm(sh.mode.trainer()),
            marks,
        )
    }

    /// Every keyboard's control bar, with its marks.
    pub fn paint_control_bar(&self, rgb: (u8, u8, u8), marks: &Marks) -> (r: Vec<RgbKey>)
        ensures
            r@ == self.bars_paint(self.boards.entries@.len() as int, rgb, marks@),
    {
        let mut out: Vec<RgbKey> = Vec::new();
        for i in 0..self.boards.entries.len()
            invariant
                out@ == self.bars_paint(i as int, rgb, marks@),
        {
            let ghost before = out@;
            let id: u64 = self.boards.entries[i].0;
            self.push_bar(&mut out, id, rgb);
            self.push_ctrl_mark(&mut out, id, rgb, marks.armed.contains(id));
            self.push_space_mark(&mut out, id, rgb, marks.hold.contains(id));
            self.push_aftertouch_mark(&mut out, id, rgb, marks.aftertouch);
            assert(out@ =~= before + self.marked_bar(id, rgb, marks@));
        }
        out
    }

    /// Every keyboard with its lights out.
    pub fn paint_off(&self) -> (r: Vec<RgbKey>)
        ensures
            r@ == self.all_dark(self.boards.entries@.len() as int),
    {
        let mut out: Vec<RgbKey> = Vec::new();
        for i in 0..self.boards.entries.len()
            invariant
                out@ == self.all_dark(i as int),
        {
            let ghost before = out@;
            let id: u64 = self.boards.entries[i].0;
            match self.light_of(id) {
                Some(dev) => {
                    let locs = self.hid_map.all_locs();
                    let ghost all = locs@.map_values(
                        |e: (u8, KeyLoc)|
                            RgbKey {
                                device_index: dev,
                                row: e.1.led_row,
                                col: e.1.led_col,
                                rgb: (0u8, 0u8, 0u8),
                            },
                    );
                    for j in 0..locs.len()
                        invariant
                            all == locs@.map_values(
                                |e: (u8, KeyLoc)|
                                    RgbKey {
                                        device_index: dev,
                                        row: e.1.led_row,
                                        col: e.1.led_col,
                                        rgb: (0u8, 0u8, 0u8),
                                    },
                            ),
                            out@ =~= before + all.take(j as int),
                    {
                        let loc: KeyLoc = locs[j].1;
                        out.push(
                            RgbKey {
                                device_index: dev,
                                row: loc.led_row,
                                col: loc.led_col,
                                rgb: (0, 0, 0),
                            },
                        );
                    }
                    assert(all.take(locs@.len() as int) =~= all);
                    self.push_bar(&mut out, id, (0, 0, 0));
                    assert(out@ =~= before + self.dark(id));
                },
                None => {
                    assert(out@ =~= before + self.dark(id));
                },
            }
        }
        out
    }

    /// The mark of a keyboard's space bar.
    pub fn paint_spacebar_indicator(&self, device_id: u64, base: (u8, u8, u8), hold: bool) -> (r: Vec<
        RgbKey,
    >)
        ensures
            r@ == self.mark(device_id, hid::SPACE, space_rgb(base, hold)),
    {
        let mut out: Vec<RgbKey> = Vec::new();
        self.push_space_mark(&mut out, device_id, base, hold);
        assert(out@ =~= self.mark(device_id, hid::SPACE, space_rgb(base, hold)));
        out
    }

    /// The mark of a keyboard's Ctrl keys.
    pub fn paint_ctrl_indicator(&self, device_id: u64, base: (u8, u8, u8), on: bool) -> (r: Vec<
        RgbKey,
    >)
        ensures
            r@ == self.ctrl_mark(device_id, base, on),
    {
        let mut out: Vec<RgbKey> = Vec::new();
        self.push_ctrl_mark(&mut out, device_id, base, on);
        assert(out@ =~= self.ctrl_mark(device_id, base, on));
        out
    }

    /// The mark of a keyboard's right Alt key.
    pub fn paint_aftertouch_mode_indicator(
        &self,
        device_id: u64,
        base: (u8, u8, u8),
        mode: AftertouchMode,
    ) -> (r: Vec<RgbKey>)
        ensures
            r@ == self.mark(device_id, hid::RIGHT_ALT, aftertouch_rgb(base, mode)),
    {
        let mut out: Vec<RgbKey> = Vec::new();
        self.push_aftertouch_mark(&mut out, device_id, base, mode);
        assert(out@ =~= self.mark(device_id, hid::RIGHT_ALT, aftertouch_rgb(base, mode)));
        out
    }

    /// A key of a keyboard's control bar, in one colour.
    pub fn paint_mark(&self, device_id: u64, hid: u8, rgb: (u8, u8, u8)) -> (r: Vec<RgbKey>)
        ensures
            r@ == self.mark(device_id, hid, rgb),
    {
        let mut out: Vec<RgbKey> = Vec::new();
        self.push_mark(&mut out, device_id, hid, rgb);
        assert(out@ =~= self.mark(device_id, hid, rgb));
        out
    }

    /// A keyboard's marks behind a key of the bar that was let go: the key in the bar's
    /// colour, then the octave's, the capture's and the aftertouch's marks.
    pub open spec fn released(
        self,
        device_id: u64,
        led_hid: u8,
        base: (u8, u8, u8),
        marks: MarkSet,
    ) -> Seq<RgbKey> {
        self.mark(device_id, led_hid, base) + self.mark(
            device_id,
            hid::SPACE,
            space_rgb(base, marks.0.contains(device_id)),
        ) + self.ctrl_mark(device_id, base, marks.1.contains(device_id)) + self.mark(
            device_id,
            hid::RIGHT_ALT,
            aftertouch_rgb(base, marks.2),
        )
    }

    /// A keyboard's control bar behind a key of it that was let go.
    pub fn paint_released(
        &self,
        device_id: u64,
        led_hid: u8,
        base: (u8, u8, u8),
        marks: &Marks,
    ) -> (r: Vec<RgbKey>)
        ensures
            r@ == self.released(device_id, led_hid, base, marks@),
    {
        let mut out: Vec<RgbKey> = Vec::new();
        self.push_mark(&mut out, device_id, led_hid, base);
        self.push_space_mark(&mut out, device_id, base, marks.hold.contains(device_id));
        self.push_ctrl_mark(&mut out, device_id, base, marks.armed.contains(device_id));
        self.push_aftertouch_mark(&mut out, device_id, base, marks.aftertouch);
        assert(out@ =~= self.released(device_id, led_hid, base, marks@));
        out
    }
}

/// The colour that an LED has after `cmds`: the last one counts.
pub open spec fn shown(cmds: Seq<RgbKey>, dev: u8, row: u8, col: u8) -> Option<(u8, u8, u8)>
    decreases cmds.len(),
{
    if cmds.len() == 0 {
        None
    } else if cmds.last().device_index == dev && cmds.last().row == row && cmds.last().col == col {
        Some(cmds.last().rgb)
    } else {
        shown(cmds.drop_last(), dev, row, col)
    }
}

proof fn lemma_shown_behind(a: Seq<RgbKey>, b: Seq<RgbKey>, dev: u8, row: u8, col: u8)
    ensures
        shown(a + b, dev, row, col) == match shown(b, dev, row, col) {
            Some(c) => Some(c),
            None => shown(a, dev, row, col),
        },
    decreases b.len(),
{
    if b.len() == 0 {
        assert(a + b =~= a);
    } else {
        assert((a + b).drop_last() =~= a + b.drop_last());
        lemma_shown_behind(a, b.drop_last(), dev, row, col);
    }
}

proof fn lemma_shown_strip(dev: u8, row: u8, cols: Seq<u8>, rgb: (u8, u8, u8), col: u8)
    ensures
        shown(strip(dev, row, cols, rgb), dev, row, col) == (if cols.contains(col) {
            Some(rgb)
        } else {
            None
        }),
    decreases cols.len(),
{
    let s = strip(dev, row, cols, rgb);
    if cols.len() > 0 {
        let front = cols.drop_last();
        lemma_shown_strip(dev, row, front, rgb, col);
        assert(s.drop_last() =~= strip(dev, row, front, rgb));
        assert(cols.contains(col) <==> (front.contains(col) || cols.last() == col)) by {
            if cols.contains(col) {
                let i = choose|i: int| 0 <= i < cols.len() && cols[i] == col;
                if i < front.len() {
                    assert(front[i] == col);
                }
            }
            if front.contains(col) {
                let i = choose|i: int| 0 <= i < front.len() && front[i] == col;
                assert(cols[i] == col);
            }
        }
    }
}

/// On a control bar with its marks, the columns of the right Alt key show the aftertouch
/// mode; of the others, those of the space bar show the octave; of the others, those of the
/// Ctrl keys show the capture; the rest is in the bar's colour.
pub proof fn marks_override_the_bar(
    stage: Stage,
    id: u64,
    rgb: (u8, u8, u8),
    marks: MarkSet,
    col: u8,
)
    requires
        stage.light(id) is Some,
        col < 14,
    ensures
        shown(stage.marked_bar(id, rgb, marks), stage.light(id)->0, stage.bar_row, col) == Some(
            if cols_of(stage.bar_cols@, hid::RIGHT_ALT).contains(col) {
                aftertouch_rgb(rgb, marks.2)
            } else if cols_of(stage.bar_cols@, hid::SPACE).contains(col) {
                space_rgb(rgb, marks.0.contains(id))
            } else if cols_of(stage.bar_cols@, hid::LEFT_CTRL).contains(col) || cols_of(
                stage.bar_cols@,
                hid::RIGHT_CTRL,
            ).contains(col) {
                ctrl_rgb(rgb, marks.1.contains(id))
            } else {
                rgb
            },
        ),
{
    let dev = stage.light(id)->0;
    let row = stage.bar_row;
    let on = ctrl_rgb(rgb, marks.1.contains(id));
    let up = space_rgb(rgb, marks.0.contains(id));
    let at = aftertouch_rgb(rgb, marks.2);
    let bar = stage.bar(id, rgb);
    let left = stage.mark(id, hid::LEFT_CTRL, on);
    let right = stage.mark(id, hid::RIGHT_CTRL, on);
    let space = stage.mark(id, hid::SPACE, up);
    let alt = stage.mark(id, hid::RIGHT_ALT, at);
    lemma_shown_strip(dev, row, all_cols(), rgb, col);
    assert(all_cols()[col as int] == col);
    lemma_shown_strip(dev, row, cols_of(stage.bar_cols@, hid::LEFT_CTRL), on, col);
    lemma_shown_strip(dev, row, cols_of(stage.bar_cols@, hid::RIGHT_CTRL), on, col);
    lemma_shown_strip(dev, row, cols_of(stage.bar_cols@, hid::SPACE), up, col);
    lemma_shown_strip(dev, row, cols_of(stage.bar_cols@, hid::RIGHT_ALT), at, col);
    lemma_shown_behind(left, right, dev, row, col);
    lemma_shown_behind(bar, left + right, dev, row, col);
    lemma_shown_behind(bar + (left + right), space, dev, row, col);
    lemma_shown_behind(bar + (left + right) + space, alt, dev, row, col);
}

/// Every key of a board that has a cell is painted, in its cell's colour, on the LED that
/// the key map gives it: the one that lights up when it is pressed.
pub proof fn every_key_is_painted(
    locs: Seq<(u8, KeyLoc)>,
    b: Board,
    dev: u8,
    cells: Map<u8, Seq<WtnCell>>,
    sh: Shade,
    i: int,
)
    requires
        0 <= i < locs.len(),
        board::place_at(b, locs[i].1) is Some,
        wtn::cell_of(cells, b.wtn_board, board::place_at(b, locs[i].1)->0.index as int) is Some,
    ensures
        cells_paint(locs, b, dev, cells, sh).contains(
            RgbKey {
                device_index: dev,
                row: locs[i].1.led_row,
                col: locs[i].1.led_col,
                rgb: shaded(
                    sh,
                    wtn::cell_of(
                        cells,
                        b.wtn_board,
                        board::place_at(b, locs[i].1)->0.index as int,
                    )->0,
                ),
            },
        ),
    decreases locs.len(),
{
    let front = locs.drop_last();
    let before = cells_paint(front, b, dev, cells, sh);
    let all = cells_paint(locs, b, dev, cells, sh);
    let want = RgbKey {
        device_index: dev,
        row: locs[i].1.led_row,
        col: locs[i].1.led_col,
        rgb: shaded(
            sh,
            wtn::cell_of(cells, b.wtn_board, board::place_at(b, locs[i].1)->0.index as int)->0,
        ),
    };
    if i < front.len() {
        assert(front[i] == locs[i]);
        every_key_is_painted(front, b, dev, cells, sh, i);
        let j = choose|j: int| 0 <= j < before.len() && before[j] == want;
        assert(all[j] == want);
    } else {
        assert(all[before.len() as int] == want);
    }
}

/// A cell is painted in its own colour while the guide is off, and while it is active
/// exactly if the place of its note in the octave, with the layout's offset, is lit; else it
/// is dimmed. That is the colour its key goes back to when it is let go.
pub proof fn painted_cells_show_the_chord(sh: Shade, cell: WtnCell)
    requires
        sh.1 > 0,
    ensures
        ({
            let dim = (
                sh.4[cell.col_rgb.0 as int],
                sh.4[cell.col_rgb.1 as int],
                sh.4[cell.col_rgb.2 as int],
            );
            let place = (cell.key + sh.2) % (sh.1 as int);
            &&& sh.0 == GuideMode::Off ==> shaded(sh, cell) == cell.col_rgb
            &&& sh.0 == GuideMode::WaitRoot ==> shaded(sh, cell) == dim
            &&& sh.0 == GuideMode::Active && sh.3.contains(place as i64) ==> shaded(sh, cell)
                == cell.col_rgb
            &&& sh.0 == GuideMode::Active && !sh.3.contains(place as i64) ==> shaded(sh, cell)
                == dim
            &&& shaded(sh, cell) == pitch::idle_rgb(
                cell.col_rgb,
                cell.key,
                sh.1,
                sh.2,
                sh.0,
                sh.3,
                sh.4,
            )
        }),
{
}

/// The cell that was chosen as the root of a chord is painted in its own colour whatever the
/// layout's offset, if the chord has a note on its root; and so is every cell a whole number
/// of octaves away from it.
pub proof fn the_root_is_painted(
    edo: i32,
    offset: i32,
    pcs_root: Seq<i32>,
    dims: Seq<u8>,
    root: WtnCell,
    cell: WtnCell,
    octaves: int,
)
    requires
        edo > 0,
        pcs_root.contains(0),
        cell.key == root.key + octaves * edo,
    ensures
        shaded(
            (
                GuideMode::Active,
                edo,
                offset,
                pitch::chord_classes(
                    pcs_root,
                    pitch::pitch_class(root.key + offset, edo as int),
                    edo as int,
                ),
                dims,
            ),
            cell,
        ) == cell.col_rgb,
{
    let place = pitch::pitch_class(root.key + offset, edo as int);
    vstd::arithmetic::div_mod::lemma_mod_bound(root.key + offset, edo as int);
    let i = choose|i: int| 0 <= i < pcs_root.len() && pcs_root[i] == 0;
    vstd::arithmetic::div_mod::lemma_small_mod(place as nat, edo as nat);
    assert(place as i64 == (pcs_root[i] + place) % (edo as int));
    pitch::chords_light_their_notes(pcs_root, place, edo, place as i64);
    pitch::octaves_keep_the_class(root.key + offset, edo as int, octaves);
}

/// The marks of the control bar: white for an octave up, yellow for a capture, and of the
/// aftertouch modes yellow for the peak's and blue for none; else the bar's colour.
pub proof fn marks_have_their_colours(base: (u8, u8, u8))
    ensures
        space_rgb(base, true) == (255u8, 255u8, 255u8),
        space_rgb(base, false) == base,
        ctrl_rgb(base, true) == (255u8, 255u8, 0u8),
        ctrl_rgb(base, false) == base,
        aftertouch_rgb(base, AftertouchMode::SpeedMapped) == base,
        aftertouch_rgb(base, AftertouchMode::PeakMapped) == (255u8, 255u8, 0u8),
        aftertouch_rgb(base, AftertouchMode::Off) == (0u8, 128u8, 255u8),
{
}

/// Whether all of `cmds` are for the light device `dev`.
spec fn all_on(cmds: Seq<RgbKey>, dev: u8) -> bool {
    forall|i: int| 0 <= i < cmds.len() ==> (#[trigger] cmds[i]).device_index == dev
}

/// Whether none of `cmds` is for this LED.
spec fn misses(cmds: Seq<RgbKey>, dev: u8, row: u8, col: u8) -> bool {
    forall|i: int|
        0 <= i < cmds.len() ==> (#[trigger] cmds[i]).device_index != dev || cmds[i].row != row
            || cmds[i].col != col
}

proof fn lemma_missed(cmds: Seq<RgbKey>, dev: u8, row: u8, col: u8)
    requires
        misses(cmds, dev, row, col),
    ensures
        shown(cmds, dev, row, col) is None,
    decreases cmds.len(),
{
    if cmds.len() > 0 {
        let front = cmds.drop_last();
        assert forall|i: int| 0 <= i < front.len() implies (#[trigger] front[i]).device_index != dev
            || front[i].row != row || front[i].col != col by {
            assert(front[i] == cmds[i]);
        }
        lemma_missed(front, dev, row, col);
        assert(cmds[cmds.len() - 1] == cmds.last());
    }
}

proof fn lemma_both_on(a: Seq<RgbKey>, b: Seq<RgbKey>, dev: u8)
    requires
        all_on(a, dev),
        all_on(b, dev),
    ensures
        all_on(a + b, dev),
{
    let s = a + b;
    assert forall|i: int| 0 <= i < s.len() implies (#[trigger] s[i]).device_index == dev by {
        if i < a.len() {
            assert(s[i] == a[i]);
        } else {
            assert(s[i] == b[i - a.len()]);
        }
    }
}

proof fn lemma_cells_on(
    locs: Seq<(u8, KeyLoc)>,
    b: Board,
    dev: u8,
    cells: Map<u8, Seq<WtnCell>>,
    sh: Shade,
)
    ensures
        all_on(cells_paint(locs, b, dev, cells, sh), dev),
        forall|i: int|
            0 <= i < cells_paint(locs, b, dev, cells, sh).len() ==> exists|j: int|
                0 <= j < locs.len() && (#[trigger] locs[j]).1.led_row == (#[trigger] cells_paint(
                    locs,
                    b,
                    dev,
                    cells,
                    sh,
                )[i]).row && locs[j].1.led_col == cells_paint(locs, b, dev, cells, sh)[i].col,
    decreases locs.len(),
{
    if locs.len() > 0 {
        let front = locs.drop_last();
        lemma_cells_on(front, b, dev, cells, sh);
        let before = cells_paint(front, b, dev, cells, sh);
        let all = cells_paint(locs, b, dev, cells, sh);
        assert forall|i: int| 0 <= i < all.len() implies exists|j: int|
            0 <= j < locs.len() && (#[trigger] locs[j]).1.led_row == (#[trigger] all[i]).row
                && locs[j].1.led_col == all[i].col by {
            if i < before.len() {
                assert(all[i] == before[i]);
                let j = choose|j: int|
                    0 <= j < front.len() && (#[trigger] front[j]).1.led_row == before[i].row
                        && front[j].1.led_col == before[i].col;
                assert(locs[j].1.led_row == all[i].row);
            } else {
                assert(locs[locs.len() - 1].1.led_row == all[i].row);
            }
        }
    }
}

/// Whether no two keys share an LED.
pub open spec fn leds_differ(locs: Seq<(u8, KeyLoc)>) -> bool {
    forall|i: int, j: int|
        0 <= i < j < locs.len() ==> (#[trigger] locs[i]).1.led_row != (#[trigger] locs[j]).1.led_row
            || locs[i].1.led_col != locs[j].1.led_col
}

proof fn lemma_shown_cell(
    locs: Seq<(u8, KeyLoc)>,
    b: Board,
    dev: u8,
    cells: Map<u8, Seq<WtnCell>>,
    sh: Shade,
    i: int,
)
    requires
        0 <= i < locs.len(),
        leds_differ(locs),
    ensures
        shown(
            cells_paint(locs, b, dev, cells, sh),
            dev,
            locs[i].1.led_row,
            locs[i].1.led_col,
        ) == (match board::place_at(b, locs[i].1) {
            Some(p) => match wtn::cell_of(cells, b.wtn_board, p.index as int) {
                Some(cell) => Some(shaded(sh, cell)),
                None => None,
            },
            None => None,
        }),
    decreases locs.len(),
{
    let front = locs.drop_last();
    let before = cells_paint(front, b, dev, cells, sh);
    let all = cells_paint(locs, b, dev, cells, sh);
    let row = locs[i].1.led_row;
    let col = locs[i].1.led_col;
    if i < front.len() {
        assert(leds_differ(front)) by {
            assert forall|p: int, q: int| 0 <= p < q < front.len() implies (
            #[trigger] front[p]).1.led_row != (#[trigger] front[q]).1.led_row
                || front[p].1.led_col != front[q].1.led_col by {
                assert(front[p] == locs[p] && front[q] == locs[q]);
            }
        }
        lemma_shown_cell(front, b, dev, cells, sh, i);
        assert(front[i] == locs[i]);
        let last = locs[locs.len() - 1];
        assert(locs[i].1.led_row != last.1.led_row || locs[i].1.led_col != last.1.led_col);
        if all != before {
            assert(all.drop_last() =~= before);
        }
    } else {
        lemma_cells_on(front, b, dev, cells, sh);
        assert(misses(before, dev, row, col)) by {
            assert forall|k: int| 0 <= k < before.len() implies (
            #[trigger] before[k]).device_index != dev || before[k].row != row || before[k].col
                != col by {
                let j = choose|j: int|
                    0 <= j < front.len() && (#[trigger] front[j]).1.led_row == before[k].row
                        && front[j].1.led_col == before[k].col;
                assert(front[j] == locs[j]);
                assert(locs[j].1.led_row != locs[i].1.led_row || locs[j].1.led_col
                    != locs[i].1.led_col);
            }
        }
        lemma_missed(before, dev, row, col);
    }
}

proof fn lemma_strip_misses(
    dev: u8,
    row: u8,
    cols: Seq<u8>,
    rgb: (u8, u8, u8),
    d: u8,
    r: u8,
    c: u8,
)
    requires
        d != dev || r != row,
    ensures
        shown(strip(dev, row, cols, rgb), d, r, c) is None,
{
    let s = strip(dev, row, cols, rgb);
    assert(misses(s, d, r, c));
    lemma_missed(s, d, r, c);
}

impl Stage {
    proof fn lemma_board_on(
        self,
        id: u64,
        b: Board,
        cells: Map<u8, Seq<WtnCell>>,
        sh: Shade,
        with_bar: bool,
        with_aftertouch: bool,
        rgb: (u8, u8, u8),
        marks: MarkSet,
    )
        ensures
            ({
                let all = self.board_paint(id, b, cells, sh, with_bar, with_aftertouch, rgb, marks);
                match self.light(id) {
                    Some(dev) => all_on(all, dev),
                    None => all.len() == 0,
                }
            }),
    {
        let space = self.mark(id, hid::SPACE, space_rgb(rgb, marks.0.contains(id)));
        let ctrl = self.ctrl_mark(id, rgb, marks.1.contains(id));
        let alt = self.mark(id, hid::RIGHT_ALT, aftertouch_rgb(rgb, marks.2));
        let bar = self.bar(id, rgb);
        if self.light(id) is Some {
            let dev = self.light(id)->0;
            let left = self.mark(id, hid::LEFT_CTRL, ctrl_rgb(rgb, marks.1.contains(id)));
            let right = self.mark(id, hid::RIGHT_CTRL, ctrl_rgb(rgb, marks.1.contains(id)));
            lemma_cells_on(self.hid_map.locs.entries@, b, dev, cells, sh);
            lemma_both_on(left, right, dev);
            lemma_both_on(bar, space, dev);
            lemma_both_on(bar + space, ctrl, dev);
            let tail = if with_aftertouch {
                alt
            } else {
                Seq::empty()
            };
            lemma_both_on(bar + space + ctrl, tail, dev);
            let rest = if with_bar {
                bar + space + ctrl + tail
            } else {
                Seq::empty()
            };
            lemma_both_on(self.cells(id, b, cells, sh), rest, dev);
        }
    }

    proof fn lemma_shown_board(
        self,
        id: u64,
        b: Board,
        cells: Map<u8, Seq<WtnCell>>,
        sh: Shade,
        with_bar: bool,
        with_aftertouch: bool,
        rgb: (u8, u8, u8),
        marks: MarkSet,
        row: u8,
        col: u8,
    )
        requires
            self.light(id) is Some,
        ensures
            ({
                let dev = self.light(id)->0;
                let all = self.board_paint(id, b, cells, sh, with_bar, with_aftertouch, rgb, marks);
                let cell = shown(
                    cells_paint(self.hid_map.locs.entries@, b, dev, cells, sh),
                    dev,
                    row,
                    col,
                );
                &&& row != self.bar_row || !with_bar ==> shown(all, dev, row, col) == cell
                &&& row == self.bar_row && with_bar && col < 14 ==> shown(all, dev, row, col)
                    == Some(
                    if with_aftertouch && cols_of(self.bar_cols@, hid::RIGHT_ALT).contains(col) {
                        aftertouch_rgb(rgb, marks.2)
                    } else if cols_of(self.bar_cols@, hid::LEFT_CTRL).contains(col) || cols_of(
                        self.bar_cols@,
                        hid::RIGHT_CTRL,
                    ).contains(col) {
                        ctrl_rgb(rgb, marks.1.contains(id))
                    } else if cols_of(self.bar_cols@, hid::SPACE).contains(col) {
                        space_rgb(rgb, marks.0.contains(id))
                    } else {
                        rgb
                    },
                )
            }),
    {
        let dev = self.light(id)->0;
        let on = ctrl_rgb(rgb, marks.1.contains(id));
        let up = space_rgb(rgb, marks.0.contains(id));
        let at = aftertouch_rgb(rgb, marks.2);
        let own = self.cells(id, b, cells, sh);
        let bar = self.bar(id, rgb);
        let left = self.mark(id, hid::LEFT_CTRL, on);
        let right = self.mark(id, hid::RIGHT_CTRL, on);
        let space = self.mark(id, hid::SPACE, up);
        let alt = self.mark(id, hid::RIGHT_ALT, at);
        let tail = if with_aftertouch {
            alt
        } else {
            Seq::empty()
        };
        let rest = bar + space + (left + right) + tail;
        lemma_shown_behind(own, rest, dev, row, col);
        lemma_shown_behind(bar + space + (left + right), tail, dev, row, col);
        lemma_shown_behind(bar + space, left + right, dev, row, col);
        lemma_shown_behind(bar, space, dev, row, col);
        lemma_shown_behind(left, right, dev, row, col);
        if row == self.bar_row {
            lemma_shown_strip(dev, row, all_cols(), rgb, col);
            if col < 14 {
                assert(all_cols()[col as int] == col);
            }
            lemma_shown_strip(dev, row, cols_of(self.bar_cols@, hid::LEFT_CTRL), on, col);
            lemma_shown_strip(dev, row, cols_of(self.bar_cols@, hid::RIGHT_CTRL), on, col);
            lemma_shown_strip(dev, row, cols_of(self.bar_cols@, hid::SPACE), up, col);
            lemma_shown_strip(dev, row, cols_of(self.bar_cols@, hid::RIGHT_ALT), at, col);
        } else {
            lemma_strip_misses(dev, self.bar_row, all_cols(), rgb, dev, row, col);
            lemma_strip_misses(
                dev,
                self.bar_row,
                cols_of(self.bar_cols@, hid::LEFT_CTRL),
                on,
                dev,
                row,
                col,
            );
            lemma_strip_misses(
                dev,
                self.bar_row,
                cols_of(self.bar_cols@, hid::RIGHT_CTRL),
                on,
                dev,
                row,
                col,
            );
            lemma_strip_misses(
                dev,
                self.bar_row,
                cols_of(self.bar_cols@, hid::SPACE),
                up,
                dev,
                row,
                col,
            );
            lemma_strip_misses(
                dev,
                self.bar_row,
                cols_of(self.bar_cols@, hid::RIGHT_ALT),
                at,
                dev,
                row,
                col,
            );
        }
        assert(own + Seq::<RgbKey>::empty() =~= own);
    }

    /// Whether no other keyboard than the one at `n` has its light device.
    pub open spec fn has_own_lights(self, n: int) -> bool {
        forall|j: int|
            0 <= j < self.boards.entries@.len() && j != n ==> self.light(
                (#[trigger] self.boards.entries@[j]).0,
            ) != self.light(self.boards.entries@[n].0)
    }

    proof fn lemma_shown_boards(
        self,
        m: int,
        n: int,
        cells: Map<u8, Seq<WtnCell>>,
        sh: Shade,
        with_bar: bool,
        with_aftertouch: bool,
        rgb: (u8, u8, u8),
        marks: MarkSet,
        row: u8,
        col: u8,
    )
        requires
            0 <= n < self.boards.entries@.len(),
            0 <= m <= self.boards.entries@.len(),
            self.light(self.boards.entries@[n].0) is Some,
            self.has_own_lights(n),
        ensures
            ({
                let e = self.boards.entries@[n];
                let dev = self.light(e.0)->0;
                let all = self.boards_paint(m, cells, sh, with_bar, with_aftertouch, rgb, marks);
                let one = self.board_paint(
                    e.0,
                    e.1,
                    cells,
                    sh,
                    with_bar,
                    with_aftertouch,
                    rgb,
                    marks,
                );
                shown(all, dev, row, col) == (if n < m {
                    shown(one, dev, row, col)
                } else {
                    None
                })
            }),
        decreases m,
    {
        if m > 0 {
            self.lemma_shown_boards(
                m - 1,
                n,
                cells,
                sh,
                with_bar,
                with_aftertouch,
                rgb,
                marks,
                row,
                col,
            );
            let e = self.boards.entries@[m - 1];
            let dev = self.light(self.boards.entries@[n].0)->0;
            let before = self.boards_paint(m - 1, cells, sh, with_bar, with_aftertouch, rgb, marks);
            let last = self.board_paint(e.0, e.1, cells, sh, with_bar, with_aftertouch, rgb, marks);
            lemma_shown_behind(before, last, dev, row, col);
            if m - 1 != n {
                self.lemma_board_on(e.0, e.1, cells, sh, with_bar, with_aftertouch, rgb, marks);
                assert(misses(last, dev, row, col));
                lemma_missed(last, dev, row, col);
            }
        }
    }

    proof fn lemma_shown_dark(self, m: int, n: int, row: u8, col: u8)
        requires
            0 <= n < m <= self.boards.entries@.len(),
            self.light(self.boards.entries@[n].0) is Some,
            (row == self.bar_row && col < 14) || exists|i: int|
                0 <= i < self.hid_map.locs.entries@.len() && (
                #[trigger] self.hid_map.locs.entries@[i]).1.led_row == row
                    && self.hid_map.locs.entries@[i].1.led_col == col,
        ensures
            shown(self.all_dark(m), self.light(self.boards.entries@[n].0)->0, row, col) == Some(
                (0u8, 0u8, 0u8),
            ),
        decreases m,
    {
        let id = self.boards.entries@[m - 1].0;
        let dev = self.light(self.boards.entries@[n].0)->0;
        let before = self.all_dark(m - 1);
        let last = self.dark(id);
        lemma_shown_behind(before, last, dev, row, col);
        lemma_all_black(last, dev, row, col);
        if n < m - 1 {
            self.lemma_shown_dark(m - 1, n, row, col);
        } else {
            let want = RgbKey { device_index: dev, row, col, rgb: (0u8, 0u8, 0u8) };
            let locs = self.hid_map.locs.entries@;
            let keys = locs.map_values(
                |e: (u8, KeyLoc)|
                    RgbKey {
                        device_index: dev,
                        row: e.1.led_row,
                        col: e.1.led_col,
                        rgb: (0u8, 0u8, 0u8),
                    },
            );
            let bar = self.bar(id, (0, 0, 0));
            if row == self.bar_row && col < 14 {
                assert(bar[col as int] == want);
                assert(last[keys.len() + col as int] == want);
            } else {
                let i = choose|i: int|
                    0 <= i < locs.len() && (#[trigger] locs[i]).1.led_row == row
                        && locs[i].1.led_col == col;
                assert(keys[i] == want);
                assert(last[i] == want);
            }
            lemma_hit(last, want);
        }
    }

    proof fn lemma_dark_is_black(self, m: int)
        requires
            0 <= m <= self.boards.entries@.len(),
        ensures
            forall|i: int|
                0 <= i < self.all_dark(m).len() ==> (#[trigger] self.all_dark(m)[i]).rgb == (
                    0u8,
                    0u8,
                    0u8,
                ),
        decreases m,
    {
        if m > 0 {
            self.lemma_dark_is_black(m - 1);
            let before = self.all_dark(m - 1);
            let last = self.dark(self.boards.entries@[m - 1].0);
            let all = self.all_dark(m);
            assert forall|i: int| 0 <= i < all.len() implies (#[trigger] all[i]).rgb == (
                0u8,
                0u8,
                0u8,
            ) by {
                if i < before.len() {
                    assert(all[i] == before[i]);
                } else {
                    assert(all[i] == last[i - before.len()]);
                }
            }
        }
    }

    proof fn lemma_shown_bars(
        self,
        m: int,
        n: int,
        rgb: (u8, u8, u8),
        marks: MarkSet,
        col: u8,
    )
        requires
            0 <= n < self.boards.entries@.len(),
            0 <= m <= self.boards.entries@.len(),
            self.light(self.boards.entries@[n].0) is Some,
            self.has_own_lights(n),
        ensures
            ({
                let id = self.boards.entries@[n].0;
                let dev = self.light(id)->0;
                shown(self.bars_paint(m, rgb, marks), dev, self.bar_row, col) == (if n < m {
                    shown(self.marked_bar(id, rgb, marks), dev, self.bar_row, col)
                } else {
                    None
                })
            }),
        decreases m,
    {
        if m > 0 {
            self.lemma_shown_bars(m - 1, n, rgb, marks, col);
            let id = self.boards.entries@[m - 1].0;
            let dev = self.light(self.boards.entries@[n].0)->0;
            let before = self.bars_paint(m - 1, rgb, marks);
            let last = self.marked_bar(id, rgb, marks);
            lemma_shown_behind(before, last, dev, self.bar_row, col);
            if m - 1 != n {
                let bar = self.bar(id, rgb);
                let left = self.mark(id, hid::LEFT_CTRL, ctrl_rgb(rgb, marks.1.contains(id)));
                let right = self.mark(id, hid::RIGHT_CTRL, ctrl_rgb(rgb, marks.1.contains(id)));
                let space = self.mark(id, hid::SPACE, space_rgb(rgb, marks.0.contains(id)));
                let alt = self.mark(id, hid::RIGHT_ALT, aftertouch_rgb(rgb, marks.2));
                if self.light(id) is Some {
                    let d = self.light(id)->0;
                    lemma_both_on(left, right, d);
                    lemma_both_on(bar, left + right, d);
                    lemma_both_on(bar + (left + right), space, d);
                    lemma_both_on(bar + (left + right) + space, alt, d);
                }
                assert(misses(last, dev, self.bar_row, col));
                lemma_missed(last, dev, self.bar_row, col);
            }
        }
    }
}

proof fn lemma_all_black(cmds: Seq<RgbKey>, dev: u8, row: u8, col: u8)
    ensures
        (forall|i: int| 0 <= i < cmds.len() ==> (#[trigger] cmds[i]).rgb == (0u8, 0u8, 0u8))
            ==> shown(cmds, dev, row, col) is None || shown(cmds, dev, row, col) == Some(
            (0u8, 0u8, 0u8),
        ),
    decreases cmds.len(),
{
    if cmds.len() > 0 {
        let front = cmds.drop_last();
        lemma_all_black(front, dev, row, col);
        if forall|i: int| 0 <= i < cmds.len() ==> (#[trigger] cmds[i]).rgb == (0u8, 0u8, 0u8) {
            assert forall|i: int| 0 <= i < front.len() implies (#[trigger] front[i]).rgb == (
                0u8,
                0u8,
                0u8,
            ) by {
                assert(front[i] == cmds[i]);
            }
            assert(cmds[cmds.len() - 1].rgb == (0u8, 0u8, 0u8));
        }
    }
}

proof fn lemma_hit(cmds: Seq<RgbKey>, k: RgbKey)
    requires
        cmds.contains(k),
    ensures
        shown(cmds, k.device_index, k.row, k.col) is Some,
    decreases cmds.len(),
{
    let i = choose|i: int| 0 <= i < cmds.len() && cmds[i] == k;
    if i < cmds.len() - 1 {
        assert(cmds.drop_last()[i] == k);
        lemma_hit(cmds.drop_last(), k);
    }
}

/// When a layout is painted, the LED of each key that has a cell shows the cell's own
/// colour, on every keyboard that has its lights to itself; an LED of a key without a cell
/// is left alone.
pub proof fn layouts_are_painted_key_by_key(
    stage: Stage,
    cells: Map<u8, Seq<WtnCell>>,
    with_bar: bool,
    tm: TrainerMode,
    marks: MarkSet,
    n: int,
    i: int,
)
    requires
        0 <= n < stage.boards.entries@.len(),
        stage.light(stage.boards.entries@[n].0) is Some,
        stage.has_own_lights(n),
        leds_differ(stage.hid_map.locs.entries@),
        0 <= i < stage.hid_map.locs.entries@.len(),
        stage.hid_map.locs.entries@[i].1.led_row != stage.bar_row,
    ensures
        ({
            let (id, b) = stage.boards.entries@[n];
            let loc = stage.hid_map.locs.entries@[i].1;
            let seen = shown(
                stage.base_paint(cells, with_bar, tm, marks),
                stage.light(id)->0,
                loc.led_row,
                loc.led_col,
            );
            match board::place_at(b, loc) {
                Some(p) => if cells.contains_key(b.wtn_board) && p.index < cells[b.wtn_board].len() {
                    seen == Some(cells[b.wtn_board][p.index as int].col_rgb)
                } else {
                    seen is None
                },
                None => seen is None,
            }
        }),
{
    let (id, b) = stage.boards.entries@[n];
    let loc = stage.hid_map.locs.entries@[i].1;
    let len = stage.boards.entries@.len() as int;
    let rgb = modes::bar_rgb(tm);
    stage.lemma_shown_boards(
        len,
        n,
        cells,
        plain(),
        with_bar,
        true,
        rgb,
        marks,
        loc.led_row,
        loc.led_col,
    );
    stage.lemma_shown_board(
        id,
        b,
        cells,
        plain(),
        with_bar,
        true,
        rgb,
        marks,
        loc.led_row,
        loc.led_col,
    );
    lemma_shown_cell(
        stage.hid_map.locs.entries@,
        b,
        stage.light(id)->0,
        cells,
        plain(),
        i,
    );
}

/// When the guide is painted, the LED of each key that has a cell shows the cell's own
/// colour exactly if the guide is active and the place of its note in the octave is lit;
/// else it is dimmed.
pub proof fn guides_are_painted_key_by_key(
    stage: Stage,
    cells: Map<u8, Seq<WtnCell>>,
    sh: Shade,
    marks: MarkSet,
    n: int,
    i: int,
)
    requires
        sh.0 != GuideMode::Off,
        sh.1 > 0,
        0 <= n < stage.boards.entries@.len(),
        stage.light(stage.boards.entries@[n].0) is Some,
        stage.has_own_lights(n),
        leds_differ(stage.hid_map.locs.entries@),
        0 <= i < stage.hid_map.locs.entries@.len(),
        stage.hid_map.locs.entries@[i].1.led_row != stage.bar_row,
    ensures
        ({
            let (id, b) = stage.boards.entries@[n];
            let loc = stage.hid_map.locs.entries@[i].1;
            let seen = shown(
                stage.guide_paint(cells, sh, marks),
                stage.light(id)->0,
                loc.led_row,
                loc.led_col,
            );
            match board::place_at(b, loc) {
                Some(p) => if cells.contains_key(b.wtn_board) && p.index < cells[b.wtn_board].len() {
                    let cell = cells[b.wtn_board][p.index as int];
                    let own = cell.col_rgb;
                    if sh.0 == GuideMode::Active && sh.3.contains(
                        ((cell.key + sh.2) % (sh.1 as int)) as i64,
                    ) {
                        seen == Some(own)
                    } else {
                        seen == Some((sh.4[own.0 as int], sh.4[own.1 as int], sh.4[own.2 as int]))
                    }
                } else {
                    seen is None
                },
                None => seen is None,
            }
        }),
{
    let (id, b) = stage.boards.entries@[n];
    let loc = stage.hid_map.locs.entries@[i].1;
    let len = stage.boards.entries@.len() as int;
    let rgb = modes::bar_rgb(modes::trainer_for(sh.0));
    stage.lemma_shown_boards(len, n, cells, sh, true, false, rgb, marks, loc.led_row, loc.led_col);
    stage.lemma_shown_board(id, b, cells, sh, true, false, rgb, marks, loc.led_row, loc.led_col);
    lemma_shown_cell(stage.hid_map.locs.entries@, b, stage.light(id)->0, cells, sh, i);
}

/// The control bar of a painted keyboard: the columns of the right Alt key show the
/// aftertouch mode, unless the guide is shown; of the others, those of the Ctrl keys are
/// yellow while a capture is on; of the others, those of the space bar are white while the
/// keyboard plays an octave up; the rest is off, green or red: off while the guide waits,
/// green while it is active.
pub proof fn bars_are_painted_with_their_marks(
    stage: Stage,
    cells: Map<u8, Seq<WtnCell>>,
    sh: Shade,
    tm: TrainerMode,
    marks: MarkSet,
    n: int,
    col: u8,
)
    requires
        0 <= n < stage.boards.entries@.len(),
        stage.light(stage.boards.entries@[n].0) is Some,
        stage.has_own_lights(n),
        col < 14,
    ensures
        ({
            let id = stage.boards.entries@[n].0;
            let dev = stage.light(id)->0;
            let bars = stage.bar_cols@;
            let at = |code: u8| bars.contains_key(code) && bars[code]@.contains(col);
            let base = shown(stage.base_paint(cells, true, tm, marks), dev, stage.bar_row, col);
            let guide = shown(stage.guide_paint(cells, sh, marks), dev, stage.bar_row, col);
            let bare = modes::bar_rgb(tm);
            &&& base == Some(
                if at(hid::RIGHT_ALT) {
                    match marks.2 {
                        AftertouchMode::SpeedMapped => bare,
                        AftertouchMode::PeakMapped => (255u8, 255u8, 0u8),
                        AftertouchMode::Off => (0u8, 128u8, 255u8),
                    }
                } else if at(hid::LEFT_CTRL) || at(hid::RIGHT_CTRL) {
                    if marks.1.contains(id) {
                        (255u8, 255u8, 0u8)
                    } else {
                        bare
                    }
                } else if at(hid::SPACE) && marks.0.contains(id) {
                    (255u8, 255u8, 255u8)
                } else {
                    bare
                },
            )
            &&& sh.0 == GuideMode::Off ==> guide is None
            &&& sh.0 != GuideMode::Off ==> {
                let shade = if sh.0 == GuideMode::WaitRoot {
                    (0u8, 0u8, 0u8)
                } else {
                    (0u8, 255u8, 0u8)
                };
                guide == Some(
                    if at(hid::LEFT_CTRL) || at(hid::RIGHT_CTRL) {
                        if marks.1.contains(id) {
                            (255u8, 255u8, 0u8)
                        } else {
                            shade
                        }
                    } else if at(hid::SPACE) && marks.0.contains(id) {
                        (255u8, 255u8, 255u8)
                    } else {
                        shade
                    },
                )
            }
        }),
{
    let (id, b) = stage.boards.entries@[n];
    let len = stage.boards.entries@.len() as int;
    let row = stage.bar_row;
    let rgb = modes::bar_rgb(tm);
    stage.lemma_shown_boards(len, n, cells, plain(), true, true, rgb, marks, row, col);
    stage.lemma_shown_board(id, b, cells, plain(), true, true, rgb, marks, row, col);
    let rgb = modes::bar_rgb(modes::trainer_for(sh.0));
    stage.lemma_shown_boards(len, n, cells, sh, true, false, rgb, marks, row, col);
    stage.lemma_shown_board(id, b, cells, sh, true, false, rgb, marks, row, col);
}

/// A layout that is painted without the control bars leaves them alone.
pub proof fn bars_are_left_alone(
    stage: Stage,
    cells: Map<u8, Seq<WtnCell>>,
    tm: TrainerMode,
    marks: MarkSet,
    n: int,
    col: u8,
)
    requires
        0 <= n < stage.boards.entries@.len(),
        stage.light(stage.boards.entries@[n].0) is Some,
        stage.has_own_lights(n),
        forall|i: int|
            0 <= i < stage.hid_map.locs.entries@.len() ==> (
            #[trigger] stage.hid_map.locs.entries@[i]).1.led_row != stage.bar_row,
    ensures
        shown(
            stage.base_paint(cells, false, tm, marks),
            stage.light(stage.boards.entries@[n].0)->0,
            stage.bar_row,
            col,
        ) is None,
{
    let (id, b) = stage.boards.entries@[n];
    let len = stage.boards.entries@.len() as int;
    let row = stage.bar_row;
    let dev = stage.light(id)->0;
    let rgb = modes::bar_rgb(tm);
    let locs = stage.hid_map.locs.entries@;
    stage.lemma_shown_boards(len, n, cells, plain(), false, true, rgb, marks, row, col);
    stage.lemma_shown_board(id, b, cells, plain(), false, true, rgb, marks, row, col);
    lemma_cells_on(locs, b, dev, cells, plain());
    assert(misses(cells_paint(locs, b, dev, cells, plain()), dev, row, col));
    lemma_missed(cells_paint(locs, b, dev, cells, plain()), dev, row, col);
}

/// When the lights go out, every key and the whole control bar of every keyboard with lights
/// are black, and nothing is lit.
pub proof fn lights_go_out_everywhere(stage: Stage, n: int, row: u8, col: u8)
    requires
        0 <= n < stage.boards.entries@.len(),
        stage.light(stage.boards.entries@[n].0) is Some,
        (row == stage.bar_row && col < 14) || exists|i: int|
            0 <= i < stage.hid_map.locs.entries@.len() && (
            #[trigger] stage.hid_map.locs.entries@[i]).1.led_row == row
                && stage.hid_map.locs.entries@[i].1.led_col == col,
    ensures
        ({
            let all = stage.all_dark(stage.boards.entries@.len() as int);
            &&& shown(all, stage.light(stage.boards.entries@[n].0)->0, row, col) == Some(
                (0u8, 0u8, 0u8),
            )
            &&& forall|i: int| 0 <= i < all.len() ==> (#[trigger] all[i]).rgb == (0u8, 0u8, 0u8)
        }),
{
    let len = stage.boards.entries@.len() as int;
    stage.lemma_shown_dark(len, n, row, col);
    stage.lemma_dark_is_black(len);
}

/// When the control bars are painted, each keyboard that has its lights to itself shows its
/// own bar with its marks.
pub proof fn every_bar_is_painted(
    stage: Stage,
    rgb: (u8, u8, u8),
    marks: MarkSet,
    n: int,
    col: u8,
)
    requires
        0 <= n < stage.boards.entries@.len(),
        stage.light(stage.boards.entries@[n].0) is Some,
        stage.has_own_lights(n),
        col < 14,
    ensures
        ({
            let id = stage.boards.entries@[n].0;
            let bars = stage.bar_cols@;
            let at = |code: u8| bars.contains_key(code) && bars[code]@.contains(col);
            shown(
                stage.bars_paint(stage.boards.entries@.len() as int, rgb, marks),
                stage.light(id)->0,
                stage.bar_row,
                col,
            ) == Some(
                if at(hid::RIGHT_ALT) {
                    match marks.2 {
                        AftertouchMode::SpeedMapped => rgb,
                        AftertouchMode::PeakMapped => (255u8, 255u8, 0u8),
                        AftertouchMode::Off => (0u8, 128u8, 255u8),
                    }
                } else if at(hid::SPACE) {
                    if marks.0.contains(id) {
                        (255u8, 255u8, 255u8)
                    } else {
                        rgb
                    }
                } else if (at(hid::LEFT_CTRL) || at(hid::RIGHT_CTRL)) && marks.1.contains(id) {
                    (255u8, 255u8, 0u8)
                } else {
                    rgb
                },
            )
        }),
{
    let len = stage.boards.entries@.len() as int;
    stage.lemma_shown_bars(len, n, rgb, marks, col);
    marks_override_the_bar(stage, stage.boards.entries@[n].0, rgb, marks, col);
}

/// When a key of the control bar is let go, its columns go back to the bar's colour, unless
/// they carry a mark: the marks show as before.
pub proof fn released_keys_show_the_bar(
    stage: Stage,
    id: u64,
    led_hid: u8,
    base: (u8, u8, u8),
    marks: MarkSet,
    col: u8,
)
    requires
        stage.light(id) is Some,
    ensures
        ({
            let bars = stage.bar_cols@;
            let at = |code: u8| bars.contains_key(code) && bars[code]@.contains(col);
            shown(
                stage.released(id, led_hid, base, marks),
                stage.light(id)->0,
                stage.bar_row,
                col,
            ) == (if at(hid::RIGHT_ALT) {
                Some(
                    match marks.2 {
                        AftertouchMode::SpeedMapped => base,
                        AftertouchMode::PeakMapped => (255u8, 255u8, 0u8),
                        AftertouchMode::Off => (0u8, 128u8, 255u8),
                    },
                )
            } else if at(hid::LEFT_CTRL) || at(hid::RIGHT_CTRL) {
                Some(
                    if marks.1.contains(id) {
                        (255u8, 255u8, 0u8)
                    } else {
                        base
                    },
                )
            } else if at(hid::SPACE) {
                Some(
                    if marks.0.contains(id) {
                        (255u8, 255u8, 255u8)
                    } else {
                        base
                    },
                )
            } else if at(led_hid) {
                Some(base)
            } else {
                None
            })
        }),
{
    let dev = stage.light(id)->0;
    let row = stage.bar_row;
    let on = ctrl_rgb(base, marks.1.contains(id));
    let up = space_rgb(base, marks.0.contains(id));
    let at = aftertouch_rgb(base, marks.2);
    let key = stage.mark(id, led_hid, base);
    let left = stage.mark(id, hid::LEFT_CTRL, on);
    let right = stage.mark(id, hid::RIGHT_CTRL, on);
    let space = stage.mark(id, hid::SPACE, up);
    let alt = stage.mark(id, hid::RIGHT_ALT, at);
    lemma_shown_strip(dev, row, cols_of(stage.bar_cols@, led_hid), base, col);
    lemma_shown_strip(dev, row, cols_of(stage.bar_cols@, hid::LEFT_CTRL), on, col);
    lemma_shown_strip(dev, row, cols_of(stage.bar_cols@, hid::RIGHT_CTRL), on, col);
    lemma_shown_strip(dev, row, cols_of(stage.bar_cols@, hid::SPACE), up, col);
    lemma_shown_strip(dev, row, cols_of(stage.bar_cols@, hid::RIGHT_ALT), at, col);
    lemma_shown_behind(left, right, dev, row, col);
    lemma_shown_behind(key, space, dev, row, col);
    lemma_shown_behind(key + space, left + right, dev, row, col);
    lemma_shown_behind(key + space + (left + right), alt, dev, row, col);
}

/// A keyboard has lights where there are any and it has a light device; without, nothing of
/// it is painted.
pub proof fn lights_need_a_device(stage: Stage, id: u64, code: u8, rgb: (u8, u8, u8))
    ensures
        stage.light(id) is Some <==> stage.enabled && stage.rgb_map@.contains_key(id),
        stage.light(id) matches Some(dev) ==> dev == stage.rgb_map@[id],
        stage.light(id) is None ==> stage.mark(id, code, rgb).len() == 0,
        stage.light(id) is Some ==> stage.mark(id, code, rgb).len() == (
        if stage.bar_cols@.contains_key(code) {
            stage.bar_cols@[code]@.len()
        } else {
            0
        }),
        forall|i: int|
            0 <= i < stage.mark(id, code, rgb).len() ==> (#[trigger] stage.mark(
                id,
                code,
                rgb,
            )[i]) == (RgbKey {
                device_index: stage.rgb_map@[id],
                row: stage.bar_row,
                col: stage.bar_cols@[code]@[i],
                rgb,
            }),
{
}

/// Of two lots of lights, one behind the other, the later count.
pub proof fn later_lights_count(a: Seq<RgbKey>, b: Seq<RgbKey>, dev: u8, row: u8, col: u8)
    ensures
        shown(b, dev, row, col) is Some ==> shown(a + b, dev, row, col) == shown(b, dev, row, col),
        shown(b, dev, row, col) is None ==> shown(a + b, dev, row, col) == shown(a, dev, row, col),
{
    lemma_shown_behind(a, b, dev, row, col);
}

/// A key of the control bar is shown in its columns, in the bar's row.
pub proof fn marks_are_shown(stage: Stage, id: u64, code: u8, rgb: (u8, u8, u8), col: u8)
    requires
        stage.light(id) is Some,
    ensures
        shown(stage.mark(id, code, rgb), stage.light(id)->0, stage.bar_row, col) == (
        if stage.bar_cols@.contains_key(code) && stage.bar_cols@[code]@.contains(col) {
            Some(rgb)
        } else {
            None
        }),
{
    lemma_shown_strip(
        stage.light(id)->0,
        stage.bar_row,
        cols_of(stage.bar_cols@, code),
        rgb,
        col,
    );
}

/// A key of a keyboard's control bar is shown on no other light device, and in no other row.
pub proof fn marks_are_on_their_keyboard(
    stage: Stage,
    id: u64,
    code: u8,
    rgb: (u8, u8, u8),
    dev: u8,
    row: u8,
    col: u8,
)
    requires
        stage.light(id) != Some(dev) || row != stage.bar_row,
    ensures
        shown(stage.mark(id, code, rgb), dev, row, col) is None,
{
    if stage.light(id) is Some {
        lemma_strip_misses(
            stage.light(id)->0,
            stage.bar_row,
            cols_of(stage.bar_cols@, code),
            rgb,
            dev,
            row,
            col,
        );
    }
}

} // verus!
