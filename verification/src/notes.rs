//! Which notes sound, and which keys they belong to.
//!
//! A note that several keys play ends with the last of them. Times are nanoseconds since
//! the program began.
use vstd::prelude::*;
use std::collections::VecDeque;
use crate::table;
use crate::table::{Key, KeySet, Table};

verus! {

/// How long a tap sounds.
pub const TAP_NOTE_OFF_NS: u64 = 20_000_000;

/// How long the notes of a ping sound.
pub const PING_NS: u64 = 60_000_000;

/// How loud the notes of a ping are.
pub const PING_VELOCITY: u8 = 24;

/// A key of a keyboard.
#[derive(Debug, Clone, Copy, PartialEq, Eq, Structural)]
pub struct KeyId {
    pub device_id: u64,
    pub hid: u8,
}

impl Key for KeyId {
    fn same(&self, other: &Self) -> (b: bool) {
        self.device_id == other.device_id && self.hid == other.hid
    }
}

/// A note on a channel.
#[derive(Debug, Clone, Copy, PartialEq, Eq, Structural)]
pub struct Voice {
    pub ch: u8,
    pub note: u8,
}

impl Key for Voice {
    fn same(&self, other: &Self) -> (b: bool) {
        self.ch == other.ch && self.note == other.note
    }
}

/// The end of a note that is to come.
#[derive(Debug, Clone, Copy)]
pub struct PendingNoteOff {
    pub due_ns: u64,
    pub voice: Voice,
    /// The key that was tapped.
    pub origin: Option<KeyId>,
}

/// The notes that sound.
#[derive(Debug, Clone)]
pub struct Notes {
    /// What each key that is held plays.
    pub by_key: Table<KeyId, Voice>,
    /// How many times each note that sounds is played.
    pub count: Table<Voice, u32>,
    pub pending: VecDeque<PendingNoteOff>,
    /// The pitch that each key shows.
    pub hud: Table<KeyId, i64>,
    /// The pitches that the boards 0 and 1 show.
    pub pressed0: KeySet<i64>,
    pub pressed1: KeySet<i64>,
    /// The pressure that was last sent for each key.
    pub aftertouch: Table<KeyId, u8>,
}

/// The notes of a ping: a triad on the first channel.
pub fn ping_voices() -> (r: Vec<Voice>)
    ensures
        r@ == seq![
            Voice { ch: 0, note: 72 },
            Voice { ch: 0, note: 76 },
            Voice { ch: 0, note: 79 },
        ],
{
    let r: Vec<Voice> = vec![
        Voice { ch: 0, note: 72 },
        Voice { ch: 0, note: 76 },
        Voice { ch: 0, note: 79 },
    ];
    assert(r@ =~= seq![
        Voice { ch: 0, note: 72 },
        Voice { ch: 0, note: 76 },
        Voice { ch: 0, note: 79 },
    ]);
    r
}

/// How many of the keys play `v`.
pub open spec fn holders(entries: Seq<(KeyId, Voice)>, v: Voice) -> nat
    decreases entries.len(),
{
    if entries.len() == 0 {
        0
    } else {
        holders(entries.drop_last(), v) + if entries.last().1 == v {
            1nat
        } else {
            0
        }
    }
}

/// How many ends of `v` are to come.
pub open spec fn waiting(pending: Seq<PendingNoteOff>, v: Voice) -> nat
    decreases pending.len(),
{
    if pending.len() == 0 {
        0
    } else {
        waiting(pending.drop_last(), v) + if pending.last().voice == v {
            1nat
        } else {
            0
        }
    }
}

/// What a key's release comes to.
#[derive(Debug, Clone, Copy, PartialEq, Eq, Structural)]
pub enum Release {
    /// Others still play the note, as many as `count` with this one.
    Shared { voice: Voice, count: u32 },
    /// The note ends.
    Off { voice: Voice },
    /// The key played nothing.
    Unmapped,
}

/// What the end of a note that was due comes to.
#[derive(Debug, Clone, Copy)]
pub enum Due {
    /// None is due.
    Nothing,
    /// The note has ended before.
    Gone,
    /// Others still play the note, `count` of them.
    Shared { voice: Voice, count: u32 },
    /// The note ends.
    Off { end: PendingNoteOff },
}

/// The count of a note, one less: a note that is played once is gone.
pub open spec fn lowered(count: Map<Voice, u32>, v: Voice) -> Map<Voice, u32> {
    if count.contains_key(v) && count[v] > 1 {
        count.insert(v, (count[v] - 1) as u32)
    } else {
        count.remove(v)
    }
}

/// The count of a note, one more.
pub open spec fn raised(count: Map<Voice, u32>, v: Voice) -> Map<Voice, u32> {
    count.insert(
        v,
        if count.contains_key(v) {
            (count[v] + 1) as u32
        } else {
            1
        },
    )
}

impl Notes {
    /// Every note that sounds is played by as many keys and taps as it is counted for, or
    /// by more.
    pub open spec fn accounted(self) -> bool {
        forall|v: Voice| #[trigger]
            self.count@.contains_key(v) ==> 1 <= self.count@[v] <= holders(self.by_key.entries@, v)
                + waiting(self.pending@, v)
    }

    pub open spec fn wf(self) -> bool {
        &&& table::distinct_keys(self.by_key.entries@)
        &&& table::distinct_keys(self.hud.entries@)
        &&& self.pressed0.wf()
        &&& self.pressed1.wf()
    }

    /// Whether a note can be counted once more.
    pub open spec fn can_count(self, v: Voice) -> bool {
        self.count@.contains_key(v) ==> self.count@[v] < u32::MAX
    }

    pub fn new() -> (r: Self)
        ensures
            r.wf(),
            r.accounted(),
            r.by_key@ == Map::<KeyId, Voice>::empty(),
            r.count@ == Map::<Voice, u32>::empty(),
            r.pending@.len() == 0,
            r.hud@ == Map::<KeyId, i64>::empty(),
            r.pressed0@ == Set::<i64>::empty(),
            r.pressed1@ == Set::<i64>::empty(),
            r.aftertouch@ == Map::<KeyId, u8>::empty(),
    {
        Notes {
            by_key: Table::new(),
            count: Table::new(),
            pending: VecDeque::new(),
            hud: Table::new(),
            pressed0: KeySet::new(),
            pressed1: KeySet::new(),
            aftertouch: Table::new(),
        }
    }

    /// Whether a note can be counted once more.
    pub fn has_room(&self, v: Voice) -> (r: bool)
        ensures
            r == self.can_count(v),
    {
        match self.count.get(v) {
            Some(n) => *n < u32::MAX,
            None => true,
        }
    }

    /// Whether a key plays a note.
    pub fn is_playing(&self, key: KeyId) -> (r: bool)
        ensures
            r == self.by_key@.contains_key(key),
    {
        self.by_key.contains(key)
    }

    fn raise(&mut self, v: Voice)
        requires
            old(self).can_count(v),
        ensures
            final(self).count@ == raised(old(self).count@, v),
            *final(self) == (Notes { count: final(self).count, ..*old(self) }),
    {
        let n: u32 = match self.count.get(v) {
            Some(n) => *n + 1,
            None => 1,
        };
        self.count.insert(v, n);
    }

    fn show(&mut self, key: KeyId, board: u8, pitch: i64)
        ensures
            final(self).hud@ == old(self).hud@.insert(key, pitch),
            final(self).pressed0@ == (if board == 0 {
                old(self).pressed0@.insert(pitch)
            } else {
                old(self).pressed0@
            }),
            final(self).pressed1@ == (if board == 1 {
                old(self).pressed1@.insert(pitch)
            } else {
                old(self).pressed1@
            }),
            old(self).wf() ==> final(self).wf(),
            *final(self) == (Notes {
                hud: final(self).hud,
                pressed0: final(self).pressed0,
                pressed1: final(self).pressed1,
                ..*old(self)
            }),
    {
        self.hud.insert(key, pitch);
        if board == 0 {
            self.pressed0.insert(pitch);
        } else if board == 1 {
            self.pressed1.insert(pitch);
        }
    }

    /// A note has begun that `key` plays; `pitch` is what the key shows on its board.
    pub fn note_on(&mut self, key: KeyId, voice: Voice, board: u8, pitch: Option<i64>)
        requires
            old(self).wf(),
            old(self).can_count(voice),
        ensures
            final(self).wf(),
            final(self).by_key@ == old(self).by_key@.insert(key, voice),
            final(self).count@ == raised(old(self).count@, voice),
            final(self).pending == old(self).pending,
            final(self).aftertouch == old(self).aftertouch,
            match pitch {
                Some(p) => {
                    &&& final(self).hud@ == old(self).hud@.insert(key, p)
                    &&& final(self).pressed0@ == (if board == 0 {
                        old(self).pressed0@.insert(p)
                    } else {
                        old(self).pressed0@
                    })
                    &&& final(self).pressed1@ == (if board == 1 {
                        old(self).pressed1@.insert(p)
                    } else {
                        old(self).pressed1@
                    })
                },
                None => {
                    &&& final(self).hud == old(self).hud
                    &&& final(self).pressed0 == old(self).pressed0
                    &&& final(self).pressed1 == old(self).pressed1
                },
            },
            old(self).accounted() && !old(self).by_key@.contains_key(key)
                ==> final(self).accounted(),
    {
        self.by_key.insert(key, voice);
        self.raise(voice);
        match pitch {
            Some(p) => {
                self.show(key, board, p);
            },
            None => {},
        }
        proof {
            if old(self).accounted() && !old(self).by_key@.contains_key(key) {
                assert forall|v: Voice| #[trigger] self.count@.contains_key(v) implies 1
                    <= self.count@[v] <= holders(self.by_key.entries@, v) + waiting(
                    self.pending@,
                    v,
                ) by {
                    let before = old(self).by_key.entries@;
                    assert(before.push((key, voice)).drop_last() =~= before);
                    if v != voice {
                        assert(old(self).count@.contains_key(v));
                    }
                }
            }
        }
    }

    fn push_end(&mut self, end: PendingNoteOff)
        requires
            old(self).can_count(end.voice),
        ensures
            final(self).count@ == raised(old(self).count@, end.voice),
            final(self).pending@ == old(self).pending@.push(end),
            *final(self) == (Notes {
                count: final(self).count,
                pending: final(self).pending,
                ..*old(self)
            }),
            old(self).accounted() ==> final(self).accounted(),
    {
        self.raise(end.voice);
        self.pending.push_back(end);
        proof {
            if old(self).accounted() {
                assert forall|v: Voice| #[trigger] self.count@.contains_key(v) implies 1
                    <= self.count@[v] <= holders(self.by_key.entries@, v) + waiting(
                    self.pending@,
                    v,
                ) by {
                    let before = old(self).pending@;
                    assert(before.push(end).drop_last() =~= before);
                    if v != end.voice {
                        assert(old(self).count@.contains_key(v));
                    }
                }
            }
        }
    }

    /// A note has begun that a tap of `key` plays; it ends at `due_ns`.
    pub fn tap_on(&mut self, key: KeyId, voice: Voice, board: u8, pitch: i64, due_ns: u64)
        requires
            old(self).wf(),
            old(self).can_count(voice),
        ensures
            final(self).wf(),
            final(self).by_key == old(self).by_key,
            final(self).count@ == raised(old(self).count@, voice),
            final(self).pending@ == old(self).pending@.push(
                PendingNoteOff { due_ns, voice, origin: Some(key) },
            ),
            final(self).hud@ == old(self).hud@.insert(key, pitch),
            final(self).pressed0@ == (if board == 0 {
                old(self).pressed0@.insert(pitch)
            } else {
                old(self).pressed0@
            }),
            final(self).pressed1@ == (if board == 1 {
                old(self).pressed1@.insert(pitch)
            } else {
                old(self).pressed1@
            }),
            final(self).aftertouch == old(self).aftertouch,
            old(self).accounted() ==> final(self).accounted(),
    {
        self.push_end(PendingNoteOff { due_ns, voice, origin: Some(key) });
        let ghost mid = *self;
        self.show(key, board, pitch);
        proof {
            if mid.accounted() {
                assert forall|v: Voice| #[trigger] self.count@.contains_key(v) implies 1
                    <= self.count@[v] <= holders(self.by_key.entries@, v) + waiting(
                    self.pending@,
                    v,
                ) by {
                    assert(mid.count@.contains_key(v));
                }
            }
        }
    }

    /// A note of a ping has begun; it ends at `due_ns`.
    pub fn ping_on(&mut self, voice: Voice, due_ns: u64)
        requires
            old(self).wf(),
            old(self).can_count(voice),
        ensures
            final(self).wf(),
            final(self).count@ == raised(old(self).count@, voice),
            final(self).pending@ == old(self).pending@.push(
                PendingNoteOff { due_ns, voice, origin: None },
            ),
            *final(self) == (Notes {
                count: final(self).count,
                pending: final(self).pending,
                ..*old(self)
            }),
            old(self).accounted() ==> final(self).accounted(),
    {
        self.push_end(PendingNoteOff { due_ns, voice, origin: None });
    }

    /// The key no longer shows its pitch on its board. Says whether it showed one.
    pub fn unshow(&mut self, key: KeyId, board: u8) -> (r: bool)
        requires
            old(self).wf(),
        ensures
            final(self).wf(),
            r == old(self).hud@.contains_key(key),
            final(self).hud@ == old(self).hud@.remove(key),
            final(self).pressed0@ == (if r && board == 0 {
                old(self).pressed0@.remove(old(self).hud@[key])
            } else {
                old(self).pressed0@
            }),
            final(self).pressed1@ == (if r && board == 1 {
                old(self).pressed1@.remove(old(self).hud@[key])
            } else {
                old(self).pressed1@
            }),
            *final(self) == (Notes {
                hud: final(self).hud,
                pressed0: final(self).pressed0,
                pressed1: final(self).pressed1,
                ..*old(self)
            }),
            old(self).accounted() ==> final(self).accounted(),
    {
        let r: bool = match self.hud.take(key) {
            Some(p) => {
                if board == 0 {
                    self.pressed0.remove(p);
                } else if board == 1 {
                    self.pressed1.remove(p);
                }
                true
            },
            None => false,
        };
        proof {
            if old(self).accounted() {
                assert forall|v: Voice| #[trigger] self.count@.contains_key(v) implies 1
                    <= self.count@[v] <= holders(self.by_key.entries@, v) + waiting(
                    self.pending@,
                    v,
                ) by {
                    assert(old(self).count@.contains_key(v));
                }
            }
        }
        r
    }

    /// A key was let go. The note that it plays ends, unless others play it too.
    pub fn release(&mut self, key: KeyId) -> (r: Release)
        requires
            old(self).wf(),
        ensures
            final(self).wf(),
            final(self).by_key@ == old(self).by_key@.remove(key),
            if old(self).by_key@.contains_key(key) {
                let v = old(self).by_key@[key];
                &&& final(self).count@ == lowered(old(self).count@, v)
                &&& r == (if old(self).count@.contains_key(v) && old(self).count@[v] > 1 {
                    Release::Shared { voice: v, count: old(self).count@[v] }
                } else {
                    Release::Off { voice: v }
                })
            } else {
                final(self).count == old(self).count && r == Release::Unmapped
            },
            *final(self) == (Notes {
                by_key: final(self).by_key,
                count: final(self).count,
                ..*old(self)
            }),
            old(self).accounted() ==> final(self).accounted(),
    {
        let ghost before = self.by_key.entries@;
        let voice: Voice = match self.by_key.take(key) {
            Some(v) => v,
            None => {
                proof {
                    lemma_holders_without(before, key, Voice { ch: 0, note: 0 });
                    if old(self).accounted() {
                        assert forall|v: Voice| #[trigger] self.count@.contains_key(v) implies 1
                            <= self.count@[v] <= holders(self.by_key.entries@, v) + waiting(
                            self.pending@,
                            v,
                        ) by {
                            lemma_holders_without(before, key, v);
                            assert(old(self).count@.contains_key(v));
                        }
                    }
                }
                return Release::Unmapped;
            },
        };
        let n: u32 = match self.count.get(voice) {
            Some(n) => *n,
            None => 1,
        };
        let r: Release = if n > 1 {
            self.count.insert(voice, n - 1);
            Release::Shared { voice, count: n }
        } else {
            self.count.remove(voice);
            Release::Off { voice }
        };
        proof {
            if old(self).accounted() {
                assert forall|v: Voice| #[trigger] self.count@.contains_key(v) implies 1
                    <= self.count@[v] <= holders(self.by_key.entries@, v) + waiting(
                    self.pending@,
                    v,
                ) by {
                    lemma_holders_without(before, key, v);
                    assert(old(self).count@.contains_key(v));
                }
            }
        }
        r
    }

    /// The next end of a note that is due at `now_ns`, if the first of those to come is.
    pub fn next_due(&mut self, now_ns: u64) -> (r: Due)
        requires
            old(self).wf(),
        ensures
            final(self).wf(),
            if old(self).pending@.len() == 0 || old(self).pending@[0].due_ns > now_ns {
                r is Nothing && *final(self) == *old(self)
            } else {
                let end = old(self).pending@[0];
                let v = end.voice;
                &&& final(self).pending@ == old(self).pending@.drop_first()
                &&& final(self).count@ == lowered(old(self).count@, v)
                &&& r == (if !old(self).count@.contains_key(v) {
                    Due::Gone
                } else if old(self).count@[v] > 1 {
                    Due::Shared { voice: v, count: (old(self).count@[v] - 1) as u32 }
                } else {
                    Due::Off { end }
                })
                &&& *final(self) == (Notes {
                    count: final(self).count,
                    pending: final(self).pending,
                    ..*old(self)
                })
            },
            old(self).accounted() ==> final(self).accounted(),
    {
        if self.pending.len() == 0 || self.pending[0].due_ns > now_ns {
            return Due::Nothing;
        }
        let ghost before = self.pending@;
        let end: PendingNoteOff = self.pending[0];
        let _ = self.pending.pop_front();
        assert(self.pending@ =~= before.drop_first());
        let voice: Voice = end.voice;
        let n: u32 = match self.count.get(voice) {
            Some(n) => *n,
            None => {
                assert(self.count@ =~= lowered(self.count@, voice));
                proof {
                    self.lemma_accounted_after_end(*old(self), end);
                }
                return Due::Gone;
            },
        };
        let r: Due = if n > 1 {
            self.count.insert(voice, n - 1);
            Due::Shared { voice, count: n - 1 }
        } else {
            self.count.remove(voice);
            Due::Off { end }
        };
        proof {
            self.lemma_accounted_after_end(*old(self), end);
        }
        r
    }

    proof fn lemma_accounted_after_end(self, before: Notes, end: PendingNoteOff)
        requires
            before.pending@.len() > 0,
            end == before.pending@[0],
            self.pending@ == before.pending@.drop_first(),
            self.by_key == before.by_key,
            self.count@ == lowered(before.count@, end.voice),
        ensures
            before.accounted() ==> self.accounted(),
    {
        if before.accounted() {
            assert forall|v: Voice| #[trigger] self.count@.contains_key(v) implies 1
                <= self.count@[v] <= holders(self.by_key.entries@, v) + waiting(self.pending@, v) by {
                lemma_waiting_first(before.pending@, v);
                assert(before.count@.contains_key(v));
            }
        }
    }

    /// Every note has been silenced: nothing is played, shown or pressed any more. The ends
    /// to come are dropped where `with_pending` says so.
    pub fn silence(&mut self, with_pending: bool)
        ensures
            final(self).wf(),
            final(self).accounted(),
            final(self).by_key@ == Map::<KeyId, Voice>::empty(),
            final(self).count@ == Map::<Voice, u32>::empty(),
            final(self).pending@ == (if with_pending {
                Seq::<PendingNoteOff>::empty()
            } else {
                old(self).pending@
            }),
            final(self).hud@ == Map::<KeyId, i64>::empty(),
            final(self).pressed0@ == Set::<i64>::empty(),
            final(self).pressed1@ == Set::<i64>::empty(),
            final(self).aftertouch@ == Map::<KeyId, u8>::empty(),
    {
        self.by_key.clear();
        self.count.clear();
        if with_pending {
            self.pending.clear();
        }
        self.hud.clear();
        self.pressed0.clear();
        self.pressed1.clear();
        self.aftertouch.clear();
    }

    /// Whether a pressure is to be sent: it differs from the last one that was. None counts
    /// as 255.
    pub fn pressure_differs(&self, key: KeyId, pressure: u8) -> (r: bool)
        ensures
            r == (pressure != (if self.aftertouch@.contains_key(key) {
                self.aftertouch@[key]
            } else {
                255
            })),
    {
        match self.aftertouch.get(key) {
            Some(p) => *p != pressure,
            None => pressure != 255,
        }
    }

    /// A pressure was sent.
    pub fn pressure_sent(&mut self, key: KeyId, pressure: u8)
        ensures
            final(self).aftertouch@ == old(self).aftertouch@.insert(key, pressure),
            *final(self) == (Notes { aftertouch: final(self).aftertouch, ..*old(self) }),
    {
        self.aftertouch.insert(key, pressure);
    }

    /// The next pressure of a key is to be sent whatever it is.
    pub fn forget_pressure(&mut self, key: KeyId)
        ensures
            final(self).aftertouch@ == old(self).aftertouch@.remove(key),
            *final(self) == (Notes { aftertouch: final(self).aftertouch, ..*old(self) }),
    {
        self.aftertouch.remove(key);
    }
}

proof fn lemma_holders_without(entries: Seq<(KeyId, Voice)>, key: KeyId, v: Voice)
    requires
        table::distinct_keys(entries),
    ensures
        holders(table::without(entries, key), v) == holders(entries, v) - (if table::map_of(
            entries,
        ).contains_key(key) && table::map_of(entries)[key] == v {
            1int
        } else {
            0
        }),
    decreases entries.len(),
{
    table::lemma_entries_are_the_map(entries);
    if entries.len() > 0 {
        let front = entries.drop_last();
        assert(table::distinct_keys(front)) by {
            assert forall|a: int, b: int| 0 <= a < b < front.len() implies (#[trigger] front[a]).0
                != (#[trigger] front[b]).0 by {
                assert(entries[a].0 != entries[b].0);
            }
        }
        lemma_holders_without(front, key, v);
        table::lemma_entries_are_the_map(front);
        let w = table::without(front, key);
        let last = entries[entries.len() - 1];
        if last.0 == key {
            assert(!table::map_of(front).contains_key(key)) by {
                if table::map_of(front).contains_key(key) {
                    let i = choose|i: int| 0 <= i < front.len() && (#[trigger] front[i]).0 == key;
                    assert(entries[i].0 == key);
                }
            }
            assert(table::map_of(entries).contains_key(key));
            assert(table::map_of(entries)[key] == last.1);
        } else {
            assert(w.push(last).drop_last() =~= w);
            assert(table::map_of(entries).contains_key(key) == table::map_of(front).contains_key(key))
                by {
                if table::map_of(entries).contains_key(key) {
                    let i = choose|i: int|
                        0 <= i < entries.len() && (#[trigger] entries[i]).0 == key;
                    assert(front[i].0 == key);
                    assert(table::map_of(front)[front[i].0] == front[i].1);
                }
                if table::map_of(front).contains_key(key) {
                    let i = choose|i: int| 0 <= i < front.len() && (#[trigger] front[i]).0 == key;
                    assert(entries[i].0 == key);
                }
            }
            if table::map_of(front).contains_key(key) {
                let i = choose|i: int| 0 <= i < front.len() && (#[trigger] front[i]).0 == key;
                assert(entries[i] == front[i]);
                assert(table::map_of(entries)[entries[i].0] == entries[i].1);
                assert(table::map_of(front)[front[i].0] == front[i].1);
            }
        }
    }
}

proof fn lemma_waiting_first(pending: Seq<PendingNoteOff>, v: Voice)
    requires
        pending.len() > 0,
    ensures
        waiting(pending, v) == waiting(pending.drop_first(), v) + (if pending[0].voice == v {
            1nat
        } else {
            0
        }),
    decreases pending.len(),
{
    if pending.len() == 1 {
        assert(pending.drop_last() =~= Seq::empty());
        assert(pending.drop_first() =~= Seq::empty());
    } else {
        lemma_waiting_first(pending.drop_last(), v);
        assert(pending.drop_last().drop_first() =~= pending.drop_first().drop_last());
        assert(pending.drop_first().last() == pending.last());
    }
}

proof fn lemma_no_holders(entries: Seq<(KeyId, Voice)>, v: Voice)
    requires
        forall|i: int| 0 <= i < entries.len() ==> (#[trigger] entries[i]).1 != v,
    ensures
        holders(entries, v) == 0,
    decreases entries.len(),
{
    if entries.len() > 0 {
        let front = entries.drop_last();
        assert forall|i: int| 0 <= i < front.len() implies (#[trigger] front[i]).1 != v by {
            assert(front[i] == entries[i]);
        }
        lemma_no_holders(front, v);
        assert(entries[entries.len() - 1].1 != v);
    }
}

proof fn lemma_none_waiting(pending: Seq<PendingNoteOff>, v: Voice)
    requires
        forall|i: int| 0 <= i < pending.len() ==> (#[trigger] pending[i]).voice != v,
    ensures
        waiting(pending, v) == 0,
    decreases pending.len(),
{
    if pending.len() > 0 {
        let front = pending.drop_last();
        assert forall|i: int| 0 <= i < front.len() implies (#[trigger] front[i]).voice != v by {
            assert(front[i] == pending[i]);
        }
        lemma_none_waiting(front, v);
        assert(pending[pending.len() - 1].voice != v);
    }
}

/// No note is stuck: where every note is accounted for, one that no key plays and whose end
/// is not to come does not sound.
pub proof fn no_note_is_stuck(n: Notes, v: Voice)
    requires
        n.wf(),
        n.accounted(),
        forall|k: KeyId| #[trigger] n.by_key@.contains_key(k) ==> n.by_key@[k] != v,
        forall|i: int| 0 <= i < n.pending@.len() ==> (#[trigger] n.pending@[i]).voice != v,
    ensures
        !n.count@.contains_key(v),
{
    let entries = n.by_key.entries@;
    table::lemma_entries_are_the_map(entries);
    assert forall|i: int| 0 <= i < entries.len() implies (#[trigger] entries[i]).1 != v by {
        assert(n.by_key@.contains_key(entries[i].0));
    }
    lemma_no_holders(entries, v);
    lemma_none_waiting(n.pending@, v);
}

/// A note that several keys play goes on until the last of them is let go: playing it once
/// more and ending it once leaves the count as it was.
pub proof fn ending_undoes_beginning(count: Map<Voice, u32>, v: Voice)
    requires
        count.contains_key(v) ==> 1 <= count[v] < u32::MAX,
    ensures
        lowered(raised(count, v), v) == count,
{
    assert(lowered(raised(count, v), v) =~= count);
}

/// A note is counted once more when it begins, from one on, and once less when it ends: one
/// that is played once is gone. No other note's count changes.
pub proof fn notes_are_counted_one_by_one(count: Map<Voice, u32>, v: Voice, w: Voice)
    requires
        count.contains_key(v) ==> count[v] < u32::MAX,
    ensures
        raised(count, v).contains_key(v),
        count.contains_key(v) ==> raised(count, v)[v] == count[v] + 1,
        !count.contains_key(v) ==> raised(count, v)[v] == 1,
        count.contains_key(v) && count[v] > 1 ==> lowered(count, v).contains_key(v) && lowered(
            count,
            v,
        )[v] == count[v] - 1,
        !(count.contains_key(v) && count[v] > 1) ==> !lowered(count, v).contains_key(v),
        w != v ==> {
            &&& raised(count, v).contains_key(w) <==> count.contains_key(w)
            &&& lowered(count, v).contains_key(w) <==> count.contains_key(w)
            &&& count.contains_key(w) ==> raised(count, v)[w] == count[w] && lowered(count, v)[w]
                == count[w]
        },
{
}

/// A tap sounds for 20 ms, and a ping softly for 60 ms.
pub proof fn taps_and_pings_are_short()
    ensures
        TAP_NOTE_OFF_NS == 20 * 1_000_000,
        PING_NS == 60 * 1_000_000,
        PING_VELOCITY == 24,
{
}

} // verus!
