//! The chord guide: it waits for a key that gives the root of a chord, and then lights the
//! chord's notes.
use vstd::prelude::*;
use vstd::std_specs::hash::DefaultHasherAdditionalSpecFns;
use std::collections::hash_map::DefaultHasher;
use std::hash::Hasher;
use crate::byte_order::ByteOrder;
use crate::pitch;
use crate::pitch::GuideMode;
use crate::table::KeySet;

verus! {

/// What the guide's file asks for.
#[derive(Debug, Clone)]
pub struct GuideCfg {
    pub enabled: bool,
    pub layout_id: Option<String>,
    pub chord_key: Option<String>,
    /// The notes of the chord, in steps from its root.
    pub pcs_root: Option<Vec<i32>>,
    /// How bright the other notes are, in thousandths.
    pub dim_milli: i32,
}

/// The bytes that stand for a text that may be missing: its UTF-8 form and an end mark.
pub open spec fn text_writes(s: Option<String>) -> Seq<Seq<u8>> {
    match s {
        Some(s) => seq![vstd::utf8::encode_utf8(s@), seq![0xffu8]],
        None => Seq::empty(),
    }
}

/// What a guide's signature is made of.
pub open spec fn signature_writes(order: ByteOrder, cfg: Option<GuideCfg>) -> Seq<Seq<u8>> {
    match cfg {
        None => Seq::empty(),
        Some(g) => seq![
            seq![
                if g.enabled {
                    1u8
                } else {
                    0u8
                },
            ],
        ] + text_writes(g.layout_id) + text_writes(g.chord_key) + (match g.pcs_root {
            Some(p) => p@.map_values(|x: i32| order.signed(x as int)),
            None => Seq::empty(),
        }) + seq![order.signed(g.dim_milli as int)],
    }
}

/// The signature of what a guide's file asks for, on a machine that keeps the bytes of a
/// number in the given order.
pub open spec fn signature(order: ByteOrder, cfg: Option<GuideCfg>) -> u64 {
    DefaultHasher::spec_finish(signature_writes(order, cfg))
}

fn write_text(h: &mut DefaultHasher, s: &Option<String>)
    ensures
        final(h)@ == old(h)@ + text_writes(*s),
{
    match s {
        Some(s) => {
            h.write(s.as_str().as_bytes());
            let end: [u8; 1] = [0xff];
            assert(end@ =~= seq![0xffu8]);
            h.write(end.as_slice());
            assert(h@ =~= old(h)@ + text_writes(Some(*s)));
        },
        None => {
            assert(h@ =~= old(h)@ + text_writes(*s));
        },
    }
}

fn write_number(order: ByteOrder, h: &mut DefaultHasher, x: i32)
    ensures
        final(h)@ == old(h)@.push(order.signed(x as int)),
{
    let b: Vec<u8> = order.signed_bytes(x as i64);
    h.write(b.as_slice());
}

/// The signature of what a guide's file asks for; a change of it is told by this.
pub fn guide_signature(order: ByteOrder, cfg: &Option<GuideCfg>) -> (r: u64)
    ensures
        r == signature(order, *cfg),
{
    let mut h: DefaultHasher = DefaultHasher::new();
    match cfg {
        None => {},
        Some(g) => {
            let flag: [u8; 1] = [
                if g.enabled {
                    1
                } else {
                    0
                },
            ];
            assert(flag@ =~= seq![
                if g.enabled {
                    1u8
                } else {
                    0u8
                },
            ]);
            h.write(flag.as_slice());
            write_text(&mut h, &g.layout_id);
            write_text(&mut h, &g.chord_key);
            let ghost head = h@;
            match &g.pcs_root {
                Some(p) => {
                    let ghost all = p@.map_values(|x: i32| order.signed(x as int));
                    for i in 0..p.len()
                        invariant
                            all == p@.map_values(|x: i32| order.signed(x as int)),
                            h@ =~= head + all.take(i as int),
                    {
                        write_number(order, &mut h, p[i]);
                    }
                    assert(all.take(p@.len() as int) =~= all);
                },
                None => {
                    assert(h@ =~= head + Seq::<Seq<u8>>::empty());
                },
            }
            write_number(order, &mut h, g.dim_milli);
            assert(h@ =~= signature_writes(order, *cfg));
        },
    }
    h.finish()
}

/// The chord guide.
#[derive(Debug, Clone)]
pub struct Guide {
    pub mode: GuideMode,
    pub layout_id: Option<String>,
    pub chord_key: Option<String>,
    pub pcs_root: Vec<i32>,
    /// The places of the octave that are lit.
    pub pcs_abs: KeySet<i64>,
    pub root_pc: Option<i64>,
    pub last_sig: u64,
}

/// What a reading of the guide's file comes to.
#[derive(Debug, Clone, Copy, PartialEq, Eq, Structural)]
pub enum GuideStep {
    /// The file asks for what it asked before.
    Same,
    /// The guide waits for a root.
    Enabled,
    /// The file turns the guide off.
    Disabled,
    /// The file is gone, and the guide with it.
    Removed,
    /// The file is gone, and the guide was off.
    StillOff,
}

impl Guide {
    /// Only a guide that is on has a chord, and only an active one a root within the octave
    /// that it was chosen in.
    pub open spec fn wf(self) -> bool {
        &&& self.mode == GuideMode::Off ==> self.layout_id is None && self.chord_key is None
            && self.pcs_root@.len() == 0
        &&& self.root_pc is Some <==> self.mode == GuideMode::Active
        &&& self.root_pc matches Some(r) ==> -0x1_0000_0000 <= r <= 0x1_0000_0000
    }

    /// Whether nothing is asked of the guide.
    pub open spec fn is_off(self) -> bool {
        &&& self.mode == GuideMode::Off
        &&& self.layout_id is None
        &&& self.chord_key is None
        &&& self.pcs_root@.len() == 0
        &&& self.root_pc is None
    }

    pub fn new() -> (r: Self)
        ensures
            r.wf(),
            r.is_off(),
            r.pcs_abs@ == Set::<i64>::empty(),
            r.last_sig == 0,
    {
        Guide {
            mode: GuideMode::Off,
            layout_id: None,
            chord_key: None,
            pcs_root: Vec::new(),
            pcs_abs: KeySet::new(),
            root_pc: None,
            last_sig: 0,
        }
    }

    /// Turns the guide off. The places that were lit are kept. Says whether it was on.
    pub fn leave(&mut self) -> (r: bool)
        ensures
            r == (old(self).mode != GuideMode::Off),
            final(self).wf(),
            final(self).is_off(),
            final(self).pcs_abs == old(self).pcs_abs,
            final(self).last_sig == old(self).last_sig,
    {
        let was: bool = self.mode != GuideMode::Off;
        self.mode = GuideMode::Off;
        self.layout_id = None;
        self.chord_key = None;
        self.pcs_root = Vec::new();
        self.root_pc = None;
        was
    }

    /// Takes in what the guide's file asks for, `None` where there is no such file.
    pub fn read(&mut self, order: ByteOrder, cfg: Option<GuideCfg>) -> (r: GuideStep)
        requires
            old(self).wf(),
        ensures
            final(self).wf(),
            r == (if signature(order, cfg) == old(self).last_sig {
                GuideStep::Same
            } else {
                match cfg {
                    Some(g) => if g.enabled {
                        GuideStep::Enabled
                    } else {
                        GuideStep::Disabled
                    },
                    None => if old(self).mode != GuideMode::Off {
                        GuideStep::Removed
                    } else {
                        GuideStep::StillOff
                    },
                }
            }),
            r is Same ==> *final(self) == *old(self),
            !(r is Same) ==> final(self).last_sig == signature(order, cfg),
            r is StillOff ==> *final(self) == (Guide {
                last_sig: final(self).last_sig,
                ..*old(self)
            }),
            r is Disabled || r is Removed ==> final(self).is_off() && final(self).pcs_abs@
                == Set::<i64>::empty(),
            r is Enabled ==> {
                &&& final(self).mode == GuideMode::WaitRoot
                &&& final(self).layout_id == cfg->Some_0.layout_id
                &&& final(self).chord_key == cfg->Some_0.chord_key
                &&& final(self).pcs_root@ == (match cfg->Some_0.pcs_root {
                    Some(p) => p@,
                    None => Seq::empty(),
                })
                &&& final(self).pcs_abs@ == Set::<i64>::empty()
                &&& final(self).root_pc is None
            },
    {
        let sig: u64 = guide_signature(order, &cfg);
        if sig == self.last_sig {
            return GuideStep::Same;
        }
        self.last_sig = sig;
        match cfg {
            Some(g) => {
                if g.enabled {
                    self.mode = GuideMode::WaitRoot;
                    self.layout_id = g.layout_id;
                    self.chord_key = g.chord_key;
                    self.pcs_root = match g.pcs_root {
                        Some(p) => p,
                        None => Vec::new(),
                    };
                    assert(g.pcs_root is None ==> self.pcs_root@ =~= Seq::empty());
                    self.pcs_abs.clear();
                    self.root_pc = None;
                    GuideStep::Enabled
                } else {
                    let _ = self.leave();
                    self.pcs_abs.clear();
                    GuideStep::Disabled
                }
            },
            None => {
                if self.mode != GuideMode::Off {
                    let _ = self.leave();
                    self.pcs_abs.clear();
                    GuideStep::Removed
                } else {
                    GuideStep::StillOff
                }
            },
        }
    }

    /// Takes in a press of a key that plays `note`: a guide that waits for a root takes it
    /// from there. Says whether it did.
    pub fn choose_root(&mut self, note: u8, pitch_offset: i32, edo: i32) -> (r: bool)
        requires
            old(self).wf(),
            old(self).mode == GuideMode::WaitRoot ==> edo != 0,
        ensures
            final(self).wf(),
            r == (old(self).mode == GuideMode::WaitRoot),
            !r ==> *final(self) == *old(self),
            r ==> {
                let root = pitch::pitch_class(note + pitch_offset, edo as int);
                &&& final(self).mode == GuideMode::Active
                &&& final(self).root_pc == Some(root as i64)
                &&& final(self).pcs_abs@ == pitch::chord_classes(
                    old(self).pcs_root@,
                    root,
                    edo as int,
                )
                &&& final(self).layout_id == old(self).layout_id
                &&& final(self).chord_key == old(self).chord_key
                &&& final(self).pcs_root == old(self).pcs_root
                &&& final(self).last_sig == old(self).last_sig
            },
    {
        if self.mode != GuideMode::WaitRoot {
            return false;
        }
        let pc: i64 = pitch::pitch_class_of((note as i64) + (pitch_offset as i64), edo);
        self.root_pc = Some(pc);
        self.mode = GuideMode::Active;
        self.pcs_abs = pitch::chord_classes_of(&self.pcs_root, pc, edo);
        true
    }
}

/// A chord that has its root among its notes lights the key that was chosen as root, in its
/// own colour.
pub proof fn chosen_root_is_lit(
    pcs_root: Seq<i32>,
    base: (u8, u8, u8),
    note: u8,
    pitch_offset: i32,
    edo: i32,
    dims: Seq<u8>,
)
    requires
        edo > 0,
        pcs_root.contains(0),
    ensures
        pitch::idle_rgb(
            base,
            note,
            edo,
            pitch_offset,
            GuideMode::Active,
            pitch::chord_classes(
                pcs_root,
                pitch::pitch_class(note + pitch_offset, edo as int),
                edo as int,
            ),
            dims,
        ) == base,
{
    let root = pitch::pitch_class(note + pitch_offset, edo as int);
    vstd::arithmetic::div_mod::lemma_mod_bound(note + pitch_offset, edo as int);
    vstd::arithmetic::div_mod::lemma_small_mod(root as nat, edo as nat);
    let classes = pcs_root.map_values(|pc: i32| pitch::pitch_class(pc + root, edo as int) as i64);
    let i = choose|i: int| 0 <= i < pcs_root.len() && pcs_root[i] == 0;
    assert(classes[i] == root as i64);
    assert(classes.to_set().contains(root as i64));
}

/// While the guide waits for a root no key keeps its own colour: all are dimmed.
pub proof fn waiting_guide_dims_all(
    base: (u8, u8, u8),
    note: u8,
    edo: i32,
    pitch_offset: i32,
    pcs_abs: Set<i64>,
    dims: Seq<u8>,
)
    ensures
        pitch::idle_rgb(base, note, edo, pitch_offset, GuideMode::WaitRoot, pcs_abs, dims)
            == pitch::dimmed(base, dims),
{
}

/// The notes of a chord, none where there is no list.
pub open spec fn chord_notes(g: GuideCfg) -> Seq<i32> {
    match g.pcs_root {
        Some(p) => p@,
        None => Seq::empty(),
    }
}

/// The bytes of a head, of notes and of a number, one behind the other.
spec fn told(order: ByteOrder, head: Seq<Seq<u8>>, notes: Seq<i32>, dim: i32) -> Seq<Seq<u8>> {
    head + notes.map_values(|x: i32| order.signed(x as int)) + seq![order.signed(dim as int)]
}

proof fn lemma_told(
    order: ByteOrder,
    ha: Seq<Seq<u8>>,
    ca: Seq<i32>,
    da: i32,
    hb: Seq<Seq<u8>>,
    cb: Seq<i32>,
    db: i32,
)
    requires
        ha.len() == hb.len(),
        told(order, ha, ca, da) == told(order, hb, cb, db),
    ensures
        ha == hb,
        ca == cb,
        da == db,
{
    let wa = told(order, ha, ca, da);
    let wb = told(order, hb, cb, db);
    let n = ha.len() as int;
    assert(wa.len() == n + ca.len() + 1);
    assert(wb.len() == n + cb.len() + 1);
    assert(ha =~= wa.take(n));
    assert(hb =~= wb.take(n));
    assert forall|i: int| 0 <= i < ca.len() implies ca[i] == cb[i] by {
        assert(wa[n + i] == order.signed(ca[i] as int));
        assert(wb[n + i] == order.signed(cb[i] as int));
        crate::byte_order::signed_bytes_tell_the_number(order, ca[i], cb[i]);
    }
    assert(ca =~= cb);
    assert(wa[n + ca.len()] == order.signed(da as int));
    assert(wb[n + ca.len()] == order.signed(db as int));
    crate::byte_order::signed_bytes_tell_the_number(order, da, db);
}

spec fn head_of(g: GuideCfg) -> Seq<Seq<u8>> {
    seq![
        seq![
            if g.enabled {
                1u8
            } else {
                0u8
            },
        ],
    ] + text_writes(g.layout_id) + text_writes(g.chord_key)
}

proof fn lemma_signature(order: ByteOrder, g: GuideCfg)
    ensures
        signature_writes(order, Some(g)) == told(order, head_of(g), chord_notes(g), g.dim_milli),
{
    let notes = chord_notes(g).map_values(|x: i32| order.signed(x as int));
    if g.pcs_root is None {
        assert(notes =~= Seq::empty());
    }
    assert(signature_writes(order, Some(g)) =~= told(
        order,
        head_of(g),
        chord_notes(g),
        g.dim_milli,
    ));
}

proof fn lemma_heads(a: GuideCfg, b: GuideCfg)
    requires
        head_of(a) == head_of(b),
        a.layout_id is Some <==> b.layout_id is Some,
        a.chord_key is Some <==> b.chord_key is Some,
    ensures
        a.enabled == b.enabled,
        a.layout_id is Some ==> a.layout_id->0@ == b.layout_id->0@,
        a.chord_key is Some ==> a.chord_key->0@ == b.chord_key->0@,
{
    let (ha, hb) = (head_of(a), head_of(b));
    assert(ha[0][0] == hb[0][0]);
    if a.layout_id is Some {
        assert(ha[1] == vstd::utf8::encode_utf8(a.layout_id->0@));
        assert(hb[1] == vstd::utf8::encode_utf8(b.layout_id->0@));
        vstd::utf8::encode_utf8_decode_utf8(a.layout_id->0@);
        vstd::utf8::encode_utf8_decode_utf8(b.layout_id->0@);
    }
    if a.chord_key is Some {
        let k = 1 + text_writes(a.layout_id).len() as int;
        assert(ha[k] == vstd::utf8::encode_utf8(a.chord_key->0@));
        assert(hb[k] == vstd::utf8::encode_utf8(b.chord_key->0@));
        vstd::utf8::encode_utf8_decode_utf8(a.chord_key->0@);
        vstd::utf8::encode_utf8_decode_utf8(b.chord_key->0@);
    }
}

/// What a guide's signature is made of tells every part of what its file asks for: whether
/// it is on, the layout, the chord, its notes and how bright the others are.
pub proof fn signatures_tell_every_part(order: ByteOrder, a: GuideCfg, b: GuideCfg)
    requires
        signature_writes(order, Some(a)) == signature_writes(order, Some(b)),
        a.layout_id is Some <==> b.layout_id is Some,
        a.chord_key is Some <==> b.chord_key is Some,
    ensures
        a.enabled == b.enabled,
        a.layout_id is Some ==> a.layout_id->0@ == b.layout_id->0@,
        a.chord_key is Some ==> a.chord_key->0@ == b.chord_key->0@,
        chord_notes(a) == chord_notes(b),
        a.dim_milli == b.dim_milli,
        signature_writes(order, None) != signature_writes(order, Some(a)),
        signature(order, Some(a)) == DefaultHasher::spec_finish(signature_writes(order, Some(a))),
        signature(order, None) == DefaultHasher::spec_finish(signature_writes(order, None)),
{
    lemma_signature(order, a);
    lemma_signature(order, b);
    assert(head_of(a).len() == head_of(b).len());
    lemma_told(
        order,
        head_of(a),
        chord_notes(a),
        a.dim_milli,
        head_of(b),
        chord_notes(b),
        b.dim_milli,
    );
    lemma_heads(a, b);
    assert(signature_writes(order, None).len() == 0);
    assert(told(order, head_of(a), chord_notes(a), a.dim_milli).len() > 0);
}

/// The guide lights a key exactly if its place in the octave is that of one of the chord's
/// notes above the key that was chosen as root, whatever the layout's offset.
pub proof fn chord_is_lit_from_the_chosen_root(
    pcs_root: Seq<i32>,
    base: (u8, u8, u8),
    root: u8,
    note: u8,
    pitch_offset: i32,
    edo: i32,
    dims: Seq<u8>,
)
    requires
        edo > 0,
    ensures
        ({
            let lit = pitch::chord_classes(
                pcs_root,
                pitch::pitch_class(root + pitch_offset, edo as int),
                edo as int,
            );
            let rgb = pitch::idle_rgb(
                base,
                note,
                edo,
                pitch_offset,
                GuideMode::Active,
                lit,
                dims,
            );
            let in_chord = exists|i: int|
                0 <= i < pcs_root.len() && (note - root - #[trigger] pcs_root[i]) % (edo as int)
                    == 0;
            &&& in_chord ==> rgb == base
            &&& !in_chord ==> rgb == (dims[base.0 as int], dims[base.1 as int], dims[base.2 as int])
        }),
{
    let place = (root + pitch_offset) % (edo as int);
    let own = (note + pitch_offset) % (edo as int);
    let e = edo as int;
    vstd::arithmetic::div_mod::lemma_mod_bound(root + pitch_offset, e);
    vstd::arithmetic::div_mod::lemma_mod_bound(note + pitch_offset, e);
    pitch::chords_light_their_notes(pcs_root, place, edo, own as i64);
    assert forall|i: int| 0 <= i < pcs_root.len() implies (own == (#[trigger] pcs_root[i] + place)
        % e <==> (note - root - pcs_root[i]) % e == 0) by {
        lemma_same_place(note + pitch_offset, root + pitch_offset, pcs_root[i] as int, e);
        assert((note + pitch_offset) - (root + pitch_offset) - pcs_root[i] == note - root
            - pcs_root[i]);
    }
}

proof fn lemma_same_place(x: int, root: int, step: int, e: int)
    requires
        e > 0,
    ensures
        x % e == (step + root % e) % e <==> (x - root - step) % e == 0,
{
    vstd::arithmetic::div_mod::lemma_add_mod_noop(step, root, e);
    vstd::arithmetic::div_mod::lemma_mod_twice(root, e);
    vstd::arithmetic::div_mod::lemma_add_mod_noop(step, root % e, e);
    assert((step + root % e) % e == (step + root) % e);
    let y = step + root;
    vstd::arithmetic::div_mod::lemma_fundamental_div_mod(x, e);
    vstd::arithmetic::div_mod::lemma_fundamental_div_mod(y, e);
    vstd::arithmetic::div_mod::lemma_mod_bound(x, e);
    vstd::arithmetic::div_mod::lemma_mod_bound(y, e);
    let q = x / e - y / e;
    let r = x % e - y % e;
    assert(x - y == e * q + r) by (nonlinear_arith)
        requires
            x == e * (x / e) + x % e,
            y == e * (y / e) + y % e,
            q == x / e - y / e,
            r == x % e - y % e,
    ;
    vstd::arithmetic::div_mod::lemma_mod_multiples_vanish(q, r, e);
    assert(e * q + r == q * e + r) by (nonlinear_arith);
    assert((x - y) % e == r % e);
    if r == 0 {
        vstd::arithmetic::div_mod::lemma_small_mod(0, e as nat);
    } else if r > 0 {
        vstd::arithmetic::div_mod::lemma_small_mod(r as nat, e as nat);
    } else {
        vstd::arithmetic::div_mod::lemma_mod_multiples_vanish(1, r, e);
        vstd::arithmetic::div_mod::lemma_small_mod((r + e) as nat, e as nat);
    }
}

/// A guide that is off asks for no layout and no chord, and has no root.
pub proof fn a_guide_that_is_off_asks_for_nothing(g: Guide)
    requires
        g.is_off(),
    ensures
        g.mode == GuideMode::Off,
        g.layout_id is None,
        g.chord_key is None,
        g.pcs_root@.len() == 0,
        g.root_pc is None,
{
}

} // verus!
