//! From what the system tells of its keyboards to the lights that each of them has.
use vstd::prelude::*;
use vstd::slice::slice_subrange;
use vstd::std_specs::hash::DefaultHasherAdditionalSpecFns;
use std::collections::hash_map::DefaultHasher;
use std::hash::Hasher;
use crate::board::Board;
use crate::byte_order::ByteOrder;
use crate::config;
use crate::config::RgbConfig;
use crate::natural;
use crate::table;
use crate::table::{KeySet, Table};
use crate::text;

verus! {

/// A keyboard as the system tells of it.
#[derive(Debug, Clone)]
pub struct HidDevice {
    pub serial: String,
    pub vid: u16,
    pub pid: u16,
    pub phys: String,
}

/// A keyboard as a value: serial number, vendor, product and where it is plugged in.
pub type DeviceView = (Seq<char>, u16, u16, Seq<char>);

impl View for HidDevice {
    type V = DeviceView;

    open spec fn view(&self) -> DeviceView {
        (self.serial@, self.vid, self.pid, self.phys@)
    }
}

/// The number by which the keyboard SDK knows a keyboard, on a machine that keeps the bytes
/// of a number in the given order.
pub open spec fn device_id_of(
    machine: ByteOrder,
    serial: Seq<char>,
    vendor_id: u16,
    product_id: u16,
) -> u64 {
    DefaultHasher::spec_finish(
        seq![
            machine.two(vendor_id),
            machine.two(product_id),
            vstd::utf8::encode_utf8(serial),
        ],
    )
}

/// The number by which the keyboard SDK knows a keyboard.
pub fn analog_device_id_from_serial(
    machine: ByteOrder,
    serial: &str,
    vendor_id: u16,
    product_id: u16,
) -> (r: u64)
    ensures
        r == device_id_of(machine, serial@, vendor_id, product_id),
{
    let mut h: DefaultHasher = DefaultHasher::new();
    let v: Vec<u8> = machine.two_bytes(vendor_id);
    h.write(v.as_slice());
    let p: Vec<u8> = machine.two_bytes(product_id);
    h.write(p.as_slice());
    h.write(serial.as_bytes());
    assert(h@ =~= seq![
        machine.two(vendor_id),
        machine.two(product_id),
        vstd::utf8::encode_utf8(serial@),
    ]);
    h.finish()
}

/// Whether `t` stands in `s` at `i`.
pub open spec fn stands_at(s: Seq<char>, t: Seq<char>, i: int) -> bool {
    0 <= i <= s.len() - t.len() && s.subrange(i, i + t.len()) == t
}

/// Whether an entry of the system's list of devices is a keyboard's, by its name.
pub fn is_keyboard_entry(name: &str) -> (r: bool)
    ensures
        r == exists|i: int| stands_at(name@, ":31E3:"@, i),
{
    let cs: Vec<char> = text::chars_of(name);
    let mark: Vec<char> = text::chars_of(":31E3:");
    let m: usize = mark.len();
    proof {
        reveal_strlit(":31E3:");
    }
    let total: usize = cs.len();
    if total < m {
        return false;
    }
    let n: usize = total - m;
    let mut i: usize = 0;
    while i <= n
        invariant
            cs@ == name@,
            mark@ == ":31E3:"@,
            m == mark@.len(),
            n + m == total,
            total == cs@.len(),
            m == 6,
            i <= n + 1,
            forall|j: int| 0 <= j < i ==> !#[trigger] stands_at(name@, ":31E3:"@, j),
        decreases n + 1 - i,
    {
        let piece: &[char] = slice_subrange(cs.as_slice(), i, i + m);
        if text::same_chars(piece, mark.as_slice()) {
            assert(stands_at(name@, ":31E3:"@, i as int));
            return true;
        }
        i += 1;
    }
    false
}

/// What has been read of a keyboard so far.
pub struct Facts {
    pub serial: Option<Seq<char>>,
    pub vid: Option<u16>,
    pub pid: Option<u16>,
    pub phys: Option<Seq<char>>,
    /// Whether a number was cut within a character.
    pub cut: bool,
}

/// The four bytes at the end of a part of an id.
pub enum Tail {
    /// The part has fewer.
    Short,
    /// They begin within a character.
    Cut,
    /// They are these characters.
    Chars(Seq<char>),
}

/// The last four bytes of `s`.
pub open spec fn tail4(s: Seq<char>) -> Tail {
    if text::utf8_len(s) < 4 {
        Tail::Short
    } else {
        match text::tail_chars(s, 4) {
            Some(k) => Tail::Chars(s.skip(s.len() - k)),
            None => Tail::Cut,
        }
    }
}

/// The number that four hexadecimal digits write.
pub open spec fn hex16(s: Seq<char>) -> Option<u16> {
    match text::parse_unsigned(s, 16, u16::MAX as nat) {
        Some(v) => Some(v as u16),
        None => None,
    }
}

/// The number at the end of a part of an id, `before` where it has none.
pub open spec fn id_part(part: Seq<char>, before: Option<u16>) -> Option<u16> {
    match tail4(part) {
        Tail::Chars(t) => hex16(t),
        _ => before,
    }
}

/// A value that is not blank, `before` where it is.
pub open spec fn unless_blank(v: Seq<char>, before: Option<Seq<char>>) -> Option<Seq<char>> {
    if text::trim(v).len() > 0 {
        Some(text::trim(v))
    } else {
        before
    }
}

/// What is known after one more line.
pub open spec fn facts_after(f: Facts, line: Seq<char>) -> Facts {
    match text::strip_prefix(line, "HID_UNIQ="@) {
        Some(v) => Facts { serial: unless_blank(v, f.serial), ..f },
        None => match text::strip_prefix(line, "HID_ID="@) {
            Some(v) => {
                let parts = text::split_on(text::trim(v), ':');
                if parts.len() == 3 {
                    Facts {
                        vid: id_part(parts[1], f.vid),
                        pid: id_part(parts[2], f.pid),
                        cut: f.cut || tail4(parts[1]) is Cut || tail4(parts[2]) is Cut,
                        ..f
                    }
                } else {
                    f
                }
            },
            None => match text::strip_prefix(line, "HID_PHYS="@) {
                Some(v) => Facts { phys: unless_blank(v, f.phys), ..f },
                None => f,
            },
        },
    }
}

/// What is known after the lines.
pub open spec fn facts(ls: Seq<Seq<char>>) -> Facts
    decreases ls.len(),
{
    if ls.len() == 0 {
        Facts { serial: None, vid: None, pid: None, phys: None, cut: false }
    } else {
        facts_after(facts(ls.drop_last()), ls.last())
    }
}

/// Whether no number in the text is cut within a character.
pub open spec fn uevent_on_boundaries(s: Seq<char>) -> bool {
    !facts(text::lines(s)).cut
}

/// The keyboard that the text tells of, where it tells all of it.
pub open spec fn uevent(s: Seq<char>) -> Option<DeviceView> {
    let f = facts(text::lines(s));
    match (f.serial, f.vid, f.pid, f.phys) {
        (Some(a), Some(v), Some(p), Some(b)) => Some((a, v, p, b)),
        _ => None,
    }
}

/// What a text tells of a keyboard.
#[derive(Debug, Clone)]
pub enum UeventReading {
    /// A number is cut within a character.
    Cut,
    /// It does not tell all.
    Partial,
    Device(HidDevice),
}

struct FactsSoFar {
    serial: Option<String>,
    vid: Option<u16>,
    pid: Option<u16>,
    phys: Option<String>,
    cut: bool,
}

spec fn tells(x: FactsSoFar, f: Facts) -> bool {
    &&& (x.serial is Some) == (f.serial is Some)
    &&& x.serial matches Some(s) ==> f.serial == Some(s@)
    &&& x.vid == f.vid
    &&& x.pid == f.pid
    &&& (x.phys is Some) == (f.phys is Some)
    &&& x.phys matches Some(s) ==> f.phys == Some(s@)
    &&& x.cut == f.cut
}

fn read_id_part(part: &[char], before: Option<u16>) -> (r: (Option<u16>, bool))
    ensures
        r.0 == id_part(part@, before),
        r.1 == (tail4(part@) is Cut),
{
    if text::utf8_len_up_to(part, 4) < 4 {
        return (before, false);
    }
    match text::tail_char_count(part, 4) {
        Some(k) => {
            let t: &[char] = slice_subrange(part, part.len() - k, part.len());
            assert(t@ =~= part@.skip(part@.len() - k));
            let v: Option<u16> = match text::unsigned_of(t, 16, 0xffff) {
                Some(v) => Some(v as u16),
                None => None,
            };
            (v, false)
        },
        None => (before, true),
    }
}

fn take_line(x: FactsSoFar, line: &[char], f: Ghost<Facts>) -> (r: FactsSoFar)
    requires
        tells(x, f@),
    ensures
        tells(r, facts_after(f@, line@)),
{
    let mut x = x;
    match text::after_prefix(line, "HID_UNIQ=") {
        Some(v) => {
            let t: &[char] = text::trimmed(v);
            if t.len() > 0 {
                x.serial = Some(text::string_of(t));
            }
            return x;
        },
        None => {},
    }
    match text::after_prefix(line, "HID_ID=") {
        Some(v) => {
            let parts: Vec<&[char]> = text::split_pieces(text::trimmed(v), ':');
            let ghost want = text::split_on(text::trim(v@), ':');
            assert(text::views(parts@).len() == parts@.len());
            if parts.len() == 3 {
                assert(want[1] == parts@[1]@);
                assert(want[2] == parts@[2]@);
                let (vid, cut1) = read_id_part(parts[1], x.vid);
                let (pid, cut2) = read_id_part(parts[2], x.pid);
                x.vid = vid;
                x.pid = pid;
                x.cut = x.cut || cut1 || cut2;
            }
            return x;
        },
        None => {},
    }
    match text::after_prefix(line, "HID_PHYS=") {
        Some(v) => {
            let t: &[char] = text::trimmed(v);
            if t.len() > 0 {
                x.phys = Some(text::string_of(t));
            }
        },
        None => {},
    }
    x
}

/// What a text tells of a keyboard.
pub fn read_uevent(file: &str) -> (r: UeventReading)
    ensures
        match r {
            UeventReading::Cut => !uevent_on_boundaries(file@),
            UeventReading::Partial => uevent_on_boundaries(file@) && uevent(file@) is None,
            UeventReading::Device(d) => uevent_on_boundaries(file@) && uevent(file@) == Some(d@),
        },
{
    let cs: Vec<char> = text::chars_of(file);
    let ls: Vec<&[char]> = text::split_lines(cs.as_slice());
    let ghost all = text::views(ls@);
    let mut x = FactsSoFar { serial: None, vid: None, pid: None, phys: None, cut: false };
    assert(all.take(0) =~= Seq::empty());
    for i in 0..ls.len()
        invariant
            all == text::views(ls@),
            tells(x, facts(all.take(i as int))),
    {
        assert(all.take(i + 1).drop_last() =~= all.take(i as int));
        assert(all.take(i + 1).last() == ls@[i as int]@);
        x = take_line(x, ls[i], Ghost(facts(all.take(i as int))));
    }
    assert(all.take(ls@.len() as int) =~= all);
    if x.cut {
        return UeventReading::Cut;
    }
    match (x.serial, x.vid, x.pid, x.phys) {
        (Some(serial), Some(vid), Some(pid), Some(phys)) => UeventReading::Device(
            HidDevice { serial, vid, pid, phys },
        ),
        _ => UeventReading::Partial,
    }
}

/// Whether no number in the text is cut within a character.
pub fn uevent_is_on_boundaries(file: &str) -> (r: bool)
    ensures
        r == uevent_on_boundaries(file@),
{
    match read_uevent(file) {
        UeventReading::Cut => false,
        _ => true,
    }
}

/// The keyboard that the text tells of, where it tells all of it.
pub fn parse_uevent(file: &str) -> (r: Option<HidDevice>)
    requires
        uevent_on_boundaries(file@),
    ensures
        match uevent(file@) {
            Some(d) => r is Some && r->0@ == d,
            None => r is None,
        },
{
    match read_uevent(file) {
        UeventReading::Device(d) => Some(d),
        _ => None,
    }
}

/// The keyboards as values.
pub open spec fn device_views(v: Seq<HidDevice>) -> Seq<DeviceView> {
    v.map_values(|d: HidDevice| d@)
}

/// The place of the first keyboard with a serial number.
pub open spec fn serial_at(v: Seq<DeviceView>, serial: Seq<char>) -> Option<int>
    decreases v.len(),
{
    if v.len() == 0 {
        None
    } else {
        match serial_at(v.drop_last(), serial) {
            Some(i) => Some(i),
            None => if v.last().0 == serial {
                Some(v.len() - 1)
            } else {
                None
            },
        }
    }
}

/// The keyboards, each serial number once: of two entries with one, the first in the order
/// of where they are plugged in.
pub open spec fn distinct_serials(v: Seq<DeviceView>) -> Seq<DeviceView>
    decreases v.len(),
{
    if v.len() == 0 {
        Seq::empty()
    } else {
        let before = distinct_serials(v.drop_last());
        let d = v.last();
        match serial_at(before, d.0) {
            None => before.push(d),
            Some(i) => if natural::not_after(before[i].3, d.3) {
                before
            } else {
                before.update(i, d)
            },
        }
    }
}

/// The keyboards by number and where they are plugged in, those that are configured.
pub open spec fn known_devices(
    machine: ByteOrder,
    v: Seq<DeviceView>,
    configured: Set<u64>,
) -> Seq<(Seq<char>, u64)>
    decreases v.len(),
{
    if v.len() == 0 {
        Seq::empty()
    } else {
        let before = known_devices(machine, v.drop_last(), configured);
        let id = device_id_of(machine, v.last().0, v.last().1, v.last().2);
        if configured.contains(id) {
            before.push((v.last().3, id))
        } else {
            before
        }
    }
}

/// How many of `v`, from its end, are plugged in after `phys`.
pub open spec fn later_ones(v: Seq<(Seq<char>, u64)>, phys: Seq<char>) -> int
    decreases v.len(),
{
    if v.len() == 0 || natural::not_after(v.last().0, phys) {
        0
    } else {
        1 + later_ones(v.drop_last(), phys)
    }
}

/// `v` in the order of where the keyboards are plugged in; those plugged in at one place
/// stay in order.
pub open spec fn by_phys(v: Seq<(Seq<char>, u64)>) -> Seq<(Seq<char>, u64)>
    decreases v.len(),
{
    if v.len() == 0 {
        Seq::empty()
    } else {
        let before = by_phys(v.drop_last());
        before.insert(before.len() - later_ones(before, v.last().0), v.last())
    }
}

/// The light device of each keyboard: the keyboards get the numbers from 0 up, in the order
/// of where they are plugged in, as far as there are light devices.
pub open spec fn numbered(v: Seq<(Seq<char>, u64)>, rgb_count: u8, n: int) -> Map<u64, u8>
    decreases n,
{
    if n <= 0 {
        Map::empty()
    } else if n - 1 < rgb_count {
        numbered(v, rgb_count, n - 1).insert(v[n - 1].1, (n - 1) as u8)
    } else {
        numbered(v, rgb_count, n - 1)
    }
}

/// The light device of each keyboard.
pub open spec fn light_numbers(
    machine: ByteOrder,
    v: Seq<DeviceView>,
    configured: Set<u64>,
    rgb_count: u8,
) -> Map<u64, u8> {
    let order = by_phys(known_devices(machine, distinct_serials(v), configured));
    numbered(order, rgb_count, order.len() as int)
}

proof fn lemma_later_ones(v: Seq<(Seq<char>, u64)>, phys: Seq<char>)
    ensures
        0 <= later_ones(v, phys) <= v.len(),
        forall|j: int|
            v.len() - later_ones(v, phys) <= j < v.len() ==> !natural::not_after(
                (#[trigger] v[j]).0,
                phys,
            ),
        later_ones(v, phys) < v.len() ==> natural::not_after(
            v[v.len() - 1 - later_ones(v, phys)].0,
            phys,
        ),
    decreases v.len(),
{
    if v.len() > 0 && !natural::not_after(v.last().0, phys) {
        let front = v.drop_last();
        lemma_later_ones(front, phys);
        assert forall|j: int| v.len() - later_ones(v, phys) <= j < v.len() implies
            !natural::not_after((#[trigger] v[j]).0, phys) by {
            if j < front.len() {
                assert(front[j] == v[j]);
            }
        }
    }
}

fn find_serial(v: &Vec<HidDevice>, serial: &str) -> (r: Option<usize>)
    ensures
        match serial_at(device_views(v@), serial@) {
            Some(i) => (r matches Some(k) && k == i) && 0 <= i < v@.len(),
            None => r is None,
        },
{
    let ghost all = device_views(v@);
    let n: usize = v.len();
    let sc: Vec<char> = text::chars_of(serial);
    let mut i: usize = 0;
    assert(all.take(0) =~= Seq::empty());
    while i < n
        invariant
            n == v@.len(),
            i <= n,
            all == device_views(v@),
            sc@ == serial@,
            serial_at(all.take(i as int), serial@) is None,
        decreases n - i,
    {
        assert(all.take(i + 1).drop_last() =~= all.take(i as int));
        assert(all.take(i + 1).last() == v@[i as int]@);
        if text::same_text(sc.as_slice(), v[i].serial.as_str()) {
            proof {
                lemma_serial_found(all, serial@, i + 1, n as int);
                assert(all.take(n as int) =~= all);
            }
            return Some(i);
        }
        i += 1;
    }
    assert(all.take(n as int) =~= all);
    None
}

proof fn lemma_serial_found(v: Seq<DeviceView>, serial: Seq<char>, k: int, n: int)
    requires
        0 <= k <= n <= v.len(),
        serial_at(v.take(k), serial) is Some,
    ensures
        serial_at(v.take(n), serial) == serial_at(v.take(k), serial),
    decreases n,
{
    if k < n {
        lemma_serial_found(v, serial, k, n - 1);
        assert(v.take(n).drop_last() =~= v.take(n - 1));
    }
}

fn copy_device(d: &HidDevice) -> (r: HidDevice)
    ensures
        r@ == d@,
{
    HidDevice {
        serial: text::text_of(d.serial.as_str()),
        vid: d.vid,
        pid: d.pid,
        phys: text::text_of(d.phys.as_str()),
    }
}

fn keep_distinct(v: &Vec<HidDevice>) -> (r: Vec<HidDevice>)
    ensures
        device_views(r@) == distinct_serials(device_views(v@)),
{
    let ghost all = device_views(v@);
    let mut out: Vec<HidDevice> = Vec::new();
    assert(all.take(0) =~= Seq::empty());
    assert(device_views(out@) =~= Seq::empty());
    for i in 0..v.len()
        invariant
            all == device_views(v@),
            device_views(out@) == distinct_serials(all.take(i as int)),
    {
        assert(all.take(i + 1).drop_last() =~= all.take(i as int));
        assert(all.take(i + 1).last() == v@[i as int]@);
        let ghost before = device_views(out@);
        let d = copy_device(&v[i]);
        let ghost dv = d@;
        match find_serial(&out, d.serial.as_str()) {
            None => {
                out.push(d);
                assert(device_views(out@) =~= before.push(dv));
            },
            Some(k) => {
                assert(before[k as int] == out@[k as int]@);
                if !natural::is_not_after(out[k].phys.as_str(), d.phys.as_str()) {
                    out.set(k, d);
                    assert(device_views(out@) =~= before.update(k as int, dv));
                }
            },
        }
    }
    assert(all.take(v@.len() as int) =~= all);
    out
}

/// Places and numbers as values.
pub open spec fn place_views(v: Seq<(String, u64)>) -> Seq<(Seq<char>, u64)> {
    v.map_values(|e: (String, u64)| (e.0@, e.1))
}

fn keep_known(machine: ByteOrder, v: &Vec<HidDevice>, configured: &KeySet<u64>) -> (r: Vec<
    (String, u64),
>)
    ensures
        place_views(r@) == known_devices(machine, device_views(v@), configured@),
{
    let ghost all = device_views(v@);
    let mut out: Vec<(String, u64)> = Vec::new();
    assert(all.take(0) =~= Seq::empty());
    assert(place_views(out@) =~= Seq::empty());
    for i in 0..v.len()
        invariant
            all == device_views(v@),
            place_views(out@) == known_devices(machine, all.take(i as int), configured@),
    {
        assert(all.take(i + 1).drop_last() =~= all.take(i as int));
        assert(all.take(i + 1).last() == v@[i as int]@);
        let ghost before = place_views(out@);
        let id: u64 = analog_device_id_from_serial(
            machine,
            v[i].serial.as_str(),
            v[i].vid,
            v[i].pid,
        );
        if configured.contains(id) {
            let phys = text::text_of(v[i].phys.as_str());
            let ghost p = phys@;
            out.push((phys, id));
            assert(place_views(out@) =~= before.push((p, id)));
        }
    }
    assert(all.take(v@.len() as int) =~= all);
    out
}

fn sort_by_phys(v: Vec<(String, u64)>) -> (r: Vec<(String, u64)>)
    ensures
        place_views(r@) == by_phys(place_views(v@)),
{
    let ghost all = place_views(v@);
    let n: usize = v.len();
    let mut rest = v;
    let mut out: Vec<(String, u64)> = Vec::new();
    assert(all.take(0) =~= Seq::empty());
    assert(place_views(out@) =~= Seq::empty());
    assert(rest@ =~= v@.skip(0));
    let mut i: usize = 0;
    while i < n
        invariant
            n == v@.len(),
            i <= n,
            all == place_views(v@),
            rest@ == v@.skip(i as int),
            place_views(out@) == by_phys(all.take(i as int)),
        decreases n - i,
    {
        assert(all.take(i + 1).drop_last() =~= all.take(i as int));
        let e = rest.remove(0);
        assert(e == v@[i as int]);
        assert(rest@ =~= v@.skip(i + 1));
        assert(all.take(i + 1).last() == (e.0@, e.1));
        let ghost before = place_views(out@);
        let ghost phys = e.0@;
        let mut p: usize = out.len();
        assert(before.take(p as int) =~= before);
        while p > 0 && !natural::is_not_after(out[p - 1].0.as_str(), e.0.as_str())
            invariant
                p <= out@.len(),
                before == place_views(out@),
                phys == e.0@,
                later_ones(before, phys) == (out@.len() - p) + later_ones(
                    before.take(p as int),
                    phys,
                ),
            decreases p,
        {
            assert(before.take(p as int).drop_last() =~= before.take(p - 1));
            assert(before.take(p as int).last() == (out@[p - 1].0@, out@[p - 1].1));
            p -= 1;
        }
        proof {
            if p > 0 {
                assert(before.take(p as int).last() == (out@[p - 1].0@, out@[p - 1].1));
            }
            assert(later_ones(before.take(p as int), phys) == 0);
        }
        let ghost ev = (e.0@, e.1);
        out.insert(p, e);
        assert(place_views(out@) =~= before.insert(p as int, ev));
        i += 1;
    }
    assert(all.take(n as int) =~= all);
    out
}

/// The light device of each configured keyboard among those that the system tells of.
pub fn compute_rgb_index_by_device_id(
    machine: ByteOrder,
    devices: &Vec<HidDevice>,
    configured: &KeySet<u64>,
    rgb_count: u8,
) -> (r: Table<u64, u8>)
    ensures
        r@ == light_numbers(machine, device_views(devices@), configured@, rgb_count),
        table::distinct_keys(r.entries@),
{
    let distinct: Vec<HidDevice> = keep_distinct(devices);
    let known: Vec<(String, u64)> = keep_known(machine, &distinct, configured);
    let order: Vec<(String, u64)> = sort_by_phys(known);
    let mut out: Table<u64, u8> = Table::new();
    let ghost v = place_views(order@);
    for i in 0..order.len()
        invariant
            v == place_views(order@),
            out@ == numbered(v, rgb_count, i as int),
            table::distinct_keys(out.entries@),
    {
        if i < rgb_count as usize {
            assert(v[i as int].1 == order@[i as int].1);
            out.insert(order[i].1, i as u8);
        }
    }
    out
}

/// Which light device each board has by the configuration, for the first `n` boards.
pub open spec fn configured_lights(boards: Seq<(u64, Board)>, rgb: RgbConfig, n: int) -> Map<u64, u8>
    decreases n,
{
    if n <= 0 {
        Map::empty()
    } else {
        configured_lights(boards, rgb, n - 1).insert(
            boards[n - 1].0,
            match config::first_value(
                rgb.device_index_by_wtn_board@,
                text::decimal(boards[n - 1].1.wtn_board as nat),
            ) {
                Some(i) => i,
                None => boards[n - 1].1.wtn_board,
            },
        )
    }
}

/// The light device of each keyboard: as the system tells of them, and where it tells of
/// none, as the configuration has it. None where the lights are off.
pub fn rebuild_rgb_index_map(
    machine: ByteOrder,
    enabled: bool,
    devices: &Vec<HidDevice>,
    configured: &KeySet<u64>,
    rgb_count: u8,
    boards: &Table<u64, Board>,
    rgb: &RgbConfig,
) -> (r: Table<u64, u8>)
    ensures
        r@ == (if !enabled {
            Map::empty()
        } else if light_numbers(machine, device_views(devices@), configured@, rgb_count)
            == Map::<u64, u8>::empty() {
            configured_lights(boards.entries@, *rgb, boards.entries@.len() as int)
        } else {
            light_numbers(machine, device_views(devices@), configured@, rgb_count)
        }),
        table::distinct_keys(r.entries@),
{
    if !enabled {
        return Table::new();
    }
    let found: Table<u64, u8> = compute_rgb_index_by_device_id(
        machine,
        devices,
        configured,
        rgb_count,
    );
    if found.entries.len() > 0 {
        proof {
            table::lemma_entries_are_the_map(found.entries@);
            assert(found@.contains_key(found.entries@[0].0));
        }
        return found;
    }
    assert(found@ =~= Map::<u64, u8>::empty());
    let mut out: Table<u64, u8> = Table::new();
    for i in 0..boards.entries.len()
        invariant
            out@ == configured_lights(boards.entries@, *rgb, i as int),
            table::distinct_keys(out.entries@),
    {
        let b: Board = boards.entries[i].1;
        out.insert(boards.entries[i].0, rgb.rgb_device_index_for_wtn_board(b.wtn_board));
    }
    out
}

/// The keyboards are in the order of where they are plugged in, and none is lost or made up.
pub proof fn order_is_by_phys(v: Seq<(Seq<char>, u64)>)
    ensures
        by_phys(v).to_multiset() == v.to_multiset(),
        forall|i: int, j: int|
            0 <= i < j < by_phys(v).len() ==> natural::not_after(
                (#[trigger] by_phys(v)[i]).0,
                (#[trigger] by_phys(v)[j]).0,
            ),
    decreases v.len(),
{
    if v.len() == 0 {
        assert(v =~= Seq::empty());
        assert(by_phys(v) =~= v);
    } else {
        let front = v.drop_last();
        let before = by_phys(front);
        let x = v.last();
        let p = before.len() - later_ones(before, x.0);
        let out = by_phys(v);
        order_is_by_phys(front);
        lemma_later_ones(before, x.0);
        assert(v =~= front.push(x));
        front.to_multiset_ensures();
        vstd::seq_lib::to_multiset_insert(before, p, x);
        assert forall|i: int, j: int| 0 <= i < j < out.len() implies natural::not_after(
            (#[trigger] out[i]).0,
            (#[trigger] out[j]).0,
        ) by {
            let a = if i < p { i } else { i - 1 };
            let b = if j < p { j } else { j - 1 };
            if i != p && j != p {
                assert(out[i] == before[a] && out[j] == before[b]);
            } else if i == p {
                assert(out[j] == before[b]);
                natural::texts_are_in_line(x.0, before[b].0, x.0);
            } else {
                assert(out[i] == before[a]);
                if a < p - 1 {
                    assert(natural::not_after(before[a].0, before[p - 1].0));
                }
                natural::texts_are_in_line(before[a].0, before[p - 1].0, x.0);
            }
        }
    }
}

/// No two keyboards get one light device, and each number is one that there is.
pub proof fn lights_are_not_shared(v: Seq<(Seq<char>, u64)>, rgb_count: u8, n: int, a: u64, b: u64)
    requires
        0 <= n <= v.len(),
        numbered(v, rgb_count, n).contains_key(a),
        numbered(v, rgb_count, n).contains_key(b),
        numbered(v, rgb_count, n)[a] == numbered(v, rgb_count, n)[b],
    ensures
        a == b,
        numbered(v, rgb_count, n)[a] < rgb_count,
        numbered(v, rgb_count, n)[a] < n,
    decreases n,
{
    lemma_numbers(v, rgb_count, n, a);
    lemma_numbers(v, rgb_count, n, b);
}

proof fn lemma_numbers(v: Seq<(Seq<char>, u64)>, rgb_count: u8, n: int, a: u64)
    requires
        0 <= n <= v.len(),
        numbered(v, rgb_count, n).contains_key(a),
    ensures
        numbered(v, rgb_count, n)[a] < rgb_count,
        numbered(v, rgb_count, n)[a] < n,
        v[numbered(v, rgb_count, n)[a] as int].1 == a,
    decreases n,
{
    if n > 0 {
        if n - 1 < rgb_count {
            if v[n - 1].1 != a {
                lemma_numbers(v, rgb_count, n - 1, a);
            }
        } else {
            lemma_numbers(v, rgb_count, n - 1, a);
        }
    }
}

/// Whether no two keyboards share a serial number or a place.
pub open spec fn all_different(v: Seq<DeviceView>) -> bool {
    forall|i: int, j: int|
        0 <= i < j < v.len() ==> (#[trigger] v[i]).0 != (#[trigger] v[j]).0 && v[i].3 != v[j].3
}

proof fn lemma_serial_at(v: Seq<DeviceView>, serial: Seq<char>)
    ensures
        serial_at(v, serial) matches Some(i) ==> 0 <= i < v.len() && v[i].0 == serial,
        serial_at(v, serial) is None ==> forall|i: int|
            0 <= i < v.len() ==> (#[trigger] v[i]).0 != serial,
    decreases v.len(),
{
    if v.len() > 0 {
        let front = v.drop_last();
        lemma_serial_at(front, serial);
        assert forall|i: int| 0 <= i < v.len() && serial_at(v, serial) is None implies (
        #[trigger] v[i]).0 != serial by {
            if i < front.len() {
                assert(front[i] == v[i]);
            }
        }
    }
}

/// Whether one of `out` has the serial number of `d`, and is not plugged in after it.
spec fn stands_for(out: Seq<DeviceView>, d: DeviceView) -> bool {
    exists|i: int|
        0 <= i < out.len() && (#[trigger] out[i]).0 == d.0 && natural::not_after(out[i].3, d.3)
}

proof fn lemma_serials_once(v: Seq<DeviceView>)
    ensures
        forall|i: int, j: int|
            0 <= i < j < distinct_serials(v).len() ==> (#[trigger] distinct_serials(v)[i]).0 != (
            #[trigger] distinct_serials(v)[j]).0,
    decreases v.len(),
{
    if v.len() > 0 {
        let front = v.drop_last();
        let before = distinct_serials(front);
        let d = v.last();
        let out = distinct_serials(v);
        lemma_serials_once(front);
        lemma_serial_at(before, d.0);
        assert forall|i: int, j: int| 0 <= i < j < out.len() implies (#[trigger] out[i]).0 != (
        #[trigger] out[j]).0 by {
            if j < before.len() {
                assert(before[i].0 != before[j].0);
                assert(out[i].0 == before[i].0 && out[j].0 == before[j].0);
            } else {
                assert(before[i].0 != d.0);
            }
        }
    }
}

proof fn lemma_kept_are_listed(v: Seq<DeviceView>, d: DeviceView)
    ensures
        distinct_serials(v).contains(d) ==> v.contains(d),
    decreases v.len(),
{
    if v.len() > 0 {
        let front = v.drop_last();
        let before = distinct_serials(front);
        let out = distinct_serials(v);
        lemma_kept_are_listed(front, d);
        lemma_serial_at(before, v.last().0);
        if out.contains(d) {
            let i = choose|i: int| 0 <= i < out.len() && out[i] == d;
            if d == v.last() {
                assert(v[v.len() - 1] == d);
            } else {
                assert(before[i] == d);
                assert(before.contains(d));
                let k = choose|k: int| 0 <= k < front.len() && front[k] == d;
                assert(v[k] == d);
            }
        }
    }
}

proof fn lemma_stands_for(v: Seq<DeviceView>, k: int)
    requires
        0 <= k < v.len(),
    ensures
        stands_for(distinct_serials(v), v[k]),
    decreases v.len(),
{
    let front = v.drop_last();
    let before = distinct_serials(front);
    let d = v.last();
    let out = distinct_serials(v);
    lemma_serial_at(before, d.0);
    natural::texts_are_in_line(d.3, d.3, d.3);
    if k < front.len() {
        lemma_stands_for(front, k);
        assert(front[k] == v[k]);
        let i = choose|i: int|
            0 <= i < before.len() && (#[trigger] before[i]).0 == v[k].0 && natural::not_after(
                before[i].3,
                v[k].3,
            );
        if out[i] != before[i] {
            natural::texts_are_in_line(d.3, before[i].3, v[k].3);
        }
        assert(out[i].0 == v[k].0 && natural::not_after(out[i].3, v[k].3));
    } else {
        match serial_at(before, d.0) {
            None => {
                assert(out[before.len() as int] == d);
            },
            Some(i) => {
                assert(out[i].0 == d.0 && natural::not_after(out[i].3, d.3));
            },
        }
    }
}

/// Of the entries that share a serial number one is kept, and it is the first of them in the
/// order of where they are plugged in; no entry is made up.
pub proof fn each_serial_keeps_its_first_place(v: Seq<DeviceView>)
    ensures
        forall|i: int, j: int|
            0 <= i < j < distinct_serials(v).len() ==> (#[trigger] distinct_serials(v)[i]).0 != (
            #[trigger] distinct_serials(v)[j]).0,
        forall|i: int|
            0 <= i < distinct_serials(v).len() ==> v.contains(#[trigger] distinct_serials(v)[i]),
        forall|k: int|
            0 <= k < v.len() ==> exists|i: int|
                0 <= i < distinct_serials(v).len() && (#[trigger] distinct_serials(v)[i]).0 == (
                #[trigger] v[k]).0 && natural::not_after(distinct_serials(v)[i].3, v[k].3),
{
    lemma_kept_once_each(v);
    assert forall|i: int| 0 <= i < distinct_serials(v).len() implies v.contains(
        #[trigger] distinct_serials(v)[i],
    ) by {
        assert(distinct_serials(v).contains(distinct_serials(v)[i]));
    }
    assert forall|k: int| 0 <= k < v.len() implies exists|i: int|
        0 <= i < distinct_serials(v).len() && (#[trigger] distinct_serials(v)[i]).0 == (
        #[trigger] v[k]).0 && natural::not_after(distinct_serials(v)[i].3, v[k].3) by {
        assert(stands_for(distinct_serials(v), v[k]));
    }
}

proof fn lemma_kept_once_each(v: Seq<DeviceView>)
    ensures
        forall|i: int, j: int|
            0 <= i < j < distinct_serials(v).len() ==> (#[trigger] distinct_serials(v)[i]).0 != (
            #[trigger] distinct_serials(v)[j]).0,
        forall|d: DeviceView| #[trigger] distinct_serials(v).contains(d) ==> v.contains(d),
        forall|k: int| 0 <= k < v.len() ==> stands_for(distinct_serials(v), #[trigger] v[k]),
{
    lemma_serials_once(v);
    assert forall|d: DeviceView| #[trigger] distinct_serials(v).contains(d) implies v.contains(d) by {
        lemma_kept_are_listed(v, d);
    }
    assert forall|k: int| 0 <= k < v.len() implies stands_for(
        distinct_serials(v),
        #[trigger] v[k],
    ) by {
        lemma_stands_for(v, k);
    }
}

/// Whether entries for one place are the same entry.
pub open spec fn places_differ(v: Seq<DeviceView>) -> bool {
    forall|i: int, j: int|
        0 <= i < v.len() && 0 <= j < v.len() && (#[trigger] v[i]).3 == (#[trigger] v[j]).3 ==> v[i]
            == v[j]
}

/// Whether `d` is listed, and no entry with its serial number is plugged in before it.
spec fn is_first(v: Seq<DeviceView>, d: DeviceView) -> bool {
    v.contains(d) && forall|k: int|
        0 <= k < v.len() && (#[trigger] v[k]).0 == d.0 ==> natural::not_after(d.3, v[k].3)
}

proof fn lemma_kept(v: Seq<DeviceView>)
    requires
        places_differ(v),
    ensures
        all_different(distinct_serials(v)),
        forall|d: DeviceView| #[trigger] distinct_serials(v).contains(d) <==> is_first(v, d),
{
    let out = distinct_serials(v);
    lemma_kept_once_each(v);
    assert forall|i: int, j: int| 0 <= i < j < out.len() implies (#[trigger] out[i]).0 != (
    #[trigger] out[j]).0 && out[i].3 != out[j].3 by {
        assert(out.contains(out[i]) && out.contains(out[j]));
        assert(v.contains(out[i]) && v.contains(out[j]));
        let p = choose|p: int| 0 <= p < v.len() && v[p] == out[i];
        let q = choose|q: int| 0 <= q < v.len() && v[q] == out[j];
        assert(v[p].3 == v[q].3 ==> v[p] == v[q]);
    }
    assert forall|d: DeviceView| #[trigger] out.contains(d) <==> is_first(v, d) by {
        if out.contains(d) {
            let i = choose|i: int| 0 <= i < out.len() && out[i] == d;
            assert(v.contains(d));
            assert forall|k: int| 0 <= k < v.len() && (#[trigger] v[k]).0 == d.0 implies
                natural::not_after(d.3, v[k].3) by {
                assert(stands_for(out, v[k]));
                let j = choose|j: int|
                    0 <= j < out.len() && (#[trigger] out[j]).0 == v[k].0 && natural::not_after(
                        out[j].3,
                        v[k].3,
                    );
                if i < j {
                    assert(out[i].0 != out[j].0);
                } else if j < i {
                    assert(out[j].0 != out[i].0);
                }
            }
        }
        if is_first(v, d) {
            let k = choose|k: int| 0 <= k < v.len() && v[k] == d;
            assert(v[k].0 == d.0);
            assert(stands_for(out, v[k]));
            let i = choose|i: int|
                0 <= i < out.len() && (#[trigger] out[i]).0 == v[k].0 && natural::not_after(
                    out[i].3,
                    v[k].3,
                );
            assert(out.contains(out[i]));
            assert(v.contains(out[i]));
            let p = choose|p: int| 0 <= p < v.len() && v[p] == out[i];
            assert(v[p].0 == d.0);
            natural::texts_are_in_line(d.3, out[i].3, d.3);
            assert(v[p].3 == v[k].3);
            assert(out[i] == d);
        }
    }
}

spec fn known_as(machine: ByteOrder, d: DeviceView) -> (Seq<char>, u64) {
    (d.3, device_id_of(machine, d.0, d.1, d.2))
}

proof fn lemma_known(machine: ByteOrder, v: Seq<DeviceView>, configured: Set<u64>, e: (Seq<char>, u64))
    ensures
        known_devices(machine, v, configured).contains(e) <==> configured.contains(e.1) && exists|i: int|
            0 <= i < v.len() && known_as(machine, #[trigger] v[i]) == e,
    decreases v.len(),
{
    let k = known_devices(machine, v, configured);
    if v.len() > 0 {
        let front = v.drop_last();
        let before = known_devices(machine, front, configured);
        lemma_known(machine, front, configured, e);
        if before.contains(e) {
            let j = choose|j: int| 0 <= j < before.len() && before[j] == e;
            assert(k[j] == e);
            let i = choose|i: int| 0 <= i < front.len() && known_as(machine, #[trigger] front[i]) == e;
            assert(known_as(machine, v[i]) == e);
        }
        if k.contains(e) && !before.contains(e) {
            let j = choose|j: int| 0 <= j < k.len() && k[j] == e;
            if j < before.len() {
                assert(before[j] == e);
            }
            assert(known_as(machine, v[v.len() - 1]) == e);
        }
        if configured.contains(e.1) && exists|i: int|
            0 <= i < v.len() && known_as(machine, #[trigger] v[i]) == e {
            let i = choose|i: int| 0 <= i < v.len() && known_as(machine, #[trigger] v[i]) == e;
            if i < front.len() {
                assert(known_as(machine, front[i]) == e);
            } else {
                assert(k[before.len() as int] == e);
            }
        }
    }
}

proof fn lemma_known_distinct(machine: ByteOrder, v: Seq<DeviceView>, configured: Set<u64>)
    requires
        all_different(v),
    ensures
        known_devices(machine, v, configured).no_duplicates(),
    decreases v.len(),
{
    if v.len() > 0 {
        let front = v.drop_last();
        assert(all_different(front)) by {
            assert forall|i: int, j: int| 0 <= i < j < front.len() implies (#[trigger] front[i]).0
                != (#[trigger] front[j]).0 && front[i].3 != front[j].3 by {
                assert(v[i].0 != v[j].0 && v[i].3 != v[j].3);
            }
        }
        lemma_known_distinct(machine, front, configured);
        let before = known_devices(machine, front, configured);
        let e = known_as(machine, v.last());
        if before.contains(e) {
            lemma_known(machine, front, configured, e);
            let i = choose|i: int| 0 <= i < front.len() && known_as(machine, #[trigger] front[i]) == e;
            assert(v[i].3 != v[v.len() - 1].3);
        }
    }
}

/// Whether the keyboards are in the order of where they are plugged in, each at a place of
/// its own.
spec fn strictly_by_phys(a: Seq<(Seq<char>, u64)>) -> bool {
    forall|i: int, j: int|
        0 <= i < j < a.len() ==> natural::not_after((#[trigger] a[i]).0, (#[trigger] a[j]).0)
            && a[i].0 != a[j].0
}

proof fn lemma_order_is_unique(a: Seq<(Seq<char>, u64)>, b: Seq<(Seq<char>, u64)>)
    requires
        strictly_by_phys(a),
        strictly_by_phys(b),
        forall|e: (Seq<char>, u64)| #[trigger] a.contains(e) <==> b.contains(e),
    ensures
        a == b,
    decreases a.len(),
{
    if a.len() == 0 {
        if b.len() > 0 {
            assert(b.contains(b[0]));
            assert(a.contains(b[0]));
        }
        assert(a =~= b);
    } else {
        let x = a[a.len() - 1];
        assert(a.contains(x));
        assert(b.contains(x));
        let y = b[b.len() - 1];
        assert(b.contains(y));
        assert(a.contains(y));
        let i = choose|i: int| 0 <= i < b.len() && b[i] == x;
        let j = choose|j: int| 0 <= j < a.len() && a[j] == y;
        assert(x == y) by {
            if i < b.len() - 1 && j < a.len() - 1 {
                assert(natural::not_after(b[i].0, b[b.len() - 1].0) && b[i].0 != b[b.len() - 1].0);
                assert(natural::not_after(a[j].0, a[a.len() - 1].0));
                natural::texts_are_in_line(x.0, y.0, x.0);
            }
        }
        let a1 = a.drop_last();
        let b1 = b.drop_last();
        assert forall|p: int, q: int| 0 <= p < q < a1.len() implies natural::not_after(
            (#[trigger] a1[p]).0,
            (#[trigger] a1[q]).0,
        ) && a1[p].0 != a1[q].0 by {
            assert(natural::not_after(a[p].0, a[q].0) && a[p].0 != a[q].0);
        }
        assert forall|p: int, q: int| 0 <= p < q < b1.len() implies natural::not_after(
            (#[trigger] b1[p]).0,
            (#[trigger] b1[q]).0,
        ) && b1[p].0 != b1[q].0 by {
            assert(natural::not_after(b[p].0, b[q].0) && b[p].0 != b[q].0);
        }
        assert forall|e: (Seq<char>, u64)| #[trigger] a1.contains(e) <==> b1.contains(e) by {
            if a1.contains(e) {
                let p = choose|p: int| 0 <= p < a1.len() && a1[p] == e;
                assert(a[p] == e && a[p].0 != a[a.len() - 1].0);
                assert(a.contains(e));
                let q = choose|q: int| 0 <= q < b.len() && b[q] == e;
                assert(b1[q] == e);
            }
            if b1.contains(e) {
                let p = choose|p: int| 0 <= p < b1.len() && b1[p] == e;
                assert(b[p] == e && b[p].0 != b[b.len() - 1].0);
                assert(b.contains(e));
                assert(a.contains(e));
                let q = choose|q: int| 0 <= q < a.len() && a[q] == e;
                assert(a1[q] == e);
            }
        }
        lemma_order_is_unique(a1, b1);
        assert(a =~= a1.push(x));
        assert(b =~= b1.push(y));
    }
}

proof fn lemma_strict(machine: ByteOrder, v: Seq<DeviceView>, configured: Set<u64>)
    requires
        all_different(v),
    ensures
        strictly_by_phys(by_phys(known_devices(machine, v, configured))),
        forall|e: (Seq<char>, u64)| #[trigger]
            by_phys(known_devices(machine, v, configured)).contains(e) <==> known_devices(
                machine,
                v,
                configured,
            ).contains(e),
{
    let k = known_devices(machine, v, configured);
    let o = by_phys(k);
    order_is_by_phys(k);
    lemma_known_distinct(machine, v, configured);
    k.lemma_multiset_has_no_duplicates();
    k.to_multiset_ensures();
    o.to_multiset_ensures();
    assert forall|e: (Seq<char>, u64)| o.to_multiset().contains(e) implies o.to_multiset().count(e)
        == 1 by {}
    o.lemma_multiset_has_no_duplicates_conv();
    assert forall|e: (Seq<char>, u64)| #[trigger] o.contains(e) <==> k.contains(e) by {
        assert(o.contains(e) <==> o.to_multiset().count(e) > 0);
        assert(k.contains(e) <==> k.to_multiset().count(e) > 0);
    }
    assert forall|i: int, j: int| 0 <= i < j < o.len() implies natural::not_after(
        (#[trigger] o[i]).0,
        (#[trigger] o[j]).0,
    ) && o[i].0 != o[j].0 by {
        if o[i].0 == o[j].0 {
            assert(o.contains(o[i]) && o.contains(o[j]));
            lemma_known(machine, v, configured, o[i]);
            lemma_known(machine, v, configured, o[j]);
            let p = choose|p: int| 0 <= p < v.len() && known_as(machine, #[trigger] v[p]) == o[i];
            let q = choose|q: int| 0 <= q < v.len() && known_as(machine, #[trigger] v[q]) == o[j];
            if p < q {
                assert(v[p].3 != v[q].3);
            } else if q < p {
                assert(v[q].3 != v[p].3);
            }
            assert(o[i] == o[j]);
        }
    }
}

/// Which keyboard has which lights does not depend on the order in which the system lists
/// the keyboards, nor on how often it lists one, only on where they are plugged in.
pub proof fn listing_order_does_not_matter(
    machine: ByteOrder,
    v: Seq<DeviceView>,
    w: Seq<DeviceView>,
    configured: Set<u64>,
    rgb_count: u8,
)
    requires
        places_differ(v),
        places_differ(w),
        forall|d: DeviceView| #[trigger] v.contains(d) <==> w.contains(d),
    ensures
        light_numbers(machine, v, configured, rgb_count) == light_numbers(
            machine,
            w,
            configured,
            rgb_count,
        ),
{
    let dv = distinct_serials(v);
    let dw = distinct_serials(w);
    lemma_kept(v);
    lemma_kept(w);
    assert forall|d: DeviceView| #[trigger] dv.contains(d) <==> dw.contains(d) by {
        lemma_first_in_both(v, w, d);
        lemma_first_in_both(w, v, d);
    }
    lemma_strict(machine, dv, configured);
    lemma_strict(machine, dw, configured);
    let a = by_phys(known_devices(machine, dv, configured));
    let b = by_phys(known_devices(machine, dw, configured));
    assert forall|e: (Seq<char>, u64)| #[trigger] a.contains(e) <==> b.contains(e) by {
        lemma_known(machine, dv, configured, e);
        lemma_known(machine, dw, configured, e);
        if a.contains(e) {
            let i = choose|i: int| 0 <= i < dv.len() && known_as(machine, #[trigger] dv[i]) == e;
            assert(dv.contains(dv[i]));
            let j = choose|j: int| 0 <= j < dw.len() && dw[j] == dv[i];
            assert(known_as(machine, dw[j]) == e);
        }
        if b.contains(e) {
            let i = choose|i: int| 0 <= i < dw.len() && known_as(machine, #[trigger] dw[i]) == e;
            assert(dw.contains(dw[i]));
            assert(dv.contains(dw[i]));
            let j = choose|j: int| 0 <= j < dv.len() && dv[j] == dw[i];
            assert(known_as(machine, dv[j]) == e);
        }
    }
    lemma_order_is_unique(a, b);
}

proof fn lemma_first_in_both(v: Seq<DeviceView>, w: Seq<DeviceView>, d: DeviceView)
    requires
        forall|d: DeviceView| #[trigger] v.contains(d) <==> w.contains(d),
    ensures
        is_first(v, d) ==> is_first(w, d),
{
    if is_first(v, d) {
        assert forall|k: int| 0 <= k < w.len() && (#[trigger] w[k]).0 == d.0 implies
            natural::not_after(d.3, w[k].3) by {
            assert(w.contains(w[k]));
            assert(v.contains(w[k]));
            let p = choose|p: int| 0 <= p < v.len() && v[p] == w[k];
            assert(v[p].0 == d.0);
        }
    }
}

/// Each kind of line tells its own part of a keyboard, and leaves the others: the serial
/// number and the place are the text behind the name, space around it aside, unless it is
/// blank; the vendor and the product are in the second and third part of the id. Other
/// lines tell nothing.
pub proof fn lines_tell_their_part(f: Facts, v: Seq<char>, line: Seq<char>)
    ensures
        ({
            let r = facts_after(f, "HID_UNIQ="@ + v);
            let t = text::trim(v);
            &&& r.vid == f.vid && r.pid == f.pid && r.phys == f.phys && r.cut == f.cut
            &&& t.len() > 0 ==> r.serial == Some(t)
            &&& t.len() == 0 ==> r.serial == f.serial
        }),
        ({
            let r = facts_after(f, "HID_PHYS="@ + v);
            let t = text::trim(v);
            &&& r.vid == f.vid && r.pid == f.pid && r.serial == f.serial && r.cut == f.cut
            &&& t.len() > 0 ==> r.phys == Some(t)
            &&& t.len() == 0 ==> r.phys == f.phys
        }),
        ({
            let r = facts_after(f, "HID_ID="@ + v);
            let parts = text::split_on(text::trim(v), ':');
            &&& r.serial == f.serial && r.phys == f.phys
            &&& parts.len() != 3 ==> r == f
            &&& parts.len() == 3 ==> r.vid == id_part(parts[1], f.vid) && r.pid == id_part(
                parts[2],
                f.pid,
            )
        }),
        !text::starts_with(line, "HID_UNIQ="@) && !text::starts_with(line, "HID_ID="@)
            && !text::starts_with(line, "HID_PHYS="@) ==> facts_after(f, line) == f,
{
    reveal_strlit("HID_UNIQ=");
    reveal_strlit("HID_ID=");
    reveal_strlit("HID_PHYS=");
    let (u, i, p) = ("HID_UNIQ="@ + v, "HID_ID="@ + v, "HID_PHYS="@ + v);
    text::what_follows_a_beginning(u, "HID_UNIQ="@, v);
    text::what_follows_a_beginning(i, "HID_ID="@, v);
    text::what_follows_a_beginning(p, "HID_PHYS="@, v);
    assert("HID_UNIQ="@[4] == 'U' && "HID_ID="@[4] == 'I' && "HID_PHYS="@[4] == 'P');
    assert("HID_UNIQ="@.len() == 9 && "HID_ID="@.len() == 7 && "HID_PHYS="@.len() == 9);
    assert(u[4] == 'U' && i[4] == 'I' && p[4] == 'P');
    assert(!text::starts_with(i, "HID_UNIQ="@)) by {
        if text::starts_with(i, "HID_UNIQ="@) {
            assert(i.take(9)[4] == 'I');
        }
    }
    assert(!text::starts_with(p, "HID_UNIQ="@)) by {
        if text::starts_with(p, "HID_UNIQ="@) {
            assert(p.take(9)[4] == 'P');
        }
    }
    assert(!text::starts_with(p, "HID_ID="@)) by {
        if text::starts_with(p, "HID_ID="@) {
            assert(p.take(7)[4] == 'P');
        }
    }
}

/// What is told of a keyboard is what all lines tell, the last of each kind; a keyboard is
/// found where all of it is told.
pub proof fn the_lines_tell_a_keyboard(ls: Seq<Seq<char>>, line: Seq<char>, s: Seq<char>)
    ensures
        facts(ls.push(line)) == facts_after(facts(ls), line),
        facts(Seq::empty()) == (Facts {
            serial: None,
            vid: None,
            pid: None,
            phys: None,
            cut: false,
        }),
        uevent(s) is Some <==> ({
            let f = facts(text::lines(s));
            f.serial is Some && f.vid is Some && f.pid is Some && f.phys is Some
        }),
        uevent(s) matches Some(d) ==> ({
            let f = facts(text::lines(s));
            d.0 == f.serial->0 && d.1 == f.vid->0 && d.2 == f.pid->0 && d.3 == f.phys->0
        }),
{
    assert(ls.push(line).drop_last() =~= ls);
}

/// The number in a part of an id is that of its last four digits, in base sixteen; a part
/// that is shorter leaves what was known.
pub proof fn the_last_four_digits_are_the_number(
    more: Seq<char>,
    a: char,
    b: char,
    c: char,
    d: char,
    before: Option<u16>,
)
    requires
        text::digit_value(a) is Some,
        text::digit_value(b) is Some,
        text::digit_value(c) is Some,
        text::digit_value(d) is Some,
    ensures
        id_part(more + seq![a, b, c, d], before) == Some(
            (4096 * text::digit_value(a)->0 + 256 * text::digit_value(b)->0 + 16
                * text::digit_value(c)->0 + text::digit_value(d)->0) as u16,
        ),
        id_part(seq![b, c, d], before) == before,
{
    let t = seq![a, b, c, d];
    let s = more + t;
    reveal_with_fuel(text::utf8_len, 5);
    assert(t.drop_last() =~= seq![a, b, c]);
    assert(seq![a, b, c].drop_last() =~= seq![a, b]);
    assert(seq![a, b].drop_last() =~= seq![a]);
    assert(seq![a].drop_last() =~= Seq::<char>::empty());
    assert(text::utf8_len(t) == 4);
    text::lengths_add_up(more, t);
    reveal_with_fuel(text::tail_chars, 5);
    let s1 = s.drop_last();
    let s2 = s1.drop_last();
    let s3 = s2.drop_last();
    assert(s.last() == d && s1.last() == c && s2.last() == b && s3.last() == a);
    assert(text::tail_chars(s, 4) == Some(4nat));
    assert(s.skip(s.len() - 4) =~= t);
    reveal_with_fuel(text::digits_value, 5);
    assert(text::strip_plus(t) == t);
    let v = ((text::digit_value(a)->0 * 16 + text::digit_value(b)->0) * 16
        + text::digit_value(c)->0) * 16 + text::digit_value(d)->0;
    assert(text::digits_value(t, 16) == Some(v));
    let u = seq![b, c, d];
    assert(u.drop_last() =~= seq![b, c]);
    assert(seq![b, c].drop_last() =~= seq![b]);
    assert(seq![b].drop_last() =~= Seq::<char>::empty());
    assert(text::utf8_len(u) == 3);
}

/// Whether no number stands twice in a list.
pub open spec fn ids_differ(v: Seq<(Seq<char>, u64)>) -> bool {
    forall|i: int, j: int|
        0 <= i < j < v.len() ==> (#[trigger] v[i]).1 != (#[trigger] v[j]).1
}

/// The keyboards get the light devices in order: the first the first, and so on, as far as
/// there are any.
pub proof fn lights_are_numbered_in_order(
    v: Seq<(Seq<char>, u64)>,
    rgb_count: u8,
    n: int,
    i: int,
    id: u64,
)
    requires
        ids_differ(v),
        0 <= i < n <= v.len(),
    ensures
        i < rgb_count ==> numbered(v, rgb_count, n).contains_key(v[i].1) && numbered(
            v,
            rgb_count,
            n,
        )[v[i].1] == i,
        i >= rgb_count ==> !numbered(v, rgb_count, n).contains_key(v[i].1),
        (forall|j: int| 0 <= j < n ==> (#[trigger] v[j]).1 != id) ==> !numbered(
            v,
            rgb_count,
            n,
        ).contains_key(id),
    decreases n,
{
    if n > 1 {
        lights_are_numbered_in_order(v, rgb_count, n - 1, if i < n - 1 { i } else { 0 }, id);
    }
    if i < n - 1 {
        assert(v[i].1 != v[n - 1].1);
    } else {
        lemma_not_numbered(v, rgb_count, n - 1, v[i].1);
    }
    lemma_not_numbered(v, rgb_count, n, id);
}

proof fn lemma_not_numbered(v: Seq<(Seq<char>, u64)>, rgb_count: u8, n: int, id: u64)
    requires
        0 <= n <= v.len(),
    ensures
        (forall|j: int| 0 <= j < n ==> (#[trigger] v[j]).1 != id) ==> !numbered(
            v,
            rgb_count,
            n,
        ).contains_key(id),
        n < v.len() && ids_differ(v) ==> !numbered(v, rgb_count, n).contains_key(v[n].1),
    decreases n,
{
    if n > 0 {
        lemma_not_numbered(v, rgb_count, n - 1, id);
        if n < v.len() {
            lemma_not_numbered(v, rgb_count, n - 1, v[n].1);
            if ids_differ(v) {
                assert forall|j: int| 0 <= j < n - 1 implies (#[trigger] v[j]).1 != v[n].1 by {}
                assert(v[n - 1].1 != v[n].1);
            }
        }
    }
}

/// A keyboard takes part exactly if its number is configured, at the place where it is
/// plugged in.
pub proof fn configured_keyboards_take_part(
    machine: ByteOrder,
    v: Seq<DeviceView>,
    configured: Set<u64>,
    phys: Seq<char>,
    id: u64,
)
    ensures
        known_devices(machine, v, configured).contains((phys, id)) <==> configured.contains(id)
            && exists|i: int|
            0 <= i < v.len() && (#[trigger] v[i]).3 == phys && device_id_of(
                machine,
                v[i].0,
                v[i].1,
                v[i].2,
            ) == id,
{
    lemma_known(machine, v, configured, (phys, id));
    if exists|i: int|
        0 <= i < v.len() && (#[trigger] v[i]).3 == phys && device_id_of(
            machine,
            v[i].0,
            v[i].1,
            v[i].2,
        ) == id {
        let i = choose|i: int|
            0 <= i < v.len() && (#[trigger] v[i]).3 == phys && device_id_of(
                machine,
                v[i].0,
                v[i].1,
                v[i].2,
            ) == id;
        assert(known_as(machine, v[i]) == (phys, id));
    }
    if known_devices(machine, v, configured).contains((phys, id)) {
        let i = choose|i: int|
            0 <= i < v.len() && known_as(machine, #[trigger] v[i]) == (phys, id);
        assert(v[i].3 == phys);
    }
}

/// By the configuration, a keyboard has the light device that is set for its board, and else
/// the one with the board's number.
pub proof fn configured_lights_go_by_the_board(
    boards: Seq<(u64, Board)>,
    rgb: RgbConfig,
    n: int,
    i: int,
)
    requires
        0 <= i < n <= boards.len(),
        forall|j: int| i < j < n ==> (#[trigger] boards[j]).0 != boards[i].0,
    ensures
        ({
            let m = configured_lights(boards, rgb, n);
            let b = boards[i].1.wtn_board;
            let set = config::first_value(rgb.device_index_by_wtn_board@, text::decimal(b as nat));
            &&& m.contains_key(boards[i].0)
            &&& set matches Some(d) ==> m[boards[i].0] == d
            &&& set is None ==> m[boards[i].0] == b
        }),
    decreases n,
{
    if i < n - 1 {
        configured_lights_go_by_the_board(boards, rgb, n - 1, i);
        assert(boards[n - 1].0 != boards[i].0);
    }
}

/// What a keyboard's number is made of tells its vendor, its product and its serial number.
pub proof fn numbers_are_made_of_all_parts(
    machine: ByteOrder,
    serial: Seq<char>,
    vendor_id: u16,
    product_id: u16,
    other: Seq<char>,
    vendor: u16,
    product: u16,
)
    requires
        seq![machine.two(vendor_id), machine.two(product_id), vstd::utf8::encode_utf8(serial)]
            == seq![machine.two(vendor), machine.two(product), vstd::utf8::encode_utf8(other)],
    ensures
        serial == other,
        vendor_id == vendor,
        product_id == product,
        device_id_of(machine, serial, vendor_id, product_id) == DefaultHasher::spec_finish(
            seq![machine.two(vendor_id), machine.two(product_id), vstd::utf8::encode_utf8(serial)],
        ),
{
    let a = seq![machine.two(vendor_id), machine.two(product_id), vstd::utf8::encode_utf8(serial)];
    let b = seq![machine.two(vendor), machine.two(product), vstd::utf8::encode_utf8(other)];
    assert(a[0] == b[0] && a[1] == b[1] && a[2] == b[2]);
    vstd::utf8::encode_utf8_decode_utf8(serial);
    vstd::utf8::encode_utf8_decode_utf8(other);
    crate::byte_order::two_bytes_tell_the_number(machine, vendor_id, vendor);
    crate::byte_order::two_bytes_tell_the_number(machine, product_id, product);
}

/// A number is cut exactly where its part is four bytes long or longer and the last four
/// begin within a character; what is cut once stays so.
pub proof fn cut_numbers_are_told(f: Facts, v: Seq<char>)
    ensures
        ({
            let r = facts_after(f, "HID_ID="@ + v);
            let parts = text::split_on(text::trim(v), ':');
            let cut = |s: Seq<char>| text::utf8_len(s) >= 4 && text::tail_chars(s, 4) is None;
            parts.len() == 3 ==> (r.cut <==> f.cut || cut(parts[1]) || cut(parts[2]))
        }),
{
    lines_tell_their_part(f, v, v);
    reveal_strlit("HID_UNIQ=");
    reveal_strlit("HID_ID=");
    let i = "HID_ID="@ + v;
    text::what_follows_a_beginning(i, "HID_ID="@, v);
    assert(!text::starts_with(i, "HID_UNIQ="@)) by {
        if text::starts_with(i, "HID_UNIQ="@) {
            assert(i.take(9)[4] == 'I');
            assert("HID_UNIQ="@[4] == 'U');
        }
    }
}

} // verus!
