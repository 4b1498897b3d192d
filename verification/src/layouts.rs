//! The list of layouts, which of them is played, and the preview that takes its place.
use vstd::prelude::*;
use crate::config::LayoutConfig;
use crate::natural;
use crate::text;

verus! {

/// The first layout with the id `id`.
pub open spec fn find_id(layouts: Seq<LayoutConfig>, id: Seq<char>) -> Option<int>
    decreases layouts.len(),
{
    if layouts.len() == 0 {
        None
    } else {
        match find_id(layouts.drop_last(), id) {
            Some(i) => Some(i),
            None => if layouts.last().id@ == id {
                Some(layouts.len() - 1)
            } else {
                None
            },
        }
    }
}

proof fn lemma_found(layouts: Seq<LayoutConfig>, id: Seq<char>, k: int, n: int)
    requires
        0 <= k <= n <= layouts.len(),
        find_id(layouts.take(k), id) is Some,
    ensures
        find_id(layouts.take(n), id) == find_id(layouts.take(k), id),
    decreases n,
{
    if k < n {
        lemma_found(layouts, id, k, n - 1);
        assert(layouts.take(n).drop_last() =~= layouts.take(n - 1));
    }
}

fn same_string(a: &str, b: &str) -> (r: bool)
    ensures
        r == (a@ == b@),
{
    let cs: Vec<char> = text::chars_of(a);
    text::same_text(cs.as_slice(), b)
}

/// The first layout with the id `id`.
pub fn position_of(layouts: &Vec<LayoutConfig>, id: &str) -> (r: Option<usize>)
    ensures
        match find_id(layouts@, id@) {
            Some(i) => (r matches Some(k) && k == i) && 0 <= i < layouts@.len(),
            None => r is None,
        },
{
    let n: usize = layouts.len();
    let mut i: usize = 0;
    assert(layouts@.take(0) =~= Seq::empty());
    while i < n
        invariant
            n == layouts@.len(),
            i <= n,
            find_id(layouts@.take(i as int), id@) is None,
        decreases n - i,
    {
        assert(layouts@.take(i + 1).drop_last() =~= layouts@.take(i as int));
        if same_string(layouts[i].id.as_str(), id) {
            proof {
                lemma_found(layouts@, id@, i + 1, n as int);
                assert(layouts@.take(n as int) =~= layouts@);
            }
            return Some(i);
        }
        i += 1;
    }
    assert(layouts@.take(n as int) =~= layouts@);
    None
}

/// Whether two layouts are the same.
pub open spec fn same(a: LayoutConfig, b: LayoutConfig) -> bool {
    &&& a.id@ == b.id@
    &&& a.name@ == b.name@
    &&& a.wtn_path@ == b.wtn_path@
    &&& a.edo_divisions == b.edo_divisions
    &&& a.pitch_offset == b.pitch_offset
}

/// Whether two lists of layouts are the same.
pub open spec fn all_same(a: Seq<LayoutConfig>, b: Seq<LayoutConfig>) -> bool {
    a.len() == b.len() && forall|i: int| 0 <= i < a.len() ==> same(#[trigger] a[i], b[i])
}

fn same_layouts(a: &Vec<LayoutConfig>, b: &Vec<LayoutConfig>) -> (r: bool)
    ensures
        r == all_same(a@, b@),
        r ==> a@.len() == b@.len() && forall|i: int|
            0 <= i < a@.len() ==> (#[trigger] a@[i]).id@ == b@[i].id@ && a@[i].name@ == b@[i].name@
                && a@[i].wtn_path@ == b@[i].wtn_path@ && a@[i].edo_divisions == b@[i].edo_divisions
                && a@[i].pitch_offset == b@[i].pitch_offset,
{
    if a.len() != b.len() {
        return false;
    }
    let n: usize = a.len();
    let mut i: usize = 0;
    while i < n
        invariant
            n == a@.len(),
            n == b@.len(),
            i <= n,
            forall|j: int| 0 <= j < i ==> same(#[trigger] a@[j], b@[j]),
        decreases n - i,
    {
        let x = &a[i];
        let y = &b[i];
        if !(same_string(x.id.as_str(), y.id.as_str()) && same_string(
            x.name.as_str(),
            y.name.as_str(),
        ) && same_string(x.wtn_path.as_str(), y.wtn_path.as_str()) && x.edo_divisions
            == y.edo_divisions && x.pitch_offset == y.pitch_offset) {
            assert(!same(a@[i as int], b@[i as int]));
            return false;
        }
        i += 1;
    }
    true
}

/// What a changed configuration comes to.
#[derive(Debug, Clone)]
pub enum Reload {
    /// It has no layouts; the old ones stay.
    Empty,
    /// It has the same layouts.
    Same,
    /// It has others, and the layout at `index` is played.
    New { layouts: Vec<LayoutConfig>, index: usize },
}

/// Whether `sorted` is `new` in the order in which layouts are shown.
pub open spec fn is_sorted_copy(new: Seq<LayoutConfig>, sorted: Seq<LayoutConfig>) -> bool {
    exists|from: Seq<int>| #[trigger]
        natural::rearranged(new, sorted, from) && ((forall|i: int|
            0 <= i < new.len() ==> natural::layout_numbers_fit(#[trigger] new[i]))
            ==> natural::in_order(sorted, from))
}

/// Takes in the layouts of a changed configuration. The layout that is played goes on being
/// played where it is still there, by its id; else the first is.
pub fn reload_layouts(current: &Vec<LayoutConfig>, index: usize, new: Vec<LayoutConfig>) -> (r:
    Reload)
    ensures
        new@.len() == 0 <==> r is Empty,
        new@.len() > 0 ==> exists|sorted: Seq<LayoutConfig>| #[trigger]
            is_sorted_copy(new@, sorted) && match r {
                Reload::Empty => false,
                Reload::Same => {
                    &&& all_same(sorted, current@)
                    &&& sorted.len() == current@.len()
                    &&& forall|k: int|
                        0 <= k < sorted.len() ==> (#[trigger] sorted[k]).id@ == current@[k].id@
                            && sorted[k].name@ == current@[k].name@ && sorted[k].wtn_path@
                            == current@[k].wtn_path@ && sorted[k].edo_divisions
                            == current@[k].edo_divisions && sorted[k].pitch_offset
                            == current@[k].pitch_offset
                },
                Reload::New { layouts, index: i } => {
                    &&& !all_same(sorted, current@)
                    &&& layouts@ == sorted
                    &&& i < sorted.len()
                    &&& i == (if index < current@.len() {
                        match find_id(sorted, current@[index as int].id@) {
                            Some(k) => k,
                            None => 0,
                        }
                    } else {
                        0
                    })
                },
            },
{
    if new.len() == 0 {
        return Reload::Empty;
    }
    let ghost given = new@;
    let sorted: Vec<LayoutConfig> = natural::sort_layouts(new);
    assert(is_sorted_copy(given, sorted@));
    if same_layouts(&sorted, current) {
        return Reload::Same;
    }
    let at: usize = if index < current.len() {
        match position_of(&sorted, current[index].id.as_str()) {
            Some(i) => i,
            None => 0,
        }
    } else {
        0
    };
    Reload::New { layouts: sorted, index: at }
}

/// The layout that a wish for the id `id` switches to: none where no layout has it, or the
/// one that is played has.
pub fn switch_to(layouts: &Vec<LayoutConfig>, index: usize, id: &Option<String>) -> (r: Option<
    usize,
>)
    ensures
        r == (match *id {
            None => None::<usize>,
            Some(s) => match find_id(layouts@, s@) {
                Some(i) => if i == index {
                    None
                } else {
                    Some(i as usize)
                },
                None => None,
            },
        }),
        r matches Some(i) ==> i < layouts@.len(),
{
    match id {
        None => None,
        Some(s) => match position_of(layouts, s.as_str()) {
            Some(i) => if i == index {
                None
            } else {
                Some(i)
            },
            None => None,
        },
    }
}

/// The layout that a preview's file pins: its text without the space around it, if any is
/// left.
pub open spec fn pinned(file: Option<Seq<char>>) -> Option<Seq<char>> {
    match file {
        None => None,
        Some(s) => if text::trim(s).len() == 0 {
            None
        } else {
            Some(text::trim(s))
        },
    }
}

/// A text that may be missing, as a value.
pub open spec fn maybe(s: Option<String>) -> Option<Seq<char>> {
    match s {
        Some(s) => Some(s@),
        None => None,
    }
}

/// What a preview's file comes to.
#[derive(Debug, Clone, Copy, PartialEq, Eq, Structural)]
pub enum PreviewStep {
    Same,
    On,
    Off,
}

/// The preview of a layout.
#[derive(Debug, Clone)]
pub struct Preview {
    pub enabled: bool,
    pub layout_id: Option<String>,
}

impl Preview {
    pub fn new() -> (r: Self)
        ensures
            !r.enabled,
            r.layout_id is None,
    {
        Preview { enabled: false, layout_id: None }
    }

    /// Turns the preview off. Says whether it was on.
    pub fn leave(&mut self) -> (r: bool)
        ensures
            r == old(self).enabled,
            !final(self).enabled,
            r ==> final(self).layout_id is None,
            !r ==> final(self).layout_id == old(self).layout_id,
    {
        if self.enabled {
            self.enabled = false;
            self.layout_id = None;
            true
        } else {
            false
        }
    }

    /// Forgets which layout is pinned, so that it is looked up again.
    pub fn unpin(&mut self)
        ensures
            final(self).enabled == old(self).enabled,
            final(self).layout_id is None,
    {
        self.layout_id = None;
    }

    /// Takes in whether there is a preview's file, and what it holds if it could be read.
    pub fn read(&mut self, exists_now: bool, file: Option<&str>) -> (r: PreviewStep)
        ensures
            ({
                let now = if exists_now {
                    pinned(
                        match file {
                            Some(s) => Some(s@),
                            None => None,
                        },
                    )
                } else {
                    None
                };
                &&& final(self).enabled == exists_now
                &&& maybe(final(self).layout_id) == now
                &&& r == (if exists_now == old(self).enabled && now == maybe(old(self).layout_id) {
                    PreviewStep::Same
                } else if exists_now {
                    PreviewStep::On
                } else {
                    PreviewStep::Off
                })
            }),
    {
        let now: Option<String> = match file {
            Some(s) => {
                let cs: Vec<char> = text::chars_of(s);
                let t: &[char] = text::trimmed(cs.as_slice());
                if exists_now && t.len() > 0 {
                    Some(text::string_of(t))
                } else {
                    None
                }
            },
            None => None,
        };
        let unchanged: bool = match (&now, &self.layout_id) {
            (Some(a), Some(b)) => same_string(a.as_str(), b.as_str()),
            (None, None) => true,
            _ => false,
        };
        if exists_now == self.enabled && unchanged {
            return PreviewStep::Same;
        }
        self.enabled = exists_now;
        self.layout_id = now;
        if exists_now {
            PreviewStep::On
        } else {
            PreviewStep::Off
        }
    }
}

/// Two lists of layouts are the same exactly if they are as long and agree in every field
/// at every place: a list that differs in any field of any layout is another.
pub proof fn lists_differ_in_any_field(a: Seq<LayoutConfig>, b: Seq<LayoutConfig>, i: int)
    requires
        0 <= i < a.len(),
    ensures
        a.len() != b.len() ==> !all_same(a, b),
        a[i].id@ != b[i].id@ ==> !all_same(a, b),
        a[i].name@ != b[i].name@ ==> !all_same(a, b),
        a[i].wtn_path@ != b[i].wtn_path@ ==> !all_same(a, b),
        a[i].edo_divisions != b[i].edo_divisions ==> !all_same(a, b),
        a[i].pitch_offset != b[i].pitch_offset ==> !all_same(a, b),
        all_same(a, a),
{
    if all_same(a, b) {
        assert(same(a[i], b[i]));
    }
}

/// The layout that is found by an id has it, and none before it does; where none is found,
/// none has it.
pub proof fn the_first_with_the_id_is_found(layouts: Seq<LayoutConfig>, id: Seq<char>, k: int)
    requires
        0 <= k < layouts.len(),
    ensures
        find_id(layouts, id) matches Some(i) ==> {
            &&& 0 <= i < layouts.len()
            &&& layouts[i].id@ == id
            &&& k < i ==> layouts[k].id@ != id
        },
        find_id(layouts, id) is None ==> layouts[k].id@ != id,
    decreases layouts.len(),
{
    let front = layouts.drop_last();
    if front.len() > 0 {
        let j = if k < front.len() {
            k
        } else {
            0
        };
        the_first_with_the_id_is_found(front, id, j);
        assert(front[j] == layouts[j]);
        if k < front.len() {
            assert(front[k] == layouts[k]);
        }
        if find_id(front, id) is Some {
            assert(front[find_id(front, id)->0] == layouts[find_id(front, id)->0]);
        }
    }
}

/// A preview's file pins a layout by its text without the space around it; one that is
/// missing or blank pins none.
pub proof fn previews_pin_their_text(file: Seq<char>)
    ensures
        pinned(None) is None,
        pinned(Some(file)) is None <==> forall|i: int|
            0 <= i < file.len() ==> text::is_space(#[trigger] file[i]),
        pinned(Some(file)) matches Some(s) ==> {
            &&& s.len() > 0 && !text::is_space(s[0]) && !text::is_space(s.last())
            &&& exists|a: int, b: int|
                0 <= a < b <= file.len() && s == #[trigger] file.subrange(a, b)
        },
{
    text::trimming_takes_the_space_around(file);
}

/// The new list of layouts is the one that was given, each of them once, and where their
/// numbers fit, none stands before one that precedes it.
pub proof fn new_lists_are_sorted(new: Seq<LayoutConfig>, sorted: Seq<LayoutConfig>, i: int, j: int)
    requires
        is_sorted_copy(new, sorted),
        0 <= i < j < sorted.len(),
    ensures
        sorted.len() == new.len(),
        new.contains(sorted[i]) && new.contains(sorted[j]),
        (forall|k: int| 0 <= k < new.len() ==> natural::layout_numbers_fit(#[trigger] new[k]))
            ==> !natural::precedes(sorted[j], sorted[i]),
{
    let from = choose|from: Seq<int>| #[trigger]
        natural::rearranged(new, sorted, from) && ((forall|i: int|
            0 <= i < new.len() ==> natural::layout_numbers_fit(#[trigger] new[i]))
            ==> natural::in_order(sorted, from));
    natural::sorted_layouts_are_in_order(new, sorted, from, i, j);
    assert(new[from[i]] == sorted[i] && new[from[j]] == sorted[j]);
}

} // verus!
