//! From the names in the configuration to the keys they stand for.
use vstd::prelude::*;
use crate::config;
use crate::config::{BoardConfig, DeviceIdError, OneOrManyU8};
use crate::control;
use crate::control::Action;
use crate::hid;
use crate::hid::{HidNames, UnknownHidName};
use crate::mask::ActiveMask;
use crate::table;
use crate::table::Table;
use crate::text;

verus! {

/// What each key is bound to, by the first `n` of the pairs of an action's name and a key's
/// name; of two for one key the last counts. The first key name that no key bears is the
/// error.
pub open spec fn bound_actions(
    names: Seq<Option<Seq<char>>>,
    v: Seq<(String, String)>,
    n: int,
) -> Result<Map<u8, Action>, Seq<char>>
    decreases n,
{
    if n <= 0 {
        Ok(Map::empty())
    } else {
        match bound_actions(names, v, n - 1) {
            Err(e) => Err(e),
            Ok(m) => match hid::first_named(names, v[n - 1].1@) {
                Some(c) => Ok(m.insert(c, control::action_named(v[n - 1].0@))),
                None => Err(v[n - 1].1@),
            },
        }
    }
}

proof fn lemma_actions_error(names: Seq<Option<Seq<char>>>, v: Seq<(String, String)>, k: int, n: int)
    requires
        0 <= k <= n,
        bound_actions(names, v, k) is Err,
    ensures
        bound_actions(names, v, n) == bound_actions(names, v, k),
    decreases n,
{
    if k < n {
        lemma_actions_error(names, v, k, n - 1);
    }
}

/// What each key is bound to.
pub fn bind_actions(names: &HidNames, by_action: &Vec<(String, String)>) -> (r: Result<
    Table<u8, Action>,
    UnknownHidName,
>)
    requires
        names@.len() <= 256,
    ensures
        match bound_actions(names@, by_action@, by_action@.len() as int) {
            Ok(m) => r is Ok && r->Ok_0@ == m && table::distinct_keys(r->Ok_0.entries@),
            Err(e) => r is Err && r->Err_0.name@ == e,
        },
{
    let mut out: Table<u8, Action> = Table::new();
    let n: usize = by_action.len();
    let mut i: usize = 0;
    while i < n
        invariant
            n == by_action@.len(),
            i <= n,
            names@.len() <= 256,
            bound_actions(names@, by_action@, i as int) == Ok::<Map<u8, Action>, Seq<char>>(out@),
            table::distinct_keys(out.entries@),
        decreases n - i,
    {
        match names.find(by_action[i].1.as_str()) {
            Ok(c) => {
                out.insert(c, control::action_of(by_action[i].0.as_str()));
            },
            Err(e) => {
                proof {
                    lemma_actions_error(names@, by_action@, i + 1, n as int);
                }
                return Err(e);
            },
        }
        i += 1;
    }
    Ok(out)
}

/// The columns of each key of the control bar, by the first `n` of the pairs of a key's name
/// and its columns.
pub open spec fn bound_bar(
    names: Seq<Option<Seq<char>>>,
    v: Seq<(String, OneOrManyU8)>,
    n: int,
) -> Result<Map<u8, Seq<u8>>, Seq<char>>
    decreases n,
{
    if n <= 0 {
        Ok(Map::empty())
    } else {
        match bound_bar(names, v, n - 1) {
            Err(e) => Err(e),
            Ok(m) => match hid::first_named(names, v[n - 1].0@) {
                Some(c) => Ok(m.insert(c, v[n - 1].1@)),
                None => Err(v[n - 1].0@),
            },
        }
    }
}

/// The lists in a map, as sequences.
pub open spec fn lists(m: Map<u8, Vec<u8>>) -> Map<u8, Seq<u8>> {
    m.map_values(|v: Vec<u8>| v@)
}

proof fn lemma_bar_error(
    names: Seq<Option<Seq<char>>>,
    v: Seq<(String, OneOrManyU8)>,
    k: int,
    n: int,
)
    requires
        0 <= k <= n,
        bound_bar(names, v, k) is Err,
    ensures
        bound_bar(names, v, n) == bound_bar(names, v, k),
    decreases n,
{
    if k < n {
        lemma_bar_error(names, v, k, n - 1);
    }
}

/// The columns of each key of the control bar.
pub fn bind_bar(names: &HidNames, led_cols_by_hid: &Vec<(String, OneOrManyU8)>) -> (r: Result<
    Table<u8, Vec<u8>>,
    UnknownHidName,
>)
    requires
        names@.len() <= 256,
    ensures
        match bound_bar(names@, led_cols_by_hid@, led_cols_by_hid@.len() as int) {
            Ok(m) => r is Ok && lists(r->Ok_0@) == m && table::distinct_keys(r->Ok_0.entries@),
            Err(e) => r is Err && r->Err_0.name@ == e,
        },
{
    let mut out: Table<u8, Vec<u8>> = Table::new();
    let n: usize = led_cols_by_hid.len();
    assert(lists(out@) =~= Map::empty());
    let mut i: usize = 0;
    while i < n
        invariant
            n == led_cols_by_hid@.len(),
            i <= n,
            names@.len() <= 256,
            bound_bar(names@, led_cols_by_hid@, i as int) == Ok::<Map<u8, Seq<u8>>, Seq<char>>(
                lists(out@),
            ),
            table::distinct_keys(out.entries@),
        decreases n - i,
    {
        let ghost before = lists(out@);
        match names.find(led_cols_by_hid[i].0.as_str()) {
            Ok(c) => {
                let cols: Vec<u8> = led_cols_by_hid[i].1.as_vec();
                let ghost cols_view = cols@;
                out.insert(c, cols);
                assert(lists(out@) =~= before.insert(c, cols_view));
            },
            Err(e) => {
                proof {
                    lemma_bar_error(names@, led_cols_by_hid@, i + 1, n as int);
                }
                return Err(e);
            },
        }
        i += 1;
    }
    Ok(out)
}

/// What keeps a board's analog controller from being bound.
#[derive(Debug, Clone)]
pub enum BindError {
    Device(DeviceIdError),
    Key(UnknownHidName),
}

impl BindError {
    pub open spec fn text(self) -> Seq<char> {
        match self {
            BindError::Device(e) => "Invalid device_id '"@ + e.device_id@ + "': "@ + e.cause.text(),
            BindError::Key(e) => "Unknown HID key name: "@ + e.name@,
        }
    }

    pub fn message(&self) -> (r: String)
        ensures
            r@ == self.text(),
    {
        match self {
            BindError::Device(e) => e.message(),
            BindError::Key(e) => e.message(),
        }
    }
}

/// The key and the controller of each device, by the first `n` boards: those that have a
/// controller and name a device. The error tells the board, and whether it is its key that
/// is wrong, or its device number.
pub open spec fn bound_controllers(
    names: Seq<Option<Seq<char>>>,
    boards: Seq<BoardConfig>,
    n: int,
) -> Result<Map<u64, (u8, u8)>, (int, bool)>
    decreases n,
{
    if n <= 0 {
        Ok(Map::empty())
    } else {
        match bound_controllers(names, boards, n - 1) {
            Err(e) => Err(e),
            Ok(m) => match config::analog_controller(boards[n - 1]) {
                None => Ok(m),
                Some((name, cc)) => match config::device_number(boards[n - 1]) {
                    Err(_) => Err((n - 1, false)),
                    Ok(None) => Ok(m),
                    Ok(Some(id)) => match hid::first_named(names, name) {
                        Some(c) => Ok(m.insert(id as u64, (c, cc))),
                        None => Err((n - 1, true)),
                    },
                },
            },
        }
    }
}

proof fn lemma_controllers_error(
    names: Seq<Option<Seq<char>>>,
    boards: Seq<BoardConfig>,
    k: int,
    n: int,
)
    requires
        0 <= k <= n,
        bound_controllers(names, boards, k) is Err,
    ensures
        bound_controllers(names, boards, n) == bound_controllers(names, boards, k),
    decreases n,
{
    if k < n {
        lemma_controllers_error(names, boards, k, n - 1);
    }
}

/// The key and the controller of each device's analog controller.
pub fn bind_controllers(names: &HidNames, boards: &Vec<BoardConfig>) -> (r: Result<
    Table<u64, (u8, u8)>,
    BindError,
>)
    requires
        names@.len() <= 256,
    ensures
        match bound_controllers(names@, boards@, boards@.len() as int) {
            Ok(m) => r is Ok && r->Ok_0@ == m && table::distinct_keys(r->Ok_0.entries@),
            Err((i, true)) => r matches Err(BindError::Key(e)) && e.name@
                == (config::analog_controller(boards@[i])->0).0,
            Err((i, false)) => r matches Err(BindError::Device(e)) && e.device_id@
                == boards@[i].device_id->0@ && config::device_number(boards@[i]) == Err::<
                Option<nat>,
                text::IntError,
            >(e.cause),
        },
{
    let mut out: Table<u64, (u8, u8)> = Table::new();
    let n: usize = boards.len();
    let mut i: usize = 0;
    while i < n
        invariant
            n == boards@.len(),
            i <= n,
            names@.len() <= 256,
            bound_controllers(names@, boards@, i as int) == Ok::<Map<u64, (u8, u8)>, (int, bool)>(
                out@,
            ),
            table::distinct_keys(out.entries@),
        decreases n - i,
    {
        match boards[i].cc_analog() {
            None => {},
            Some((name, cc)) => {
                match boards[i].device_id_u64() {
                    Err(e) => {
                        proof {
                            lemma_controllers_error(names@, boards@, i + 1, n as int);
                        }
                        return Err(BindError::Device(e));
                    },
                    Ok(None) => {},
                    Ok(Some(id)) => {
                        match names.find(name.as_str()) {
                            Ok(c) => {
                                out.insert(id, (c, cc));
                            },
                            Err(e) => {
                                proof {
                                    lemma_controllers_error(names@, boards@, i + 1, n as int);
                                }
                                return Err(BindError::Key(e));
                            },
                        }
                    },
                }
            },
        }
        i += 1;
    }
    Ok(out)
}

/// Whether a key controls the instrument, and so is not captured: it is on the control bar,
/// bound to an action, a board's controller, or an arrow of the bar's other layer.
pub open spec fn controls(
    bar: Map<u8, Vec<u8>>,
    actions: Map<u8, Action>,
    controllers: Map<u64, (u8, u8)>,
    code: u8,
) -> bool {
    ||| bar.contains_key(code)
    ||| actions.contains_key(code)
    ||| exists|id: u64| #[trigger] controllers.contains_key(id) && controllers[id].0 == code
    ||| code == hid::ARROW_LEFT
    ||| code == hid::ARROW_DOWN
    ||| code == hid::ARROW_RIGHT
}

/// The keys that control the instrument.
pub fn control_keys(
    bar: &Table<u8, Vec<u8>>,
    actions: &Table<u8, Action>,
    controllers: &Table<u64, (u8, u8)>,
) -> (r: ActiveMask)
    requires
        table::distinct_keys(bar.entries@),
        table::distinct_keys(actions.entries@),
        table::distinct_keys(controllers.entries@),
    ensures
        forall|c: u8| #[trigger] r.holds(c) == controls(bar@, actions@, controllers@, c),
{
    let mut out: ActiveMask = ActiveMask::new();
    proof {
        table::lemma_entries_are_the_map(bar.entries@);
        table::lemma_entries_are_the_map(actions.entries@);
        table::lemma_entries_are_the_map(controllers.entries@);
    }
    for i in 0..bar.entries.len()
        invariant
            forall|c: u8| #[trigger]
                out.holds(c) <==> exists|j: int|
                    0 <= j < i && (#[trigger] bar.entries@[j]).0 == c,
    {
        let ghost before = out;
        let k: u8 = bar.entries[i].0;
        out.set(k, true);
        proof {
            assert forall|c: u8| #[trigger] out.holds(c) <==> exists|j: int|
                0 <= j < i + 1 && (#[trigger] bar.entries@[j]).0 == c by {
                if before.holds(c) {
                    let j = choose|j: int| 0 <= j < i && (#[trigger] bar.entries@[j]).0 == c;
                    assert(bar.entries@[j].0 == c);
                }
                if c == k {
                    assert(bar.entries@[i as int].0 == c);
                }
            }
        }
    }
    let ghost with_bar = out;
    for i in 0..actions.entries.len()
        invariant
            forall|c: u8| #[trigger]
                out.holds(c) <==> with_bar.holds(c) || exists|j: int|
                    0 <= j < i && (#[trigger] actions.entries@[j]).0 == c,
    {
        let ghost before = out;
        let k: u8 = actions.entries[i].0;
        out.set(k, true);
        proof {
            assert forall|c: u8| #[trigger] out.holds(c) <==> with_bar.holds(c) || exists|j: int|
                0 <= j < i + 1 && (#[trigger] actions.entries@[j]).0 == c by {
                if before.holds(c) && !with_bar.holds(c) {
                    let j = choose|j: int| 0 <= j < i && (#[trigger] actions.entries@[j]).0 == c;
                    assert(actions.entries@[j].0 == c);
                }
                if c == k {
                    assert(actions.entries@[i as int].0 == c);
                }
            }
        }
    }
    let ghost with_actions = out;
    for i in 0..controllers.entries.len()
        invariant
            forall|c: u8| #[trigger]
                out.holds(c) <==> with_actions.holds(c) || exists|j: int|
                    0 <= j < i && (#[trigger] controllers.entries@[j]).1.0 == c,
    {
        let ghost before = out;
        let k: u8 = controllers.entries[i].1.0;
        out.set(k, true);
        proof {
            assert forall|c: u8| #[trigger] out.holds(c) <==> with_actions.holds(c) || exists|
                j: int,
            |
                0 <= j < i + 1 && (#[trigger] controllers.entries@[j]).1.0 == c by {
                if before.holds(c) && !with_actions.holds(c) {
                    let j = choose|j: int|
                        0 <= j < i && (#[trigger] controllers.entries@[j]).1.0 == c;
                    assert(controllers.entries@[j].1.0 == c);
                }
                if c == k {
                    assert(controllers.entries@[i as int].1.0 == c);
                }
            }
        }
    }
    let ghost with_controllers = out;
    out.set(hid::ARROW_LEFT, true);
    out.set(hid::ARROW_DOWN, true);
    out.set(hid::ARROW_RIGHT, true);
    proof {
        assert forall|c: u8| #[trigger] out.holds(c) == controls(
            bar@,
            actions@,
            controllers@,
            c,
        ) by {
            assert(out.holds(c) == (with_controllers.holds(c) || c == hid::ARROW_LEFT || c
                == hid::ARROW_DOWN || c == hid::ARROW_RIGHT));
            if bar@.contains_key(c) {
                let j = choose|j: int|
                    0 <= j < bar.entries@.len() && (#[trigger] bar.entries@[j]).0 == c;
                assert(bar.entries@[j].0 == c);
                assert(with_bar.holds(c));
                assert(with_actions.holds(c));
            }
            if actions@.contains_key(c) {
                let j = choose|j: int|
                    0 <= j < actions.entries@.len() && (#[trigger] actions.entries@[j]).0 == c;
                assert(actions.entries@[j].0 == c);
                assert(with_actions.holds(c));
            }
            if exists|id: u64| #[trigger] controllers@.contains_key(id) && controllers@[id].0 == c {
                let id = choose|id: u64| #[trigger]
                    controllers@.contains_key(id) && controllers@[id].0 == c;
                let j = choose|j: int|
                    0 <= j < controllers.entries@.len() && (#[trigger] controllers.entries@[j]).0
                        == id;
                assert(controllers.entries@[j].1.0 == c);
            }
            if with_controllers.holds(c) && !with_actions.holds(c) {
                let j = choose|j: int|
                    0 <= j < controllers.entries@.len() && (#[trigger] controllers.entries@[j]).1.0
                        == c;
                assert(controllers@.contains_key(controllers.entries@[j].0));
            }
            if with_actions.holds(c) && !with_bar.holds(c) {
                let j = choose|j: int|
                    0 <= j < actions.entries@.len() && (#[trigger] actions.entries@[j]).0 == c;
                assert(actions@.contains_key(actions.entries@[j].0));
            }
            if with_bar.holds(c) {
                let j = choose|j: int|
                    0 <= j < bar.entries@.len() && (#[trigger] bar.entries@[j]).0 == c;
                assert(bar@.contains_key(bar.entries@[j].0));
            }
        }
    }
    out
}

proof fn lemma_actions(names: Seq<Option<Seq<char>>>, v: Seq<(String, String)>, n: int, c: u8)
    requires
        0 <= n <= v.len(),
        forall|i: int| 0 <= i < n ==> hid::first_named(names, (#[trigger] v[i]).1@) is Some,
    ensures
        bound_actions(names, v, n) is Ok,
        ({
            let m = bound_actions(names, v, n)->Ok_0;
            &&& m.contains_key(c) <==> exists|i: int|
                0 <= i < n && hid::first_named(names, (#[trigger] v[i]).1@) == Some(c)
            &&& forall|i: int|
                0 <= i < n && hid::first_named(names, (#[trigger] v[i]).1@) == Some(c) && (forall|
                    j: int,
                |
                    i < j < n ==> hid::first_named(names, (#[trigger] v[j]).1@) != Some(c))
                    ==> m[c] == control::action_named(v[i].0@)
        }),
    decreases n,
{
    if n > 0 {
        lemma_actions(names, v, n - 1, c);
        let last = hid::first_named(names, v[n - 1].1@);
        let m = bound_actions(names, v, n)->Ok_0;
        assert forall|i: int|
            0 <= i < n && hid::first_named(names, (#[trigger] v[i]).1@) == Some(c) && (forall|
                j: int,
            |
                i < j < n ==> hid::first_named(names, (#[trigger] v[j]).1@) != Some(
                    c,
                )) implies m[c] == control::action_named(v[i].0@) by {
            if i < n - 1 {
                assert(hid::first_named(names, v[n - 1].1@) != Some(c));
            }
        }
        if m.contains_key(c) && last == Some(c) {
            assert(hid::first_named(names, v[n - 1].1@) == Some(c));
        }
    }
}

/// A key is bound exactly if a pair names it, and does what the last of those pairs says.
pub proof fn keys_are_bound_by_the_last_pair(
    names: Seq<Option<Seq<char>>>,
    v: Seq<(String, String)>,
    c: u8,
)
    requires
        forall|i: int|
            0 <= i < v.len() ==> hid::first_named(names, (#[trigger] v[i]).1@) is Some,
    ensures
        bound_actions(names, v, v.len() as int) is Ok,
        ({
            let m = bound_actions(names, v, v.len() as int)->Ok_0;
            &&& m.contains_key(c) <==> exists|i: int|
                0 <= i < v.len() && hid::first_named(names, (#[trigger] v[i]).1@) == Some(c)
            &&& forall|i: int|
                0 <= i < v.len() && hid::first_named(names, (#[trigger] v[i]).1@) == Some(c) && (
                forall|j: int|
                    i < j < v.len() ==> hid::first_named(names, (#[trigger] v[j]).1@) != Some(c))
                    ==> m[c] == control::action_named(v[i].0@)
        }),
{
    lemma_actions(names, v, v.len() as int, c);
}

proof fn lemma_bar(names: Seq<Option<Seq<char>>>, v: Seq<(String, OneOrManyU8)>, n: int, c: u8)
    requires
        0 <= n <= v.len(),
        forall|i: int| 0 <= i < n ==> hid::first_named(names, (#[trigger] v[i]).0@) is Some,
    ensures
        bound_bar(names, v, n) is Ok,
        ({
            let m = bound_bar(names, v, n)->Ok_0;
            &&& m.contains_key(c) <==> exists|i: int|
                0 <= i < n && hid::first_named(names, (#[trigger] v[i]).0@) == Some(c)
            &&& forall|i: int|
                0 <= i < n && hid::first_named(names, (#[trigger] v[i]).0@) == Some(c) && (forall|
                    j: int,
                |
                    i < j < n ==> hid::first_named(names, (#[trigger] v[j]).0@) != Some(c))
                    ==> m[c] == v[i].1@
        }),
    decreases n,
{
    if n > 0 {
        lemma_bar(names, v, n - 1, c);
        let m = bound_bar(names, v, n)->Ok_0;
        assert forall|i: int|
            0 <= i < n && hid::first_named(names, (#[trigger] v[i]).0@) == Some(c) && (forall|
                j: int,
            |
                i < j < n ==> hid::first_named(names, (#[trigger] v[j]).0@) != Some(
                    c,
                )) implies m[c] == v[i].1@ by {
            if i < n - 1 {
                assert(hid::first_named(names, v[n - 1].0@) != Some(c));
            }
        }
        if hid::first_named(names, v[n - 1].0@) == Some(c) {
            assert(m.contains_key(c));
        }
    }
}

/// A key is on the control bar exactly if it is named there, with the columns that were given
/// for it last.
pub proof fn bar_keys_have_the_last_columns(
    names: Seq<Option<Seq<char>>>,
    v: Seq<(String, OneOrManyU8)>,
    c: u8,
)
    requires
        forall|i: int|
            0 <= i < v.len() ==> hid::first_named(names, (#[trigger] v[i]).0@) is Some,
    ensures
        bound_bar(names, v, v.len() as int) is Ok,
        ({
            let m = bound_bar(names, v, v.len() as int)->Ok_0;
            &&& m.contains_key(c) <==> exists|i: int|
                0 <= i < v.len() && hid::first_named(names, (#[trigger] v[i]).0@) == Some(c)
            &&& forall|i: int|
                0 <= i < v.len() && hid::first_named(names, (#[trigger] v[i]).0@) == Some(c) && (
                forall|j: int|
                    i < j < v.len() ==> hid::first_named(names, (#[trigger] v[j]).0@) != Some(c))
                    ==> m[c] == v[i].1@
        }),
{
    lemma_bar(names, v, v.len() as int, c);
}

/// The first name that no key bears is the one that is told.
pub proof fn the_first_unknown_name_is_told(
    names: Seq<Option<Seq<char>>>,
    v: Seq<(String, String)>,
    w: Seq<(String, OneOrManyU8)>,
    k: int,
)
    ensures
        0 <= k < v.len() && hid::first_named(names, v[k].1@) is None && (forall|i: int|
            0 <= i < k ==> hid::first_named(names, (#[trigger] v[i]).1@) is Some) ==> bound_actions(
            names,
            v,
            v.len() as int,
        ) == Err::<Map<u8, Action>, Seq<char>>(v[k].1@),
        0 <= k < w.len() && hid::first_named(names, w[k].0@) is None && (forall|i: int|
            0 <= i < k ==> hid::first_named(names, (#[trigger] w[i]).0@) is Some) ==> bound_bar(
            names,
            w,
            w.len() as int,
        ) == Err::<Map<u8, Seq<u8>>, Seq<char>>(w[k].0@),
{
    if 0 <= k < v.len() && hid::first_named(names, v[k].1@) is None && (forall|i: int|
        0 <= i < k ==> hid::first_named(names, (#[trigger] v[i]).1@) is Some) {
        lemma_actions(names, v, k, 0);
        lemma_actions_error(names, v, k + 1, v.len() as int);
    }
    if 0 <= k < w.len() && hid::first_named(names, w[k].0@) is None && (forall|i: int|
        0 <= i < k ==> hid::first_named(names, (#[trigger] w[i]).0@) is Some) {
        lemma_bar(names, w, k, 0);
        lemma_bar_error(names, w, k + 1, w.len() as int);
    }
}


/// A device's controller is that of the last board with a controller that names it: the key
/// by its name, and the controller's number.
pub proof fn controllers_are_bound_by_device(
    names: Seq<Option<Seq<char>>>,
    boards: Seq<BoardConfig>,
    n: int,
    i: int,
)
    requires
        0 <= i < n <= boards.len(),
        bound_controllers(names, boards, n) is Ok,
        config::analog_controller(boards[i]) is Some,
        config::device_number(boards[i]) matches Ok(Some(id)) && id <= u64::MAX,
        forall|j: int|
            i < j < n ==> config::device_number(#[trigger] boards[j]) != config::device_number(
                boards[i],
            ),
    ensures
        ({
            let m = bound_controllers(names, boards, n)->Ok_0;
            let id = config::device_number(boards[i])->Ok_0->Some_0 as u64;
            let (name, cc) = config::analog_controller(boards[i])->0;
            &&& hid::first_named(names, name) is Some
            &&& m.contains_key(id)
            &&& m[id].0 == hid::first_named(names, name)->0
            &&& m[id].1 == cc
        }),
    decreases n,
{
    if i < n - 1 {
        controllers_are_bound_by_device(names, boards, n - 1, i);
        assert(config::device_number(boards[n - 1]) != config::device_number(boards[i]));
        if config::device_number(boards[n - 1]) matches Ok(Some(other)) {
            config::boards_name_devices_by_number(boards[n - 1]);
        }
    }
}

/// A device has no controller that no board gives it.
pub proof fn controllers_are_given_by_boards(
    names: Seq<Option<Seq<char>>>,
    boards: Seq<BoardConfig>,
    n: int,
    id: u64,
)
    requires
        0 <= n <= boards.len(),
        bound_controllers(names, boards, n) is Ok,
        bound_controllers(names, boards, n)->Ok_0.contains_key(id),
    ensures
        exists|i: int|
            0 <= i < n && config::analog_controller(#[trigger] boards[i]) is Some
                && config::device_number(boards[i]) == Ok::<Option<nat>, text::IntError>(
                Some(id as nat),
            ),
    decreases n,
{
    if n > 0 {
        let before = bound_controllers(names, boards, n - 1)->Ok_0;
        config::boards_name_devices_by_number(boards[n - 1]);
        if before.contains_key(id) {
            controllers_are_given_by_boards(names, boards, n - 1, id);
            let i = choose|i: int|
                0 <= i < n - 1 && config::analog_controller(#[trigger] boards[i]) is Some
                    && config::device_number(boards[i]) == Ok::<Option<nat>, text::IntError>(
                    Some(id as nat),
                );
            assert(config::analog_controller(boards[i]) is Some);
        } else {
            assert(config::analog_controller(boards[n - 1]) is Some);
        }
    }
}

/// The keys that control the instrument are those of the bar, those that are bound, the
/// boards' controllers and the three arrows; no others.
pub proof fn control_keys_are_of_the_bar(
    bar: Map<u8, Vec<u8>>,
    actions: Map<u8, Action>,
    controllers: Map<u64, (u8, u8)>,
    code: u8,
    id: u64,
)
    ensures
        bar.contains_key(code) ==> controls(bar, actions, controllers, code),
        actions.contains_key(code) ==> controls(bar, actions, controllers, code),
        controllers.contains_key(id) ==> controls(bar, actions, controllers, controllers[id].0),
        code == 79 || code == 80 || code == 81 ==> controls(bar, actions, controllers, code),
        controls(bar, actions, controllers, code) && !bar.contains_key(code)
            && !actions.contains_key(code) && code != 79 && code != 80 && code != 81 ==> exists|
            d: u64,
        | #[trigger]
            controllers.contains_key(d) && controllers[d].0 == code,
{
}

} // verus!
