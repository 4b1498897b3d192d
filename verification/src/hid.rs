//! Keys by their USB HID usage codes and by their names.
use vstd::prelude::*;
use wooting_analog_common::{FromPrimitive, HIDCodes};
use crate::text;

verus! {

pub const A: u8 = 0x04;
pub const B: u8 = 0x05;
pub const C: u8 = 0x06;
pub const D: u8 = 0x07;
pub const E: u8 = 0x08;
pub const F: u8 = 0x09;
pub const G: u8 = 0x0a;
pub const H: u8 = 0x0b;
pub const I: u8 = 0x0c;
pub const J: u8 = 0x0d;
pub const K: u8 = 0x0e;
pub const L: u8 = 0x0f;
pub const M: u8 = 0x10;
pub const N: u8 = 0x11;
pub const O: u8 = 0x12;
pub const P: u8 = 0x13;
pub const Q: u8 = 0x14;
pub const R: u8 = 0x15;
pub const S: u8 = 0x16;
pub const T: u8 = 0x17;
pub const U: u8 = 0x18;
pub const V: u8 = 0x19;
pub const W: u8 = 0x1a;
pub const X: u8 = 0x1b;
pub const Y: u8 = 0x1c;
pub const Z: u8 = 0x1d;
pub const N1: u8 = 0x1e;
pub const N2: u8 = 0x1f;
pub const N3: u8 = 0x20;
pub const N4: u8 = 0x21;
pub const N5: u8 = 0x22;
pub const N6: u8 = 0x23;
pub const N7: u8 = 0x24;
pub const N8: u8 = 0x25;
pub const N9: u8 = 0x26;
pub const N0: u8 = 0x27;
pub const ENTER: u8 = 0x28;
pub const ESCAPE: u8 = 0x29;
pub const BACKSPACE: u8 = 0x2a;
pub const TAB: u8 = 0x2b;
pub const SPACE: u8 = 0x2c;
pub const MINUS: u8 = 0x2d;
pub const EQUAL: u8 = 0x2e;
pub const BRACKET_LEFT: u8 = 0x2f;
pub const BRACKET_RIGHT: u8 = 0x30;
pub const BACKSLASH: u8 = 0x31;
pub const SEMICOLON: u8 = 0x33;
pub const QUOTE: u8 = 0x34;
pub const COMMA: u8 = 0x36;
pub const PERIOD: u8 = 0x37;
pub const SLASH: u8 = 0x38;
pub const CAPS_LOCK: u8 = 0x39;
pub const ARROW_RIGHT: u8 = 0x4f;
pub const ARROW_LEFT: u8 = 0x50;
pub const ARROW_DOWN: u8 = 0x51;
pub const CONTEXT_MENU: u8 = 0x65;
pub const LEFT_CTRL: u8 = 0xe0;
pub const LEFT_SHIFT: u8 = 0xe1;
pub const LEFT_ALT: u8 = 0xe2;
pub const LEFT_META: u8 = 0xe3;
pub const RIGHT_CTRL: u8 = 0xe4;
pub const RIGHT_SHIFT: u8 = 0xe5;
pub const RIGHT_ALT: u8 = 0xe6;

/// The name of the key with the usage code `code`, where the keyboard SDK knows one.
pub uninterp spec fn hid_name_of(code: u8) -> Option<Seq<char>>;

/// `HIDCodes::from_u8` gives the key that has the usage code `code`, or none, and its
/// `Debug` form is the key's name. Both depend on the code alone. Which code has which
/// name is left unsaid.
#[verifier::external_body]
pub(crate) fn hid_name(code: u8) -> (r: Option<String>)
    ensures
        match hid_name_of(code) {
            Some(n) => r is Some && r->0@ == n,
            None => r is None,
        },
{
    HIDCodes::from_u8(code).map(|h| format!("{:?}", h))
}

/// The names of the keys, by usage code.
#[derive(Debug)]
pub struct HidNames {
    pub names: Vec<Option<String>>,
}

impl View for HidNames {
    type V = Seq<Option<Seq<char>>>;

    open spec fn view(&self) -> Seq<Option<Seq<char>>> {
        self.names@.map_values(
            |n: Option<String>|
                match n {
                    Some(s) => Some(s@),
                    None => None,
                },
        )
    }
}

/// The names that the keyboard SDK has for the codes 0 to 255.
pub open spec fn sdk_names() -> Seq<Option<Seq<char>>> {
    Seq::new(256, |i: int| hid_name_of(i as u8))
}

/// Whether the key at `i` bears `name`, the case of ASCII letters aside.
pub open spec fn bears(names: Seq<Option<Seq<char>>>, i: int, name: Seq<char>) -> bool {
    names[i] is Some && text::lowered(names[i]->0) == text::lowered(name)
}

/// The first of `names` that is `name`, the case of ASCII letters aside.
pub open spec fn first_named(names: Seq<Option<Seq<char>>>, name: Seq<char>) -> Option<u8>
    decreases names.len(),
{
    if names.len() == 0 {
        None
    } else {
        match first_named(names.drop_last(), name) {
            Some(i) => Some(i),
            None => if bears(names, names.len() - 1, name) {
                Some((names.len() - 1) as u8)
            } else {
                None
            },
        }
    }
}

proof fn lemma_first_named(names: Seq<Option<Seq<char>>>, name: Seq<char>, i: int)
    requires
        0 <= i < names.len() <= 256,
        bears(names, i, name),
        forall|j: int| 0 <= j < i ==> !#[trigger] bears(names, j, name),
    ensures
        first_named(names, name) == Some(i as u8),
    decreases names.len(),
{
    let front = names.drop_last();
    assert forall|j: int| 0 <= j < front.len() implies #[trigger] bears(front, j, name) == bears(
        names,
        j,
        name,
    ) by {}
    if i < front.len() {
        assert(bears(front, i, name));
        lemma_first_named(front, name, i);
    } else {
        lemma_none_named(front, name);
    }
}

proof fn lemma_none_named(names: Seq<Option<Seq<char>>>, name: Seq<char>)
    requires
        forall|j: int| 0 <= j < names.len() ==> !#[trigger] bears(names, j, name),
    ensures
        first_named(names, name) is None,
    decreases names.len(),
{
    if names.len() > 0 {
        let front = names.drop_last();
        assert forall|j: int| 0 <= j < front.len() implies !#[trigger] bears(front, j, name) by {
            assert(bears(front, j, name) == bears(names, j, name));
        }
        lemma_none_named(front, name);
    }
}

/// The code that is found has a name that matches, and no smaller code has.
pub proof fn first_named_is_first(names: Seq<Option<Seq<char>>>, name: Seq<char>)
    requires
        names.len() <= 256,
    ensures
        match first_named(names, name) {
            Some(c) => c < names.len() && bears(names, c as int, name) && forall|j: int|
                0 <= j < c ==> !#[trigger] bears(names, j, name),
            None => forall|j: int| 0 <= j < names.len() ==> !#[trigger] bears(names, j, name),
        },
    decreases names.len(),
{
    if exists|i: int| 0 <= i < names.len() && #[trigger] bears(names, i, name) {
        let i = least_bearer(names, name, 0);
        lemma_first_named(names, name, i);
    } else {
        lemma_none_named(names, name);
    }
}

proof fn least_bearer(names: Seq<Option<Seq<char>>>, name: Seq<char>, from: int) -> (i: int)
    requires
        0 <= from,
        exists|i: int| from <= i < names.len() && #[trigger] bears(names, i, name),
        forall|j: int| 0 <= j < from ==> !#[trigger] bears(names, j, name),
    ensures
        0 <= i < names.len(),
        bears(names, i, name),
        forall|j: int| 0 <= j < i ==> !#[trigger] bears(names, j, name),
    decreases names.len() - from,
{
    if bears(names, from, name) {
        from
    } else {
        least_bearer(names, name, from + 1)
    }
}

/// A name that no key bears.
#[derive(Debug, Clone)]
pub struct UnknownHidName {
    pub name: String,
}

impl UnknownHidName {
    /// The error in words.
    pub fn message(&self) -> (r: String)
        ensures
            r@ == "Unknown HID key name: "@ + self.name@,
    {
        let mut out = text::text_of("Unknown HID key name: ");
        text::push_text(&mut out, self.name.as_str());
        out
    }
}

impl HidNames {
    /// The names that the keyboard SDK has.
    pub fn load() -> (r: Self)
        ensures
            r@ == sdk_names(),
    {
        let mut names: Vec<Option<String>> = Vec::new();
        let mut code: usize = 0;
        while code < 256
            invariant
                code <= 256,
                (HidNames { names })@ =~= sdk_names().take(code as int),
            decreases 256 - code,
        {
            let ghost before = (HidNames { names })@;
            names.push(hid_name(code as u8));
            assert((HidNames { names })@ =~= before.push(hid_name_of(code as u8)));
            assert(sdk_names().take(code + 1) =~= sdk_names().take(code as int).push(
                hid_name_of(code as u8),
            ));
            code += 1;
        }
        let r = HidNames { names };
        assert(r@ =~= sdk_names());
        r
    }

    /// Whether the key with the usage code `code` has a name.
    pub fn knows(&self, code: u8) -> (b: bool)
        ensures
            b == (code < self@.len() && self@[code as int] is Some),
    {
        if (code as usize) < self.names.len() {
            self.names[code as usize].is_some()
        } else {
            false
        }
    }

    /// The usage code of the key that bears `name`, the case of ASCII letters aside.
    pub fn find(&self, name: &str) -> (r: Result<u8, UnknownHidName>)
        requires
            self@.len() <= 256,
        ensures
            match first_named(self@, name@) {
                Some(c) => r is Ok && r->Ok_0 == c,
                None => r is Err && r->Err_0.name@ == name@,
            },
    {
        let wanted = text::chars_of(name);
        let n: usize = self.names.len();
        let mut i: usize = 0;
        while i < n
            invariant
                n == self.names@.len() == self@.len(),
                n <= 256,
                i <= n,
                wanted@ == name@,
                forall|j: int| 0 <= j < i ==> !#[trigger] bears(self@, j, name@),
            decreases n - i,
        {
            match &self.names[i] {
                Some(s) => {
                    let cs = text::chars_of(s.as_str());
                    if text::same_ignoring_case(cs.as_slice(), wanted.as_slice()) {
                        proof {
                            lemma_first_named(self@, name@, i as int);
                        }
                        return Ok(i as u8);
                    }
                    assert(!bears(self@, i as int, name@));
                },
                None => {
                    assert(!bears(self@, i as int, name@));
                },
            }
            i += 1;
        }
        proof {
            lemma_none_named(self@, name@);
        }
        Err(UnknownHidName { name: text::text_of(name) })
    }
}

/// The usage code of the key that the keyboard SDK calls `name`, the case of ASCII
/// letters aside.
pub fn parse_hid_name(name: &str) -> (r: Result<u8, UnknownHidName>)
    ensures
        match first_named(sdk_names(), name@) {
            Some(c) => r is Ok && r->Ok_0 == c,
            None => r is Err && r->Err_0.name@ == name@,
        },
{
    HidNames::load().find(name)
}

/// A key is found by its name in any case: the first key whose name is the one asked for but
/// for the case of its letters.
pub proof fn keys_are_found_by_name(names: Seq<Option<Seq<char>>>, name: Seq<char>, c: int)
    requires
        names.len() <= 256,
        0 <= c < names.len(),
        names[c] is Some,
        text::lowered(names[c]->0) == text::lowered(name),
        forall|j: int|
            0 <= j < c && (#[trigger] names[j]) is Some ==> text::lowered(names[j]->0)
                != text::lowered(name),
    ensures
        first_named(names, name) == Some(c as u8),
{
    assert(bears(names, c, name));
    lemma_first_named(names, name, c);
}

/// No key is found by a name that is none's.
pub proof fn unknown_names_find_no_key(names: Seq<Option<Seq<char>>>, name: Seq<char>)
    requires
        forall|j: int|
            0 <= j < names.len() && (#[trigger] names[j]) is Some ==> text::lowered(names[j]->0)
                != text::lowered(name),
    ensures
        first_named(names, name) is None,
{
    lemma_none_named(names, name);
}

/// The names of the keys are those that the keyboard SDK has for the codes.
pub proof fn names_are_those_of_the_sdk(code: u8)
    ensures
        sdk_names().len() == 256,
        sdk_names()[code as int] == hid_name_of(code),
{
}

} // verus!
