//! Characters, lines and numbers: the small vocabulary that every text format of
//! this crate is written in. Text is modelled as a `Seq<char>`.
use vstd::prelude::*;
use vstd::slice::slice_subrange;

verus! {

/// `String::push` appends one character to the end of the string.
pub assume_specification[ String::push ](s: &mut String, ch: char)
    ensures
        final(s)@ == old(s)@.push(ch),
;

/// The characters of `s`, in order.
pub fn chars_of(s: &str) -> (r: Vec<char>)
    ensures
        r@ == s@,
{
    let mut v: Vec<char> = Vec::new();
    for c in it: s.chars()
        invariant
            it.seq() == s@,
            v@ == s@.take(it.index()),
    {
        v.push(c);
    }
    v
}

/// The string made of the characters `cs`.
pub fn string_of(cs: &[char]) -> (r: String)
    ensures
        r@ == cs@,
{
    let mut out = String::new();
    for i in 0..cs.len()
        invariant
            out@ == cs@.take(i as int),
    {
        out.push(cs[i]);
    }
    out
}

/// White space in the sense of the Unicode `White_Space` property.
pub open spec fn is_space(c: char) -> bool {
    let u = c as u32;
    ||| 0x9 <= u <= 0xD
    ||| u == 0x20
    ||| u == 0x85
    ||| u == 0xA0
    ||| u == 0x1680
    ||| 0x2000 <= u <= 0x200A
    ||| u == 0x2028
    ||| u == 0x2029
    ||| u == 0x202F
    ||| u == 0x205F
    ||| u == 0x3000
}

/// `s` without its leading white space.
pub open spec fn trim_start(s: Seq<char>) -> Seq<char>
    decreases s.len(),
{
    if s.len() > 0 && is_space(s[0]) {
        trim_start(s.drop_first())
    } else {
        s
    }
}

/// `s` without its trailing white space.
pub open spec fn trim_end(s: Seq<char>) -> Seq<char>
    decreases s.len(),
{
    if s.len() > 0 && is_space(s.last()) {
        trim_end(s.drop_last())
    } else {
        s
    }
}

/// `s` without the white space at either end.
pub open spec fn trim(s: Seq<char>) -> Seq<char> {
    trim_end(trim_start(s))
}

/// Whether `prefix` begins `s`.
pub open spec fn starts_with(s: Seq<char>, prefix: Seq<char>) -> bool {
    &&& prefix.len() <= s.len()
    &&& s.take(prefix.len() as int) == prefix
}

/// What follows `prefix` in `s`, where `s` begins with it.
pub open spec fn strip_prefix(s: Seq<char>, prefix: Seq<char>) -> Option<Seq<char>> {
    if starts_with(s, prefix) {
        Some(s.skip(prefix.len() as int))
    } else {
        None
    }
}

/// The position of the first `c` in `s`, or the length of `s`.
pub open spec fn find(s: Seq<char>, c: char) -> nat
    decreases s.len(),
{
    if s.len() == 0 || s[0] == c {
        0
    } else {
        1 + find(s.drop_first(), c)
    }
}

/// The parts of `s` before and after its first `c`.
pub open spec fn split_once(s: Seq<char>, c: char) -> Option<(Seq<char>, Seq<char>)> {
    let i = find(s, c) as int;
    if i < s.len() {
        Some((s.take(i), s.skip(i + 1)))
    } else {
        None
    }
}

/// `s` without one trailing carriage return.
pub open spec fn strip_cr(s: Seq<char>) -> Seq<char> {
    if s.len() > 0 && s.last() == '\r' {
        s.drop_last()
    } else {
        s
    }
}

/// The lines of `s`: each ends at a line feed, or at a carriage return and a line
/// feed, and the last one needs no ending.
pub open spec fn lines(s: Seq<char>) -> Seq<Seq<char>>
    decreases s.len(),
{
    let i = find(s, '\n') as int;
    if s.len() == 0 {
        Seq::empty()
    } else if i < s.len() {
        seq![strip_cr(s.take(i))] + lines(s.skip(i + 1))
    } else {
        seq![s]
    }
}

/// The pieces of `s` between the occurrences of `c`: one more than `c` occurs.
pub open spec fn split_on(s: Seq<char>, c: char) -> Seq<Seq<char>>
    decreases s.len(),
{
    let i = find(s, c) as int;
    if i < s.len() {
        seq![s.take(i)] + split_on(s.skip(i + 1), c)
    } else {
        seq![s]
    }
}

/// The number of characters of `s` before its first white space.
pub open spec fn word_len(s: Seq<char>) -> nat
    decreases s.len(),
{
    if s.len() == 0 || is_space(s[0]) {
        0
    } else {
        1 + word_len(s.drop_first())
    }
}

/// The maximal runs of `s` that hold no white space.
pub open spec fn words(s: Seq<char>) -> Seq<Seq<char>>
    decreases s.len(),
{
    proof {
        lemma_word_len(s);
    }
    if s.len() == 0 {
        Seq::empty()
    } else if is_space(s[0]) {
        words(s.drop_first())
    } else {
        seq![s.take(word_len(s) as int)] + words(s.skip(word_len(s) as int))
    }
}

pub proof fn lemma_word_len(s: Seq<char>)
    ensures
        word_len(s) <= s.len(),
        s.len() > 0 && !is_space(s[0]) ==> word_len(s) > 0,
    decreases s.len(),
{
    if s.len() > 0 && !is_space(s[0]) {
        lemma_word_len(s.drop_first());
    }
}

pub proof fn lemma_find(s: Seq<char>, c: char)
    ensures
        find(s, c) <= s.len(),
        forall|i: int| 0 <= i < find(s, c) ==> s[i] != c,
        find(s, c) < s.len() ==> s[find(s, c) as int] == c,
    decreases s.len(),
{
    if s.len() > 0 && s[0] != c {
        let t = s.drop_first();
        lemma_find(t, c);
        assert forall|i: int| 0 <= i < find(s, c) implies s[i] != c by {
            if i > 0 {
                assert(t[i - 1] == s[i]);
            }
        }
    }
}

/// Whether `c` is one of `0` to `9`.
pub open spec fn is_digit(c: char) -> bool {
    '0' <= c <= '9'
}

/// The digit that `c` stands for in bases up to sixteen.
pub open spec fn digit_value(c: char) -> Option<nat> {
    if '0' <= c <= '9' {
        Some((c as u32 - '0' as u32) as nat)
    } else if 'a' <= c <= 'f' {
        Some((c as u32 - 'a' as u32 + 10) as nat)
    } else if 'A' <= c <= 'F' {
        Some((c as u32 - 'A' as u32 + 10) as nat)
    } else {
        None
    }
}

/// The number that the digits `s` write in base `radix`, where each of them is a
/// digit of that base.
pub open spec fn digits_value(s: Seq<char>, radix: nat) -> Option<nat>
    decreases s.len(),
{
    if s.len() == 0 {
        Some(0)
    } else {
        match (digits_value(s.drop_last(), radix), digit_value(s.last())) {
            (Some(hi), Some(d)) => if d < radix {
                Some(hi * radix + d)
            } else {
                None
            },
            _ => None,
        }
    }
}

/// `s` without one leading plus sign.
pub open spec fn strip_plus(s: Seq<char>) -> Seq<char> {
    if s.len() > 0 && s[0] == '+' {
        s.drop_first()
    } else {
        s
    }
}

/// The unsigned number up to `max` that `s` writes in base `radix`: an optional plus
/// sign, then at least one digit.
pub open spec fn parse_unsigned(s: Seq<char>, radix: nat, max: nat) -> Option<nat> {
    let ds = strip_plus(s);
    if ds.len() == 0 {
        None
    } else {
        match digits_value(ds, radix) {
            Some(v) => if v <= max {
                Some(v)
            } else {
                None
            },
            None => None,
        }
    }
}

/// The decimal digit `d`.
pub open spec fn digit_char(d: nat) -> char {
    ('0' as u32 + d) as char
}

/// The shortest decimal form of `n`.
pub open spec fn decimal(n: nat) -> Seq<char>
    decreases n,
{
    if n < 10 {
        seq![digit_char(n)]
    } else {
        decimal(n / 10).push(digit_char(n % 10))
    }
}

/// The shortest decimal form of `n`, with a minus sign where it is negative.
pub open spec fn decimal_int(n: int) -> Seq<char> {
    if n < 0 {
        seq!['-'] + decimal((-n) as nat)
    } else {
        decimal(n as nat)
    }
}

/// `c` with an upper case ASCII letter made lower case.
pub open spec fn lower(c: char) -> char {
    if 'A' <= c <= 'Z' {
        (c as u32 + 32) as char
    } else {
        c
    }
}

/// `s` with its upper case ASCII letters made lower case.
pub open spec fn lowered(s: Seq<char>) -> Seq<char> {
    s.map_values(|c: char| lower(c))
}

/// The pieces `parts` with `sep` between each two.
pub open spec fn joined(parts: Seq<Seq<char>>, sep: Seq<char>) -> Seq<char>
    decreases parts.len(),
{
    if parts.len() == 0 {
        Seq::empty()
    } else if parts.len() == 1 {
        parts[0]
    } else {
        parts[0] + sep + joined(parts.drop_first(), sep)
    }
}

/// The views of a sequence of slices.
pub open spec fn views(v: Seq<&[char]>) -> Seq<Seq<char>> {
    v.map_values(|x: &[char]| x@)
}

pub fn is_space_char(c: char) -> (b: bool)
    ensures
        b == is_space(c),
{
    let u: u32 = c as u32;
    (0x9 <= u && u <= 0xD) || u == 0x20 || u == 0x85 || u == 0xA0 || u == 0x1680 || (0x2000 <= u && u
        <= 0x200A) || u == 0x2028 || u == 0x2029 || u == 0x202F || u == 0x205F || u == 0x3000
}

/// `s` without the white space at either end.
pub fn trimmed(s: &[char]) -> (r: &[char])
    ensures
        r@ == trim(s@),
{
    let n: usize = s.len();
    let mut i: usize = 0;
    assert(s@.skip(0) == s@);
    while i < n && is_space_char(s[i])
        invariant
            n == s@.len(),
            i <= n,
            trim_start(s@) == trim_start(s@.skip(i as int)),
        decreases n - i,
    {
        assert(s@.skip(i as int).drop_first() == s@.skip(i + 1));
        i += 1;
    }
    let mut j: usize = n;
    assert(s@.subrange(i as int, n as int) == s@.skip(i as int));
    while i < j && is_space_char(s[j - 1])
        invariant
            n == s@.len(),
            i <= j <= n,
            trim(s@) == trim_end(s@.subrange(i as int, j as int)),
        decreases j,
    {
        assert(s@.subrange(i as int, j as int).drop_last() == s@.subrange(i as int, j - 1));
        j -= 1;
    }
    slice_subrange(s, i, j)
}

/// Whether `s` holds the characters of `t`.
pub fn same_chars(s: &[char], t: &[char]) -> (b: bool)
    ensures
        b == (s@ == t@),
{
    if s.len() != t.len() {
        return false;
    }
    let n: usize = s.len();
    let mut i: usize = 0;
    while i < n
        invariant
            n == s@.len() == t@.len(),
            i <= n,
            forall|k: int| 0 <= k < i ==> s@[k] == t@[k],
        decreases n - i,
    {
        if s[i] != t[i] {
            return false;
        }
        i += 1;
    }
    assert(s@ =~= t@);
    true
}

/// Whether `s` holds the characters of the string `t`.
pub fn same_text(s: &[char], t: &str) -> (b: bool)
    ensures
        b == (s@ == t@),
{
    let cs = chars_of(t);
    same_chars(s, cs.as_slice())
}

/// What follows `prefix` in `s`, where `s` begins with it.
pub fn after_prefix<'a>(s: &'a [char], prefix: &str) -> (r: Option<&'a [char]>)
    ensures
        match strip_prefix(s@, prefix@) {
            Some(rest) => r is Some && r->0@ == rest,
            None => r is None,
        },
{
    let p = chars_of(prefix);
    if s.len() < p.len() {
        return None;
    }
    let head = slice_subrange(s, 0, p.len());
    if same_chars(head, p.as_slice()) {
        Some(slice_subrange(s, p.len(), s.len()))
    } else {
        None
    }
}

/// The position of the first `c` in `s`, or the length of `s`.
pub fn find_char(s: &[char], c: char) -> (r: usize)
    ensures
        r == find(s@, c),
        r <= s@.len(),
{
    let n: usize = s.len();
    let mut i: usize = 0;
    assert(s@.skip(0) == s@);
    while i < n && s[i] != c
        invariant
            n == s@.len(),
            i <= n,
            find(s@, c) == i + find(s@.skip(i as int), c),
        decreases n - i,
    {
        assert(s@.skip(i as int).drop_first() == s@.skip(i + 1));
        i += 1;
    }
    i
}

/// The parts of `s` before and after its first `c`.
pub fn split_at_char<'a>(s: &'a [char], c: char) -> (r: Option<(&'a [char], &'a [char])>)
    ensures
        match split_once(s@, c) {
            Some((a, b)) => r is Some && (r->0).0@ == a && (r->0).1@ == b,
            None => r is None,
        },
{
    let i: usize = find_char(s, c);
    if i < s.len() {
        Some((slice_subrange(s, 0, i), slice_subrange(s, i + 1, s.len())))
    } else {
        None
    }
}

/// The lines of `s`.
pub fn split_lines<'a>(s: &'a [char]) -> (r: Vec<&'a [char]>)
    ensures
        views(r@) == lines(s@),
{
    let mut out: Vec<&'a [char]> = Vec::new();
    let mut rest: &'a [char] = s;
    assert(views(out@) + lines(rest@) =~= lines(s@));
    while rest.len() > 0
        invariant
            views(out@) + lines(rest@) == lines(s@),
        decreases rest@.len(),
    {
        let i: usize = find_char(rest, '\n');
        let ghost before = out@;
        if i < rest.len() {
            let mut end: usize = i;
            if i > 0 && rest[i - 1] == '\r' {
                end = i - 1;
            }
            let line = slice_subrange(rest, 0, end);
            assert(line@ == strip_cr(rest@.take(i as int)));
            out.push(line);
            assert(views(out@) =~= views(before).push(line@));
            assert(views(before) + (seq![line@] + lines(rest@.skip(i + 1))) =~= views(out@) + lines(
                rest@.skip(i + 1),
            ));
            rest = slice_subrange(rest, i + 1, rest.len());
        } else {
            out.push(rest);
            assert(views(out@) =~= views(before).push(rest@));
            assert(views(before) + seq![rest@] =~= views(out@) + lines(Seq::empty()));
            rest = slice_subrange(rest, rest.len(), rest.len());
            assert(rest@ =~= Seq::empty());
        }
    }
    assert(views(out@) + lines(rest@) =~= views(out@));
    out
}

/// The pieces of `s` between the occurrences of `c`.
pub fn split_pieces<'a>(s: &'a [char], c: char) -> (r: Vec<&'a [char]>)
    ensures
        views(r@) == split_on(s@, c),
{
    let mut out: Vec<&'a [char]> = Vec::new();
    let mut rest: &'a [char] = s;
    assert(views(out@) + split_on(rest@, c) =~= split_on(s@, c));
    loop
        invariant
            views(out@) + split_on(rest@, c) == split_on(s@, c),
        decreases rest@.len(),
    {
        let i: usize = find_char(rest, c);
        let ghost before = out@;
        if i < rest.len() {
            let piece = slice_subrange(rest, 0, i);
            out.push(piece);
            assert(views(out@) =~= views(before).push(piece@));
            assert(views(before) + (seq![piece@] + split_on(rest@.skip(i + 1), c)) =~= views(out@)
                + split_on(rest@.skip(i + 1), c));
            rest = slice_subrange(rest, i + 1, rest.len());
        } else {
            out.push(rest);
            assert(views(out@) =~= views(before) + seq![rest@]);
            return out;
        }
    }
}

/// The maximal runs of `s` that hold no white space.
pub fn split_words<'a>(s: &'a [char]) -> (r: Vec<&'a [char]>)
    ensures
        views(r@) == words(s@),
{
    let mut out: Vec<&'a [char]> = Vec::new();
    let mut rest: &'a [char] = s;
    assert(views(out@) + words(rest@) =~= words(s@));
    while rest.len() > 0
        invariant
            views(out@) + words(rest@) == words(s@),
        decreases rest@.len(),
    {
        let ghost before = out@;
        if is_space_char(rest[0]) {
            assert(rest@.drop_first() == rest@.subrange(1, rest@.len() as int));
            rest = slice_subrange(rest, 1, rest.len());
        } else {
            let n: usize = rest.len();
            let mut i: usize = 0;
            assert(rest@.skip(0) == rest@);
            while i < n && !is_space_char(rest[i])
                invariant
                    n == rest@.len(),
                    i <= n,
                    word_len(rest@) == i + word_len(rest@.skip(i as int)),
                decreases n - i,
            {
                assert(rest@.skip(i as int).drop_first() == rest@.skip(i + 1));
                i += 1;
            }
            let word = slice_subrange(rest, 0, i);
            out.push(word);
            assert(views(out@) =~= views(before).push(word@));
            assert(views(before) + (seq![word@] + words(rest@.skip(i as int))) =~= views(out@)
                + words(rest@.skip(i as int)));
            rest = slice_subrange(rest, i, rest.len());
        }
    }
    assert(views(out@) + words(rest@) =~= views(out@));
    out
}

/// A longer run of digits never writes a smaller number.
proof fn lemma_digits_monotone(s: Seq<char>, k: int, radix: nat)
    requires
        0 <= k <= s.len(),
        radix >= 1,
    ensures
        digits_value(s, radix) is Some ==> digits_value(s.take(k), radix) is Some && digits_value(
            s.take(k),
            radix,
        )->0 <= digits_value(s, radix)->0,
    decreases s.len() - k,
{
    if k < s.len() {
        lemma_digits_monotone(s.drop_last(), k, radix);
        assert(s.drop_last().take(k) == s.take(k));
        if digits_value(s, radix) is Some {
            let hi = digits_value(s.drop_last(), radix)->0;
            assert(hi * radix >= hi) by (nonlinear_arith)
                requires
                    radix >= 1,
                    hi >= 0,
            ;
        }
    } else {
        assert(s.take(k) == s);
    }
}

pub fn digit_of(c: char) -> (r: Option<u64>)
    ensures
        match digit_value(c) {
            Some(d) => r == Some(d as u64) && d < 16,
            None => r is None,
        },
{
    if '0' <= c && c <= '9' {
        Some((c as u64) - ('0' as u64))
    } else if 'a' <= c && c <= 'f' {
        Some((c as u64) - ('a' as u64) + 10)
    } else if 'A' <= c && c <= 'F' {
        Some((c as u64) - ('A' as u64) + 10)
    } else {
        None
    }
}

/// The unsigned number up to `max` that `s` writes in base `radix`.
pub fn unsigned_of(s: &[char], radix: u64, max: u64) -> (r: Option<u64>)
    requires
        2 <= radix <= 16,
    ensures
        match parse_unsigned(s@, radix as nat, max as nat) {
            Some(v) => r == Some(v as u64) && v <= max,
            None => r is None,
        },
{
    let n: usize = s.len();
    let start: usize = if n > 0 && s[0] == '+' {
        1
    } else {
        0
    };
    let ghost ds = strip_plus(s@);
    assert(ds =~= s@.skip(start as int));
    if start == n {
        return None;
    }
    let mut i: usize = start;
    let mut v: u64 = 0;
    assert(ds.take(0) =~= Seq::empty());
    while i < n
        invariant
            n == s@.len(),
            2 <= radix <= 16,
            start <= i <= n,
            ds == strip_plus(s@),
            ds == s@.skip(start as int),
            v <= max,
            digits_value(ds.take(i - start), radix as nat) == Some(v as nat),
        decreases n - i,
    {
        let ghost k = i - start;
        assert(ds.take(k + 1).drop_last() == ds.take(k));
        assert(ds.take(k + 1).last() == s@[i as int]);
        proof {
            lemma_digits_monotone(ds, k + 1, radix as nat);
        }
        match digit_of(s[i]) {
            Some(d) => {
                if d >= radix {
                    return None;
                }
                assert(v * radix <= v * 16) by (nonlinear_arith)
                    requires
                        radix <= 16,
                ;
                let w: u128 = (v as u128) * (radix as u128) + (d as u128);
                if w > max as u128 {
                    return None;
                }
                v = w as u64;
            },
            None => {
                return None;
            },
        }
        i += 1;
    }
    assert(ds.take(n - start) == ds);
    Some(v)
}

/// The decimal number up to 255 that `s` writes.
pub fn parse_u8(s: &[char]) -> (r: Option<u8>)
    ensures
        match parse_unsigned(s@, 10, u8::MAX as nat) {
            Some(v) => r == Some(v as u8) && v <= u8::MAX,
            None => r is None,
        },
{
    match unsigned_of(s, 10, 255) {
        Some(v) => Some(v as u8),
        None => None,
    }
}

/// The decimal number that `s` writes, where a `u64` can hold it.
pub fn parse_u64(s: &[char]) -> (r: Option<u64>)
    ensures
        match parse_unsigned(s@, 10, u64::MAX as nat) {
            Some(v) => r == Some(v as u64) && v <= u64::MAX,
            None => r is None,
        },
{
    unsigned_of(s, 10, u64::MAX)
}

/// Why a text writes no number.
#[derive(Debug, Clone, Copy, PartialEq, Eq, Structural)]
pub enum IntError {
    Empty,
    InvalidDigit,
    TooLarge,
}

/// Why the digits `ds` write no number up to `max`: what the first digit that cannot be
/// taken in has wrong.
pub open spec fn digits_error(ds: Seq<char>, max: nat) -> IntError
    decreases ds.len(),
{
    if ds.len() <= 1 || (digits_value(ds.drop_last(), 10) matches Some(v) && v <= max) {
        if ds.len() > 0 && is_digit(ds.last()) {
            IntError::TooLarge
        } else {
            IntError::InvalidDigit
        }
    } else {
        digits_error(ds.drop_last(), max)
    }
}

/// The decimal number up to `max` that `s` writes, or why it writes none.
pub open spec fn read_unsigned(s: Seq<char>, max: nat) -> Result<nat, IntError> {
    match parse_unsigned(s, 10, max) {
        Some(v) => Ok(v),
        None => if s.len() == 0 {
            Err(IntError::Empty)
        } else {
            Err(digits_error(strip_plus(s), max))
        },
    }
}

impl IntError {
    pub open spec fn text(self) -> Seq<char> {
        match self {
            IntError::Empty => "cannot parse integer from empty string"@,
            IntError::InvalidDigit => "invalid digit found in string"@,
            IntError::TooLarge => "number too large to fit in target type"@,
        }
    }

    pub fn message(&self) -> (r: &'static str)
        ensures
            r@ == self.text(),
    {
        match self {
            IntError::Empty => "cannot parse integer from empty string",
            IntError::InvalidDigit => "invalid digit found in string",
            IntError::TooLarge => "number too large to fit in target type",
        }
    }
}

proof fn lemma_digits_error(ds: Seq<char>, k: int, max: nat)
    requires
        0 < k <= ds.len(),
        !(digits_value(ds.take(k), 10) matches Some(v) && v <= max),
        k == 1 || (digits_value(ds.take(k - 1), 10) matches Some(v) && v <= max),
    ensures
        !(digits_value(ds, 10) matches Some(v) && v <= max),
        digits_error(ds, max) == (if is_digit(ds[k - 1]) {
            IntError::TooLarge
        } else {
            IntError::InvalidDigit
        }),
    decreases ds.len(),
{
    if k == ds.len() {
        assert(ds.take(k) =~= ds);
        assert(ds.take(k - 1) =~= ds.drop_last());
    } else {
        assert(ds.drop_last().take(k) =~= ds.take(k));
        assert(ds.drop_last().take(k - 1) =~= ds.take(k - 1));
        lemma_digits_error(ds.drop_last(), k, max);
        match digits_value(ds.drop_last(), 10) {
            Some(hi) => {
                assert(hi > max);
                assert(hi * 10 >= hi) by (nonlinear_arith);
            },
            None => {},
        }
    }
}

/// The decimal number that `s` writes, or why a `u64` cannot hold one.
pub fn read_u64(s: &[char]) -> (r: Result<u64, IntError>)
    ensures
        match read_unsigned(s@, u64::MAX as nat) {
            Ok(v) => r == Ok::<u64, IntError>(v as u64) && v <= u64::MAX,
            Err(e) => r == Err::<u64, IntError>(e),
        },
{
    match parse_u64(s) {
        Some(v) => {
            return Ok(v);
        },
        None => {},
    }
    let n: usize = s.len();
    if n == 0 {
        return Err(IntError::Empty);
    }
    let start: usize = if s[0] == '+' {
        1
    } else {
        0
    };
    let ghost ds = strip_plus(s@);
    assert(ds =~= s@.skip(start as int));
    if start == n {
        return Err(IntError::InvalidDigit);
    }
    let mut i: usize = start;
    let mut v: u64 = 0;
    assert(ds.take(0) =~= Seq::empty());
    while i < n
        invariant
            n == s@.len(),
            start <= i <= n,
            ds == s@.skip(start as int),
            ds == strip_plus(s@),
            s@.len() > 0,
            parse_unsigned(s@, 10, u64::MAX as nat) is None,
            ds.len() == n - start,
            digits_value(ds.take(i - start), 10) == Some(v as nat),
        decreases n - i,
    {
        let ghost k = i - start;
        assert(ds.take(k + 1).drop_last() =~= ds.take(k));
        assert(ds.take(k + 1).last() == s@[i as int]);
        let c: char = s[i];
        if !('0' <= c && c <= '9') {
            proof {
                lemma_digits_error(ds, k + 1, u64::MAX as nat);
            }
            return Err(IntError::InvalidDigit);
        }
        let w: u128 = (v as u128) * 10 + ((c as u128) - ('0' as u128));
        if w > 0xFFFF_FFFF_FFFF_FFFF {
            proof {
                lemma_digits_error(ds, k + 1, u64::MAX as nat);
            }
            return Err(IntError::TooLarge);
        }
        v = w as u64;
        i += 1;
    }
    assert(ds.take(n - start) =~= ds);
    Err(IntError::InvalidDigit)
}

/// The decimal number that `s` writes, where a `usize` can hold it.
pub fn parse_usize(s: &[char]) -> (r: Option<usize>)
    ensures
        match parse_unsigned(s@, 10, usize::MAX as nat) {
            Some(v) => r == Some(v as usize) && v <= usize::MAX,
            None => r is None,
        },
{
    match unsigned_of(s, 10, usize::MAX as u64) {
        Some(v) => Some(v as usize),
        None => None,
    }
}

/// Appends the decimal form of `n`.
pub fn push_decimal(out: &mut String, n: u64)
    ensures
        final(out)@ == old(out)@ + decimal(n as nat),
    decreases n,
{
    if n >= 10 {
        push_decimal(out, n / 10);
    }
    let d: u8 = (n % 10) as u8;
    out.push((0x30 + d) as char);
    proof {
        if n >= 10 {
            assert(old(out)@ + decimal((n / 10) as nat).push(digit_char((n % 10) as nat)) =~= (old(
                out,
            )@ + decimal((n / 10) as nat)).push(digit_char((n % 10) as nat)));
        }
    }
}

/// The decimal form of `n`.
pub fn decimal_of(n: u64) -> (r: String)
    ensures
        r@ == decimal(n as nat),
{
    let mut out = String::new();
    push_decimal(&mut out, n);
    assert(out@ =~= decimal(n as nat));
    out
}

/// Appends the decimal form of `n`, with a minus sign where it is negative.
pub fn push_decimal_int(out: &mut String, n: i64)
    ensures
        final(out)@ == old(out)@ + decimal_int(n as int),
{
    if n < 0 {
        out.push('-');
        let m: u64 = if n == i64::MIN {
            0x8000_0000_0000_0000
        } else {
            (-n) as u64
        };
        push_decimal(out, m);
        assert(out@ =~= old(out)@ + (seq!['-'] + decimal(m as nat)));
    } else {
        push_decimal(out, n as u64);
    }
}

/// Appends the text `t`.
pub fn push_text(out: &mut String, t: &str)
    ensures
        final(out)@ == old(out)@ + t@,
{
    for c in it: t.chars()
        invariant
            it.seq() == t@,
            out@ == old(out)@ + t@.take(it.index()),
    {
        out.push(c);
    }
    assert(t@.take(t@.len() as int) =~= t@);
}

/// A copy of the text `t`.
pub fn text_of(t: &str) -> (r: String)
    ensures
        r@ == t@,
{
    let mut out = String::new();
    push_text(&mut out, t);
    assert(out@ =~= t@);
    out
}

pub fn lower_char(c: char) -> (r: char)
    ensures
        r == lower(c),
{
    if 'A' <= c && c <= 'Z' {
        ((c as u8) + 32) as char
    } else {
        c
    }
}

/// `s` with its upper case ASCII letters made lower case.
pub fn lower_chars(s: &[char]) -> (r: Vec<char>)
    ensures
        r@ == lowered(s@),
{
    let mut out: Vec<char> = Vec::new();
    for i in 0..s.len()
        invariant
            out@ == lowered(s@.take(i as int)),
    {
        out.push(lower_char(s[i]));
    }
    assert(s@.take(s@.len() as int) =~= s@);
    out
}

/// Whether `s` and `t` differ at most in the case of ASCII letters.
pub fn same_ignoring_case(s: &[char], t: &[char]) -> (b: bool)
    ensures
        b == (lowered(s@) == lowered(t@)),
{
    let a = lower_chars(s);
    let b = lower_chars(t);
    same_chars(a.as_slice(), b.as_slice())
}

/// What is written in decimal reads back as the same number.
pub proof fn decimal_reads_back(n: nat, max: nat)
    requires
        n <= max,
    ensures
        parse_unsigned(decimal(n), 10, max) == Some(n),
{
    lemma_decimal_digits(n);
}

proof fn lemma_decimal_digits(n: nat)
    ensures
        decimal(n).len() > 0,
        decimal(n)[0] != '+',
        forall|i: int| 0 <= i < decimal(n).len() ==> is_digit(#[trigger] decimal(n)[i]),
        digits_value(decimal(n), 10) == Some(n),
    decreases n,
{
    let s = decimal(n);
    if n >= 10 {
        lemma_decimal_digits(n / 10);
        assert(s.drop_last() =~= decimal(n / 10));
    } else {
        assert(s.drop_last() =~= Seq::empty());
        assert(digits_value(Seq::empty(), 10) == Some(0nat));
    }
}

/// The number of bytes that `c` takes in UTF-8.
pub open spec fn utf8_width(c: char) -> nat {
    let u = c as u32;
    if u < 0x80 {
        1
    } else if u < 0x800 {
        2
    } else if u < 0x10000 {
        3
    } else {
        4
    }
}

/// The number of bytes that `s` takes in UTF-8.
pub open spec fn utf8_len(s: Seq<char>) -> nat
    decreases s.len(),
{
    if s.len() == 0 {
        0
    } else {
        utf8_len(s.drop_last()) + utf8_width(s.last())
    }
}

/// The number of characters that make up the last `n` bytes of `s`, where those begin
/// at a character.
pub open spec fn tail_chars(s: Seq<char>, n: nat) -> Option<nat>
    decreases s.len(),
{
    if n == 0 {
        Some(0)
    } else if s.len() == 0 || utf8_width(s.last()) > n {
        None
    } else {
        match tail_chars(s.drop_last(), (n - utf8_width(s.last())) as nat) {
            Some(k) => Some(k + 1),
            None => None,
        }
    }
}

pub fn utf8_width_of(c: char) -> (r: usize)
    ensures
        r == utf8_width(c),
        1 <= r <= 4,
{
    let u: u32 = c as u32;
    if u < 0x80 {
        1
    } else if u < 0x800 {
        2
    } else if u < 0x10000 {
        3
    } else {
        4
    }
}

proof fn lemma_utf8_len_monotone(s: Seq<char>, k: int)
    requires
        0 <= k <= s.len(),
    ensures
        utf8_len(s.take(k)) <= utf8_len(s),
    decreases s.len(),
{
    if k < s.len() {
        lemma_utf8_len_monotone(s.drop_last(), k);
        assert(s.drop_last().take(k) == s.take(k));
    } else {
        assert(s.take(k) == s);
    }
}

/// The number of bytes that `s` takes in UTF-8, or `cap` where it takes more.
pub fn utf8_len_up_to(s: &[char], cap: usize) -> (r: usize)
    ensures
        r == if utf8_len(s@) <= cap {
            utf8_len(s@) as int
        } else {
            cap as int
        },
{
    let n: usize = s.len();
    let mut i: usize = 0;
    let mut total: usize = 0;
    assert(s@.take(0) =~= Seq::empty());
    while i < n
        invariant
            n == s@.len(),
            i <= n,
            total <= cap,
            total == utf8_len(s@.take(i as int)),
        decreases n - i,
    {
        let w: usize = utf8_width_of(s[i]);
        assert(s@.take(i + 1).drop_last() == s@.take(i as int));
        proof {
            lemma_utf8_len_monotone(s@, i + 1);
        }
        if w > cap - total {
            return cap;
        }
        total = total + w;
        i += 1;
    }
    assert(s@.take(n as int) == s@);
    total
}

/// The number of characters that make up the last `n` bytes of `s`, where those begin
/// at a character.
pub fn tail_char_count(s: &[char], n: usize) -> (r: Option<usize>)
    ensures
        match tail_chars(s@, n as nat) {
            Some(k) => r == Some(k as usize) && k <= s@.len(),
            None => r is None,
        },
{
    let mut left: usize = n;
    let mut i: usize = s.len();
    assert(s@.take(i as int) == s@);
    while left > 0
        invariant
            i <= s@.len(),
            tail_chars(s@, n as nat) == match tail_chars(s@.take(i as int), left as nat) {
                Some(k) => Some((k + (s@.len() - i)) as nat),
                None => None,
            },
        decreases left,
    {
        if i == 0 {
            return None;
        }
        let w: usize = utf8_width_of(s[i - 1]);
        if w > left {
            return None;
        }
        assert(s@.take(i as int).drop_last() == s@.take(i - 1));
        left = left - w;
        i = i - 1;
    }
    Some(s.len() - i)
}

/// A text with no white space at either end is its own trimmed form.
pub proof fn lemma_trim_is_identity(s: Seq<char>)
    requires
        s.len() > 0 ==> !is_space(s[0]) && !is_space(s.last()),
    ensures
        trim(s) == s,
{
}

/// The first `c` after a text that holds none stands right behind that text.
pub proof fn lemma_find_behind(a: Seq<char>, c: char, b: Seq<char>)
    requires
        !a.contains(c),
    ensures
        find(a + seq![c] + b, c) == a.len(),
    decreases a.len(),
{
    let s = a + seq![c] + b;
    if a.len() > 0 {
        assert(a[0] != c) by {
            assert(a.contains(a[0]));
        }
        assert(s[0] == a[0]);
        let t = a.drop_first();
        assert(!t.contains(c)) by {
            if t.contains(c) {
                let k = choose|k: int| 0 <= k < t.len() && t[k] == c;
                assert(a[k + 1] == c);
            }
        }
        lemma_find_behind(t, c, b);
        assert(s.drop_first() =~= t + seq![c] + b);
    } else {
        assert(s[0] == c);
    }
}

/// A text is split at the first `c` behind a part that holds none.
pub proof fn lemma_split_behind(a: Seq<char>, c: char, b: Seq<char>)
    requires
        !a.contains(c),
    ensures
        split_once(a + seq![c] + b, c) == Some((a, b)),
{
    lemma_find_behind(a, c, b);
    let s = a + seq![c] + b;
    assert(s.take(a.len() as int) =~= a);
    assert(s.skip(a.len() as int + 1) =~= b);
}

/// What `decimal` writes is digits alone.
pub proof fn lemma_decimal_is_digits(n: nat)
    ensures
        decimal(n).len() > 0,
        forall|i: int| 0 <= i < decimal(n).len() ==> is_digit(#[trigger] decimal(n)[i]),
{
    lemma_decimal_digits(n);
}

/// The texts of `v`.
pub open spec fn strings(v: Seq<String>) -> Seq<Seq<char>> {
    v.map_values(|s: String| s@)
}

/// The lines `ls`, each with a line feed behind it.
pub open spec fn lines_text(ls: Seq<Seq<char>>) -> Seq<char>
    decreases ls.len(),
{
    if ls.len() == 0 {
        Seq::empty()
    } else {
        lines_text(ls.drop_last()) + ls.last() + seq!['\n']
    }
}

/// The lines `ls`, each with a line feed behind it.
pub fn lines_text_of(ls: &Vec<String>) -> (r: String)
    ensures
        r@ == lines_text(strings(ls@)),
{
    let mut out = String::new();
    let ghost all = strings(ls@);
    assert(all.take(0) =~= Seq::empty());
    for i in 0..ls.len()
        invariant
            all == strings(ls@),
            out@ == lines_text(all.take(i as int)),
    {
        push_text(&mut out, ls[i].as_str());
        out.push('\n');
        assert(all.take(i + 1).drop_last() =~= all.take(i as int));
        assert(out@ =~= lines_text(all.take(i + 1)));
    }
    assert(all.take(ls@.len() as int) =~= all);
    out
}

/// The value `v` under the name `key`.
pub open spec fn setting(key: Seq<char>, v: Seq<char>) -> Seq<char> {
    key + seq!['='] + v
}

/// The text `v` under the name `key`.
pub fn setting_of(key: &str, v: &str) -> (r: String)
    ensures
        r@ == setting(key@, v@),
{
    let mut out = text_of(key);
    out.push('=');
    push_text(&mut out, v);
    assert(out@ =~= setting(key@, v@));
    out
}

/// The number `n` under the name `key`.
pub fn number_setting(key: &str, n: u64) -> (r: String)
    ensures
        r@ == setting(key@, decimal(n as nat)),
{
    setting_of(key, decimal_of(n).as_str())
}

/// `b` in words.
pub open spec fn truth(b: bool) -> Seq<char> {
    if b {
        "true"@
    } else {
        "false"@
    }
}

/// `b` in words.
pub fn truth_of(b: bool) -> (r: &'static str)
    ensures
        r@ == truth(b),
{
    if b {
        "true"
    } else {
        "false"
    }
}

/// `a` with `b` behind it.
pub fn two_texts(a: &str, b: &str) -> (r: String)
    ensures
        r@ == a@ + b@,
{
    let mut out = text_of(a);
    push_text(&mut out, b);
    out
}

proof fn lemma_lines_text_first(ls: Seq<Seq<char>>)
    requires
        ls.len() > 0,
    ensures
        lines_text(ls) == ls[0] + seq!['\n'] + lines_text(ls.drop_first()),
    decreases ls.len(),
{
    if ls.len() == 1 {
        assert(ls.drop_last() =~= Seq::empty());
        assert(ls.drop_first() =~= Seq::empty());
        assert(lines_text(ls) =~= ls[0] + seq!['\n'] + lines_text(ls.drop_first()));
    } else {
        lemma_lines_text_first(ls.drop_last());
        assert(ls.drop_last().drop_first() =~= ls.drop_first().drop_last());
        assert(ls.drop_first().last() == ls.last());
        assert(lines_text(ls) =~= ls[0] + seq!['\n'] + lines_text(ls.drop_first()));
    }
}

/// Whether `l` can be a line: it holds no line feed, and no carriage return at its end.
pub open spec fn is_line(l: Seq<char>) -> bool {
    !l.contains('\n') && (l.len() > 0 ==> l.last() != '\r')
}

/// Lines that are written one after the other are read back.
pub proof fn lines_read_back(ls: Seq<Seq<char>>)
    requires
        forall|i: int| 0 <= i < ls.len() ==> is_line(#[trigger] ls[i]),
    ensures
        lines(lines_text(ls)) == ls,
    decreases ls.len(),
{
    let s = lines_text(ls);
    if ls.len() == 0 {
        assert(lines(s) =~= ls);
    } else {
        let rest = ls.drop_first();
        lemma_lines_text_first(ls);
        assert(is_line(ls[0]));
        lemma_find_behind(ls[0], '\n', lines_text(rest));
        assert(s.take(ls[0].len() as int) =~= ls[0]);
        assert(s.skip(ls[0].len() as int + 1) =~= lines_text(rest));
        assert forall|i: int| 0 <= i < rest.len() implies is_line(#[trigger] rest[i]) by {
            assert(rest[i] == ls[i + 1]);
        }
        lines_read_back(rest);
        assert(lines(s) =~= ls);
    }
}

proof fn lemma_trim_start_ends(s: Seq<char>)
    ensures
        trim_start(s).len() <= s.len(),
        trim_start(s).len() > 0 ==> !is_space(trim_start(s)[0]) && trim_start(s).last() == s.last(),
        s.len() > 0 && !is_space(s.last()) ==> trim_start(s).len() > 0,
    decreases s.len(),
{
    if s.len() > 0 && is_space(s[0]) {
        lemma_trim_start_ends(s.drop_first());
        if s.len() > 1 {
            assert(s.drop_first().last() == s.last());
        }
    }
}

proof fn lemma_trim_end_ends(s: Seq<char>)
    ensures
        trim_end(s).len() <= s.len(),
        trim_end(s).len() > 0 ==> !is_space(trim_end(s).last()) && trim_end(s)[0] == s[0],
        s.len() > 0 && !is_space(s[0]) ==> trim_end(s).len() > 0,
        s.len() > 0 && !is_space(s.last()) ==> trim_end(s) == s,
    decreases s.len(),
{
    if s.len() > 0 && is_space(s.last()) {
        lemma_trim_end_ends(s.drop_last());
        if s.len() > 1 {
            assert(s.drop_last()[0] == s[0]);
        }
    }
}

/// What is left of a text without the space around it begins and ends with something else,
/// and where the text itself does, with that.
pub proof fn trimmed_ends(s: Seq<char>)
    ensures
        trim(s).len() > 0 ==> !is_space(trim(s)[0]) && !is_space(trim(s).last()),
        s.len() > 0 && !is_space(s[0]) ==> trim(s).len() > 0 && trim(s)[0] == s[0],
        s.len() > 0 && !is_space(s.last()) ==> trim(s).len() > 0 && trim(s).last() == s.last(),
{
    let t = trim_start(s);
    lemma_trim_start_ends(s);
    lemma_trim_end_ends(t);
}

proof fn lemma_trim_start(s: Seq<char>) -> (a: int)
    ensures
        0 <= a <= s.len(),
        trim_start(s) == s.skip(a),
        forall|i: int| 0 <= i < a ==> is_space(#[trigger] s[i]),
        a < s.len() ==> !is_space(s[a]),
    decreases s.len(),
{
    if s.len() > 0 && is_space(s[0]) {
        let t = s.drop_first();
        let b = lemma_trim_start(t);
        assert forall|i: int| 0 <= i < b + 1 implies is_space(#[trigger] s[i]) by {
            if i > 0 {
                assert(s[i] == t[i - 1]);
            }
        }
        assert(t.skip(b) =~= s.skip(b + 1));
        b + 1
    } else {
        assert(s.skip(0) =~= s);
        0
    }
}

proof fn lemma_trim_end(s: Seq<char>) -> (b: int)
    ensures
        0 <= b <= s.len(),
        trim_end(s) == s.take(b),
        forall|i: int| b <= i < s.len() ==> is_space(#[trigger] s[i]),
        b > 0 ==> !is_space(s[b - 1]),
    decreases s.len(),
{
    if s.len() > 0 && is_space(s.last()) {
        let t = s.drop_last();
        let b = lemma_trim_end(t);
        assert forall|i: int| b <= i < s.len() implies is_space(#[trigger] s[i]) by {
            if i < t.len() {
                assert(s[i] == t[i]);
            }
        }
        assert(t.take(b) =~= s.take(b));
        b
    } else {
        assert(s.take(s.len() as int) =~= s);
        s.len() as int
    }
}

/// What is left of a text without the space around it is a part of it, with nothing but
/// space before and behind; a text of space alone leaves nothing.
pub proof fn trimming_takes_the_space_around(s: Seq<char>)
    ensures
        exists|a: int, b: int|
            0 <= a <= b <= s.len() && trim(s) == #[trigger] s.subrange(a, b) && (forall|i: int|
                0 <= i < a || b <= i < s.len() ==> is_space(#[trigger] s[i])),
        trim(s).len() > 0 ==> !is_space(trim(s)[0]) && !is_space(trim(s).last()),
        trim(s).len() == 0 <==> forall|i: int| 0 <= i < s.len() ==> is_space(#[trigger] s[i]),
{
    let a = lemma_trim_start(s);
    let t = s.skip(a);
    let b = lemma_trim_end(t);
    trimmed_ends(s);
    assert(t.take(b) =~= s.subrange(a, a + b));
    assert forall|i: int| 0 <= i < a || a + b <= i < s.len() implies is_space(#[trigger] s[i]) by {
        if i >= a {
            assert(t[i - a] == s[i]);
        }
    }
    if trim(s).len() == 0 {
        assert(b == 0);
    }
    if b > 0 {
        assert(t[b - 1] == s[a + b - 1]);
    }
}

/// Numbers that are written alike are the same number.
pub proof fn decimals_tell_the_number(a: int, b: int)
    requires
        decimal_int(a) == decimal_int(b),
    ensures
        a == b,
{
    let x = (if a < 0 { -a } else { a }) as nat;
    let y = (if b < 0 { -b } else { b }) as nat;
    lemma_decimal_digits(x);
    lemma_decimal_digits(y);
    if a < 0 {
        assert(decimal_int(a)[0] == '-');
        assert(b < 0) by {
            if b >= 0 {
                assert(is_digit(decimal(y)[0]));
            }
        }
        assert(decimal_int(a).skip(1) =~= decimal(x));
        assert(decimal_int(b).skip(1) =~= decimal(y));
    } else {
        if b < 0 {
            assert(decimal_int(b)[0] == '-');
            assert(is_digit(decimal(x)[0]));
        }
    }
}

/// A number is written without a zero before it, but for zero itself.
pub proof fn decimals_begin_with_no_zero(n: nat)
    ensures
        n > 0 ==> decimal(n)[0] != '0',
        decimal(0) == seq!['0'],
    decreases n,
{
    if n >= 10 {
        decimals_begin_with_no_zero(n / 10);
        lemma_decimal_digits(n / 10);
        assert(decimal(n)[0] == decimal(n / 10)[0]);
    } else {
        assert(decimal(0)[0] == '0');
        assert(decimal(0) =~= seq!['0']);
        if n > 0 {
            assert(decimal(n)[0] as u32 == '0' as u32 + n);
        }
    }
}

/// A text is split at the first place of the character: nothing before it holds it, and the
/// parts with it between them make up the text.
pub proof fn splitting_once_is_at_the_first(s: Seq<char>, c: char)
    ensures
        split_once(s, c) is Some <==> s.contains(c),
        split_once(s, c) matches Some(p) ==> p.0 + seq![c] + p.1 == s && !p.0.contains(c),
{
    lemma_find(s, c);
    let i = find(s, c) as int;
    if i < s.len() {
        let p = split_once(s, c)->0;
        assert(p.0 + seq![c] + p.1 =~= s);
        if p.0.contains(c) {
            let k = choose|k: int| 0 <= k < p.0.len() && p.0[k] == c;
            assert(s[k] == c);
        }
        assert(s.contains(s[i]));
    } else if s.contains(c) {
        let k = choose|k: int| 0 <= k < s.len() && s[k] == c;
        assert(s[k] != c);
    }
}

/// The pieces between the places of a character, with it between each two, make up the
/// text, and none of them holds it.
pub proof fn pieces_make_up_the_text(s: Seq<char>, c: char)
    ensures
        split_on(s, c).len() > 0,
        joined(split_on(s, c), seq![c]) == s,
        forall|i: int| 0 <= i < split_on(s, c).len() ==> !(#[trigger] split_on(s, c)[i]).contains(c),
    decreases s.len(),
{
    lemma_find(s, c);
    let i = find(s, c) as int;
    if i < s.len() {
        let rest = s.skip(i + 1);
        pieces_make_up_the_text(rest, c);
        let parts = split_on(s, c);
        assert(parts.drop_first() =~= split_on(rest, c));
        assert(parts[0] == s.take(i));
        assert(parts[0] + seq![c] + rest =~= s);
        assert forall|j: int| 0 <= j < parts.len() implies !(#[trigger] parts[j]).contains(c) by {
            if j == 0 {
                if parts[0].contains(c) {
                    let k = choose|k: int| 0 <= k < i && parts[0][k] == c;
                    assert(s[k] == c);
                }
            } else {
                assert(parts[j] == split_on(rest, c)[j - 1]);
            }
        }
    } else {
        assert(split_on(s, c) =~= seq![s]);
        if s.contains(c) {
            let k = choose|k: int| 0 <= k < s.len() && s[k] == c;
            assert(s[k] != c);
        }
    }
}

/// A line may end with a carriage return and a line feed just as with a line feed, and the
/// last line needs no ending.
pub proof fn lines_end_either_way(l: Seq<char>, rest: Seq<char>)
    requires
        !l.contains('\n'),
        l.len() == 0 || l.last() != '\r',
    ensures
        lines(l + seq!['\n'] + rest) == seq![l] + lines(rest),
        lines(l + seq!['\r'] + seq!['\n'] + rest) == seq![l] + lines(rest),
        l.len() > 0 ==> lines(l) == seq![l],
        lines(Seq::empty()) == Seq::<Seq<char>>::empty(),
{
    lemma_find_behind(l, '\n', rest);
    let s = l + seq!['\n'] + rest;
    assert(s.take(l.len() as int) =~= l);
    assert(s.skip(l.len() as int + 1) =~= rest);
    let m = l + seq!['\r'];
    assert(!m.contains('\n')) by {
        if m.contains('\n') {
            let k = choose|k: int| 0 <= k < m.len() && m[k] == '\n';
            if k < l.len() {
                assert(l[k] == '\n');
            }
        }
    }
    lemma_find_behind(m, '\n', rest);
    let t = m + seq!['\n'] + rest;
    assert(t.take(m.len() as int) =~= m);
    assert(t.skip(m.len() as int + 1) =~= rest);
    assert(m.drop_last() =~= l);
    lemma_find(l, '\n');
    if l.len() > 0 {
        let i = find(l, '\n') as int;
        if i < l.len() {
            assert(l.contains(l[i]));
        }
    }
}

proof fn lemma_word_len_of(w: Seq<char>, rest: Seq<char>)
    requires
        forall|i: int| 0 <= i < w.len() ==> !is_space(#[trigger] w[i]),
        rest.len() == 0 || is_space(rest[0]),
    ensures
        word_len(w + rest) == w.len(),
    decreases w.len(),
{
    let s = w + rest;
    if w.len() > 0 {
        let v = w.drop_first();
        assert forall|i: int| 0 <= i < v.len() implies !is_space(#[trigger] v[i]) by {
            assert(v[i] == w[i + 1]);
        }
        lemma_word_len_of(v, rest);
        assert(s.drop_first() =~= v + rest);
        assert(s[0] == w[0]);
    } else {
        assert(s =~= rest);
    }
}

/// Space before the words of a text makes no difference, and a word with space behind it is
/// the first of them.
pub proof fn words_are_between_space(space: char, w: Seq<char>, rest: Seq<char>)
    requires
        is_space(space),
        w.len() > 0,
        forall|i: int| 0 <= i < w.len() ==> !is_space(#[trigger] w[i]),
    ensures
        words(seq![space] + rest) == words(rest),
        words(w + seq![space] + rest) == seq![w] + words(rest),
        words(w) == seq![w],
        words(Seq::empty()) == Seq::<Seq<char>>::empty(),
{
    let s = seq![space] + rest;
    assert(s[0] == space);
    assert(s.drop_first() =~= rest);
    assert(words(s) == words(rest));
    let t = w + s;
    assert(t =~= w + seq![space] + rest);
    lemma_word_len_of(w, s);
    assert(t[0] == w[0]);
    assert(t.take(w.len() as int) =~= w);
    assert(t.skip(w.len() as int) =~= s);
    let e = Seq::<char>::empty();
    lemma_word_len_of(w, e);
    assert(w + e =~= w);
    assert(w.take(w.len() as int) =~= w);
    assert(w.skip(w.len() as int) =~= e);
    assert(words(e) =~= Seq::<Seq<char>>::empty());
    assert(words(w) =~= seq![w]);
}

/// The case of ASCII letters aside, a letter is the same as the other form of it, and
/// nothing else is the same as anything but itself.
pub proof fn case_is_all_that_is_lowered(c: char, d: char)
    requires
        lower(c) == lower(d),
    ensures
        c == d || ('A' <= c <= 'Z' && d as u32 == c as u32 + 32) || ('A' <= d <= 'Z' && c as u32
            == d as u32 + 32),
{
}

/// A lower case letter and its upper case form are lowered alike.
pub proof fn both_cases_are_lowered_alike(c: char)
    ensures
        'A' <= c <= 'Z' ==> lower(c) as u32 == c as u32 + 32,
        !('A' <= c <= 'Z') ==> lower(c) == c,
{
}

/// A number in base `radix` grows by a digit behind it, and a digit of a base of sixteen or
/// less is one of `0` to `9`, or a letter from `a` for ten on, in either case.
pub proof fn digits_are_worth_their_place(s: Seq<char>, c: char, radix: nat)
    requires
        2 <= radix <= 16,
    ensures
        '0' <= c <= '9' ==> digit_value(c) == Some((c as u32 - 48) as nat),
        'a' <= c <= 'f' ==> digit_value(c) == Some((c as u32 - 87) as nat),
        'A' <= c <= 'F' ==> digit_value(c) == Some((c as u32 - 55) as nat),
        digit_value(c) is Some ==> ('0' <= c <= '9') || ('a' <= c <= 'f') || ('A' <= c <= 'F'),
        digits_value(s, radix) is Some && digit_value(c) is Some && digit_value(c)->0 < radix
            ==> digits_value(s.push(c), radix) == Some(
            digits_value(s, radix)->0 * radix + digit_value(c)->0,
        ),
        digits_value(s, radix) is None || digit_value(c) is None || digit_value(c)->0 >= radix
            ==> digits_value(s.push(c), radix) is None,
        digits_value(Seq::empty(), radix) == Some(0nat),
{
    assert(s.push(c).drop_last() =~= s);
}

/// A sign before a number makes no difference if it is a plus; a number that is too large,
/// an empty text, a bare sign or anything but digits is none.
pub proof fn unsigned_numbers_are_digits(s: Seq<char>, max: nat)
    ensures
        s.len() > 0 && s[0] != '+' ==> parse_unsigned(seq!['+'] + s, 10, max) == parse_unsigned(
            s,
            10,
            max,
        ),
        parse_unsigned(Seq::empty(), 10, max) is None,
        parse_unsigned(seq!['+'], 10, max) is None,
        parse_unsigned(s, 10, max) matches Some(v) ==> v <= max,
        s.len() > 0 && s[0] != '+' && digits_value(s, 10) is Some && digits_value(s, 10)->0 <= max
            ==> parse_unsigned(s, 10, max) == digits_value(s, 10),
        s.len() > 0 && s[0] != '+' && digits_value(s, 10) is None ==> parse_unsigned(
            s,
            10,
            max,
        ) is None,
{
    if s.len() > 0 {
        assert((seq!['+'] + s).drop_first() =~= s);
    }
    assert(seq!['+'].drop_first() =~= Seq::<char>::empty());
}

proof fn lemma_utf8_len_add(a: Seq<char>, b: Seq<char>)
    ensures
        utf8_len(a + b) == utf8_len(a) + utf8_len(b),
    decreases b.len(),
{
    if b.len() == 0 {
        assert(a + b =~= a);
    } else {
        assert((a + b).drop_last() =~= a + b.drop_last());
        lemma_utf8_len_add(a, b.drop_last());
    }
}

proof fn lemma_utf8_len_is_encoded(s: Seq<char>)
    ensures
        utf8_len(s) == vstd::utf8::encode_utf8(s).len(),
    decreases s.len(),
{
    if s.len() > 0 {
        let t = s.drop_first();
        lemma_utf8_len_is_encoded(t);
        assert(s =~= seq![s[0]] + t);
        lemma_utf8_len_add(seq![s[0]], t);
        assert(seq![s[0]].drop_last() =~= Seq::<char>::empty());
        assert(utf8_len(Seq::<char>::empty()) == 0);
        assert(utf8_len(seq![s[0]]) == utf8_width(s[0]));
        vstd::utf8::char_is_scalar(s[0]);
        assert(vstd::utf8::encode_scalar(s[0] as u32).len() == utf8_width(s[0]));
    }
}

/// The lengths of two texts add up.
pub proof fn lengths_add_up(a: Seq<char>, b: Seq<char>)
    ensures
        utf8_len(a + b) == utf8_len(a) + utf8_len(b),
{
    lemma_utf8_len_add(a, b);
}

/// The length that is counted for a text is that of its UTF-8 form, and the last bytes of it
/// are whole characters exactly where some of its last characters take as many.
pub proof fn lengths_are_those_of_utf8(s: Seq<char>, n: nat)
    ensures
        utf8_len(s) == vstd::utf8::encode_utf8(s).len(),
        tail_chars(s, n) matches Some(k) ==> k <= s.len() && utf8_len(s.skip(s.len() - k)) == n,
        tail_chars(s, n) is None ==> forall|k: int|
            0 <= k <= s.len() ==> utf8_len(#[trigger] s.skip(k)) != n,
{
    lemma_utf8_len_is_encoded(s);
    lemma_tail_chars(s, n);
}

proof fn lemma_tail_chars(s: Seq<char>, n: nat)
    ensures
        tail_chars(s, n) matches Some(k) ==> k <= s.len() && utf8_len(s.skip(s.len() - k)) == n,
        tail_chars(s, n) is None ==> forall|k: int|
            0 <= k <= s.len() ==> utf8_len(#[trigger] s.skip(k)) != n,
    decreases s.len(),
{
    if n == 0 {
        assert(s.skip(s.len() as int) =~= Seq::<char>::empty());
    } else if s.len() == 0 {
        assert forall|k: int| 0 <= k <= s.len() implies utf8_len(#[trigger] s.skip(k)) != n by {
            assert(s.skip(k) =~= Seq::<char>::empty());
        }
    } else {
        let front = s.drop_last();
        let w = utf8_width(s.last());
        if w <= n {
            lemma_tail_chars(front, (n - w) as nat);
        }
        if tail_chars(s, n) is Some {
            let k = tail_chars(s, n)->0;
            assert(s.skip(s.len() - k).drop_last() =~= front.skip(front.len() - (k - 1)));
        } else {
            assert forall|k: int| 0 <= k <= s.len() implies utf8_len(#[trigger] s.skip(k)) != n by {
                if k < s.len() {
                    assert(s.skip(k).drop_last() =~= front.skip(k));
                    assert(s.skip(k).last() == s.last());
                    assert(utf8_len(s.skip(k)) == utf8_len(front.skip(k)) + w);
                } else {
                    assert(s.skip(k) =~= Seq::<char>::empty());
                }
            }
        }
    }
}

/// A text begins with another exactly if the two with some rest are the same, and that rest
/// is what is left without it.
pub proof fn what_follows_a_beginning(s: Seq<char>, prefix: Seq<char>, rest: Seq<char>)
    ensures
        strip_prefix(prefix + rest, prefix) == Some(rest),
        strip_prefix(s, prefix) matches Some(r) ==> s == prefix + r,
{
    assert((prefix + rest).take(prefix.len() as int) =~= prefix);
    assert((prefix + rest).skip(prefix.len() as int) =~= rest);
    if starts_with(s, prefix) {
        assert(s =~= s.take(prefix.len() as int) + s.skip(prefix.len() as int));
    }
}

/// Why a text is no number: it is empty; or it holds something other than digits, with no
/// number before it that is too large already; or its digits write a number that is too
/// large. What is a number reads as such.
pub proof fn what_is_no_number_is_told(s: Seq<char>, max: nat, i: int)
    requires
        s.len() > 0 ==> s[0] != '+',
        max >= 9,
    ensures
        s.len() == 0 ==> read_unsigned(s, max) == Err::<nat, IntError>(IntError::Empty),
        s.len() > 0 && digits_value(s, 10) is Some && digits_value(s, 10)->0 <= max
            ==> read_unsigned(s, max) == Ok::<nat, IntError>(digits_value(s, 10)->0),
        s.len() > 0 && digits_value(s, 10) is Some && digits_value(s, 10)->0 > max
            ==> read_unsigned(s, max) == Err::<nat, IntError>(IntError::TooLarge),
        0 <= i < s.len() && !is_digit(s[i]) && (digits_value(s.take(i), 10) matches Some(v) && v
            <= max) ==> read_unsigned(s, max) == Err::<nat, IntError>(IntError::InvalidDigit),
{
    if s.len() > 0 && digits_value(s, 10) is Some && digits_value(s, 10)->0 > max {
        lemma_all_digits(s, max);
    }
    if 0 <= i < s.len() && !is_digit(s[i]) && (digits_value(s.take(i), 10) matches Some(v) && v
        <= max) {
        lemma_no_digit(s, i);
        lemma_invalid(s, max, i);
    }
}

proof fn lemma_all_digits(s: Seq<char>, max: nat)
    requires
        s.len() > 0,
        digits_value(s, 10) is Some,
        digits_value(s, 10)->0 > max,
        max >= 9,
    ensures
        digits_error(s, max) == IntError::TooLarge,
    decreases s.len(),
{
    let front = s.drop_last();
    assert(is_digit(s.last()));
    if !(s.len() <= 1 || (digits_value(front, 10) matches Some(v) && v <= max)) {
        lemma_all_digits(front, max);
    }
}

proof fn lemma_no_digit(s: Seq<char>, i: int)
    requires
        0 <= i < s.len(),
        !is_digit(s[i]),
    ensures
        digits_value(s, 10) is None,
    decreases s.len(),
{
    if i < s.len() - 1 {
        lemma_no_digit(s.drop_last(), i);
    }
}

proof fn lemma_invalid(s: Seq<char>, max: nat, i: int)
    requires
        0 <= i < s.len(),
        !is_digit(s[i]),
        digits_value(s.take(i), 10) matches Some(v) && v <= max,
    ensures
        digits_error(s, max) == IntError::InvalidDigit,
    decreases s.len(),
{
    let front = s.drop_last();
    if i < s.len() - 1 {
        lemma_no_digit(front, i);
        assert(front.take(i) =~= s.take(i));
        lemma_invalid(front, max, i);
    } else {
        assert(s.take(i) =~= front);
    }
}

/// White space is what Unicode has as such: the controls from the tab to the carriage return,
/// the space, the next line, the no-break space and the spaces of other scripts.
pub proof fn white_space_is_that_of_unicode(c: char)
    ensures
        is_space(c) <==> {
            let u = c as u32;
            u == 9 || u == 10 || u == 11 || u == 12 || u == 13 || u == 32 || u == 133 || u == 160
                || u == 5760 || (8192 <= u && u <= 8202) || u == 8232 || u == 8233 || u == 8239
                || u == 8287 || u == 12288
        },
{
}

} // verus!
