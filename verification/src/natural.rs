//! The order in which names are shown: numbers within them count as numbers, and the case
//! of ASCII letters is ignored.
use vstd::prelude::*;
use vstd::slice::slice_subrange;
use std::cmp::Ordering;
use crate::config;
use crate::config::LayoutConfig;
use crate::text;

verus! {

/// The opposite order.
pub open spec fn opposite(o: Ordering) -> Ordering {
    match o {
        Ordering::Less => Ordering::Greater,
        Ordering::Equal => Ordering::Equal,
        Ordering::Greater => Ordering::Less,
    }
}

/// The order of two texts by their first difference.
pub open spec fn lexical(a: Seq<char>, b: Seq<char>) -> Ordering
    decreases a.len(),
{
    if a.len() == 0 {
        if b.len() == 0 {
            Ordering::Equal
        } else {
            Ordering::Less
        }
    } else if b.len() == 0 {
        Ordering::Greater
    } else if a[0] < b[0] {
        Ordering::Less
    } else if b[0] < a[0] {
        Ordering::Greater
    } else {
        lexical(a.drop_first(), b.drop_first())
    }
}

/// How many characters at the head of `s` are digits, or are none, as `digits` says.
pub open spec fn run_len(s: Seq<char>, digits: bool) -> nat
    decreases s.len(),
{
    if s.len() > 0 && text::is_digit(s[0]) == digits {
        1 + run_len(s.drop_first(), digits)
    } else {
        0
    }
}

/// How long the first run of `s` is.
pub open spec fn first_run(s: Seq<char>) -> int {
    run_len(s, text::is_digit(s[0])) as int
}

/// The runs of digits and of other characters that `s` is made of.
pub open spec fn runs(s: Seq<char>) -> Seq<Seq<char>>
    decreases s.len(),
    via runs_decreases
{
    if s.len() == 0 {
        Seq::empty()
    } else {
        seq![s.take(first_run(s))] + runs(s.skip(first_run(s)))
    }
}

#[via_fn]
proof fn runs_decreases(s: Seq<char>) {
    if s.len() > 0 {
        lemma_run_len(s, text::is_digit(s[0]));
    }
}

proof fn lemma_run_len(s: Seq<char>, digits: bool)
    ensures
        run_len(s, digits) <= s.len(),
        forall|i: int|
            0 <= i < run_len(s, digits) ==> text::is_digit(#[trigger] s[i]) == digits,
        run_len(s, digits) < s.len() ==> text::is_digit(s[run_len(s, digits) as int]) != digits,
        s.len() > 0 && text::is_digit(s[0]) == digits ==> run_len(s, digits) > 0,
    decreases s.len(),
{
    if s.len() > 0 && text::is_digit(s[0]) == digits {
        lemma_run_len(s.drop_first(), digits);
        assert forall|i: int| 0 <= i < run_len(s, digits) implies text::is_digit(#[trigger] s[i])
            == digits by {
            if i > 0 {
                assert(s[i] == s.drop_first()[i - 1]);
            }
        }
    }
}

/// The number that a run writes, where a `u64` can hold it.
pub open spec fn run_number(r: Seq<char>) -> Option<nat> {
    text::parse_unsigned(r, 10, u64::MAX as nat)
}

/// The order of two runs: as numbers where both are, else as texts.
pub open spec fn run_order(a: Seq<char>, b: Seq<char>) -> Ordering {
    match (run_number(a), run_number(b)) {
        (Some(x), Some(y)) => if x < y {
            Ordering::Less
        } else if y < x {
            Ordering::Greater
        } else {
            Ordering::Equal
        },
        _ => lexical(text::lowered(a), text::lowered(b)),
    }
}

/// The order of two lists of runs by their first difference.
pub open spec fn runs_order(a: Seq<Seq<char>>, b: Seq<Seq<char>>) -> Ordering
    decreases a.len(),
{
    if a.len() == 0 {
        if b.len() == 0 {
            Ordering::Equal
        } else {
            Ordering::Less
        }
    } else if b.len() == 0 {
        Ordering::Greater
    } else {
        match run_order(a[0], b[0]) {
            Ordering::Equal => runs_order(a.drop_first(), b.drop_first()),
            o => o,
        }
    }
}

/// The order of two names: by their runs, and where those do not tell them apart, as
/// texts.
pub open spec fn natural_order(a: Seq<char>, b: Seq<char>) -> Ordering {
    match runs_order(runs(a), runs(b)) {
        Ordering::Equal => lexical(text::lowered(a), text::lowered(b)),
        o => o,
    }
}

fn lexical_order(a: &[char], b: &[char]) -> (r: Ordering)
    ensures
        r == lexical(a@, b@),
{
    let mut i: usize = 0;
    let ghost mut k: int = 0;
    assert(a@.skip(0) =~= a@);
    assert(b@.skip(0) =~= b@);
    while i < a.len() && i < b.len()
        invariant
            k == i,
            i <= a@.len(),
            i <= b@.len(),
            lexical(a@, b@) == lexical(a@.skip(k), b@.skip(k)),
        decreases a@.len() - i,
    {
        assert(a@.skip(k)[0] == a@[k]);
        assert(b@.skip(k)[0] == b@[k]);
        assert(a@.skip(k).drop_first() =~= a@.skip(k + 1));
        assert(b@.skip(k).drop_first() =~= b@.skip(k + 1));
        if a[i] < b[i] {
            return Ordering::Less;
        }
        if b[i] < a[i] {
            return Ordering::Greater;
        }
        i += 1;
        proof {
            k = k + 1;
        }
    }
    if i < b.len() {
        Ordering::Less
    } else if i < a.len() {
        Ordering::Greater
    } else {
        Ordering::Equal
    }
}

/// Whether the text `a` is before `b`, or is `b`.
pub open spec fn not_after(a: Seq<char>, b: Seq<char>) -> bool {
    lexical(a, b) != Ordering::Greater
}

/// Whether the text `a` is before `b`, or is `b`.
pub fn is_not_after(a: &str, b: &str) -> (r: bool)
    ensures
        r == not_after(a@, b@),
{
    let x: Vec<char> = text::chars_of(a);
    let y: Vec<char> = text::chars_of(b);
    match lexical_order(x.as_slice(), y.as_slice()) {
        Ordering::Greater => false,
        _ => true,
    }
}

/// Of two texts one is before the other or they are the same, and this puts any three in one
/// line.
pub proof fn texts_are_in_line(a: Seq<char>, b: Seq<char>, c: Seq<char>)
    ensures
        not_after(a, b) || not_after(b, a),
        not_after(a, b) && not_after(b, a) ==> a == b,
        not_after(a, b) && not_after(b, c) ==> not_after(a, c),
{
    lemma_lexical_flips(a, b);
    lemma_lexical_equal(a, b);
    lemma_lexical_composes(a, b, c);
}

fn is_digit_char(c: char) -> (b: bool)
    ensures
        b == text::is_digit(c),
{
    '0' <= c && c <= '9'
}

proof fn lemma_run_len_is(s: Seq<char>, digits: bool, n: int)
    requires
        0 <= n <= s.len(),
        forall|i: int| 0 <= i < n ==> text::is_digit(#[trigger] s[i]) == digits,
        n < s.len() ==> text::is_digit(s[n]) != digits,
    ensures
        run_len(s, digits) == n,
    decreases s.len(),
{
    if n > 0 {
        assert(s[0] == s[0]);
        assert forall|i: int| 0 <= i < n - 1 implies text::is_digit(#[trigger] s.drop_first()[i])
            == digits by {
            assert(s.drop_first()[i] == s[i + 1]);
        }
        lemma_run_len_is(s.drop_first(), digits, n - 1);
    }
}

/// The runs of digits and of other characters that `s` is made of.
fn split_parts<'a>(s: &'a [char]) -> (r: Vec<&'a [char]>)
    ensures
        text::views(r@) == runs(s@),
{
    let mut out: Vec<&'a [char]> = Vec::new();
    let n: usize = s.len();
    let mut i: usize = 0;
    assert(s@.skip(0) =~= s@);
    assert(text::views(out@) =~= Seq::empty());
    assert(text::views(out@) + runs(s@) =~= runs(s@));
    while i < n
        invariant
            n == s@.len(),
            i <= n,
            text::views(out@) + runs(s@.skip(i as int)) == runs(s@),
        decreases n - i,
    {
        let digits: bool = is_digit_char(s[i]);
        let ghost rest = s@.skip(i as int);
        assert(rest[0] == s@[i as int]);
        let mut j: usize = i + 1;
        while j < n && is_digit_char(s[j]) == digits
            invariant
                n == s@.len(),
                i < j <= n,
                forall|k: int| i <= k < j ==> text::is_digit(#[trigger] s@[k]) == digits,
            decreases n - j,
        {
            j += 1;
        }
        proof {
            assert forall|k: int| 0 <= k < j - i implies text::is_digit(#[trigger] rest[k])
                == digits by {
                assert(rest[k] == s@[i + k]);
            }
            if j < n {
                assert(rest[j - i] == s@[j as int]);
            }
            lemma_run_len_is(rest, digits, j - i);
        }
        let ghost before = text::views(out@);
        let piece = slice_subrange(s, i, j);
        out.push(piece);
        proof {
            assert(piece@ =~= rest.take(j - i));
            assert(text::views(out@) =~= before.push(piece@));
            assert(rest.skip(j - i) =~= s@.skip(j as int));
            assert(before + (seq![piece@] + runs(s@.skip(j as int))) =~= text::views(out@) + runs(
                s@.skip(j as int),
            ));
        }
        i = j;
    }
    assert(s@.skip(n as int).len() == 0);
    assert(text::views(out@) + runs(s@.skip(i as int)) =~= text::views(out@));
    out
}

/// The order of two names.
pub fn natural_cmp(a: &str, b: &str) -> (r: Ordering)
    ensures
        r == natural_order(a@, b@),
{
    let ac: Vec<char> = text::chars_of(a);
    let bc: Vec<char> = text::chars_of(b);
    let ap: Vec<&[char]> = split_parts(ac.as_slice());
    let bp: Vec<&[char]> = split_parts(bc.as_slice());
    let al: Vec<char> = text::lower_chars(ac.as_slice());
    let bl: Vec<char> = text::lower_chars(bc.as_slice());
    let ghost av = text::views(ap@);
    let ghost bv = text::views(bp@);
    assert(av.skip(0) =~= av);
    assert(bv.skip(0) =~= bv);
    let mut i: usize = 0;
    let ghost mut k: int = 0;
    while i < ap.len() && i < bp.len()
        invariant
            k == i,
            av == text::views(ap@),
            bv == text::views(bp@),
            av == runs(a@),
            bv == runs(b@),
            i <= ap@.len(),
            i <= bp@.len(),
            runs_order(av, bv) == runs_order(av.skip(k), bv.skip(k)),
        decreases ap@.len() - i,
    {
        assert(av.skip(k)[0] == ap@[k]@);
        assert(bv.skip(k)[0] == bp@[k]@);
        assert(av.skip(k).drop_first() =~= av.skip(k + 1));
        assert(bv.skip(k).drop_first() =~= bv.skip(k + 1));
        let aa = ap[i];
        let bb = bp[i];
        match (text::parse_u64(aa), text::parse_u64(bb)) {
            (Some(x), Some(y)) => {
                if x < y {
                    return Ordering::Less;
                }
                if y < x {
                    return Ordering::Greater;
                }
            },
            _ => {
                let x: Vec<char> = text::lower_chars(aa);
                let y: Vec<char> = text::lower_chars(bb);
                match lexical_order(x.as_slice(), y.as_slice()) {
                    Ordering::Less => {
                        return Ordering::Less;
                    },
                    Ordering::Greater => {
                        return Ordering::Greater;
                    },
                    Ordering::Equal => {},
                }
            },
        }
        i += 1;
        proof {
            k = k + 1;
        }
    }
    if i < bp.len() {
        return Ordering::Less;
    }
    if i < ap.len() {
        return Ordering::Greater;
    }
    lexical_order(al.as_slice(), bl.as_slice())
}

/// Whether the orders of `a` and `b`, of `b` and `c`, and of `a` and `c` agree.
pub open spec fn composes(ab: Ordering, bc: Ordering, ac: Ordering) -> bool {
    &&& ab == Ordering::Equal ==> ac == bc
    &&& bc == Ordering::Equal ==> ac == ab
    &&& ab == bc ==> ac == ab
}

proof fn lemma_lexical_flips(a: Seq<char>, b: Seq<char>)
    ensures
        lexical(b, a) == opposite(lexical(a, b)),
    decreases a.len(),
{
    if a.len() > 0 && b.len() > 0 && a[0] == b[0] {
        lemma_lexical_flips(a.drop_first(), b.drop_first());
    }
}

proof fn lemma_lexical_composes(a: Seq<char>, b: Seq<char>, c: Seq<char>)
    ensures
        composes(lexical(a, b), lexical(b, c), lexical(a, c)),
    decreases a.len(),
{
    if a.len() > 0 && b.len() > 0 && c.len() > 0 && a[0] == b[0] && b[0] == c[0] {
        lemma_lexical_composes(a.drop_first(), b.drop_first(), c.drop_first());
    }
}

proof fn lemma_lexical_equal(a: Seq<char>, b: Seq<char>)
    ensures
        lexical(a, b) == Ordering::Equal <==> a == b,
    decreases a.len(),
{
    if a.len() > 0 && b.len() > 0 {
        lemma_lexical_equal(a.drop_first(), b.drop_first());
        if a[0] == b[0] && a.drop_first() == b.drop_first() {
            assert(a =~= seq![a[0]] + a.drop_first());
            assert(b =~= seq![b[0]] + b.drop_first());
        }
    } else if a.len() == 0 && b.len() == 0 {
        assert(a =~= b);
    }
}

proof fn lemma_runs_flip(a: Seq<Seq<char>>, b: Seq<Seq<char>>)
    ensures
        runs_order(b, a) == opposite(runs_order(a, b)),
    decreases a.len(),
{
    if a.len() > 0 && b.len() > 0 {
        lemma_lexical_flips(text::lowered(a[0]), text::lowered(b[0]));
        lemma_runs_flip(a.drop_first(), b.drop_first());
    }
}

/// Turning two names round turns their order round.
pub proof fn natural_flips(a: Seq<char>, b: Seq<char>)
    ensures
        natural_order(b, a) == opposite(natural_order(a, b)),
{
    lemma_runs_flip(runs(a), runs(b));
    lemma_lexical_flips(text::lowered(a), text::lowered(b));
}

proof fn lemma_lower(c: char)
    ensures
        text::is_digit(text::lower(c)) == text::is_digit(c),
        text::is_digit(c) ==> text::lower(c) == c,
{
}

proof fn lemma_run_len_lowered(s: Seq<char>, digits: bool)
    ensures
        run_len(text::lowered(s), digits) == run_len(s, digits),
    decreases s.len(),
{
    if s.len() > 0 {
        lemma_lower(s[0]);
        lemma_run_len_lowered(s.drop_first(), digits);
        assert(text::lowered(s).drop_first() =~= text::lowered(s.drop_first()));
    }
}

proof fn lemma_not_a_number(s: Seq<char>, i: int)
    requires
        0 <= i < s.len(),
        !text::is_digit(s[i]),
    ensures
        text::digits_value(s, 10) is None,
    decreases s.len(),
{
    if i < s.len() - 1 {
        assert(s.drop_last()[i] == s[i]);
        lemma_not_a_number(s.drop_last(), i);
    }
}

proof fn lemma_is_a_number(s: Seq<char>)
    requires
        forall|i: int| 0 <= i < s.len() ==> text::is_digit(#[trigger] s[i]),
    ensures
        text::digits_value(s, 10) is Some,
    decreases s.len(),
{
    if s.len() > 0 {
        assert forall|i: int| 0 <= i < s.drop_last().len() implies text::is_digit(
            #[trigger] s.drop_last()[i],
        ) by {
            assert(s.drop_last()[i] == s[i]);
        }
        lemma_is_a_number(s.drop_last());
        assert(text::is_digit(s[s.len() - 1]));
    }
}

/// Whether `r` is a run: digits only, or no digits at all.
pub open spec fn is_run(r: Seq<char>) -> bool {
    r.len() > 0 && forall|i: int|
        0 <= i < r.len() ==> text::is_digit(#[trigger] r[i]) == text::is_digit(r[0])
}

/// Whether `r` is a run, and a `u64` can hold the number it writes, if it writes one.
pub open spec fn run_fits(r: Seq<char>) -> bool {
    is_run(r) && (text::is_digit(r[0]) ==> (text::digits_value(r, 10) matches Some(v) && v
        <= u64::MAX))
}

/// Whether a `u64` can hold each number that is part of the name `s`.
pub open spec fn numbers_fit(s: Seq<char>) -> bool {
    forall|i: int| 0 <= i < runs(s).len() ==> run_fits(#[trigger] runs(s)[i])
}

/// A name is made of its runs, one after the other, and each of them is one.
pub proof fn runs_make_up_the_name(s: Seq<char>)
    ensures
        runs(s).flatten() == s,
        forall|i: int| 0 <= i < runs(s).len() ==> is_run(#[trigger] runs(s)[i]),
    decreases s.len(),
{
    if s.len() > 0 {
        let n = first_run(s);
        lemma_run_len(s, text::is_digit(s[0]));
        runs_make_up_the_name(s.skip(n));
        let rest = runs(s.skip(n));
        assert(runs(s).drop_first() =~= rest);
        assert(s =~= s.take(n) + s.skip(n));
        assert forall|i: int| 0 <= i < runs(s).len() implies is_run(#[trigger] runs(s)[i]) by {
            if i == 0 {
                let r = s.take(n);
                assert forall|j: int| 0 <= j < r.len() implies text::is_digit(#[trigger] r[j])
                    == text::is_digit(r[0]) by {
                    assert(r[j] == s[j]);
                }
            } else {
                assert(runs(s)[i] == rest[i - 1]);
            }
        }
    } else {
        assert(runs(s).flatten() =~= s);
    }
}

proof fn lemma_run_number(r: Seq<char>)
    requires
        run_fits(r),
    ensures
        run_number(r) is Some <==> text::is_digit(r[0]),
{
    if text::is_digit(r[0]) {
        assert(r[0] != '+');
    } else {
        let ds = text::strip_plus(r);
        if ds.len() > 0 {
            if r[0] == '+' {
                assert(ds[0] == r[1]);
            }
            lemma_not_a_number(ds, 0);
        }
    }
}

proof fn lemma_digits_against_others(d: Seq<char>, x: Seq<char>)
    requires
        is_run(d),
        is_run(x),
        text::is_digit(d[0]),
        !text::is_digit(x[0]),
    ensures
        lexical(text::lowered(d), text::lowered(x)) == (if '9' < text::lower(x[0]) {
            Ordering::Less
        } else {
            Ordering::Greater
        }),
        lexical(text::lowered(x), text::lowered(d)) == (if '9' < text::lower(x[0]) {
            Ordering::Greater
        } else {
            Ordering::Less
        }),
{
    lemma_lower(x[0]);
    lemma_lower(d[0]);
    assert(text::lowered(d)[0] == d[0]);
    assert(text::lowered(x)[0] == text::lower(x[0]));
}

proof fn lemma_run_composes(a: Seq<char>, b: Seq<char>, c: Seq<char>)
    requires
        run_fits(a),
        run_fits(b),
        run_fits(c),
    ensures
        composes(run_order(a, b), run_order(b, c), run_order(a, c)),
{
    lemma_run_number(a);
    lemma_run_number(b);
    lemma_run_number(c);
    lemma_lexical_composes(text::lowered(a), text::lowered(b), text::lowered(c));
    let da = text::is_digit(a[0]);
    let db = text::is_digit(b[0]);
    let dc = text::is_digit(c[0]);
    if da && !db {
        lemma_digits_against_others(a, b);
    }
    if !da && db {
        lemma_digits_against_others(b, a);
    }
    if db && !dc {
        lemma_digits_against_others(b, c);
    }
    if !db && dc {
        lemma_digits_against_others(c, b);
    }
    if da && !dc {
        lemma_digits_against_others(a, c);
    }
    if !da && dc {
        lemma_digits_against_others(c, a);
    }
}

proof fn lemma_runs_compose(a: Seq<Seq<char>>, b: Seq<Seq<char>>, c: Seq<Seq<char>>)
    requires
        forall|i: int| 0 <= i < a.len() ==> run_fits(#[trigger] a[i]),
        forall|i: int| 0 <= i < b.len() ==> run_fits(#[trigger] b[i]),
        forall|i: int| 0 <= i < c.len() ==> run_fits(#[trigger] c[i]),
    ensures
        composes(runs_order(a, b), runs_order(b, c), runs_order(a, c)),
    decreases a.len(),
{
    if a.len() > 0 && b.len() > 0 && c.len() > 0 {
        lemma_run_composes(a[0], b[0], c[0]);
        assert forall|i: int| 0 <= i < a.drop_first().len() implies run_fits(
            #[trigger] a.drop_first()[i],
        ) by {
            assert(a.drop_first()[i] == a[i + 1]);
        }
        assert forall|i: int| 0 <= i < b.drop_first().len() implies run_fits(
            #[trigger] b.drop_first()[i],
        ) by {
            assert(b.drop_first()[i] == b[i + 1]);
        }
        assert forall|i: int| 0 <= i < c.drop_first().len() implies run_fits(
            #[trigger] c.drop_first()[i],
        ) by {
            assert(c.drop_first()[i] == c[i + 1]);
        }
        lemma_runs_compose(a.drop_first(), b.drop_first(), c.drop_first());
    }
}

/// Where a `u64` can hold every number in them, names are in one line: what comes before a
/// second name comes before all that follow the second.
pub proof fn natural_composes(a: Seq<char>, b: Seq<char>, c: Seq<char>)
    requires
        numbers_fit(a),
        numbers_fit(b),
        numbers_fit(c),
    ensures
        composes(natural_order(a, b), natural_order(b, c), natural_order(a, c)),
{
    lemma_runs_compose(runs(a), runs(b), runs(c));
    lemma_lexical_composes(text::lowered(a), text::lowered(b), text::lowered(c));
}

proof fn lemma_lowered_runs(a: Seq<char>, b: Seq<char>)
    requires
        text::lowered(a) == text::lowered(b),
    ensures
        runs_order(runs(a), runs(b)) == Ordering::Equal,
    decreases a.len(),
{
    assert(text::lowered(a).len() == a.len() && text::lowered(b).len() == b.len());
    if a.len() > 0 {
        assert forall|i: int| 0 <= i < a.len() implies text::lower(#[trigger] a[i]) == text::lower(
            b[i],
        ) && text::is_digit(a[i]) == text::is_digit(b[i]) by {
            assert(text::lowered(a)[i] == text::lower(a[i]));
            assert(text::lowered(b)[i] == text::lower(b[i]));
            lemma_lower(a[i]);
            lemma_lower(b[i]);
        }
        assert(text::is_digit(a[0]) == text::is_digit(b[0]));
        let d = text::is_digit(a[0]);
        let n = first_run(a);
        lemma_run_len(a, d);
        lemma_run_len(b, d);
        lemma_run_len_lowered(a, d);
        lemma_run_len_lowered(b, d);
        assert(n == first_run(b));
        let ra = a.take(n);
        let rb = b.take(n);
        assert(text::lowered(ra) =~= text::lowered(a).take(n));
        assert(text::lowered(rb) =~= text::lowered(b).take(n));
        lemma_lexical_equal(text::lowered(ra), text::lowered(rb));
        if d {
            assert forall|i: int| 0 <= i < n implies ra[i] == rb[i] by {
                assert(text::is_digit(a[i]) && text::is_digit(b[i]));
                lemma_lower(a[i]);
                lemma_lower(b[i]);
            }
            assert(ra =~= rb);
        } else {
            lemma_other_run(ra);
        }
        assert(run_order(ra, rb) == Ordering::Equal);
        assert(text::lowered(a.skip(n)) =~= text::lowered(a).skip(n));
        assert(text::lowered(b.skip(n)) =~= text::lowered(b).skip(n));
        lemma_lowered_runs(a.skip(n), b.skip(n));
        assert(runs(a).drop_first() =~= runs(a.skip(n)));
        assert(runs(b).drop_first() =~= runs(b.skip(n)));
    }
}

proof fn lemma_other_run(r: Seq<char>)
    requires
        r.len() > 0,
        forall|i: int| 0 <= i < r.len() ==> !text::is_digit(#[trigger] r[i]),
    ensures
        run_number(r) is None,
{
    let ds = text::strip_plus(r);
    if ds.len() > 0 {
        if r[0] == '+' {
            assert(ds[0] == r[1]);
        }
        lemma_not_a_number(ds, 0);
    }
}

/// Two names are in no order exactly where they differ at most in the case of ASCII
/// letters.
pub proof fn natural_ties(a: Seq<char>, b: Seq<char>)
    ensures
        natural_order(a, b) == Ordering::Equal <==> text::lowered(a) == text::lowered(b),
{
    lemma_lexical_equal(text::lowered(a), text::lowered(b));
    if text::lowered(a) == text::lowered(b) {
        lemma_lowered_runs(a, b);
    }
}

/// The order of two layouts: by name, then by id.
pub open spec fn layout_order(a: LayoutConfig, b: LayoutConfig) -> Ordering {
    let (an, ai) = config::layout_key(a);
    let (bn, bi) = config::layout_key(b);
    match natural_order(an, bn) {
        Ordering::Equal => natural_order(ai, bi),
        o => o,
    }
}

/// Whether the layout `a` comes before `b`.
#[verifier::opaque]
pub open spec fn precedes(a: LayoutConfig, b: LayoutConfig) -> bool {
    layout_order(a, b) == Ordering::Less
}

/// Whether neither of two layouts comes before the other.
#[verifier::opaque]
pub open spec fn ties(a: LayoutConfig, b: LayoutConfig) -> bool {
    layout_order(a, b) == Ordering::Equal
}

/// Whether a `u64` can hold every number in what a layout is sorted by.
#[verifier::opaque]
pub open spec fn layout_numbers_fit(l: LayoutConfig) -> bool {
    numbers_fit(config::layout_key(l).0) && numbers_fit(config::layout_key(l).1)
}

/// Of two layouts one comes first or they tie, and where a `u64` can hold their numbers
/// this puts any three in one line.
pub proof fn layouts_are_in_line(a: LayoutConfig, b: LayoutConfig, c: LayoutConfig)
    ensures
        precedes(b, a) <==> !precedes(a, b) && !ties(a, b),
        ties(a, b) <==> ties(b, a),
        layout_numbers_fit(a) && layout_numbers_fit(b) && layout_numbers_fit(c) ==> {
            &&& precedes(a, b) && !precedes(c, b) ==> precedes(a, c)
            &&& !precedes(b, a) && precedes(b, c) ==> precedes(a, c)
            &&& ties(a, b) && ties(b, c) ==> ties(a, c)
        },
{
    reveal(precedes);
    reveal(ties);
    reveal(layout_numbers_fit);
    let (an, ai) = config::layout_key(a);
    let (bn, bi) = config::layout_key(b);
    let (cn, ci) = config::layout_key(c);
    natural_flips(an, bn);
    natural_flips(ai, bi);
    natural_flips(bn, cn);
    natural_flips(bi, ci);
    natural_flips(an, cn);
    natural_flips(ai, ci);
    if layout_numbers_fit(a) && layout_numbers_fit(b) && layout_numbers_fit(c) {
        natural_composes(an, bn, cn);
        natural_composes(ai, bi, ci);
    }
}

fn comes_after(a: &LayoutConfig, b: &LayoutConfig) -> (r: bool)
    ensures
        r == precedes(*b, *a),
{
    proof {
        reveal(precedes);
    }
    let (an, ai) = a.sort_key();
    let (bn, bi) = b.sort_key();
    match natural_cmp(bn, an) {
        Ordering::Less => true,
        Ordering::Greater => false,
        Ordering::Equal => match natural_cmp(bi, ai) {
            Ordering::Less => true,
            _ => false,
        },
    }
}

/// Whether `out` is `v` in the order that `from` gives: `out[i]` was `v[from[i]]`.
pub open spec fn rearranged(v: Seq<LayoutConfig>, out: Seq<LayoutConfig>, from: Seq<int>) -> bool {
    &&& out.len() == from.len()
    &&& from.len() == v.len()
    &&& forall|i: int| 0 <= i < from.len() ==> 0 <= #[trigger] from[i] < v.len() && out[i] == v[from[i]]
    &&& forall|i: int, j: int| 0 <= i < j < from.len() ==> from[i] != from[j]
}

/// Whether `out` is in order, and what ties is in the order in which it came.
pub open spec fn in_order(out: Seq<LayoutConfig>, from: Seq<int>) -> bool {
    forall|i: int, j: int|
        0 <= i < j < out.len() ==> precedes(#[trigger] out[i], #[trigger] out[j]) || (ties(
            out[i],
            out[j],
        ) && from[i] < from[j])
}

proof fn lemma_inserted(
    v: Seq<LayoutConfig>,
    sorted: Seq<LayoutConfig>,
    from: Seq<int>,
    p: int,
    x: LayoutConfig,
)
    requires
        0 <= p <= sorted.len() < v.len(),
        rearranged(v.take(sorted.len() as int), sorted, from),
        x == v[sorted.len() as int],
        p > 0 ==> !precedes(x, sorted[p - 1]),
        forall|j: int| p <= j < sorted.len() ==> precedes(x, #[trigger] sorted[j]),
    ensures
        rearranged(
            v.take(sorted.len() as int + 1),
            sorted.insert(p, x),
            from.insert(p, sorted.len() as int),
        ),
        (forall|i: int| 0 <= i < v.len() ==> layout_numbers_fit(#[trigger] v[i])) && in_order(
            sorted,
            from,
        ) ==> in_order(sorted.insert(p, x), from.insert(p, sorted.len() as int)),
{
    let d = sorted.len() as int;
    let out = sorted.insert(p, x);
    let next = from.insert(p, d);
    let prefix = v.take(d);
    let longer = v.take(d + 1);
    assert forall|i: int| 0 <= i < next.len() implies 0 <= #[trigger] next[i] < longer.len()
        && out[i] == longer[next[i]] by {
        if i < p {
            assert(next[i] == from[i]);
            assert(out[i] == prefix[from[i]]);
        } else if i > p {
            assert(next[i] == from[i - 1]);
            assert(out[i] == sorted[i - 1]);
            assert(out[i] == prefix[from[i - 1]]);
        }
    }
    assert forall|i: int, j: int| 0 <= i < j < next.len() implies next[i] != next[j] by {
        let a = if i < p { i } else { i - 1 };
        let b = if j < p { j } else { j - 1 };
        if i != p && j != p {
            assert(from[a] != from[b]);
        } else if i == p {
            assert(from[b] < d);
        } else {
            assert(from[a] < d);
        }
    }
    if (forall|i: int| 0 <= i < v.len() ==> layout_numbers_fit(#[trigger] v[i])) && in_order(
        sorted,
        from,
    ) {
        assert forall|i: int, j: int| 0 <= i < j < out.len() implies precedes(
            #[trigger] out[i],
            #[trigger] out[j],
        ) || (ties(out[i], out[j]) && next[i] < next[j]) by {
            let a = if i < p { i } else { i - 1 };
            let b = if j < p { j } else { j - 1 };
            if i != p && j != p {
                assert(out[i] == sorted[a] && out[j] == sorted[b]);
                assert(next[i] == from[a] && next[j] == from[b]);
            } else if i == p {
                assert(out[j] == sorted[b]);
            } else {
                assert(out[i] == sorted[a]);
                assert(sorted[a] == prefix[from[a]]);
                assert(layout_numbers_fit(v[from[a]]));
                assert(layout_numbers_fit(v[d]));
                let q = sorted[p - 1];
                assert(q == prefix[from[p - 1]]);
                assert(layout_numbers_fit(v[from[p - 1]]));
                layouts_are_in_line(q, x, x);
                layouts_are_in_line(sorted[a], q, x);
                layouts_are_in_line(sorted[a], x, x);
                layouts_are_in_line(q, sorted[a], x);
                if a < p - 1 {
                    assert(precedes(sorted[a], q) || ties(sorted[a], q));
                }
                assert(next[i] == from[a] && from[a] < d);
            }
        }
    }
}

/// The layouts in the order in which they are shown. What ties stays as it came; an order
/// is promised where a `u64` can hold every number in the names and ids.
pub fn sort_layouts(layouts: Vec<LayoutConfig>) -> (r: Vec<LayoutConfig>)
    ensures
        exists|from: Seq<int>| #[trigger]
            rearranged(layouts@, r@, from) && ((forall|i: int|
                0 <= i < layouts@.len() ==> layout_numbers_fit(#[trigger] layouts@[i])) ==> in_order(
                r@,
                from,
            )),
{
    let ghost v = layouts@;
    let ghost fit = forall|i: int| 0 <= i < v.len() ==> layout_numbers_fit(#[trigger] v[i]);
    let mut rest = layouts;
    let mut out: Vec<LayoutConfig> = Vec::new();
    let ghost mut from: Seq<int> = Seq::empty();
    assert(v.skip(0) =~= v);
    assert(v.take(0) =~= Seq::empty());
    while rest.len() > 0
        invariant
            out@.len() + rest@.len() == v.len(),
            rest@ == v.skip(out@.len() as int),
            rearranged(v.take(out@.len() as int), out@, from),
            fit == (forall|i: int| 0 <= i < v.len() ==> layout_numbers_fit(#[trigger] v[i])),
            fit ==> in_order(out@, from),
        decreases rest@.len(),
    {
        let ghost d = out@.len() as int;
        let ghost sorted = out@;
        let x = rest.remove(0);
        assert(x == v[d]);
        assert(rest@ =~= v.skip(d + 1));
        let mut p: usize = out.len();
        while p > 0 && comes_after(&out[p - 1], &x)
            invariant
                p <= out@.len(),
                out@ == sorted,
                forall|j: int| p <= j < out@.len() ==> precedes(x, #[trigger] out@[j]),
            decreases p,
        {
            p -= 1;
        }
        out.insert(p, x);
        proof {
            lemma_inserted(v, sorted, from, p as int, x);
            from = from.insert(p as int, d);
        }
    }
    proof {
        assert(v.take(out@.len() as int) =~= v);
        assert(rearranged(layouts@, out@, from));
    }
    out
}

/// The first difference of two texts decides: the lower character comes first, and a text
/// comes before those that it begins.
pub proof fn the_first_difference_decides(same: Seq<char>, a: Seq<char>, b: Seq<char>)
    ensures
        a.len() > 0 && b.len() > 0 && a[0] < b[0] ==> lexical(same + a, same + b) == Ordering::Less
            && lexical(same + b, same + a) == Ordering::Greater,
        a.len() == 0 && b.len() > 0 ==> lexical(same + a, same + b) == Ordering::Less && lexical(
            same + b,
            same + a,
        ) == Ordering::Greater,
        lexical(same, same) == Ordering::Equal,
    decreases same.len(),
{
    if same.len() > 0 {
        let t = same.drop_first();
        the_first_difference_decides(t, a, b);
        assert((same + a).drop_first() =~= t + a);
        assert((same + b).drop_first() =~= t + b);
    } else {
        assert(same + a =~= a);
        assert(same + b =~= b);
    }
}

proof fn lemma_run_of(r: Seq<char>, rest: Seq<char>, digits: bool)
    requires
        forall|i: int| 0 <= i < r.len() ==> text::is_digit(#[trigger] r[i]) == digits,
        rest.len() == 0 || text::is_digit(rest[0]) != digits,
    ensures
        run_len(r + rest, digits) == r.len(),
    decreases r.len(),
{
    let s = r + rest;
    if r.len() > 0 {
        let t = r.drop_first();
        assert forall|i: int| 0 <= i < t.len() implies text::is_digit(#[trigger] t[i]) == digits by {
            assert(t[i] == r[i + 1]);
        }
        lemma_run_of(t, rest, digits);
        assert(s.drop_first() =~= t + rest);
        assert(s[0] == r[0]);
    } else {
        assert(s =~= rest);
    }
}

proof fn lemma_runs_of(r: Seq<char>, rest: Seq<char>, digits: bool)
    requires
        r.len() > 0,
        forall|i: int| 0 <= i < r.len() ==> text::is_digit(#[trigger] r[i]) == digits,
        rest.len() == 0 || text::is_digit(rest[0]) != digits,
    ensures
        runs(r + rest) == seq![r] + runs(rest),
{
    let s = r + rest;
    lemma_run_of(r, rest, digits);
    assert(s[0] == r[0]);
    assert(s.take(r.len() as int) =~= r);
    assert(s.skip(r.len() as int) =~= rest);
}

proof fn lemma_no_number(r: Seq<char>)
    requires
        r.len() > 0,
        forall|i: int| 0 <= i < r.len() ==> !text::is_digit(#[trigger] r[i]),
    ensures
        run_number(r) is None,
{
    let ds = text::strip_plus(r);
    if ds.len() > 0 {
        assert(ds.last() == r.last());
        assert(!text::is_digit(r[r.len() - 1]));
        assert(text::digits_value(ds, 10) is None);
    }
}

proof fn lemma_number_of(n: nat)
    requires
        n <= u64::MAX,
    ensures
        run_number(text::decimal(n)) == Some(n),
{
    text::decimal_reads_back(n, u64::MAX as nat);
}

/// Numbers within names count as numbers: of two names that begin alike, without a digit, and
/// go on with numbers, the one with the smaller number comes first, whatever follows, and
/// whatever the case of the letters before.
pub proof fn numbers_count_as_numbers(
    a: Seq<char>,
    b: Seq<char>,
    m: nat,
    n: nat,
    s: Seq<char>,
    t: Seq<char>,
)
    requires
        m < n <= u64::MAX,
        text::lowered(a) == text::lowered(b),
        forall|i: int| 0 <= i < a.len() ==> !text::is_digit(#[trigger] a[i]),
        forall|i: int| 0 <= i < b.len() ==> !text::is_digit(#[trigger] b[i]),
        s.len() == 0 || !text::is_digit(s[0]),
        t.len() == 0 || !text::is_digit(t[0]),
    ensures
        natural_order(a + text::decimal(m) + s, b + text::decimal(n) + t) == Ordering::Less,
{
    let (x, y) = (text::decimal(m), text::decimal(n));
    text::lemma_decimal_is_digits(m);
    text::lemma_decimal_is_digits(n);
    lemma_number_of(m);
    lemma_number_of(n);
    lemma_runs_of(x, s, true);
    lemma_runs_of(y, t, true);
    let (p, q) = (x + s, y + t);
    let (ra, rb) = (runs(p), runs(q));
    assert(ra[0] == x && rb[0] == y);
    assert(run_order(x, y) == Ordering::Less);
    assert(runs_order(ra, rb) == Ordering::Less);
    assert(a.len() == text::lowered(a).len() && b.len() == text::lowered(b).len());
    if a.len() > 0 {
        assert(p[0] == x[0] && q[0] == y[0]);
        lemma_runs_of(a, p, false);
        lemma_runs_of(b, q, false);
        lemma_no_number(a);
        lemma_no_number(b);
        the_first_difference_decides(text::lowered(a), Seq::empty(), Seq::empty());
        assert(run_order(a, b) == Ordering::Equal);
        assert((seq![a] + ra).drop_first() =~= ra);
        assert((seq![b] + rb).drop_first() =~= rb);
        assert((seq![a] + ra)[0] == a && (seq![b] + rb)[0] == b);
        assert(runs_order(seq![a] + ra, seq![b] + rb) == Ordering::Less);
        assert(a + x + s =~= a + p);
        assert(b + y + t =~= b + q);
    } else {
        assert(a + x + s =~= p);
        assert(b + y + t =~= q);
    }
}

/// Names without numbers are in the order of their letters, whatever their case.
pub proof fn names_go_by_their_letters(a: Seq<char>, b: Seq<char>)
    requires
        a.len() > 0 && b.len() > 0,
        forall|i: int| 0 <= i < a.len() ==> !text::is_digit(#[trigger] a[i]),
        forall|i: int| 0 <= i < b.len() ==> !text::is_digit(#[trigger] b[i]),
    ensures
        natural_order(a, b) == lexical(text::lowered(a), text::lowered(b)),
{
    let e = Seq::<char>::empty();
    lemma_runs_of(a, e, false);
    lemma_runs_of(b, e, false);
    assert(a + e =~= a);
    assert(b + e =~= b);
    assert(runs(e) =~= Seq::<Seq<char>>::empty());
    assert(runs(a) =~= seq![a]);
    assert(runs(b) =~= seq![b]);
    lemma_no_number(a);
    lemma_no_number(b);
    assert(seq![a].drop_first() =~= Seq::<Seq<char>>::empty());
    assert(seq![b].drop_first() =~= Seq::<Seq<char>>::empty());
    reveal_with_fuel(runs_order, 3);
}

/// Layouts go by their names, and by their ids where the names do not tell them apart; one
/// with a blank name goes by its id.
pub proof fn layouts_go_by_name_then_id(a: LayoutConfig, b: LayoutConfig)
    ensures
        ({
            let x = if text::trim(a.name@).len() > 0 {
                a.name@
            } else {
                a.id@
            };
            let y = if text::trim(b.name@).len() > 0 {
                b.name@
            } else {
                b.id@
            };
            let first = natural_order(x, y);
            let then = natural_order(a.id@, b.id@);
            &&& precedes(a, b) <==> first == Ordering::Less || (first == Ordering::Equal && then
                == Ordering::Less)
            &&& ties(a, b) <==> first == Ordering::Equal && then == Ordering::Equal
        }),
{
    reveal(precedes);
    reveal(ties);
}

/// Sorted layouts are those that were given, each once, and no layout stands before one that
/// precedes it; those that tie stand in the order in which they came.
pub proof fn sorted_layouts_are_in_order(
    v: Seq<LayoutConfig>,
    out: Seq<LayoutConfig>,
    from: Seq<int>,
    i: int,
    j: int,
)
    requires
        rearranged(v, out, from),
        0 <= i < j < out.len(),
    ensures
        out.len() == v.len() && from.len() == v.len(),
        0 <= from[i] < v.len() && 0 <= from[j] < v.len(),
        out[i] == v[from[i]] && out[j] == v[from[j]],
        from[i] != from[j],
        in_order(out, from) ==> !precedes(out[j], out[i]),
        in_order(out, from) && from[j] < from[i] ==> precedes(out[i], out[j]),
{
    layouts_are_in_line(out[i], out[j], out[j]);
}

/// A text is not after another exactly if it is the same, begins it, or has the lower
/// character at the first difference.
pub proof fn lower_texts_come_first(same: Seq<char>, a: Seq<char>, b: Seq<char>)
    ensures
        not_after(same, same),
        a.len() > 0 && b.len() > 0 && a[0] < b[0] ==> not_after(same + a, same + b) && !not_after(
            same + b,
            same + a,
        ),
        b.len() > 0 ==> not_after(same, same + b) && !not_after(same + b, same),
{
    the_first_difference_decides(same, a, b);
    the_first_difference_decides(same, Seq::empty(), b);
    assert(same + Seq::<char>::empty() =~= same);
}

} // verus!
