//! Tables as comma-separated text.
use vstd::prelude::*;
use crate::text;

verus! {

/// Whether a field has to be quoted: it holds a comma, a quote or a line break.
pub open spec fn needs_quotes(s: Seq<char>) -> bool {
    s.contains(',') || s.contains('"') || s.contains('\n') || s.contains('\r')
}

/// `s` with every quote written twice.
pub open spec fn doubled(s: Seq<char>) -> Seq<char>
    decreases s.len(),
{
    if s.len() == 0 {
        Seq::empty()
    } else if s.last() == '"' {
        doubled(s.drop_last()).push('"').push('"')
    } else {
        doubled(s.drop_last()).push(s.last())
    }
}

/// A field as it is written.
pub open spec fn escaped(s: Seq<char>) -> Seq<char> {
    if needs_quotes(s) {
        seq!['"'] + doubled(s) + seq!['"']
    } else {
        s
    }
}

/// The fields as they are written.
pub open spec fn all_escaped(fields: Seq<Seq<char>>) -> Seq<Seq<char>> {
    fields.map_values(|f: Seq<char>| escaped(f))
}

/// A line of fields.
pub open spec fn line(fields: Seq<Seq<char>>) -> Seq<char> {
    text::joined(all_escaped(fields), seq![','])
}

/// A field as it is written.
pub fn csv_escape(s: &str) -> (r: String)
    ensures
        r@ == escaped(s@),
{
    let cs: Vec<char> = text::chars_of(s);
    let n: usize = cs.len();
    let mut needs: bool = false;
    for i in 0..n
        invariant
            n == cs@.len(),
            cs@ == s@,
            needs == needs_quotes(cs@.take(i as int)),
    {
        let c: char = cs[i];
        let ghost head = cs@.take(i as int);
        assert(cs@.take(i + 1) =~= head.push(c));
        proof {
            lemma_contains_push(head, c, ',');
            lemma_contains_push(head, c, '"');
            lemma_contains_push(head, c, '\n');
            lemma_contains_push(head, c, '\r');
        }
        if c == ',' || c == '"' || c == '\n' || c == '\r' {
            needs = true;
        }
    }
    assert(cs@.take(n as int) =~= s@);
    if !needs {
        return text::text_of(s);
    }
    let mut out = String::new();
    out.push('"');
    for i in 0..n
        invariant
            n == cs@.len(),
            out@ =~= seq!['"'] + doubled(cs@.take(i as int)),
    {
        assert(cs@.take(i + 1).drop_last() =~= cs@.take(i as int));
        if cs[i] == '"' {
            out.push('"');
            out.push('"');
        } else {
            out.push(cs[i]);
        }
    }
    out.push('"');
    assert(out@ =~= escaped(s@));
    out
}

proof fn lemma_contains_push(s: Seq<char>, c: char, x: char)
    ensures
        s.push(c).contains(x) == (s.contains(x) || c == x),
{
    if s.contains(x) {
        let i = choose|i: int| 0 <= i < s.len() && s[i] == x;
        assert(s.push(c)[i] == x);
    }
    if c == x {
        assert(s.push(c)[s.len() as int] == x);
    }
}

/// A line of fields.
pub fn csv_line(fields: &[String]) -> (r: String)
    ensures
        r@ == line(text::strings(fields@)),
{
    let mut out = String::new();
    let n: usize = fields.len();
    let ghost all = all_escaped(text::strings(fields@));
    assert(all.skip(0) =~= all);
    assert(out@ + text::joined(all, seq![',']) =~= text::joined(all, seq![',']));
    let mut i: usize = 0;
    while i < n
        invariant
            n == fields@.len(),
            i <= n,
            all == all_escaped(text::strings(fields@)),
            text::joined(all, seq![',']) == out@ + text::joined(all.skip(i as int), seq![',']),
        decreases n - i,
    {
        let ghost before = out@;
        let ghost rest = all.skip(i as int);
        let e = csv_escape(fields[i].as_str());
        assert(rest[0] == e@);
        assert(rest.drop_first() =~= all.skip(i + 1));
        text::push_text(&mut out, e.as_str());
        if i + 1 < n {
            out.push(',');
            assert(out@ + text::joined(all.skip(i + 1), seq![',']) =~= before + (rest[0] + seq![',']
                + text::joined(rest.drop_first(), seq![','])));
        } else {
            assert(all.skip(i + 1).len() == 0);
            assert(out@ + text::joined(all.skip(i + 1), seq![',']) =~= before + rest[0]);
        }
        i += 1;
    }
    assert(all.skip(n as int).len() == 0);
    assert(out@ + text::joined(all.skip(n as int), seq![',']) =~= out@);
    out
}

/// A row of `n` fields with nothing in them.
pub open spec fn blank_row(n: nat) -> Seq<Seq<char>> {
    Seq::new(n, |i: int| Seq::<char>::empty())
}

/// A row of `n` fields with nothing in them.
pub fn blank_row_of(n: usize) -> (r: Vec<String>)
    ensures
        r@.len() == n,
        text::strings(r@) == blank_row(n as nat),
{
    let mut row: Vec<String> = Vec::new();
    for i in 0..n
        invariant
            row@.len() == i,
            forall|j: int| 0 <= j < i ==> (#[trigger] row@[j])@ == Seq::<char>::empty(),
    {
        row.push(String::new());
    }
    assert(text::strings(row@) =~= blank_row(n as nat));
    row
}

/// Puts a field into a row.
pub fn put(row: &mut Vec<String>, c: usize, v: String)
    requires
        c < old(row)@.len(),
    ensures
        final(row)@.len() == old(row)@.len(),
        text::strings(final(row)@) == text::strings(old(row)@).update(c as int, v@),
{
    row.set(c, v);
    assert(text::strings(row@) =~= text::strings(old(row)@).update(c as int, v@));
}

/// What a quoted field holds, read from behind its opening quote, and what is left behind
/// its closing quote.
pub open spec fn unquote(s: Seq<char>) -> (Seq<char>, Seq<char>)
    decreases s.len(),
{
    if s.len() == 0 {
        (Seq::empty(), Seq::empty())
    } else if s[0] != '"' {
        let (t, rest) = unquote(s.skip(1));
        (seq![s[0]] + t, rest)
    } else if s.len() > 1 && s[1] == '"' {
        let (t, rest) = unquote(s.skip(2));
        (seq!['"'] + t, rest)
    } else {
        (Seq::empty(), s.skip(1))
    }
}

/// The first field of a line, and what is left behind it.
pub open spec fn read_field(s: Seq<char>) -> (Seq<char>, Seq<char>) {
    if s.len() > 0 && s[0] == '"' {
        unquote(s.skip(1))
    } else {
        (s.take(text::find(s, ',') as int), s.skip(text::find(s, ',') as int))
    }
}

/// The fields of a line.
pub open spec fn read_line(s: Seq<char>) -> Seq<Seq<char>>
    decreases s.len(),
    via read_line_decreases
{
    let (f, rest) = read_field(s);
    if rest.len() > 0 {
        seq![f] + read_line(rest.skip(1))
    } else {
        seq![f]
    }
}

#[via_fn]
proof fn read_line_decreases(s: Seq<char>) {
    if s.len() > 0 && s[0] == '"' {
        lemma_unquote_len(s.skip(1));
    } else {
        text::lemma_find(s, ',');
    }
}

proof fn lemma_unquote_len(s: Seq<char>)
    ensures
        unquote(s).1.len() <= s.len(),
    decreases s.len(),
{
    if s.len() > 0 {
        if s[0] != '"' {
            lemma_unquote_len(s.skip(1));
        } else if s.len() > 1 && s[1] == '"' {
            lemma_unquote_len(s.skip(2));
        }
    }
}

proof fn lemma_doubled_first(s: Seq<char>)
    requires
        s.len() > 0,
    ensures
        doubled(s) == (if s[0] == '"' {
            seq!['"', '"']
        } else {
            seq![s[0]]
        }) + doubled(s.drop_first()),
    decreases s.len(),
{
    let head = if s[0] == '"' {
        seq!['"', '"']
    } else {
        seq![s[0]]
    };
    if s.len() == 1 {
        assert(s.drop_last() =~= Seq::empty());
        assert(s.drop_first() =~= Seq::empty());
        assert(doubled(s) =~= head + doubled(s.drop_first()));
    } else {
        lemma_doubled_first(s.drop_last());
        assert(s.drop_last().drop_first() =~= s.drop_first().drop_last());
        assert(s.drop_first().last() == s.last());
        assert(doubled(s) =~= head + doubled(s.drop_first()));
    }
}

proof fn lemma_unquote_doubled(t: Seq<char>, rest: Seq<char>)
    requires
        rest.len() > 0 ==> rest[0] != '"',
    ensures
        unquote(doubled(t) + seq!['"'] + rest) == (t, rest),
    decreases t.len(),
{
    let s = doubled(t) + seq!['"'] + rest;
    if t.len() == 0 {
        assert(s =~= seq!['"'] + rest);
        assert(s.skip(1) =~= rest);
        assert(rest.len() > 0 ==> s[1] == rest[0]);
        assert(t =~= Seq::empty());
    } else {
        lemma_doubled_first(t);
        lemma_unquote_doubled(t.drop_first(), rest);
        let s1 = doubled(t.drop_first()) + seq!['"'] + rest;
        assert(t =~= seq![t[0]] + t.drop_first());
        if t[0] == '"' {
            assert(s =~= seq!['"', '"'] + s1);
            assert(s.skip(2) =~= s1);
        } else {
            assert(s =~= seq![t[0]] + s1);
            assert(s.skip(1) =~= s1);
        }
    }
}

proof fn lemma_find_end(t: Seq<char>, rest: Seq<char>)
    requires
        !t.contains(','),
        rest.len() > 0 ==> rest[0] == ',',
    ensures
        text::find(t + rest, ',') == t.len(),
    decreases t.len(),
{
    let s = t + rest;
    if t.len() == 0 {
        assert(s =~= rest);
    } else {
        assert(t[0] != ',');
        assert(s[0] == t[0]);
        assert(s.drop_first() =~= t.drop_first() + rest);
        if t.drop_first().contains(',') {
            let i = choose|i: int| 0 <= i < t.drop_first().len() && t.drop_first()[i] == ',';
            assert(t[i + 1] == ',');
        }
        lemma_find_end(t.drop_first(), rest);
    }
}

/// A field is read back as it was, whatever it holds.
pub proof fn field_reads_back(t: Seq<char>, rest: Seq<char>)
    requires
        rest.len() > 0 ==> rest[0] == ',',
    ensures
        read_field(escaped(t) + rest) == (t, rest),
{
    let s = escaped(t) + rest;
    if needs_quotes(t) {
        assert(s.skip(1) =~= doubled(t) + seq!['"'] + rest);
        assert(s[0] == '"');
        lemma_unquote_doubled(t, rest);
    } else {
        lemma_find_end(t, rest);
        if t.len() > 0 {
            assert(s[0] == t[0]);
            assert(t[0] != '"');
        }
        assert(s.take(t.len() as int) =~= t);
        assert(s.skip(t.len() as int) =~= rest);
    }
}

/// A line is read back as the fields it was made of, whatever they hold.
pub proof fn line_reads_back(fields: Seq<Seq<char>>)
    requires
        fields.len() > 0,
    ensures
        read_line(line(fields)) == fields,
    decreases fields.len(),
{
    let all = all_escaped(fields);
    if fields.len() == 1 {
        assert(line(fields) =~= escaped(fields[0]) + Seq::<char>::empty());
        field_reads_back(fields[0], Seq::empty());
        assert(read_line(line(fields)) =~= fields);
    } else {
        let tail = fields.drop_first();
        assert(all.drop_first() =~= all_escaped(tail));
        let rest = seq![','] + line(tail);
        assert(line(fields) =~= escaped(fields[0]) + rest);
        field_reads_back(fields[0], rest);
        assert(rest.skip(1) =~= line(tail));
        line_reads_back(tail);
        assert(read_line(line(fields)) =~= fields);
    }
}

/// A field without a comma, a quote or a line break is written as it is; any other is
/// written between quotes, with its own quotes doubled.
pub proof fn plain_fields_are_written_as_they_are(s: Seq<char>)
    ensures
        !s.contains(',') && !s.contains('"') && !s.contains('\n') && !s.contains('\r') ==> escaped(s)
            == s,
        s.contains(',') || s.contains('"') || s.contains('\n') || s.contains('\r') ==> escaped(
            s,
        ).len() >= s.len() + 2 && escaped(s)[0] == '"' && escaped(s).last() == '"',
        !s.contains('"') && needs_quotes(s) ==> escaped(s) == seq!['"'] + s + seq!['"'],
{
    lemma_doubled_len(s);
    if !s.contains('"') {
        lemma_not_doubled(s);
    }
}

proof fn lemma_doubled_len(s: Seq<char>)
    ensures
        doubled(s).len() >= s.len(),
    decreases s.len(),
{
    if s.len() > 0 {
        lemma_doubled_len(s.drop_last());
    }
}

proof fn lemma_not_doubled(s: Seq<char>)
    requires
        !s.contains('"'),
    ensures
        doubled(s) == s,
    decreases s.len(),
{
    if s.len() > 0 {
        let front = s.drop_last();
        assert(!front.contains('"')) by {
            if front.contains('"') {
                let i = choose|i: int| 0 <= i < front.len() && front[i] == '"';
                assert(s[i] == '"');
            }
        }
        lemma_not_doubled(front);
        assert(s.contains(s[s.len() - 1]));
        assert(front.push(s.last()) =~= s);
    } else {
        assert(doubled(s) =~= s);
    }
}

/// What digits alone make up is written as it is.
pub proof fn numbers_are_written_as_they_are(n: nat)
    ensures
        escaped(text::decimal(n)) == text::decimal(n),
{
    let s = text::decimal(n);
    text::lemma_decimal_is_digits(n);
    assert forall|c: char| s.contains(c) implies text::is_digit(c) by {
        let i = choose|i: int| 0 <= i < s.len() && s[i] == c;
        assert(text::is_digit(s[i]));
    }
}

} // verus!
