//! Small maps and sets kept in the order in which their keys came in.
use vstd::prelude::*;

verus! {

/// A key that can be compared.
pub trait Key: Copy {
    fn same(&self, other: &Self) -> (b: bool)
        ensures
            b == (*self == *other),
    ;
}

impl Key for u8 {
    fn same(&self, other: &Self) -> (b: bool) {
        *self == *other
    }
}

impl Key for u64 {
    fn same(&self, other: &Self) -> (b: bool) {
        *self == *other
    }
}

impl Key for i64 {
    fn same(&self, other: &Self) -> (b: bool) {
        *self == *other
    }
}

/// The map that a list of entries stands for: of two entries with one key the first
/// counts.
pub open spec fn map_of<K, V>(s: Seq<(K, V)>) -> Map<K, V>
    decreases s.len(),
{
    if s.len() == 0 {
        Map::empty()
    } else {
        map_of(s.drop_first()).insert(s[0].0, s[0].1)
    }
}

/// A map from keys to values, in the order in which the keys came in.
#[derive(Debug, Clone)]
pub struct Table<K, V> {
    pub entries: Vec<(K, V)>,
}

impl<K, V> View for Table<K, V> {
    type V = Map<K, V>;

    open spec fn view(&self) -> Map<K, V> {
        map_of(self.entries@)
    }
}

/// Whether no key comes twice.
pub open spec fn distinct_keys<K, V>(s: Seq<(K, V)>) -> bool {
    forall|i: int, j: int| 0 <= i < j < s.len() ==> (#[trigger] s[i]).0 != (#[trigger] s[j]).0
}

proof fn lemma_map_of_first<K, V>(s: Seq<(K, V)>, i: int)
    requires
        0 <= i < s.len(),
        forall|j: int| 0 <= j < i ==> (#[trigger] s[j]).0 != s[i].0,
    ensures
        map_of(s).contains_key(s[i].0),
        map_of(s)[s[i].0] == s[i].1,
    decreases s.len(),
{
    if i > 0 {
        assert(s.drop_first()[i - 1] == s[i]);
        assert forall|j: int| 0 <= j < i - 1 implies (#[trigger] s.drop_first()[j]).0
            != s.drop_first()[i - 1].0 by {
            assert(s.drop_first()[j] == s[j + 1]);
        }
        lemma_map_of_first(s.drop_first(), i - 1);
        assert(s[0].0 != s[i].0);
    }
}

/// With distinct keys, every entry of the list counts, and nothing else does.
pub proof fn lemma_entries_are_the_map<K, V>(s: Seq<(K, V)>)
    requires
        distinct_keys(s),
    ensures
        forall|i: int|
            0 <= i < s.len() ==> map_of(s).contains_key((#[trigger] s[i]).0) && map_of(s)[s[i].0]
                == s[i].1,
        forall|k: K|
            map_of(s).contains_key(k) ==> exists|i: int|
                0 <= i < s.len() && (#[trigger] s[i]).0 == k,
{
    assert forall|i: int| 0 <= i < s.len() implies map_of(s).contains_key((#[trigger] s[i]).0)
        && map_of(s)[s[i].0] == s[i].1 by {
        lemma_map_of_first(s, i);
    }
    assert forall|k: K| map_of(s).contains_key(k) implies exists|i: int|
        0 <= i < s.len() && (#[trigger] s[i]).0 == k by {
        if forall|j: int| 0 <= j < s.len() ==> (#[trigger] s[j]).0 != k {
            lemma_map_of_absent(s, k);
        }
    }
}

proof fn lemma_map_of_absent<K, V>(s: Seq<(K, V)>, k: K)
    requires
        forall|j: int| 0 <= j < s.len() ==> (#[trigger] s[j]).0 != k,
    ensures
        !map_of(s).contains_key(k),
    decreases s.len(),
{
    if s.len() > 0 {
        assert forall|j: int| 0 <= j < s.drop_first().len() implies (#[trigger] s.drop_first()[j]).0
            != k by {
            assert(s.drop_first()[j] == s[j + 1]);
        }
        lemma_map_of_absent(s.drop_first(), k);
        assert(s[0].0 != k);
    }
}

/// Changing every value of a list of entries changes every value of the map.
pub proof fn lemma_map_of_mapped<K, V>(s: Seq<(K, V)>, f: spec_fn(K, V) -> V)
    ensures
        map_of(s.map_values(|e: (K, V)| (e.0, f(e.0, e.1)))) == map_of(s).map_entries(f),
    decreases s.len(),
{
    let g = |e: (K, V)| (e.0, f(e.0, e.1));
    let t = s.map_values(g);
    if s.len() == 0 {
        assert(map_of(t) =~= map_of(s).map_entries(f));
    } else {
        lemma_map_of_mapped(s.drop_first(), f);
        assert(t.drop_first() =~= s.drop_first().map_values(g));
        assert(map_of(t) =~= map_of(s).map_entries(f));
    }
}

proof fn lemma_map_of_update<K, V>(s: Seq<(K, V)>, i: int, v: V)
    requires
        0 <= i < s.len(),
        forall|j: int| 0 <= j < i ==> (#[trigger] s[j]).0 != s[i].0,
    ensures
        map_of(s.update(i, (s[i].0, v))) == map_of(s).insert(s[i].0, v),
    decreases s.len(),
{
    let t = s.update(i, (s[i].0, v));
    if i == 0 {
        assert(t.drop_first() =~= s.drop_first());
        assert(map_of(t) =~= map_of(s).insert(s[0].0, v));
    } else {
        assert(s.drop_first()[i - 1] == s[i]);
        assert forall|j: int| 0 <= j < i - 1 implies (#[trigger] s.drop_first()[j]).0
            != s.drop_first()[i - 1].0 by {
            assert(s.drop_first()[j] == s[j + 1]);
        }
        lemma_map_of_update(s.drop_first(), i - 1, v);
        assert(t.drop_first() =~= s.drop_first().update(i - 1, (s[i].0, v)));
        assert(s[0].0 != s[i].0);
        assert(map_of(t) =~= map_of(s).insert(s[i].0, v));
    }
}

proof fn lemma_map_of_push<K, V>(s: Seq<(K, V)>, k: K, v: V)
    requires
        forall|j: int| 0 <= j < s.len() ==> (#[trigger] s[j]).0 != k,
    ensures
        map_of(s.push((k, v))) == map_of(s).insert(k, v),
    decreases s.len(),
{
    let t = s.push((k, v));
    if s.len() == 0 {
        assert(t.drop_first() =~= s);
    } else {
        assert forall|j: int| 0 <= j < s.drop_first().len() implies (#[trigger] s.drop_first()[j]).0
            != k by {
            assert(s.drop_first()[j] == s[j + 1]);
        }
        lemma_map_of_push(s.drop_first(), k, v);
        assert(t.drop_first() =~= s.drop_first().push((k, v)));
        assert(s[0].0 != k);
        assert(map_of(t) =~= map_of(s).insert(k, v));
    }
}

/// `s` with the value `v` for `k`: in place of the first entry for it, or behind the others.
pub open spec fn put<K, V>(s: Seq<(K, V)>, k: K, v: V) -> Seq<(K, V)>
    decreases s.len(),
{
    if s.len() == 0 {
        seq![(k, v)]
    } else if s[0].0 == k {
        s.update(0, (k, v))
    } else {
        seq![s[0]] + put(s.drop_first(), k, v)
    }
}

proof fn lemma_put<K, V>(s: Seq<(K, V)>, k: K, v: V, i: int)
    requires
        0 <= i <= s.len(),
        forall|j: int| 0 <= j < i ==> (#[trigger] s[j]).0 != k,
        i < s.len() ==> s[i].0 == k,
    ensures
        put(s, k, v) == (if i < s.len() {
            s.update(i, (k, v))
        } else {
            s.push((k, v))
        }),
    decreases s.len(),
{
    if s.len() == 0 {
        assert(put(s, k, v) =~= s.push((k, v)));
    } else if i > 0 {
        let t = s.drop_first();
        assert forall|j: int| 0 <= j < i - 1 implies (#[trigger] t[j]).0 != k by {
            assert(t[j] == s[j + 1]);
        }
        assert(s[0].0 != k);
        lemma_put(t, k, v, i - 1);
        if i < s.len() {
            assert(put(s, k, v) =~= s.update(i, (k, v)));
        } else {
            assert(put(s, k, v) =~= s.push((k, v)));
        }
    }
}

/// `s` without the entries for `k`.
pub open spec fn without<K, V>(s: Seq<(K, V)>, k: K) -> Seq<(K, V)>
    decreases s.len(),
{
    if s.len() == 0 {
        Seq::empty()
    } else if s.last().0 == k {
        without(s.drop_last(), k)
    } else {
        without(s.drop_last(), k).push(s.last())
    }
}

proof fn lemma_map_of_concat<K, V>(a: Seq<(K, V)>, b: Seq<(K, V)>)
    ensures
        map_of(a + b) == map_of(b).union_prefer_right(map_of(a)),
    decreases a.len(),
{
    if a.len() == 0 {
        assert(a + b =~= b);
        assert(map_of(a + b) =~= map_of(b).union_prefer_right(map_of(a)));
    } else {
        lemma_map_of_concat(a.drop_first(), b);
        assert((a + b).drop_first() =~= a.drop_first() + b);
        assert(map_of(a + b) =~= map_of(b).union_prefer_right(map_of(a)));
    }
}

proof fn lemma_map_of_without<K, V>(s: Seq<(K, V)>, k: K)
    ensures
        map_of(without(s, k)) == map_of(s).remove(k),
    decreases s.len(),
{
    if s.len() == 0 {
        assert(map_of(s) =~= map_of(s).remove(k));
    } else {
        lemma_map_of_without(s.drop_last(), k);
        let last = seq![s.last()];
        assert(s =~= s.drop_last() + last);
        lemma_map_of_concat(s.drop_last(), last);
        assert(last.drop_first() =~= Seq::empty());
        reveal_with_fuel(map_of, 2);
        assert(map_of(last) =~= Map::<K, V>::empty().insert(s.last().0, s.last().1));
        if s.last().0 == k {
            assert(map_of(s).remove(k) =~= map_of(s.drop_last()).remove(k));
        } else {
            lemma_map_of_concat(without(s.drop_last(), k), last);
            assert(without(s, k) =~= without(s.drop_last(), k) + last);
            assert(map_of(without(s, k)) =~= map_of(s).remove(k));
        }
    }
}

impl<K: Key, V> Table<K, V> {
    pub fn new() -> (r: Self)
        ensures
            r@ == Map::<K, V>::empty(),
            r.entries@.len() == 0,
    {
        Table { entries: Vec::new() }
    }

    /// The first entry for `k`, or the number of entries.
    fn position(&self, k: K) -> (r: usize)
        ensures
            r <= self.entries@.len(),
            forall|j: int| 0 <= j < r ==> (#[trigger] self.entries@[j]).0 != k,
            r < self.entries@.len() ==> self.entries@[r as int].0 == k,
            self@.contains_key(k) <==> r < self.entries@.len(),
            r < self.entries@.len() ==> self@[k] == self.entries@[r as int].1,
    {
        let n: usize = self.entries.len();
        let mut i: usize = 0;
        while i < n
            invariant
                n == self.entries@.len(),
                i <= n,
                forall|j: int| 0 <= j < i ==> (#[trigger] self.entries@[j]).0 != k,
            decreases n - i,
        {
            if self.entries[i].0.same(&k) {
                proof {
                    lemma_map_of_first(self.entries@, i as int);
                }
                return i;
            }
            i += 1;
        }
        proof {
            lemma_map_of_absent(self.entries@, k);
        }
        n
    }

    pub fn contains(&self, k: K) -> (b: bool)
        ensures
            b == self@.contains_key(k),
    {
        self.position(k) < self.entries.len()
    }

    pub fn get(&self, k: K) -> (r: Option<&V>)
        ensures
            match r {
                Some(v) => self@.contains_key(k) && self@[k] == *v,
                None => !self@.contains_key(k),
            },
    {
        let i: usize = self.position(k);
        if i < self.entries.len() {
            Some(&self.entries[i].1)
        } else {
            None
        }
    }

    /// Gives `k` the value `v`. A key that is there keeps its place; a new one comes
    /// last.
    pub fn insert(&mut self, k: K, v: V)
        ensures
            final(self)@ == old(self)@.insert(k, v),
            final(self).entries@ == put(old(self).entries@, k, v),
            !old(self)@.contains_key(k) ==> final(self).entries@ == old(self).entries@.push((k, v)),
            distinct_keys(old(self).entries@) ==> distinct_keys(final(self).entries@),
    {
        let i: usize = self.position(k);
        proof {
            lemma_put(self.entries@, k, v, i as int);
        }
        if i < self.entries.len() {
            proof {
                lemma_map_of_update(self.entries@, i as int, v);
            }
            self.entries.set(i, (k, v));
        } else {
            proof {
                lemma_map_of_push(self.entries@, k, v);
            }
            self.entries.push((k, v));
        }
    }

    /// Takes `k` out. The other keys keep their order.
    pub fn remove(&mut self, k: K) -> (r: bool)
        ensures
            r == old(self)@.contains_key(k),
            final(self)@ == old(self)@.remove(k),
            final(self).entries@ == without(old(self).entries@, k),
            distinct_keys(old(self).entries@) ==> distinct_keys(final(self).entries@),
    {
        let had: bool = self.contains(k);
        let ghost before = self.entries@;
        let mut i: usize = 0;
        assert(before.take(0) =~= Seq::empty());
        assert(before =~= self.entries@.take(0) + before.skip(0));
        let ghost mut seen: int = 0;
        while i < self.entries.len()
            invariant
                i <= self.entries@.len(),
                0 <= seen <= before.len(),
                self.entries@ == without(before.take(seen), k) + before.skip(seen),
                i == without(before.take(seen), k).len(),
            decreases self.entries@.len() - i,
        {
            assert(before.take(seen + 1).drop_last() =~= before.take(seen));
            assert(self.entries@[i as int] == before.skip(seen)[0]);
            assert(before.take(seen + 1).last() == before[seen]);
            if self.entries[i].0.same(&k) {
                self.entries.remove(i);
                assert(self.entries@ =~= without(before.take(seen + 1), k) + before.skip(seen + 1));
            } else {
                i += 1;
                assert(self.entries@ =~= without(before.take(seen + 1), k) + before.skip(seen + 1));
            }
            proof {
                seen = seen + 1;
            }
        }
        proof {
            assert(before.skip(seen).len() == 0);
            assert(before.take(seen) =~= before);
            assert(self.entries@ =~= without(before, k));
            lemma_map_of_without(before, k);
            lemma_without_distinct(before, k);
        }
        had
    }

    /// Takes `k` out and hands over its value.
    pub fn take(&mut self, k: K) -> (r: Option<V>)
        requires
            distinct_keys(old(self).entries@),
        ensures
            r == (if old(self)@.contains_key(k) {
                Some(old(self)@[k])
            } else {
                None
            }),
            final(self)@ == old(self)@.remove(k),
            final(self).entries@ == without(old(self).entries@, k),
            distinct_keys(final(self).entries@),
    {
        let i: usize = self.position(k);
        if i < self.entries.len() {
            let ghost before = self.entries@;
            let e = self.entries.remove(i);
            proof {
                lemma_without_one(before, i as int);
                lemma_map_of_without(before, k);
                lemma_without_distinct(before, k);
                assert(self.entries@ =~= before.remove(i as int));
            }
            Some(e.1)
        } else {
            assert(self@ =~= self@.remove(k));
            proof {
                lemma_without_absent(self.entries@, k);
            }
            None
        }
    }

    /// Takes every key out.
    pub fn clear(&mut self)
        ensures
            final(self)@ == Map::<K, V>::empty(),
            final(self).entries@.len() == 0,
    {
        self.entries.clear();
    }
}

proof fn lemma_without_absent<K, V>(s: Seq<(K, V)>, k: K)
    requires
        forall|j: int| 0 <= j < s.len() ==> (#[trigger] s[j]).0 != k,
    ensures
        without(s, k) == s,
    decreases s.len(),
{
    if s.len() > 0 {
        assert forall|j: int| 0 <= j < s.drop_last().len() implies (#[trigger] s.drop_last()[j]).0
            != k by {
            assert(s.drop_last()[j] == s[j]);
        }
        lemma_without_absent(s.drop_last(), k);
        assert(s[s.len() - 1].0 != k);
        assert(without(s, k) =~= s);
    } else {
        assert(without(s, k) =~= s);
    }
}

proof fn lemma_without_one<K, V>(s: Seq<(K, V)>, i: int)
    requires
        0 <= i < s.len(),
        distinct_keys(s),
    ensures
        without(s, s[i].0) == s.remove(i),
    decreases s.len(),
{
    let k = s[i].0;
    let front = s.drop_last();
    if i == s.len() - 1 {
        assert forall|j: int| 0 <= j < front.len() implies (#[trigger] front[j]).0 != k by {
            assert(s[j].0 != s[i].0);
        }
        lemma_without_absent(front, k);
        assert(s.remove(i) =~= front);
    } else {
        assert(distinct_keys(front)) by {
            assert forall|a: int, b: int| 0 <= a < b < front.len() implies (#[trigger] front[a]).0
                != (#[trigger] front[b]).0 by {
                assert(s[a].0 != s[b].0);
            }
        }
        lemma_without_one(front, i);
        assert(front[i] == s[i]);
        assert(s[i].0 != s[s.len() - 1].0);
        assert(s.remove(i) =~= front.remove(i).push(s.last()));
    }
}

/// Putting a value into a list of entries puts it into the map, and no key comes twice that
/// did not before.
pub proof fn lemma_map_of_put<K, V>(s: Seq<(K, V)>, k: K, v: V)
    ensures
        map_of(put(s, k, v)) == map_of(s).insert(k, v),
        distinct_keys(s) ==> distinct_keys(put(s, k, v)),
{
    let i = first_with(s, k, 0);
    lemma_put(s, k, v, i);
    if i < s.len() {
        lemma_map_of_update(s, i, v);
    } else {
        lemma_map_of_push(s, k, v);
    }
}

/// The place of the first entry for `k` from `from` on, or the number of entries.
proof fn first_with<K, V>(s: Seq<(K, V)>, k: K, from: int) -> (i: int)
    requires
        0 <= from <= s.len(),
        forall|j: int| 0 <= j < from ==> (#[trigger] s[j]).0 != k,
    ensures
        0 <= i <= s.len(),
        forall|j: int| 0 <= j < i ==> (#[trigger] s[j]).0 != k,
        i < s.len() ==> s[i].0 == k,
    decreases s.len() - from,
{
    if from == s.len() || s[from].0 == k {
        from
    } else {
        first_with(s, k, from + 1)
    }
}

/// What is left after a key is taken out is a part of what was there.
proof fn lemma_without_distinct<K, V>(s: Seq<(K, V)>, k: K)
    ensures
        forall|i: int|
            0 <= i < without(s, k).len() ==> s.contains(#[trigger] without(s, k)[i]) && without(
                s,
                k,
            )[i].0 != k,
        distinct_keys(s) ==> distinct_keys(without(s, k)),
    decreases s.len(),
{
    if s.len() > 0 {
        lemma_without_distinct(s.drop_last(), k);
        let w0 = without(s.drop_last(), k);
        let w = without(s, k);
        assert forall|i: int| 0 <= i < w.len() implies s.contains(#[trigger] w[i]) && w[i].0 != k by {
            if i < w0.len() {
                assert(w[i] == w0[i]);
                let j = choose|j: int| 0 <= j < s.drop_last().len() && s.drop_last()[j] == w0[i];
                assert(s[j] == w[i]);
            } else {
                assert(w[i] == s[s.len() - 1]);
            }
        }
        if distinct_keys(s) {
            assert(distinct_keys(s.drop_last())) by {
                assert forall|i: int, j: int| 0 <= i < j < s.drop_last().len() implies (
                #[trigger] s.drop_last()[i]).0 != (#[trigger] s.drop_last()[j]).0 by {
                    assert(s[i].0 != s[j].0);
                }
            }
            assert forall|i: int, j: int| 0 <= i < j < w.len() implies (#[trigger] w[i]).0 != (
            #[trigger] w[j]).0 by {
                if j == w0.len() {
                    assert(w0[i] == w[i]);
                    let m = choose|m: int| 0 <= m < s.drop_last().len() && s.drop_last()[m] == w0[i];
                    assert(s[m] == w[i]);
                    assert(s[m].0 != s[s.len() - 1].0);
                } else {
                    assert(w0[i].0 != w0[j].0);
                }
            }
        }
    }
}

/// A set of keys, in the order in which they came in.
#[derive(Debug, Clone)]
pub struct KeySet<K> {
    pub items: Vec<K>,
}

impl<K> View for KeySet<K> {
    type V = Set<K>;

    open spec fn view(&self) -> Set<K> {
        self.items@.to_set()
    }
}

impl<K: Key> KeySet<K> {
    /// No key is kept twice.
    pub open spec fn wf(self) -> bool {
        self.items@.no_duplicates()
    }

    pub fn new() -> (r: Self)
        ensures
            r@ == Set::<K>::empty(),
            r.items@.len() == 0,
            r.wf(),
    {
        let r: KeySet<K> = KeySet { items: Vec::new() };
        assert(r@ =~= Set::<K>::empty());
        r
    }

    pub fn contains(&self, k: K) -> (b: bool)
        ensures
            b == self@.contains(k),
    {
        let n: usize = self.items.len();
        let mut i: usize = 0;
        while i < n
            invariant
                n == self.items@.len(),
                i <= n,
                forall|j: int| 0 <= j < i ==> self.items@[j] != k,
            decreases n - i,
        {
            if self.items[i].same(&k) {
                assert(self.items@[i as int] == k);
                return true;
            }
            i += 1;
        }
        false
    }

    pub fn is_empty(&self) -> (b: bool)
        ensures
            b == (self@ == Set::<K>::empty()),
    {
        if self.items.len() == 0 {
            assert(self@ =~= Set::<K>::empty());
            true
        } else {
            assert(self@.contains(self.items@[0]));
            false
        }
    }

    /// Puts `k` in, and says whether it was new.
    pub fn insert(&mut self, k: K) -> (r: bool)
        ensures
            r == !old(self)@.contains(k),
            final(self)@ == old(self)@.insert(k),
            old(self).wf() ==> final(self).wf(),
    {
        if self.contains(k) {
            assert(self@ =~= self@.insert(k));
            return false;
        }
        let ghost before = self.items@;
        self.items.push(k);
        assert(self@ =~= before.to_set().insert(k)) by {
            assert(self.items@ == before.push(k));
            assert forall|x: K| self@.contains(x) == before.to_set().insert(k).contains(x) by {
                if before.contains(x) {
                    let j = choose|j: int| 0 <= j < before.len() && before[j] == x;
                    assert(self.items@[j] == x);
                }
                if x == k {
                    assert(self.items@[before.len() as int] == x);
                }
            }
        }
        true
    }

    /// Takes `k` out, and says whether it was in.
    pub fn remove(&mut self, k: K) -> (r: bool)
        ensures
            r == old(self)@.contains(k),
            final(self)@ == old(self)@.remove(k),
            old(self).wf() ==> final(self).wf(),
    {
        let had: bool = self.contains(k);
        let ghost before = self.items@;
        let n: usize = self.items.len();
        let mut kept: Vec<K> = Vec::new();
        let mut i: usize = 0;
        while i < n
            invariant
                n == self.items@.len(),
                self.items@ == before,
                i <= n,
                forall|j: int|
                    0 <= j < kept@.len() ==> (#[trigger] kept@[j]) != k && before.take(
                        i as int,
                    ).contains(kept@[j]),
                before.no_duplicates() ==> kept@.no_duplicates(),
                forall|j: int| 0 <= j < i && before[j] != k ==> kept@.contains(#[trigger] before[j]),
            decreases n - i,
        {
            let ghost prev = kept@;
            let ghost head = before.take(i as int);
            let ghost longer = before.take(i + 1);
            proof {
                assert forall|x: K| head.contains(x) implies longer.contains(x) by {
                    let m = choose|m: int| 0 <= m < head.len() && head[m] == x;
                    assert(longer[m] == x);
                }
                assert(longer[i as int] == before[i as int]);
                if before.no_duplicates() && prev.contains(before[i as int]) {
                    assert(head.contains(before[i as int]));
                    let m = choose|m: int| 0 <= m < head.len() && head[m] == before[i as int];
                    assert(before[m] == before[i as int]);
                }
            }
            if !self.items[i].same(&k) {
                kept.push(self.items[i]);
                assert forall|j: int| 0 <= j < i + 1 && before[j] != k implies kept@.contains(
                    #[trigger] before[j],
                ) by {
                    if j < i {
                        let m = choose|m: int| 0 <= m < prev.len() && prev[m] == before[j];
                        assert(kept@[m] == before[j]);
                    } else {
                        assert(kept@[prev.len() as int] == before[j]);
                    }
                }
            }
            i += 1;
        }
        assert(before.take(n as int) =~= before);
        self.items = kept;
        assert(self@ =~= before.to_set().remove(k));
        had
    }

    /// A set with the same keys.
    pub fn copied(&self) -> (r: Self)
        ensures
            r.items@ == self.items@,
            r@ == self@,
    {
        let mut items: Vec<K> = Vec::new();
        for i in 0..self.items.len()
            invariant
                items@ == self.items@.take(i as int),
        {
            items.push(self.items[i]);
        }
        assert(items@ =~= self.items@);
        KeySet { items }
    }

    /// Takes everything out.
    pub fn clear(&mut self)
        ensures
            final(self)@ == Set::<K>::empty(),
            final(self).items@.len() == 0,
    {
        self.items.clear();
        assert(self@ =~= Set::<K>::empty());
    }
}

} // verus!
