//! Sorting numbers.
use vstd::prelude::*;

verus! {

/// A value with a place on the number line.
pub trait Rank: Copy {
    spec fn rank(self) -> int;

    fn before(&self, other: &Self) -> (b: bool)
        ensures
            b == (self.rank() < other.rank()),
    ;
}

impl Rank for u64 {
    open spec fn rank(self) -> int {
        self as int
    }

    fn before(&self, other: &Self) -> (b: bool) {
        *self < *other
    }
}

impl Rank for i64 {
    open spec fn rank(self) -> int {
        self as int
    }

    fn before(&self, other: &Self) -> (b: bool) {
        *self < *other
    }
}

/// Whether no value of `s` is below one that stands before it.
pub open spec fn ascending<T: Rank>(s: Seq<T>) -> bool {
    forall|i: int, j: int| 0 <= i < j < s.len() ==> (#[trigger] s[i]).rank() <= (#[trigger] s[j]).rank()
}

/// The values of `v` from the lowest up.
pub fn sort<T: Rank>(v: &Vec<T>) -> (r: Vec<T>)
    ensures
        ascending(r@),
        r@.to_multiset() == v@.to_multiset(),
        r@.len() == v@.len(),
{
    let mut out: Vec<T> = Vec::new();
    let n: usize = v.len();
    assert(v@.take(0) =~= Seq::empty());
    assert(out@ =~= Seq::empty());
    let mut i: usize = 0;
    while i < n
        invariant
            n == v@.len(),
            i <= n,
            out@.len() == i,
            ascending(out@),
            out@.to_multiset() == v@.take(i as int).to_multiset(),
        decreases n - i,
    {
        let x: T = v[i];
        let ghost before = out@;
        let mut p: usize = out.len();
        while p > 0 && x.before(&out[p - 1])
            invariant
                p <= out@.len(),
                out@ == before,
                forall|j: int| p <= j < out@.len() ==> x.rank() < (#[trigger] out@[j]).rank(),
            decreases p,
        {
            p -= 1;
        }
        out.insert(p, x);
        proof {
            assert forall|a: int, b: int| 0 <= a < b < out@.len() implies (#[trigger] out@[a]).rank()
                <= (#[trigger] out@[b]).rank() by {
                let a0 = if a < p { a } else { a - 1 };
                let b0 = if b < p { b } else { b - 1 };
                if a != p && b != p {
                    assert(out@[a] == before[a0] && out@[b] == before[b0]);
                } else if a == p {
                    assert(out@[b] == before[b0]);
                } else {
                    assert(out@[a] == before[a0]);
                    if a0 < p - 1 {
                        assert(before[a0].rank() <= before[p - 1].rank());
                    }
                }
            }
            before.to_multiset_ensures();
            v@.take(i as int).to_multiset_ensures();
            assert(v@.take(i + 1) =~= v@.take(i as int).push(x));
            vstd::seq_lib::to_multiset_insert(before, p as int, x);
            assert(out@ =~= before.insert(p as int, x));
        }
        i += 1;
    }
    assert(v@.take(n as int) =~= v@);
    out
}

} // verus!
