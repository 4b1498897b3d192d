//! A set of key codes, one bit for each.
use vstd::prelude::*;

verus! {

#[derive(Debug, Clone, Copy, PartialEq, Eq, Structural)]
pub struct ActiveMask {
    pub w0: u64,
    pub w1: u64,
    pub w2: u64,
    pub w3: u64,
}

/// Whether the bit `b` of `w` is set.
pub open spec fn bit(w: u64, b: u64) -> bool {
    (w >> b) & 1 == 1
}

impl ActiveMask {
    /// The word that has the bit of `code`.
    pub open spec fn word(self, code: u8) -> u64 {
        if code < 64 {
            self.w0
        } else if code < 128 {
            self.w1
        } else if code < 192 {
            self.w2
        } else {
            self.w3
        }
    }

    /// Whether `code` is in the set.
    pub open spec fn holds(self, code: u8) -> bool {
        bit(self.word(code), (code % 64) as u64)
    }

    /// The codes from 0 up to `n` that are in the set, in order.
    pub open spec fn codes_below(self, n: int) -> Seq<u8>
        decreases n,
    {
        if n <= 0 {
            Seq::empty()
        } else if self.holds((n - 1) as u8) {
            self.codes_below(n - 1).push((n - 1) as u8)
        } else {
            self.codes_below(n - 1)
        }
    }

    /// The empty set.
    pub fn new() -> (r: Self)
        ensures
            forall|c: u8| !#[trigger] r.holds(c),
    {
        let r = ActiveMask { w0: 0, w1: 0, w2: 0, w3: 0 };
        proof {
            lemma_no_bits();
        }
        r
    }

    /// Takes every code out.
    pub fn clear_all(&mut self)
        ensures
            forall|c: u8| !#[trigger] final(self).holds(c),
    {
        self.w0 = 0;
        self.w1 = 0;
        self.w2 = 0;
        self.w3 = 0;
        proof {
            lemma_no_bits();
        }
    }

    /// Puts `code` in or takes it out. The other codes stay.
    pub fn set(&mut self, code: u8, down: bool)
        ensures
            forall|c: u8| #[trigger]
                final(self).holds(c) == (if c == code {
                    down
                } else {
                    old(self).holds(c)
                }),
    {
        let b: u64 = (code % 64) as u64;
        let idx: u8 = code / 64;
        let ghost before = *self;
        let w: u64 = if idx == 0 {
            self.w0
        } else if idx == 1 {
            self.w1
        } else if idx == 2 {
            self.w2
        } else {
            self.w3
        };
        let v: u64 = if down {
            w | (1u64 << b)
        } else {
            w & !(1u64 << b)
        };
        if idx == 0 {
            self.w0 = v;
        } else if idx == 1 {
            self.w1 = v;
        } else if idx == 2 {
            self.w2 = v;
        } else {
            self.w3 = v;
        }
        proof {
            assert forall|c: u8| #[trigger]
                self.holds(c) == (if c == code {
                    down
                } else {
                    before.holds(c)
                }) by {
                let x: u64 = (c % 64) as u64;
                if c / 64 == code / 64 {
                    if down {
                        assert(((w | (1u64 << b)) >> x) & 1 == 1 <==> (x == b || (w >> x) & 1 == 1))
                            by (bit_vector)
                            requires
                                b < 64,
                                x < 64,
                        ;
                    } else {
                        assert(((w & !(1u64 << b)) >> x) & 1 == 1 <==> (x != b && (w >> x) & 1 == 1))
                            by (bit_vector)
                            requires
                                b < 64,
                                x < 64,
                        ;
                    }
                }
            }
        }
    }

    /// The four words: the bit `b` of the word `i` stands for the code `64 * i + b`.
    pub fn words(&self) -> (r: [u64; 4])
        ensures
            r@ == seq![self.w0, self.w1, self.w2, self.w3],
    {
        let r: [u64; 4] = [self.w0, self.w1, self.w2, self.w3];
        assert(r@ =~= seq![self.w0, self.w1, self.w2, self.w3]);
        r
    }

    /// Whether `code` is in the set.
    pub fn contains(&self, code: u8) -> (r: bool)
        ensures
            r == self.holds(code),
    {
        let ws: [u64; 4] = self.words();
        let w: u64 = ws[(code / 64) as usize];
        let b: u64 = (code % 64) as u64;
        (w >> b) & 1 == 1
    }

    /// The codes in the set, in order.
    pub fn codes(&self) -> (r: Vec<u8>)
        ensures
            r@ == self.codes_below(256),
    {
        let mut out: Vec<u8> = Vec::new();
        for i in 0..256usize
            invariant
                out@ == self.codes_below(i as int),
        {
            if self.contains(i as u8) {
                out.push(i as u8);
            }
        }
        out
    }
}

proof fn lemma_no_bits()
    ensures
        forall|b: u64| #![trigger bit(0, b)] b < 64 ==> !bit(0, b),
{
    assert forall|b: u64| #![trigger bit(0, b)] b < 64 implies !bit(0, b) by {
        assert((0u64 >> b) & 1 == 0) by (bit_vector)
            requires
                b < 64,
        ;
    }
}

/// The codes of a set are those that it holds, each once and in order.
pub proof fn codes_are_what_is_held(m: ActiveMask, n: int)
    requires
        0 <= n <= 256,
    ensures
        forall|c: u8| #[trigger] m.codes_below(n).contains(c) <==> (c < n && m.holds(c)),
        forall|i: int, j: int|
            0 <= i < j < m.codes_below(n).len() ==> m.codes_below(n)[i] < m.codes_below(n)[j],
        m.codes_below(n).len() <= n,
    decreases n,
{
    if n > 0 {
        codes_are_what_is_held(m, n - 1);
        let before = m.codes_below(n - 1);
        let after = m.codes_below(n);
        let last = (n - 1) as u8;
        assert forall|c: u8| #[trigger] after.contains(c) <==> (c < n && m.holds(c)) by {
            if before.contains(c) {
                let i = choose|i: int| 0 <= i < before.len() && before[i] == c;
                assert(after[i] == c);
            }
            if c == last && m.holds(last) {
                assert(after[before.len() as int] == c);
            }
            if after.contains(c) {
                let i = choose|i: int| 0 <= i < after.len() && after[i] == c;
                if i < before.len() {
                    assert(before[i] == c);
                }
            }
        }
        assert forall|i: int, j: int| 0 <= i < j < after.len() implies after[i] < after[j] by {
            if j == before.len() {
                assert(before.contains(before[i]));
            }
        }
    }
}

} // verus!
