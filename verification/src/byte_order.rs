//! Numbers as bytes, in the order of the machine.
use vstd::prelude::*;
use vstd::bytes;

verus! {

/// Which byte of a number a machine keeps first.
#[derive(Debug, Clone, Copy, PartialEq, Eq, Structural)]
pub enum ByteOrder {
    /// The low one.
    Little,
    /// The high one.
    Big,
}

impl ByteOrder {
    /// Bytes that are given with the low one first, in this order.
    pub open spec fn arranged(self, low_first: Seq<u8>) -> Seq<u8> {
        match self {
            ByteOrder::Little => low_first,
            ByteOrder::Big => low_first.reverse(),
        }
    }

    /// The bytes of a number of two bytes.
    pub open spec fn two(self, x: u16) -> Seq<u8> {
        self.arranged(bytes::spec_u16_to_le_bytes(x))
    }

    /// The bytes of a number of four bytes.
    pub open spec fn four(self, x: u32) -> Seq<u8> {
        self.arranged(bytes::spec_u32_to_le_bytes(x))
    }

    /// The bytes of a number of eight bytes.
    pub open spec fn eight(self, x: u64) -> Seq<u8> {
        self.arranged(bytes::spec_u64_to_le_bytes(x))
    }

    /// The bytes of a number with a sign, of four bytes.
    pub open spec fn signed(self, x: int) -> Seq<u8> {
        self.four(low32(x))
    }

    fn arrange(&self, low_first: Vec<u8>) -> (r: Vec<u8>)
        ensures
            r@ == self.arranged(low_first@),
    {
        match self {
            ByteOrder::Little => low_first,
            ByteOrder::Big => {
                let n: usize = low_first.len();
                let mut out: Vec<u8> = Vec::new();
                for i in 0..n
                    invariant
                        n == low_first@.len(),
                        out@ =~= low_first@.reverse().take(i as int),
                {
                    out.push(low_first[n - 1 - i]);
                }
                assert(out@ =~= low_first@.reverse());
                out
            },
        }
    }

    /// The bytes of a number of two bytes.
    pub fn two_bytes(&self, x: u16) -> (r: Vec<u8>)
        ensures
            r@ == self.two(x),
    {
        self.arrange(bytes::u16_to_le_bytes(x))
    }

    /// The bytes of a number of four bytes.
    pub fn four_bytes(&self, x: u32) -> (r: Vec<u8>)
        ensures
            r@ == self.four(x),
    {
        self.arrange(bytes::u32_to_le_bytes(x))
    }

    /// The bytes of a number of eight bytes.
    pub fn eight_bytes(&self, x: u64) -> (r: Vec<u8>)
        ensures
            r@ == self.eight(x),
    {
        self.arrange(bytes::u64_to_le_bytes(x))
    }

    /// The bytes of a number with a sign, of four bytes.
    pub fn signed_bytes(&self, x: i64) -> (r: Vec<u8>)
        ensures
            r@ == self.signed(x as int),
    {
        self.four_bytes(low32_of(x))
    }
}

/// The lowest thirty-two bits of a number, negative ones counted down from zero.
pub open spec fn low32(x: int) -> u32 {
    (x % 0x1_0000_0000) as u32
}

fn low32_of(x: i64) -> (r: u32)
    ensures
        r == low32(x as int),
{
    let big: i128 = (x as i128) + 0x8000_0000_0000_0000;
    let low: i128 = big % 0x1_0000_0000;
    proof {
        assert((x + 0x8000_0000_0000_0000) % 0x1_0000_0000 == x % 0x1_0000_0000) by {
            vstd::arithmetic::div_mod::lemma_mod_multiples_vanish(
                0x8000_0000,
                x as int,
                0x1_0000_0000,
            );
        }
    }
    low as u32
}

/// Of a number that thirty-two bits can hold with its sign, the bytes tell the number.
pub proof fn signed_bytes_tell_the_number(order: ByteOrder, x: i32, y: i32)
    requires
        order.signed(x as int) == order.signed(y as int),
    ensures
        x == y,
{
    bytes::lemma_auto_spec_u32_to_from_le_bytes();
    let a = bytes::spec_u32_to_le_bytes(low32(x as int));
    let b = bytes::spec_u32_to_le_bytes(low32(y as int));
    assert(a.len() == 4 && b.len() == 4);
    assert(a == b) by {
        if order == ByteOrder::Big {
            assert forall|i: int| 0 <= i < 4 implies a[i] == b[i] by {
                assert(a.reverse()[3 - i] == b.reverse()[3 - i]);
            }
            assert(a =~= b);
        }
    }
    assert(low32(x as int) == low32(y as int));
}

/// A number of two bytes is told by its bytes.
pub proof fn two_bytes_tell_the_number(order: ByteOrder, x: u16, y: u16)
    requires
        order.two(x) == order.two(y),
    ensures
        x == y,
{
    bytes::lemma_auto_spec_u16_to_from_le_bytes();
    let a = bytes::spec_u16_to_le_bytes(x);
    let b = bytes::spec_u16_to_le_bytes(y);
    assert(a.len() == 2 && b.len() == 2);
    if order == ByteOrder::Big {
        assert forall|i: int| 0 <= i < 2 implies a[i] == b[i] by {
            assert(a.reverse()[1 - i] == b.reverse()[1 - i]);
        }
        assert(a =~= b);
    }
}

/// The bytes of a number on one kind of machine are those on the other from the other end.
pub proof fn orders_are_the_reverse_of_each_other(x: u16, y: u32, z: u64)
    ensures
        ByteOrder::Big.two(x) == ByteOrder::Little.two(x).reverse(),
        ByteOrder::Big.four(y) == ByteOrder::Little.four(y).reverse(),
        ByteOrder::Big.eight(z) == ByteOrder::Little.eight(z).reverse(),
        ByteOrder::Little.two(x) == bytes::spec_u16_to_le_bytes(x),
        ByteOrder::Little.four(y) == bytes::spec_u32_to_le_bytes(y),
        ByteOrder::Little.eight(z) == bytes::spec_u64_to_le_bytes(z),
{
}

} // verus!
