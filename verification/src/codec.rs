//! Fixed-width integers as bytes, in either byte order.
//!
//! Blocks and tables store their integers in the byte order of the machine
//! that wrote them. The order is an ordinary value here: every encoder and
//! decoder takes it as an argument, and `host_byte_order` finds the order of
//! the running machine.

use vstd::prelude::*;

verus! {

/// The order in which the bytes of an integer are laid out.
#[derive(Clone, Copy, Debug, PartialEq, Eq, Structural)]
pub enum ByteOrder {
    /// Least significant byte first.
    Little,
    /// Most significant byte first.
    Big,
}

/// The two bytes of `x` in the given order.
pub open spec fn u16_bytes(x: u16, order: ByteOrder) -> Seq<u8> {
    match order {
        ByteOrder::Little => seq![(x % 256) as u8, (x / 256) as u8],
        ByteOrder::Big => seq![(x / 256) as u8, (x % 256) as u8],
    }
}

/// The integer whose two bytes, in the given order, are `b0` and `b1`.
pub open spec fn u16_value(b0: u8, b1: u8, order: ByteOrder) -> u16 {
    match order {
        ByteOrder::Little => (b0 + 256 * b1) as u16,
        ByteOrder::Big => (256 * b0 + b1) as u16,
    }
}

/// The integer stored in the two bytes of `s` that start at `at`.
pub open spec fn u16_at(s: Seq<u8>, at: int, order: ByteOrder) -> u16 {
    u16_value(s[at], s[at + 1], order)
}

/// The four bytes of `x` in the given order.
pub open spec fn u32_bytes(x: u32, order: ByteOrder) -> Seq<u8> {
    let b0 = (x % 256) as u8;
    let b1 = ((x / 256) % 256) as u8;
    let b2 = ((x / 65536) % 256) as u8;
    let b3 = (x / 16777216) as u8;
    match order {
        ByteOrder::Little => seq![b0, b1, b2, b3],
        ByteOrder::Big => seq![b3, b2, b1, b0],
    }
}

/// The integer whose four bytes, in the given order, are `b0` to `b3`.
pub open spec fn u32_value(b0: u8, b1: u8, b2: u8, b3: u8, order: ByteOrder) -> u32 {
    match order {
        ByteOrder::Little => (b0 + 256 * b1 + 65536 * b2 + 16777216 * b3) as u32,
        ByteOrder::Big => (16777216 * b0 + 65536 * b1 + 256 * b2 + b3) as u32,
    }
}

/// The integer stored in the four bytes of `s` that start at `at`.
pub open spec fn u32_at(s: Seq<u8>, at: int, order: ByteOrder) -> u32 {
    u32_value(s[at], s[at + 1], s[at + 2], s[at + 3], order)
}

/// The low sixteen bits of a length: what a two-byte field keeps of it.
pub open spec fn low16(n: int) -> u16 {
    (n % 65536) as u16
}

/// The low thirty-two bits of a length: what a four-byte field keeps of it.
pub open spec fn low32(n: int) -> u32 {
    ((n as u64) % 4294967296) as u32
}

/// Reading back the bytes of a sixteen-bit integer gives the integer.
pub proof fn lemma_u16_roundtrip(x: u16, order: ByteOrder)
    ensures
        u16_bytes(x, order).len() == 2,
        u16_at(u16_bytes(x, order), 0, order) == x,
{
}

/// Writing the integer read from two bytes gives the two bytes.
pub proof fn lemma_u16_bytes_of_value(b0: u8, b1: u8, order: ByteOrder)
    ensures
        u16_bytes(u16_value(b0, b1, order), order) == seq![b0, b1],
{
    assert(u16_bytes(u16_value(b0, b1, order), order) =~= seq![b0, b1]);
}

/// Reading back the bytes of a thirty-two-bit integer gives the integer.
pub proof fn lemma_u32_roundtrip(x: u32, order: ByteOrder)
    ensures
        u32_bytes(x, order).len() == 4,
        u32_at(u32_bytes(x, order), 0, order) == x,
{
}

/// Writing the integer read from four bytes gives the four bytes.
pub proof fn lemma_u32_bytes_of_value(b0: u8, b1: u8, b2: u8, b3: u8, order: ByteOrder)
    ensures
        u32_bytes(u32_value(b0, b1, b2, b3, order), order) == seq![b0, b1, b2, b3],
{
    match order {
        ByteOrder::Little => lemma_u32_split(b0, b1, b2, b3),
        ByteOrder::Big => lemma_u32_split(b3, b2, b1, b0),
    }
    assert(u32_bytes(u32_value(b0, b1, b2, b3, order), order) =~= seq![b0, b1, b2, b3]);
}

/// The base-256 digits of a number written as four such digits.
proof fn lemma_u32_split(d0: u8, d1: u8, d2: u8, d3: u8)
    ensures
        ({
            let x = d0 + 256 * d1 + 65536 * d2 + 16777216 * d3;
            &&& 0 <= x <= u32::MAX
            &&& x % 256 == d0
            &&& (x / 256) % 256 == d1
            &&& (x / 65536) % 256 == d2
            &&& x / 16777216 == d3
        }),
{
    let x = d0 + 256 * d1 + 65536 * d2 + 16777216 * d3;
    let y1 = d1 + 256 * d2 + 65536 * d3;
    let y2 = d2 + 256 * d3;
    assert(x == d0 + 256 * y1);
    assert(x / 256 == y1);
    assert(x == (d0 + 256 * d1) + 65536 * y2);
    assert(x / 65536 == y2);
    assert(x == (d0 + 256 * d1 + 65536 * d2) + 16777216 * d3);
}

/// `u16::to_ne_bytes`: the two bytes of `x` as this machine keeps them in
/// memory. The order is the machine's own, so all that is claimed is that the
/// bytes are those of `x` in one of the two orders.
#[verifier::external_body]
fn native_u16_bytes(x: u16) -> (r: (u8, u8))
    ensures
        seq![r.0, r.1] == u16_bytes(x, ByteOrder::Little) || seq![r.0, r.1] == u16_bytes(
            x,
            ByteOrder::Big,
        ),
{
    let b = x.to_ne_bytes();
    (b[0], b[1])
}

/// The byte order of the machine that runs this code.
pub fn host_byte_order() -> ByteOrder {
    let b = native_u16_bytes(1);
    byte_order_of_one(b.0, b.1)
}

/// The byte order that lays out the integer 1 with `first` as its first
/// byte: the least significant byte first if that byte is 1, else the most
/// significant first.
pub open spec fn order_of_one(first: u8) -> ByteOrder {
    if first == 1 {
        ByteOrder::Little
    } else {
        ByteOrder::Big
    }
}

/// The byte order in which `first` and `second` are the two bytes of the
/// integer 1. Where the two are the bytes of 1 in one of the orders, they
/// are its bytes in the order returned.
pub fn byte_order_of_one(first: u8, second: u8) -> (order: ByteOrder)
    ensures
        order == order_of_one(first),
        seq![first, second] == u16_bytes(1, ByteOrder::Little) || seq![first, second]
            == u16_bytes(1, ByteOrder::Big) ==> seq![first, second] == u16_bytes(1, order),
{
    proof {
        let given = seq![first, second];
        let little = u16_bytes(1, ByteOrder::Little);
        let big = u16_bytes(1, ByteOrder::Big);
        assert(little[0] == 1 && big[0] == 0);
        assert(given[0] == first);
    }
    if first == 1 {
        ByteOrder::Little
    } else {
        ByteOrder::Big
    }
}

/// Appends the two bytes of `x` to `buf`.
pub fn put_u16(buf: &mut Vec<u8>, x: u16, order: ByteOrder)
    ensures
        final(buf)@ == old(buf)@ + u16_bytes(x, order),
{
    let lo = (x % 256) as u8;
    let hi = (x / 256) as u8;
    match order {
        ByteOrder::Little => {
            buf.push(lo);
            buf.push(hi);
        },
        ByteOrder::Big => {
            buf.push(hi);
            buf.push(lo);
        },
    }
    assert(buf@ =~= old(buf)@ + u16_bytes(x, order));
}

/// Reads the integer stored in the two bytes of `buf` that start at `at`.
pub fn get_u16(buf: &[u8], at: usize, order: ByteOrder) -> (x: u16)
    requires
        at + 2 <= buf@.len(),
    ensures
        x == u16_at(buf@, at as int, order),
{
    let b0 = buf[at] as u16;
    let b1 = buf[at + 1] as u16;
    match order {
        ByteOrder::Little => b0 + 256 * b1,
        ByteOrder::Big => 256 * b0 + b1,
    }
}

/// Appends the four bytes of `x` to `buf`.
pub fn put_u32(buf: &mut Vec<u8>, x: u32, order: ByteOrder)
    ensures
        final(buf)@ == old(buf)@ + u32_bytes(x, order),
{
    let b0 = (x % 256) as u8;
    let b1 = ((x / 256) % 256) as u8;
    let b2 = ((x / 65536) % 256) as u8;
    let b3 = (x / 16777216) as u8;
    match order {
        ByteOrder::Little => {
            buf.push(b0);
            buf.push(b1);
            buf.push(b2);
            buf.push(b3);
        },
        ByteOrder::Big => {
            buf.push(b3);
            buf.push(b2);
            buf.push(b1);
            buf.push(b0);
        },
    }
    assert(buf@ =~= old(buf)@ + u32_bytes(x, order));
}

/// Reads the integer stored in the four bytes of `buf` that start at `at`.
pub fn get_u32(buf: &[u8], at: usize, order: ByteOrder) -> (x: u32)
    requires
        at + 4 <= buf@.len(),
    ensures
        x == u32_at(buf@, at as int, order),
{
    let b0 = buf[at] as u32;
    let b1 = buf[at + 1] as u32;
    let b2 = buf[at + 2] as u32;
    let b3 = buf[at + 3] as u32;
    match order {
        ByteOrder::Little => b0 + 256 * b1 + 65536 * b2 + 16777216 * b3,
        ByteOrder::Big => 16777216 * b0 + 65536 * b1 + 256 * b2 + b3,
    }
}

/// The low sixteen bits of `n`.
pub fn low16_of(n: usize) -> (x: u16)
    ensures
        x == low16(n as int),
{
    (n % 65536) as u16
}

/// The low thirty-two bits of `n`.
pub fn low32_of(n: usize) -> (x: u32)
    ensures
        x == low32(n as int),
{
    ((n as u64) % 4294967296) as u32
}

} // verus!
