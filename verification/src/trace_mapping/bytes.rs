//! Reading unsigned integers out of a section's bytes in a given byte order.

use byteorder::{BigEndian, ByteOrder, LittleEndian, NativeEndian};
use vstd::prelude::*;
use vstd::slice::slice_subrange;

use super::errors::TraceMappingError;

verus! {

/// A byte order.
#[derive(PartialEq, Eq, Structural, Clone, Copy, Debug)]
pub enum Endian {
    Little,
    Big,
}

/// The unsigned integer that `bytes` encode, least significant byte first.
pub open spec fn le_value(bytes: Seq<u8>) -> nat
    decreases bytes.len(),
{
    if bytes.len() == 0 {
        0
    } else {
        bytes[0] as nat + 256 * le_value(bytes.drop_first())
    }
}

/// The unsigned integer that `bytes` encode, most significant byte first.
pub open spec fn be_value(bytes: Seq<u8>) -> nat
    decreases bytes.len(),
{
    if bytes.len() == 0 {
        0
    } else {
        be_value(bytes.drop_last()) * 256 + bytes.last() as nat
    }
}

/// The unsigned integer that `bytes` encode in byte order `order`.
pub open spec fn uint_value(bytes: Seq<u8>, order: Endian) -> nat {
    match order {
        Endian::Little => le_value(bytes),
        Endian::Big => be_value(bytes),
    }
}

/// The unsigned integer held by the `width` bytes of `data` that start at `at`.
pub open spec fn field(data: Seq<u8>, at: int, width: int, order: Endian) -> nat {
    uint_value(data.subrange(at, at + width), order)
}

/// 256 to the power `n`: one more than the largest value of `n` bytes.
pub open spec fn byte_range(n: nat) -> nat
    decreases n,
{
    if n == 0 {
        1
    } else {
        256 * byte_range((n - 1) as nat)
    }
}

/// `n` bytes hold a value below `byte_range(n)`, in either order.
pub proof fn lemma_value_below_range(bytes: Seq<u8>)
    ensures
        le_value(bytes) < byte_range(bytes.len()),
        be_value(bytes) < byte_range(bytes.len()),
    decreases bytes.len(),
{
    if bytes.len() > 0 {
        lemma_value_below_range(bytes.drop_first());
        lemma_value_below_range(bytes.drop_last());
        let r: nat = byte_range((bytes.len() - 1) as nat);
        let lo: nat = le_value(bytes.drop_first());
        let bo: nat = be_value(bytes.drop_last());
        assert((bytes[0] as nat) + 256 * lo < 256 * r) by (nonlinear_arith)
            requires
                lo < r,
                bytes[0] < 256,
        ;
        assert(bo * 256 + (bytes.last() as nat) < 256 * r) by (nonlinear_arith)
            requires
                bo < r,
                bytes.last() < 256,
        ;
    }
}

/// The values of the ranges of two, four and eight bytes.
pub proof fn lemma_byte_ranges()
    ensures
        byte_range(1) == 0x100,
        byte_range(2) == 0x1_0000,
        byte_range(4) == 0x1_0000_0000,
        byte_range(8) == 0x1_0000_0000_0000_0000,
{
    reveal_with_fuel(byte_range, 9);
}

/// Calls byteorder's `LittleEndian::read_uint`, which reads the first `nbytes` bytes of `buf`
/// as an unsigned integer, least significant byte first. It panics unless `1 <= nbytes <= 8`
/// and `nbytes <= buf.len()`.
#[verifier::external_body]
fn read_uint_le(buf: &[u8], nbytes: usize) -> (r: u64)
    requires
        1 <= nbytes <= 8,
        nbytes <= buf@.len(),
    ensures
        r as nat == le_value(buf@.subrange(0, nbytes as int)),
{
    LittleEndian::read_uint(buf, nbytes)
}

/// Calls byteorder's `BigEndian::read_uint`, which reads the first `nbytes` bytes of `buf` as
/// an unsigned integer, most significant byte first. It panics unless `1 <= nbytes <= 8` and
/// `nbytes <= buf.len()`.
#[verifier::external_body]
fn read_uint_be(buf: &[u8], nbytes: usize) -> (r: u64)
    requires
        1 <= nbytes <= 8,
        nbytes <= buf@.len(),
    ensures
        r as nat == be_value(buf@.subrange(0, nbytes as int)),
{
    BigEndian::read_uint(buf, nbytes)
}

/// The byte order of the hardware the code runs on (vstd's `endianness`).
pub open spec fn native_order() -> Endian {
    match vstd::endian::endianness() {
        vstd::endian::Endian::Little => Endian::Little,
        vstd::endian::Endian::Big => Endian::Big,
    }
}

/// Calls byteorder's `NativeEndian::read_uint`. `NativeEndian` is `LittleEndian` or
/// `BigEndian` according to the target's byte order, so the result is the reading of the first
/// `nbytes` bytes in the byte order of the hardware the code runs on. It panics unless
/// `1 <= nbytes <= 8` and `nbytes <= buf.len()`.
#[verifier::external_body]
fn read_uint_native(buf: &[u8], nbytes: usize) -> (r: u64)
    requires
        1 <= nbytes <= 8,
        nbytes <= buf@.len(),
    ensures
        r as nat == le_value(buf@.subrange(0, nbytes as int)) || r as nat == be_value(
            buf@.subrange(0, nbytes as int),
        ),
        r as nat == uint_value(buf@.subrange(0, nbytes as int), native_order()),
{
    NativeEndian::read_uint(buf, nbytes)
}

/// The byte order in which the bytes `[1, 0]` read as `probe`: they read as 1 least
/// significant byte first, and as 256 most significant byte first.
pub fn order_of_probe(probe: u64) -> (order: Endian)
    ensures
        order == (if probe == 1 {
            Endian::Little
        } else {
            Endian::Big
        }),
{
    if probe == 1 {
        Endian::Little
    } else {
        Endian::Big
    }
}

/// The byte order of the machine: the order in which the bytes `[1, 0]` read, in native order,
/// as the value they hold.
pub fn native_endian() -> (order: Endian)
    ensures
        order == native_order(),
{
    let probe: Vec<u8> = vec![1u8, 0u8];
    let value: u64 = read_uint_native(probe.as_slice(), 2);
    proof {
        let bytes = probe@.subrange(0, 2);
        assert(bytes =~= seq![1u8, 0u8]);
        assert(bytes.drop_first() =~= seq![0u8]);
        assert(bytes.drop_first().drop_first() =~= Seq::<u8>::empty());
        assert(bytes.drop_last() =~= seq![1u8]);
        assert(bytes.drop_last().drop_last() =~= Seq::<u8>::empty());
        reveal_with_fuel(le_value, 3);
        reveal_with_fuel(be_value, 3);
        assert(le_value(bytes) == 1);
        assert(be_value(bytes) == 256);
    }
    order_of_probe(value)
}

/// A read position in a section's bytes, as a cursor over them.
pub struct SectionCursor<'a> {
    pub data: &'a [u8],
    pub pos: u64,
}

impl<'a> SectionCursor<'a> {
    /// The cursor holds `n` more bytes after its position.
    pub open spec fn has(self, n: int) -> bool {
        self.pos + n <= self.data@.len()
    }

    /// A cursor at `pos` in `data`; the position may lie past the end, where every read fails.
    pub fn new(data: &'a [u8], pos: u64) -> (c: Self)
        ensures
            c.data@ == data@,
            c.pos == pos,
    {
        SectionCursor { data, pos }
    }

    /// Reads one byte.
    pub fn read_u8(&mut self) -> (r: Result<u8, TraceMappingError>)
        ensures
            final(self).data@ == old(self).data@,
            old(self).has(1) ==> r == Ok::<u8, TraceMappingError>(old(self).data@[old(self).pos as int])
                && final(self).pos == old(self).pos + 1,
            !old(self).has(1) ==> r == Err::<u8, TraceMappingError>(TraceMappingError::Truncated)
                && final(self).pos == old(self).pos,
    {
        let len: u64 = self.data.len() as u64;
        if self.pos < len {
            let b: u8 = self.data[self.pos as usize];
            self.pos = self.pos + 1;
            Ok(b)
        } else {
            Err(TraceMappingError::Truncated)
        }
    }

    /// Reads an unsigned integer of `nbytes` bytes in byte order `order`.
    pub fn read_uint(&mut self, nbytes: usize, order: Endian) -> (r: Result<u64, TraceMappingError>)
        requires
            1 <= nbytes <= 8,
        ensures
            final(self).data@ == old(self).data@,
            old(self).has(nbytes as int) ==> r == Ok::<u64, TraceMappingError>(
                field(old(self).data@, old(self).pos as int, nbytes as int, order) as u64,
            ) && final(self).pos == old(self).pos + nbytes,
            !old(self).has(nbytes as int) ==> r == Err::<u64, TraceMappingError>(
                TraceMappingError::Truncated,
            ) && final(self).pos == old(self).pos,
    {
        let len: u64 = self.data.len() as u64;
        let n: u64 = nbytes as u64;
        if self.pos <= len && n <= len - self.pos {
            let start: usize = self.pos as usize;
            let rest = slice_subrange(self.data, start, self.data.len());
            let v: u64 = match order {
                Endian::Little => read_uint_le(rest, nbytes),
                Endian::Big => read_uint_be(rest, nbytes),
            };
            assert(rest@.subrange(0, nbytes as int) =~= self.data@.subrange(
                start as int,
                start + nbytes,
            ));
            self.pos = self.pos + n;
            Ok(v)
        } else {
            Err(TraceMappingError::Truncated)
        }
    }

    /// Reads an unsigned 16-bit integer in byte order `order`.
    pub fn read_u16(&mut self, order: Endian) -> (r: Result<u16, TraceMappingError>)
        ensures
            final(self).data@ == old(self).data@,
            old(self).has(2) ==> r == Ok::<u16, TraceMappingError>(
                field(old(self).data@, old(self).pos as int, 2, order) as u16,
            ) && final(self).pos == old(self).pos + 2,
            !old(self).has(2) ==> r == Err::<u16, TraceMappingError>(TraceMappingError::Truncated)
                && final(self).pos == old(self).pos,
    {
        let ghost bytes = self.data@.subrange(self.pos as int, self.pos + 2);
        let v: u64 = self.read_uint(2, order)?;
        proof {
            lemma_value_below_range(bytes);
            lemma_byte_ranges();
        }
        Ok(v as u16)
    }

    /// Reads an unsigned 32-bit integer in byte order `order`.
    pub fn read_u32(&mut self, order: Endian) -> (r: Result<u32, TraceMappingError>)
        ensures
            final(self).data@ == old(self).data@,
            old(self).has(4) ==> r == Ok::<u32, TraceMappingError>(
                field(old(self).data@, old(self).pos as int, 4, order) as u32,
            ) && final(self).pos == old(self).pos + 4,
            !old(self).has(4) ==> r == Err::<u32, TraceMappingError>(TraceMappingError::Truncated)
                && final(self).pos == old(self).pos,
    {
        let ghost bytes = self.data@.subrange(self.pos as int, self.pos + 4);
        let v: u64 = self.read_uint(4, order)?;
        proof {
            lemma_value_below_range(bytes);
            lemma_byte_ranges();
        }
        Ok(v as u32)
    }

    /// Reads an unsigned 64-bit integer in byte order `order`.
    pub fn read_u64(&mut self, order: Endian) -> (r: Result<u64, TraceMappingError>)
        ensures
            final(self).data@ == old(self).data@,
            old(self).has(8) ==> r == Ok::<u64, TraceMappingError>(
                field(old(self).data@, old(self).pos as int, 8, order) as u64,
            ) && final(self).pos == old(self).pos + 8,
            !old(self).has(8) ==> r == Err::<u64, TraceMappingError>(TraceMappingError::Truncated)
                && final(self).pos == old(self).pos,
    {
        self.read_uint(8, order)
    }
}


/// The probe `[1, 0]` tells the two byte orders apart: it reads as 1 exactly in little-endian
/// order (and as 256 in big-endian), so the order that reads it as 1 is little-endian.
pub proof fn lemma_probe_tells_order(order: Endian)
    ensures
        (uint_value(seq![1u8, 0u8], order) == 1) == (order == Endian::Little),
        order == Endian::Big ==> uint_value(seq![1u8, 0u8], order) == 256,
{
    let bytes = seq![1u8, 0u8];
    assert(bytes.drop_first() =~= seq![0u8]);
    assert(bytes.drop_first().drop_first() =~= Seq::<u8>::empty());
    assert(bytes.drop_last() =~= seq![1u8]);
    assert(bytes.drop_last().drop_last() =~= Seq::<u8>::empty());
    reveal_with_fuel(le_value, 3);
    reveal_with_fuel(be_value, 3);
}

} // verus!
