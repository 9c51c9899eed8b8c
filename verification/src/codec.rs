//! Fixed-width big-endian integer fields of the class-file format.
//!
//! Every multi-byte integer in a class file is stored big-endian.  The spec
//! functions here give the byte image of each width; the readers prove that
//! the value they return has exactly the consumed bytes as its image, and the
//! writers prove that they append exactly that image.

use vstd::prelude::*;

use crate::class_file::ClassLoadingError;

verus! {

/// Big-endian image of a 16-bit integer.
pub open spec fn be16(v: u16) -> Seq<u8> {
    seq![(v as int / 0x100) as u8, (v as int % 0x100) as u8]
}

/// Big-endian image of a 32-bit integer.
pub open spec fn be32(v: u32) -> Seq<u8> {
    seq![
        (v as int / 0x1000000) as u8,
        (v as int / 0x10000 % 0x100) as u8,
        (v as int / 0x100 % 0x100) as u8,
        (v as int % 0x100) as u8,
    ]
}

/// Big-endian image of a 64-bit integer.
pub open spec fn be64(v: u64) -> Seq<u8> {
    be32((v as int / 0x100000000) as u32) + be32((v as int % 0x100000000) as u32)
}

/// The signed value stored in a 32-bit field, two's complement.
pub open spec fn i32_of_bits(bits: u32) -> int {
    if bits < 0x80000000 {
        bits as int
    } else {
        bits as int - 0x100000000
    }
}

/// The 32-bit field that stores a signed value, two's complement.
pub open spec fn bits_of_i32(v: i32) -> u32 {
    if v >= 0 {
        v as u32
    } else {
        (v + 0x100000000) as u32
    }
}

/// The signed value stored in a 64-bit field, two's complement.
pub open spec fn i64_of_bits(bits: u64) -> int {
    if bits < 0x8000000000000000 {
        bits as int
    } else {
        bits as int - 0x10000000000000000
    }
}

/// The 64-bit field that stores a signed value, two's complement.
pub open spec fn bits_of_i64(v: i64) -> u64 {
    if v >= 0 {
        v as u64
    } else {
        (v + 0x10000000000000000) as u64
    }
}

pub proof fn lemma_i32_bits_roundtrip(v: i32)
    ensures
        i32_of_bits(bits_of_i32(v)) == v as int,
{
}

pub proof fn lemma_i64_bits_roundtrip(v: i64)
    ensures
        i64_of_bits(bits_of_i64(v)) == v as int,
{
}

/// The value a big-endian 16-bit field holds.
pub open spec fn be16_value(two: Seq<u8>) -> int {
    two[0] * 0x100 + two[1]
}

/// The value a big-endian 32-bit field holds.
pub open spec fn be32_value(four: Seq<u8>) -> int {
    four[0] * 0x1000000 + four[1] * 0x10000 + four[2] * 0x100 + four[3]
}

pub proof fn lemma_be16_value(v: u16)
    ensures
        be16_value(be16(v)) == v,
{
    assert((v as int / 0x100) * 0x100 + v as int % 0x100 == v) by (nonlinear_arith);
}

pub proof fn lemma_be32_value(v: u32)
    ensures
        be32_value(be32(v)) == v,
{
    assert((v as int / 0x1000000) * 0x1000000 + (v as int / 0x10000 % 0x100) * 0x10000 + (v as int
        / 0x100 % 0x100) * 0x100 + v as int % 0x100 == v) by (nonlinear_arith);
}

/// The byte image of a table: each record's image in order.
pub open spec fn enc_list<T>(s: Seq<T>, f: spec_fn(T) -> Seq<u8>) -> Seq<u8>
    decreases s.len(),
{
    if s.len() == 0 {
        Seq::empty()
    } else {
        enc_list(s.drop_last(), f) + f(s.last())
    }
}

pub proof fn lemma_enc_list_push<T>(s: Seq<T>, x: T, f: spec_fn(T) -> Seq<u8>)
    ensures
        enc_list(s.push(x), f) == enc_list(s, f) + f(x),
{
    assert(s.push(x).drop_last() =~= s);
    assert(s.push(x).last() == x);
}

/// Where a run of `n` records ends, each record parsed by `f`; `None` where
/// any record is malformed.
pub open spec fn parse_list(b: Seq<u8>, pos: int, n: nat, f: spec_fn(Seq<u8>, int) -> Option<int>) -> Option<
    int,
>
    decreases n,
{
    if n == 0 {
        Some(pos)
    } else {
        match f(b, pos) {
            None => None,
            Some(end) => {
                if end <= pos {
                    None
                } else {
                    parse_list(b, end, (n - 1) as nat, f)
                }
            },
        }
    }
}

/// Compares two strings by value.
pub fn str_eq(a: &str, b: &str) -> (r: bool)
    ensures
        r == (a@ == b@),
{
    let sa = a.to_owned();
    let sb = b.to_owned();
    sa == sb
}

/// Reads `n` raw bytes at `pos`, or reports a truncated stream.
pub fn read_vec(b: &Vec<u8>, pos: usize, n: usize) -> (r: Result<
    (Vec<u8>, usize),
    ClassLoadingError,
>)
    ensures
        pos + n <= b@.len() ==> r is Ok,
        pos + n > b@.len() ==> r == Err::<(Vec<u8>, usize), _>(ClassLoadingError::ClassFormatError),
        r matches Ok(t) ==> t.1 == pos + n && pos + n <= b@.len() && t.0@ == b@.subrange(
            pos as int,
            pos + n,
        ),
{
    if b.len() >= n && pos <= b.len() - n {
        let v = vstd::slice::slice_to_vec(vstd::slice::slice_subrange(b.as_slice(), pos, pos + n));
        Ok((v, pos + n))
    } else {
        Err(ClassLoadingError::ClassFormatError)
    }
}

/// Appends raw bytes.
pub fn write_bytes(out: &mut Vec<u8>, v: &Vec<u8>)
    ensures
        final(out)@ == old(out)@ + v@,
{
    proof {
        assert(out@ =~= old(out)@ + v@.subrange(0, 0));
    }
    let mut i: usize = 0;
    while i < v.len()
        invariant
            i <= v@.len(),
            out@ == old(out)@ + v@.subrange(0, i as int),
        decreases v@.len() - i,
    {
        out.push(v[i]);
        proof {
            assert(v@.subrange(0, i + 1) =~= v@.subrange(0, i as int).push(v@[i as int]));
            assert(out@ =~= old(out)@ + v@.subrange(0, i + 1));
        }
        i = i + 1;
    }
    proof {
        assert(v@.subrange(0, v@.len() as int) =~= v@);
    }
}

/// Two adjacent subranges of a byte sequence join into one.
pub proof fn lemma_subrange_join(b: Seq<u8>, i: int, j: int, k: int)
    requires
        0 <= i <= j <= k <= b.len(),
    ensures
        b.subrange(i, j) + b.subrange(j, k) == b.subrange(i, k),
{
    assert(b.subrange(i, j) + b.subrange(j, k) =~= b.subrange(i, k));
}

/// Reads the byte at `pos`, or reports a truncated stream.
pub fn read_u8(b: &Vec<u8>, pos: usize) -> (r: Result<(u8, usize), ClassLoadingError>)
    ensures
        pos + 1 <= b@.len() ==> (r matches Ok(t) && t.0 == b@[pos as int] && t.1 == pos + 1),
        pos + 1 > b@.len() ==> r == Err::<(u8, usize), _>(ClassLoadingError::ClassFormatError),
        r matches Ok(t) ==> seq![t.0] =~= b@.subrange(pos as int, pos + 1),
{
    if pos < b.len() {
        Ok((b[pos], pos + 1))
    } else {
        Err(ClassLoadingError::ClassFormatError)
    }
}

/// Reads a big-endian 16-bit field at `pos`, or reports a truncated stream.
pub fn read_u16(b: &Vec<u8>, pos: usize) -> (r: Result<(u16, usize), ClassLoadingError>)
    ensures
        pos + 2 <= b@.len() ==> r is Ok,
        pos + 2 > b@.len() ==> r == Err::<(u16, usize), _>(ClassLoadingError::ClassFormatError),
        r matches Ok(t) ==> t.1 == pos + 2 && pos + 2 <= b@.len() && be16(t.0) =~= b@.subrange(
            pos as int,
            pos + 2,
        ),
{
    if b.len() >= 2 && pos <= b.len() - 2 {
        let hi = b[pos];
        let lo = b[pos + 1];
        let v: u16 = (hi as u16) * 0x100 + (lo as u16);
        assert(v as int / 0x100 == hi as int && v as int % 0x100 == lo as int) by (nonlinear_arith)
            requires
                v == hi as int * 0x100 + lo as int,
                hi < 0x100,
                lo < 0x100,
        ;
        Ok((v, pos + 2))
    } else {
        Err(ClassLoadingError::ClassFormatError)
    }
}

/// Reads a big-endian 32-bit field at `pos`, or reports a truncated stream.
pub fn read_u32(b: &Vec<u8>, pos: usize) -> (r: Result<(u32, usize), ClassLoadingError>)
    ensures
        pos + 4 <= b@.len() ==> r is Ok,
        pos + 4 > b@.len() ==> r == Err::<(u32, usize), _>(ClassLoadingError::ClassFormatError),
        r matches Ok(t) ==> t.1 == pos + 4 && pos + 4 <= b@.len() && be32(t.0) =~= b@.subrange(
            pos as int,
            pos + 4,
        ),
{
    if b.len() >= 4 && pos <= b.len() - 4 {
        let b0 = b[pos];
        let b1 = b[pos + 1];
        let b2 = b[pos + 2];
        let b3 = b[pos + 3];
        let v: u32 = (b0 as u32) * 0x1000000 + (b1 as u32) * 0x10000 + (b2 as u32) * 0x100 + (
        b3 as u32);
        assert(v as int / 0x1000000 == b0 as int && v as int / 0x10000 % 0x100 == b1 as int && v
            as int / 0x100 % 0x100 == b2 as int && v as int % 0x100 == b3 as int)
            by (nonlinear_arith)
            requires
                v == b0 as int * 0x1000000 + b1 as int * 0x10000 + b2 as int * 0x100 + b3 as int,
                b0 < 0x100,
                b1 < 0x100,
                b2 < 0x100,
                b3 < 0x100,
        ;
        Ok((v, pos + 4))
    } else {
        Err(ClassLoadingError::ClassFormatError)
    }
}

/// Reads a big-endian 64-bit field at `pos`, or reports a truncated stream.
pub fn read_u64(b: &Vec<u8>, pos: usize) -> (r: Result<(u64, usize), ClassLoadingError>)
    ensures
        pos + 8 <= b@.len() ==> r is Ok,
        pos + 8 > b@.len() ==> r == Err::<(u64, usize), _>(ClassLoadingError::ClassFormatError),
        r matches Ok(t) ==> t.1 == pos + 8 && pos + 8 <= b@.len() && be64(t.0) =~= b@.subrange(
            pos as int,
            pos + 8,
        ),
{
    let hi = match read_u32(b, pos) {
        Ok(t) => t.0,
        Err(e) => {
            return Err(e);
        },
    };
    let lo = match read_u32(b, pos + 4) {
        Ok(t) => t.0,
        Err(e) => {
            return Err(e);
        },
    };
    let v: u64 = (hi as u64) * 0x100000000 + (lo as u64);
    proof {
        assert(v as int / 0x100000000 == hi as int && v as int % 0x100000000 == lo as int)
            by (nonlinear_arith)
            requires
                v == hi as int * 0x100000000 + lo as int,
                hi < 0x100000000,
                lo < 0x100000000,
        ;
        lemma_subrange_join(b@, pos as int, pos + 4, pos + 8);
    }
    Ok((v, pos + 8))
}

/// Appends the byte image of an 8-bit field.
pub fn write_u8(out: &mut Vec<u8>, v: u8)
    ensures
        final(out)@ =~= old(out)@ + seq![v],
{
    out.push(v);
}

/// Appends the big-endian image of a 16-bit field.
pub fn write_u16(out: &mut Vec<u8>, v: u16)
    ensures
        final(out)@ =~= old(out)@ + be16(v),
{
    out.push((v / 0x100) as u8);
    out.push((v % 0x100) as u8);
}

/// Appends the big-endian image of a 32-bit field.
pub fn write_u32(out: &mut Vec<u8>, v: u32)
    ensures
        final(out)@ =~= old(out)@ + be32(v),
{
    out.push((v / 0x1000000) as u8);
    out.push((v / 0x10000 % 0x100) as u8);
    out.push((v / 0x100 % 0x100) as u8);
    out.push((v % 0x100) as u8);
}

/// Appends the big-endian image of a 64-bit field.
pub fn write_u64(out: &mut Vec<u8>, v: u64)
    ensures
        final(out)@ =~= old(out)@ + be64(v),
{
    write_u32(out, (v / 0x100000000) as u32);
    write_u32(out, (v % 0x100000000) as u32);
}

/// Reinterprets a 32-bit field as the signed value it stores.
pub fn i32_from_bits(bits: u32) -> (r: i32)
    ensures
        r as int == i32_of_bits(bits),
{
    if bits < 0x80000000 {
        bits as i32
    } else {
        (bits - 0x80000000) as i32 + (-0x7FFFFFFF - 1)
    }
}

/// Reinterprets a signed value as the 32-bit field that stores it.
pub fn i32_to_bits(v: i32) -> (r: u32)
    ensures
        r == bits_of_i32(v),
{
    if v >= 0 {
        v as u32
    } else {
        (v - (-0x7FFFFFFF - 1)) as u32 + 0x80000000
    }
}

/// Reinterprets a 64-bit field as the signed value it stores.
pub fn i64_from_bits(bits: u64) -> (r: i64)
    ensures
        r as int == i64_of_bits(bits),
{
    if bits < 0x8000000000000000 {
        bits as i64
    } else {
        (bits - 0x8000000000000000) as i64 + (-0x7FFFFFFFFFFFFFFF - 1)
    }
}

/// Reinterprets a signed value as the 64-bit field that stores it.
pub fn i64_to_bits(v: i64) -> (r: u64)
    ensures
        r == bits_of_i64(v),
{
    if v >= 0 {
        v as u64
    } else {
        (v - (-0x7FFFFFFFFFFFFFFF - 1)) as u64 + 0x8000000000000000
    }
}

} // verus!
