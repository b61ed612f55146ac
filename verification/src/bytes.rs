//! Byte-level building blocks of the wire format: 32-byte words holding
//! small scalars, zero-padded address words, and copy helpers.

use vstd::prelude::*;

verus! {

/// Big-endian byte `j` (0 = most significant) of a 64-bit scalar.
pub open spec fn u64_be_byte(n: u64, j: int) -> u8 {
    (n >> (((7 - j) * 8) as u64)) as u8
}

/// A 32-byte word holding a 64-bit scalar, big-endian, zero-padded.
pub open spec fn u64_word(n: u64) -> Seq<u8> {
    Seq::new(32, |j: int| if j < 24 { 0u8 } else { u64_be_byte(n, j - 24) })
}

/// The all-zero 32-byte word (the minimum representable 256-bit scalar).
pub open spec fn zero_word() -> Seq<u8> {
    Seq::new(32, |j: int| 0u8)
}

/// The all-ones 32-byte word (the maximum representable 256-bit scalar).
pub open spec fn max_word() -> Seq<u8> {
    Seq::new(32, |j: int| 0xffu8)
}

/// A 20-byte address left-padded with 12 zero bytes to a 32-byte word.
pub open spec fn addr_word(a: Seq<u8>) -> Seq<u8> {
    Seq::new(12, |j: int| 0u8) + a
}

/// True when the 32-byte word at `at` is a zero-padded address word.
pub open spec fn word_is_addr(data: Seq<u8>, at: int) -> bool {
    forall|j: int| at <= j < at + 12 ==> data[j] == 0
}

/// Byte `j` of the 32-byte word encoding of `n`.
pub fn u64_word_byte(n: u64, j: usize) -> (b: u8)
    requires
        j < 32,
    ensures
        b == u64_word(n)[j as int],
{
    if j < 24 {
        0
    } else {
        (n >> (((31 - j) as u64) * 8)) as u8
    }
}

/// Appends the 32-byte word encoding of a 64-bit scalar.
pub fn push_u64_word(out: &mut Vec<u8>, n: u64)
    ensures
        final(out)@ == old(out)@ + u64_word(n),
{
    let ghost orig: Seq<u8> = out@;
    let mut j: usize = 0;
    while j < 32
        invariant
            j <= 32,
            out@ == orig + u64_word(n).take(j as int),
        decreases 32 - j,
    {
        let b = u64_word_byte(n, j);
        out.push(b);
        proof {
            assert(orig + u64_word(n).take(j as int) + seq![b] =~= orig + u64_word(n).take(
                j as int + 1,
            ));
        }
        j = j + 1;
    }
    proof {
        assert(u64_word(n).take(32) =~= u64_word(n));
    }
}

/// True exactly when the 32 bytes at `at` are the word encoding of `n`.
pub fn word_is_u64(data: &Vec<u8>, at: usize, n: u64) -> (r: bool)
    requires
        at + 32 <= data@.len(),
    ensures
        r == (data@.subrange(at as int, at as int + 32) == u64_word(n)),
{
    let ghost w: Seq<u8> = data@.subrange(at as int, at as int + 32);
    let dlen: usize = data.len();
    let mut j: usize = 0;
    while j < 32
        invariant
            j <= 32,
            at + 32 <= dlen == data@.len(),
            w == data@.subrange(at as int, at as int + 32),
            forall|i: int| 0 <= i < j ==> w[i] == u64_word(n)[i],
        decreases 32 - j,
    {
        let b = u64_word_byte(n, j);
        if data[at + j] != b {
            proof {
                assert(w[j as int] != u64_word(n)[j as int]);
            }
            return false;
        }
        j = j + 1;
    }
    proof {
        assert(w =~= u64_word(n));
    }
    true
}

/// True exactly when the word at `at` carries 12 leading zero bytes.
pub fn check_addr_word(data: &Vec<u8>, at: usize) -> (r: bool)
    requires
        at + 32 <= data@.len(),
    ensures
        r == word_is_addr(data@, at as int),
{
    let dlen: usize = data.len();
    let mut j: usize = 0;
    while j < 12
        invariant
            j <= 12,
            at + 32 <= dlen == data@.len(),
            forall|i: int| at <= i < at + j ==> data@[i] == 0,
        decreases 12 - j,
    {
        if data[at + j] != 0 {
            return false;
        }
        j = j + 1;
    }
    true
}

/// Copies `len` bytes starting at `at` into a fresh vector.
pub fn copy_range(data: &Vec<u8>, at: usize, len: usize) -> (r: Vec<u8>)
    requires
        at + len <= data@.len(),
    ensures
        r@ == data@.subrange(at as int, at as int + len as int),
{
    let mut r: Vec<u8> = Vec::new();
    let dlen: usize = data.len();
    let mut j: usize = 0;
    while j < len
        invariant
            j <= len,
            at + len <= dlen == data@.len(),
            r@ == data@.subrange(at as int, at as int + j as int),
        decreases len - j,
    {
        r.push(data[at + j]);
        proof {
            assert(data@.subrange(at as int, at as int + j as int) + seq![
                data@[at as int + j as int],
            ] =~= data@.subrange(at as int, at as int + j as int + 1));
        }
        j = j + 1;
    }
    r
}

/// Appends all of `bytes` to `out`.
pub fn push_bytes(out: &mut Vec<u8>, bytes: &Vec<u8>)
    ensures
        final(out)@ == old(out)@ + bytes@,
{
    let ghost orig: Seq<u8> = out@;
    let mut j: usize = 0;
    while j < bytes.len()
        invariant
            j <= bytes@.len(),
            out@ == orig + bytes@.take(j as int),
        decreases bytes@.len() - j,
    {
        out.push(bytes[j]);
        proof {
            assert(orig + bytes@.take(j as int) + seq![bytes@[j as int]] =~= orig + bytes@.take(
                j as int + 1,
            ));
        }
        j = j + 1;
    }
    proof {
        assert(bytes@.take(bytes@.len() as int) =~= bytes@);
    }
}

/// Copies a byte vector.
pub fn copy_bytes(v: &Vec<u8>) -> (r: Vec<u8>)
    ensures
        r@ == v@,
{
    let r = copy_range(v, 0, v.len());
    proof {
        assert(v@.subrange(0, v@.len() as int) =~= v@);
    }
    r
}

/// The all-zero 20-byte address, standing in for an absent one.
pub open spec fn zero_addr() -> Seq<u8> {
    Seq::new(20, |j: int| 0u8)
}

/// A fresh all-zero 20-byte address.
pub fn zero_addr_vec() -> (r: Vec<u8>)
    ensures
        r@ == zero_addr(),
{
    let mut r: Vec<u8> = Vec::new();
    let mut j: usize = 0;
    while j < 20
        invariant
            j <= 20,
            r@ == zero_addr().take(j as int),
        decreases 20 - j,
    {
        r.push(0u8);
        proof {
            assert(zero_addr().take(j as int) + seq![0u8] =~= zero_addr().take(j as int + 1));
        }
        j = j + 1;
    }
    proof {
        assert(zero_addr().take(20) =~= zero_addr());
    }
    r
}

/// A fresh all-zero 32-byte word.
pub fn zero_word_vec() -> (r: Vec<u8>)
    ensures
        r@ == zero_word(),
{
    let mut r: Vec<u8> = Vec::new();
    let mut j: usize = 0;
    while j < 32
        invariant
            j <= 32,
            r@ == zero_word().take(j as int),
        decreases 32 - j,
    {
        r.push(0u8);
        proof {
            assert(zero_word().take(j as int) + seq![0u8] =~= zero_word().take(j as int + 1));
        }
        j = j + 1;
    }
    proof {
        assert(zero_word().take(32) =~= zero_word());
    }
    r
}

/// A fresh all-ones 32-byte word.
pub fn max_word_vec() -> (r: Vec<u8>)
    ensures
        r@ == max_word(),
{
    let mut r: Vec<u8> = Vec::new();
    let mut j: usize = 0;
    while j < 32
        invariant
            j <= 32,
            r@ == max_word().take(j as int),
        decreases 32 - j,
    {
        r.push(0xffu8);
        proof {
            assert(max_word().take(j as int) + seq![0xffu8] =~= max_word().take(j as int + 1));
        }
        j = j + 1;
    }
    proof {
        assert(max_word().take(32) =~= max_word());
    }
    r
}

} // verus!
