//! Byte-level primitives of the on-disk grammar: variable-length
//! integers and length-prefixed byte strings.
//!
//! Every encoder has a spec-level counterpart, every decoder is proved
//! equal to a spec-level decoder, and decoding an encoding is proved to
//! give back the encoded value (with any trailing bytes ignored).

use vstd::prelude::*;
use vstd::arithmetic::div_mod::{lemma_fundamental_div_mod, lemma_multiply_divide_lt};
use vstd::arithmetic::power2::{lemma2_to64, lemma2_to64_rest, lemma_pow2_adds, pow2};

verus! {

/// Largest number of bytes a variable-length integer may occupy:
/// seven payload bits per byte cover a 64-bit value in ten bytes.
pub const MAX_VARINT_BYTES: usize = 10;

/// The encoding of `n` as a little-endian base-128 integer: each byte
/// carries seven bits, and the high bit marks a continuation.
pub open spec fn spec_varint(n: nat) -> Seq<u8>
    decreases n,
{
    if n < 128 {
        seq![n as u8]
    } else {
        seq![(128 + (n % 128)) as u8] + spec_varint(n / 128)
    }
}

/// Decode a variable-length integer from the front of `b`, reading at
/// most `depth` bytes; yields the value and the number of bytes read.
pub open spec fn spec_dec_varint_rec(b: Seq<u8>, depth: nat) -> Option<(nat, nat)>
    decreases depth,
{
    if depth == 0 || b.len() == 0 {
        None
    } else if b[0] < 128 {
        Some((b[0] as nat, 1))
    } else {
        match spec_dec_varint_rec(b.drop_first(), (depth - 1) as nat) {
            Some(p) => Some(((b[0] - 128) as nat + 128 * p.0, p.1 + 1)),
            None => None,
        }
    }
}

/// Decode a variable-length integer that must fit in 64 bits.
pub open spec fn spec_dec_varint(b: Seq<u8>) -> Option<(nat, nat)> {
    match spec_dec_varint_rec(b, MAX_VARINT_BYTES as nat) {
        Some(p) => if p.0 <= u64::MAX as nat {
            Some(p)
        } else {
            None
        },
        None => None,
    }
}

/// A decoded value is bounded by the bytes read: `depth` bytes carry at
/// most `7 * depth` bits.
proof fn lemma_dec_varint_rec_bound(b: Seq<u8>, depth: nat)
    ensures
        spec_dec_varint_rec(b, depth) matches Some(p) ==> p.0 < pow2(7 * depth) && 1 <= p.1
            <= depth && p.1 <= b.len(),
    decreases depth,
{
    lemma2_to64();
    if depth > 0 && b.len() > 0 {
        if b[0] < 128 {
            assert(pow2(7) <= pow2(7 * depth)) by {
                if 7 < 7 * depth {
                    vstd::arithmetic::power2::lemma_pow2_strictly_increases(7, 7 * depth);
                }
            }
        } else {
            lemma_dec_varint_rec_bound(b.drop_first(), (depth - 1) as nat);
            if let Some(q) = spec_dec_varint_rec(b.drop_first(), (depth - 1) as nat) {
                assert(7 * depth == 7 + 7 * ((depth - 1) as nat));
                lemma_pow2_adds(7, 7 * ((depth - 1) as nat));
                assert((b[0] - 128) as nat + 128 * q.0 < 128 * pow2(7 * ((depth - 1) as nat)));
            }
        }
    }
}

/// The encoding of a 64-bit value takes at most `k` bytes whenever the
/// value has fewer than `7 * k` bits.
proof fn lemma_varint_len(n: nat, k: nat)
    requires
        k >= 1,
        n < pow2(7 * k),
    ensures
        spec_varint(n).len() <= k,
    decreases n,
{
    if n >= 128 {
        lemma2_to64();
        if k == 1 {
            assert(pow2(7) == 128);
            assert(false);
        }
        assert(7 * k == 7 + 7 * ((k - 1) as nat));
        lemma_pow2_adds(7, 7 * ((k - 1) as nat));
        lemma_multiply_divide_lt(n as int, 128, pow2(7 * ((k - 1) as nat)) as int);
        lemma_varint_len(n / 128, (k - 1) as nat);
    }
}

/// Any 64-bit value is encoded in at most `MAX_VARINT_BYTES` bytes.
pub proof fn lemma_varint_len64(n: nat)
    requires
        n <= u64::MAX as nat,
    ensures
        1 <= spec_varint(n).len() <= MAX_VARINT_BYTES,
{
    lemma2_to64();
    lemma2_to64_rest();
    lemma_pow2_adds(64, 6);
    assert(n < pow2(70));
    lemma_varint_len(n, 10);
}

proof fn lemma_dec_varint_rec_of_enc(n: nat, rest: Seq<u8>, depth: nat)
    requires
        spec_varint(n).len() <= depth,
    ensures
        spec_dec_varint_rec(spec_varint(n) + rest, depth) == Some((n, spec_varint(n).len())),
    decreases n,
{
    let b = spec_varint(n) + rest;
    if n < 128 {
        assert(b[0] == n as u8);
    } else {
        assert(b[0] == (128 + (n % 128)) as u8);
        assert(b.drop_first() =~= spec_varint(n / 128) + rest);
        lemma_dec_varint_rec_of_enc(n / 128, rest, (depth - 1) as nat);
        lemma_fundamental_div_mod(n as int, 128);
        assert((b[0] - 128) as nat + 128 * (n / 128) == n);
    }
}

/// Round trip: decoding an encoding yields the encoded value and
/// consumes exactly the encoding, whatever bytes follow it.
pub proof fn lemma_dec_varint_of_enc(n: nat, rest: Seq<u8>)
    requires
        n <= u64::MAX as nat,
    ensures
        spec_dec_varint(spec_varint(n) + rest) == Some((n, spec_varint(n).len())),
{
    lemma_varint_len64(n);
    lemma_dec_varint_rec_of_enc(n, rest, MAX_VARINT_BYTES as nat);
}

/// Append the encoding of `n` to `out`.
pub fn write_varint(out: &mut Vec<u8>, n: u64)
    ensures
        final(out)@ == old(out)@ + spec_varint(n as nat),
{
    let mut m: u64 = n;
    while m >= 128
        invariant
            out@ + spec_varint(m as nat) == old(out)@ + spec_varint(n as nat),
        decreases m,
    {
        let byte: u8 = (128 + (m % 128)) as u8;
        let ghost prev = out@;
        out.push(byte);
        proof {
            assert(spec_varint(m as nat) == seq![byte] + spec_varint((m / 128) as nat));
            assert(prev + seq![byte] + spec_varint((m / 128) as nat) =~= prev + spec_varint(
                m as nat,
            ));
        }
        m = m / 128;
    }
    let ghost prev = out@;
    out.push(m as u8);
    proof {
        assert(spec_varint(m as nat) =~= seq![m as u8]);
        assert(prev + seq![m as u8] =~= prev + spec_varint(m as nat));
    }
}

fn read_varint_rec(b: &Vec<u8>, pos: usize, depth: usize) -> (r: Option<(u128, usize)>)
    requires
        pos <= b.len(),
        depth <= MAX_VARINT_BYTES,
    ensures
        match spec_dec_varint_rec(b@.skip(pos as int), depth as nat) {
            Some(p) => r matches Some(t) && t.0 as nat == p.0 && t.1 == pos + p.1,
            None => r is None,
        },
    decreases depth,
{
    if depth == 0 || pos == b.len() {
        None
    } else {
        proof {
            assert(b@.skip(pos as int)[0] == b@[pos as int]);
        }
        let d: u8 = b[pos];
        if d < 128 {
            Some((d as u128, pos + 1))
        } else {
            proof {
                assert(b@.skip(pos as int).drop_first() =~= b@.skip(pos as int + 1));
            }
            match read_varint_rec(b, pos + 1, depth - 1) {
                None => None,
                Some((m, p2)) => {
                    proof {
                        lemma_dec_varint_rec_bound(b@.skip(pos as int + 1), (depth - 1) as nat);
                        lemma2_to64();
                        lemma2_to64_rest();
                        lemma_pow2_adds(63, 7);
                        assert(pow2(7 * ((depth - 1) as nat)) <= pow2(63)) by {
                            if 7 * ((depth - 1) as nat) < 63 {
                                vstd::arithmetic::power2::lemma_pow2_strictly_increases(
                                    7 * ((depth - 1) as nat),
                                    63,
                                );
                            }
                        }
                        assert(m < pow2(63));
                    }
                    Some(((d - 128) as u128 + 128 * m, p2))
                },
            }
        }
    }
}

/// Copy the bytes of `b` between `from` and `to` into a fresh vector.
pub fn copy_range(b: &Vec<u8>, from: usize, to: usize) -> (r: Vec<u8>)
    requires
        from <= to <= b.len(),
    ensures
        r@ == b@.subrange(from as int, to as int),
{
    let mut r: Vec<u8> = Vec::new();
    let mut i: usize = from;
    while i < to
        invariant
            from <= i <= to <= b.len(),
            r@ == b@.subrange(from as int, i as int),
        decreases to - i,
    {
        r.push(b[i]);
        proof {
            assert(b@.subrange(from as int, (i + 1) as int) =~= b@.subrange(
                from as int,
                i as int,
            ).push(b@[i as int]));
        }
        i = i + 1;
    }
    r
}

/// A byte string prefixed with its length.
pub open spec fn spec_lp(data: Seq<u8>) -> Seq<u8> {
    spec_varint(data.len()) + data
}

/// Decode a length-prefixed byte string from the front of `b`.
pub open spec fn spec_dec_lp(b: Seq<u8>) -> Option<(Seq<u8>, nat)> {
    match spec_dec_varint(b) {
        None => None,
        Some(p) => if p.0 + p.1 <= b.len() {
            Some((b.subrange(p.1 as int, (p.1 + p.0) as int), p.1 + p.0))
        } else {
            None
        },
    }
}

/// Round trip: decoding an encoding yields the encoded bytes and
/// consumes exactly the encoding, whatever bytes follow it.
pub proof fn lemma_dec_lp_of_enc(data: Seq<u8>, rest: Seq<u8>)
    requires
        data.len() <= u64::MAX as nat,
    ensures
        spec_dec_lp(spec_lp(data) + rest) == Some((data, spec_lp(data).len())),
{
    let b = spec_lp(data) + rest;
    assert(b =~= spec_varint(data.len()) + (data + rest));
    lemma_dec_varint_of_enc(data.len(), data + rest);
    let c = spec_varint(data.len()).len();
    assert(b.subrange(c as int, (c + data.len()) as int) =~= data);
}

/// Read a length-prefixed byte string starting at `pos`; yields the
/// bytes and the position of the first byte after them.
pub fn read_lp(b: &Vec<u8>, pos: usize) -> (r: Option<(Vec<u8>, usize)>)
    requires
        pos <= b.len(),
    ensures
        match spec_dec_lp(b@.skip(pos as int)) {
            Some(p) => r matches Some(t) && t.0@ == p.0 && t.1 == pos + p.1 && t.1 <= b.len(),
            None => r is None,
        },
{
    match read_varint(b, pos) {
        None => None,
        Some((n, p1)) => {
            if n > (b.len() - p1) as u64 {
                proof {
                    assert(spec_dec_lp(b@.skip(pos as int)) is None);
                }
                None
            } else {
                let end: usize = p1 + n as usize;
                let data = copy_range(b, p1, end);
                proof {
                    let s = b@.skip(pos as int);
                    let p = spec_dec_varint(s).unwrap();
                    assert(s.subrange(p.1 as int, (p.1 + p.0) as int) =~= b@.subrange(
                        p1 as int,
                        end as int,
                    ));
                }
                Some((data, end))
            }
        },
    }
}

/// Write the length of `data` and then `data` itself.
pub fn write_lp(out: &mut Vec<u8>, data: &Vec<u8>)
    ensures
        final(out)@ == old(out)@ + spec_lp(data@),
{
    write_varint(out, data.len() as u64);
    out.extend_from_slice(data.as_slice());
    proof {
        assert(out@ =~= old(out)@ + spec_lp(data@));
    }
}

/// Read a variable-length 64-bit integer starting at `pos`; yields the
/// value and the position of the first byte after it.
pub fn read_varint(b: &Vec<u8>, pos: usize) -> (r: Option<(u64, usize)>)
    requires
        pos <= b.len(),
    ensures
        match spec_dec_varint(b@.skip(pos as int)) {
            Some(p) => r matches Some(t) && t.0 as nat == p.0 && t.1 == pos + p.1 && t.1 <= b.len(),
            None => r is None,
        },
{
    proof {
        lemma_dec_varint_rec_bound(b@.skip(pos as int), MAX_VARINT_BYTES as nat);
    }
    match read_varint_rec(b, pos, MAX_VARINT_BYTES) {
        None => None,
        Some((v, p2)) => {
            if v <= u64::MAX as u128 {
                Some((v as u64, p2))
            } else {
                None
            }
        },
    }
}

} // verus!
