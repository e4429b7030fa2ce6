//! The padding schedule: before encryption a drawer's serialized
//! content is padded to the next *bucket*, one of a fixed schedule of
//! exponentially spaced sizes, so that ciphertext length reveals only a
//! coarse upper bound on the content.  A drawer never moves to a
//! smaller bucket, so deletions are not revealed either.

use vstd::prelude::*;
use crate::crypt::{random_bytes, TAG_LEN};

verus! {

/// Smallest padded plaintext size, in bytes.
pub const BASE_BUCKET_SIZE: usize = 512;

/// Largest bucket index the library uses; the largest padded plaintext
/// is `BASE_BUCKET_SIZE * 2^MAX_BUCKET_IDX` bytes, which fits a 32-bit
/// address space and stays far under the cipher's size cap.
pub const MAX_BUCKET_IDX: usize = 21;

/// The padded plaintext size of the bucket with the given index:
/// buckets double, starting at `BASE_BUCKET_SIZE`.
pub open spec fn spec_bucket_size(idx: nat) -> nat
    decreases idx,
{
    if idx == 0 {
        BASE_BUCKET_SIZE as nat
    } else {
        2 * spec_bucket_size((idx - 1) as nat)
    }
}

/// No bucket is smaller than the base size.
pub proof fn lemma_bucket_size_min(i: nat)
    ensures
        spec_bucket_size(i) >= BASE_BUCKET_SIZE,
    decreases i,
{
    if i > 0 {
        lemma_bucket_size_min((i - 1) as nat);
    }
}

/// Bucket sizes strictly grow with the index.
pub proof fn lemma_bucket_size_increases(i: nat, j: nat)
    requires
        i <= j,
    ensures
        spec_bucket_size(i) <= spec_bucket_size(j),
        i < j ==> 2 * spec_bucket_size(i) <= spec_bucket_size(j),
    decreases j,
{
    lemma_bucket_size_min(i);
    if i < j {
        lemma_bucket_size_increases(i, (j - 1) as nat);
    }
}

/// The length of a well-formed slot ciphertext: a padded plaintext of
/// some bucket in the schedule, plus the authentication tag.
pub open spec fn is_bucket_ct_len(len: nat) -> bool {
    exists|b: nat| b <= MAX_BUCKET_IDX && len == spec_bucket_size(b) + TAG_LEN
}

/// The bucket index of a well-formed slot ciphertext length.
pub open spec fn spec_bucket_of_ct_len(len: nat) -> nat {
    choose|b: nat| b <= MAX_BUCKET_IDX && len == spec_bucket_size(b) + TAG_LEN
}

/// A length of the form bucket-plus-tag is a well-formed ciphertext
/// length, and the bucket of that length is that bucket: bucket sizes
/// are distinct, so the index is determined.
pub proof fn lemma_bucket_of_ct_len(b: nat, len: nat)
    requires
        b <= MAX_BUCKET_IDX,
        len == spec_bucket_size(b) + TAG_LEN,
    ensures
        is_bucket_ct_len(len),
        spec_bucket_of_ct_len(len) == b,
{
    assert(is_bucket_ct_len(len));
    let b2 = spec_bucket_of_ct_len(len);
    assert(b2 <= MAX_BUCKET_IDX && len == spec_bucket_size(b2) + TAG_LEN);
    if b2 < b {
        lemma_bucket_size_min(b2);
        lemma_bucket_size_increases(b2, b);
    } else if b < b2 {
        lemma_bucket_size_min(b);
        lemma_bucket_size_increases(b, b2);
    }
}

/// A bucket size is the base size scaled by a power of two.
pub proof fn lemma_bucket_size_pow2(idx: nat)
    ensures
        spec_bucket_size(idx) == BASE_BUCKET_SIZE * vstd::arithmetic::power2::pow2(idx),
    decreases idx,
{
    vstd::arithmetic::power2::lemma2_to64();
    if idx > 0 {
        lemma_bucket_size_pow2((idx - 1) as nat);
        vstd::arithmetic::power2::lemma_pow2_adds(1, (idx - 1) as nat);
    }
}

/// The padded size of every bucket in the schedule fits `usize`.
pub proof fn lemma_bucket_size_fits(idx: nat)
    requires
        idx <= MAX_BUCKET_IDX,
    ensures
        spec_bucket_size(idx) <= 0x4000_0000,
{
    lemma_bucket_size_pow2(MAX_BUCKET_IDX as nat);
    vstd::arithmetic::power2::lemma2_to64();
    lemma_bucket_size_increases(idx, MAX_BUCKET_IDX as nat);
}

/// The padded plaintext size of the bucket with the given index.
pub fn bucket_size(idx: usize) -> (r: usize)
    requires
        idx <= MAX_BUCKET_IDX,
    ensures
        r == spec_bucket_size(idx as nat),
{
    proof {
        lemma_bucket_size_fits(idx as nat);
    }
    let mut size: usize = BASE_BUCKET_SIZE;
    let mut i: usize = 0;
    while i < idx
        invariant
            i <= idx <= MAX_BUCKET_IDX,
            size == spec_bucket_size(i as nat),
        decreases idx - i,
    {
        proof {
            lemma_bucket_size_fits((i + 1) as nat);
        }
        size = size * 2;
        i = i + 1;
    }
    size
}

/// Whether `len` is a well-formed slot ciphertext length, that is, a
/// bucket size plus the tag length.
pub fn is_valid_ct_len(len: usize) -> (r: bool)
    ensures
        r == is_bucket_ct_len(len as nat),
{
    let mut i: usize = 0;
    while i <= MAX_BUCKET_IDX
        invariant
            i <= MAX_BUCKET_IDX + 1,
            forall|b: nat| b < i ==> len as nat != spec_bucket_size(b) + TAG_LEN,
        decreases MAX_BUCKET_IDX + 1 - i,
    {
        let size = bucket_size(i);
        proof {
            lemma_bucket_size_fits(i as nat);
        }
        if len == size + TAG_LEN {
            return true;
        }
        i = i + 1;
    }
    proof {
        assert(forall|b: nat|
            b <= MAX_BUCKET_IDX ==> len as nat != spec_bucket_size(b) + TAG_LEN);
    }
    false
}

/// The bucket index of a well-formed slot ciphertext length.
pub fn bucket_of_ct_len(len: usize) -> (r: usize)
    requires
        is_bucket_ct_len(len as nat),
    ensures
        r <= MAX_BUCKET_IDX,
        len == spec_bucket_size(r as nat) + TAG_LEN,
{
    let mut i: usize = 0;
    while i < MAX_BUCKET_IDX
        invariant
            i <= MAX_BUCKET_IDX,
            forall|b: nat| b < i ==> len as nat != spec_bucket_size(b) + TAG_LEN,
        decreases MAX_BUCKET_IDX - i,
    {
        let size = bucket_size(i);
        proof {
            lemma_bucket_size_fits(i as nat);
        }
        if len == size + TAG_LEN {
            return i;
        }
        i = i + 1;
    }
    let size = bucket_size(MAX_BUCKET_IDX);
    proof {
        lemma_bucket_size_fits(MAX_BUCKET_IDX as nat);
        let b = spec_bucket_of_ct_len(len as nat);
        assert(b <= MAX_BUCKET_IDX && len as nat == spec_bucket_size(b) + TAG_LEN);
        assert(b == MAX_BUCKET_IDX);
    }
    MAX_BUCKET_IDX
}

/// Pad `data` with random bytes up to the smallest bucket that both
/// holds it and is at least `min_idx`; yields the padded bytes and the
/// chosen bucket index, or nothing when even the largest bucket is too
/// small.
pub fn pad_to_bucket(data: Vec<u8>, min_idx: usize) -> (r: Option<(Vec<u8>, usize)>)
    requires
        min_idx <= MAX_BUCKET_IDX,
    ensures
        r matches Some(t) ==> {
            &&& t.1 >= min_idx
            &&& t.1 <= MAX_BUCKET_IDX
            &&& t.0@.len() == spec_bucket_size(t.1 as nat)
            &&& t.0@.subrange(0, data@.len() as int) == data@
            &&& data@.len() <= spec_bucket_size(t.1 as nat)
            &&& forall|b: nat| min_idx <= b < t.1 ==> spec_bucket_size(b) < data@.len()
        },
        r is None ==> data@.len() > spec_bucket_size(MAX_BUCKET_IDX as nat),
{
    let mut idx: usize = min_idx;
    let mut size: usize = bucket_size(min_idx);
    while size < data.len() && idx < MAX_BUCKET_IDX
        invariant
            min_idx <= idx <= MAX_BUCKET_IDX,
            size == spec_bucket_size(idx as nat),
            forall|b: nat| min_idx <= b < idx ==> spec_bucket_size(b) < data@.len(),
        decreases MAX_BUCKET_IDX - idx,
    {
        proof {
            lemma_bucket_size_fits((idx + 1) as nat);
            lemma_bucket_size_increases(idx as nat, (idx + 1) as nat);
        }
        size = size * 2;
        idx = idx + 1;
    }
    if size < data.len() {
        proof {
            lemma_bucket_size_increases(idx as nat, MAX_BUCKET_IDX as nat);
        }
        return None;
    }
    let pad = random_bytes(size - data.len());
    let mut out = data;
    let ghost data_view = out@;
    out.append(&mut { pad });
    proof {
        assert(out@.subrange(0, data_view.len() as int) =~= data_view);
    }
    Some((out, idx))
}

} // verus!
