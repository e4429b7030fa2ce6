//! A closed, encrypted drawer: one slot of a closet's array.

use vstd::prelude::*;
use vstd::string::StrSliceExecFns;
use vstd::utf8::encode_utf8;
use crate::bucket::{
    bucket_of_ct_len, is_bucket_ct_len, lemma_bucket_size_fits, pad_to_bucket, spec_bucket_of_ct_len,
    spec_bucket_size, MAX_BUCKET_IDX,
};
use crate::codec::{lemma_dec_lp_of_enc, read_lp, spec_dec_lp, spec_lp, write_lp};
use crate::content::{
    content_bounds, lemma_dec_content_of_enc, read_content, spec_content, spec_dec_content,
    write_content, ContentV, DrawerContent, OpenDrawer,
};
use crate::crypt::{
    aead_decrypt, aead_encrypt, kdf_key, random_bytes, sealed_bytes, unsealed_bytes, KEY_LEN,
    MAX_PLAIN_LEN, NONCE_LEN, TAG_LEN,
};
use crate::error::CoreError;
use crate::ser_closet::{closet_wf, SerCloset};

verus! {

/// The ghost image of a slot: its nonce bytes and ciphertext bytes.
#[verifier::ext_equal]
pub struct SlotV {
    pub nonce: Seq<u8>,
    pub ct: Seq<u8>,
}

/// A well-formed slot: the nonce has the cipher's nonce length and the
/// ciphertext is exactly one padded bucket plus the tag, so its length
/// reveals nothing but the bucket.
pub open spec fn slot_wf(s: SlotV) -> bool {
    &&& s.nonce.len() == NONCE_LEN
    &&& is_bucket_ct_len(s.ct.len())
}

/// A closed, encrypted drawer: a fresh random nonce and the
/// authenticated ciphertext of the drawer's padded, serialized content.
/// A decoy slot has exactly the same shape, with random bytes in place
/// of a ciphertext.
pub struct ClosedDrawer {
    nonce: Vec<u8>,
    content: Vec<u8>,
}

impl View for ClosedDrawer {
    type V = SlotV;

    closed spec fn view(&self) -> SlotV {
        SlotV { nonce: self.nonce@, ct: self.content@ }
    }
}

impl ClosedDrawer {
    /// Assemble a slot from its nonce and ciphertext bytes.
    pub fn from_parts(nonce: Vec<u8>, content: Vec<u8>) -> (r: ClosedDrawer)
        ensures
            r@ == (SlotV { nonce: nonce@, ct: content@ }),
    {
        ClosedDrawer { nonce, content }
    }

    /// The slot's nonce bytes.
    pub fn nonce(&self) -> (r: &Vec<u8>)
        ensures
            r@ == self@.nonce,
    {
        &self.nonce
    }

    /// The slot's ciphertext bytes, tag included.
    pub fn ciphertext(&self) -> (r: &Vec<u8>)
        ensures
            r@ == self@.ct,
    {
        &self.content
    }

    /// Whether the slot is well formed.
    pub open spec fn wf(&self) -> bool {
        slot_wf(self@)
    }
}

/// The encoding of one slot: length-prefixed nonce, then
/// length-prefixed ciphertext.
pub open spec fn spec_slot(s: SlotV) -> Seq<u8> {
    spec_lp(s.nonce) + spec_lp(s.ct)
}

/// Decode one slot from the front of `b`.
pub open spec fn spec_dec_slot(b: Seq<u8>) -> Option<(SlotV, nat)> {
    match spec_dec_lp(b) {
        None => None,
        Some((nonce, c1)) => match spec_dec_lp(b.skip(c1 as int)) {
            None => None,
            Some((ct, c2)) => Some((SlotV { nonce, ct }, c1 + c2)),
        },
    }
}

/// Round trip: decoding an encoded slot yields the slot back and
/// consumes exactly its encoding, whatever bytes follow it.
pub proof fn lemma_dec_slot_of_enc(s: SlotV, rest: Seq<u8>)
    requires
        s.nonce.len() <= u64::MAX as nat,
        s.ct.len() <= u64::MAX as nat,
    ensures
        spec_dec_slot(spec_slot(s) + rest) == Some((s, spec_slot(s).len())),
{
    let b = spec_slot(s) + rest;
    assert(b =~= spec_lp(s.nonce) + (spec_lp(s.ct) + rest));
    lemma_dec_lp_of_enc(s.nonce, spec_lp(s.ct) + rest);
    let c1 = spec_lp(s.nonce).len();
    assert(b.skip(c1 as int) =~= spec_lp(s.ct) + rest);
    lemma_dec_lp_of_enc(s.ct, rest);
    let d = spec_dec_slot(b).unwrap();
    assert(d.0 =~= s);
}

/// Append the encoding of the slot to `out`.
pub fn write_slot(out: &mut Vec<u8>, d: &ClosedDrawer)
    ensures
        final(out)@ == old(out)@ + spec_slot(d@),
{
    write_lp(out, &d.nonce);
    write_lp(out, &d.content);
    proof {
        assert(out@ =~= old(out)@ + spec_slot(d@));
    }
}

/// Read one slot starting at `pos`; yields the slot and the position of
/// the first byte after it.
pub fn read_slot(b: &Vec<u8>, pos: usize) -> (r: Option<(ClosedDrawer, usize)>)
    requires
        pos <= b.len(),
    ensures
        match spec_dec_slot(b@.skip(pos as int)) {
            Some(p) => r matches Some(t) && t.0@ == p.0 && t.1 == pos + p.1 && t.1 <= b.len(),
            None => r is None,
        },
{
    match read_lp(b, pos) {
        None => None,
        Some((nonce, p1)) => {
            proof {
                assert(b@.skip(pos as int).skip((p1 - pos) as int) =~= b@.skip(p1 as int));
            }
            match read_lp(b, p1) {
                None => None,
                Some((content, p2)) => Some((ClosedDrawer { nonce, content }, p2)),
            }
        },
    }
}

/// The slot's ciphertext is the seal, under the given key and the
/// slot's own nonce, of the given content followed by the given
/// padding.
pub open spec fn is_key_sealed(slot: SlotV, key: Seq<u8>, content: ContentV, pad: Seq<u8>) -> bool {
    &&& content_bounds(content)
    &&& closet_wf(content.closet)
    &&& (spec_content(content) + pad).len() < MAX_PLAIN_LEN as nat
    &&& slot.ct == sealed_bytes(key, slot.nonce, spec_content(content) + pad)
}

/// The given key decrypts the slot to bytes that parse as a drawer's
/// content.
pub open spec fn key_opens(slot: SlotV, key: Seq<u8>) -> bool {
    match unsealed_bytes(key, slot.nonce, slot.ct) {
        Some(plain) => spec_dec_content(plain) is Some,
        None => false,
    }
}

/// The content that the given key decrypts the slot to.
pub open spec fn key_opened_content(slot: SlotV, key: Seq<u8>) -> ContentV {
    spec_dec_content(unsealed_bytes(key, slot.nonce, slot.ct).unwrap()).unwrap().0
}

/// The key a passphrase yields against a salt.
pub open spec fn pass_key(password: Seq<char>, salt: Seq<u8>) -> Seq<u8> {
    kdf_key(encode_utf8(password), salt)
}

/// A passphrase the key-derivation function accepts.
pub open spec fn pass_ok(password: Seq<char>) -> bool {
    encode_utf8(password).len() <= u32::MAX as nat
}

/// The slot's ciphertext holds the encoded content in the smallest
/// bucket that both fits it and is at least `min_bucket`.
pub open spec fn ct_len_in_min_bucket(ct_len: nat, min_bucket: nat, enc_len: nat) -> bool {
    exists|b: nat|
        {
            &&& min_bucket <= b <= MAX_BUCKET_IDX
            &&& ct_len == #[trigger] spec_bucket_size(b) + TAG_LEN
            &&& enc_len <= spec_bucket_size(b)
            &&& forall|b2: nat| min_bucket <= b2 < b ==> #[trigger] spec_bucket_size(b2) < enc_len
        }
}

/// Bucket monotonicity: a ciphertext in the smallest bucket at least
/// `min_bucket` sits in a well-formed bucket that is no smaller than
/// `min_bucket` — so across saves a drawer's bucket never steps down,
/// and ciphertext length cannot reveal a deletion.
pub proof fn lemma_bucket_never_shrinks(ct_len: nat, min_bucket: nat, enc_len: nat)
    requires
        ct_len_in_min_bucket(ct_len, min_bucket, enc_len),
    ensures
        is_bucket_ct_len(ct_len),
        spec_bucket_of_ct_len(ct_len) >= min_bucket,
{
    let b = choose|b: nat|
        {
            &&& min_bucket <= b <= MAX_BUCKET_IDX
            &&& ct_len == #[trigger] spec_bucket_size(b) + TAG_LEN
            &&& enc_len <= spec_bucket_size(b)
            &&& forall|b2: nat|
                min_bucket <= b2 < b ==> #[trigger] spec_bucket_size(b2) < enc_len
        };
    assert(min_bucket <= b <= MAX_BUCKET_IDX && ct_len == spec_bucket_size(b) + TAG_LEN);
    crate::bucket::lemma_bucket_of_ct_len(b, ct_len);
}

/// The slot's ciphertext is the seal of the given content under the
/// given passphrase and salt, with some padding.
pub open spec fn is_sealed_with(
    slot: SlotV,
    salt: Seq<u8>,
    password: Seq<char>,
    content: ContentV,
    pad: Seq<u8>,
) -> bool {
    &&& pass_ok(password)
    &&& is_key_sealed(slot, pass_key(password, salt), content, pad)
}

/// The passphrase decrypts the slot, against the given salt, to bytes
/// that parse as a drawer's content.
pub open spec fn spec_opens(slot: SlotV, salt: Seq<u8>, password: Seq<char>) -> bool {
    &&& pass_ok(password)
    &&& key_opens(slot, pass_key(password, salt))
}

/// The content the passphrase opens the slot to.
pub open spec fn spec_opened_content(slot: SlotV, salt: Seq<u8>, password: Seq<char>) -> ContentV {
    key_opened_content(slot, pass_key(password, salt))
}

/// When no plaintext at all seals to the slot's ciphertext under the
/// key, no content does.
proof fn lemma_no_seal_when_decrypt_fails(slot: SlotV, key: Seq<u8>)
    requires
        forall|p: Seq<u8>|
            p.len() < MAX_PLAIN_LEN as nat ==> slot.ct != #[trigger] sealed_bytes(
                key,
                slot.nonce,
                p,
            ),
    ensures
        forall|content: ContentV, pad: Seq<u8>| !is_key_sealed(slot, key, content, pad),
{
    assert forall|content: ContentV, pad: Seq<u8>| !is_key_sealed(slot, key, content, pad) by {
        if (spec_content(content) + pad).len() < MAX_PLAIN_LEN as nat {
            assert(slot.ct != sealed_bytes(key, slot.nonce, spec_content(content) + pad));
        }
    }
}

/// When the slot decrypts to `plain` and `plain` is the only plaintext
/// sealing to the slot's ciphertext, any content sealed into the slot
/// is the one `plain` parses to.
proof fn lemma_sealed_content_parses(slot: SlotV, key: Seq<u8>, plain: Seq<u8>)
    requires
        forall|p: Seq<u8>|
            p.len() < MAX_PLAIN_LEN as nat && slot.ct == #[trigger] sealed_bytes(
                key,
                slot.nonce,
                p,
            ) ==> p == plain,
    ensures
        forall|content: ContentV, pad: Seq<u8>|
            #[trigger] is_key_sealed(slot, key, content, pad) ==> spec_dec_content(plain)
                == Some::<(ContentV, nat)>((content, spec_content(content).len())),
{
    assert forall|content: ContentV, pad: Seq<u8>|
        #[trigger] is_key_sealed(slot, key, content, pad) implies spec_dec_content(plain)
        == Some::<(ContentV, nat)>((content, spec_content(content).len())) by {
        assert(spec_content(content) + pad == plain);
        lemma_dec_content_of_enc(content, pad);
    }
}

impl ClosedDrawer {
    /// Make back a closed drawer from an open one: serialize the
    /// content, pad it to its bucket, draw a fresh random nonce, and
    /// encrypt with the key derived from the drawer's retained
    /// passphrase and the closet's salt.
    ///
    /// The bucket never shrinks below the drawer's current bucket, so
    /// ciphertext length cannot reveal a deletion.
    #[verifier::rlimit(100)]
    pub fn from_open_drawer(open_drawer: OpenDrawer, closet: &SerCloset) -> (r: Result<
        ClosedDrawer,
        CoreError,
    >)
        requires
            open_drawer.wf(),
            closet.wf(),
        ensures
            r matches Ok(d) ==> {
                &&& slot_wf(d@)
                &&& exists|pad: Seq<u8>|
                    is_sealed_with(
                        d@,
                        closet@.salt,
                        open_drawer.password@,
                        open_drawer.content@,
                        pad,
                    )
                &&& ct_len_in_min_bucket(
                    d@.ct.len(),
                    open_drawer.bucket as nat,
                    spec_content(open_drawer.content@).len(),
                )
            },
            r matches Err(e) ==> (e == CoreError::Aead && !pass_ok(open_drawer.password@)) || (e
                == CoreError::Internal && spec_content(open_drawer.content@).len()
                > spec_bucket_size(MAX_BUCKET_IDX as nat)),
    {
        let pass_bytes = open_drawer.password.as_str().as_bytes_vec();
        if pass_bytes.len() > 0xFFFF_FFFFusize {
            return Err(CoreError::Aead);
        }
        let key = crate::crypt::kdf_derive(&pass_bytes, &closet.salt);
        let mut plain: Vec<u8> = Vec::new();
        write_content(&mut plain, &open_drawer.content);
        let ghost enc = spec_content(open_drawer.content@);
        let (padded, bucket_idx) = match pad_to_bucket(plain, open_drawer.bucket) {
            None => {
                return Err(CoreError::Internal);
            },
            Some(t) => t,
        };
        let nonce = random_bytes(NONCE_LEN);
        proof {
            lemma_bucket_size_fits(bucket_idx as nat);
        }
        let ct = aead_encrypt(&key, &nonce, &padded);
        let d = ClosedDrawer { nonce, content: ct };
        proof {
            let pad = padded@.skip(enc.len() as int);
            assert(padded@ =~= enc + pad);
            assert(is_sealed_with(
                d@,
                closet@.salt,
                open_drawer.password@,
                open_drawer.content@,
                pad,
            ));
            assert(ct_len_in_min_bucket(
                d@.ct.len(),
                open_drawer.bucket as nat,
                spec_content(open_drawer.content@).len(),
            )) by {
                assert(open_drawer.bucket as nat <= bucket_idx as nat <= MAX_BUCKET_IDX
                    && d@.ct.len() == spec_bucket_size(bucket_idx as nat) + TAG_LEN
                    && spec_content(open_drawer.content@).len() <= spec_bucket_size(
                    bucket_idx as nat,
                ));
                assert(forall|b2: nat|
                    open_drawer.bucket <= b2 < bucket_idx ==> #[trigger] spec_bucket_size(b2)
                        < spec_content(open_drawer.content@).len());
            }
            assert(slot_wf(d@));
        }
        Ok(d)
    }

    /// Try to decrypt the slot with an already-derived key and parse
    /// the plaintext as drawer content.  Failure says nothing about
    /// why: a wrong key, a decoy and corrupt bytes all look the same.
    #[verifier::rlimit(100)]
    pub(crate) fn open_with_key(&self, key: &Vec<u8>) -> (r: Option<DrawerContent>)
        requires
            self.wf(),
            key@.len() == KEY_LEN,
        ensures
            r matches Some(c) ==> key_opens(self@, key@) && c@ == key_opened_content(self@, key@)
                && c.wf() && c.closet.spec_knows_no_free(),
            r is None ==> !key_opens(self@, key@),
            forall|content: ContentV, pad: Seq<u8>|
                is_key_sealed(self@, key@, content, pad) ==> (r matches Some(c) && c@ == content),
    {
        let plain = match aead_decrypt(key, &self.nonce, &self.content) {
            None => {
                proof {
                    lemma_no_seal_when_decrypt_fails(self@, key@);
                }
                return None;
            },
            Some(p) => p,
        };
        proof {
            lemma_sealed_content_parses(self@, key@, plain@);
        }
        let content = match read_content(&plain, 0) {
            None => {
                proof {
                    assert(plain@.skip(0) =~= plain@);
                }
                return None;
            },
            Some(t) => t.0,
        };
        proof {
            assert(plain@.skip(0) =~= plain@);
        }
        Some(content)
    }

    /// Try to decrypt the content with the provided passphrase and the
    /// closet's salt, then return the open drawer with clear data and
    /// the passphrase, to allow re-encrypting.  The same failure is
    /// returned whether the passphrase is wrong, the slot is a decoy,
    /// or the bytes are corrupt: the three are indistinguishable.
    pub fn open(
        &self,
        drawer_idx: usize,
        password: &str,
        closet: &SerCloset,
        open_id: usize,
    ) -> (r: Result<OpenDrawer, CoreError>)
        requires
            self.wf(),
            closet.wf(),
        ensures
            r matches Ok(od) ==> {
                &&& spec_opens(self@, closet@.salt, password@)
                &&& od@.content == spec_opened_content(self@, closet@.salt, password@)
                &&& od.drawer_idx == drawer_idx
                &&& od.open_id == open_id
                &&& od.password@ == password@
                &&& od.wf()
                &&& self@.ct.len() == spec_bucket_size(od.bucket as nat) + TAG_LEN
                &&& od.content.closet.spec_knows_no_free()
            },
            r matches Err(e) ==> e == CoreError::Aead && !spec_opens(
                self@,
                closet@.salt,
                password@,
            ),
            forall|content: ContentV, pad: Seq<u8>|
                is_sealed_with(self@, closet@.salt, password@, content, pad) ==> (
                r matches Ok(od) && od@.content == content),
    {
        let pass_bytes = password.as_bytes_vec();
        if pass_bytes.len() > 0xFFFF_FFFFusize {
            return Err(CoreError::Aead);
        }
        let key = crate::crypt::kdf_derive(&pass_bytes, &closet.salt);
        let content = match self.open_with_key(&key) {
            None => {
                return Err(CoreError::Aead);
            },
            Some(c) => c,
        };
        let bucket = bucket_of_ct_len(self.content.len());
        let od = OpenDrawer {
            drawer_idx,
            password: password.to_owned(),
            open_id,
            bucket,
            content,
        };
        Ok(od)
    }
}

} // verus!
