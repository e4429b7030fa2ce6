//! The serialized closet: the on-disk container.  A salt, a fixed-size
//! array of slots, and a small header.  Parsing does no cryptography.
//!
//! The container grammar is positional: a closet can be decoded from
//! the middle of a byte string (drawer contents embed a nested closet),
//! and the top-level file is a single closet followed by nothing.

use vstd::prelude::*;
use crate::closed_drawer::{
    lemma_dec_slot_of_enc, read_slot, slot_wf, spec_dec_slot, spec_slot, write_slot, ClosedDrawer,
    SlotV,
};
use crate::codec::{
    lemma_dec_lp_of_enc, lemma_dec_varint_of_enc, read_lp, read_varint, spec_dec_lp,
    spec_dec_varint, spec_lp, spec_varint, write_lp, write_varint,
};
use crate::crypt::NONCE_LEN;
use crate::bucket::is_valid_ct_len;
use crate::error::CoreError;

verus! {

/// First bytes of every closet, nested ones included.
pub open spec fn spec_magic() -> Seq<u8> {
    seq![0x43u8, 0x4Cu8, 0x53u8, 0x54u8]
}

/// The single on-disk format version this library reads and writes.
pub const FORMAT_VERSION: u8 = 1;

/// The single KDF parameter set this library knows: Argon2id with the
/// library's fixed parameters.
pub const KDF_ID_ARGON2ID: u8 = 1;

/// Smallest salt length the container accepts.
pub const MIN_SALT_LEN: usize = 16;

/// Largest salt length the container accepts.
pub const MAX_SALT_LEN: usize = 32;

/// The ghost image of a closet: its salt and its slots.  The session's
/// free-slot knowledge is deliberately not part of it: it is never
/// serialized.
#[verifier::ext_equal]
pub struct ClosetV {
    pub salt: Seq<u8>,
    pub slots: Seq<SlotV>,
}

/// A well-formed closet: a salt in range and well-formed slots.
pub open spec fn closet_wf(c: ClosetV) -> bool {
    &&& MIN_SALT_LEN <= c.salt.len() <= MAX_SALT_LEN
    &&& forall|i: int| 0 <= i < c.slots.len() ==> slot_wf(#[trigger] c.slots[i])
}

/// Every count and length in the closet fits the length prefixes of the
/// grammar.  True of any closet held in memory; ghost closets need it
/// stated for the round-trip lemmas.
pub open spec fn closet_bounds(c: ClosetV) -> bool {
    &&& c.salt.len() <= u64::MAX as nat
    &&& c.slots.len() <= u64::MAX as nat
    &&& forall|i: int|
        0 <= i < c.slots.len() ==> (#[trigger] c.slots[i]).nonce.len() <= u64::MAX as nat
            && c.slots[i].ct.len() <= u64::MAX as nat
}

/// The serialized closet held in memory: the salt, the slot array, and
/// the session's knowledge of which slots are free — one flag per
/// slot, true for slots this session itself filled with decoys.  That
/// knowledge is never written to disk: a freshly loaded closet knows
/// no slot to be free, because free slots are indistinguishable from
/// real drawers by design.
pub struct SerCloset {
    pub salt: Vec<u8>,
    pub drawers: Vec<ClosedDrawer>,
    pub free_flags: Vec<bool>,
}

impl View for SerCloset {
    type V = ClosetV;

    open spec fn view(&self) -> ClosetV {
        ClosetV { salt: self.salt@, slots: self.drawers@.map_values(|d: ClosedDrawer| d@) }
    }
}

impl Clone for SerCloset {
    /// Cloning keeps the serialized image and the free-slot knowledge.
    fn clone(&self) -> (r: SerCloset)
        ensures
            r@ == self@,
            r.free_flags@ == self.free_flags@,
    {
        let mut drawers: Vec<ClosedDrawer> = Vec::new();
        let mut i: usize = 0;
        while i < self.drawers.len()
            invariant
                i <= self.drawers@.len(),
                drawers@.len() == i as nat,
                forall|k: int| 0 <= k < i ==> (#[trigger] drawers@[k])@ == self.drawers@[k]@,
            decreases self.drawers@.len() - i,
        {
            let d = &self.drawers[i];
            let nonce = crate::codec::copy_range(d.nonce(), 0, d.nonce().len());
            let ct = crate::codec::copy_range(d.ciphertext(), 0, d.ciphertext().len());
            proof {
                assert(nonce@ =~= self.drawers@[i as int]@.nonce);
                assert(ct@ =~= self.drawers@[i as int]@.ct);
            }
            drawers.push(ClosedDrawer::from_parts(nonce, ct));
            i = i + 1;
        }
        let mut salt: Vec<u8> = Vec::new();
        salt.extend_from_slice(self.salt.as_slice());
        let mut free_flags: Vec<bool> = Vec::new();
        free_flags.extend_from_slice(self.free_flags.as_slice());
        let r = SerCloset { salt, drawers, free_flags };
        proof {
            assert(r@.slots =~= self@.slots);
            assert(r@ =~= self@);
        }
        r
    }
}

impl SerCloset {
    /// Well-formedness: the serialized image is well formed and there
    /// is one free flag per slot.
    pub open spec fn wf(&self) -> bool {
        &&& closet_wf(self@)
        &&& self.free_flags@.len() == self.drawers@.len()
    }

    /// The session knows no slot of this closet to be free.
    pub open spec fn spec_knows_no_free(&self) -> bool {
        forall|i: int| 0 <= i < self.free_flags@.len() ==> !(#[trigger] self.free_flags@[i])
    }

    /// The slot capacity of the closet.
    pub fn slot_count(&self) -> (r: usize)
        ensures
            r == self@.slots.len(),
    {
        self.drawers.len()
    }
}

/// The encoding of a slot sequence: each slot's encoding, one after the
/// other.
pub open spec fn spec_slots(slots: Seq<SlotV>) -> Seq<u8>
    decreases slots.len(),
{
    if slots.len() == 0 {
        Seq::empty()
    } else {
        spec_slot(slots[0]) + spec_slots(slots.drop_first())
    }
}

/// Appending a slot appends its encoding.
pub proof fn lemma_slots_snoc(s: Seq<SlotV>, x: SlotV)
    ensures
        spec_slots(s.push(x)) == spec_slots(s) + spec_slot(x),
    decreases s.len(),
{
    if s.len() == 0 {
        assert(s.push(x)[0] == x);
        assert(s.push(x).drop_first() =~= s);
        assert(spec_slots(s.push(x)) == spec_slot(x) + spec_slots(s));
        assert(spec_slot(x) + spec_slots(s) =~= spec_slots(s) + spec_slot(x));
    } else {
        assert(s.push(x)[0] == s[0]);
        assert(s.push(x).drop_first() =~= s.drop_first().push(x));
        lemma_slots_snoc(s.drop_first(), x);
        assert(spec_slot(s[0]) + (spec_slots(s.drop_first()) + spec_slot(x)) =~= (spec_slot(s[0])
            + spec_slots(s.drop_first())) + spec_slot(x));
    }
}

/// Decode `n` slots from the front of `b`.
pub open spec fn spec_dec_slots(b: Seq<u8>, n: nat) -> Option<(Seq<SlotV>, nat)>
    decreases n,
{
    if n == 0 {
        Some((Seq::empty(), 0))
    } else {
        match spec_dec_slot(b) {
            None => None,
            Some((s, c)) => match spec_dec_slots(b.skip(c as int), (n - 1) as nat) {
                None => None,
                Some((rest, c2)) => Some((seq![s] + rest, c + c2)),
            },
        }
    }
}

/// Round trip for slot sequences, whatever bytes follow the encoding.
pub proof fn lemma_dec_slots_of_enc(slots: Seq<SlotV>, rest: Seq<u8>)
    requires
        forall|i: int|
            0 <= i < slots.len() ==> (#[trigger] slots[i]).nonce.len() <= u64::MAX as nat
                && slots[i].ct.len() <= u64::MAX as nat,
    ensures
        spec_dec_slots(spec_slots(slots) + rest, slots.len()) == Some((
            slots,
            spec_slots(slots).len(),
        )),
    decreases slots.len(),
{
    if slots.len() == 0 {
        assert(spec_dec_slots(spec_slots(slots) + rest, 0).unwrap().0 =~= slots);
    } else {
        let b = spec_slots(slots) + rest;
        assert(b =~= spec_slot(slots[0]) + (spec_slots(slots.drop_first()) + rest));
        lemma_dec_slot_of_enc(slots[0], spec_slots(slots.drop_first()) + rest);
        let c = spec_slot(slots[0]).len();
        assert(b.skip(c as int) =~= spec_slots(slots.drop_first()) + rest);
        lemma_dec_slots_of_enc(slots.drop_first(), rest);
        assert(seq![slots[0]] + slots.drop_first() =~= slots);
    }
}

/// The full encoding of a closet: magic and version, the
/// length-prefixed salt, the KDF parameter identifier, the slot count,
/// and the slots.
pub open spec fn spec_closet(c: ClosetV) -> Seq<u8> {
    spec_magic() + seq![FORMAT_VERSION] + spec_lp(c.salt) + seq![KDF_ID_ARGON2ID] + spec_varint(
        c.slots.len(),
    ) + spec_slots(c.slots)
}

/// Decode one closet from the front of `b`, leaving any trailing bytes
/// alone; yields the closet and the bytes consumed, or the exact error.
/// Structural damage is `CorruptFile`; an unknown version or KDF
/// identifier is `UnsupportedVersion`.
pub open spec fn spec_dec_closet(b: Seq<u8>) -> Result<(ClosetV, nat), CoreError> {
    if b.len() < 5 {
        Err(CoreError::CorruptFile)
    } else if b.subrange(0, 4) != spec_magic() {
        Err(CoreError::CorruptFile)
    } else if b[4] != FORMAT_VERSION {
        Err(CoreError::UnsupportedVersion)
    } else {
        match spec_dec_lp(b.skip(5)) {
            None => Err(CoreError::CorruptFile),
            Some((salt, c1)) => if !(MIN_SALT_LEN <= salt.len() <= MAX_SALT_LEN) {
                Err(CoreError::CorruptFile)
            } else if b.len() == 5 + c1 {
                Err(CoreError::CorruptFile)
            } else if b[(5 + c1) as int] != KDF_ID_ARGON2ID {
                Err(CoreError::UnsupportedVersion)
            } else {
                match spec_dec_varint(b.skip((5 + c1 + 1) as int)) {
                    None => Err(CoreError::CorruptFile),
                    Some((n, c2)) => match spec_dec_slots(b.skip((5 + c1 + 1 + c2) as int), n) {
                        None => Err(CoreError::CorruptFile),
                        Some((slots, c3)) => {
                            let c = ClosetV { salt, slots };
                            if closet_wf(c) {
                                Ok((c, 5 + c1 + 1 + c2 + c3))
                            } else {
                                Err(CoreError::CorruptFile)
                            }
                        },
                    },
                }
            },
        }
    }
}

/// What loading a whole file yields: the single closet its bytes hold,
/// with nothing after it, or the exact error.
pub open spec fn spec_load(b: Seq<u8>) -> Result<ClosetV, CoreError> {
    match spec_dec_closet(b) {
        Err(e) => Err(e),
        Ok((c, used)) => if used != b.len() {
            Err(CoreError::CorruptFile)
        } else if c.slots.len() < MIN_SLOTS {
            Err(CoreError::CorruptFile)
        } else {
            Ok(c)
        },
    }
}

/// Round trip: decoding an encoded closet yields the closet back and
/// consumes exactly its encoding, whatever bytes follow it.
pub proof fn lemma_dec_closet_of_enc(c: ClosetV, rest: Seq<u8>)
    requires
        closet_wf(c),
        closet_bounds(c),
    ensures
        spec_dec_closet(spec_closet(c) + rest) == Ok::<(ClosetV, nat), CoreError>((
            c,
            spec_closet(c).len(),
        )),
{
    let b = spec_closet(c) + rest;
    assert(b.len() >= 5);
    assert(b.subrange(0, 4) =~= spec_magic());
    assert(b[4] == FORMAT_VERSION);
    let tail1 = seq![KDF_ID_ARGON2ID] + spec_varint(c.slots.len()) + spec_slots(c.slots) + rest;
    assert(b.skip(5) =~= spec_lp(c.salt) + tail1);
    lemma_dec_lp_of_enc(c.salt, tail1);
    let c1 = spec_lp(c.salt).len();
    assert(b[(5 + c1) as int] == KDF_ID_ARGON2ID);
    assert(b.skip((5 + c1 + 1) as int) =~= spec_varint(c.slots.len()) + (spec_slots(c.slots)
        + rest));
    lemma_dec_varint_of_enc(c.slots.len(), spec_slots(c.slots) + rest);
    let c2 = spec_varint(c.slots.len()).len();
    assert(b.skip((5 + c1 + 1 + c2) as int) =~= spec_slots(c.slots) + rest);
    lemma_dec_slots_of_enc(c.slots, rest);
    let c3 = spec_slots(c.slots).len();
    assert(5 + c1 + 1 + c2 + c3 == spec_closet(c).len());
    assert(spec_dec_closet(b).unwrap().0 =~= c);
}

/// Loading what was saved yields the closet back, byte-exactly.
pub proof fn lemma_load_of_save(c: ClosetV)
    requires
        closet_wf(c),
        closet_bounds(c),
        c.slots.len() >= MIN_SLOTS,
    ensures
        spec_load(spec_closet(c)) == Ok::<ClosetV, CoreError>(c),
{
    lemma_dec_closet_of_enc(c, Seq::empty());
    assert(spec_closet(c) + Seq::<u8>::empty() =~= spec_closet(c));
}

/// Append the encoding of the closet to `out`.
pub fn write_closet(out: &mut Vec<u8>, closet: &SerCloset)
    ensures
        final(out)@ == old(out)@ + spec_closet(closet@),
        closet_bounds(closet@),
{
    let salt_len = closet.salt.len();
    let slot_count = closet.drawers.len();
    proof {
        assert(closet@.salt.len() == salt_len);
        assert(closet@.slots.len() == slot_count);
    }
    out.push(0x43u8);
    out.push(0x4Cu8);
    out.push(0x53u8);
    out.push(0x54u8);
    out.push(FORMAT_VERSION);
    write_lp(out, &closet.salt);
    out.push(KDF_ID_ARGON2ID);
    write_varint(out, closet.drawers.len() as u64);
    let ghost base = out@;
    proof {
        assert(base =~= old(out)@ + (spec_magic() + seq![FORMAT_VERSION] + spec_lp(closet@.salt)
            + seq![KDF_ID_ARGON2ID] + spec_varint(closet@.slots.len())));
    }
    let mut i: usize = 0;
    while i < closet.drawers.len()
        invariant
            i <= closet.drawers@.len(),
            closet@.slots.len() == closet.drawers@.len(),
            closet@.slots == closet.drawers@.map_values(|d: ClosedDrawer| d@),
            out@ == base + spec_slots(closet@.slots.take(i as int)),
            forall|k: int|
                0 <= k < i ==> (#[trigger] closet@.slots[k]).nonce.len() <= u64::MAX as nat
                    && closet@.slots[k].ct.len() <= u64::MAX as nat,
        decreases closet.drawers@.len() - i,
    {
        let d = &closet.drawers[i];
        proof {
            assert(closet@.slots[i as int] == closet.drawers@[i as int]@);
        }
        let nonce_len = d.nonce().len();
        let ct_len = d.ciphertext().len();
        proof {
            assert(closet@.slots[i as int].nonce.len() == nonce_len);
            assert(closet@.slots[i as int].ct.len() == ct_len);
        }
        write_slot(out, d);
        proof {
            assert(closet@.slots.take((i + 1) as int) =~= closet@.slots.take(i as int).push(
                closet@.slots[i as int],
            ));
            lemma_slots_snoc(closet@.slots.take(i as int), closet@.slots[i as int]);
            assert(base + (spec_slots(closet@.slots.take(i as int)) + spec_slot(
                closet@.slots[i as int],
            )) =~= (base + spec_slots(closet@.slots.take(i as int))) + spec_slot(
                closet@.slots[i as int],
            ));
        }
        i = i + 1;
    }
    proof {
        assert(closet@.slots.take(closet.drawers@.len() as int) =~= closet@.slots);
        assert(base + spec_slots(closet@.slots) =~= old(out)@ + spec_closet(closet@));
    }
}

impl SerCloset {
    /// Serialize the closet to its on-disk bytes.
    pub fn save_bytes(&self) -> (r: Vec<u8>)
        ensures
            r@ == spec_closet(self@),
            closet_bounds(self@),
    {
        let mut out: Vec<u8> = Vec::new();
        write_closet(&mut out, self);
        proof {
            assert(out@ =~= spec_closet(self@));
        }
        out
    }

    /// Parse a whole file into a closet, without any cryptography.  A
    /// freshly loaded closet knows no free slots.
    pub fn load(bytes: &Vec<u8>) -> (r: Result<SerCloset, CoreError>)
        ensures
            r matches Ok(c) ==> spec_load(bytes@) == Ok::<ClosetV, CoreError>(c@) && c.wf()
                && c.spec_knows_no_free(),
            r matches Err(e) ==> spec_load(bytes@) == Err::<ClosetV, CoreError>(e),
    {
        proof {
            assert(bytes@.skip(0) =~= bytes@);
        }
        match read_closet(bytes, 0) {
            Err(e) => Err(e),
            Ok((closet, used)) => {
                if used != bytes.len() {
                    Err(CoreError::CorruptFile)
                } else if closet.slot_count() < MIN_SLOTS {
                    Err(CoreError::CorruptFile)
                } else {
                    Ok(closet)
                }
            },
        }
    }
}

/// Read one closet starting at `pos`; yields the closet and the
/// position of the first byte after it, or the exact error that
/// `spec_dec_closet` gives.  A closet read this way knows no free
/// slots.
#[verifier::rlimit(30)]
pub fn read_closet(bytes: &Vec<u8>, pos: usize) -> (r: Result<(SerCloset, usize), CoreError>)
    requires
        pos <= bytes.len(),
    ensures
        r matches Ok(t) ==> spec_dec_closet(bytes@.skip(pos as int)) == Ok::<
            (ClosetV, nat),
            CoreError,
        >((t.0@, (t.1 - pos) as nat)) && t.0.wf() && t.0.spec_knows_no_free() && pos < t.1
            <= bytes.len(),
        r matches Err(e) ==> spec_dec_closet(bytes@.skip(pos as int)) == Err::<
            (ClosetV, nat),
            CoreError,
        >(e),
{
    let ghost b = bytes@.skip(pos as int);
    if bytes.len() - pos < 5 {
        return Err(CoreError::CorruptFile);
    }
    if !(bytes[pos] == 0x43u8 && bytes[pos + 1] == 0x4Cu8 && bytes[pos + 2] == 0x53u8 && bytes[pos
        + 3] == 0x54u8) {
        proof {
            assert(b.subrange(0, 4) != spec_magic());
        }
        return Err(CoreError::CorruptFile);
    }
    proof {
        assert(b.subrange(0, 4) =~= spec_magic());
    }
    if bytes[pos + 4] != FORMAT_VERSION {
        return Err(CoreError::UnsupportedVersion);
    }
    proof {
        assert(b.skip(5) =~= bytes@.skip((pos + 5) as int));
    }
    let (salt, p1) = match read_lp(bytes, pos + 5) {
        None => {
            return Err(CoreError::CorruptFile);
        },
        Some(t) => t,
    };
    let ghost c1 = (p1 - pos - 5) as nat;
    if salt.len() < MIN_SALT_LEN || salt.len() > MAX_SALT_LEN {
        return Err(CoreError::CorruptFile);
    }
    if p1 == bytes.len() {
        return Err(CoreError::CorruptFile);
    }
    proof {
        assert(b[(5 + c1) as int] == bytes@[p1 as int]);
    }
    if bytes[p1] != KDF_ID_ARGON2ID {
        return Err(CoreError::UnsupportedVersion);
    }
    proof {
        assert(b.skip((5 + c1 + 1) as int) =~= bytes@.skip((p1 + 1) as int));
    }
    let (count, p2) = match read_varint(bytes, p1 + 1) {
        None => {
            return Err(CoreError::CorruptFile);
        },
        Some(t) => t,
    };
    let ghost c2 = (p2 - p1 - 1) as nat;
    proof {
        assert(b.skip((5 + c1 + 1 + c2) as int) =~= bytes@.skip(p2 as int));
    }
    let (drawers, p3) = match read_slots(bytes, p2, count) {
        Err(e) => {
            proof {
                match spec_dec_slots(bytes@.skip(p2 as int), count as nat) {
                    None => {},
                    Some(t) => {
                        let k = choose|k: int| 0 <= k < t.0.len() && !slot_wf(#[trigger] t.0[k]);
                        let c = ClosetV { salt: salt@, slots: t.0 };
                        assert(!slot_wf(c.slots[k]));
                        assert(!closet_wf(c));
                    },
                }
            }
            return Err(e);
        },
        Ok(t) => t,
    };
    let mut free_flags: Vec<bool> = Vec::new();
    while free_flags.len() < drawers.len()
        invariant
            free_flags@.len() <= drawers@.len(),
            forall|i: int| 0 <= i < free_flags@.len() ==> !(#[trigger] free_flags@[i]),
        decreases drawers@.len() - free_flags@.len(),
    {
        free_flags.push(false);
    }
    let closet = SerCloset { salt, drawers, free_flags };
    proof {
        assert(closet_wf(closet@));
        assert(spec_dec_closet(b).unwrap().0 =~= closet@);
    }
    Ok((closet, p3))
}

/// Read `count` slots starting at `pos0`, checking each slot's shape;
/// yields the slots and the position after them.  The error is always
/// `CorruptFile`: either the slots fail to parse, or a parsed slot is
/// malformed.
fn read_slots(bytes: &Vec<u8>, pos0: usize, count: u64) -> (r: Result<
    (Vec<ClosedDrawer>, usize),
    CoreError,
>)
    requires
        pos0 <= bytes.len(),
    ensures
        r matches Ok(t) ==> {
            &&& spec_dec_slots(bytes@.skip(pos0 as int), count as nat) == Some::<
                (Seq<SlotV>, nat),
            >((t.0@.map_values(|d: ClosedDrawer| d@), (t.1 - pos0) as nat))
            &&& pos0 <= t.1 <= bytes.len()
            &&& forall|k: int| 0 <= k < t.0@.len() ==> slot_wf(#[trigger] t.0@[k]@)
        },
        r matches Err(e) ==> e == CoreError::CorruptFile && match spec_dec_slots(
            bytes@.skip(pos0 as int),
            count as nat,
        ) {
            None => true,
            Some(t) => exists|k: int| 0 <= k < t.0.len() && !slot_wf(#[trigger] t.0[k]),
        },
{
    let ghost n = count as nat;
    let ghost b0 = bytes@.skip(pos0 as int);
    let mut drawers: Vec<ClosedDrawer> = Vec::new();
    let mut pos: usize = pos0;
    let mut i: u64 = 0;
    while i < count
        invariant
            i <= count,
            count as nat == n,
            pos0 <= pos <= bytes.len(),
            drawers@.len() == i as nat,
            forall|k: int| 0 <= k < i ==> slot_wf(#[trigger] drawers@[k]@),
            b0 == bytes@.skip(pos0 as int),
            match spec_dec_slots(bytes@.skip(pos as int), (n - i) as nat) {
                Some(t) => spec_dec_slots(b0, n) == Some::<(Seq<SlotV>, nat)>((
                    drawers@.map_values(|d: ClosedDrawer| d@) + t.0,
                    (pos - pos0) as nat + t.1,
                )),
                None => spec_dec_slots(b0, n) is None,
            },
        decreases count - i,
    {
        let (slot, pnext) = match read_slot(bytes, pos) {
            None => {
                return Err(CoreError::CorruptFile);
            },
            Some(t) => t,
        };
        if slot.nonce().len() != NONCE_LEN || !is_valid_ct_len(slot.ciphertext().len()) {
            proof {
                lemma_bad_slot_means_corrupt(
                    bytes@,
                    b0,
                    pos0 as nat,
                    pos as nat,
                    n,
                    i as nat,
                    drawers@.map_values(|d: ClosedDrawer| d@),
                    slot@,
                );
            }
            return Err(CoreError::CorruptFile);
        }
        let ghost prev_views = drawers@.map_values(|d: ClosedDrawer| d@);
        drawers.push(slot);
        proof {
            assert(drawers@.map_values(|d: ClosedDrawer| d@) =~= prev_views.push(slot@));
            assert(bytes@.skip(pos as int).skip((pnext - pos) as int) =~= bytes@.skip(
                pnext as int,
            ));
            let tail = spec_dec_slots(bytes@.skip(pnext as int), (n - i - 1) as nat);
            if tail is Some {
                let t = tail.unwrap();
                assert(spec_dec_slots(bytes@.skip(pos as int), (n - i) as nat) == Some::<
                    (Seq<SlotV>, nat),
                >((seq![slot@] + t.0, (pnext - pos) as nat + t.1)));
                assert(prev_views + (seq![slot@] + t.0) =~= (prev_views.push(slot@)) + t.0);
            } else {
                assert(spec_dec_slots(bytes@.skip(pos as int), (n - i) as nat) is None);
            }
        }
        pos = pnext;
        i = i + 1;
    }
    proof {
        assert(spec_dec_slots(bytes@.skip(pos as int), 0) == Some::<(Seq<SlotV>, nat)>((
            Seq::empty(),
            0,
        )));
        assert(drawers@.map_values(|d: ClosedDrawer| d@) + Seq::<SlotV>::empty()
            =~= drawers@.map_values(|d: ClosedDrawer| d@));
    }
    Ok((drawers, pos))
}

/// The shape of every decoy the session writes: a nonce of the
/// cipher's nonce length and a body exactly one base bucket plus tag
/// long — byte-for-byte the shape of the smallest real ciphertext.
pub open spec fn spec_decoy_shape(s: SlotV) -> bool {
    &&& s.nonce.len() == NONCE_LEN
    &&& s.ct.len() == crate::bucket::BASE_BUCKET_SIZE + crate::crypt::TAG_LEN
}

/// A fresh decoy: a random nonce and a random body shaped exactly like
/// the smallest real ciphertext.  Unused capacity is indistinguishable
/// from real drawers because every slot has this same shape.
pub fn make_decoy() -> (r: ClosedDrawer)
    ensures
        slot_wf(r@),
        spec_decoy_shape(r@),
{
    let nonce = crate::crypt::random_bytes(NONCE_LEN);
    let body = crate::crypt::random_bytes(crate::bucket::BASE_BUCKET_SIZE + crate::crypt::TAG_LEN);
    let r = ClosedDrawer::from_parts(nonce, body);
    proof {
        assert(crate::bucket::spec_bucket_size(0) == crate::bucket::BASE_BUCKET_SIZE as nat);
    }
    r
}

/// Fixed minimum slot capacity of a closet that holds any real drawer.
pub const MIN_SLOTS: usize = 50;

/// Largest slot capacity the library will grow a closet to.
pub const MAX_SLOT_COUNT: usize = 0x100_0000;

impl SerCloset {
    /// Derive the symmetric key for a passphrase against this closet's
    /// salt.  Fails only on a passphrase too long for the KDF.
    pub(crate) fn derive_key(&self, password: &str) -> (r: Option<Vec<u8>>)
        requires
            self.wf(),
        ensures
            r matches Some(k) ==> k@ == crate::closed_drawer::pass_key(password@, self@.salt)
                && k@.len() == crate::crypt::KEY_LEN && crate::closed_drawer::pass_ok(password@),
            r is None ==> !crate::closed_drawer::pass_ok(password@),
    {
        let pass_bytes = password.as_bytes_vec();
        if pass_bytes.len() > 0xFFFF_FFFFusize {
            return None;
        }
        Some(crate::crypt::kdf_derive(&pass_bytes, &self.salt))
    }

    /// A fresh, empty nested closet: a new salt and no slots yet.  Its
    /// capacity grows to the minimum the first time a drawer is
    /// created inside it.
    pub fn new_nested() -> (r: SerCloset)
        ensures
            r.wf(),
            r@.slots.len() == 0,
            r@.salt.len() == 16,
            r.spec_knows_no_free(),
    {
        let salt = crate::crypt::random_bytes(16);
        let r = SerCloset { salt, drawers: Vec::new(), free_flags: Vec::new() };
        proof {
            assert(r@.slots =~= Seq::<SlotV>::empty());
        }
        r
    }

    /// Grow the slot capacity: to the minimum when empty, else by
    /// doubling.  Every new slot is a fresh decoy, and the session
    /// knows it to be free.  Existing slots are untouched.
    pub fn grow(&mut self) -> (r: Result<(), CoreError>)
        requires
            old(self).wf(),
        ensures
            final(self).wf(),
            final(self)@.salt == old(self)@.salt,
            r is Ok ==> {
                &&& final(self)@.slots.len() == if 2 * old(self)@.slots.len() >= MIN_SLOTS as nat {
                    2 * old(self)@.slots.len()
                } else {
                    MIN_SLOTS as nat
                }
                &&& final(self)@.slots.len() > old(self)@.slots.len()
                &&& final(self)@.slots.take(old(self)@.slots.len() as int) == old(self)@.slots
                &&& final(self).free_flags@.take(old(self)@.slots.len() as int) == old(
                    self,
                ).free_flags@
                &&& forall|k: int|
                    old(self)@.slots.len() <= k < final(self)@.slots.len()
                        ==> final(self).free_flags@[k]
                &&& forall|k: int|
                    old(self)@.slots.len() <= k < final(self)@.slots.len() ==> spec_decoy_shape(
                        #[trigger] final(self)@.slots[k],
                    )
            },
            r is Err ==> final(self)@ == old(self)@ && final(self).free_flags@ == old(
                self,
            ).free_flags@ && r == Err::<(), CoreError>(CoreError::Internal) && old(
                self,
            )@.slots.len() > MAX_SLOT_COUNT / 2,
    {
        let len = self.drawers.len();
        if len > MAX_SLOT_COUNT / 2 {
            return Err(CoreError::Internal);
        }
        let target: usize = if 2 * len >= MIN_SLOTS {
            2 * len
        } else {
            MIN_SLOTS
        };
        let ghost old_slots = self@.slots;
        let ghost old_flags = self.free_flags@;
        while self.drawers.len() < target
            invariant
                len <= self.drawers@.len() <= target,
                self.salt@ == old(self)@.salt,
                old_slots == old(self)@.slots,
                old_flags == old(self).free_flags@,
                old(self).wf(),
                old_slots.len() == len,
                self@.slots.len() == self.drawers@.len(),
                self.free_flags@.len() == self.drawers@.len(),
                self@.slots.take(len as int) == old_slots,
                self.free_flags@.take(len as int) == old_flags,
                forall|k: int| len <= k < self@.slots.len() ==> slot_wf(#[trigger] self@.slots[k]),
                forall|k: int|
                    len <= k < self@.slots.len() ==> spec_decoy_shape(#[trigger] self@.slots[k]),
                forall|k: int| len <= k < self.free_flags@.len() ==> self.free_flags@[k],
            decreases target - self.drawers@.len(),
        {
            let ghost prev_slots = self@.slots;
            let ghost prev_flags = self.free_flags@;
            let d = make_decoy();
            let ghost dv = d@;
            self.drawers.push(d);
            self.free_flags.push(true);
            proof {
                assert(self@.slots =~= prev_slots.push(dv));
                assert(self@.slots.take(len as int) =~= prev_slots.take(len as int));
                assert(self.free_flags@.take(len as int) =~= prev_flags.take(len as int));
            }
        }
        proof {
            assert(forall|k: int|
                0 <= k < len ==> #[trigger] self@.slots[k] == self@.slots.take(len as int)[k]);
        }
        Ok(())
    }
}

impl SerCloset {
    /// A brand-new top-level closet: a fresh salt, the minimum
    /// capacity all filled with decoys, and one real drawer with empty
    /// content sealed under `passphrase` at a random slot — so the
    /// first save is indistinguishable from any later one.
    #[verifier::rlimit(50)]
    pub fn new(passphrase: &str) -> (r: Result<SerCloset, CoreError>)
        ensures
            r matches Ok(c) ==> {
                &&& c.wf()
                &&& c@.slots.len() == MIN_SLOTS
                &&& c@.salt.len() == 16
                &&& exists|i: int, content: crate::content::ContentV, pad: Seq<u8>|
                    {
                        &&& 0 <= i < MIN_SLOTS
                        &&& #[trigger] crate::closed_drawer::is_sealed_with(
                            c@.slots[i],
                            c@.salt,
                            passphrase@,
                            content,
                            pad,
                        )
                        &&& content.entries.len() == 0
                        &&& forall|j: int|
                            0 <= j < MIN_SLOTS ==> (#[trigger] c.free_flags@[j]) == (j != i)
                    }
            },
            r matches Err(e) ==> e == CoreError::Aead && !crate::closed_drawer::pass_ok(
                passphrase@,
            ),
    {
        let salt = crate::crypt::random_bytes(16);
        let mut drawers: Vec<ClosedDrawer> = Vec::new();
        let mut k: usize = 0;
        while k < MIN_SLOTS
            invariant
                k <= MIN_SLOTS,
                drawers@.len() == k,
                forall|a: int| 0 <= a < k ==> slot_wf(#[trigger] drawers@[a]@),
            decreases MIN_SLOTS - k,
        {
            drawers.push(make_decoy());
            k = k + 1;
        }
        let r64: u64 = rand::random::<u64>();
        let idx: usize = (r64 % (MIN_SLOTS as u64)) as usize;
        let mut flags: Vec<bool> = Vec::new();
        let mut j: usize = 0;
        while j < MIN_SLOTS
            invariant
                j <= MIN_SLOTS,
                idx < MIN_SLOTS,
                flags@.len() == j,
                forall|a: int| 0 <= a < j ==> (#[trigger] flags@[a]) == (a != idx),
            decreases MIN_SLOTS - j,
        {
            flags.push(j != idx);
            j = j + 1;
        }
        let content = crate::content::DrawerContent {
            entries: Vec::new(),
            settings: crate::content::DrawerSettings::default(),
            closet: SerCloset::new_nested(),
        };
        let od = crate::content::OpenDrawer {
            drawer_idx: idx,
            password: passphrase.to_owned(),
            open_id: 0,
            bucket: 0,
            content,
        };
        let ghost od_content = od.content@;
        let ghost od_pw = od.password@;
        let mut closet = SerCloset { salt, drawers, free_flags: flags };
        proof {
            assert(od_pw == passphrase@);
            assert(od_content.entries =~= Seq::<crate::content::EntryV>::empty());
            assert(closet.wf());
            crate::content::lemma_empty_content_len(od_content);
            crate::bucket::lemma_bucket_size_min(crate::bucket::MAX_BUCKET_IDX as nat);
        }
        let sealed = match ClosedDrawer::from_open_drawer(od, &closet) {
            Err(e) => {
                return Err(CoreError::Aead);
            },
            Ok(d) => d,
        };
        let ghost salt0 = closet@.salt;
        closet.drawers.set(idx, sealed);
        proof {
            let pad = choose|pad: Seq<u8>|
                crate::closed_drawer::is_sealed_with(sealed@, salt0, od_pw, od_content, pad);
            assert(closet@.slots[idx as int] == sealed@);
            assert(crate::closed_drawer::is_sealed_with(
                closet@.slots[idx as int],
                closet@.salt,
                passphrase@,
                od_content,
                pad,
            ));
            assert(closet.wf());
        }
        Ok(closet)
    }
}

impl SerCloset {
    /// Take the slot at `idx` out of the array; later slots shift
    /// down, and the free flags shift with them.
    pub fn remove_slot(&mut self, idx: usize) -> (r: ClosedDrawer)
        requires
            old(self).wf(),
            idx < old(self)@.slots.len(),
        ensures
            final(self).wf(),
            r@ == old(self)@.slots[idx as int],
            final(self)@.slots == old(self)@.slots.remove(idx as int),
            final(self)@.salt == old(self)@.salt,
            final(self).free_flags@ == old(self).free_flags@.remove(idx as int),
    {
        let d = self.drawers.remove(idx);
        self.free_flags.remove(idx);
        proof {
            assert(self@.slots =~= old(self)@.slots.remove(idx as int));
        }
        d
    }

    /// Put a slot back at `idx`; later slots shift up, and the free
    /// flags shift with them.
    pub fn insert_slot(&mut self, idx: usize, d: ClosedDrawer, free: bool)
        requires
            old(self).wf(),
            idx <= old(self)@.slots.len(),
            slot_wf(d@),
        ensures
            final(self).wf(),
            final(self)@.slots == old(self)@.slots.insert(idx as int, d@),
            final(self)@.salt == old(self)@.salt,
            final(self).free_flags@ == old(self).free_flags@.insert(idx as int, free),
    {
        let ghost dv = d@;
        self.drawers.insert(idx, d);
        self.free_flags.insert(idx, free);
        proof {
            assert(self@.slots =~= old(self)@.slots.insert(idx as int, dv));
        }
    }

    /// Overwrite the slot at `idx`, keeping its free flag.
    pub fn set_slot(&mut self, idx: usize, d: ClosedDrawer)
        requires
            old(self).wf(),
            idx < old(self)@.slots.len(),
            slot_wf(d@),
        ensures
            final(self).wf(),
            final(self)@.slots == old(self)@.slots.update(idx as int, d@),
            final(self)@.salt == old(self)@.salt,
            final(self).free_flags@ == old(self).free_flags@,
    {
        let ghost dv = d@;
        self.drawers.set(idx, d);
        proof {
            assert(self@.slots =~= old(self)@.slots.update(idx as int, dv));
        }
    }

    /// Top the capacity up to the minimum with fresh decoys, all of
    /// them known free.  A closet that already meets the minimum is
    /// untouched.  This restores the on-disk floor before a save, in
    /// case slots taken by open drawers were never given back.
    pub fn ensure_min_slots(&mut self)
        requires
            old(self).wf(),
        ensures
            final(self).wf(),
            final(self)@.salt == old(self)@.salt,
            final(self)@.slots.len() >= MIN_SLOTS,
            final(self)@.slots.len() >= old(self)@.slots.len(),
            final(self)@.slots.take(old(self)@.slots.len() as int) == old(self)@.slots,
            final(self).free_flags@.take(old(self)@.slots.len() as int) == old(self).free_flags@,
            forall|k: int|
                old(self)@.slots.len() <= k < final(self)@.slots.len() ==> spec_decoy_shape(
                    #[trigger] final(self)@.slots[k],
                ),
            old(self)@.slots.len() >= MIN_SLOTS ==> final(self)@ == old(self)@ && final(self).free_flags@ == old(self).free_flags@,
    {
        let len = self.drawers.len();
        let ghost old_slots = self@.slots;
        let ghost old_flags = self.free_flags@;
        while self.drawers.len() < MIN_SLOTS
            invariant
                len <= self.drawers@.len(),
                len >= MIN_SLOTS ==> self.drawers@.len() == len,
                len < MIN_SLOTS ==> self.drawers@.len() <= MIN_SLOTS,
                self.salt@ == old(self)@.salt,
                old_slots == old(self)@.slots,
                old_flags == old(self).free_flags@,
                old(self).wf(),
                old_slots.len() == len,
                self@.slots.len() == self.drawers@.len(),
                self.free_flags@.len() == self.drawers@.len(),
                self@.slots.take(len as int) == old_slots,
                self.free_flags@.take(len as int) == old_flags,
                forall|k: int| len <= k < self@.slots.len() ==> slot_wf(#[trigger] self@.slots[k]),
                forall|k: int|
                    len <= k < self@.slots.len() ==> spec_decoy_shape(#[trigger] self@.slots[k]),
            decreases MIN_SLOTS - self.drawers@.len(),
        {
            let ghost prev_slots = self@.slots;
            let ghost prev_flags = self.free_flags@;
            let d = make_decoy();
            let ghost dv = d@;
            self.drawers.push(d);
            self.free_flags.push(true);
            proof {
                assert(self@.slots =~= prev_slots.push(dv));
                assert(self@.slots.take(len as int) =~= prev_slots.take(len as int));
                assert(self.free_flags@.take(len as int) =~= prev_flags.take(len as int));
            }
        }
        proof {
            assert(forall|k: int|
                0 <= k < len ==> #[trigger] self@.slots[k] == self@.slots.take(len as int)[k]);
            if old(self)@.slots.len() >= MIN_SLOTS {
                assert(self@ =~= old(self)@);
                assert(self.free_flags@ =~= old(self).free_flags@);
            }
        }
    }

    /// The first slot the session knows to be free, if any.
    pub fn find_free(&self) -> (r: Option<usize>)
        requires
            self.wf(),
        ensures
            r matches Some(i) ==> i < self@.slots.len() && self.free_flags@[i as int],
            r is None ==> forall|i: int|
                0 <= i < self.free_flags@.len() ==> !(#[trigger] self.free_flags@[i]),
    {
        let mut i: usize = 0;
        while i < self.free_flags.len()
            invariant
                i <= self.free_flags@.len(),
                self.free_flags@.len() == self.drawers@.len(),
                forall|k: int| 0 <= k < i ==> !(#[trigger] self.free_flags@[k]),
            decreases self.free_flags@.len() - i,
        {
            if self.free_flags[i] {
                return Some(i);
            }
            i = i + 1;
        }
        None
    }

    /// Replace every slot the session knows to be free with a brand
    /// new decoy: fresh nonce, fresh random body.
    pub fn refresh_decoys(&mut self)
        requires
            old(self).wf(),
        ensures
            final(self).wf(),
            final(self)@.salt == old(self)@.salt,
            final(self)@.slots.len() == old(self)@.slots.len(),
            final(self).free_flags@ == old(self).free_flags@,
            forall|i: int|
                0 <= i < old(self)@.slots.len() && !old(self).free_flags@[i]
                    ==> final(self)@.slots[i] == old(self)@.slots[i],
            forall|i: int|
                0 <= i < old(self)@.slots.len() && old(self).free_flags@[i] ==> spec_decoy_shape(
                    #[trigger] final(self)@.slots[i],
                ),
    {
        let mut i: usize = 0;
        while i < self.drawers.len()
            invariant
                i <= self.drawers@.len(),
                self.wf(),
                self@.salt == old(self)@.salt,
                self@.slots.len() == old(self)@.slots.len(),
                self.free_flags@ == old(self).free_flags@,
                forall|k: int|
                    0 <= k < old(self)@.slots.len() && !old(self).free_flags@[k]
                        ==> self@.slots[k] == old(self)@.slots[k],
                forall|k: int|
                    0 <= k < i && old(self).free_flags@[k] ==> spec_decoy_shape(
                        #[trigger] self@.slots[k],
                    ),
            decreases self.drawers@.len() - i,
        {
            if self.free_flags[i] {
                self.set_slot(i, make_decoy());
            }
            i = i + 1;
        }
    }
}

impl SerCloset {
    /// Try an already-derived key against every slot.  The whole array
    /// is always swept — a hit does not stop the scan — so the work
    /// done does not depend on where, or whether, a slot opened.
    /// Yields the first slot that opened, with its content.
    pub(crate) fn sweep_with_key(&self, key: &Vec<u8>) -> (r: Option<(
        usize,
        crate::content::DrawerContent,
    )>)
        requires
            self.wf(),
            key@.len() == crate::crypt::KEY_LEN,
        ensures
            r matches Some(t) ==> {
                &&& t.0 < self@.slots.len()
                &&& crate::closed_drawer::key_opens(self@.slots[t.0 as int], key@)
                &&& t.1@ == crate::closed_drawer::key_opened_content(
                    self@.slots[t.0 as int],
                    key@,
                )
                &&& forall|j: int|
                    0 <= j < t.0 ==> !crate::closed_drawer::key_opens(
                        #[trigger] self@.slots[j],
                        key@,
                    )
                &&& t.1.wf()
                &&& t.1.closet.spec_knows_no_free()
            },
            r is None ==> forall|j: int|
                0 <= j < self@.slots.len() ==> !crate::closed_drawer::key_opens(
                    #[trigger] self@.slots[j],
                    key@,
                ),
            r is None ==> forall|j: int, content: crate::content::ContentV, pad: Seq<u8>|
                0 <= j < self@.slots.len() ==> !(#[trigger] crate::closed_drawer::is_key_sealed(
                    self@.slots[j],
                    key@,
                    content,
                    pad,
                )),
    {
        let mut found: Option<(usize, crate::content::DrawerContent)> = None;
        let mut i: usize = 0;
        while i < self.drawers.len()
            invariant
                i <= self.drawers@.len(),
                self.wf(),
                key@.len() == crate::crypt::KEY_LEN,
                found matches Some(t) ==> {
                    &&& t.0 < i
                    &&& crate::closed_drawer::key_opens(self@.slots[t.0 as int], key@)
                    &&& t.1@ == crate::closed_drawer::key_opened_content(
                        self@.slots[t.0 as int],
                        key@,
                    )
                    &&& forall|j: int|
                        0 <= j < t.0 ==> !crate::closed_drawer::key_opens(
                            #[trigger] self@.slots[j],
                            key@,
                        )
                    &&& t.1.wf()
                    &&& t.1.closet.spec_knows_no_free()
                },
                found is None ==> forall|j: int|
                    0 <= j < i ==> !crate::closed_drawer::key_opens(
                        #[trigger] self@.slots[j],
                        key@,
                    ),
                found is None ==> forall|j: int, content: crate::content::ContentV, pad: Seq<u8>|
                    0 <= j < i ==> !(#[trigger] crate::closed_drawer::is_key_sealed(
                        self@.slots[j],
                        key@,
                        content,
                        pad,
                    )),
            decreases self.drawers@.len() - i,
        {
            proof {
                assert(slot_wf(self@.slots[i as int]));
                assert(self.drawers@[i as int]@ == self@.slots[i as int]);
            }
            let attempt = self.drawers[i].open_with_key(key);
            match attempt {
                Some(content) => {
                    if found.is_none() {
                        found = Some((i, content));
                    }
                },
                None => {},
            }
            i = i + 1;
        }
        found
    }
}

/// The shape of a slot: everything its encoding's length depends on.
pub open spec fn slot_shape(s: SlotV) -> (nat, nat) {
    (s.nonce.len(), s.ct.len())
}

/// The encoded length of a slot of the given shape.
pub open spec fn shape_len(p: (nat, nat)) -> nat {
    spec_varint(p.0).len() + p.0 + spec_varint(p.1).len() + p.1
}

/// The encoded length of a sequence of slot shapes.
pub open spec fn shapes_len(sh: Seq<(nat, nat)>) -> nat
    decreases sh.len(),
{
    if sh.len() == 0 {
        0
    } else {
        shape_len(sh[0]) + shapes_len(sh.drop_first())
    }
}

/// A slot sequence's encoding is as long as its shapes say.
proof fn lemma_slots_len_is_shapes_len(slots: Seq<SlotV>)
    ensures
        spec_slots(slots).len() == shapes_len(slots.map_values(|s: SlotV| slot_shape(s))),
    decreases slots.len(),
{
    let sh = slots.map_values(|s: SlotV| slot_shape(s));
    if slots.len() == 0 {
    } else {
        lemma_slots_len_is_shapes_len(slots.drop_first());
        assert(slots.drop_first().map_values(|s: SlotV| slot_shape(s)) =~= sh.drop_first());
        assert(spec_slot(slots[0]).len() == shape_len(sh[0]));
    }
}

/// Removing one shape removes its length.
proof fn lemma_shapes_len_remove(sh: Seq<(nat, nat)>, j: int)
    requires
        0 <= j < sh.len(),
    ensures
        shapes_len(sh) == shapes_len(sh.remove(j)) + shape_len(sh[j]),
    decreases j,
{
    if j == 0 {
        assert(sh.remove(0) =~= sh.drop_first());
    } else {
        assert(sh.remove(j).drop_first() =~= sh.drop_first().remove(j - 1));
        lemma_shapes_len_remove(sh.drop_first(), j - 1);
        assert(sh.remove(j)[0] == sh[0]);
        assert(sh.drop_first()[j - 1] == sh[j]);
    }
}

/// The total length of a shape sequence depends only on its multiset:
/// rearranging slots never changes the file size.
proof fn lemma_shapes_len_multiset(sh1: Seq<(nat, nat)>, sh2: Seq<(nat, nat)>)
    requires
        sh1.to_multiset() == sh2.to_multiset(),
    ensures
        shapes_len(sh1) == shapes_len(sh2),
    decreases sh1.len(),
{
    sh1.to_multiset_ensures();
    sh2.to_multiset_ensures();
    if sh1.len() == 0 {
        assert(sh2.len() == 0);
        assert(sh2 =~= Seq::<(nat, nat)>::empty());
    } else {
        let last = sh1.len() - 1;
        let x = sh1[last];
        assert(sh1.to_multiset().count(x) > 0);
        assert(sh2.to_multiset().count(x) > 0);
        assert(sh2.contains(x));
        let j = choose|j: int| 0 <= j < sh2.len() && sh2[j] == x;
        assert(sh1.remove(last).to_multiset() == sh1.to_multiset().remove(x));
        assert(sh2.remove(j).to_multiset() == sh2.to_multiset().remove(x));
        lemma_shapes_len_multiset(sh1.remove(last), sh2.remove(j));
        lemma_shapes_len_remove(sh1, last);
        lemma_shapes_len_remove(sh2, j);
    }
}

/// Two closets with equally long salts, the same slot count, and the
/// same multiset of slot shapes serialize to files of exactly the same
/// length: an observer of file sizes learns nothing beyond the slot
/// count and the multiset of padded bucket sizes.
pub proof fn lemma_equal_shapes_equal_length(a: ClosetV, b: ClosetV)
    requires
        a.salt.len() == b.salt.len(),
        a.slots.len() == b.slots.len(),
        a.slots.map_values(|s: SlotV| slot_shape(s)).to_multiset() == b.slots.map_values(
            |s: SlotV| slot_shape(s),
        ).to_multiset(),
    ensures
        spec_closet(a).len() == spec_closet(b).len(),
{
    lemma_slots_len_is_shapes_len(a.slots);
    lemma_slots_len_is_shapes_len(b.slots);
    lemma_shapes_len_multiset(
        a.slots.map_values(|s: SlotV| slot_shape(s)),
        b.slots.map_values(|s: SlotV| slot_shape(s)),
    );
}

/// When the slot parsed at position `pos` is malformed, the whole parse
/// is corrupt: some slot of the parsed sequence is malformed.
proof fn lemma_bad_slot_means_corrupt(
    bytes: Seq<u8>,
    b0: Seq<u8>,
    pos0: nat,
    pos: nat,
    n: nat,
    i: nat,
    acc: Seq<SlotV>,
    s: SlotV,
)
    requires
        i < n,
        pos0 <= pos <= bytes.len(),
        b0 == bytes.skip(pos0 as int),
        acc.len() == i,
        spec_dec_slot(bytes.skip(pos as int)) matches Some(p) && p.0 == s,
        !slot_wf(s),
        match spec_dec_slots(bytes.skip(pos as int), (n - i) as nat) {
            Some(t) => spec_dec_slots(b0, n) == Some::<(Seq<SlotV>, nat)>((
                acc + t.0,
                (pos - pos0) as nat + t.1,
            )),
            None => spec_dec_slots(b0, n) is None,
        },
    ensures
        spec_dec_slots(b0, n) matches Some(t) ==> exists|k: int|
            0 <= k < t.0.len() && !slot_wf(#[trigger] t.0[k]),
{
    let here = spec_dec_slots(bytes.skip(pos as int), (n - i) as nat);
    if here is Some {
        let p = spec_dec_slot(bytes.skip(pos as int)).unwrap();
        let tail = spec_dec_slots(bytes.skip(pos as int).skip(p.1 as int), (n - i - 1) as nat);
        assert(tail is Some);
        let t = tail.unwrap();
        assert(here.unwrap().0 == seq![s] + t.0);
        let full = spec_dec_slots(b0, n).unwrap();
        assert(full.0 == acc + (seq![s] + t.0));
        assert((acc + (seq![s] + t.0))[i as int] == s);
        assert(full.0[i as int] == s);
        assert(!slot_wf(full.0[i as int]));
    }
}

} // verus!
