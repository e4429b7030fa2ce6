//! Drawer contents: the entries, the per-drawer settings and the
//! nested closet that every drawer carries — and the open drawer, the
//! runtime object holding decrypted content together with its retained
//! passphrase.

use vstd::prelude::*;
use vstd::string::StrSliceExecFns;
use vstd::utf8::{
    decode_utf8, encode_utf8, encode_utf8_decode_utf8, encode_utf8_valid_utf8, valid_utf8,
};
use crate::bucket::MAX_BUCKET_IDX;
use crate::codec::{
    lemma_dec_lp_of_enc, lemma_dec_varint_of_enc, read_lp, read_varint, spec_dec_lp,
    spec_dec_varint, spec_lp, spec_varint, write_lp, write_varint,
};
use crate::crypt::string_from_bytes;
use crate::ser_closet::{
    closet_bounds, closet_wf, lemma_dec_closet_of_enc, read_closet, spec_closet, spec_dec_closet,
    write_closet, ClosetV, SerCloset,
};

verus! {

/// The ghost image of an entry: its name and value as character
/// sequences.
#[verifier::ext_equal]
pub struct EntryV {
    pub name: Seq<char>,
    pub value: Seq<char>,
}

/// One name/value pair of a drawer.  Order among entries is
/// user-visible and preserved; duplicate names are permitted.
#[derive(Debug)]
pub struct Entry {
    pub name: String,
    pub value: String,
}

impl Clone for Entry {
    /// Cloning keeps both fields.
    fn clone(&self) -> (r: Entry)
        ensures
            r@ == self@,
    {
        Entry { name: self.name.clone(), value: self.value.clone() }
    }
}

impl View for Entry {
    type V = EntryV;

    open spec fn view(&self) -> EntryV {
        EntryV { name: self.name@, value: self.value@ }
    }
}

/// An entry is empty exactly when both its fields are empty.
pub open spec fn entry_is_empty(e: EntryV) -> bool {
    e.name.len() == 0 && e.value.len() == 0
}

impl Entry {
    /// Build an entry from its two fields.
    pub fn new(name: String, value: String) -> (r: Entry)
        ensures
            r@ == (EntryV { name: name@, value: value@ }),
    {
        Entry { name, value }
    }

    /// Whether both fields are empty.
    pub fn is_empty(&self) -> (r: bool)
        ensures
            r == entry_is_empty(self@),
    {
        self.name.as_str().is_empty() && self.value.as_str().is_empty()
    }
}

impl Default for Entry {
    /// The empty entry.
    fn default() -> (r: Entry)
        ensures
            entry_is_empty(r@),
    {
        Entry { name: String::new(), value: String::new() }
    }
}

/// Per-drawer settings, persisted inside the drawer and never leaked
/// through the container.
#[derive(Debug, Clone, Copy, PartialEq, Eq, Structural)]
pub struct DrawerSettings {
    pub hide_values: bool,
    pub open_all_values: bool,
}

impl Default for DrawerSettings {
    /// Both settings start switched off.
    fn default() -> (r: DrawerSettings)
        ensures
            !r.hide_values,
            !r.open_all_values,
    {
        DrawerSettings { hide_values: false, open_all_values: false }
    }
}

/// The ghost image of a drawer's content.
#[verifier::ext_equal]
pub struct ContentV {
    pub entries: Seq<EntryV>,
    pub settings: DrawerSettings,
    pub closet: ClosetV,
}

/// A drawer's decrypted content: its entries, its settings, and the
/// nested closet that lets drawers nest to arbitrary depth.
pub struct DrawerContent {
    pub entries: Vec<Entry>,
    pub settings: DrawerSettings,
    pub closet: SerCloset,
}

impl View for DrawerContent {
    type V = ContentV;

    open spec fn view(&self) -> ContentV {
        ContentV {
            entries: self.entries@.map_values(|e: Entry| e@),
            settings: self.settings,
            closet: self.closet@,
        }
    }
}

impl DrawerContent {
    /// Well-formedness: the nested closet is well formed.
    pub open spec fn wf(&self) -> bool {
        &&& closet_wf(self.closet@)
        &&& self.closet.wf()
    }

    /// Drop every empty entry, keeping the order of the others.
    pub fn remove_empty_entries(&mut self)
        ensures
            final(self)@.entries == old(self)@.entries.filter(|e: EntryV| !entry_is_empty(e)),
            final(self)@.settings == old(self)@.settings,
            final(self)@.closet == old(self)@.closet,
            final(self).wf() == old(self).wf(),
    {
        let mut kept: Vec<Entry> = Vec::new();
        let ghost all = self.entries@.map_values(|e: Entry| e@);
        let mut i: usize = 0;
        while i < self.entries.len()
            invariant
                i <= self.entries@.len(),
                all == self.entries@.map_values(|e: Entry| e@),
                kept@.map_values(|e: Entry| e@) == all.take(i as int).filter(
                    |e: EntryV| !entry_is_empty(e),
                ),
            decreases self.entries@.len() - i,
        {
            let ghost prev = kept@.map_values(|e: Entry| e@);
            let e = &self.entries[i];
            if !e.is_empty() {
                kept.push(e.clone());
                proof {
                    assert(kept@.map_values(|e: Entry| e@) =~= prev.push(all[i as int]));
                }
            }
            proof {
                reveal(Seq::filter);
                assert(all.take((i + 1) as int).drop_last() =~= all.take(i as int));
                assert(all.take((i + 1) as int).last() == all[i as int]);
            }
            i = i + 1;
        }
        proof {
            assert(all.take(self.entries@.len() as int) =~= all);
        }
        self.entries = kept;
    }

    /// The line of an empty entry to edit next: the first empty entry
    /// if one exists, else a fresh empty entry appended at the end.
    pub fn empty_entry(&mut self) -> (r: usize)
        ensures
            r < final(self)@.entries.len(),
            entry_is_empty(final(self)@.entries[r as int]),
            final(self)@.settings == old(self)@.settings,
            final(self)@.closet == old(self)@.closet,
            final(self).wf() == old(self).wf(),
            final(self)@.entries == old(self)@.entries || final(self)@.entries == old(
                self,
            )@.entries.push(EntryV { name: Seq::empty(), value: Seq::empty() }),
    {
        let mut i: usize = 0;
        while i < self.entries.len()
            invariant
                i <= self.entries@.len(),
            decreases self.entries@.len() - i,
        {
            if self.entries[i].is_empty() {
                return i;
            }
            i = i + 1;
        }
        let ghost prev = self.entries@.map_values(|e: Entry| e@);
        self.entries.push(Entry::default());
        proof {
            let e = self.entries@[self.entries@.len() - 1]@;
            assert(e.name =~= Seq::<char>::empty());
            assert(e.value =~= Seq::<char>::empty());
            assert(self.entries@.map_values(|e: Entry| e@) =~= prev.push(
                EntryV { name: Seq::empty(), value: Seq::empty() },
            ));
        }
        self.entries.len() - 1
    }
}

/// A content with its empty entries dropped: what a save stores.
pub open spec fn spec_cleaned(c: ContentV) -> ContentV {
    ContentV {
        entries: c.entries.filter(|e: EntryV| !entry_is_empty(e)),
        settings: c.settings,
        closet: c.closet,
    }
}

/// The encoding of a string: its UTF-8 bytes, length-prefixed.
pub open spec fn spec_str(s: Seq<char>) -> Seq<u8> {
    spec_lp(encode_utf8(s))
}

/// Decode a string from the front of `b`.
pub open spec fn spec_dec_str(b: Seq<u8>) -> Option<(Seq<char>, nat)> {
    match spec_dec_lp(b) {
        None => None,
        Some((sb, c)) => if valid_utf8(sb) {
            Some((decode_utf8(sb), c))
        } else {
            None
        },
    }
}

/// Round trip for strings, whatever bytes follow the encoding.
pub proof fn lemma_dec_str_of_enc(s: Seq<char>, rest: Seq<u8>)
    requires
        encode_utf8(s).len() <= u64::MAX as nat,
    ensures
        spec_dec_str(spec_str(s) + rest) == Some((s, spec_str(s).len())),
{
    lemma_dec_lp_of_enc(encode_utf8(s), rest);
    encode_utf8_valid_utf8(s);
    encode_utf8_decode_utf8(s);
}

/// The encoding of an entry: its name, then its value.
pub open spec fn spec_entry(e: EntryV) -> Seq<u8> {
    spec_str(e.name) + spec_str(e.value)
}

/// Decode one entry from the front of `b`.
pub open spec fn spec_dec_entry(b: Seq<u8>) -> Option<(EntryV, nat)> {
    match spec_dec_str(b) {
        None => None,
        Some((name, c1)) => match spec_dec_str(b.skip(c1 as int)) {
            None => None,
            Some((value, c2)) => Some((EntryV { name, value }, c1 + c2)),
        },
    }
}

/// The byte lengths of an entry's fields fit the length prefixes.
pub open spec fn entry_bounds(e: EntryV) -> bool {
    &&& encode_utf8(e.name).len() <= u64::MAX as nat
    &&& encode_utf8(e.value).len() <= u64::MAX as nat
}

/// Round trip for entries, whatever bytes follow the encoding.
pub proof fn lemma_dec_entry_of_enc(e: EntryV, rest: Seq<u8>)
    requires
        entry_bounds(e),
    ensures
        spec_dec_entry(spec_entry(e) + rest) == Some((e, spec_entry(e).len())),
{
    let b = spec_entry(e) + rest;
    assert(b =~= spec_str(e.name) + (spec_str(e.value) + rest));
    lemma_dec_str_of_enc(e.name, spec_str(e.value) + rest);
    let c1 = spec_str(e.name).len();
    assert(b.skip(c1 as int) =~= spec_str(e.value) + rest);
    lemma_dec_str_of_enc(e.value, rest);
    let d = spec_dec_entry(b).unwrap();
    assert(d.0 =~= e);
}

/// The encoding of an entry sequence: each entry's encoding, one after
/// the other.
pub open spec fn spec_entries(s: Seq<EntryV>) -> Seq<u8>
    decreases s.len(),
{
    if s.len() == 0 {
        Seq::empty()
    } else {
        spec_entry(s[0]) + spec_entries(s.drop_first())
    }
}

/// Appending an entry appends its encoding.
pub proof fn lemma_entries_snoc(s: Seq<EntryV>, x: EntryV)
    ensures
        spec_entries(s.push(x)) == spec_entries(s) + spec_entry(x),
    decreases s.len(),
{
    if s.len() == 0 {
        assert(s.push(x)[0] == x);
        assert(s.push(x).drop_first() =~= s);
        assert(spec_entries(s.push(x)) == spec_entry(x) + spec_entries(s));
        assert(spec_entry(x) + spec_entries(s) =~= spec_entries(s) + spec_entry(x));
    } else {
        assert(s.push(x)[0] == s[0]);
        assert(s.push(x).drop_first() =~= s.drop_first().push(x));
        lemma_entries_snoc(s.drop_first(), x);
        assert(spec_entry(s[0]) + (spec_entries(s.drop_first()) + spec_entry(x)) =~= (spec_entry(
            s[0],
        ) + spec_entries(s.drop_first())) + spec_entry(x));
    }
}

/// Decode `n` entries from the front of `b`.
pub open spec fn spec_dec_entries(b: Seq<u8>, n: nat) -> Option<(Seq<EntryV>, nat)>
    decreases n,
{
    if n == 0 {
        Some((Seq::empty(), 0))
    } else {
        match spec_dec_entry(b) {
            None => None,
            Some((e, c)) => match spec_dec_entries(b.skip(c as int), (n - 1) as nat) {
                None => None,
                Some((rest, c2)) => Some((seq![e] + rest, c + c2)),
            },
        }
    }
}

/// Round trip for entry sequences, whatever bytes follow the encoding.
pub proof fn lemma_dec_entries_of_enc(s: Seq<EntryV>, rest: Seq<u8>)
    requires
        forall|i: int| 0 <= i < s.len() ==> entry_bounds(#[trigger] s[i]),
    ensures
        spec_dec_entries(spec_entries(s) + rest, s.len()) == Some((s, spec_entries(s).len())),
    decreases s.len(),
{
    if s.len() == 0 {
        assert(spec_dec_entries(spec_entries(s) + rest, 0).unwrap().0 =~= s);
    } else {
        let b = spec_entries(s) + rest;
        assert(b =~= spec_entry(s[0]) + (spec_entries(s.drop_first()) + rest));
        lemma_dec_entry_of_enc(s[0], spec_entries(s.drop_first()) + rest);
        let c = spec_entry(s[0]).len();
        assert(b.skip(c as int) =~= spec_entries(s.drop_first()) + rest);
        lemma_dec_entries_of_enc(s.drop_first(), rest);
        assert(seq![s[0]] + s.drop_first() =~= s);
    }
}

/// The byte a boolean setting is stored as.
pub open spec fn bool_byte(b: bool) -> u8 {
    if b {
        1
    } else {
        0
    }
}

/// The encoding of the settings: one byte per flag.
pub open spec fn spec_settings(s: DrawerSettings) -> Seq<u8> {
    seq![bool_byte(s.hide_values), bool_byte(s.open_all_values)]
}

/// Decode the settings from the front of `b`; only the bytes 0 and 1
/// are accepted.
pub open spec fn spec_dec_settings(b: Seq<u8>) -> Option<(DrawerSettings, nat)> {
    if b.len() >= 2 && b[0] <= 1 && b[1] <= 1 {
        Some((DrawerSettings { hide_values: b[0] == 1, open_all_values: b[1] == 1 }, 2))
    } else {
        None
    }
}

/// The encoding of a drawer's content: the entry count, the entries,
/// the settings, and the nested closet.  The padding that follows it
/// before encryption is not part of the encoding: decoders stop at the
/// structural end and ignore trailing bytes.
pub open spec fn spec_content(c: ContentV) -> Seq<u8> {
    spec_varint(c.entries.len()) + spec_entries(c.entries) + spec_settings(c.settings)
        + spec_closet(c.closet)
}

/// Every count and length in the content fits the length prefixes of
/// the grammar.
pub open spec fn content_bounds(c: ContentV) -> bool {
    &&& c.entries.len() <= u64::MAX as nat
    &&& forall|i: int| 0 <= i < c.entries.len() ==> entry_bounds(#[trigger] c.entries[i])
    &&& closet_bounds(c.closet)
}

/// Decode a drawer's content from the front of `b`, ignoring whatever
/// follows it.
pub open spec fn spec_dec_content(b: Seq<u8>) -> Option<(ContentV, nat)> {
    match spec_dec_varint(b) {
        None => None,
        Some((n, c0)) => match spec_dec_entries(b.skip(c0 as int), n) {
            None => None,
            Some((entries, c1)) => match spec_dec_settings(b.skip((c0 + c1) as int)) {
                None => None,
                Some((settings, c2)) => match spec_dec_closet(b.skip((c0 + c1 + c2) as int)) {
                    Err(_) => None,
                    Ok((closet, c3)) => Some((
                        ContentV { entries, settings, closet },
                        c0 + c1 + c2 + c3,
                    )),
                },
            },
        },
    }
}

/// Round trip: decoding an encoded content yields the content back and
/// consumes exactly the encoding, whatever bytes follow it — which is
/// what makes the random padding after the structural end harmless.
#[verifier::rlimit(100)]
pub proof fn lemma_dec_content_of_enc(c: ContentV, rest: Seq<u8>)
    requires
        content_bounds(c),
        closet_wf(c.closet),
    ensures
        spec_dec_content(spec_content(c) + rest) == Some((c, spec_content(c).len())),
{
    let b = spec_content(c) + rest;
    let tail1 = spec_entries(c.entries) + spec_settings(c.settings) + spec_closet(c.closet) + rest;
    assert(b =~= spec_varint(c.entries.len()) + tail1);
    lemma_dec_varint_of_enc(c.entries.len(), tail1);
    let c0 = spec_varint(c.entries.len()).len();
    assert(b.skip(c0 as int) =~= spec_entries(c.entries) + (spec_settings(c.settings)
        + spec_closet(c.closet) + rest));
    lemma_dec_entries_of_enc(c.entries, spec_settings(c.settings) + spec_closet(c.closet) + rest);
    let c1 = spec_entries(c.entries).len();
    assert(b.skip((c0 + c1) as int) =~= spec_settings(c.settings) + (spec_closet(c.closet)
        + rest));
    let sb = spec_settings(c.settings);
    assert(b.skip((c0 + c1) as int)[0] == bool_byte(c.settings.hide_values));
    assert(b.skip((c0 + c1) as int)[1] == bool_byte(c.settings.open_all_values));
    assert(spec_dec_settings(b.skip((c0 + c1) as int)) == Some::<(DrawerSettings, nat)>((
        c.settings,
        2,
    )));
    assert(b.skip((c0 + c1 + 2) as int) =~= spec_closet(c.closet) + rest);
    lemma_dec_closet_of_enc(c.closet, rest);
    let d = spec_dec_content(b).unwrap();
    assert(d.0 =~= c);
}

/// Append the encoding of an entry to `out`.
pub fn write_entry(out: &mut Vec<u8>, e: &Entry)
    ensures
        final(out)@ == old(out)@ + spec_entry(e@),
        entry_bounds(e@),
{
    let name_bytes = e.name.as_str().as_bytes_vec();
    let value_bytes = e.value.as_str().as_bytes_vec();
    let name_len = name_bytes.len();
    let value_len = value_bytes.len();
    proof {
        assert(encode_utf8(e@.name).len() == name_len);
        assert(encode_utf8(e@.value).len() == value_len);
    }
    write_lp(out, &name_bytes);
    write_lp(out, &value_bytes);
    proof {
        assert(out@ =~= old(out)@ + spec_entry(e@));
    }
}

/// Append the encoding of a drawer's content to `out`.
pub fn write_content(out: &mut Vec<u8>, c: &DrawerContent)
    ensures
        final(out)@ == old(out)@ + spec_content(c@),
        content_bounds(c@),
{
    let count = c.entries.len();
    write_varint(out, count as u64);
    let ghost base1 = out@;
    let mut i: usize = 0;
    while i < c.entries.len()
        invariant
            i <= c.entries@.len(),
            c@.entries.len() == c.entries@.len(),
            c@.entries == c.entries@.map_values(|e: Entry| e@),
            out@ == base1 + spec_entries(c@.entries.take(i as int)),
            forall|k: int| 0 <= k < i ==> entry_bounds(#[trigger] c@.entries[k]),
        decreases c.entries@.len() - i,
    {
        proof {
            assert(c@.entries[i as int] == c.entries@[i as int]@);
        }
        write_entry(out, &c.entries[i]);
        proof {
            assert(c@.entries.take((i + 1) as int) =~= c@.entries.take(i as int).push(
                c@.entries[i as int],
            ));
            lemma_entries_snoc(c@.entries.take(i as int), c@.entries[i as int]);
            assert(base1 + (spec_entries(c@.entries.take(i as int)) + spec_entry(
                c@.entries[i as int],
            )) =~= (base1 + spec_entries(c@.entries.take(i as int))) + spec_entry(
                c@.entries[i as int],
            ));
        }
        i = i + 1;
    }
    proof {
        assert(c@.entries.take(c.entries@.len() as int) =~= c@.entries);
    }
    out.push(if c.settings.hide_values {
        1u8
    } else {
        0u8
    });
    out.push(if c.settings.open_all_values {
        1u8
    } else {
        0u8
    });
    write_closet(out, &c.closet);
    proof {
        assert(out@ =~= old(out)@ + spec_content(c@));
    }
}

/// Read one entry starting at `pos`; yields the entry and the position
/// of the first byte after it.
pub fn read_entry(bytes: &Vec<u8>, pos: usize) -> (r: Option<(Entry, usize)>)
    requires
        pos <= bytes.len(),
    ensures
        match spec_dec_entry(bytes@.skip(pos as int)) {
            Some(p) => r matches Some(t) && t.0@ == p.0 && t.1 == pos + p.1 && t.1 <= bytes.len(),
            None => r is None,
        },
{
    let (name_bytes, p1) = match read_lp(bytes, pos) {
        None => {
            return None;
        },
        Some(t) => t,
    };
    let name = match string_from_bytes(name_bytes) {
        None => {
            return None;
        },
        Some(s) => s,
    };
    proof {
        encode_utf8_valid_utf8(name@);
        encode_utf8_decode_utf8(name@);
        assert(bytes@.skip(pos as int).skip((p1 - pos) as int) =~= bytes@.skip(p1 as int));
    }
    let (value_bytes, p2) = match read_lp(bytes, p1) {
        None => {
            return None;
        },
        Some(t) => t,
    };
    let value = match string_from_bytes(value_bytes) {
        None => {
            return None;
        },
        Some(s) => s,
    };
    proof {
        encode_utf8_valid_utf8(value@);
        encode_utf8_decode_utf8(value@);
        let p = spec_dec_entry(bytes@.skip(pos as int)).unwrap();
        assert((Entry { name: name, value: value })@ =~= p.0);
    }
    Some((Entry { name, value }, p2))
}

/// Read a drawer's content starting at `pos`, ignoring whatever
/// follows it; yields the content and the position of the first byte
/// after it.
#[verifier::rlimit(100)]
pub fn read_content(bytes: &Vec<u8>, pos: usize) -> (r: Option<(DrawerContent, usize)>)
    requires
        pos <= bytes.len(),
    ensures
        match spec_dec_content(bytes@.skip(pos as int)) {
            Some(p) => r matches Some(t) && t.0@ == p.0 && t.1 == pos + p.1 && t.1 <= bytes.len()
                && t.0.wf() && t.0.closet.spec_knows_no_free(),
            None => r is None,
        },
{
    let (count, p0) = match read_varint(bytes, pos) {
        None => {
            return None;
        },
        Some(t) => t,
    };
    proof {
        assert(bytes@.skip(pos as int).skip((p0 - pos) as int) =~= bytes@.skip(p0 as int));
    }
    let (entries, p1) = match read_entries(bytes, p0, count) {
        None => {
            return None;
        },
        Some(t) => t,
    };
    let ghost c0 = (p0 - pos) as nat;
    let ghost c1 = (p1 - p0) as nat;
    proof {
        assert(bytes@.skip(pos as int).skip((c0 + c1) as int) =~= bytes@.skip(p1 as int));
    }
    if bytes.len() - p1 < 2 {
        return None;
    }
    let hb = bytes[p1];
    let ob = bytes[p1 + 1];
    if hb > 1 || ob > 1 {
        return None;
    }
    let settings = DrawerSettings { hide_values: hb == 1, open_all_values: ob == 1 };
    proof {
        assert(bytes@.skip(p1 as int)[0] == hb);
        assert(bytes@.skip(p1 as int)[1] == ob);
        assert(bytes@.skip(pos as int).skip((c0 + c1 + 2) as int) =~= bytes@.skip(
            (p1 + 2) as int,
        ));
    }
    let (closet, p2) = match read_closet(bytes, p1 + 2) {
        Err(_) => {
            return None;
        },
        Ok(t) => t,
    };
    let content = DrawerContent { entries, settings, closet };
    proof {
        let p = spec_dec_content(bytes@.skip(pos as int)).unwrap();
        assert(content@ =~= p.0);
    }
    Some((content, p2))
}

/// Read `count` entries starting at `pos0`; yields the entries and the
/// position after them.
fn read_entries(bytes: &Vec<u8>, pos0: usize, count: u64) -> (r: Option<(Vec<Entry>, usize)>)
    requires
        pos0 <= bytes.len(),
    ensures
        match spec_dec_entries(bytes@.skip(pos0 as int), count as nat) {
            Some(p) => r matches Some(t) && t.0@.map_values(|e: Entry| e@) == p.0 && t.1 == pos0
                + p.1 && t.1 <= bytes.len(),
            None => r is None,
        },
{
    let ghost n = count as nat;
    let ghost b0 = bytes@.skip(pos0 as int);
    let mut entries: Vec<Entry> = Vec::new();
    let mut pos: usize = pos0;
    let mut i: u64 = 0;
    while i < count
        invariant
            i <= count,
            count as nat == n,
            pos0 <= pos <= bytes.len(),
            entries@.len() == i as nat,
            b0 == bytes@.skip(pos0 as int),
            match spec_dec_entries(bytes@.skip(pos as int), (n - i) as nat) {
                Some(t) => spec_dec_entries(b0, n) == Some::<(Seq<EntryV>, nat)>((
                    entries@.map_values(|e: Entry| e@) + t.0,
                    (pos - pos0) as nat + t.1,
                )),
                None => spec_dec_entries(b0, n) is None,
            },
        decreases count - i,
    {
        let (entry, pnext) = match read_entry(bytes, pos) {
            None => {
                return None;
            },
            Some(t) => t,
        };
        let ghost prev_views = entries@.map_values(|e: Entry| e@);
        entries.push(entry);
        proof {
            assert(entries@.map_values(|e: Entry| e@) =~= prev_views.push(entry@));
            assert(bytes@.skip(pos as int).skip((pnext - pos) as int) =~= bytes@.skip(
                pnext as int,
            ));
            let tail = spec_dec_entries(bytes@.skip(pnext as int), (n - i - 1) as nat);
            if tail is Some {
                let t = tail.unwrap();
                assert(spec_dec_entries(bytes@.skip(pos as int), (n - i) as nat) == Some::<
                    (Seq<EntryV>, nat),
                >((seq![entry@] + t.0, (pnext - pos) as nat + t.1)));
                assert(prev_views + (seq![entry@] + t.0) =~= (prev_views.push(entry@)) + t.0);
            } else {
                assert(spec_dec_entries(bytes@.skip(pos as int), (n - i) as nat) is None);
            }
        }
        pos = pnext;
        i = i + 1;
    }
    proof {
        assert(spec_dec_entries(bytes@.skip(pos as int), 0) == Some::<(Seq<EntryV>, nat)>((
            Seq::empty(),
            0,
        )));
        assert(entries@.map_values(|e: Entry| e@) + Seq::<EntryV>::empty() =~= entries@.map_values(
            |e: Entry| e@,
        ));
    }
    Some((entries, pos))
}

/// A drawer's content with no entries and an empty nested closet
/// serializes to a handful of bytes — far below the smallest bucket.
pub proof fn lemma_empty_content_len(c: ContentV)
    requires
        c.entries.len() == 0,
        c.closet.slots.len() == 0,
        c.closet.salt.len() == 16,
    ensures
        spec_content(c).len() <= 64,
{
    assert(spec_varint(0).len() == 1);
    assert(spec_entries(c.entries).len() == 0);
    assert(spec_settings(c.settings).len() == 2);
    assert(spec_varint(16).len() == 1);
    assert(spec_lp(c.closet.salt).len() == 17);
    assert(crate::ser_closet::spec_slots(c.closet.slots).len() == 0);
    assert(crate::ser_closet::spec_magic().len() == 4);
    assert(spec_closet(c.closet).len() == 24);
}

/// The ghost image of an open drawer.
#[verifier::ext_equal]
pub struct OpenDrawerV {
    pub drawer_idx: int,
    pub password: Seq<char>,
    pub open_id: int,
    pub bucket: int,
    pub content: ContentV,
}

/// A drawer unlocked in memory: the slot it came from, the passphrase
/// retained so the drawer can be re-encrypted on save, a handle that
/// identifies this opening, the padding bucket the drawer may not
/// shrink below, and the decrypted content.
pub struct OpenDrawer {
    pub drawer_idx: usize,
    pub password: String,
    pub open_id: usize,
    pub bucket: usize,
    pub content: DrawerContent,
}

impl View for OpenDrawer {
    type V = OpenDrawerV;

    open spec fn view(&self) -> OpenDrawerV {
        OpenDrawerV {
            drawer_idx: self.drawer_idx as int,
            password: self.password@,
            open_id: self.open_id as int,
            bucket: self.bucket as int,
            content: self.content@,
        }
    }
}

impl OpenDrawer {
    /// Well-formedness: the bucket is in the schedule and the content
    /// is well formed.
    pub open spec fn wf(&self) -> bool {
        &&& self.bucket <= MAX_BUCKET_IDX
        &&& self.content.wf()
    }
}

} // verus!
