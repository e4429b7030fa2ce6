//! End-to-end scenarios over the closet: create, open, edit, save,
//! reload, nesting, passphrase changes and capacity growth.

use safecloset::content::Entry;
use safecloset::error::CoreError;
use safecloset::open_closet::OpenCloset;
use safecloset::ser_closet::{SerCloset, MIN_SLOTS};

/// Seal the drawer in hand back into the deepest closet.
fn seal_back(oc: &mut OpenCloset, drawer: safecloset::content::OpenDrawer) {
    oc.push_back(drawer);
    oc.close_deepest_drawer().expect("seal drawer back");
}

#[test]
fn create_save_reload_open() {
    let closet = SerCloset::new("init").expect("closet creation");
    let mut oc = OpenCloset::create(closet, true);
    assert!(oc.is_just_created());
    let mut drawer = oc.create_take_drawer("alpha").expect("create drawer");
    drawer.content.entries.push(Entry::new("email".to_string(), "a@b".to_string()));
    seal_back(&mut oc, drawer);
    let bytes = oc.close_and_save().expect("save");
    assert!(!oc.is_just_created());

    let loaded = SerCloset::load(&bytes).expect("load");
    let mut oc2 = OpenCloset::create(loaded, false);
    let back = oc2.open_take_drawer("alpha").expect("alpha opens");
    assert_eq!(back.content.entries.len(), 1);
    assert_eq!(back.content.entries[0].name, "email");
    assert_eq!(back.content.entries[0].value, "a@b");
}

#[test]
fn wrong_password_opens_nothing_and_writes_nothing() {
    let closet = SerCloset::new("init").expect("closet creation");
    let mut oc = OpenCloset::create(closet, true);
    let drawer = oc.create_take_drawer("alpha").expect("create drawer");
    seal_back(&mut oc, drawer);
    let bytes = oc.close_and_save().expect("save");

    let loaded = SerCloset::load(&bytes).expect("load");
    let mut oc2 = OpenCloset::create(loaded, false);
    assert!(oc2.open_take_drawer("beta").is_none());
    // No save happened: the bytes on disk are untouched and still load
    // to the same closet.
    let reloaded = SerCloset::load(&bytes).expect("still loads");
    assert_eq!(reloaded.save_bytes(), bytes);
    // The failed attempt left the closet usable: alpha still opens.
    assert!(oc2.open_take_drawer("alpha").is_some());
}

#[test]
fn unicode_entries_survive_the_round_trip() {
    let closet = SerCloset::new("init").expect("closet creation");
    let mut oc = OpenCloset::create(closet, true);
    let mut drawer = oc.create_take_drawer("clé").expect("create drawer");
    drawer.content.entries.push(Entry::new("héllo wörld".to_string(), "ключ ✓".to_string()));
    seal_back(&mut oc, drawer);
    let bytes = oc.close_and_save().expect("save");

    let loaded = SerCloset::load(&bytes).expect("load");
    let mut oc2 = OpenCloset::create(loaded, false);
    let back = oc2.open_take_drawer("clé").expect("opens");
    assert_eq!(back.content.entries[0].name, "héllo wörld");
    assert_eq!(back.content.entries[0].value, "ключ ✓");
}

#[test]
fn buckets_grow_with_content_and_length_is_shape_determined() {
    // Closet A: a small drawer, then a large one.
    let mut oc_a = OpenCloset::create(SerCloset::new("init-a").expect("new"), true);
    let mut small = oc_a.create_take_drawer("p1").expect("create p1");
    small.content.entries.push(Entry::new("k".to_string(), "v".to_string()));
    seal_back(&mut oc_a, small);
    let mut large = oc_a.create_take_drawer("p2").expect("create p2");
    for i in 0..300u32 {
        large.content.entries.push(Entry::new(format!("name-{i}"), format!("value-{i}")));
    }
    seal_back(&mut oc_a, large);
    let bytes_a = oc_a.close_and_save().expect("save a");

    // Closet B: the same shapes from a different history — other
    // passphrases, other order, another salt.
    let mut oc_b = OpenCloset::create(SerCloset::new("init-b").expect("new"), true);
    let mut big = oc_b.create_take_drawer("other-large").expect("create");
    for i in 0..300u32 {
        big.content.entries.push(Entry::new(format!("name-{i}"), format!("value-{i}")));
    }
    seal_back(&mut oc_b, big);
    let mut tiny = oc_b.create_take_drawer("other-small").expect("create");
    tiny.content.entries.push(Entry::new("k".to_string(), "v".to_string()));
    seal_back(&mut oc_b, tiny);
    let bytes_b = oc_b.close_and_save().expect("save b");

    // Same slot count and bucket multiset: same file length.
    assert_eq!(bytes_a.len(), bytes_b.len());

    // Both drawers of A open and the large one moved up a bucket.
    let loaded = SerCloset::load(&bytes_a).expect("load");
    let mut oc2 = OpenCloset::create(loaded, false);
    let small_again = oc2.open_take_drawer("p1").expect("p1 opens");
    assert_eq!(small_again.content.entries.len(), 1);
    assert_eq!(small_again.bucket, 0);
    oc2.push_back(small_again);
    oc2.close_deepest_drawer().expect("seal back");
    let large_again = oc2.open_take_drawer("p2").expect("p2 opens");
    assert_eq!(large_again.content.entries.len(), 300);
    assert!(large_again.bucket > 0);
}

#[test]
fn change_password_and_duplicate_refusal() {
    let mut oc = OpenCloset::create(SerCloset::new("init").expect("new"), true);
    let mut d1 = oc.create_take_drawer("p1").expect("create p1");
    d1.content.entries.push(Entry::new("who".to_string(), "me".to_string()));
    oc.change_password(&mut d1, "p1b".to_string()).expect("change passphrase");
    seal_back(&mut oc, d1);
    let d2 = oc.create_take_drawer("p2").expect("create p2");
    seal_back(&mut oc, d2);
    let bytes = oc.close_and_save().expect("save");

    let loaded = SerCloset::load(&bytes).expect("load");
    let mut oc2 = OpenCloset::create(loaded, false);
    assert!(oc2.open_take_drawer("p1").is_none());
    let back = oc2.open_take_drawer("p1b").expect("p1b opens");
    assert_eq!(back.content.entries[0].value, "me");
    oc2.push_back(back);
    oc2.close_deepest_drawer().expect("seal back");

    let mut d2_again = oc2.open_take_drawer("p2").expect("p2 opens");
    let refused = oc2.change_password(&mut d2_again, "p1b".to_string());
    assert!(matches!(refused, Err(CoreError::DuplicatePassphrase)));
    assert_eq!(d2_again.password, "p2");
}

#[test]
fn duplicate_passphrase_refused_at_creation() {
    let mut oc = OpenCloset::create(SerCloset::new("init").expect("new"), true);
    // The passphrase of the drawer sealed at closet creation is taken.
    assert!(matches!(oc.create_take_drawer("init"), Err(CoreError::DuplicatePassphrase)));
    let d = oc.create_take_drawer("mine").expect("create");
    seal_back(&mut oc, d);
    assert!(matches!(oc.create_take_drawer("mine"), Err(CoreError::DuplicatePassphrase)));
}

#[test]
fn nested_drawer_survives_reload() {
    let mut oc = OpenCloset::create(SerCloset::new("init").expect("new"), true);
    let p1 = oc.create_take_drawer("p1").expect("create p1");
    oc.push_back(p1);  // enter p1: its nested closet is now the deepest
    let mut n1 = oc.create_take_drawer("n1").expect("create n1 inside p1");
    n1.content.entries.push(Entry::new("pin".to_string(), "1234".to_string()));
    oc.push_back(n1);
    let bytes = oc.close_and_save().expect("save");

    let loaded = SerCloset::load(&bytes).expect("load");
    let mut oc2 = OpenCloset::create(loaded, false);
    let p1_again = oc2.open_take_drawer("p1").expect("p1 opens");
    oc2.push_back(p1_again);
    let n1_again = oc2.open_take_drawer("n1").expect("n1 opens");
    assert_eq!(n1_again.content.entries.len(), 1);
    assert_eq!(n1_again.content.entries[0].name, "pin");
    assert_eq!(n1_again.content.entries[0].value, "1234");
}

#[test]
fn capacity_grows_at_the_fiftieth_creation() {
    let mut oc = OpenCloset::create(SerCloset::new("init").expect("new"), true);
    assert_eq!(oc.closets[0].slot_count(), MIN_SLOTS);
    // One slot is the drawer sealed at creation, so 49 free slots are
    // known; 49 creations fit without growth.
    for i in 0..49u32 {
        let d = oc.create_take_drawer(&format!("pw-{i}")).expect("create");
        seal_back(&mut oc, d);
        assert_eq!(oc.closets[0].slot_count(), MIN_SLOTS);
    }
    // The fiftieth creation must grow the capacity by doubling.
    let d = oc.create_take_drawer("pw-49").expect("fiftieth create");
    assert_eq!(oc.closets[0].slot_count(), 2 * MIN_SLOTS - 1);
    seal_back(&mut oc, d);
    assert_eq!(oc.closets[0].slot_count(), 2 * MIN_SLOTS);
    let bytes = oc.close_and_save().expect("save still succeeds");
    let loaded = SerCloset::load(&bytes).expect("load");
    assert_eq!(loaded.slot_count(), 2 * MIN_SLOTS);
}

#[test]
fn slot_count_never_decreases_across_saves() {
    let mut oc = OpenCloset::create(SerCloset::new("init").expect("new"), true);
    let bytes1 = oc.close_and_save().expect("save");
    let count1 = SerCloset::load(&bytes1).expect("load").slot_count();
    let d = oc.create_take_drawer("extra").expect("create");
    seal_back(&mut oc, d);
    let bytes2 = oc.close_and_save().expect("save");
    let count2 = SerCloset::load(&bytes2).expect("load").slot_count();
    assert!(count2 >= count1);
}

#[test]
fn nonces_are_fresh_where_a_save_can_refresh_them() {
    let mut oc = OpenCloset::create(SerCloset::new("init").expect("new"), true);
    let bytes1 = oc.close_and_save().expect("first save");
    let bytes2 = oc.close_and_save().expect("second save");
    let c1 = SerCloset::load(&bytes1).expect("load 1");
    let c2 = SerCloset::load(&bytes2).expect("load 2");
    assert_eq!(c1.slot_count(), c2.slot_count());
    // Every slot this session can re-encrypt (all the decoys it made)
    // gets a fresh nonce; only the one sealed drawer, whose passphrase
    // is not retained, keeps its nonce.
    let mut kept = 0;
    for i in 0..c1.drawers.len() {
        if c1.drawers[i].nonce() == c2.drawers[i].nonce() {
            kept += 1;
        }
    }
    assert!(kept <= 1);

    // Once the drawer is open at save time, every slot is refreshed.
    let d = oc.open_take_drawer("init").expect("init drawer opens");
    oc.push_back(d);
    let bytes3 = oc.close_and_save().expect("third save");
    let c3 = SerCloset::load(&bytes3).expect("load 3");
    for i in 0..c2.drawers.len() {
        assert_ne!(c2.drawers[i].nonce(), c3.drawers[i].nonce());
    }
}
