//! Byte-level round trips and container parse errors.

use safecloset::codec::{read_lp, read_varint, write_lp, write_varint};
use safecloset::error::CoreError;
use safecloset::open_closet::OpenCloset;
use safecloset::ser_closet::SerCloset;

fn save_some_closet() -> Vec<u8> {
    let closet = SerCloset::new("carrier").expect("closet creation");
    let mut oc = OpenCloset::create(closet, true);
    oc.close_and_save().expect("save")
}

#[test]
fn varint_round_trip() {
    let values: Vec<u64> = vec![0, 1, 127, 128, 129, 300, 16383, 16384, 999_999, u64::MAX];
    for v in values {
        let mut out: Vec<u8> = Vec::new();
        write_varint(&mut out, v);
        let (back, used) = read_varint(&out, 0).expect("decodes");
        assert_eq!(back, v);
        assert_eq!(used, out.len());
    }
}

#[test]
fn varint_rejects_empty() {
    let out: Vec<u8> = Vec::new();
    assert!(read_varint(&out, 0).is_none());
}

#[test]
fn length_prefixed_round_trip() {
    let data: Vec<u8> = vec![9, 8, 7, 6, 5];
    let mut out: Vec<u8> = Vec::new();
    write_lp(&mut out, &data);
    out.push(0xAA); // trailing byte must be ignored
    let (back, used) = read_lp(&out, 0).expect("decodes");
    assert_eq!(back, data);
    assert_eq!(used, out.len() - 1);
}

#[test]
fn length_prefix_too_long_rejected() {
    let mut out: Vec<u8> = Vec::new();
    write_varint(&mut out, 100);
    out.push(1);
    assert!(read_lp(&out, 0).is_none());
}

#[test]
fn load_rejects_bad_magic() {
    let mut bytes = save_some_closet();
    bytes[0] ^= 0xFF;
    assert!(matches!(SerCloset::load(&bytes), Err(CoreError::CorruptFile)));
}

#[test]
fn load_rejects_unknown_version() {
    let mut bytes = save_some_closet();
    bytes[4] = 99;
    assert!(matches!(SerCloset::load(&bytes), Err(CoreError::UnsupportedVersion)));
}

#[test]
fn load_rejects_unknown_kdf_id() {
    let mut bytes = save_some_closet();
    // magic (4) + version (1) + salt length prefix (1) + salt (16)
    bytes[22] = 99;
    assert!(matches!(SerCloset::load(&bytes), Err(CoreError::UnsupportedVersion)));
}

#[test]
fn load_rejects_truncation() {
    let bytes = save_some_closet();
    let cut = &bytes[..bytes.len() - 3].to_vec();
    assert!(matches!(SerCloset::load(cut), Err(CoreError::CorruptFile)));
}

#[test]
fn load_rejects_trailing_bytes() {
    let mut bytes = save_some_closet();
    bytes.push(0);
    assert!(matches!(SerCloset::load(&bytes), Err(CoreError::CorruptFile)));
}

#[test]
fn load_rejects_too_few_slots() {
    let mut drawers = Vec::new();
    let mut free_flags = Vec::new();
    for _ in 0..10 {
        drawers.push(safecloset::ser_closet::make_decoy());
        free_flags.push(false);
    }
    let small = SerCloset { salt: safecloset::crypt::random_bytes(16), drawers, free_flags };
    let bytes = small.save_bytes();
    assert!(matches!(SerCloset::load(&bytes), Err(CoreError::CorruptFile)));
}

#[test]
fn load_round_trip_is_byte_exact() {
    let bytes = save_some_closet();
    let closet = SerCloset::load(&bytes).expect("loads");
    let again = closet.save_bytes();
    assert_eq!(bytes, again);
}
