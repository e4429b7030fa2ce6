//! An encrypted, file-backed secret store.
//!
//! A *closet* is a fixed-capacity array of encrypted *drawers* plus a
//! salt.  Each drawer is unlocked by its own passphrase and holds a
//! list of name/value entries together with a nested closet, so drawers
//! nest to arbitrary depth.  Unused slots hold random decoys, and every
//! drawer's ciphertext is padded to a size bucket, so the file reveals
//! only an upper bound on the number of drawers and coarse size
//! classes — never which passphrases succeed or how many drawers are
//! real.

pub mod app_state;
pub mod bucket;
pub mod closed_drawer;
pub mod codec;
pub mod content;
pub mod crypt;
pub mod error;
pub mod open_closet;
pub mod ser_closet;
