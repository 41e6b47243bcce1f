//! A keyed character-substitution cipher.
//!
//! The engine holds a sorted alphabet of distinct characters and an
//! encryption key of alphabet indices.  Encryption rotates each character
//! of the input by the key element at the same position, modulo the
//! alphabet size; decryption applies the inverse rotation.

pub mod alphabet;
pub mod laws;
pub mod pad;
pub mod rng;

pub use alphabet::find_valid_characters;
pub use alphabet::get_upper_lower_chars;
pub use pad::get_string;
pub use pad::OneTimePad;
pub use rng::get_one_time_pad_key;
