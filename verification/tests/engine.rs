use one_time_pad::get_string;
use one_time_pad::get_one_time_pad_key;
use one_time_pad::get_upper_lower_chars;
use one_time_pad::find_valid_characters;
use one_time_pad::OneTimePad;

#[test]
fn test_one_time_pad() {
    let mut otp = OneTimePad::new(10, "Hello There");
    otp.encrypt_key = vec![17, 21, 0, 7, 39, 35, 36, 50, 27, 30];
    let valid_chars = get_string(&otp.valid_chars);
    assert_eq!(
        valid_chars,
        " ABCDEFGHIJKLMNOPQRSTUVWXYZabcdefghijklmnopqrstuvwxyz"
    );
    assert_eq!(otp.decrypt_string("WHAT UP"), "FnAMNmg");
    assert_eq!(otp.encrypt_string("FnAMNmg"), "WHAT UP");
    assert_eq!(otp.encrypt_string("WHAT UP"), "ncAamCz");
    assert_eq!(otp.decrypt_string("ncAamCz"), "WHAT UP");
    assert_eq!(otp.get_key_str(), "QU Gmijxad");
}

#[test]
fn set_key_recovers_reference_indices() {
    let mut otp = OneTimePad::new(10, "Hello There");
    otp.set_encrypt_key("QU Gmijxad");
    assert_eq!(otp.encrypt_key, vec![17, 21, 0, 7, 39, 35, 36, 50, 27, 30]);
    assert_eq!(otp.encrypt_string("WHAT UP"), "ncAamCz");
}

#[test]
fn it_works() {
    assert_eq!(2 + 2, 4);
}

#[test]
fn base_alphabet_has_52_sorted_letters() {
    let letters = get_upper_lower_chars();
    assert_eq!(
        get_string(&letters),
        "ABCDEFGHIJKLMNOPQRSTUVWXYZabcdefghijklmnopqrstuvwxyz"
    );
    let built = find_valid_characters("");
    assert_eq!(built, letters);
    assert_eq!(built.len(), 52);
}

#[test]
fn char_rotation_round_trips() {
    let otp = OneTimePad::new(1, "");
    let n = otp.valid_chars.len();
    for k in [0usize, 1, 5, 51] {
        let e = otp.encrypt_char('q', k);
        assert_eq!(otp.encrypt_char(e, n - k), 'q');
    }
    // A character outside the alphabet passes through both ways.
    let e = otp.encrypt_char('!', 7);
    assert_eq!(e, '!');
    assert_eq!(otp.encrypt_char(e, n - 7), '!');
}

#[test]
fn encrypt_then_decrypt_round_trips() {
    let mut otp = OneTimePad::new(0, "");
    otp.set_encrypt_key("SomeSecretKey");
    let cipher = otp.encrypt_string("attack dawn");
    assert_eq!(otp.decrypt_string(&cipher), "attack dawn");
}

#[test]
fn set_key_then_get_key_str_round_trips() {
    let mut otp = OneTimePad::new(0, "");
    otp.set_encrypt_key("abcXYZ");
    assert_eq!(otp.get_key_str(), "abcXYZ");
}

#[test]
fn set_key_with_unknown_chars_grows_alphabet() {
    let mut otp = OneTimePad::new(0, "");
    assert_eq!(otp.valid_chars.len(), 52);
    otp.set_encrypt_key("a!b?");
    assert_eq!(otp.get_key_str(), "a!b?");
    assert_eq!(otp.valid_chars.len(), 54);
    assert!(otp.valid_chars.contains(&'!'));
    assert!(otp.valid_chars.contains(&'?'));
    // The two new characters now take part in rotation instead of passing
    // through: rotating '!' by one step inside the grown alphabet moves it.
    let n = otp.valid_chars.len();
    let e = otp.encrypt_char('!', 1);
    assert_ne!(e, '!');
    assert_eq!(otp.encrypt_char(e, n - 1), '!');
}

#[test]
fn encrypt_truncates_to_key_length() {
    let mut otp = OneTimePad::new(0, "");
    otp.set_encrypt_key("abc");
    let cipher = otp.encrypt_string("long input");
    assert_eq!(cipher.chars().count(), 3);
    let plain = otp.decrypt_string("long input");
    assert_eq!(plain.chars().count(), 3);
}

#[test]
fn longer_key_leaves_trailing_elements_unused() {
    let mut otp = OneTimePad::new(0, "");
    otp.set_encrypt_key("abcdefgh");
    let cipher = otp.encrypt_string("Hi");
    assert_eq!(cipher.chars().count(), 2);
    assert_eq!(otp.decrypt_string(&cipher), "Hi");
}

#[test]
fn random_key_has_requested_length_and_range() {
    let otp = OneTimePad::new(25, "");
    assert_eq!(otp.encrypt_key.len(), 25);
    let n = otp.valid_chars.len();
    for &k in otp.encrypt_key.iter() {
        assert!(k < n);
    }
    assert_eq!(otp.get_key_str().chars().count(), 25);
}

#[test]
fn key_over_singleton_range_is_all_zero() {
    let key = get_one_time_pad_key(1, 6);
    assert_eq!(key, vec![0, 0, 0, 0, 0, 0]);
}

#[test]
fn key_over_empty_range_is_empty() {
    let key = get_one_time_pad_key(0, 6);
    assert!(key.is_empty());
}

#[test]
fn get_string_joins_characters_in_order() {
    let chars = vec!['p', 'a', 'd', ' ', '!'];
    assert_eq!(get_string(&chars), "pad !");
    assert_eq!(get_string(&Vec::new()), "");
}

#[test]
fn extra_chars_are_merged_sorted_and_deduplicated() {
    let alphabet = find_valid_characters("cba!!cc");
    assert_eq!(
        get_string(&alphabet),
        "!ABCDEFGHIJKLMNOPQRSTUVWXYZabcdefghijklmnopqrstuvwxyz"
    );
}
