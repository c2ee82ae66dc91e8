//! Updates as base64 text.

use base64::engine::general_purpose::{STANDARD, STANDARD_NO_PAD, URL_SAFE, URL_SAFE_NO_PAD};
use base64::Engine as _;
use doc_core::text::decode_base64;
use doc_core::validate::{is_update_b64_safe, is_update_bytes_safe};

/// An update whose binary content makes the symbols 62 and 63 appear in its base64 form.
fn update_of(len: u8) -> Vec<u8> {
    let mut v = vec![1, 1, 0, 0, 3, 0, 0, 0, len];
    for i in 0..len {
        v.push(if i % 2 == 0 { 0xff } else { 0xfb });
    }
    v.push(0);
    v
}

#[test]
fn all_four_forms_are_accepted() {
    for len in 0..40 {
        let update = update_of(len);
        assert!(is_update_bytes_safe(&update));
        for text in [
            STANDARD.encode(&update),
            STANDARD_NO_PAD.encode(&update),
            URL_SAFE.encode(&update),
            URL_SAFE_NO_PAD.encode(&update),
        ] {
            assert!(is_update_b64_safe(&text));
            assert_eq!(decode_base64(&text), Some(update.clone()));
        }
    }
    // The two alphabets do differ on these updates.
    assert_ne!(STANDARD.encode(update_of(9)), URL_SAFE.encode(update_of(9)));
}

#[test]
fn unsafe_updates_are_refused_in_all_four_forms() {
    let mut update = update_of(5);
    update.push(0);
    assert!(!is_update_bytes_safe(&update));
    for text in [
        STANDARD.encode(&update),
        STANDARD_NO_PAD.encode(&update),
        URL_SAFE.encode(&update),
        URL_SAFE_NO_PAD.encode(&update),
    ] {
        assert!(!is_update_b64_safe(&text));
        assert_eq!(decode_base64(&text), Some(update.clone()));
    }
}

#[test]
fn base64_spells_bytes_exactly() {
    assert_eq!(decode_base64(""), Some(vec![]));
    assert_eq!(decode_base64("AAA="), Some(vec![0, 0]));
    assert_eq!(decode_base64("AAA"), Some(vec![0, 0]));
    assert_eq!(decode_base64("SGk="), Some(b"Hi".to_vec()));
    assert_eq!(decode_base64("+/+/"), Some(vec![0xfb, 0xff, 0xbf]));
    assert_eq!(decode_base64("-_-_"), Some(vec![0xfb, 0xff, 0xbf]));
    // Mixed alphabets, wanting or misplaced padding, bits left over, foreign characters.
    assert_eq!(decode_base64("+_+_"), None);
    assert_eq!(decode_base64("A"), None);
    assert_eq!(decode_base64("AA="), None);
    assert_eq!(decode_base64("AB=="), None);
    assert_eq!(decode_base64("AAB="), None);
    assert_eq!(decode_base64("AA==AAAA"), None);
    assert_eq!(decode_base64("===="), None);
    assert_eq!(decode_base64("AA A"), None);
    assert_eq!(decode_base64("\u{e9}AAA"), None);
    assert_eq!(decode_base64(" AAA="), None);
}

#[test]
fn white_space_around_the_text_is_passed_over() {
    assert!(is_update_b64_safe("AAA="));
    assert!(is_update_b64_safe(" \t\r\n AAA=\n"));
    assert!(is_update_b64_safe("\u{2003}AAA\u{3000}\u{a0}"));
    assert!(!is_update_b64_safe("AA A="));
    assert!(!is_update_b64_safe("\u{200b}AAA="));
    assert!(!is_update_b64_safe("   "));
}

#[test]
fn white_space_is_what_unicode_says() {
    for code in 0..=0x10ffffu32 {
        if let Some(c) = char::from_u32(code) {
            let listed = matches!(
                code,
                0x09..=0x0d
                    | 0x20
                    | 0x85
                    | 0xa0
                    | 0x1680
                    | 0x2000..=0x200a
                    | 0x2028
                    | 0x2029
                    | 0x202f
                    | 0x205f
                    | 0x3000
            );
            let text = format!("{}AAA={}", c, c);
            assert_eq!(text.trim() == "AAA=", listed);
        }
    }
}
