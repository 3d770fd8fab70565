//! Hash splitting and path-string helpers.

use pak_engine::common::JsSafeHash;
use pak_engine::error::Error;
use pak_engine::manifest::is_pak_magic;
use pak_engine::text::{
    get_relative_path, hex_string, is_absolute_path, normalize_seps, split_path, str_lex_le,
    unknown_path,
};

#[test]
fn test_js_safe_hash() {
    let h = JsSafeHash::from_u64(0x1122334455667788);
    assert_eq!(h.0, 0x55667788);
    assert_eq!(h.1, 0x11223344);
    assert_eq!(h.hash_u64(), 0x1122334455667788);

    let g = JsSafeHash(0xDEADBEEF, 0x01234567);
    assert_eq!(g.hash_u64(), 0x01234567DEADBEEF);
    assert_eq!(JsSafeHash::from_u64(g.hash_u64()), g);

    assert_eq!(JsSafeHash::from_u64(0).hash_u64(), 0);
    assert_eq!(JsSafeHash::from_u64(u64::MAX).hash_u64(), u64::MAX);
}

#[test]
fn test_get_relative_path() {
    let root_path = "C:/Project";
    let file_path = "C:/Project/natives/STM/test.txt";
    let relative_path = get_relative_path(root_path, file_path).unwrap();
    assert_eq!(relative_path, "natives/STM/test.txt");

    let root_path = "C:/Project/natives/STM/";
    let file_path = "C:/Project/natives/STM/test.txt";
    let relative_path = get_relative_path(root_path, file_path).unwrap();
    assert_eq!(relative_path, "test.txt");
}

#[test]
fn relative_path_normalizes_backslashes() {
    let rel = get_relative_path("C:\\data", "C:\\data\\sub\\file.bin").unwrap();
    assert_eq!(rel, "sub/file.bin");
}

#[test]
fn relative_path_rejects_non_absolute_inputs() {
    let err = get_relative_path("relative/root", "/abs/file").unwrap_err();
    assert!(matches!(err, Error::FileIO { .. }));
    let err = get_relative_path("/abs/root", "relative/file").unwrap_err();
    assert!(matches!(err, Error::FileIO { .. }));
}

#[test]
fn absolute_path_detection() {
    assert!(is_absolute_path("/usr/share"));
    assert!(is_absolute_path("\\\\server\\share"));
    assert!(is_absolute_path("C:/games"));
    assert!(is_absolute_path("c:stuff"));
    assert!(!is_absolute_path("natives/stm"));
    assert!(!is_absolute_path(""));
}

#[test]
fn hex_rendering_pads_to_eight_digits() {
    assert_eq!(hex_string(0x1234, 8), "00001234");
    assert_eq!(hex_string(0, 8), "00000000");
    assert_eq!(hex_string(0xABCDEF12, 8), "ABCDEF12");
    assert_eq!(hex_string(0x1_0000_0001, 8), "100000001");
    assert_eq!(hex_string(0xF, 0), "F");
    assert_eq!(hex_string(0xDEADBEEF01, 16), "000000DEADBEEF01");
}

#[test]
fn unknown_path_formats_hash() {
    assert_eq!(unknown_path(0xABCDEF12), "_Unknown/ABCDEF12");
    assert_eq!(unknown_path(0x7), "_Unknown/00000007");
    assert_eq!(unknown_path(0x1_0000_0001), "_Unknown/100000001");
}

#[test]
fn split_path_drops_empty_segments() {
    let segs = split_path("natives/STM/test.txt");
    assert_eq!(segs, vec!["natives", "STM", "test.txt"]);
    let segs = split_path("a//b/");
    assert_eq!(segs, vec!["a", "b"]);
    let segs = split_path("/lead\\mix/tail");
    assert_eq!(segs, vec!["lead", "mix", "tail"]);
    let segs = split_path("");
    assert!(segs.is_empty());
}

#[test]
fn normalize_seps_replaces_backslashes() {
    assert_eq!(normalize_seps("a\\b/c\\"), "a/b/c/");
    assert_eq!(normalize_seps("plain"), "plain");
}

#[test]
fn lexicographic_order_on_names() {
    assert!(str_lex_le("abc", "abd"));
    assert!(str_lex_le("ab", "abc"));
    assert!(!str_lex_le("abd", "abc"));
    assert!(str_lex_le("", "a"));
    assert!(str_lex_le("same", "same"));
}

#[test]
fn pak_magic_check() {
    assert!(is_pak_magic(b"AKPK rest of header"));
    assert!(is_pak_magic(b"AKPK"));
    assert!(!is_pak_magic(b"AKP"));
    assert!(!is_pak_magic(b"ZIPX1234"));
    assert!(!is_pak_magic(b""));
}
