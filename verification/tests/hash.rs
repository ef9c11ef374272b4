use org_roam_sync::hash::compute_hash;

#[test]
fn the_hash_is_sha1_in_hexadecimal() {
    assert_eq!(compute_hash(""), "da39a3ee5e6b4b0d3255bfef95601890afd80709");
    assert_eq!(compute_hash("abc"), "a9993e364706816aba3e25717850c26c9cd0d89d");
    assert_eq!(
        compute_hash("The quick brown fox jumps over the lazy dog"),
        "2fd4e1c67a2d28fced849ee1bb76e7391b93eb12"
    );
}

#[test]
fn a_hash_has_forty_digits_and_no_escapes() {
    for s in ["", "x", "#+TITLE: é\n", "a\u{0}b"] {
        let h = compute_hash(s);
        assert_eq!(h.len(), 40);
        assert!(h.chars().all(|c| c.is_ascii_digit() || ('a'..='f').contains(&c)));
        assert_eq!(format!("{}", h.escape_debug()), h);
    }
}
