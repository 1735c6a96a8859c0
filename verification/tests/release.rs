use tg_rcore_tutorial::{CRATE_NAME, KEYWORDS, RELEASE_TAG, VERSION};

#[test]
fn release_metadata_is_consistent() {
    assert_eq!(CRATE_NAME, "cg-tg-rcore-tutorial-ch6");
    assert_eq!(VERSION, "0.0.0");
    assert_eq!(RELEASE_TAG, "v0.0.0");
    assert_eq!(KEYWORDS.len(), 5);
}

#[test]
fn keywords_are_the_published_ones() {
    assert_eq!(KEYWORDS, ["ai", "ai4ose", "kernel", "learning", "os"]);
}
