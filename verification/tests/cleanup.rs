use steamclipconverter::cleanup::{
    cascade_decision, passes_grandparent_gate, passes_parent_gate, passes_siblings_gate,
    CleanupDecision,
};
use steamclipconverter::scan::{DirEntry, Listing};

fn entry(name: &str, is_dir: bool) -> DirEntry {
    DirEntry {
        path: format!("clip_42_20250101_100000/video/{}", name),
        name: Some(name.to_string()),
        is_dir,
    }
}

#[test]
fn cascade_removes_the_container_of_the_only_clip() {
    let left = Listing::Entries(vec![]);
    assert_eq!(
        cascade_decision(Some("video"), true, &left, Some("clip_42_20250101_100000")),
        CleanupDecision::Eligible
    );
}

#[test]
fn cascade_keeps_the_container_with_a_sibling() {
    let left = Listing::Entries(vec![entry("fg_42_20250101_110000", true)]);
    assert_eq!(
        cascade_decision(Some("video"), true, &left, Some("clip_42_20250101_100000")),
        CleanupDecision::HasSiblings
    );
}

#[test]
fn cascade_any_directory_is_a_sibling() {
    let left = Listing::Entries(vec![entry("thumb.jpg", false), entry("other", true)]);
    assert_eq!(
        cascade_decision(Some("video"), true, &left, Some("clip_42_20250101_100000")),
        CleanupDecision::HasSiblings
    );
}

#[test]
fn cascade_files_are_no_siblings() {
    let left = Listing::Entries(vec![entry("thumb.jpg", false), entry("fg_1_20250101_000000", false)]);
    assert_eq!(
        cascade_decision(Some("video"), true, &left, Some("clip_42_20250101_100000")),
        CleanupDecision::Eligible
    );
}

#[test]
fn cascade_unreadable_parent_that_exists_counts_as_empty() {
    assert_eq!(
        cascade_decision(Some("video"), true, &Listing::Unreadable, Some("clip_42_20250101_100000")),
        CleanupDecision::Eligible
    );
}

#[test]
fn cascade_parent_must_be_video() {
    let left = Listing::Entries(vec![]);
    for parent in [None, Some("Video"), Some("videos"), Some(""), Some("clips")] {
        assert_eq!(
            cascade_decision(parent, true, &left, Some("clip_42_20250101_100000")),
            CleanupDecision::NotContainer
        );
    }
}

#[test]
fn cascade_gates_are_asked_in_order() {
    let sibling = Listing::Entries(vec![entry("x", true)]);
    assert_eq!(cascade_decision(Some("other"), true, &sibling, Some("nope")), CleanupDecision::NotContainer);
    assert_eq!(cascade_decision(Some("video"), true, &sibling, Some("nope")), CleanupDecision::HasSiblings);
}

#[test]
fn cascade_grandparent_must_be_a_container() {
    let left = Listing::Entries(vec![]);
    for grandparent in [None, Some("clip_42_20250101_10000"), Some("fg_42_20250101_100000"), Some("userdata")] {
        assert_eq!(
            cascade_decision(Some("video"), true, &left, grandparent),
            CleanupDecision::NotContainerGrandparent
        );
    }
}

#[test]
fn gates_one_by_one() {
    assert!(passes_parent_gate(Some("video"), true));
    assert!(!passes_parent_gate(Some("video"), false));
    assert!(!passes_parent_gate(Some("audio"), true));
    assert!(!passes_parent_gate(None, true));
    assert!(passes_siblings_gate(&Listing::Unreadable));
    assert!(passes_siblings_gate(&Listing::Entries(vec![entry("f", false)])));
    assert!(!passes_siblings_gate(&Listing::Entries(vec![entry("f", false), entry("d", true)])));
    assert!(passes_grandparent_gate(Some("clip_1_20250101_000000")));
    assert!(!passes_grandparent_gate(Some("clip_1_20250101_00000")));
    assert!(!passes_grandparent_gate(None));
}

#[test]
fn cascade_missing_parent_removes_nothing() {
    assert_eq!(
        cascade_decision(Some("video"), false, &Listing::Unreadable, Some("clip_42_20250101_100000")),
        CleanupDecision::NotContainer
    );
    assert_eq!(
        cascade_decision(Some("video"), false, &Listing::Entries(vec![]), Some("clip_42_20250101_100000")),
        CleanupDecision::NotContainer
    );
}

#[test]
fn cascade_is_eligible_only_with_all_gates() {
    let listings = [Listing::Unreadable, Listing::Entries(vec![]), Listing::Entries(vec![entry("d", true)])];
    for parent in [None, Some("video"), Some("other")] {
        for exists in [false, true] {
            for (k, left) in listings.iter().enumerate() {
                for grandparent in [None, Some("clip_1_20250101_000000"), Some("x")] {
                    let all = parent == Some("video")
                        && exists
                        && k < 2
                        && grandparent == Some("clip_1_20250101_000000");
                    let got = cascade_decision(parent, exists, left, grandparent);
                    assert_eq!(got == CleanupDecision::Eligible, all);
                }
            }
        }
    }
}
