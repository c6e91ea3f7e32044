use std::collections::BTreeMap;
use steamclipconverter::appid::AppId;
use steamclipconverter::order::sort_by_path;
use steamclipconverter::scan::{
    retain_app_ids, ClipRecord, DirEntry, Listing, ScanAction, ScanState,
};

fn dir(path: &str) -> DirEntry {
    let name = path.rsplit('/').next().map(|s| s.to_string());
    DirEntry { path: path.to_string(), name, is_dir: true }
}

fn file(path: &str) -> DirEntry {
    let name = path.rsplit('/').next().map(|s| s.to_string());
    DirEntry { path: path.to_string(), name, is_dir: false }
}

fn ids(v: &[u64]) -> Vec<AppId> {
    v.iter().map(|n| AppId::from_u64(*n)).collect()
}

fn record(dir: &str, appid: u64, date: &str, time: &str) -> ClipRecord {
    ClipRecord {
        dir: dir.to_string(),
        appid: AppId::from_u64(appid),
        date: date.to_string(),
        time: time.to_string(),
    }
}

/// Runs a scan over a tree given as a map from a directory to its listing;
/// a directory that the map lacks cannot be read. Returns the records, and
/// the directories that were listed, in the order of listing.
fn run(root: &str, tree: &BTreeMap<String, Vec<DirEntry>>) -> (Option<Vec<ClipRecord>>, Vec<String>) {
    let mut listed = Vec::new();
    let (mut state, mut action) = ScanState::start(root.to_string());
    loop {
        match action {
            ScanAction::List(path) => {
                let listing = match tree.get(&path) {
                    Some(entries) => Listing::Entries(entries.clone()),
                    None => Listing::Unreadable,
                };
                listed.push(path);
                let next = state.step(&listing);
                state = next.0;
                action = next.1;
            }
            ScanAction::Done(found) => return (Some(found), listed),
            ScanAction::Failed => return (None, listed),
        }
    }
}

fn tree(listings: &[(&str, Vec<DirEntry>)]) -> BTreeMap<String, Vec<DirEntry>> {
    listings.iter().map(|(k, v)| (k.to_string(), v.clone())).collect()
}

#[test]
fn scan_starts_with_the_root() {
    let (state, action) = ScanState::start("/in".to_string());
    assert_eq!(action, ScanAction::List("/in".to_string()));
    assert!(state.at_root);
    assert!(state.pending.is_empty());
    assert!(state.found.is_empty());
}

#[test]
fn scan_records_a_clip_once() {
    let t = tree(&[("/in", vec![dir("/in/fg_570_20250828_124021")])]);
    let (found, listed) = run("/in", &t);
    assert_eq!(found, Some(vec![record("/in/fg_570_20250828_124021", 570, "20250828", "124021")]));
    assert_eq!(listed, vec!["/in".to_string()]);
}

#[test]
fn scan_zero_identifier_gives_no_record_and_no_descent() {
    let t = tree(&[
        ("/in", vec![dir("/in/fg_0_20250828_124021")]),
        ("/in/fg_0_20250828_124021", vec![dir("/in/fg_0_20250828_124021/fg_1_20250828_124021")]),
    ]);
    let (found, listed) = run("/in", &t);
    assert_eq!(found, Some(vec![]));
    assert_eq!(listed, vec!["/in".to_string()]);
}

#[test]
fn scan_never_descends_into_a_clip() {
    let t = tree(&[
        ("/in", vec![dir("/in/fg_570_20250828_124021")]),
        (
            "/in/fg_570_20250828_124021",
            vec![dir("/in/fg_570_20250828_124021/fg_571_20250828_124022")],
        ),
    ]);
    let (found, listed) = run("/in", &t);
    assert_eq!(found, Some(vec![record("/in/fg_570_20250828_124021", 570, "20250828", "124021")]));
    assert_eq!(listed, vec!["/in".to_string()]);
}

#[test]
fn scan_goes_on_past_an_unreadable_directory() {
    let t = tree(&[
        ("/in", vec![dir("/in/denied"), dir("/in/open")]),
        ("/in/open", vec![dir("/in/open/fg_42_20250101_100000")]),
    ]);
    let (found, listed) = run("/in", &t);
    assert_eq!(found, Some(vec![record("/in/open/fg_42_20250101_100000", 42, "20250101", "100000")]));
    assert!(listed.contains(&"/in/denied".to_string()));
    assert!(listed.contains(&"/in/open".to_string()));
}

#[test]
fn scan_fails_on_an_unreadable_root() {
    let (found, listed) = run("/in", &tree(&[]));
    assert_eq!(found, None);
    assert_eq!(listed, vec!["/in".to_string()]);
}

#[test]
fn scan_of_an_empty_root_finds_nothing() {
    let (found, _) = run("/in", &tree(&[("/in", vec![])]));
    assert_eq!(found, Some(vec![]));
}

#[test]
fn scan_ignores_files() {
    let t = tree(&[("/in", vec![file("/in/fg_570_20250828_124021"), file("/in/notes.txt")])]);
    let (found, listed) = run("/in", &t);
    assert_eq!(found, Some(vec![]));
    assert_eq!(listed, vec!["/in".to_string()]);
}

#[test]
fn scan_descends_into_a_directory_without_a_name() {
    let nameless = DirEntry { path: "/in/odd".to_string(), name: None, is_dir: true };
    let t = tree(&[
        ("/in", vec![nameless]),
        ("/in/odd", vec![dir("/in/odd/fg_7_20240229_235959")]),
    ]);
    let (found, listed) = run("/in", &t);
    assert_eq!(found, Some(vec![record("/in/odd/fg_7_20240229_235959", 7, "20240229", "235959")]));
    assert_eq!(listed, vec!["/in".to_string(), "/in/odd".to_string()]);
}

#[test]
fn scan_lists_the_last_pending_directory_next() {
    let t = tree(&[("/in", vec![dir("/in/a"), dir("/in/b")]), ("/in/a", vec![]), ("/in/b", vec![])]);
    let (found, listed) = run("/in", &t);
    assert_eq!(found, Some(vec![]));
    assert_eq!(listed, vec!["/in".to_string(), "/in/b".to_string(), "/in/a".to_string()]);
}

#[test]
fn scan_sample_tree() {
    let t = tree(&[
        ("/in", vec![dir("/in/A"), file("/in/readme")]),
        (
            "/in/A",
            vec![
                dir("/in/A/clip_570_20250101_000000"),
                dir("/in/A/fg_570_20250101_000000"),
                dir("/in/A/fg_bad"),
            ],
        ),
        ("/in/A/clip_570_20250101_000000", vec![dir("/in/A/clip_570_20250101_000000/video")]),
        (
            "/in/A/clip_570_20250101_000000/video",
            vec![dir("/in/A/clip_570_20250101_000000/video/fg_570_20250101_000001")],
        ),
        ("/in/A/fg_bad", vec![]),
    ]);
    let (found, _) = run("/in", &t);
    let sorted = sort_by_path(found.unwrap());
    assert_eq!(
        sorted,
        vec![
            record("/in/A/clip_570_20250101_000000/video/fg_570_20250101_000001", 570, "20250101", "000001"),
            record("/in/A/fg_570_20250101_000000", 570, "20250101", "000000"),
        ]
    );
}

#[test]
fn step_after_the_root_takes_unreadable_as_empty() {
    let (state, _) = ScanState::start("/in".to_string());
    let (state, action) = state.step(&Listing::Entries(vec![dir("/in/a"), dir("/in/fg_1_20250101_000000")]));
    assert_eq!(action, ScanAction::List("/in/a".to_string()));
    assert!(!state.at_root);
    let (state, action) = state.step(&Listing::Unreadable);
    assert_eq!(action, ScanAction::Done(vec![record("/in/fg_1_20250101_000000", 1, "20250101", "000000")]));
    assert!(state.pending.is_empty());
    assert!(state.found.is_empty());
}

#[test]
fn retain_with_no_identifier_keeps_all() {
    let clips = vec![record("/b", 2, "20250101", "000000"), record("/a", 1, "20250101", "000000")];
    assert_eq!(retain_app_ids(clips.clone(), &ids(&[])), clips);
}

#[test]
fn retain_keeps_the_chosen_in_order() {
    let clips = vec![
        record("/c", 3, "20250101", "000000"),
        record("/a", 1, "20250101", "000000"),
        record("/b", 2, "20250101", "000000"),
        record("/d", 3, "20250102", "000000"),
    ];
    assert_eq!(
        retain_app_ids(clips.clone(), &ids(&[3, 2, 3])),
        vec![clips[0].clone(), clips[2].clone(), clips[3].clone()]
    );
    assert_eq!(retain_app_ids(clips, &ids(&[9])), vec![]);
}

#[test]
fn clips_sort_by_path() {
    let clips = vec![
        record("/x/b", 1, "20250101", "000000"),
        record("/x/a/z", 2, "20250101", "000000"),
        record("/x/a", 3, "20250101", "000000"),
        record("/x/a.b", 4, "20250101", "000000"),
    ];
    let sorted: Vec<String> = sort_by_path(clips).into_iter().map(|c| c.dir).collect();
    assert_eq!(sorted, vec!["/x/a", "/x/a.b", "/x/a/z", "/x/b"]);
}

#[test]
fn scan_records_are_apart() {
    let t = tree(&[
        ("/in", vec![dir("/in/a"), dir("/in/fg_1_20250101_000000"), dir("/in/b")]),
        ("/in/a", vec![dir("/in/a/fg_1_20250101_000000"), dir("/in/a/a")]),
        ("/in/a/a", vec![dir("/in/a/a/fg_2_20250101_000000")]),
        ("/in/b", vec![dir("/in/b/fg_0_20250101_000000"), file("/in/b/fg_3_20250101_000000")]),
        ("/in/fg_1_20250101_000000", vec![dir("/in/fg_1_20250101_000000/fg_9_20250101_000000")]),
        ("/in/a/fg_1_20250101_000000", vec![dir("/in/a/fg_1_20250101_000000/video")]),
    ]);
    let (found, listed) = run("/in", &t);
    let found = found.unwrap();
    let mut dirs: Vec<String> = found.iter().map(|c| c.dir.clone()).collect();
    dirs.sort();
    assert_eq!(
        dirs,
        vec!["/in/a/a/fg_2_20250101_000000", "/in/a/fg_1_20250101_000000", "/in/fg_1_20250101_000000"]
    );
    for x in &dirs {
        for y in &dirs {
            assert!(x == y || !y.starts_with(&format!("{}/", x)));
        }
        assert!(!listed.contains(x));
    }
}

#[test]
fn scan_records_an_identifier_above_32_bits() {
    let t = tree(&[("/R", vec![dir("/R/fg_4294967296_20250101_000000")])]);
    let (found, listed) = run("/R", &t);
    assert_eq!(found, Some(vec![record("/R/fg_4294967296_20250101_000000", 4294967296, "20250101", "000000")]));
    assert_eq!(listed, vec!["/R".to_string()]);
}

#[test]
fn retain_tells_large_identifiers_apart() {
    let big = |digits: &str, dir: &str| ClipRecord {
        dir: dir.to_string(),
        appid: AppId::parse(digits).unwrap(),
        date: "20250101".to_string(),
        time: "000000".to_string(),
    };
    let clips = vec![
        big("18446744073709551616", "/a"),
        big("18446744073709551617", "/b"),
        big("0018446744073709551616", "/c"),
    ];
    let wanted = vec![AppId::parse("18446744073709551616").unwrap()];
    assert_eq!(retain_app_ids(clips.clone(), &wanted), vec![clips[0].clone(), clips[2].clone()]);
}
