use steamclipconverter::appid::AppId;
use steamclipconverter::grammar::{classify_name, is_container_name, ClipName, NameClass};

fn clip(appid: &str, date: &str, time: &str) -> NameClass {
    NameClass::Clip(ClipName {
        appid: AppId::parse(appid).unwrap(),
        date: date.to_string(),
        time: time.to_string(),
    })
}

#[test]
fn clip_name_round_trip() {
    assert_eq!(classify_name("fg_570_20250828_124021"), clip("570", "20250828", "124021"));
}

#[test]
fn clip_name_keeps_digits_verbatim() {
    assert_eq!(classify_name("fg_294100_00000000_999999"), clip("294100", "00000000", "999999"));
}

#[test]
fn clip_name_leading_zeros_in_identifier() {
    assert_eq!(classify_name("fg_000570_20250101_000000"), clip("570", "20250101", "000000"));
}

#[test]
fn clip_name_identifier_of_any_size() {
    assert_eq!(
        classify_name("fg_4294967295_20250101_000000"),
        clip("4294967295", "20250101", "000000")
    );
    assert_eq!(
        classify_name("fg_4294967296_20250101_000000"),
        clip("4294967296", "20250101", "000000")
    );
    assert_eq!(
        classify_name("fg_18446744073709551616_20250101_000000"),
        clip("18446744073709551616", "20250101", "000000")
    );
    match classify_name("fg_00099999999999999999999999999999_20250101_000000") {
        NameClass::Clip(c) => assert_eq!(c.appid.decimal(), "99999999999999999999999999999"),
        other => panic!("{:?}", other),
    }
}

#[test]
fn clip_name_zero_identifier_is_rejected() {
    assert_eq!(classify_name("fg_0_20250101_000000"), NameClass::Rejected);
    assert_eq!(classify_name("fg_000_20250101_000000"), NameClass::Rejected);
    assert_eq!(
        classify_name("fg_000000000000000000000000000000_20250101_000000"),
        NameClass::Rejected
    );
}

#[test]
fn clip_name_must_match_whole_name() {
    for name in [
        "",
        "fg_",
        "fg__20250101_000000",
        "fg_570_2025010_000000",
        "fg_570_202501011_000000",
        "fg_570_20250101_00000",
        "fg_570_20250101_0000000",
        "fg_570_20250101_000000 ",
        " fg_570_20250101_000000",
        "xfg_570_20250101_000000",
        "fg_570_20250101_000000x",
        "FG_570_20250101_000000",
        "fg-570-20250101-000000",
        "fg_57a_20250101_000000",
        "fg_570_2025010a_000000",
        "fg_570_20250101_00000a",
        "fg_570_20250101",
        "clip_570_20250101_000000",
        "fg_+570_20250101_000000",
        "fg_570_20250101_000000\n",
    ] {
        assert_eq!(classify_name(name), NameClass::Other, "{:?}", name);
    }
}

#[test]
fn clip_name_other_digits_are_no_digits() {
    assert_eq!(classify_name("fg_\u{0665}70_20250101_000000"), NameClass::Other);
}

#[test]
fn container_name_matches() {
    assert!(is_container_name("clip_42_20250101_100000"));
    assert!(is_container_name("clip_0_00000000_000000"));
    assert!(is_container_name("clip_99999999999999999999_20250101_100000"));
}

#[test]
fn container_name_must_match_whole_name() {
    for name in [
        "",
        "clip_",
        "clip_42_20250101_10000",
        "clip_42_2025010_100000",
        "clip__20250101_100000",
        "clip_42_20250101_100000x",
        "xclip_42_20250101_100000",
        "fg_42_20250101_100000",
        "video",
    ] {
        assert!(!is_container_name(name), "{:?}", name);
    }
}

fn names() -> Vec<String> {
    let pieces = ["fg_", "clip_", "_", "0", "7", "570", "20250101", "000000", "4294967296", "x", " "];
    let mut out = vec![String::new()];
    let mut frontier = vec![String::new()];
    for _ in 0..5 {
        let mut next = Vec::new();
        for s in &frontier {
            for p in pieces {
                next.push(format!("{}{}", s, p));
            }
        }
        out.extend(next.iter().cloned());
        frontier = next;
    }
    out
}

#[test]
fn clip_names_agree_with_the_pattern() {
    let re = regex::Regex::new(r"^fg_(\d+)_(\d{8})_(\d{6})$").unwrap();
    for name in names() {
        let expected = match re.captures(&name) {
            None => NameClass::Other,
            Some(caps) if caps[1].chars().all(|c| c == '0') => NameClass::Rejected,
            Some(caps) => clip(&caps[1], &caps[2], &caps[3]),
        };
        assert_eq!(classify_name(&name), expected, "{:?}", name);
    }
}

#[test]
fn container_names_agree_with_the_pattern() {
    let re = regex::Regex::new(r"^clip_\d+_\d{8}_\d{6}$").unwrap();
    for name in names() {
        assert_eq!(is_container_name(&name), re.is_match(&name), "{:?}", name);
    }
}
