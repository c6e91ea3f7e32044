use steamclipconverter::appid::AppId;
use steamclipconverter::identity::{
    manifest_file_name, resolve_app_name, LookupAction, NameLookup,
};

fn manifest(name: &str) -> Option<String> {
    Some(format!("\"AppState\"\n{{\n\t\"name\"\t\t\"{}\"\n}}\n", name))
}

#[test]
fn manifest_file_name_holds_the_identifier() {
    assert_eq!(manifest_file_name(&AppId::from_u64(570)), "appmanifest_570.acf");
    assert_eq!(manifest_file_name(&AppId::from_u64(0)), "appmanifest_0.acf");
    assert_eq!(manifest_file_name(&AppId::parse("000570").unwrap()), "appmanifest_570.acf");
    assert_eq!(
        manifest_file_name(&AppId::parse("18446744073709551616").unwrap()),
        "appmanifest_18446744073709551616.acf"
    );
}

#[test]
fn first_root_with_a_name_wins() {
    assert_eq!(resolve_app_name(&vec![manifest("One"), manifest("Two")]), Some("One".to_string()));
    assert_eq!(resolve_app_name(&vec![manifest("Two"), manifest("One")]), Some("Two".to_string()));
}

#[test]
fn resolving_is_the_same_every_time() {
    let roots = vec![None, manifest("One"), manifest("Two")];
    let first = resolve_app_name(&roots);
    for _ in 0..5 {
        assert_eq!(resolve_app_name(&roots), first);
    }
    assert_eq!(first, Some("One".to_string()));
}

#[test]
fn roots_without_a_name_are_passed_over() {
    let roots = vec![None, Some("no pair here".to_string()), Some("\"name\" \"\"".to_string()), manifest("Late")];
    assert_eq!(resolve_app_name(&roots), Some("Late".to_string()));
}

#[test]
fn no_root_no_name() {
    assert_eq!(resolve_app_name(&vec![]), None);
    assert_eq!(resolve_app_name(&vec![None, None]), None);
    assert_eq!(resolve_app_name(&vec![Some("{}".to_string())]), None);
}

#[test]
fn lookup_asks_root_by_root() {
    let (lookup, action) = NameLookup::start(3);
    assert_eq!(action, LookupAction::Read(0));
    let (lookup, action) = lookup.step(3, None);
    assert_eq!(action, LookupAction::Read(1));
    let (lookup, action) = lookup.step(3, Some("\"nom\" \"x\""));
    assert_eq!(action, LookupAction::Read(2));
    let (_, action) = lookup.step(3, None);
    assert_eq!(action, LookupAction::Done(None));
}

#[test]
fn lookup_stops_at_the_first_name() {
    let (lookup, action) = NameLookup::start(3);
    assert_eq!(action, LookupAction::Read(0));
    let (lookup, action) = lookup.step(3, Some("\"name\" \"Found\""));
    assert_eq!(action, LookupAction::Done(Some("Found".to_string())));
    assert_eq!(lookup.asked, 0);
}

#[test]
fn lookup_with_no_root_is_done_at_once() {
    let (_, action) = NameLookup::start(0);
    assert_eq!(action, LookupAction::Done(None));
}
