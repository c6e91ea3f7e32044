use std::collections::BTreeMap;
use std::path::{Component, Path, PathBuf};
use steamclipconverter::parts::{path_le_exec, sorted_unique, PathPart};
use steamclipconverter::roots::{
    library_directory, registry_file_name, RegistryPlace, RootsAction, RootsEvent, RootsState,
};

fn strings(v: &[&str]) -> Vec<String> {
    v.iter().map(|s| s.to_string()).collect()
}

fn parts_of(path: &str) -> Vec<PathPart> {
    Path::new(path)
        .components()
        .map(|c| match c {
            Component::Prefix(p) => PathPart::Prefix(p.as_os_str().to_string_lossy().into_owned()),
            Component::RootDir => PathPart::Root,
            Component::CurDir => PathPart::Current,
            Component::ParentDir => PathPart::Parent,
            Component::Normal(n) => PathPart::Name(n.to_string_lossy().into_owned()),
        })
        .collect()
}

fn paths(v: &[&str]) -> Vec<Vec<PathPart>> {
    v.iter().map(|s| parts_of(s)).collect()
}

/// Runs a resolution against the directories that exist and the files
/// that can be read. Returns the roots and what was asked, in order.
fn run(bases: &[&str], dirs: &[&str], files: &[(&str, &str)]) -> (Vec<Vec<PathPart>>, Vec<String>) {
    let files: BTreeMap<String, String> =
        files.iter().map(|(k, v)| (k.to_string(), v.to_string())).collect();
    let dirs: Vec<PathBuf> = dirs.iter().map(PathBuf::from).collect();
    let mut asked = Vec::new();
    let (mut state, mut action) = RootsState::start(&strings(bases));
    loop {
        let event = match action {
            RootsAction::Probe(dir) => {
                let path = format!("{}/{}", dir, library_directory());
                asked.push(path.clone());
                let there = dirs.contains(&PathBuf::from(&path));
                RootsEvent::Library(if there { Some(parts_of(&path)) } else { None })
            }
            RootsAction::Read(dir, place) => {
                let path = format!("{}/{}/{}", dir, place.directory(), registry_file_name());
                asked.push(path.clone());
                RootsEvent::Registry(files.get(&path).cloned())
            }
            RootsAction::Done(roots) => return (roots, asked),
        };
        let next = state.step(event);
        state = next.0;
        action = next.1;
    }
}

#[test]
fn places_of_the_registry_file() {
    assert_eq!(RegistryPlace::Config.directory(), "config");
    assert_eq!(RegistryPlace::Steamapps.directory(), "steamapps");
    assert_eq!(library_directory(), "steamapps");
    assert_eq!(registry_file_name(), "libraryfolders.vdf");
}

#[test]
fn no_base_no_root() {
    let (roots, asked) = run(&[], &[], &[]);
    assert_eq!(roots, paths(&[]));
    assert_eq!(asked, Vec::<String>::new());
}

#[test]
fn a_base_that_is_not_there_gives_nothing() {
    let (roots, asked) = run(&["/s"], &[], &[]);
    assert_eq!(roots, paths(&[]));
    assert_eq!(
        asked,
        strings(&["/s/steamapps", "/s/config/libraryfolders.vdf", "/s/steamapps/libraryfolders.vdf"])
    );
}

#[test]
fn the_base_holds_a_library() {
    let (roots, _) = run(&["/s"], &["/s/steamapps"], &[]);
    assert_eq!(roots, paths(&["/s/steamapps"]));
}

#[test]
fn registry_files_add_libraries_that_exist() {
    let (roots, asked) = run(
        &["/s"],
        &["/s/steamapps", "/mnt/b/steamapps", "/mnt/a/steamapps"],
        &[
            ("/s/config/libraryfolders.vdf", "\"path\" \"/s\"\n\"path\" \"/mnt/b\"\n\"path\" \"/gone\""),
            ("/s/steamapps/libraryfolders.vdf", "\"path\"\t\"/mnt/a\" \"path\" \"/mnt/b\""),
        ],
    );
    assert_eq!(roots, paths(&["/mnt/a/steamapps", "/mnt/b/steamapps", "/s/steamapps"]));
    assert_eq!(
        asked,
        strings(&[
            "/s/steamapps",
            "/s/config/libraryfolders.vdf",
            "/s/steamapps",
            "/mnt/b/steamapps",
            "/gone/steamapps",
            "/s/steamapps/libraryfolders.vdf",
            "/mnt/a/steamapps",
            "/mnt/b/steamapps",
        ])
    );
}

#[test]
fn bases_are_asked_in_their_order() {
    let (roots, asked) = run(&["/one", "/two"], &["/two/steamapps", "/one/steamapps"], &[]);
    assert_eq!(roots, paths(&["/one/steamapps", "/two/steamapps"]));
    assert_eq!(
        asked,
        strings(&[
            "/one/steamapps",
            "/one/config/libraryfolders.vdf",
            "/one/steamapps/libraryfolders.vdf",
            "/two/steamapps",
            "/two/config/libraryfolders.vdf",
            "/two/steamapps/libraryfolders.vdf",
        ])
    );
}

#[test]
fn roots_do_not_depend_on_the_order_of_the_bases() {
    let dirs = ["/a/steamapps", "/b/steamapps", "/c/steamapps"];
    let files = [("/b/config/libraryfolders.vdf", "\"path\" \"/c\" \"path\" \"/a\"")];
    let (one, _) = run(&["/a", "/b"], &dirs, &files);
    let (two, _) = run(&["/b", "/a"], &dirs, &files);
    assert_eq!(one, two);
    assert_eq!(one, paths(&["/a/steamapps", "/b/steamapps", "/c/steamapps"]));
}

#[test]
fn roots_are_ordered_component_by_component() {
    let (roots, _) = run(&["/l.2", "/l"], &["/l/steamapps", "/l.2/steamapps"], &[]);
    assert_eq!(roots, paths(&["/l/steamapps", "/l.2/steamapps"]));
    let (roots, _) = run(
        &["/x/Steam Library", "/x/Steam"],
        &["/x/Steam/steamapps", "/x/Steam Library/steamapps"],
        &[],
    );
    assert_eq!(roots, paths(&["/x/Steam/steamapps", "/x/Steam Library/steamapps"]));
}

#[test]
fn roots_that_are_one_path_are_kept_once() {
    let (roots, _) = run(
        &["/mnt/lib"],
        &["/mnt/lib/steamapps"],
        &[("/mnt/lib/config/libraryfolders.vdf", "\"path\" \"/mnt//lib\" \"path\" \"/mnt/lib/\" \"path\" \"/mnt/./lib\"")],
    );
    assert_eq!(roots, paths(&["/mnt/lib/steamapps"]));
}

const SAMPLES: [&str; 24] = [
    "", ".", "..", "/", "a", "/a", "a/b", "/a/b", "/a.b", "/a b", "/a-b", "/a/b/c", "/ab", "/b",
    "/B", "./a", "../a", "/a/../b", "/l/steamapps", "/l.2/steamapps", "/\u{e9}", "/a\u{e9}",
    "!x/y", ".local/share",
];

#[test]
fn order_of_paths_is_that_of_their_components() {
    for x in SAMPLES {
        for y in SAMPLES {
            let expected = PathBuf::from(x) <= PathBuf::from(y);
            assert_eq!(path_le_exec(&parts_of(x), &parts_of(y)), expected, "{:?} {:?}", x, y);
        }
    }
}

#[test]
fn sorted_unique_orders_and_drops_repeats() {
    let mut expected: Vec<PathBuf> = SAMPLES.iter().map(PathBuf::from).collect();
    expected.sort();
    expected.dedup();
    let expected: Vec<Vec<PathPart>> =
        expected.iter().map(|p| parts_of(p.to_str().unwrap())).collect();
    let mut twice: Vec<&str> = SAMPLES.to_vec();
    twice.extend(SAMPLES.iter().rev());
    assert_eq!(sorted_unique(paths(&twice)), expected);
    assert_eq!(sorted_unique(vec![]), paths(&[]));
}
