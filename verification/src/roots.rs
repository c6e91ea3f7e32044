//! The library root resolver, as a state machine that does no reading of
//! its own.
//!
//! A base directory holds a library of its own in `steamapps`, and may hold
//! a registry file, in one of two places, that lists the locations of
//! further libraries: each of those holds its library in `steamapps` too.
//! The caller probes and reads what the resolver asks for; the resolver
//! collects the libraries that exist and in the end hands them out in
//! order, each once. A library is held as the components of its path, and
//! the order is that of paths, component by component.

use vstd::prelude::*;
use crate::keyvalue::{all_values, parse_libraryfolders_paths, path_key};
use crate::parts::{same_elements, sorted_unique, strictly_sorted, PathPart, PathPartView};

verus! {

/// One of the two places of a registry file below a base directory.
#[derive(Clone, Copy, Debug, PartialEq, Eq, Structural)]
pub enum RegistryPlace {
    /// `config/libraryfolders.vdf`
    Config,
    /// `steamapps/libraryfolders.vdf`
    Steamapps,
}

/// Something that is still to be asked.
#[derive(Clone, Debug, PartialEq, Eq)]
pub enum RootTask {
    /// Whether `steamapps` below this directory is a directory.
    Library(String),
    /// What the registry file at this place below this directory holds.
    Registry(String, RegistryPlace),
}

pub enum RootTaskView {
    Library(Seq<char>),
    Registry(Seq<char>, RegistryPlace),
}

impl View for RootTask {
    type V = RootTaskView;

    open spec fn view(&self) -> RootTaskView {
        match self {
            RootTask::Library(dir) => RootTaskView::Library(dir@),
            RootTask::Registry(dir, place) => RootTaskView::Registry(dir@, *place),
        }
    }
}

impl DeepView for RootTask {
    type V = RootTaskView;

    open spec fn deep_view(&self) -> RootTaskView {
        self@
    }
}

/// The answer to a task.
#[derive(Clone, Debug, PartialEq, Eq)]
pub enum RootsEvent {
    /// To `RootsAction::Probe`: the components of the path of `steamapps`
    /// below the directory asked about, where that is a directory, else
    /// `None`.
    Library(Option<Vec<PathPart>>),
    /// To `RootsAction::Read`: the text of the registry file, where there is
    /// such a file and it can be read, else `None`.
    Registry(Option<String>),
}

/// What the caller is to do next.
#[derive(Clone, Debug, PartialEq, Eq)]
pub enum RootsAction {
    /// See whether `steamapps` below this directory is a directory, and
    /// answer with `RootsEvent::Library`.
    Probe(String),
    /// Read the registry file at this place below this directory, and
    /// answer with `RootsEvent::Registry`.
    Read(String, RegistryPlace),
    /// The resolver is done; these are the metadata roots, in order, each
    /// once.
    Done(Vec<Vec<PathPart>>),
}

/// A resolution in progress.
#[derive(Clone, Debug, PartialEq, Eq)]
pub struct RootsState {
    /// What is still to be asked; the last task is next.
    pub tasks: Vec<RootTask>,
    /// The libraries found so far.
    pub found: Vec<Vec<PathPart>>,
}

pub struct RootsStateView {
    pub tasks: Seq<RootTaskView>,
    pub found: Seq<Seq<PathPartView>>,
}

impl View for RootsState {
    type V = RootsStateView;

    open spec fn view(&self) -> RootsStateView {
        RootsStateView { tasks: self.tasks.deep_view(), found: self.found.deep_view() }
    }
}

/// The tasks that the base directories give, the last task first: for each
/// base in turn its own library, then its registry file in `config`, then
/// the one in `steamapps`.
pub open spec fn base_tasks(bases: Seq<Seq<char>>) -> Seq<RootTaskView>
    decreases bases.len(),
{
    if bases.len() == 0 {
        Seq::empty()
    } else {
        base_tasks(bases.drop_first()) + seq![
            RootTaskView::Registry(bases[0], RegistryPlace::Steamapps),
            RootTaskView::Registry(bases[0], RegistryPlace::Config),
            RootTaskView::Library(bases[0]),
        ]
    }
}

/// The tasks that the locations of a registry file give, the last task
/// first: the library at each location, in the order of the file.
pub open spec fn location_tasks(locations: Seq<Seq<char>>) -> Seq<RootTaskView>
    decreases locations.len(),
{
    if locations.len() == 0 {
        Seq::empty()
    } else {
        location_tasks(locations.drop_first()).push(RootTaskView::Library(locations[0]))
    }
}

/// The state once an answer is taken in: a library that exists joins those
/// found, the locations that a registry file lists become tasks, and an
/// answer of `None` changes nothing.
pub open spec fn after_event(s: RootsStateView, event: RootsEvent) -> RootsStateView {
    match event {
        RootsEvent::Library(Some(path)) => RootsStateView {
            tasks: s.tasks,
            found: s.found.push(path.deep_view()),
        },
        RootsEvent::Registry(Some(text)) => RootsStateView {
            tasks: s.tasks + location_tasks(all_values(text@, path_key())),
            found: s.found,
        },
        _ => s,
    }
}

/// `action` and `next` are what follows from the state `s`: the last task
/// is asked and leaves the tasks; with no task left the resolver is done,
/// and hands out what it found, in order and each once.
pub open spec fn follows(s: RootsStateView, next: RootsStateView, action: RootsAction) -> bool {
    if s.tasks.len() == 0 {
        &&& next == RootsStateView { tasks: Seq::empty(), found: Seq::empty() }
        &&& action matches RootsAction::Done(roots)
        &&& strictly_sorted(roots.deep_view())
        &&& same_elements(roots.deep_view(), s.found)
    } else {
        &&& next == RootsStateView { tasks: s.tasks.drop_last(), found: s.found }
        &&& match s.tasks.last() {
            RootTaskView::Library(dir) => action matches RootsAction::Probe(d) && d@ == dir,
            RootTaskView::Registry(dir, place) => action matches RootsAction::Read(d, p) && d@
                == dir && p == place,
        }
    }
}

impl RootsState {
    /// Begins with the base directories that may hold a library.
    pub fn start(bases: &Vec<String>) -> (r: (RootsState, RootsAction))
        ensures
            follows(
                RootsStateView { tasks: base_tasks(bases.deep_view()), found: Seq::empty() },
                r.0@,
                r.1,
            ),
    {
        let ghost all = bases.deep_view();
        let mut tasks: Vec<RootTask> = Vec::new();
        let mut i: usize = bases.len();
        assert(all.skip(i as int) =~= Seq::empty());
        assert(tasks.deep_view() =~= base_tasks(all.skip(i as int)));
        while i > 0
            invariant
                i <= bases.len(),
                all == bases.deep_view(),
                tasks.deep_view() == base_tasks(all.skip(i as int)),
            decreases i,
        {
            let ghost before = tasks.deep_view();
            i -= 1;
            let base = &bases[i];
            tasks.push(RootTask::Registry(base.clone(), RegistryPlace::Steamapps));
            tasks.push(RootTask::Registry(base.clone(), RegistryPlace::Config));
            tasks.push(RootTask::Library(base.clone()));
            proof {
                assert(all.skip(i as int).drop_first() =~= all.skip(i + 1));
                assert(all.skip(i as int)[0] == base@);
                assert(tasks.deep_view() =~= before + seq![
                    RootTaskView::Registry(base@, RegistryPlace::Steamapps),
                    RootTaskView::Registry(base@, RegistryPlace::Config),
                    RootTaskView::Library(base@),
                ]);
            }
        }
        assert(all.skip(0) =~= all);
        let state = RootsState { tasks, found: Vec::new() };
        assert(state.found.deep_view() =~= Seq::empty());
        state.advance()
    }

    /// Takes the answer to the last action, and says what to do next.
    pub fn step(self, event: RootsEvent) -> (r: (RootsState, RootsAction))
        ensures
            follows(after_event(self@, event), r.0@, r.1),
    {
        let mut state = self;
        match event {
            RootsEvent::Library(Some(path)) => {
                let ghost before = state.found.deep_view();
                let ghost added = path.deep_view();
                state.found.push(path);
                assert(state.found.deep_view() =~= before.push(added));
            },
            RootsEvent::Registry(Some(text)) => {
                let locations = parse_libraryfolders_paths(text.as_str());
                state.add_locations(&locations);
            },
            _ => {},
        }
        state.advance()
    }

    fn add_locations(&mut self, locations: &Vec<String>)
        ensures
            final(self)@.tasks == old(self)@.tasks + location_tasks(locations.deep_view()),
            final(self)@.found == old(self)@.found,
    {
        let ghost all = locations.deep_view();
        let ghost tasks0 = self@.tasks;
        let mut i: usize = locations.len();
        assert(all.skip(i as int) =~= Seq::empty());
        assert(self@.tasks =~= tasks0 + location_tasks(all.skip(i as int)));
        while i > 0
            invariant
                i <= locations.len(),
                all == locations.deep_view(),
                self@.tasks == tasks0 + location_tasks(all.skip(i as int)),
                self@.found == old(self)@.found,
            decreases i,
        {
            let ghost before = self@.tasks;
            i -= 1;
            self.tasks.push(RootTask::Library(locations[i].clone()));
            proof {
                assert(all.skip(i as int).drop_first() =~= all.skip(i + 1));
                assert(all.skip(i as int)[0] == locations[i as int]@);
                assert(self@.tasks =~= before.push(RootTaskView::Library(locations[i as int]@)));
            }
        }
        assert(all.skip(0) =~= all);
    }

    fn advance(self) -> (r: (RootsState, RootsAction))
        ensures
            follows(self@, r.0@, r.1),
    {
        let mut state = self;
        match state.tasks.pop() {
            Some(task) => {
                assert(state.tasks.deep_view() =~= self@.tasks.drop_last());
                assert(task@ == self@.tasks.last());
                match task {
                    RootTask::Library(dir) => (state, RootsAction::Probe(dir)),
                    RootTask::Registry(dir, place) => (state, RootsAction::Read(dir, place)),
                }
            },
            None => {
                let roots = sorted_unique(state.found);
                let rest = RootsState { tasks: Vec::new(), found: Vec::new() };
                assert(rest.tasks.deep_view() =~= Seq::empty());
                assert(rest.found.deep_view() =~= Seq::empty());
                (rest, RootsAction::Done(roots))
            },
        }
    }
}

impl RegistryPlace {
    /// The directory, below the base, that holds the registry file.
    pub fn directory(self) -> (r: &'static str)
        ensures
            r@ == match self {
                RegistryPlace::Config => "config"@,
                RegistryPlace::Steamapps => "steamapps"@,
            },
    {
        match self {
            RegistryPlace::Config => "config",
            RegistryPlace::Steamapps => "steamapps",
        }
    }
}

/// The name of the directory that holds a library, below a base directory
/// or below a location that a registry file lists.
pub fn library_directory() -> (r: &'static str)
    ensures
        r@ == "steamapps"@,
{
    "steamapps"
}

/// The name of a registry file.
pub fn registry_file_name() -> (r: &'static str)
    ensures
        r@ == "libraryfolders.vdf"@,
{
    "libraryfolders.vdf"
}

} // verus!
