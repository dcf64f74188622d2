//! Loads a module and what it imports, as a dialogue with whoever reads the files.
//!
//! [`ModuleResolver::load`] and [`ModuleResolver::load_lenient`] begin a load. Each
//! [`Progress`] says what has to be done next: find the canonical form of a path, read a file, or
//! resolve an import. The answer is handed back, which gives the next [`Progress`], until the
//! load has finished or failed.

use vstd::prelude::*;
use vstd::string::*;

use crate::resolver::{LoadedModule, ModuleMap, ModuleResolver, ModuleView};
use crate::rewrite::{find_import, read_lines, write_script, Line, LineView};
use crate::text::decimal_text;
use crate::typescript::strip_typescript;

verus! {

/// A path to a module, as whoever reads the files names it.
#[derive(Debug)]
pub struct ScriptPath {
    /// What tells the path from other paths.
    pub path: String,
    /// How messages show the path.
    pub display: String,
    /// The file name, empty if there is none.
    pub file_name: String,
    /// The extension of the file name.
    pub extension: Option<String>,
}

/// A path to a module, as the contracts see it.
pub struct PathView {
    /// What tells the path from other paths.
    pub path: Seq<char>,
    /// How messages show the path.
    pub display: Seq<char>,
    /// The file name.
    pub file_name: Seq<char>,
    /// The extension of the file name.
    pub extension: Option<Seq<char>>,
}

impl View for ScriptPath {
    type V = PathView;

    open spec fn view(&self) -> PathView {
        PathView {
            path: self.path@,
            display: self.display@,
            file_name: self.file_name@,
            extension: match self.extension {
                Some(extension) => Some(extension@),
                None => None,
            },
        }
    }
}

/// Why a load could not be carried through.
#[derive(Debug)]
pub enum LoadError {
    /// A path has no canonical form.
    Canonicalize,
    /// A file could not be read.
    Read {
        /// Whether the file was loaded leniently.
        lenient: bool,
        /// How messages show the path.
        display: String,
    },
    /// The types could not be stripped from a file that was loaded leniently.
    Strip {
        /// How messages show the path.
        display: String,
        /// The message of the failure.
        cause: String,
    },
}

/// Why a load could not be carried through, as the contracts see it.
pub enum LoadErrorView {
    /// A path has no canonical form.
    Canonicalize,
    /// A file could not be read.
    Read {
        /// Whether the file was loaded leniently.
        lenient: bool,
        /// How messages show the path.
        display: Seq<char>,
    },
    /// The types could not be stripped from a file that was loaded leniently.
    Strip {
        /// How messages show the path.
        display: Seq<char>,
        /// The message of the failure.
        cause: Seq<char>,
    },
}

impl View for LoadError {
    type V = LoadErrorView;

    open spec fn view(&self) -> LoadErrorView {
        match *self {
            LoadError::Canonicalize => LoadErrorView::Canonicalize,
            LoadError::Read { lenient, display } => LoadErrorView::Read {
                lenient,
                display: display@,
            },
            LoadError::Strip { display, cause } => LoadErrorView::Strip {
                display: display@,
                cause: cause@,
            },
        }
    }
}

impl LoadErrorView {
    /// What a message says of the failure.
    pub open spec fn message(self) -> Seq<char> {
        match self {
            LoadErrorView::Canonicalize => "Failed to canonicalize script path"@,
            LoadErrorView::Read { lenient, display } => if lenient {
                "Failed to read: "@ + display
            } else {
                "Failed to read JS: "@ + display
            },
            LoadErrorView::Strip { display, .. } => "Failed to strip TypeScript: "@ + display,
        }
    }
}

impl LoadError {
    /// Says what failed. The cause of the failure is not part of it.
    pub fn message(&self) -> (r: String)
        ensures
            r@ == self@.message(),
    {
        match self {
            LoadError::Canonicalize => "Failed to canonicalize script path".to_owned(),
            LoadError::Read { lenient, display } => if *lenient {
                "Failed to read: ".to_owned().concat(display.as_str())
            } else {
                "Failed to read JS: ".to_owned().concat(display.as_str())
            },
            LoadError::Strip { display, .. } => "Failed to strip TypeScript: ".to_owned().concat(
                display.as_str(),
            ),
        }
    }
}

/// A module whose lines are being gone through.
#[derive(Debug)]
pub struct Scan {
    lenient: bool,
    path: ScriptPath,
    canonical: String,
    lines: Vec<Line>,
    next: usize,
    deps: Vec<String>,
    passed: Option<String>,
}

/// A module whose lines are being gone through, as the contracts see it.
pub struct ScanView {
    /// Whether an import that cannot be had is passed over.
    pub lenient: bool,
    /// The path under which the module was asked for.
    pub path: PathView,
    /// The canonical path, under which the module is kept.
    pub canonical: Seq<char>,
    /// What the lines of the module are.
    pub lines: Seq<LineView>,
    /// The first line that has not been gone through.
    pub next: nat,
    /// The dependencies found so far.
    pub deps: Seq<Seq<char>>,
    /// The fault of the first import that was passed over.
    pub passed: Option<Seq<char>>,
}

impl View for Scan {
    type V = ScanView;

    closed spec fn view(&self) -> ScanView {
        ScanView {
            lenient: self.lenient,
            path: self.path@,
            canonical: self.canonical@,
            lines: crate::rewrite::line_views(self.lines@),
            next: self.next as nat,
            deps: crate::text::texts(self.deps@),
            passed: crate::error::optional_text(self.passed),
        }
    }
}

impl ScanView {
    /// The place in the module that a message points to.
    pub open spec fn place(self) -> Seq<char> {
        ":"@ + crate::text::decimal(self.next + 1)
    }

    /// The specifier of the import on the next line.
    pub open spec fn specifier(self) -> Seq<char> {
        self.lines[self.next as int]->Import_0
    }

    /// The module, once all of its lines have been gone through.
    pub open spec fn module(self) -> ModuleView {
        ModuleView { script: crate::rewrite::script_of(self.lines), deps: self.deps }
    }

    /// The scan at the next import, or at the end.
    pub open spec fn at_import(self) -> ScanView {
        ScanView { next: crate::rewrite::next_import(self.lines, self.next), ..self }
    }

    /// The scan behind an import that adds no dependency for its fault.
    pub open spec fn passed_over(self, fault: Seq<char>) -> ScanView {
        ScanView {
            next: self.next + 1,
            passed: match self.passed {
                Some(earlier) => Some(earlier),
                None => Some(fault),
            },
            ..self
        }
    }

    /// The scan behind an import of the module at `path`.
    pub open spec fn depending_on(self, path: Seq<char>) -> ScanView {
        ScanView { next: self.next + 1, deps: self.deps.push(path), ..self }
    }

    /// Why the module cannot be had for the fault of an import.
    pub open spec fn reason(self, fault: Seq<char>) -> Seq<char> {
        self.path.display + fault
    }

    /// The fault of the next import when it does not resolve.
    pub open spec fn unresolved_fault(self) -> Seq<char> {
        self.place() + ": cannot resolve '"@ + self.specifier() + "'"@
    }

    /// The fault of the next import when the module that it names cannot be had.
    pub open spec fn dependency_fault(self, m: ModuleMap, dependency: PathView) -> Seq<char> {
        self.place() + ": "@ + if m.contains_key(dependency.path) && m[dependency.path] is Err {
            m[dependency.path]->Err_0
        } else {
            dependency.display
        }
    }

    /// The fault of the next import when it leads back to a module that waits. `passed` is the
    /// fault of the first import that the module passed over, for which it could not be had
    /// unless it were loaded leniently.
    pub open spec fn circular_fault(
        self,
        dependency: PathView,
        passed: Option<Seq<char>>,
    ) -> Seq<char> {
        match passed {
            Some(fault) => self.place() + ": "@ + dependency.display + fault,
            None => self.place() + ": circular import of '"@ + self.specifier() + "'"@,
        }
    }
}

/// A module that waits for one of its dependencies.
#[derive(Debug)]
pub struct Suspended {
    scan: Scan,
    dependency: ScriptPath,
}

/// A module that waits for one of its dependencies, as the contracts see it.
pub struct SuspendedView {
    /// The module.
    pub scan: ScanView,
    /// The dependency that is being loaded.
    pub dependency: PathView,
}

impl View for Suspended {
    type V = SuspendedView;

    closed spec fn view(&self) -> SuspendedView {
        SuspendedView { scan: self.scan@, dependency: self.dependency@ }
    }
}

/// The views of a list of waiting modules.
pub open spec fn suspended_views(parents: Seq<Suspended>) -> Seq<SuspendedView> {
    parents.map_values(|parent: Suspended| parent@)
}

/// The modules that wait for one of their dependencies, by their canonical paths, each with the
/// fault of the first import that it passed over.
pub open spec fn waiting_on(parents: Seq<SuspendedView>) -> Map<Seq<char>, Option<Seq<char>>>
    decreases parents.len(),
{
    if parents.len() == 0 {
        Map::empty()
    } else {
        waiting_on(parents.drop_last()).insert(
            parents.last().scan.canonical,
            parents.last().scan.passed,
        )
    }
}

/// The canonical form of a path is wanted.
#[derive(Debug)]
pub struct Locating {
    parents: Vec<Suspended>,
    lenient: bool,
    path: ScriptPath,
}

/// The contents of a file are wanted.
#[derive(Debug)]
pub struct Reading {
    parents: Vec<Suspended>,
    lenient: bool,
    path: ScriptPath,
    canonical: String,
}

/// The module that an import names is wanted.
#[derive(Debug)]
pub struct Resolving {
    parents: Vec<Suspended>,
    scan: Scan,
}

/// What has to be done next to load a module.
#[derive(Debug)]
pub enum Progress {
    /// Find the canonical form of a path.
    Canonicalize(Locating),
    /// Read a file.
    Read(Reading),
    /// Resolve an import.
    Resolve(Resolving),
    /// Nothing: the load has finished. Tells whether the module is ready for the script engine.
    Finished(bool),
    /// Nothing: the load has failed.
    Failed(LoadError),
}

/// What has to be done next to load a module, as the contracts see it. `parents` are the modules
/// that wait for the one at hand, the outermost first.
pub enum ProgressView {
    /// Find the canonical form of a path.
    Canonicalize { parents: Seq<SuspendedView>, lenient: bool, path: PathView },
    /// Read a file.
    Read {
        parents: Seq<SuspendedView>,
        lenient: bool,
        path: PathView,
        canonical: Seq<char>,
    },
    /// Resolve an import.
    Resolve { parents: Seq<SuspendedView>, scan: ScanView },
    /// The load has finished.
    Finished(bool),
    /// The load has failed.
    Failed(LoadErrorView),
}

impl View for Locating {
    type V = ProgressView;

    closed spec fn view(&self) -> ProgressView {
        ProgressView::Canonicalize {
            parents: suspended_views(self.parents@),
            lenient: self.lenient,
            path: self.path@,
        }
    }
}

impl View for Reading {
    type V = ProgressView;

    closed spec fn view(&self) -> ProgressView {
        ProgressView::Read {
            parents: suspended_views(self.parents@),
            lenient: self.lenient,
            path: self.path@,
            canonical: self.canonical@,
        }
    }
}

impl View for Resolving {
    type V = ProgressView;

    closed spec fn view(&self) -> ProgressView {
        ProgressView::Resolve { parents: suspended_views(self.parents@), scan: self.scan@ }
    }
}

impl View for Progress {
    type V = ProgressView;

    open spec fn view(&self) -> ProgressView {
        match *self {
            Progress::Canonicalize(locating) => locating@,
            Progress::Read(reading) => reading@,
            Progress::Resolve(resolving) => resolving@,
            Progress::Finished(loaded) => ProgressView::Finished(loaded),
            Progress::Failed(error) => ProgressView::Failed(error@),
        }
    }
}

/// Whether the next line of the scan is an import.
pub open spec fn stands_at_import(scan: ScanView) -> bool {
    scan.next < scan.lines.len() && scan.lines[scan.next as int] is Import
}

/// Whether each waiting module stands at an import.
pub open spec fn all_stand_at_import(parents: Seq<SuspendedView>) -> bool {
    forall|i: int| 0 <= i < parents.len() ==> stands_at_import((#[trigger] parents[i]).scan)
}

impl ProgressView {
    /// Every module that waits for an answer stands at an import.
    pub open spec fn well_formed(self) -> bool {
        match self {
            ProgressView::Canonicalize { parents, .. } => all_stand_at_import(parents),
            ProgressView::Read { parents, .. } => all_stand_at_import(parents),
            ProgressView::Resolve { parents, scan } => all_stand_at_import(parents)
                && stands_at_import(scan),
            _ => true,
        }
    }
}

/// Goes on with a module: up to its next import, or to its end, where the module is kept as
/// ready and those that wait for it go on.
pub open spec fn resumed(m: ModuleMap, parents: Seq<SuspendedView>, scan: ScanView) -> (
    ModuleMap,
    ProgressView,
)
    decreases parents.len(), 1nat,
{
    let stop = scan.at_import();
    if stop.next < scan.lines.len() {
        (m, ProgressView::Resolve { parents, scan: stop })
    } else {
        settled(m.insert(scan.canonical, Ok(scan.module())), parents, true)
    }
}

/// Hands the outcome of a load to the module that waits for it. A module that is ready becomes a
/// dependency. One that cannot be had is passed over by a lenient load; otherwise the module that
/// waits for it cannot be had either.
pub open spec fn settled(m: ModuleMap, parents: Seq<SuspendedView>, loaded: bool) -> (
    ModuleMap,
    ProgressView,
)
    decreases parents.len(), 0nat,
{
    if parents.len() == 0 {
        (m, ProgressView::Finished(loaded))
    } else {
        let scan = parents.last().scan;
        let dependency = parents.last().dependency;
        if loaded {
            resumed(m, parents.drop_last(), scan.depending_on(dependency.path))
        } else if scan.lenient {
            resumed(
                m,
                parents.drop_last(),
                scan.passed_over(scan.dependency_fault(m, dependency)),
            )
        } else {
            settled(
                m.insert(
                    scan.canonical,
                    Err(scan.reason(scan.dependency_fault(m, dependency))),
                ),
                parents.drop_last(),
                false,
            )
        }
    }
}

/// Goes on with the module that waits last when its next import leads back to a module that
/// waits, which passed over an import with the fault `passed`. A lenient load passes over the
/// import; otherwise the module cannot be had.
pub open spec fn circled(
    m: ModuleMap,
    parents: Seq<SuspendedView>,
    passed: Option<Seq<char>>,
) -> (ModuleMap, ProgressView) {
    let scan = parents.last().scan;
    let fault = scan.circular_fault(parents.last().dependency, passed);
    if scan.lenient {
        resumed(m, parents.drop_last(), scan.passed_over(fault))
    } else {
        settled(m.insert(scan.canonical, Err(scan.reason(fault))), parents.drop_last(), false)
    }
}

/// Goes on when a file cannot be located, read or stripped of its types: the load fails, unless a
/// module waits for the file, which then cannot have it.
pub open spec fn unreadable(
    m: ModuleMap,
    parents: Seq<SuspendedView>,
    error: LoadErrorView,
) -> (ModuleMap, ProgressView) {
    if parents.len() == 0 {
        (m, ProgressView::Failed(error))
    } else {
        settled(m, parents, false)
    }
}

/// Goes on when the canonical form of a path is known. A module that is known already is not
/// loaded again, unless the load is lenient and the module could not be had. A module that waits,
/// and that nothing is known of yet, is not loaded again either: the import that leads to it is
/// circular.
pub open spec fn located(
    m: ModuleMap,
    parents: Seq<SuspendedView>,
    lenient: bool,
    path: PathView,
    answer: Option<Seq<char>>,
) -> (ModuleMap, ProgressView) {
    match answer {
        None => unreadable(m, parents, LoadErrorView::Canonicalize),
        Some(canonical) => if crate::resolver::is_ready(m, canonical) {
            settled(m, parents, true)
        } else if m.contains_key(canonical) && !lenient {
            settled(m, parents, false)
        } else if waiting_on(parents).contains_key(canonical) {
            circled(m, parents, waiting_on(parents)[canonical])
        } else {
            (m, ProgressView::Read { parents, lenient, path, canonical })
        },
    }
}

/// The source text of a module: TypeScript without its types, anything else as it is.
pub open spec fn module_source(path: PathView, text: Seq<char>) -> Result<Seq<char>, Seq<char>> {
    if path.extension == Some("ts"@) {
        crate::typescript::stripped(text, path.file_name)
    } else {
        Ok(text)
    }
}

/// The scan of a module whose source text is known, before its first line.
pub open spec fn new_scan(
    lenient: bool,
    path: PathView,
    canonical: Seq<char>,
    source: Seq<char>,
) -> ScanView {
    ScanView {
        lenient,
        path,
        canonical,
        lines: crate::rewrite::source_lines(source),
        next: 0,
        deps: Seq::empty(),
        passed: None,
    }
}

/// Why a module cannot be had when its types cannot be stripped.
pub open spec fn strip_reason(path: PathView, message: Seq<char>) -> Seq<char> {
    path.display + ": "@ + message
}

/// Goes on when the contents of a file are known.
pub open spec fn read(
    m: ModuleMap,
    parents: Seq<SuspendedView>,
    lenient: bool,
    path: PathView,
    canonical: Seq<char>,
    answer: Option<Seq<char>>,
) -> (ModuleMap, ProgressView) {
    match answer {
        None => unreadable(m, parents, LoadErrorView::Read { lenient, display: path.display }),
        Some(text) => match module_source(path, text) {
            Ok(source) => resumed(m, parents, new_scan(lenient, path, canonical, source)),
            Err(message) => if lenient {
                unreadable(
                    m,
                    parents,
                    LoadErrorView::Strip { display: path.display, cause: message },
                )
            } else {
                settled(m.insert(canonical, Err(strip_reason(path, message))), parents, false)
            },
        },
    }
}

/// Goes on when it is known what an import names. An import that names nothing is passed over by
/// a lenient load; otherwise the module cannot be had.
pub open spec fn resolved(
    m: ModuleMap,
    parents: Seq<SuspendedView>,
    scan: ScanView,
    answer: Option<PathView>,
) -> (ModuleMap, ProgressView) {
    match answer {
        Some(dependency) => (
            m,
            ProgressView::Canonicalize {
                parents: parents.push(SuspendedView { scan, dependency }),
                lenient: false,
                path: dependency,
            },
        ),
        None => if scan.lenient {
            resumed(m, parents, scan.passed_over(scan.unresolved_fault()))
        } else {
            settled(
                m.insert(scan.canonical, Err(scan.reason(scan.unresolved_fault()))),
                parents,
                false,
            )
        },
    }
}

impl Scan {
    fn place(&self) -> (r: String)
        requires
            self@.next < self@.lines.len(),
        ensures
            r@ == self@.place(),
    {
        assert(self.lines.len() == self@.lines.len());
        ":".to_owned().concat(decimal_text(self.next + 1).as_str())
    }

    fn specifier(&self) -> (r: &str)
        requires
            stands_at_import(self@),
        ensures
            r@ == self@.specifier(),
    {
        match &self.lines[self.next] {
            Line::Import(specifier) => specifier.as_str(),
            _ => "",
        }
    }

    fn reason(&self, fault: &String) -> (r: String)
        ensures
            r@ == self@.reason(fault@),
    {
        self.path.display.clone().concat(fault.as_str())
    }

    fn unresolved_fault(&self) -> (r: String)
        requires
            stands_at_import(self@),
        ensures
            r@ == self@.unresolved_fault(),
    {
        let mut r = self.place();
        r.append(": cannot resolve '");
        r.append(self.specifier());
        r.append("'");
        r
    }

    fn dependency_fault(&self, resolver: &ModuleResolver, dependency: &ScriptPath) -> (r: String)
        requires
            stands_at_import(self@),
        ensures
            r@ == self@.dependency_fault(resolver@, dependency@),
    {
        let mut r = self.place();
        r.append(": ");
        match resolver.entry(dependency.path.as_str()) {
            Some(Err(reason)) => r.append(reason.as_str()),
            _ => r.append(dependency.display.as_str()),
        }
        r
    }

    fn circular_fault(&self, dependency: &ScriptPath, passed: &Option<String>) -> (r: String)
        requires
            stands_at_import(self@),
        ensures
            r@ == self@.circular_fault(dependency@, crate::error::optional_text(*passed)),
    {
        let mut r = self.place();
        match passed {
            Some(fault) => {
                r.append(": ");
                r.append(dependency.display.as_str());
                r.append(fault.as_str());
            },
            None => {
                r.append(": circular import of '");
                r.append(self.specifier());
                r.append("'");
            },
        }
        r
    }

    fn pass_over(&mut self, fault: String)
        requires
            stands_at_import(old(self)@),
        ensures
            final(self)@ == old(self)@.passed_over(fault@),
    {
        assert(self.lines.len() == self@.lines.len());
        self.next = self.next + 1;
        if self.passed.is_none() {
            self.passed = Some(fault);
        }
    }
}

fn resume(resolver: &mut ModuleResolver, parents: Vec<Suspended>, scan: Scan) -> (r: Progress)
    requires
        old(resolver).well_formed(),
        all_stand_at_import(suspended_views(parents@)),
        scan@.next <= scan@.lines.len(),
    ensures
        final(resolver).well_formed(),
        r@.well_formed(),
        (final(resolver)@, r@) == resumed(old(resolver)@, suspended_views(parents@), scan@),
    decreases parents@.len(), 1nat,
{
    let mut scan = scan;
    let ghost start = scan@;
    let stop: usize = find_import(&scan.lines, scan.next);
    if stop < scan.lines.len() {
        scan.next = stop;
        assert(scan@ == start.at_import());
        Progress::Resolve(Resolving { parents, scan })
    } else {
        let script = write_script(&scan.lines);
        let module = LoadedModule { script, deps: scan.deps };
        assert(module@ == start.module());
        resolver.record(scan.canonical, Ok(module));
        settle(resolver, parents, true)
    }
}

fn settle(resolver: &mut ModuleResolver, parents: Vec<Suspended>, loaded: bool) -> (r: Progress)
    requires
        old(resolver).well_formed(),
        all_stand_at_import(suspended_views(parents@)),
    ensures
        final(resolver).well_formed(),
        r@.well_formed(),
        (final(resolver)@, r@) == settled(old(resolver)@, suspended_views(parents@), loaded),
    decreases parents@.len(), 0nat,
{
    let mut parents = parents;
    let ghost views = suspended_views(parents@);
    match parents.pop() {
        None => Progress::Finished(loaded),
        Some(parent) => {
            assert(views.last() == parent@);
            assert(suspended_views(parents@) == views.drop_last());
            assert(stands_at_import(views[views.len() - 1].scan));
            let mut scan = parent.scan;
            let ghost start = scan@;
            let dependency = parent.dependency;
            assert(scan.lines.len() == start.lines.len());
            if loaded {
                let ghost before = scan.deps@;
                scan.deps.push(dependency.path);
                scan.next = scan.next + 1;
                assert(crate::text::texts(scan.deps@) == crate::text::texts(before).push(
                    dependency.path@,
                ));
                assert(scan@ == start.depending_on(dependency@.path));
                resume(resolver, parents, scan)
            } else {
                let fault = scan.dependency_fault(resolver, &dependency);
                if scan.lenient {
                    scan.pass_over(fault);
                    resume(resolver, parents, scan)
                } else {
                    let reason = scan.reason(&fault);
                    resolver.record(scan.canonical, Err(reason));
                    settle(resolver, parents, false)
                }
            }
        },
    }
}

fn circle(resolver: &mut ModuleResolver, parents: Vec<Suspended>, passed: Option<String>) -> (r:
    Progress)
    requires
        old(resolver).well_formed(),
        all_stand_at_import(suspended_views(parents@)),
        parents@.len() > 0,
    ensures
        final(resolver).well_formed(),
        r@.well_formed(),
        (final(resolver)@, r@) == circled(
            old(resolver)@,
            suspended_views(parents@),
            crate::error::optional_text(passed),
        ),
{
    let mut parents = parents;
    let ghost views = suspended_views(parents@);
    match parents.pop() {
        None => Progress::Finished(false),
        Some(parent) => {
            assert(views.last() == parent@);
            assert(suspended_views(parents@) == views.drop_last());
            assert(stands_at_import(views[views.len() - 1].scan));
            let mut scan = parent.scan;
            let fault = scan.circular_fault(&parent.dependency, &passed);
            if scan.lenient {
                scan.pass_over(fault);
                resume(resolver, parents, scan)
            } else {
                let reason = scan.reason(&fault);
                resolver.record(scan.canonical, Err(reason));
                settle(resolver, parents, false)
            }
        },
    }
}

fn give_up(resolver: &mut ModuleResolver, parents: Vec<Suspended>, error: LoadError) -> (r:
    Progress)
    requires
        old(resolver).well_formed(),
        all_stand_at_import(suspended_views(parents@)),
    ensures
        final(resolver).well_formed(),
        r@.well_formed(),
        (final(resolver)@, r@) == unreadable(old(resolver)@, suspended_views(parents@), error@),
{
    if parents.len() == 0 {
        Progress::Failed(error)
    } else {
        settle(resolver, parents, false)
    }
}

fn find_waiting(parents: &Vec<Suspended>, canonical: &String) -> (r: Option<Option<String>>)
    ensures
        match r {
            Some(passed) => {
                &&& waiting_on(suspended_views(parents@)).contains_key(canonical@)
                &&& waiting_on(suspended_views(parents@))[canonical@]
                    == crate::error::optional_text(passed)
            },
            None => !waiting_on(suspended_views(parents@)).contains_key(canonical@),
        },
{
    let ghost views = suspended_views(parents@);
    let mut r: Option<Option<String>> = None;
    for i in 0..parents.len()
        invariant
            views == suspended_views(parents@),
            match r {
                Some(passed) => {
                    &&& waiting_on(views.take(i as int)).contains_key(canonical@)
                    &&& waiting_on(views.take(i as int))[canonical@]
                        == crate::error::optional_text(passed)
                },
                None => !waiting_on(views.take(i as int)).contains_key(canonical@),
            },
    {
        let parent = &parents[i];
        assert(views.take(i + 1).drop_last() == views.take(i as int));
        assert(views.take(i + 1).last() == parent@);
        if parent.scan.canonical == *canonical {
            r = Some(
                match &parent.scan.passed {
                    Some(fault) => Some(fault.clone()),
                    None => None,
                },
            );
        }
    }
    assert(views.take(views.len() as int) == views);
    r
}

impl Locating {
    /// The path whose canonical form is wanted.
    pub fn path(&self) -> (r: &str)
        ensures
            self@ matches ProgressView::Canonicalize { path, .. } && r@ == path.path,
    {
        self.path.path.as_str()
    }

    /// Goes on with the canonical form of the path, or `None` if it has none.
    pub fn answer(self, resolver: &mut ModuleResolver, canonical: Option<String>) -> (r: Progress)
        requires
            old(resolver).well_formed(),
            self@.well_formed(),
        ensures
            final(resolver).well_formed(),
            r@.well_formed(),
            self@ matches ProgressView::Canonicalize { parents, lenient, path } && (
            final(resolver)@,
            r@,
            ) == located(
                old(resolver)@,
                parents,
                lenient,
                path,
                match canonical {
                    Some(text) => Some(text@),
                    None => None,
                },
            ),
    {
        let canonical = match canonical {
            Some(canonical) => canonical,
            None => {
                return give_up(resolver, self.parents, LoadError::Canonicalize);
            },
        };
        let known: Option<bool> = match resolver.entry(canonical.as_str()) {
            Some(Ok(_)) => Some(true),
            Some(Err(_)) => Some(false),
            None => None,
        };
        if let Some(true) = known {
            return settle(resolver, self.parents, true);
        }
        if known.is_some() && !self.lenient {
            return settle(resolver, self.parents, false);
        }
        if let Some(passed) = find_waiting(&self.parents, &canonical) {
            return circle(resolver, self.parents, passed);
        }
        Progress::Read(
            Reading { parents: self.parents, lenient: self.lenient, path: self.path, canonical },
        )
    }
}

impl Reading {
    /// The path of the file whose contents are wanted.
    pub fn path(&self) -> (r: &str)
        ensures
            self@ matches ProgressView::Read { path, .. } && r@ == path.path,
    {
        self.path.path.as_str()
    }

    /// Goes on with the contents of the file, or `None` if it could not be read.
    pub fn answer(self, resolver: &mut ModuleResolver, text: Option<String>) -> (r: Progress)
        requires
            old(resolver).well_formed(),
            self@.well_formed(),
        ensures
            final(resolver).well_formed(),
            r@.well_formed(),
            self@ matches ProgressView::Read { parents, lenient, path, canonical } && (
            final(resolver)@,
            r@,
            ) == read(
                old(resolver)@,
                parents,
                lenient,
                path,
                canonical,
                match text {
                    Some(text) => Some(text@),
                    None => None,
                },
            ),
    {
        let text = match text {
            Some(text) => text,
            None => {
                return give_up(
                    resolver,
                    self.parents,
                    LoadError::Read { lenient: self.lenient, display: self.path.display },
                );
            },
        };
        let typescript: bool = match &self.path.extension {
            Some(extension) => *extension == "ts".to_owned(),
            None => false,
        };
        let source = if typescript {
            match strip_typescript(text.as_str(), self.path.file_name.as_str()) {
                Ok(source) => source,
                Err(message) => {
                    if self.lenient {
                        return give_up(
                            resolver,
                            self.parents,
                            LoadError::Strip { display: self.path.display, cause: message },
                        );
                    }
                    let mut reason = self.path.display;
                    reason.append(": ");
                    reason.append(message.as_str());
                    resolver.record(self.canonical, Err(reason));
                    return settle(resolver, self.parents, false);
                },
            }
        } else {
            text
        };
        let scan = Scan {
            lenient: self.lenient,
            path: self.path,
            canonical: self.canonical,
            lines: read_lines(source.as_str()),
            next: 0,
            deps: Vec::new(),
            passed: None,
        };
        assert(crate::text::texts(scan.deps@) == Seq::<Seq<char>>::empty());
        resume(resolver, self.parents, scan)
    }
}

impl Resolving {
    /// The path of the module that holds the import.
    pub fn path(&self) -> (r: &str)
        ensures
            self@ matches ProgressView::Resolve { scan, .. } && r@ == scan.path.path,
    {
        self.scan.path.path.as_str()
    }

    /// The specifier of the import.
    pub fn specifier(&self) -> (r: &str)
        requires
            self@.well_formed(),
        ensures
            self@ matches ProgressView::Resolve { scan, .. } && r@ == scan.specifier(),
    {
        self.scan.specifier()
    }

    /// Goes on with the canonical path of the module that the import names, or `None` if it names
    /// none.
    pub fn answer(self, resolver: &mut ModuleResolver, dependency: Option<ScriptPath>) -> (r:
        Progress)
        requires
            old(resolver).well_formed(),
            self@.well_formed(),
        ensures
            final(resolver).well_formed(),
            r@.well_formed(),
            self@ matches ProgressView::Resolve { parents, scan } && (final(resolver)@, r@)
                == resolved(
                old(resolver)@,
                parents,
                scan,
                match dependency {
                    Some(path) => Some(path@),
                    None => None,
                },
            ),
    {
        let mut parents = self.parents;
        let mut scan = self.scan;
        let ghost views = suspended_views(parents@);
        match dependency {
            Some(dependency) => {
                let path = dependency.clone_path();
                let parent = Suspended { scan, dependency };
                parents.push(parent);
                assert(suspended_views(parents@) == views.push(parent@));
                Progress::Canonicalize(Locating { parents, lenient: false, path })
            },
            None => {
                let fault = scan.unresolved_fault();
                if scan.lenient {
                    scan.pass_over(fault);
                    resume(resolver, parents, scan)
                } else {
                    let reason = scan.reason(&fault);
                    resolver.record(scan.canonical, Err(reason));
                    settle(resolver, parents, false)
                }
            },
        }
    }
}

impl ScriptPath {
    fn clone_path(&self) -> (r: ScriptPath)
        ensures
            r@ == self@,
    {
        ScriptPath {
            path: self.path.clone(),
            display: self.display.clone(),
            file_name: self.file_name.clone(),
            extension: match &self.extension {
                Some(extension) => Some(extension.clone()),
                None => None,
            },
        }
    }
}

impl ModuleResolver {
    /// Begins to load a module and what it depends on, directly or by way of others.
    ///
    /// The load finishes with `true` if the module is ready for the script engine, and with
    /// `false` if the module or one of its dependencies cannot be had: an import names nothing,
    /// or a file that cannot be read, or a module that waits for the import itself, or the types
    /// cannot be stripped. It fails if the module's own file cannot be located or read.
    pub fn load(&self, script: ScriptPath) -> (r: Progress)
        ensures
            r@.well_formed(),
            r@ == (ProgressView::Canonicalize {
                parents: Seq::empty(),
                lenient: false,
                path: script@,
            }),
    {
        let parents: Vec<Suspended> = Vec::new();
        assert(suspended_views(parents@) == Seq::<SuspendedView>::empty());
        Progress::Canonicalize(Locating { parents, lenient: false, path: script })
    }

    /// Begins to load a module as [`ModuleResolver::load`] does, but passes over an import that
    /// cannot be had. For files whose imports are supplied when they are evaluated.
    ///
    /// The load finishes with `true` unless the file cannot be located or read, or its types
    /// cannot be stripped.
    pub fn load_lenient(&self, script: ScriptPath) -> (r: Progress)
        ensures
            r@.well_formed(),
            r@ == (ProgressView::Canonicalize {
                parents: Seq::empty(),
                lenient: true,
                path: script@,
            }),
    {
        let parents: Vec<Suspended> = Vec::new();
        assert(suspended_views(parents@) == Seq::<SuspendedView>::empty());
        Progress::Canonicalize(Locating { parents, lenient: true, path: script })
    }
}

/// What is said of each failure, on its own fields.
pub proof fn law_load_messages(error: LoadError)
    ensures
        error@.message() == (match error {
            LoadError::Canonicalize => "Failed to canonicalize script path"@,
            LoadError::Read { lenient: true, display } => "Failed to read: "@ + display@,
            LoadError::Read { lenient: false, display } => "Failed to read JS: "@ + display@,
            LoadError::Strip { display, .. } => "Failed to strip TypeScript: "@ + display@,
        }),
        error matches LoadError::Strip { cause, .. } ==> (error@ matches LoadErrorView::Strip {
            cause: seen,
            ..
        } && seen == cause@),
{
}

/// The source text of a module whose file has the extension `ts` is the code that its types are
/// stripped to; that of any other is the text of its file, as it is.
pub proof fn law_module_source(path: PathView, text: Seq<char>)
    ensures
        path.extension != Some("ts"@) ==> module_source(path, text) == Ok::<Seq<char>, Seq<char>>(
            text,
        ),
        path.extension == Some("ts"@) ==> module_source(path, text) == crate::typescript::stripped(
            text,
            path.file_name,
        ),
{
}

/// What the contracts see of a path is what it holds.
pub proof fn law_path_view(path: ScriptPath)
    ensures
        path@.path == path.path@,
        path@.display == path.display@,
        path@.file_name == path.file_name@,
        match path.extension {
            Some(extension) => path@.extension == Some(extension@),
            None => path@.extension is None,
        },
{
}

/// What reasons say: the path as messages show it, the number of the line, and what is wrong with
/// the import on it.
pub proof fn law_reasons(
    scan: ScanView,
    m: ModuleMap,
    dependency: PathView,
    passed: Seq<char>,
    specifier: Seq<char>,
)
    requires
        scan.next < scan.lines.len(),
        scan.lines[scan.next as int] == LineView::Import(specifier),
    ensures
        ({
            let place = scan.path.display + ":"@ + crate::text::decimal((scan.next + 1) as nat);
            &&& scan.reason(scan.unresolved_fault()) == place + ": cannot resolve '"@ + specifier
                + "'"@
            &&& scan.reason(scan.circular_fault(dependency, None)) == place
                + ": circular import of '"@ + specifier + "'"@
            &&& scan.reason(scan.circular_fault(dependency, Some(passed))) == place + ": "@
                + dependency.display + passed
            &&& m.contains_key(dependency.path) && m[dependency.path] is Err ==> scan.reason(
                scan.dependency_fault(m, dependency),
            ) == place + ": "@ + m[dependency.path]->Err_0
            &&& !m.contains_key(dependency.path) || m[dependency.path] is Ok ==> scan.reason(
                scan.dependency_fault(m, dependency),
            ) == place + ": "@ + dependency.display
        }),
{
    let place = scan.path.display + ":"@ + crate::text::decimal((scan.next + 1) as nat);
    assert(scan.path.display + scan.place() == place);
    assert(scan.reason(scan.unresolved_fault()) == place + ": cannot resolve '"@ + specifier
        + "'"@);
    assert(scan.reason(scan.circular_fault(dependency, None)) == place
        + ": circular import of '"@ + specifier + "'"@);
    assert(scan.reason(scan.circular_fault(dependency, Some(passed))) == place + ": "@
        + dependency.display + passed);
    if m.contains_key(dependency.path) && m[dependency.path] is Err {
        assert(scan.reason(scan.dependency_fault(m, dependency)) == place + ": "@
            + m[dependency.path]->Err_0);
    } else {
        assert(scan.reason(scan.dependency_fault(m, dependency)) == place + ": "@
            + dependency.display);
    }
}

/// A module waits if and only if it is one of those that wait.
pub proof fn law_waiting(parents: Seq<SuspendedView>, canonical: Seq<char>)
    ensures
        waiting_on(parents).contains_key(canonical) <==> exists|i: int|
            0 <= i < parents.len() && (#[trigger] parents[i]).scan.canonical == canonical,
    decreases parents.len(),
{
    if parents.len() > 0 {
        let front = parents.drop_last();
        law_waiting(front, canonical);
        if waiting_on(front).contains_key(canonical) {
            let i = choose|i: int|
                0 <= i < front.len() && (#[trigger] front[i]).scan.canonical == canonical;
            assert(parents[i].scan.canonical == canonical);
        }
        if parents.last().scan.canonical == canonical {
            assert(parents[parents.len() - 1].scan.canonical == canonical);
        }
        if exists|i: int|
            0 <= i < parents.len() && (#[trigger] parents[i]).scan.canonical == canonical {
            let i = choose|i: int|
                0 <= i < parents.len() && (#[trigger] parents[i]).scan.canonical == canonical;
            if i < front.len() {
                assert(front[i].scan.canonical == canonical);
            }
        }
    }
}

} // verus!
