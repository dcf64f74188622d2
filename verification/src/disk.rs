//! What holds of a load from files that do not change meanwhile.
//!
//! The contracts of the dialogue say what one answer leads to. Here a whole load is described at
//! one go, by recursion over the imports, and the dialogue is shown to come to the same end.

use vstd::prelude::*;

use crate::loading::{LoadErrorView, PathView, ProgressView, ScanView, SuspendedView};
use crate::resolver::ModuleMap;

verus! {

broadcast use vstd::seq_lib::group_seq_properties;

/// Files that answer every question in the same way each time.
pub struct Disk {
    /// The canonical paths of the files.
    pub files: Set<Seq<char>>,
    /// The canonical form of a path.
    pub canonical: spec_fn(Seq<char>) -> Option<Seq<char>>,
    /// The contents of the file at a path.
    pub text: spec_fn(Seq<char>) -> Option<Seq<char>>,
    /// What a specifier names in the module at a path.
    pub target: spec_fn(Seq<char>, Seq<char>) -> Option<PathView>,
}

impl Disk {
    /// Whether there are only so many files.
    pub open spec fn is_finite(self) -> bool {
        &&& self.files.finite()
        &&& forall|path: Seq<char>|
            (#[trigger] (self.canonical)(path)) matches Some(canonical) ==> self.files.contains(
                canonical,
            )
    }

    /// Whether imports resolve to paths that are canonical already.
    pub open spec fn resolves_to_canonical(self) -> bool {
        forall|from: Seq<char>, specifier: Seq<char>|
            (#[trigger] (self.target)(from, specifier)) matches Some(path) ==> match (
            self.canonical)(path.path) {
                Some(canonical) => canonical == path.path,
                None => true,
            }
    }
}

/// How a load ends: whether the module is ready, or what failed.
pub type Outcome = Result<bool, LoadErrorView>;

/// What a load comes to.
pub struct LoadEnd {
    /// What is known of the modules then.
    pub known: ModuleMap,
    /// How the load ends.
    pub outcome: Outcome,
}

/// The modules that wait for their dependencies, each with the fault of the first import that it
/// passed over.
pub type Waiting = Map<Seq<char>, Option<Seq<char>>>;

/// How many files no waiting module is.
pub open spec fn unwaited(disk: Disk, waiting: Set<Seq<char>>) -> nat {
    disk.files.difference(waiting).len()
}

/// One file less is left when one more waits.
pub proof fn lemma_unwaited(disk: Disk, waiting: Set<Seq<char>>, canonical: Seq<char>)
    requires
        disk.is_finite(),
        disk.files.contains(canonical),
        !waiting.contains(canonical),
    ensures
        unwaited(disk, waiting.insert(canonical)) < unwaited(disk, waiting),
{
    assert(disk.files.difference(waiting.insert(canonical)) == disk.files.difference(
        waiting,
    ).remove(canonical));
}

/// What loading a module comes to, while the modules of `waiting` wait for their dependencies. A
/// module that waits is not loaded again.
pub open spec fn load_module(
    disk: Disk,
    m: ModuleMap,
    waiting: Waiting,
    path: PathView,
    lenient: bool,
) -> LoadEnd
    decreases unwaited(disk, waiting.dom()), 0int,
    when disk.is_finite()
{
    match (disk.canonical)(path.path) {
        None => LoadEnd { known: m, outcome: Err(LoadErrorView::Canonicalize) },
        Some(canonical) => if crate::resolver::is_ready(m, canonical) {
            LoadEnd { known: m, outcome: Ok(true) }
        } else if m.contains_key(canonical) && !lenient || waiting.contains_key(canonical) {
            LoadEnd { known: m, outcome: Ok(false) }
        } else {
            match (disk.text)(path.path) {
                None => LoadEnd {
                    known: m,
                    outcome: Err(LoadErrorView::Read { lenient, display: path.display }),
                },
                Some(text) => match crate::loading::module_source(path, text) {
                    Err(message) => if lenient {
                        LoadEnd {
                            known: m,
                            outcome: Err(
                                LoadErrorView::Strip { display: path.display, cause: message },
                            ),
                        }
                    } else {
                        LoadEnd {
                            known: m.insert(
                                canonical,
                                Err(crate::loading::strip_reason(path, message)),
                            ),
                            outcome: Ok(false),
                        }
                    },
                    Ok(source) => {
                        proof {
                            lemma_unwaited(disk, waiting.dom(), canonical);
                        }
                        scan_module(
                            disk,
                            m,
                            waiting,
                            crate::loading::new_scan(lenient, path, canonical, source),
                        )
                    },
                },
            }
        },
    }
}

/// Whether a path leads to a module that waits, and that nothing is known of yet.
pub open spec fn is_circular(
    disk: Disk,
    m: ModuleMap,
    waiting: Waiting,
    path: PathView,
) -> bool {
    &&& (disk.canonical)(path.path) matches Some(canonical)
    &&& !m.contains_key(canonical)
    &&& waiting.contains_key(canonical)
}

/// The fault of an import of a module that is not ready. `after` is what is known after its load.
pub open spec fn fault_of(
    disk: Disk,
    m: ModuleMap,
    waiting: Waiting,
    stop: ScanView,
    dependency: PathView,
    after: ModuleMap,
) -> Seq<char> {
    if is_circular(disk, m, waiting, dependency) {
        stop.circular_fault(dependency, waiting[(disk.canonical)(dependency.path)->0])
    } else {
        stop.dependency_fault(after, dependency)
    }
}

/// What going through the rest of a module comes to. The module waits for its dependencies, along
/// with the modules of `waiting`.
pub open spec fn scan_module(
    disk: Disk,
    m: ModuleMap,
    waiting: Waiting,
    scan: ScanView,
) -> LoadEnd
    decreases
            unwaited(disk, waiting.dom().insert(scan.canonical)),
            1 + scan.lines.len() - scan.next,
    when disk.is_finite()
{
    proof {
        crate::rewrite::lemma_next_import(scan.lines, scan.next);
    }
    let stop = scan.at_import();
    let inside = waiting.insert(scan.canonical, scan.passed);
    if stop.next >= scan.lines.len() {
        LoadEnd { known: m.insert(scan.canonical, Ok(scan.module())), outcome: Ok(true) }
    } else {
        match (disk.target)(scan.path.path, stop.specifier()) {
            None => if scan.lenient {
                scan_module(disk, m, waiting, stop.passed_over(stop.unresolved_fault()))
            } else {
                LoadEnd {
                    known: m.insert(scan.canonical, Err(stop.reason(stop.unresolved_fault()))),
                    outcome: Ok(false),
                }
            },
            Some(dependency) => {
                let inner = load_module(disk, m, inside, dependency, false);
                let fault = fault_of(disk, m, inside, stop, dependency, inner.known);
                if inner.outcome == Ok::<bool, LoadErrorView>(true) {
                    scan_module(disk, inner.known, waiting, stop.depending_on(dependency.path))
                } else if scan.lenient {
                    scan_module(disk, inner.known, waiting, stop.passed_over(fault))
                } else {
                    LoadEnd {
                        known: inner.known.insert(scan.canonical, Err(stop.reason(fault))),
                        outcome: Ok(false),
                    }
                }
            },
        }
    }
}

/// What a load comes to that nothing waits for.
pub open spec fn loaded(disk: Disk, m: ModuleMap, path: PathView, lenient: bool) -> LoadEnd {
    load_module(disk, m, Map::empty(), path, lenient)
}

/// One step of the dialogue, answered from the files.
pub open spec fn answered(disk: Disk, m: ModuleMap, progress: ProgressView) -> (
    ModuleMap,
    ProgressView,
) {
    match progress {
        ProgressView::Canonicalize { parents, lenient, path } => crate::loading::located(
            m,
            parents,
            lenient,
            path,
            (disk.canonical)(path.path),
        ),
        ProgressView::Read { parents, lenient, path, canonical } => crate::loading::read(
            m,
            parents,
            lenient,
            path,
            canonical,
            (disk.text)(path.path),
        ),
        ProgressView::Resolve { parents, scan } => crate::loading::resolved(
            m,
            parents,
            scan,
            (disk.target)(scan.path.path, scan.specifier()),
        ),
        _ => (m, progress),
    }
}

/// A number of steps of the dialogue, answered from the files.
pub open spec fn ran(disk: Disk, m: ModuleMap, progress: ProgressView, steps: nat) -> (
    ModuleMap,
    ProgressView,
)
    decreases steps,
{
    if steps == 0 {
        (m, progress)
    } else {
        let (known, next) = answered(disk, m, progress);
        ran(disk, known, next, (steps - 1) as nat)
    }
}

/// Where the dialogue stands when a load has come to its end.
pub open spec fn concluded(parents: Seq<SuspendedView>, end: LoadEnd) -> (
    ModuleMap,
    ProgressView,
) {
    match end.outcome {
        Ok(ready) => crate::loading::settled(end.known, parents, ready),
        Err(error) => crate::loading::unreadable(end.known, parents, error),
    }
}

/// Where the dialogue stands when the load that it began with has come to its end.
pub open spec fn ended(end: LoadEnd) -> (ModuleMap, ProgressView) {
    (
        end.known,
        match end.outcome {
            Ok(ready) => ProgressView::Finished(ready),
            Err(error) => ProgressView::Failed(error),
        },
    )
}

proof fn lemma_ran_adds(disk: Disk, m: ModuleMap, progress: ProgressView, a: nat, b: nat)
    ensures
        ran(disk, m, progress, a + b) == ran(
            disk,
            ran(disk, m, progress, a).0,
            ran(disk, m, progress, a).1,
            b,
        ),
    decreases a,
{
    if a > 0 {
        let (known, next) = answered(disk, m, progress);
        lemma_ran_adds(disk, known, next, (a - 1) as nat, b);
    }
}

proof fn lemma_ran_one(disk: Disk, m: ModuleMap, progress: ProgressView, b: nat)
    ensures
        ran(disk, m, progress, 1 + b) == ran(
            disk,
            answered(disk, m, progress).0,
            answered(disk, m, progress).1,
            b,
        ),
{
}

proof fn lemma_load_runs(
    disk: Disk,
    m: ModuleMap,
    parents: Seq<SuspendedView>,
    path: PathView,
    lenient: bool,
) -> (steps: nat)
    requires
        disk.is_finite(),
        !is_circular(disk, m, crate::loading::waiting_on(parents), path),
        lenient ==> parents.len() == 0,
    ensures
        ran(disk, m, ProgressView::Canonicalize { parents, lenient, path }, steps) == concluded(
            parents,
            load_module(disk, m, crate::loading::waiting_on(parents), path, lenient),
        ),
    decreases unwaited(disk, crate::loading::waiting_on(parents).dom()), 0int,
{
    let start = ProgressView::Canonicalize { parents, lenient, path };
    let waiting = crate::loading::waiting_on(parents);
    lemma_ran_one(disk, m, start, 0);
    match (disk.canonical)(path.path) {
        None => 1,
        Some(canonical) => {
            if crate::resolver::is_ready(m, canonical) || m.contains_key(canonical) && !lenient {
                1
            } else {
                let reading = ProgressView::Read { parents, lenient, path, canonical };
                lemma_ran_one(disk, m, start, 1);
                lemma_ran_one(disk, m, reading, 0);
                match (disk.text)(path.path) {
                    None => 2,
                    Some(text) => match crate::loading::module_source(path, text) {
                        Err(message) => 2,
                        Ok(source) => {
                            let scan = crate::loading::new_scan(lenient, path, canonical, source);
                            lemma_unwaited(disk, waiting.dom(), canonical);
                            let steps = lemma_scan_runs(disk, m, parents, scan);
                            lemma_ran_one(disk, m, reading, steps);
                            lemma_ran_one(disk, m, start, 1 + steps);
                            1 + (1 + steps)
                        },
                    },
                }
            }
        },
    }
}

proof fn lemma_scan_runs(
    disk: Disk,
    m: ModuleMap,
    parents: Seq<SuspendedView>,
    scan: ScanView,
) -> (steps: nat)
    requires
        disk.is_finite(),
    ensures
        ran(
            disk,
            crate::loading::resumed(m, parents, scan).0,
            crate::loading::resumed(m, parents, scan).1,
            steps,
        ) == concluded(parents, scan_module(disk, m, crate::loading::waiting_on(parents), scan)),
    decreases
            unwaited(disk, crate::loading::waiting_on(parents).dom().insert(scan.canonical)),
            1 + scan.lines.len() - scan.next,
{
    crate::rewrite::lemma_next_import(scan.lines, scan.next);
    let stop = scan.at_import();
    let inside = crate::loading::waiting_on(parents).insert(scan.canonical, scan.passed);
    if stop.next >= scan.lines.len() {
        0
    } else {
        let resolving = ProgressView::Resolve { parents, scan: stop };
        lemma_ran_one(disk, m, resolving, 0);
        match (disk.target)(scan.path.path, stop.specifier()) {
            None => {
                if scan.lenient {
                    let next = stop.passed_over(stop.unresolved_fault());
                    let steps = lemma_scan_runs(disk, m, parents, next);
                    lemma_ran_one(disk, m, resolving, steps);
                    1 + steps
                } else {
                    1
                }
            },
            Some(dependency) => {
                let parent = SuspendedView { scan: stop, dependency };
                let waiting = parents.push(parent);
                assert(waiting.drop_last() == parents);
                assert(crate::loading::waiting_on(waiting) == inside);
                let inner = load_module(disk, m, inside, dependency, false);
                let fault = fault_of(disk, m, inside, stop, dependency, inner.known);
                let first: nat = if is_circular(disk, m, inside, dependency) {
                    let locating = ProgressView::Canonicalize {
                        parents: waiting,
                        lenient: false,
                        path: dependency,
                    };
                    lemma_ran_one(disk, m, locating, 0);
                    1
                } else {
                    lemma_load_runs(disk, m, waiting, dependency, false)
                };
                lemma_ran_one(disk, m, resolving, first);
                let ready = inner.outcome == Ok::<bool, LoadErrorView>(true);
                if !ready && !scan.lenient {
                    1 + first
                } else {
                    let next = if ready {
                        stop.depending_on(dependency.path)
                    } else {
                        stop.passed_over(fault)
                    };
                    let rest = lemma_scan_runs(disk, inner.known, parents, next);
                    lemma_ran_adds(disk, m, resolving, 1 + first, rest);
                    1 + first + rest
                }
            },
        }
    }
}

/// A load from files of which there are only so many comes to an end, whatever they import, and
/// ends as the recursion over the imports says.
pub proof fn law_load_ends(disk: Disk, m: ModuleMap, path: PathView, lenient: bool)
    requires
        disk.is_finite(),
    ensures
        exists|steps: nat| #[trigger]
            ran(
                disk,
                m,
                ProgressView::Canonicalize { parents: Seq::empty(), lenient, path },
                steps,
            ) == ended(loaded(disk, m, path, lenient)),
{
    let steps = lemma_load_runs(disk, m, Seq::empty(), path, lenient);
}

/// Whether the same is known of a module in both.
pub open spec fn same_at(m: ModuleMap, other: ModuleMap, path: Seq<char>) -> bool {
    &&& m.contains_key(path) == other.contains_key(path)
    &&& m.contains_key(path) ==> m[path] == other[path]
}

/// A number that no dependency's rank exceeds.
spec fn top_rank(rank: spec_fn(Seq<char>) -> nat, deps: Seq<Seq<char>>) -> nat
    decreases deps.len(),
{
    if deps.len() == 0 {
        0
    } else if rank(deps.last()) > top_rank(rank, deps.drop_last()) {
        rank(deps.last())
    } else {
        top_rank(rank, deps.drop_last())
    }
}

proof fn lemma_top_rank(rank: spec_fn(Seq<char>) -> nat, deps: Seq<Seq<char>>, i: int)
    requires
        0 <= i < deps.len(),
    ensures
        rank(deps[i]) <= top_rank(rank, deps),
    decreases deps.len(),
{
    if i < deps.len() - 1 {
        lemma_top_rank(rank, deps.drop_last(), i);
    }
}

proof fn lemma_insert_ready(
    m: ModuleMap,
    path: Seq<char>,
    module: crate::resolver::ModuleView,
)
    requires
        crate::resolver::is_sound(m),
        !crate::resolver::is_ready(m, path),
        forall|i: int|
            0 <= i < module.deps.len() ==> crate::resolver::is_ready(m, #[trigger] module.deps[i]),
    ensures
        crate::resolver::is_sound(m.insert(path, Ok(module))),
{
    let rank = choose|rank: spec_fn(Seq<char>) -> nat| crate::resolver::is_ranked(m, rank);
    let after = m.insert(path, Ok(module));
    let longer = |p: Seq<char>|
        if p == path {
            1 + top_rank(rank, module.deps)
        } else {
            rank(p)
        };
    assert forall|p: Seq<char>, i: int|
        #![trigger crate::resolver::deps_of(after, p)[i]]
        0 <= i < crate::resolver::deps_of(after, p).len() implies crate::resolver::is_ready(
        after,
        crate::resolver::deps_of(after, p)[i],
    ) && longer(crate::resolver::deps_of(after, p)[i]) < longer(p) by {
        if p == path {
            lemma_top_rank(rank, module.deps, i);
        } else {
            assert(crate::resolver::deps_of(m, p)[i] == crate::resolver::deps_of(after, p)[i]);
        }
    }
    assert(crate::resolver::is_ranked(after, longer));
}

proof fn lemma_insert_unavailable(m: ModuleMap, path: Seq<char>, reason: Seq<char>)
    requires
        crate::resolver::is_sound(m),
        !crate::resolver::is_ready(m, path),
    ensures
        crate::resolver::is_sound(m.insert(path, Err(reason))),
{
    let rank = choose|rank: spec_fn(Seq<char>) -> nat| crate::resolver::is_ranked(m, rank);
    let after = m.insert(path, Err(reason));
    assert forall|p: Seq<char>, i: int|
        #![trigger crate::resolver::deps_of(after, p)[i]]
        0 <= i < crate::resolver::deps_of(after, p).len() implies crate::resolver::is_ready(
        after,
        crate::resolver::deps_of(after, p)[i],
    ) && rank(crate::resolver::deps_of(after, p)[i]) < rank(p) by {
        assert(crate::resolver::deps_of(m, p)[i] == crate::resolver::deps_of(after, p)[i]);
    }
    assert(crate::resolver::is_ranked(after, rank));
}

/// What every load keeps: what is known of a module stays as it is, unless a lenient load is for
/// that module, and nothing becomes known of a module that waits. The outcome is what is known of
/// the module at the end.
proof fn lemma_load_keeps(
    disk: Disk,
    m: ModuleMap,
    waiting: Waiting,
    path: PathView,
    lenient: bool,
)
    requires
        disk.is_finite(),
    ensures
        ({
            let end = load_module(disk, m, waiting, path, lenient);
            let canonical = (disk.canonical)(path.path);
            &&& forall|k: Seq<char>|
                (m.contains_key(k) || waiting.contains_key(k)) && !(lenient && canonical == Some(k))
                    ==> #[trigger] same_at(m, end.known, k)
            &&& forall|k: Seq<char>|
                crate::resolver::is_ready(m, k) ==> #[trigger] same_at(m, end.known, k)
            &&& forall|k: Seq<char>| m.contains_key(k) ==> #[trigger] end.known.contains_key(k)
            &&& end.outcome is Err ==> end.known == m
            &&& canonical matches Some(c) ==> {
                &&& crate::resolver::is_ready(end.known, c) <==> end.outcome == Ok::<
                    bool,
                    LoadErrorView,
                >(true)
                &&& end.outcome is Ok && !waiting.contains_key(c) ==> end.known.contains_key(c)
                &&& end.outcome is Err && !lenient ==> !end.known.contains_key(c)
                &&& lenient && !waiting.contains_key(c) ==> end.outcome != Ok::<bool, LoadErrorView>(
                    false,
                )
            }
            &&& canonical is None ==> end.outcome is Err
            &&& m.dom().finite() ==> end.known.dom().finite()
        }),
    decreases unwaited(disk, waiting.dom()), 0int,
{
    if let Some(canonical) = (disk.canonical)(path.path) {
        if !crate::resolver::is_ready(m, canonical) && !waiting.contains_key(canonical) && !(
        m.contains_key(canonical) && !lenient) {
            if let Some(text) = (disk.text)(path.path) {
                if let Ok(source) = crate::loading::module_source(path, text) {
                    let scan = crate::loading::new_scan(lenient, path, canonical, source);
                    lemma_unwaited(disk, waiting.dom(), canonical);
                    lemma_scan_keeps(disk, m, waiting, scan);
                }
            }
        }
    }
}

proof fn lemma_scan_keeps(disk: Disk, m: ModuleMap, waiting: Waiting, scan: ScanView)
    requires
        disk.is_finite(),
    ensures
        ({
            let end = scan_module(disk, m, waiting, scan);
            &&& forall|k: Seq<char>|
                (m.contains_key(k) || waiting.contains_key(k)) && k != scan.canonical
                    ==> #[trigger] same_at(m, end.known, k)
            &&& forall|k: Seq<char>| m.contains_key(k) ==> #[trigger] end.known.contains_key(k)
            &&& end.outcome is Ok
            &&& end.known.contains_key(scan.canonical)
            &&& crate::resolver::is_ready(end.known, scan.canonical) == end.outcome->Ok_0
            &&& scan.lenient ==> end.outcome->Ok_0
            &&& m.dom().finite() ==> end.known.dom().finite()
        }),
    decreases
            unwaited(disk, waiting.dom().insert(scan.canonical)),
            1 + scan.lines.len() - scan.next,
{
    crate::rewrite::lemma_next_import(scan.lines, scan.next);
    let stop = scan.at_import();
    if stop.next < scan.lines.len() {
        match (disk.target)(scan.path.path, stop.specifier()) {
            None => {
                if scan.lenient {
                    lemma_scan_keeps(disk, m, waiting, stop.passed_over(stop.unresolved_fault()));
                }
            },
            Some(dependency) => {
                let inside = waiting.insert(scan.canonical, scan.passed);
                let inner = load_module(disk, m, inside, dependency, false);
                let fault = fault_of(disk, m, inside, stop, dependency, inner.known);
                let end = scan_module(disk, m, waiting, scan);
                lemma_load_keeps(disk, m, inside, dependency, false);
                if inner.outcome == Ok::<bool, LoadErrorView>(true) {
                    let next = stop.depending_on(dependency.path);
                    lemma_scan_keeps(disk, inner.known, waiting, next);
                } else if scan.lenient {
                    lemma_scan_keeps(disk, inner.known, waiting, stop.passed_over(fault));
                }
                assert forall|k: Seq<char>|
                    (m.contains_key(k) || waiting.contains_key(k)) && k
                        != scan.canonical implies #[trigger] same_at(m, end.known, k) by {
                    assert(same_at(m, inner.known, k));
                    assert(same_at(inner.known, end.known, k));
                }
                assert forall|k: Seq<char>|
                    m.contains_key(k) implies #[trigger] end.known.contains_key(k) by {
                    assert(inner.known.contains_key(k));
                }
            },
        }
    }
}

proof fn lemma_load_sound(
    disk: Disk,
    m: ModuleMap,
    waiting: Waiting,
    path: PathView,
    lenient: bool,
)
    requires
        disk.is_finite(),
        disk.resolves_to_canonical(),
        crate::resolver::is_sound(m),
    ensures
        crate::resolver::is_sound(load_module(disk, m, waiting, path, lenient).known),
    decreases unwaited(disk, waiting.dom()), 0int,
{
    if let Some(canonical) = (disk.canonical)(path.path) {
        if !crate::resolver::is_ready(m, canonical) && !waiting.contains_key(canonical) && !(
        m.contains_key(canonical) && !lenient) {
            if let Some(text) = (disk.text)(path.path) {
                match crate::loading::module_source(path, text) {
                    Ok(source) => {
                        let scan = crate::loading::new_scan(lenient, path, canonical, source);
                        lemma_unwaited(disk, waiting.dom(), canonical);
                        lemma_scan_sound(disk, m, waiting, scan);
                    },
                    Err(message) => {
                        lemma_insert_unavailable(
                            m,
                            canonical,
                            crate::loading::strip_reason(path, message),
                        );
                    },
                }
            }
        }
    }
}

proof fn lemma_scan_sound(disk: Disk, m: ModuleMap, waiting: Waiting, scan: ScanView)
    requires
        disk.is_finite(),
        disk.resolves_to_canonical(),
        crate::resolver::is_sound(m),
        !crate::resolver::is_ready(m, scan.canonical),
        forall|i: int|
            0 <= i < scan.deps.len() ==> crate::resolver::is_ready(m, #[trigger] scan.deps[i]),
    ensures
        crate::resolver::is_sound(scan_module(disk, m, waiting, scan).known),
    decreases
            unwaited(disk, waiting.dom().insert(scan.canonical)),
            1 + scan.lines.len() - scan.next,
{
    crate::rewrite::lemma_next_import(scan.lines, scan.next);
    let stop = scan.at_import();
    if stop.next >= scan.lines.len() {
        lemma_insert_ready(m, scan.canonical, scan.module());
    } else {
        match (disk.target)(scan.path.path, stop.specifier()) {
            None => {
                if scan.lenient {
                    let next = stop.passed_over(stop.unresolved_fault());
                    lemma_scan_sound(disk, m, waiting, next);
                } else {
                    let reason = stop.reason(stop.unresolved_fault());
                    lemma_insert_unavailable(m, scan.canonical, reason);
                }
            },
            Some(dependency) => {
                let inside = waiting.insert(scan.canonical, scan.passed);
                let inner = load_module(disk, m, inside, dependency, false);
                let fault = fault_of(disk, m, inside, stop, dependency, inner.known);
                lemma_load_keeps(disk, m, inside, dependency, false);
                lemma_load_sound(disk, m, inside, dependency, false);
                assert(same_at(m, inner.known, scan.canonical));
                assert forall|i: int|
                    0 <= i < scan.deps.len() implies crate::resolver::is_ready(
                    inner.known,
                    #[trigger] scan.deps[i],
                ) by {
                    assert(same_at(m, inner.known, scan.deps[i]));
                }
                if inner.outcome == Ok::<bool, LoadErrorView>(true) {
                    let next = stop.depending_on(dependency.path);
                    lemma_scan_sound(disk, inner.known, waiting, next);
                } else if scan.lenient {
                    lemma_scan_sound(disk, inner.known, waiting, stop.passed_over(fault));
                } else {
                    lemma_insert_unavailable(inner.known, scan.canonical, stop.reason(fault));
                }
            },
        }
    }
}

/// The paths of what the imports at or after `from` name, in their order; `None` if one of them
/// names nothing.
pub open spec fn import_targets(
    disk: Disk,
    path: Seq<char>,
    lines: Seq<crate::rewrite::LineView>,
    from: nat,
) -> Option<Seq<Seq<char>>>
    decreases lines.len() - from,
{
    if from >= lines.len() {
        Some(Seq::empty())
    } else {
        match lines[from as int] {
            crate::rewrite::LineView::Import(specifier) => match (
                (disk.target)(path, specifier),
                import_targets(disk, path, lines, from + 1),
            ) {
                (Some(target), Some(rest)) => Some(seq![target.path] + rest),
                _ => None,
            },
            _ => import_targets(disk, path, lines, from + 1),
        }
    }
}

proof fn lemma_targets_at_import(
    disk: Disk,
    path: Seq<char>,
    lines: Seq<crate::rewrite::LineView>,
    from: nat,
)
    ensures
        import_targets(disk, path, lines, from) == import_targets(
            disk,
            path,
            lines,
            crate::rewrite::next_import(lines, from),
        ),
    decreases lines.len() - from,
{
    if from < lines.len() && !(lines[from as int] is Import) {
        lemma_targets_at_import(disk, path, lines, from + 1);
    }
}

proof fn lemma_scan_contents(disk: Disk, m: ModuleMap, waiting: Waiting, scan: ScanView)
    requires
        disk.is_finite(),
        scan_module(disk, m, waiting, scan).outcome == Ok::<bool, LoadErrorView>(true),
    ensures
        ({
            let after = scan_module(disk, m, waiting, scan).known;
            let module = after[scan.canonical]->Ok_0;
            &&& crate::resolver::is_ready(after, scan.canonical)
            &&& module.script == crate::rewrite::script_of(scan.lines)
            &&& !scan.lenient ==> {
                &&& import_targets(disk, scan.path.path, scan.lines, scan.next) matches Some(
                    targets,
                )
                &&& module.deps == scan.deps + targets
            }
        }),
    decreases
            unwaited(disk, waiting.dom().insert(scan.canonical)),
            1 + scan.lines.len() - scan.next,
{
    crate::rewrite::lemma_next_import(scan.lines, scan.next);
    lemma_targets_at_import(disk, scan.path.path, scan.lines, scan.next);
    let stop = scan.at_import();
    if stop.next < scan.lines.len() {
        match (disk.target)(scan.path.path, stop.specifier()) {
            None => {
                lemma_scan_contents(disk, m, waiting, stop.passed_over(stop.unresolved_fault()));
            },
            Some(dependency) => {
                let inside = waiting.insert(scan.canonical, scan.passed);
                let inner = load_module(disk, m, inside, dependency, false);
                let fault = fault_of(disk, m, inside, stop, dependency, inner.known);
                if inner.outcome == Ok::<bool, LoadErrorView>(true) {
                    let next = stop.depending_on(dependency.path);
                    lemma_scan_contents(disk, inner.known, waiting, next);
                    if !scan.lenient {
                        let rest = import_targets(
                            disk,
                            scan.path.path,
                            scan.lines,
                            stop.next + 1,
                        )->0;
                        assert(scan.deps.push(dependency.path) + rest == scan.deps + (
                        seq![dependency.path] + rest));
                    }
                } else {
                    lemma_scan_contents(disk, inner.known, waiting, stop.passed_over(fault));
                }
            },
        }
    }
}

/// Whether an import names a module that is ready.
pub open spec fn import_is_ready(
    disk: Disk,
    known: ModuleMap,
    from: Seq<char>,
    specifier: Seq<char>,
) -> bool {
    &&& (disk.target)(from, specifier) matches Some(dependency)
    &&& (disk.canonical)(dependency.path) matches Some(canonical)
    &&& crate::resolver::is_ready(known, canonical)
}

/// Whether every import at or after a line names a module that is ready.
pub open spec fn imports_are_ready(
    disk: Disk,
    known: ModuleMap,
    from: Seq<char>,
    lines: Seq<crate::rewrite::LineView>,
    start: nat,
) -> bool {
    forall|i: int|
        start <= i < lines.len() && (#[trigger] lines[i]) is Import ==> import_is_ready(
            disk,
            known,
            from,
            lines[i]->Import_0,
        )
}

proof fn lemma_scan_ready(disk: Disk, m: ModuleMap, waiting: Waiting, scan: ScanView)
    requires
        disk.is_finite(),
        !scan.lenient,
        !crate::resolver::is_ready(m, scan.canonical),
    ensures
        ({
            let end = scan_module(disk, m, waiting, scan);
            end.outcome == Ok::<bool, LoadErrorView>(true) <==> imports_are_ready(
                disk,
                end.known,
                scan.path.path,
                scan.lines,
                scan.next,
            )
        }),
    decreases
            unwaited(disk, waiting.dom().insert(scan.canonical)),
            1 + scan.lines.len() - scan.next,
{
    crate::rewrite::lemma_next_import(scan.lines, scan.next);
    let stop = scan.at_import();
    let from = scan.path.path;
    if stop.next < scan.lines.len() {
        let end = scan_module(disk, m, waiting, scan);
        let line = scan.lines[stop.next as int];
        assert(line is Import);
        if let Some(dependency) = (disk.target)(from, stop.specifier()) {
            let inside = waiting.insert(scan.canonical, scan.passed);
            let inner = load_module(disk, m, inside, dependency, false);
            lemma_load_keeps(disk, m, inside, dependency, false);
            assert(same_at(m, inner.known, scan.canonical));
            if inner.outcome == Ok::<bool, LoadErrorView>(true) {
                let next = stop.depending_on(dependency.path);
                lemma_scan_ready(disk, inner.known, waiting, next);
                lemma_scan_keeps(disk, inner.known, waiting, next);
                let canonical = (disk.canonical)(dependency.path)->0;
                assert(same_at(inner.known, end.known, canonical));
                assert(import_is_ready(disk, end.known, from, stop.specifier()));
                if imports_are_ready(disk, end.known, from, scan.lines, stop.next + 1) {
                    assert forall|i: int|
                        scan.next <= i < scan.lines.len() && (#[trigger] scan.lines[
                            i
                        ]) is Import implies import_is_ready(
                        disk,
                        end.known,
                        from,
                        scan.lines[i]->Import_0,
                    ) by {
                        assert(i >= stop.next);
                    }
                }
            } else {
                assert(!import_is_ready(disk, end.known, from, stop.specifier()));
            }
        }
    }
}

/// Why a file cannot be loaded, where it cannot: it cannot be located or read, or, if it is loaded
/// leniently, its types cannot be stripped.
pub open spec fn file_failure(disk: Disk, path: PathView, lenient: bool) -> Option<
    LoadErrorView,
> {
    match (disk.canonical)(path.path) {
        None => Some(LoadErrorView::Canonicalize),
        Some(_) => match (disk.text)(path.path) {
            None => Some(LoadErrorView::Read { lenient, display: path.display }),
            Some(text) => match crate::loading::module_source(path, text) {
                Err(cause) => if lenient {
                    Some(LoadErrorView::Strip { display: path.display, cause })
                } else {
                    None
                },
                Ok(_) => None,
            },
        },
    }
}

/// A lenient load finishes with the module ready, whatever it imports, unless its file cannot be
/// located or read or its types cannot be stripped. The file of a module that is ready already is
/// not read.
pub proof fn law_lenient_load_succeeds(disk: Disk, m: ModuleMap, path: PathView)
    requires
        disk.is_finite(),
    ensures
        loaded(disk, m, path, true).outcome == (match (disk.canonical)(path.path) {
            Some(canonical) if crate::resolver::is_ready(m, canonical) => Ok::<
                bool,
                LoadErrorView,
            >(true),
            _ => match file_failure(disk, path, true) {
                Some(error) => Err(error),
                None => Ok(true),
            },
        }),
{
    lemma_load_keeps(disk, m, Map::empty(), path, true);
    if let Some(canonical) = (disk.canonical)(path.path) {
        if let Some(text) = (disk.text)(path.path) {
            if let Ok(source) = crate::loading::module_source(path, text) {
                let scan = crate::loading::new_scan(true, path, canonical, source);
                lemma_scan_keeps(disk, m, Map::empty(), scan);
            }
        }
    }
}

/// A load that is not lenient fails if and only if its own file cannot be located, or is not known
/// and cannot be read. What it imports does not make it fail.
pub proof fn law_load_fails_for_its_own_file(
    disk: Disk,
    m: ModuleMap,
    path: PathView,
    error: LoadErrorView,
)
    requires
        disk.is_finite(),
    ensures
        loaded(disk, m, path, false).outcome == Err::<bool, LoadErrorView>(error) <==> {
            &&& file_failure(disk, path, false) == Some(error)
            &&& (disk.canonical)(path.path) matches Some(canonical) ==> !m.contains_key(canonical)
        },
{
    if let Some(canonical) = (disk.canonical)(path.path) {
        if let Some(text) = (disk.text)(path.path) {
            if let Ok(source) = crate::loading::module_source(path, text) {
                let scan = crate::loading::new_scan(false, path, canonical, source);
                lemma_scan_keeps(disk, m, Map::empty(), scan);
            }
        }
    }
}

/// What a load says of a module is what is known of it then: it is ready, it is known and not
/// ready, or, if the load fails, it is not known. A load that fails changes nothing. A lenient
/// load never says that a module is not ready, and may fail for one that was known so before.
pub proof fn law_load_records_outcome(
    disk: Disk,
    m: ModuleMap,
    path: PathView,
    lenient: bool,
    canonical: Seq<char>,
)
    requires
        disk.is_finite(),
        (disk.canonical)(path.path) == Some(canonical),
    ensures
        ({
            let end = loaded(disk, m, path, lenient);
            &&& end.outcome == Ok::<bool, LoadErrorView>(true) <==> crate::resolver::is_ready(
                end.known,
                canonical,
            )
            &&& end.outcome is Err ==> end.known == m
            &&& !lenient ==> {
                &&& end.outcome == Ok::<bool, LoadErrorView>(false) <==> end.known.contains_key(
                    canonical,
                ) && end.known[canonical] is Err
                &&& end.outcome is Err <==> !end.known.contains_key(canonical)
            }
            &&& lenient ==> end.outcome != Ok::<bool, LoadErrorView>(false)
        }),
{
    lemma_load_keeps(disk, m, Map::empty(), path, lenient);
    let end = loaded(disk, m, path, lenient);
    if let Ok(ready) = end.outcome {
        assert(end.known.contains_key(canonical));
        assert(ready == crate::resolver::is_ready(end.known, canonical));
    }
}

/// A module whose file can be read, and that nothing is known of, is ready after a load if and only
/// if its source text can be had and every import names a module that is ready then. Its
/// dependencies are those modules, in the order of the imports.
pub proof fn law_ready_if_and_only_if_imports_are(
    disk: Disk,
    m: ModuleMap,
    path: PathView,
    canonical: Seq<char>,
    text: Seq<char>,
)
    requires
        disk.is_finite(),
        disk.resolves_to_canonical(),
        (disk.canonical)(path.path) == Some(canonical),
        (disk.text)(path.path) == Some(text),
        !m.contains_key(canonical),
    ensures
        ({
            let end = loaded(disk, m, path, false);
            &&& end.outcome is Ok
            &&& end.outcome == Ok::<bool, LoadErrorView>(true) <==> {
                &&& crate::loading::module_source(path, text) matches Ok(source)
                &&& imports_are_ready(
                    disk,
                    end.known,
                    path.path,
                    crate::rewrite::source_lines(source),
                    0,
                )
            }
            &&& end.outcome == Ok::<bool, LoadErrorView>(true) ==> import_targets(
                disk,
                path.path,
                crate::rewrite::source_lines(crate::loading::module_source(path, text)->Ok_0),
                0,
            ) == Some(end.known[canonical]->Ok_0.deps)
        }),
{
    if let Ok(source) = crate::loading::module_source(path, text) {
        let scan = crate::loading::new_scan(false, path, canonical, source);
        lemma_scan_keeps(disk, m, Map::empty(), scan);
        lemma_scan_ready(disk, m, Map::empty(), scan);
        let end = loaded(disk, m, path, false);
        if end.outcome == Ok::<bool, LoadErrorView>(true) {
            lemma_scan_contents(disk, m, Map::empty(), scan);
            let targets = import_targets(disk, path.path, scan.lines, 0)->0;
            assert(Seq::<Seq<char>>::empty() + targets == targets);
        }
    }
}

/// A load that makes a module ready, lenient or not, keeps the script of its source text.
pub proof fn law_ready_module_has_its_script(
    disk: Disk,
    m: ModuleMap,
    path: PathView,
    lenient: bool,
    canonical: Seq<char>,
)
    requires
        disk.is_finite(),
        loaded(disk, m, path, lenient).outcome == Ok::<bool, LoadErrorView>(true),
        (disk.canonical)(path.path) == Some(canonical),
        !crate::resolver::is_ready(m, canonical),
    ensures
        ({
            let module = loaded(disk, m, path, lenient).known[canonical]->Ok_0;
            &&& (disk.text)(path.path) matches Some(text)
            &&& crate::loading::module_source(path, text) matches Ok(source)
            &&& module.script == crate::rewrite::script_of(crate::rewrite::source_lines(source))
        }),
{
    if let Some(text) = (disk.text)(path.path) {
        if let Ok(source) = crate::loading::module_source(path, text) {
            let scan = crate::loading::new_scan(lenient, path, canonical, source);
            lemma_scan_contents(disk, m, Map::empty(), scan);
        }
    }
}

/// A file whose text is that of two others, joined by a line feed, has the scripts of the two,
/// joined by a line feed, where both keep any lines.
pub proof fn law_joined_files_have_joined_scripts(
    disk: Disk,
    first: PathView,
    second: PathView,
    both: PathView,
    a: Seq<char>,
    b: Seq<char>,
)
    requires
        disk.is_finite(),
        first.extension != Some("ts"@),
        second.extension != Some("ts"@),
        both.extension != Some("ts"@),
        (disk.text)(first.path) == Some(a),
        (disk.text)(second.path) == Some(b),
        (disk.text)(both.path) == Some(a + "\n"@ + b),
        a.len() > 0,
        a.last() != '\n',
        a.last() != '\r',
        crate::rewrite::kept_lines(crate::rewrite::source_lines(a)).len() > 0,
        crate::rewrite::kept_lines(crate::rewrite::source_lines(b)).len() > 0,
        loaded(disk, ModuleMap::empty(), first, false).outcome == Ok::<bool, LoadErrorView>(true),
        loaded(disk, ModuleMap::empty(), second, false).outcome == Ok::<bool, LoadErrorView>(true),
        loaded(disk, ModuleMap::empty(), both, false).outcome == Ok::<bool, LoadErrorView>(true),
    ensures
        ({
            let script = |path: PathView|
                loaded(disk, ModuleMap::empty(), path, false).known[(disk.canonical)(
                    path.path,
                )->0]->Ok_0.script;
            script(both) == script(first) + "\n"@ + script(second)
        }),
{
    let none = ModuleMap::empty();
    lemma_load_keeps(disk, none, Map::empty(), first, false);
    lemma_load_keeps(disk, none, Map::empty(), second, false);
    lemma_load_keeps(disk, none, Map::empty(), both, false);
    let at = |path: PathView| (disk.canonical)(path.path)->0;
    law_ready_module_has_its_script(disk, none, first, false, at(first));
    law_ready_module_has_its_script(disk, none, second, false, at(second));
    law_ready_module_has_its_script(disk, none, both, false, at(both));
    crate::rewrite::law_joined_texts_give_joined_scripts(a, b);
}

/// A module that is ready is not read again: the load finishes with the canonical path.
pub proof fn law_ready_module_is_not_read_again(
    disk: Disk,
    m: ModuleMap,
    path: PathView,
    lenient: bool,
    canonical: Seq<char>,
)
    requires
        (disk.canonical)(path.path) == Some(canonical),
        crate::resolver::is_ready(m, canonical),
    ensures
        answered(
            disk,
            m,
            ProgressView::Canonicalize { parents: Seq::empty(), lenient, path },
        ) == (m, ProgressView::Finished(true)),
{
}

/// A load leaves all that is known of modules as it was, except that a lenient load can make its
/// own module ready.
pub proof fn law_load_keeps_known_modules(
    disk: Disk,
    m: ModuleMap,
    path: PathView,
    lenient: bool,
    other: Seq<char>,
)
    requires
        disk.is_finite(),
        m.contains_key(other),
    ensures
        ({
            let end = loaded(disk, m, path, lenient);
            &&& end.known.contains_key(other)
            &&& crate::resolver::is_ready(m, other) ==> end.known[other] == m[other]
            &&& !(lenient && (disk.canonical)(path.path) == Some(other)) ==> end.known[other]
                == m[other]
        }),
{
    lemma_load_keeps(disk, m, Map::empty(), path, lenient);
    let end = loaded(disk, m, path, lenient);
    if crate::resolver::is_ready(m, other) || !(lenient && (disk.canonical)(path.path) == Some(
        other,
    )) {
        assert(same_at(m, end.known, other));
    }
}

/// A load keeps the dependencies of every ready module ready, and no module comes to depend on
/// itself, whatever the outcome.
pub proof fn law_load_keeps_sound(disk: Disk, m: ModuleMap, path: PathView, lenient: bool)
    requires
        disk.is_finite(),
        disk.resolves_to_canonical(),
        crate::resolver::is_sound(m),
    ensures
        crate::resolver::is_sound(loaded(disk, m, path, lenient).known),
{
    lemma_load_sound(disk, m, Map::empty(), path, lenient);
}

/// Where nothing is known yet, the dependencies of every ready module are ready.
pub proof fn law_nothing_known_is_sound()
    ensures
        crate::resolver::is_sound(ModuleMap::empty()),
{
    let rank = |path: Seq<char>| 0nat;
    assert(crate::resolver::is_ranked(ModuleMap::empty(), rank));
}

/// A module that a load leaves ready can be executed, and one that it leaves not ready cannot.
pub proof fn law_load_decides_execution(
    disk: Disk,
    m: ModuleMap,
    path: PathView,
    lenient: bool,
    canonical: Seq<char>,
    display: Seq<char>,
)
    requires
        disk.is_finite(),
        loaded(disk, m, path, lenient).outcome is Ok,
        (disk.canonical)(path.path) == Some(canonical),
    ensures
        ({
            let end = loaded(disk, m, path, lenient);
            let error = crate::workflow::module_error(end.known, canonical, display);
            if end.outcome->Ok_0 {
                error is None
            } else {
                error == Some(
                    crate::error::ExecuteErrorView::NotAvailable {
                        display,
                        reason: crate::resolver::unavailable_reason(end.known, Some(canonical)),
                    },
                )
            }
        }),
{
    lemma_load_keeps(disk, m, Map::empty(), path, lenient);
}

/// A load that is asked for, and the files as they are then.
pub struct Request {
    /// The files.
    pub disk: Disk,
    /// The path of the module.
    pub path: PathView,
    /// Whether the load is lenient.
    pub lenient: bool,
}

impl Request {
    /// Whether there are only so many files, and imports resolve to canonical paths.
    pub open spec fn is_valid(self) -> bool {
        self.disk.is_finite() && self.disk.resolves_to_canonical()
    }
}

/// What is known after loads in turn, where nothing was known before. Files may change between
/// them.
pub open spec fn known_after(requests: Seq<Request>) -> ModuleMap
    decreases requests.len(),
{
    if requests.len() == 0 {
        ModuleMap::empty()
    } else {
        let last = requests.last();
        loaded(last.disk, known_after(requests.drop_last()), last.path, last.lenient).known
    }
}

/// After any loads, the dependencies of every ready module are ready, and no module depends on
/// itself.
pub proof fn law_known_modules_are_sound(requests: Seq<Request>)
    requires
        forall|i: int| 0 <= i < requests.len() ==> (#[trigger] requests[i]).is_valid(),
    ensures
        crate::resolver::is_sound(known_after(requests)),
        known_after(requests).dom().finite(),
    decreases requests.len(),
{
    if requests.len() == 0 {
        law_nothing_known_is_sound();
    } else {
        let front = requests.drop_last();
        let last = requests.last();
        assert forall|i: int| 0 <= i < front.len() implies (#[trigger] front[i]).is_valid() by {
            assert(front[i] == requests[i]);
        }
        law_known_modules_are_sound(front);
        assert(requests[requests.len() - 1].is_valid());
        let m = known_after(front);
        law_load_keeps_sound(last.disk, m, last.path, last.lenient);
        lemma_load_keeps(last.disk, m, Map::empty(), last.path, last.lenient);
    }
}

/// After any loads, a module that is ready is evaluated with all that it depends on, each once,
/// dependencies before the modules that import them and the module itself last.
pub proof fn law_loaded_module_runs_after_its_dependencies(
    requests: Seq<Request>,
    path: Seq<char>,
)
    requires
        forall|i: int| 0 <= i < requests.len() ==> (#[trigger] requests[i]).is_valid(),
        crate::resolver::is_ready(known_after(requests), path),
    ensures
        ({
            let known = known_after(requests);
            let order = crate::resolver::evaluation_order(known, path);
            &&& crate::workflow::is_full_order(known, path, order)
            &&& crate::workflow::evaluation_plan_of(known, path) == order.map_values(
                |p: Seq<char>| crate::workflow::script_at(known, p),
            )
        }),
{
    law_known_modules_are_sound(requests);
    crate::workflow::law_plan_holds_every_dependency(known_after(requests), path);
}

/// Whether the source text of a file imports what a specifier names.
pub open spec fn imports(disk: Disk, path: PathView, specifier: Seq<char>) -> bool {
    &&& (disk.text)(path.path) matches Some(text)
    &&& crate::loading::module_source(path, text) matches Ok(source)
    &&& crate::rewrite::source_lines(source).contains(
        crate::rewrite::LineView::Import(specifier),
    )
}

/// Whether a module is the one at a path, or one that it imports, at most `n` imports away.
pub open spec fn is_imported_within(
    disk: Disk,
    path: PathView,
    canonical: Seq<char>,
    n: nat,
) -> bool
    decreases n,
{
    ||| (disk.canonical)(path.path) == Some(canonical)
    ||| n > 0 && exists|specifier: Seq<char>| #[trigger]
        imports(disk, path, specifier) && ((disk.target)(path.path, specifier) matches Some(
            dependency,
        ) && is_imported_within(disk, dependency, canonical, (n - 1) as nat))
}

/// Whether a module is the one at a path, or one that it imports, directly or by way of others.
pub open spec fn is_imported(disk: Disk, path: PathView, canonical: Seq<char>) -> bool {
    exists|n: nat| is_imported_within(disk, path, canonical, n)
}

/// Whether the lines of a scan are those of the file at its path.
spec fn scans_file(disk: Disk, scan: ScanView) -> bool {
    &&& (disk.canonical)(scan.path.path) == Some(scan.canonical)
    &&& (disk.text)(scan.path.path) matches Some(text)
    &&& crate::loading::module_source(scan.path, text) matches Ok(source)
    &&& scan.lines == crate::rewrite::source_lines(source)
}

proof fn lemma_load_adds(
    disk: Disk,
    m: ModuleMap,
    waiting: Waiting,
    path: PathView,
    lenient: bool,
)
    requires
        disk.is_finite(),
    ensures
        forall|k: Seq<char>|
            !is_imported(disk, path, k) ==> #[trigger] same_at(
                m,
                load_module(disk, m, waiting, path, lenient).known,
                k,
            ),
    decreases unwaited(disk, waiting.dom()), 0int,
{
    if let Some(canonical) = (disk.canonical)(path.path) {
        assert(is_imported_within(disk, path, canonical, 0));
        if !crate::resolver::is_ready(m, canonical) && !waiting.contains_key(canonical) && !(
        m.contains_key(canonical) && !lenient) {
            if let Some(text) = (disk.text)(path.path) {
                if let Ok(source) = crate::loading::module_source(path, text) {
                    let scan = crate::loading::new_scan(lenient, path, canonical, source);
                    lemma_unwaited(disk, waiting.dom(), canonical);
                    lemma_scan_adds(disk, m, waiting, scan);
                }
            }
        }
    }
}

proof fn lemma_scan_adds(disk: Disk, m: ModuleMap, waiting: Waiting, scan: ScanView)
    requires
        disk.is_finite(),
        scans_file(disk, scan),
    ensures
        forall|k: Seq<char>|
            !is_imported(disk, scan.path, k) ==> #[trigger] same_at(
                m,
                scan_module(disk, m, waiting, scan).known,
                k,
            ),
    decreases
            unwaited(disk, waiting.dom().insert(scan.canonical)),
            1 + scan.lines.len() - scan.next,
{
    crate::rewrite::lemma_next_import(scan.lines, scan.next);
    assert(is_imported_within(disk, scan.path, scan.canonical, 0));
    let stop = scan.at_import();
    if stop.next < scan.lines.len() {
        let specifier = stop.specifier();
        assert(scan.lines[stop.next as int] == crate::rewrite::LineView::Import(specifier));
        assert(imports(disk, scan.path, specifier));
        match (disk.target)(scan.path.path, specifier) {
            None => {
                if scan.lenient {
                    lemma_scan_adds(disk, m, waiting, stop.passed_over(stop.unresolved_fault()));
                }
            },
            Some(dependency) => {
                let inside = waiting.insert(scan.canonical, scan.passed);
                let inner = load_module(disk, m, inside, dependency, false);
                let fault = fault_of(disk, m, inside, stop, dependency, inner.known);
                let end = scan_module(disk, m, waiting, scan);
                lemma_load_adds(disk, m, inside, dependency, false);
                if inner.outcome == Ok::<bool, LoadErrorView>(true) {
                    let next = stop.depending_on(dependency.path);
                    lemma_scan_adds(disk, inner.known, waiting, next);
                } else if scan.lenient {
                    lemma_scan_adds(disk, inner.known, waiting, stop.passed_over(fault));
                }
                assert forall|k: Seq<char>|
                    !is_imported(disk, scan.path, k) implies #[trigger] same_at(
                    m,
                    end.known,
                    k,
                ) by {
                    if is_imported(disk, dependency, k) {
                        let n = choose|n: nat| is_imported_within(disk, dependency, k, n);
                        assert(is_imported_within(disk, scan.path, k, n + 1));
                    }
                    assert(same_at(m, inner.known, k));
                    assert(same_at(inner.known, end.known, k));
                }
            },
        }
    }
}

/// A load changes what is known of a module only if it is the one asked for, or one that it
/// imports, directly or by way of others.
pub proof fn law_load_adds_only_imports(
    disk: Disk,
    m: ModuleMap,
    path: PathView,
    lenient: bool,
    other: Seq<char>,
)
    requires
        disk.is_finite(),
        !is_imported(disk, path, other),
    ensures
        same_at(m, loaded(disk, m, path, lenient).known, other),
{
    lemma_load_adds(disk, m, Map::empty(), path, lenient);
}

proof fn lemma_lenient_scan(disk: Disk, m: ModuleMap, waiting: Waiting, scan: ScanView)
    requires
        disk.is_finite(),
        !scan.lenient,
        scan_module(disk, m, waiting, scan).outcome == Ok::<bool, LoadErrorView>(true),
    ensures
        scan_module(disk, m, waiting, (ScanView { lenient: true, ..scan })) == scan_module(
            disk,
            m,
            waiting,
            scan,
        ),
    decreases
            unwaited(disk, waiting.dom().insert(scan.canonical)),
            1 + scan.lines.len() - scan.next,
{
    crate::rewrite::lemma_next_import(scan.lines, scan.next);
    let stop = scan.at_import();
    if stop.next < scan.lines.len() {
        if let Some(dependency) = (disk.target)(scan.path.path, stop.specifier()) {
            let inside = waiting.insert(scan.canonical, scan.passed);
            let inner = load_module(disk, m, inside, dependency, false);
            if inner.outcome == Ok::<bool, LoadErrorView>(true) {
                lemma_lenient_scan(
                    disk,
                    inner.known,
                    waiting,
                    stop.depending_on(dependency.path),
                );
            }
        }
    }
}

/// Where a load that is not lenient leaves the module ready, a lenient load comes to the same.
pub proof fn law_lenient_load_agrees(disk: Disk, m: ModuleMap, path: PathView)
    requires
        disk.is_finite(),
        loaded(disk, m, path, false).outcome == Ok::<bool, LoadErrorView>(true),
    ensures
        loaded(disk, m, path, true) == loaded(disk, m, path, false),
{
    if let Some(canonical) = (disk.canonical)(path.path) {
        if !crate::resolver::is_ready(m, canonical) {
            if let Some(text) = (disk.text)(path.path) {
                if let Ok(source) = crate::loading::module_source(path, text) {
                    let scan = crate::loading::new_scan(false, path, canonical, source);
                    lemma_lenient_scan(disk, m, Map::empty(), scan);
                }
            }
        }
    }
}

/// A module that is known is not loaded again, unless the load is lenient and the module is not
/// ready: the load ends with what is known.
pub proof fn law_known_module_is_not_loaded_again(
    disk: Disk,
    m: ModuleMap,
    path: PathView,
    canonical: Seq<char>,
)
    requires
        (disk.canonical)(path.path) == Some(canonical),
        m.contains_key(canonical),
    ensures
        answered(
            disk,
            m,
            ProgressView::Canonicalize { parents: Seq::empty(), lenient: false, path },
        ) == (m, ProgressView::Finished(m[canonical] is Ok)),
{
}

/// Whether an import names a module that is ready, and is not the one at `own`.
pub open spec fn names_other_ready(
    disk: Disk,
    known: ModuleMap,
    own: Seq<char>,
    from: Seq<char>,
    specifier: Seq<char>,
) -> bool {
    &&& (disk.target)(from, specifier) matches Some(dependency)
    &&& (disk.canonical)(dependency.path) matches Some(canonical)
    &&& canonical != own
    &&& known.contains_key(canonical)
    &&& known[canonical] is Ok
}

/// The paths of the ready modules that the imports at or after `start` name, in the order of the
/// imports.
pub open spec fn ready_targets(
    disk: Disk,
    known: ModuleMap,
    own: Seq<char>,
    from: Seq<char>,
    lines: Seq<crate::rewrite::LineView>,
    start: nat,
) -> Seq<Seq<char>>
    decreases lines.len() - start,
{
    if start >= lines.len() {
        Seq::empty()
    } else {
        let rest = ready_targets(disk, known, own, from, lines, start + 1);
        match lines[start as int] {
            crate::rewrite::LineView::Import(specifier) => if names_other_ready(
                disk,
                known,
                own,
                from,
                specifier,
            ) {
                seq![(disk.target)(from, specifier)->0.path] + rest
            } else {
                rest
            },
            _ => rest,
        }
    }
}

proof fn lemma_ready_targets_at_import(
    disk: Disk,
    known: ModuleMap,
    own: Seq<char>,
    from: Seq<char>,
    lines: Seq<crate::rewrite::LineView>,
    start: nat,
)
    ensures
        ready_targets(disk, known, own, from, lines, start) == ready_targets(
            disk,
            known,
            own,
            from,
            lines,
            crate::rewrite::next_import(lines, start),
        ),
    decreases lines.len() - start,
{
    if start < lines.len() && !(lines[start as int] is Import) {
        lemma_ready_targets_at_import(disk, known, own, from, lines, start + 1);
    }
}

/// A file that cannot be read does not become ready.
proof fn lemma_load_unreadable(
    disk: Disk,
    m: ModuleMap,
    waiting: Waiting,
    path: PathView,
    lenient: bool,
    file: Seq<char>,
)
    requires
        disk.is_finite(),
        disk.resolves_to_canonical(),
        !crate::resolver::is_ready(m, file),
        (disk.text)(file) is None,
        (disk.canonical)(path.path) == Some(file) ==> path.path == file,
    ensures
        !crate::resolver::is_ready(load_module(disk, m, waiting, path, lenient).known, file),
    decreases unwaited(disk, waiting.dom()), 0int,
{
    if let Some(canonical) = (disk.canonical)(path.path) {
        if !crate::resolver::is_ready(m, canonical) && !waiting.contains_key(canonical) && !(
        m.contains_key(canonical) && !lenient) {
            if let Some(text) = (disk.text)(path.path) {
                if let Ok(source) = crate::loading::module_source(path, text) {
                    let scan = crate::loading::new_scan(lenient, path, canonical, source);
                    lemma_unwaited(disk, waiting.dom(), canonical);
                    lemma_scan_unreadable(disk, m, waiting, scan, file);
                }
            }
        }
    }
}

proof fn lemma_scan_unreadable(
    disk: Disk,
    m: ModuleMap,
    waiting: Waiting,
    scan: ScanView,
    file: Seq<char>,
)
    requires
        disk.is_finite(),
        disk.resolves_to_canonical(),
        !crate::resolver::is_ready(m, file),
        (disk.text)(file) is None,
        scan.canonical != file,
    ensures
        !crate::resolver::is_ready(scan_module(disk, m, waiting, scan).known, file),
    decreases
            unwaited(disk, waiting.dom().insert(scan.canonical)),
            1 + scan.lines.len() - scan.next,
{
    crate::rewrite::lemma_next_import(scan.lines, scan.next);
    let stop = scan.at_import();
    if stop.next < scan.lines.len() {
        match (disk.target)(scan.path.path, stop.specifier()) {
            None => {
                if scan.lenient {
                    let next = stop.passed_over(stop.unresolved_fault());
                    lemma_scan_unreadable(disk, m, waiting, next, file);
                }
            },
            Some(dependency) => {
                let inside = waiting.insert(scan.canonical, scan.passed);
                let inner = load_module(disk, m, inside, dependency, false);
                let fault = fault_of(disk, m, inside, stop, dependency, inner.known);
                lemma_load_unreadable(disk, m, inside, dependency, false, file);
                if inner.outcome == Ok::<bool, LoadErrorView>(true) {
                    let next = stop.depending_on(dependency.path);
                    lemma_scan_unreadable(disk, inner.known, waiting, next, file);
                } else if scan.lenient {
                    let next = stop.passed_over(fault);
                    lemma_scan_unreadable(disk, inner.known, waiting, next, file);
                }
            },
        }
    }
}

proof fn lemma_scan_deps(disk: Disk, m: ModuleMap, scan: ScanView)
    requires
        disk.is_finite(),
        disk.resolves_to_canonical(),
        !crate::resolver::is_ready(m, scan.canonical),
        scan_module(disk, m, Map::empty(), scan).outcome == Ok::<bool, LoadErrorView>(true),
    ensures
        ({
            let known = scan_module(disk, m, Map::empty(), scan).known;
            &&& known.contains_key(scan.canonical)
            &&& known[scan.canonical] matches Ok(module)
            &&& module.deps == scan.deps + ready_targets(
                disk,
                known,
                scan.canonical,
                scan.path.path,
                scan.lines,
                scan.next,
            )
        }),
    decreases
            unwaited(disk, Set::empty().insert(scan.canonical)),
            1 + scan.lines.len() - scan.next,
{
    let waiting = Map::empty();
    let own = scan.canonical;
    let from = scan.path.path;
    let end = scan_module(disk, m, waiting, scan);
    crate::rewrite::lemma_next_import(scan.lines, scan.next);
    lemma_ready_targets_at_import(disk, end.known, own, from, scan.lines, scan.next);
    let stop = scan.at_import();
    if stop.next < scan.lines.len() {
        let specifier = stop.specifier();
        assert(scan.lines[stop.next as int] == crate::rewrite::LineView::Import(specifier));
        match (disk.target)(from, specifier) {
            None => {
                lemma_scan_deps(disk, m, stop.passed_over(stop.unresolved_fault()));
            },
            Some(dependency) => {
                let inside = waiting.insert(own, scan.passed);
                let inner = load_module(disk, m, inside, dependency, false);
                let fault = fault_of(disk, m, inside, stop, dependency, inner.known);
                lemma_load_keeps(disk, m, inside, dependency, false);
                assert(same_at(m, inner.known, own));
                if inner.outcome == Ok::<bool, LoadErrorView>(true) {
                    let next = stop.depending_on(dependency.path);
                    lemma_scan_keeps(disk, inner.known, waiting, next);
                    lemma_scan_deps(disk, inner.known, next);
                    let canonical = (disk.canonical)(dependency.path)->0;
                    assert(same_at(inner.known, end.known, canonical));
                    assert(names_other_ready(disk, end.known, own, from, specifier));
                    let rest = ready_targets(
                        disk,
                        end.known,
                        own,
                        from,
                        scan.lines,
                        stop.next + 1,
                    );
                    assert(scan.deps.push(dependency.path) + rest == scan.deps + (
                    seq![dependency.path] + rest));
                } else {
                    let next = stop.passed_over(fault);
                    lemma_scan_keeps(disk, inner.known, waiting, next);
                    lemma_scan_deps(disk, inner.known, next);
                    assert(!names_other_ready(disk, end.known, own, from, specifier)) by {
                        if let Some(canonical) = (disk.canonical)(dependency.path) {
                            if canonical != own {
                                if inner.known.contains_key(canonical) {
                                    assert(same_at(inner.known, end.known, canonical));
                                } else {
                                    assert(inner.outcome is Err);
                                    assert(canonical == dependency.path);
                                    lemma_nested_failure(disk, m, inside, dependency);
                                    lemma_scan_unreadable(
                                        disk,
                                        inner.known,
                                        waiting,
                                        next,
                                        canonical,
                                    );
                                }
                            }
                        }
                    }
                }
            },
        }
    }
}

proof fn lemma_nested_failure(disk: Disk, m: ModuleMap, waiting: Waiting, path: PathView)
    requires
        disk.is_finite(),
        (disk.canonical)(path.path) is Some,
        load_module(disk, m, waiting, path, false).outcome is Err,
    ensures
        (disk.text)(path.path) is None,
{
    if let Some(canonical) = (disk.canonical)(path.path) {
        if let Some(text) = (disk.text)(path.path) {
            if let Ok(source) = crate::loading::module_source(path, text) {
                let scan = crate::loading::new_scan(false, path, canonical, source);
                lemma_scan_keeps(disk, m, waiting, scan);
            }
        }
    }
}

/// The dependencies of a module that a load makes ready, lenient or not, are what those of its
/// imports name that name a ready module other than itself, in the order of the imports, whatever
/// the other imports name.
pub proof fn law_dependencies_are_the_ready_imports(
    disk: Disk,
    m: ModuleMap,
    path: PathView,
    lenient: bool,
    canonical: Seq<char>,
    text: Seq<char>,
)
    requires
        disk.is_finite(),
        disk.resolves_to_canonical(),
        (disk.canonical)(path.path) == Some(canonical),
        (disk.text)(path.path) == Some(text),
        !(m.contains_key(canonical) && m[canonical] is Ok),
        loaded(disk, m, path, lenient).outcome == Ok::<bool, LoadErrorView>(true),
    ensures
        ({
            let known = loaded(disk, m, path, lenient).known;
            &&& known.contains_key(canonical)
            &&& known[canonical] matches Ok(module)
            &&& crate::loading::module_source(path, text) matches Ok(source)
            &&& module.deps == ready_targets(
                disk,
                known,
                canonical,
                path.path,
                crate::rewrite::source_lines(source),
                0,
            )
        }),
{
    if let Ok(source) = crate::loading::module_source(path, text) {
        let scan = crate::loading::new_scan(lenient, path, canonical, source);
        lemma_scan_deps(disk, m, scan);
        let known = loaded(disk, m, path, lenient).known;
        let targets = ready_targets(disk, known, canonical, path.path, scan.lines, 0);
        assert(Seq::<Seq<char>>::empty() + targets == targets);
    }
}

/// What a reason says of the first import that keeps a module from being ready.
pub open spec fn import_problem(
    disk: Disk,
    known: ModuleMap,
    own: Seq<char>,
    from: Seq<char>,
    specifier: Seq<char>,
) -> Seq<char> {
    match (disk.target)(from, specifier) {
        None => "cannot resolve '"@ + specifier + "'"@,
        Some(dependency) => if (disk.canonical)(dependency.path) == Some(own) {
            "circular import of '"@ + specifier + "'"@
        } else if dependency.path != own && known.contains_key(dependency.path)
            && known[dependency.path] is Err {
            known[dependency.path]->Err_0
        } else {
            dependency.display
        },
    }
}

proof fn lemma_scan_reason(disk: Disk, m: ModuleMap, scan: ScanView, i: int)
    requires
        disk.is_finite(),
        !scan.lenient,
        scan.passed is None,
        !m.contains_key(scan.canonical),
        scan.next <= i < scan.lines.len(),
        scan.lines[i] is Import,
        ({
            let known = scan_module(disk, m, Map::empty(), scan).known;
            &&& !import_is_ready(disk, known, scan.path.path, scan.lines[i]->Import_0)
            &&& forall|j: int|
                scan.next <= j < i && (#[trigger] scan.lines[j]) is Import ==> import_is_ready(
                    disk,
                    known,
                    scan.path.path,
                    scan.lines[j]->Import_0,
                )
        }),
    ensures
        ({
            let known = scan_module(disk, m, Map::empty(), scan).known;
            &&& known.contains_key(scan.canonical)
            &&& known[scan.canonical] == Err::<crate::resolver::ModuleView, Seq<char>>(
                scan.path.display + ":"@ + crate::text::decimal((i + 1) as nat) + ": "@
                    + import_problem(
                    disk,
                    known,
                    scan.canonical,
                    scan.path.path,
                    scan.lines[i]->Import_0,
                ),
            )
        }),
    decreases
            unwaited(disk, Set::empty().insert(scan.canonical)),
            1 + scan.lines.len() - scan.next,
{
    reveal_strlit(": cannot resolve '");
    reveal_strlit("cannot resolve '");
    reveal_strlit(": circular import of '");
    reveal_strlit("circular import of '");
    reveal_strlit(": ");
    assert(": cannot resolve '"@ == ": "@ + "cannot resolve '"@);
    assert(": circular import of '"@ == ": "@ + "circular import of '"@);
    let waiting = Map::empty();
    let own = scan.canonical;
    let from = scan.path.path;
    let end = scan_module(disk, m, waiting, scan);
    crate::rewrite::lemma_next_import(scan.lines, scan.next);
    let stop = scan.at_import();
    assert(stop.next <= i);
    let specifier = stop.specifier();
    assert(scan.lines[stop.next as int] == crate::rewrite::LineView::Import(specifier));
    let place = scan.path.display + ":"@ + crate::text::decimal((stop.next + 1) as nat) + ": "@;
    match (disk.target)(from, specifier) {
        None => {
            assert(!import_is_ready(disk, end.known, from, specifier));
            assert(stop.next == i);
            assert(stop.reason(stop.unresolved_fault()) == place + ("cannot resolve '"@
                + specifier + "'"@));
        },
        Some(dependency) => {
            let inside = waiting.insert(own, scan.passed);
            let inner = load_module(disk, m, inside, dependency, false);
            lemma_load_keeps(disk, m, inside, dependency, false);
            assert(same_at(m, inner.known, own));
            if inner.outcome == Ok::<bool, LoadErrorView>(true) {
                let next = stop.depending_on(dependency.path);
                lemma_scan_keeps(disk, inner.known, waiting, next);
                let canonical = (disk.canonical)(dependency.path)->0;
                assert(same_at(inner.known, end.known, canonical));
                assert(import_is_ready(disk, end.known, from, specifier));
                assert(stop.next < i);
                lemma_scan_reason(disk, inner.known, next, i);
            } else {
                assert(!import_is_ready(disk, end.known, from, specifier));
                assert(stop.next == i);
                let fault = fault_of(disk, m, inside, stop, dependency, inner.known);
                assert(stop.reason(fault) == place + import_problem(
                    disk,
                    end.known,
                    own,
                    from,
                    specifier,
                ));
            }
        },
    }
}

/// A module that cannot be had for its imports is kept with a reason that points to the first
/// import that does not name a ready module, by the line's number, and says what is wrong with it.
pub proof fn law_reason_points_to_the_first_import(
    disk: Disk,
    m: ModuleMap,
    path: PathView,
    canonical: Seq<char>,
    text: Seq<char>,
    source: Seq<char>,
    i: int,
)
    requires
        disk.is_finite(),
        (disk.canonical)(path.path) == Some(canonical),
        (disk.text)(path.path) == Some(text),
        !m.contains_key(canonical),
        crate::loading::module_source(path, text) == Ok::<Seq<char>, Seq<char>>(source),
        0 <= i < crate::rewrite::source_lines(source).len(),
        crate::rewrite::source_lines(source)[i] is Import,
        !import_is_ready(
            disk,
            loaded(disk, m, path, false).known,
            path.path,
            crate::rewrite::source_lines(source)[i]->Import_0,
        ),
        forall|j: int|
            0 <= j < i && (#[trigger] crate::rewrite::source_lines(source)[j]) is Import
                ==> import_is_ready(
                disk,
                loaded(disk, m, path, false).known,
                path.path,
                crate::rewrite::source_lines(source)[j]->Import_0,
            ),
    ensures
        ({
            let known = loaded(disk, m, path, false).known;
            &&& known.contains_key(canonical)
            &&& known[canonical] == Err::<crate::resolver::ModuleView, Seq<char>>(
                path.display + ":"@ + crate::text::decimal((i + 1) as nat) + ": "@
                    + import_problem(
                    disk,
                    known,
                    canonical,
                    path.path,
                    crate::rewrite::source_lines(source)[i]->Import_0,
                ),
            )
        }),
{
    let scan = crate::loading::new_scan(false, path, canonical, source);
    lemma_scan_reason(disk, m, scan, i);
}

/// A module whose types cannot be stripped is kept with its path and the message.
pub proof fn law_reason_of_stripping(
    disk: Disk,
    m: ModuleMap,
    path: PathView,
    canonical: Seq<char>,
    text: Seq<char>,
    message: Seq<char>,
)
    requires
        disk.is_finite(),
        (disk.canonical)(path.path) == Some(canonical),
        (disk.text)(path.path) == Some(text),
        !m.contains_key(canonical),
        path.extension == Some("ts"@),
        crate::typescript::stripped(text, path.file_name) == Err::<Seq<char>, Seq<char>>(message),
    ensures
        loaded(disk, m, path, false).known == m.insert(
            canonical,
            Err(path.display + ": "@ + message),
        ),
{
}

/// Whether a module has the script of the file at a path, which is its own.
pub open spec fn has_script_of(
    disk: Disk,
    script: Seq<char>,
    canonical: Seq<char>,
    path: PathView,
) -> bool {
    &&& (disk.canonical)(path.path) == Some(canonical)
    &&& (disk.text)(path.path) matches Some(text)
    &&& crate::loading::module_source(path, text) matches Ok(source)
    &&& script == crate::rewrite::script_of(crate::rewrite::source_lines(source))
}

/// Whether what has become ready has the script of its own file.
pub open spec fn has_own_scripts(disk: Disk, before: ModuleMap, after: ModuleMap) -> bool {
    forall|k: Seq<char>|
        after.contains_key(k) && (#[trigger] after[k]) is Ok && !(before.contains_key(k)
            && before[k] is Ok) ==> exists|path: PathView| #[trigger]
            has_script_of(disk, after[k]->Ok_0.script, k, path)
}

proof fn lemma_load_scripts(
    disk: Disk,
    m: ModuleMap,
    waiting: Waiting,
    path: PathView,
    lenient: bool,
)
    requires
        disk.is_finite(),
    ensures
        has_own_scripts(disk, m, load_module(disk, m, waiting, path, lenient).known),
    decreases unwaited(disk, waiting.dom()), 0int,
{
    if let Some(canonical) = (disk.canonical)(path.path) {
        if !crate::resolver::is_ready(m, canonical) && !waiting.contains_key(canonical) && !(
        m.contains_key(canonical) && !lenient) {
            if let Some(text) = (disk.text)(path.path) {
                if let Ok(source) = crate::loading::module_source(path, text) {
                    let scan = crate::loading::new_scan(lenient, path, canonical, source);
                    lemma_unwaited(disk, waiting.dom(), canonical);
                    lemma_scan_scripts(disk, m, waiting, scan);
                }
            }
        }
    }
}

proof fn lemma_scan_scripts(disk: Disk, m: ModuleMap, waiting: Waiting, scan: ScanView)
    requires
        disk.is_finite(),
        scans_file(disk, scan),
    ensures
        has_own_scripts(disk, m, scan_module(disk, m, waiting, scan).known),
    decreases
            unwaited(disk, waiting.dom().insert(scan.canonical)),
            1 + scan.lines.len() - scan.next,
{
    crate::rewrite::lemma_next_import(scan.lines, scan.next);
    let stop = scan.at_import();
    let end = scan_module(disk, m, waiting, scan);
    assert(has_script_of(
        disk,
        crate::rewrite::script_of(scan.lines),
        scan.canonical,
        scan.path,
    ));
    if stop.next < scan.lines.len() {
        match (disk.target)(scan.path.path, stop.specifier()) {
            None => {
                if scan.lenient {
                    let next = stop.passed_over(stop.unresolved_fault());
                    lemma_scan_scripts(disk, m, waiting, next);
                }
            },
            Some(dependency) => {
                let inside = waiting.insert(scan.canonical, scan.passed);
                let inner = load_module(disk, m, inside, dependency, false);
                let fault = fault_of(disk, m, inside, stop, dependency, inner.known);
                lemma_load_scripts(disk, m, inside, dependency, false);
                let next = if inner.outcome == Ok::<bool, LoadErrorView>(true) {
                    stop.depending_on(dependency.path)
                } else {
                    stop.passed_over(fault)
                };
                if inner.outcome == Ok::<bool, LoadErrorView>(true) || scan.lenient {
                    lemma_scan_scripts(disk, inner.known, waiting, next);
                    lemma_scan_keeps(disk, inner.known, waiting, next);
                }
                assert forall|k: Seq<char>|
                    end.known.contains_key(k) && (#[trigger] end.known[k]) is Ok && !(
                    m.contains_key(k) && m[k] is Ok) implies exists|path: PathView| #[trigger]
                    has_script_of(disk, end.known[k]->Ok_0.script, k, path) by {
                    if inner.known.contains_key(k) && inner.known[k] is Ok && k
                        != scan.canonical {
                        assert(same_at(inner.known, end.known, k));
                    } else if inner.known.contains_key(k) && inner.known[k] is Ok {
                        lemma_load_keeps(disk, m, inside, dependency, false);
                        assert(same_at(m, inner.known, k));
                    }
                }
            },
        }
    } else {
        assert forall|k: Seq<char>|
            end.known.contains_key(k) && (#[trigger] end.known[k]) is Ok && !(m.contains_key(k)
                && m[k] is Ok) implies exists|path: PathView| #[trigger]
            has_script_of(disk, end.known[k]->Ok_0.script, k, path) by {
            assert(k == scan.canonical);
            assert(has_script_of(disk, end.known[k]->Ok_0.script, k, scan.path));
        }
    }
}

/// Every module that a load makes ready, the one asked for and those that it imports, has the
/// script of its own file.
pub proof fn law_modules_have_the_scripts_of_their_files(
    disk: Disk,
    m: ModuleMap,
    path: PathView,
    lenient: bool,
)
    requires
        disk.is_finite(),
    ensures
        has_own_scripts(disk, m, loaded(disk, m, path, lenient).known),
{
    lemma_load_scripts(disk, m, Map::empty(), path, lenient);
}

/// Whether an import keeps its module from being ready: it names nothing, a file that cannot be
/// read, a module that is known and not ready, or one of `blamed`.
pub open spec fn is_stuck(
    disk: Disk,
    known: ModuleMap,
    blamed: Set<Seq<char>>,
    from: Seq<char>,
    specifier: Seq<char>,
) -> bool {
    match (disk.target)(from, specifier) {
        None => true,
        Some(dependency) => match (disk.canonical)(dependency.path) {
            None => true,
            Some(canonical) => {
                ||| blamed.contains(canonical)
                ||| known.contains_key(canonical) && known[canonical] is Err
                ||| (disk.text)(dependency.path) is None && !(known.contains_key(canonical)
                    && known[canonical] is Ok)
            },
        },
    }
}

/// Whether a reason points to an import that keeps its module from being ready, with all imports
/// before it ready.
pub open spec fn stops_at(
    disk: Disk,
    known: ModuleMap,
    blamed: Set<Seq<char>>,
    path: PathView,
    lines: Seq<crate::rewrite::LineView>,
    start: nat,
    reason: Seq<char>,
    i: int,
) -> bool {
    &&& start <= i < lines.len()
    &&& lines[i] matches crate::rewrite::LineView::Import(specifier)
    &&& is_stuck(disk, known, blamed, path.path, specifier)
    &&& forall|j: int|
        start <= j < i && (#[trigger] lines[j]) is Import ==> import_is_ready(
            disk,
            known,
            path.path,
            lines[j]->Import_0,
        )
    &&& (path.display + ":"@ + crate::text::decimal((i + 1) as nat) + ": "@).is_prefix_of(reason)
}

/// Whether what is known of a module is what its file, at a path, and its imports come to. It is
/// ready, with the script of its file and what all of its imports name, which is ready; or it is
/// not, for its types or for an import.
pub open spec fn is_settled_by(
    disk: Disk,
    known: ModuleMap,
    blamed: Set<Seq<char>>,
    canonical: Seq<char>,
    path: PathView,
) -> bool {
    &&& (disk.canonical)(path.path) == Some(canonical)
    &&& (disk.text)(path.path) matches Some(text)
    &&& match (known[canonical], crate::loading::module_source(path, text)) {
        (Ok(module), Ok(source)) => {
            let lines = crate::rewrite::source_lines(source);
            &&& module.script == crate::rewrite::script_of(lines)
            &&& import_targets(disk, path.path, lines, 0) == Some(module.deps)
            &&& imports_are_ready(disk, known, path.path, lines, 0)
        },
        (Ok(_), Err(_)) => false,
        (Err(reason), Err(message)) => reason == path.display + ": "@ + message,
        (Err(reason), Ok(source)) => exists|i: int| #[trigger]
            stops_at(
                disk,
                known,
                blamed,
                path,
                crate::rewrite::source_lines(source),
                0,
                reason,
                i,
            ),
    }
}

/// Whether what is known of a module is what its file and its imports come to.
pub open spec fn is_settled(
    disk: Disk,
    known: ModuleMap,
    blamed: Set<Seq<char>>,
    canonical: Seq<char>,
) -> bool {
    &&& known.contains_key(canonical)
    &&& exists|path: PathView| #[trigger] is_settled_by(disk, known, blamed, canonical, path)
}

/// Whether what was ready stays ready, and what could not be had stays so, but for `blamed`.
spec fn lasts(disk: Disk, a: ModuleMap, b: ModuleMap, blamed: Set<Seq<char>>) -> bool {
    &&& forall|c: Seq<char>| #[trigger]
        crate::resolver::is_ready(a, c) ==> crate::resolver::is_ready(b, c)
    &&& forall|c: Seq<char>|
        a.contains_key(c) && (#[trigger] a[c]) is Err && !blamed.contains(c) ==> b.contains_key(c)
            && b[c] is Err
    &&& forall|c: Seq<char>|
        !blamed.contains(c) && (#[trigger] (disk.text)(c)) is None && !crate::resolver::is_ready(
            a,
            c,
        ) ==> !crate::resolver::is_ready(b, c)
}

proof fn lemma_settled_lasts(
    disk: Disk,
    a: ModuleMap,
    b: ModuleMap,
    blamed: Set<Seq<char>>,
    canonical: Seq<char>,
)
    requires
        disk.resolves_to_canonical(),
        is_settled(disk, a, blamed, canonical),
        same_at(a, b, canonical),
        lasts(disk, a, b, blamed),
    ensures
        is_settled(disk, b, blamed, canonical),
{
    let path = choose|path: PathView| #[trigger] is_settled_by(disk, a, blamed, canonical, path);
    let text = (disk.text)(path.path)->0;
    match (a[canonical], crate::loading::module_source(path, text)) {
        (Ok(_), Ok(source)) => {
            let lines = crate::rewrite::source_lines(source);
            lemma_ready_lasts(disk, a, b, blamed, path.path, lines, lines.len() as int);
        },
        (Err(reason), Ok(source)) => {
            let lines = crate::rewrite::source_lines(source);
            let i = choose|i: int| #[trigger]
                stops_at(disk, a, blamed, path, lines, 0, reason, i);
            lemma_stuck_lasts(disk, a, b, blamed, path.path, lines[i]->Import_0);
            lemma_ready_lasts(disk, a, b, blamed, path.path, lines, i);
            assert(stops_at(disk, b, blamed, path, lines, 0, reason, i));
        },
        _ => {},
    }
    assert(is_settled_by(disk, b, blamed, canonical, path));
}

proof fn lemma_stuck_lasts(
    disk: Disk,
    a: ModuleMap,
    b: ModuleMap,
    blamed: Set<Seq<char>>,
    from: Seq<char>,
    specifier: Seq<char>,
)
    requires
        disk.resolves_to_canonical(),
        is_stuck(disk, a, blamed, from, specifier),
        lasts(disk, a, b, blamed),
    ensures
        is_stuck(disk, b, blamed, from, specifier),
{
    if let Some(dependency) = (disk.target)(from, specifier) {
        if let Some(canonical) = (disk.canonical)(dependency.path) {
            assert(canonical == dependency.path);
            if !blamed.contains(canonical) {
                if a.contains_key(canonical) && a[canonical] is Err {
                    assert(b[canonical] is Err);
                } else {
                    assert((disk.text)(canonical) is None);
                }
            }
        }
    }
}

proof fn lemma_ready_lasts(
    disk: Disk,
    a: ModuleMap,
    b: ModuleMap,
    blamed: Set<Seq<char>>,
    from: Seq<char>,
    lines: Seq<crate::rewrite::LineView>,
    end: int,
)
    requires
        lasts(disk, a, b, blamed),
        forall|j: int|
            0 <= j < end && (#[trigger] lines[j]) is Import ==> import_is_ready(
                disk,
                a,
                from,
                lines[j]->Import_0,
            ),
    ensures
        forall|j: int|
            0 <= j < end && (#[trigger] lines[j]) is Import ==> import_is_ready(
                disk,
                b,
                from,
                lines[j]->Import_0,
            ),
{
    assert forall|j: int|
        0 <= j < end && (#[trigger] lines[j]) is Import implies import_is_ready(
        disk,
        b,
        from,
        lines[j]->Import_0,
    ) by {
        let dependency = (disk.target)(from, lines[j]->Import_0)->0;
        let canonical = (disk.canonical)(dependency.path)->0;
        assert(crate::resolver::is_ready(a, canonical));
    }
}

/// A module that is known and not ready need not be blamed.
proof fn lemma_blame_less(
    disk: Disk,
    known: ModuleMap,
    blamed: Set<Seq<char>>,
    own: Seq<char>,
    canonical: Seq<char>,
)
    requires
        is_settled(disk, known, blamed.insert(own), canonical),
        known[canonical] is Ok || known.contains_key(own) && known[own] is Err,
    ensures
        is_settled(disk, known, blamed, canonical),
{
    let more = blamed.insert(own);
    let path = choose|path: PathView| #[trigger] is_settled_by(disk, known, more, canonical, path);
    let text = (disk.text)(path.path)->0;
    if let (Err(reason), Ok(source)) = (
        known[canonical],
        crate::loading::module_source(path, text),
    ) {
        let lines = crate::rewrite::source_lines(source);
        let i = choose|i: int| #[trigger] stops_at(disk, known, more, path, lines, 0, reason, i);
        assert(stops_at(disk, known, blamed, path, lines, 0, reason, i));
    }
    assert(is_settled_by(disk, known, blamed, canonical, path));
}

/// Who may be blamed for what a load leaves not ready.
spec fn blamed_in(disk: Disk, waiting: Waiting, path: PathView, lenient: bool) -> Set<Seq<char>> {
    match (disk.canonical)(path.path) {
        Some(canonical) if lenient => waiting.dom().insert(canonical),
        _ => waiting.dom(),
    }
}

proof fn lemma_load_settles(
    disk: Disk,
    m: ModuleMap,
    waiting: Waiting,
    path: PathView,
    lenient: bool,
)
    requires
        disk.is_finite(),
        disk.resolves_to_canonical(),
    ensures
        ({
            let end = load_module(disk, m, waiting, path, lenient);
            &&& forall|k: Seq<char>|
                !same_at(m, end.known, k) && !(lenient && (disk.canonical)(path.path) == Some(k))
                    ==> #[trigger] is_settled(
                    disk,
                    end.known,
                    blamed_in(disk, waiting, path, lenient),
                    k,
                )
            &&& !lenient && end.outcome == Ok::<bool, LoadErrorView>(true) ==> forall|k: Seq<char>|
                end.known.contains_key(k) && (#[trigger] end.known[k]) is Err ==> same_at(
                    m,
                    end.known,
                    k,
                )
        }),
    decreases unwaited(disk, waiting.dom()), 0int,
{
    if let Some(canonical) = (disk.canonical)(path.path) {
        if !crate::resolver::is_ready(m, canonical) && !waiting.contains_key(canonical) && !(
        m.contains_key(canonical) && !lenient) {
            if let Some(text) = (disk.text)(path.path) {
                let end = load_module(disk, m, waiting, path, lenient);
                let blamed = blamed_in(disk, waiting, path, lenient);
                match crate::loading::module_source(path, text) {
                    Err(message) => {
                        if !lenient {
                            assert(is_settled_by(disk, end.known, blamed, canonical, path));
                            assert forall|k: Seq<char>|
                                !same_at(m, end.known, k) implies #[trigger] is_settled(
                                disk,
                                end.known,
                                blamed,
                                k,
                            ) by {
                                assert(k == canonical);
                            }
                        }
                    },
                    Ok(source) => {
                        let scan = crate::loading::new_scan(lenient, path, canonical, source);
                        let lines = crate::rewrite::source_lines(source);
                        let more = waiting.dom().insert(canonical);
                        lemma_unwaited(disk, waiting.dom(), canonical);
                        lemma_scan_settles(disk, m, waiting, scan);
                        lemma_scan_keeps(disk, m, waiting, scan);
                        if !lenient {
                            lemma_scan_ready(disk, m, waiting, scan);
                            if end.outcome == Ok::<bool, LoadErrorView>(true) {
                                lemma_scan_contents(disk, m, waiting, scan);
                                let targets = import_targets(disk, path.path, lines, 0)->0;
                                assert(Seq::<Seq<char>>::empty() + targets == targets);
                                assert(is_settled_by(disk, end.known, more, canonical, path));
                            } else {
                                let reason = end.known[canonical]->Err_0;
                                let i = choose|i: int| #[trigger]
                                    stops_at(disk, end.known, more, path, lines, 0, reason, i);
                                assert(stops_at(disk, end.known, more, path, lines, 0, reason, i));
                                assert(is_settled_by(disk, end.known, more, canonical, path));
                            }
                            assert(is_settled(disk, end.known, more, canonical));
                            assert forall|k: Seq<char>|
                                !same_at(m, end.known, k) implies #[trigger] is_settled(
                                disk,
                                end.known,
                                blamed,
                                k,
                            ) by {
                                assert(is_settled(disk, end.known, more, k));
                                lemma_blame_less(
                                    disk,
                                    end.known,
                                    waiting.dom(),
                                    canonical,
                                    k,
                                );
                            }
                        }
                    },
                }
            }
        }
    }
}

proof fn lemma_scan_settles(disk: Disk, m: ModuleMap, waiting: Waiting, scan: ScanView)
    requires
        disk.is_finite(),
        disk.resolves_to_canonical(),
        !crate::resolver::is_ready(m, scan.canonical),
    ensures
        ({
            let end = scan_module(disk, m, waiting, scan);
            let blamed = waiting.dom().insert(scan.canonical);
            &&& forall|k: Seq<char>|
                !same_at(m, end.known, k) && k != scan.canonical ==> #[trigger] is_settled(
                    disk,
                    end.known,
                    blamed,
                    k,
                )
            &&& !scan.lenient && end.outcome == Ok::<bool, LoadErrorView>(true) ==> forall|
                k: Seq<char>,
            |
                end.known.contains_key(k) && (#[trigger] end.known[k]) is Err ==> same_at(
                    m,
                    end.known,
                    k,
                )
            &&& !scan.lenient && end.outcome == Ok::<bool, LoadErrorView>(false) ==> exists|i: int|
                #[trigger] stops_at(
                    disk,
                    end.known,
                    blamed,
                    scan.path,
                    scan.lines,
                    scan.next,
                    end.known[scan.canonical]->Err_0,
                    i,
                )
        }),
    decreases
            unwaited(disk, waiting.dom().insert(scan.canonical)),
            1 + scan.lines.len() - scan.next,
{
    crate::rewrite::lemma_next_import(scan.lines, scan.next);
    let stop = scan.at_import();
    let own = scan.canonical;
    let end = scan_module(disk, m, waiting, scan);
    let blamed = waiting.dom().insert(own);
    let from = scan.path.path;
    if stop.next < scan.lines.len() {
        let specifier = stop.specifier();
        let here: int = stop.next as int;
        assert(scan.lines[here] == crate::rewrite::LineView::Import(specifier));
        match (disk.target)(from, specifier) {
            None => {
                if scan.lenient {
                    lemma_scan_settles(
                        disk,
                        m,
                        waiting,
                        stop.passed_over(stop.unresolved_fault()),
                    );
                } else {
                    let reason = end.known[own]->Err_0;
                    lemma_reason_prefix(stop, stop.unresolved_fault());
                    lemma_unresolved_prefix(stop);
                    assert(stops_at(
                        disk,
                        end.known,
                        blamed,
                        scan.path,
                        scan.lines,
                        scan.next,
                        reason,
                        here,
                    ));
                }
            },
            Some(dependency) => {
                let inside = waiting.insert(own, scan.passed);
                let inner = load_module(disk, m, inside, dependency, false);
                let fault = fault_of(disk, m, inside, stop, dependency, inner.known);
                lemma_load_settles(disk, m, inside, dependency, false);
                lemma_load_keeps(disk, m, inside, dependency, false);
                assert(inside.dom() == blamed);
                assert(blamed_in(disk, inside, dependency, false) == blamed);
                assert(same_at(m, inner.known, own));
                let ready = inner.outcome == Ok::<bool, LoadErrorView>(true);
                let next = if ready {
                    stop.depending_on(dependency.path)
                } else {
                    stop.passed_over(fault)
                };
                if ready || scan.lenient {
                    lemma_scan_settles(disk, inner.known, waiting, next);
                    lemma_scan_keeps(disk, inner.known, waiting, next);
                    assert(lasts(disk, inner.known, end.known, blamed)) by {
                        assert forall|c: Seq<char>| #[trigger]
                            crate::resolver::is_ready(
                                inner.known,
                                c,
                            ) implies crate::resolver::is_ready(end.known, c) by {
                            assert(same_at(inner.known, end.known, c));
                        }
                        assert forall|c: Seq<char>|
                            inner.known.contains_key(c) && (#[trigger] inner.known[c]) is Err
                                && !blamed.contains(c) implies end.known.contains_key(c)
                            && end.known[c] is Err by {
                            assert(same_at(inner.known, end.known, c));
                        }
                        assert forall|c: Seq<char>|
                            !blamed.contains(c) && (#[trigger] (disk.text)(c)) is None
                                && !crate::resolver::is_ready(
                                inner.known,
                                c,
                            ) implies !crate::resolver::is_ready(end.known, c) by {
                            lemma_scan_unreadable(disk, inner.known, waiting, next, c);
                        }
                    }
                } else {
                    assert(lasts(disk, inner.known, end.known, blamed));
                }
                assert forall|k: Seq<char>|
                    !same_at(m, end.known, k) && k != own implies #[trigger] is_settled(
                    disk,
                    end.known,
                    blamed,
                    k,
                ) by {
                    if !same_at(m, inner.known, k) {
                        assert(is_settled(disk, inner.known, blamed, k));
                        assert(same_at(inner.known, end.known, k));
                        lemma_settled_lasts(disk, inner.known, end.known, blamed, k);
                    } else {
                        assert(!same_at(inner.known, end.known, k));
                        assert(is_settled(disk, end.known, blamed, k));
                    }
                }
                if ready && !scan.lenient {
                    let canonical = (disk.canonical)(dependency.path)->0;
                    assert(same_at(inner.known, end.known, canonical));
                    assert(import_is_ready(disk, end.known, from, specifier));
                    if end.outcome == Ok::<bool, LoadErrorView>(true) {
                        assert forall|k: Seq<char>|
                            end.known.contains_key(k) && (#[trigger] end.known[k]) is Err implies
                            same_at(m, end.known, k) by {
                            assert(same_at(inner.known, end.known, k));
                            assert(inner.known[k] is Err);
                            assert(same_at(m, inner.known, k));
                        }
                    } else {
                        let reason = end.known[own]->Err_0;
                        let i = choose|i: int| #[trigger]
                            stops_at(
                                disk,
                                end.known,
                                blamed,
                                next.path,
                                next.lines,
                                next.next,
                                reason,
                                i,
                            );
                        assert(stops_at(
                            disk,
                            end.known,
                            blamed,
                            scan.path,
                            scan.lines,
                            scan.next,
                            reason,
                            i,
                        ));
                    }
                } else if !scan.lenient {
                    let reason = end.known[own]->Err_0;
                    lemma_reason_prefix(stop, fault);
                    lemma_fault_prefix(disk, m, inside, stop, dependency, inner.known);
                    assert(is_stuck(disk, end.known, blamed, from, specifier)) by {
                        if let Some(canonical) = (disk.canonical)(dependency.path) {
                            if !blamed.contains(canonical) && inner.outcome is Err {
                                lemma_nested_failure(disk, m, inside, dependency);
                            }
                        }
                    }
                    assert(stops_at(
                        disk,
                        end.known,
                        blamed,
                        scan.path,
                        scan.lines,
                        scan.next,
                        reason,
                        here,
                    ));
                }
            },
        }
    }
}

proof fn lemma_reason_prefix(stop: ScanView, fault: Seq<char>)
    ensures
        (stop.place() + ": "@).is_prefix_of(fault) ==> (stop.path.display + ":"@
            + crate::text::decimal((stop.next + 1) as nat) + ": "@).is_prefix_of(
            stop.reason(fault),
        ),
{
    let front = stop.place() + ": "@;
    if front.is_prefix_of(fault) {
        let whole = stop.path.display + ":"@ + crate::text::decimal((stop.next + 1) as nat)
            + ": "@;
        assert(whole == stop.path.display + front);
        assert(stop.reason(fault).subrange(0, whole.len() as int) == whole) by {
            assert forall|i: int| 0 <= i < whole.len() implies stop.reason(fault).subrange(
                0,
                whole.len() as int,
            )[i] == whole[i] by {
                let n: int = stop.path.display.len() as int;
                if i >= n {
                    assert(fault.subrange(0, front.len() as int)[i - n] == front[i - n]);
                }
            }
        }
    }
}

proof fn lemma_unresolved_prefix(stop: ScanView)
    ensures
        (stop.place() + ": "@).is_prefix_of(stop.unresolved_fault()),
{
    reveal_strlit(": ");
    reveal_strlit(": cannot resolve '");
    let front = stop.place() + ": "@;
    assert(stop.unresolved_fault().subrange(0, front.len() as int) == front);
}

proof fn lemma_fault_prefix(
    disk: Disk,
    m: ModuleMap,
    waiting: Waiting,
    stop: ScanView,
    dependency: PathView,
    after: ModuleMap,
)
    ensures
        (stop.place() + ": "@).is_prefix_of(
            fault_of(disk, m, waiting, stop, dependency, after),
        ),
{
    reveal_strlit(": ");
    reveal_strlit(": circular import of '");
    let front = stop.place() + ": "@;
    let fault = fault_of(disk, m, waiting, stop, dependency, after);
    assert(fault.subrange(0, front.len() as int) == front);
}

/// What a load learns of any module, however far from the one asked for, is what the module's file
/// and its imports come to, as if the module were asked for. Only a module that is loaded leniently
/// passes over imports; another that imports it while it is being loaded cannot be had for that.
pub proof fn law_every_module_is_settled(
    disk: Disk,
    m: ModuleMap,
    path: PathView,
    lenient: bool,
    canonical: Seq<char>,
    other: Seq<char>,
)
    requires
        disk.is_finite(),
        disk.resolves_to_canonical(),
        (disk.canonical)(path.path) == Some(canonical),
        !same_at(m, loaded(disk, m, path, lenient).known, other),
        !(lenient && other == canonical),
    ensures
        is_settled(
            disk,
            loaded(disk, m, path, lenient).known,
            if lenient {
                set![canonical]
            } else {
                Set::empty()
            },
            other,
        ),
{
    lemma_load_settles(disk, m, Map::empty(), path, lenient);
    let blamed = blamed_in(disk, Map::empty(), path, lenient);
    let dom = Map::<Seq<char>, Option<Seq<char>>>::empty().dom();
    assert(dom == Set::<Seq<char>>::empty());
    if lenient {
        assert(blamed == set![canonical]);
    } else {
        assert(blamed == Set::<Seq<char>>::empty());
    }
    assert(is_settled(disk, loaded(disk, m, path, lenient).known, blamed, other));
}

} // verus!
