//! The modules that have been loaded, and the order in which a module and what it depends on are
//! evaluated.

use vstd::hash_map::StringHashMap;
use vstd::hash_set::StringHashSet;
use vstd::prelude::*;
use vstd::string::*;

verus! {

/// A module that is ready for the script engine.
#[derive(Debug)]
pub struct LoadedModule {
    /// The script of the module.
    pub script: String,
    /// The canonical paths of the modules that it imports, in the order of the imports.
    pub deps: Vec<String>,
}

/// A loaded module, as the contracts see it.
pub struct ModuleView {
    /// The script of the module.
    pub script: Seq<char>,
    /// The canonical paths of the modules that it imports.
    pub deps: Seq<Seq<char>>,
}

/// What is known of each module, by its canonical path: the module, or why the script engine
/// cannot have it.
pub type ModuleMap = Map<Seq<char>, Result<ModuleView, Seq<char>>>;

impl View for LoadedModule {
    type V = ModuleView;

    open spec fn view(&self) -> ModuleView {
        ModuleView { script: self.script@, deps: crate::text::texts(self.deps@) }
    }
}

/// The contents of what is known of a module.
pub open spec fn entry_view(entry: Result<LoadedModule, String>) -> Result<ModuleView, Seq<char>> {
    match entry {
        Ok(module) => Ok(module@),
        Err(reason) => Err(reason@),
    }
}

/// Whether a module is ready for the script engine.
pub open spec fn is_ready(m: ModuleMap, path: Seq<char>) -> bool {
    m.contains_key(path) && m[path] is Ok
}

/// The dependencies of a module; none where it is not ready.
pub open spec fn deps_of(m: ModuleMap, path: Seq<char>) -> Seq<Seq<char>> {
    if is_ready(m, path) {
        m[path]->Ok_0.deps
    } else {
        Seq::empty()
    }
}

/// Whether the dependencies of every ready module are ready, and a rank falls from each module
/// to its dependencies.
pub open spec fn is_ranked(m: ModuleMap, rank: spec_fn(Seq<char>) -> nat) -> bool {
    forall|path: Seq<char>, i: int|
        #![trigger deps_of(m, path)[i]]
        0 <= i < deps_of(m, path).len() ==> is_ready(m, deps_of(m, path)[i]) && rank(
            deps_of(m, path)[i],
        ) < rank(path)
}

/// Whether the dependencies of every ready module are ready, and no module depends on itself,
/// not even by way of others.
pub open spec fn is_sound(m: ModuleMap) -> bool {
    exists|rank: spec_fn(Seq<char>) -> nat| is_ranked(m, rank)
}

/// How many of the known modules have not been visited.
pub open spec fn unvisited(m: ModuleMap, visited: Set<Seq<char>>) -> nat {
    m.dom().difference(visited).len()
}

/// Visits a module and what it depends on, depth first. A module that has not been visited is
/// marked, then come its dependencies in their order, then the module itself is appended.
pub open spec fn visit(
    m: ModuleMap,
    path: Seq<char>,
    visited: Set<Seq<char>>,
    order: Seq<Seq<char>>,
) -> (Set<Seq<char>>, Seq<Seq<char>>)
    decreases unvisited(m, visited), 0nat,
    when m.dom().finite()
{
    if visited.contains(path) {
        (visited, order)
    } else if is_ready(m, path) {
        proof {
            assert(m.dom().difference(visited.insert(path)) == m.dom().difference(visited).remove(
                path,
            ));
        }
        let (seen, done) = visit_all(m, deps_of(m, path), visited.insert(path), order);
        (seen, done.push(path))
    } else {
        (visited.insert(path), order.push(path))
    }
}

/// Visits each module of a list in turn. (What has been visited stays so; the test on it only
/// shows that the recursion ends.)
pub open spec fn visit_all(
    m: ModuleMap,
    paths: Seq<Seq<char>>,
    visited: Set<Seq<char>>,
    order: Seq<Seq<char>>,
) -> (Set<Seq<char>>, Seq<Seq<char>>)
    decreases unvisited(m, visited), paths.len(),
    when m.dom().finite()
{
    if paths.len() == 0 {
        (visited, order)
    } else {
        let (seen, done) = visit(m, paths.first(), visited, order);
        if visited.subset_of(seen) {
            proof {
                vstd::set_lib::lemma_len_subset(
                    m.dom().difference(seen),
                    m.dom().difference(visited),
                );
            }
            visit_all(m, paths.drop_first(), seen, done)
        } else {
            (seen, done)
        }
    }
}

/// The contents of a path that may be missing.
pub open spec fn optional_path(path: Option<&str>) -> Option<Seq<char>> {
    match path {
        Some(path) => Some(path@),
        None => None,
    }
}

/// Why a module cannot be had.
pub open spec fn unavailable_reason(m: ModuleMap, canonical: Option<Seq<char>>) -> Seq<char> {
    match canonical {
        Some(path) => if m.contains_key(path) && m[path] is Err {
            m[path]->Err_0
        } else {
            "unresolvable dependency"@
        },
        None => "unresolvable dependency"@,
    }
}

/// The order in which a module and what it depends on are evaluated.
pub open spec fn evaluation_order(m: ModuleMap, path: Seq<char>) -> Seq<Seq<char>> {
    visit(m, path, Set::empty(), Seq::empty()).1
}

/// Resolves modules and keeps what was learned of each.
///
/// Each module is kept as a script in which exports are `var` declarations, so that they stay
/// visible as globals to the scripts that are evaluated later. Import lines are taken out of the
/// script; the modules that they name are evaluated first.
///
/// A module that could not be had, or one of whose dependencies could not be had, is kept with
/// the reason, so that callers can turn to another way of running it.
pub struct ModuleResolver {
    modules: StringHashMap<Result<LoadedModule, String>>,
}

impl View for ModuleResolver {
    type V = ModuleMap;

    closed spec fn view(&self) -> ModuleMap {
        self.modules@.map_values(|entry: Result<LoadedModule, String>| entry_view(entry))
    }
}

impl Default for ModuleResolver {
    fn default() -> (r: Self)
        ensures
            r@ == ModuleMap::empty(),
            r.well_formed(),
    {
        let r = ModuleResolver { modules: StringHashMap::new() };
        assert(r@ == ModuleMap::empty());
        r
    }
}

impl ModuleResolver {
    /// Only so many modules are known.
    pub closed spec fn well_formed(&self) -> bool {
        self.modules@.dom().finite()
    }

    /// The modules of a well-formed resolver are finite in number.
    pub proof fn lemma_finite(&self)
        requires
            self.well_formed(),
        ensures
            self@.dom().finite(),
    {
        assert(self@.dom() == self.modules@.dom());
    }

    /// What is known of a module.
    pub(crate) fn entry(&self, canonical: &str) -> (r: Option<&Result<LoadedModule, String>>)
        ensures
            match r {
                Some(entry) => self@.contains_key(canonical@) && self@[canonical@] == entry_view(
                    *entry,
                ),
                None => !self@.contains_key(canonical@),
            },
    {
        self.modules.get(canonical)
    }

    /// Keeps what was learned of a module, in place of what was known of it.
    pub(crate) fn record(&mut self, canonical: String, entry: Result<LoadedModule, String>)
        requires
            old(self).well_formed(),
        ensures
            final(self).well_formed(),
            final(self)@ == old(self)@.insert(canonical@, entry_view(entry)),
    {
        self.modules.insert(canonical, entry);
        assert(self@ == old(self)@.insert(canonical@, entry_view(entry)));
    }

    /// The script of a module that is ready, by its canonical path.
    pub fn get_preprocessed_script(&self, canonical: &str) -> (r: Option<&str>)
        ensures
            match r {
                Some(script) => is_ready(self@, canonical@) && script@
                    == self@[canonical@]->Ok_0.script,
                None => !is_ready(self@, canonical@),
            },
            match r {
                Some(script) => self@.contains_key(canonical@) && self@[canonical@] is Ok
                    && script@ == self@[canonical@]->Ok_0.script,
                None => !self@.contains_key(canonical@) || self@[canonical@] is Err,
            },
    {
        match self.entry(canonical) {
            Some(Ok(module)) => Some(module.script.as_str()),
            _ => None,
        }
    }

    /// Why a module cannot be had, by its canonical path, where it has one.
    pub fn na_reason(&self, canonical: Option<&str>) -> (r: &str)
        ensures
            r@ == unavailable_reason(self@, optional_path(canonical)),
    {
        match canonical {
            Some(path) => match self.entry(path) {
                Some(Err(reason)) => reason.as_str(),
                _ => "unresolvable dependency",
            },
            None => "unresolvable dependency",
        }
    }

    /// Appends a module and what it depends on to the evaluation order, dependencies first, and
    /// leaves out what has been visited.
    pub fn collect_ordered(
        &self,
        canonical: &String,
        visited: &mut StringHashSet,
        order: &mut Vec<String>,
    )
        requires
            self.well_formed(),
        ensures
            (final(visited)@, crate::text::texts(final(order)@)) == visit(
                self@,
                canonical@,
                old(visited)@,
                crate::text::texts(old(order)@),
            ),
        decreases unvisited(self@, old(visited)@),
    {
        proof {
            self.lemma_finite();
        }
        if visited.contains(canonical.as_str()) {
            return;
        }
        let ghost marked = visited@.insert(canonical@);
        let ghost start = crate::text::texts(order@);
        visited.insert(canonical.clone());
        if let Some(Ok(module)) = self.entry(canonical.as_str()) {
            let ghost deps = deps_of(self@, canonical@);
            assert(deps == crate::text::texts(module.deps@));
            assert(self@.dom().difference(marked) == self@.dom().difference(
                old(visited)@,
            ).remove(canonical@));
            assert(deps.skip(0) == deps);
            for i in 0..module.deps.len()
                invariant
                    self.well_formed(),
                    self@.dom().finite(),
                    deps == crate::text::texts(module.deps@),
                    unvisited(self@, marked) < unvisited(self@, old(visited)@),
                    marked.subset_of(visited@),
                    visit_all(self@, deps, marked, start) == visit_all(
                        self@,
                        deps.skip(i as int),
                        visited@,
                        crate::text::texts(order@),
                    ),
            {
                proof {
                    vstd::set_lib::lemma_len_subset(
                        self@.dom().difference(visited@),
                        self@.dom().difference(marked),
                    );
                    crate::order::lemma_visit_grows(
                        self@,
                        deps[i as int],
                        visited@,
                        crate::text::texts(order@),
                    );
                    assert(deps.skip(i as int).first() == deps[i as int]);
                    assert(deps.skip(i as int).drop_first() == deps.skip(i + 1));
                }
                self.collect_ordered(&module.deps[i], visited, order);
            }
            assert(deps.skip(deps.len() as int) == Seq::<Seq<char>>::empty());
        }
        let ghost before = order@;
        order.push(canonical.clone());
        assert(crate::text::texts(order@) == crate::text::texts(before).push(canonical@));
    }
}

/// A module is ready if it is known and was not refused; its dependencies are those that are kept
/// with it.
pub proof fn law_ready_modules(m: ModuleMap, path: Seq<char>)
    ensures
        is_ready(m, path) <==> m.contains_key(path) && m[path] is Ok,
        m.contains_key(path) && m[path] is Ok ==> deps_of(m, path) == m[path]->Ok_0.deps,
        !m.contains_key(path) || m[path] is Err ==> deps_of(m, path) == Seq::<Seq<char>>::empty(),
{
}

/// Why a module cannot be had is the reason that is kept with it; a module without one has an
/// unresolvable dependency.
pub proof fn law_unavailable_reason(m: ModuleMap, path: Seq<char>)
    ensures
        m.contains_key(path) && m[path] is Err ==> unavailable_reason(m, Some(path))
            == m[path]->Err_0,
        !m.contains_key(path) || m[path] is Ok ==> unavailable_reason(m, Some(path))
            == "unresolvable dependency"@,
        unavailable_reason(m, None) == "unresolvable dependency"@,
{
}

/// What the contracts see of a module is what is kept of it.
pub proof fn law_module_view(module: LoadedModule, reason: String)
    ensures
        module@.script == module.script@,
        module@.deps.len() == module.deps@.len(),
        forall|i: int|
            0 <= i < module.deps@.len() ==> #[trigger] module@.deps[i] == module.deps@[i]@,
        entry_view(Ok(module)) == Ok::<ModuleView, Seq<char>>(module@),
        entry_view(Err(reason)) == Err::<ModuleView, Seq<char>>(reason@),
{
}

} // verus!
