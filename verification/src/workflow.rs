//! Evaluates loaded modules, each after what it depends on, and runs workflows.

use vstd::hash_set::StringHashSet;
use vstd::prelude::*;
use vstd::string::*;

use crate::engine::{run_scripts, BuildRun, Engine, Script, ScriptView};
use crate::error::{ExecuteError, ExecuteErrorView};
use crate::quickjs::{Log, LogView};
use crate::resolver::{ModuleMap, ModuleResolver};

verus! {

broadcast use vstd::seq_lib::group_seq_properties;

/// The script of a module that is ready.
pub open spec fn script_at(m: ModuleMap, path: Seq<char>) -> ScriptView {
    ScriptView { module: Some(path), text: m[path]->Ok_0.script }
}

/// The scripts of the modules of a list that are ready, in their order.
pub open spec fn ready_scripts(m: ModuleMap, order: Seq<Seq<char>>) -> Seq<ScriptView>
    decreases order.len(),
{
    if order.len() == 0 {
        Seq::empty()
    } else if crate::resolver::is_ready(m, order.last()) {
        ready_scripts(m, order.drop_last()).push(script_at(m, order.last()))
    } else {
        ready_scripts(m, order.drop_last())
    }
}

/// The scripts to evaluate for a module, in their order: those of its dependencies, then its own.
pub open spec fn evaluation_plan_of(m: ModuleMap, canonical: Seq<char>) -> Seq<ScriptView> {
    ready_scripts(m, crate::resolver::evaluation_order(m, canonical))
}

/// Why a module cannot be evaluated, where it cannot.
pub open spec fn module_error(m: ModuleMap, canonical: Seq<char>, display: Seq<char>) -> Option<
    ExecuteErrorView,
> {
    if !m.contains_key(canonical) {
        Some(ExecuteErrorView::NotLoaded { display })
    } else {
        match m[canonical] {
            Ok(_) => None,
            Err(reason) => Some(ExecuteErrorView::NotAvailable { display, reason }),
        }
    }
}

impl ModuleResolver {
    /// The scripts to evaluate for a module, dependencies first. `canonical` is the canonical
    /// path of the module, `display` how messages show its path.
    pub fn evaluation_plan(&self, canonical: &str, display: &str) -> (r: Result<
        Vec<Script>,
        ExecuteError,
    >)
        requires
            self.well_formed(),
        ensures
            match r {
                Ok(plan) => {
                    &&& module_error(self@, canonical@, display@) is None
                    &&& crate::engine::script_views(plan@) == evaluation_plan_of(
                        self@,
                        canonical@,
                    )
                },
                Err(error) => module_error(self@, canonical@, display@) == Some(error@),
            },
            r is Ok <==> self@.contains_key(canonical@) && self@[canonical@] is Ok,
            r matches Ok(plan) ==> {
                &&& plan@.len() > 0
                &&& plan@.last().module matches Some(last)
                &&& last@ == canonical@
                &&& forall|i: int|
                    0 <= i < plan@.len() ==> {
                        &&& (#[trigger] plan@[i]).module matches Some(path)
                        &&& self@.contains_key(path@)
                        &&& self@[path@] is Ok
                        &&& plan@[i].text@ == self@[path@]->Ok_0.script
                    }
            },
    {
        match self.entry(canonical) {
            None => {
                return Err(ExecuteError::NotLoaded { display: display.to_owned() });
            },
            Some(Err(reason)) => {
                return Err(
                    ExecuteError::NotAvailable {
                        display: display.to_owned(),
                        reason: reason.clone(),
                    },
                );
            },
            Some(Ok(_)) => {},
        }
        let mut visited = StringHashSet::new();
        let mut order: Vec<String> = Vec::new();
        assert(crate::text::texts(order@) == Seq::<Seq<char>>::empty());
        self.collect_ordered(&canonical.to_owned(), &mut visited, &mut order);
        let ghost paths = crate::text::texts(order@);
        let mut plan: Vec<Script> = Vec::new();
        assert(crate::engine::script_views(plan@) == ready_scripts(self@, paths.take(0)));
        for i in 0..order.len()
            invariant
                paths == crate::text::texts(order@),
                crate::engine::script_views(plan@) == ready_scripts(self@, paths.take(i as int)),
        {
            let ghost before = plan@;
            assert(paths.take(i + 1).drop_last() == paths.take(i as int));
            assert(paths.take(i + 1).last() == order@[i as int]@);
            if let Some(Ok(module)) = self.entry(order[i].as_str()) {
                plan.push(
                    Script { module: Some(order[i].clone()), text: module.script.clone() },
                );
                assert(crate::engine::script_views(plan@) == crate::engine::script_views(
                    before,
                ).push(script_at(self@, order@[i as int]@)));
            }
        }
        assert(paths.take(paths.len() as int) == paths);
        proof {
            let views = crate::engine::script_views(plan@);
            self.lemma_finite();
            law_plan_holds_kept_scripts(self@, canonical@);
            assert(views.len() == plan@.len());
            assert(views.last() == plan@.last()@);
            assert forall|i: int| 0 <= i < plan@.len() implies {
                &&& (#[trigger] plan@[i]).module matches Some(path)
                &&& self@.contains_key(path@)
                &&& self@[path@] is Ok
                &&& plan@[i].text@ == self@[path@]->Ok_0.script
            } by {
                assert(views[i] == plan@[i]@);
            }
        }
        Ok(plan)
    }

    /// Evaluates a module and what it depends on, dependencies first, so that what a module
    /// exports is there when the modules that import it are evaluated.
    ///
    /// The caller prepares the engine's context: native functions and what else the scripts need.
    pub fn execute_module(
        &self,
        canonical: &str,
        display: &str,
        engine: &mut Engine<'_>,
    ) -> (r: Result<(), ExecuteError>)
        requires
            self.well_formed(),
        ensures
            match module_error(self@, canonical@, display@) {
                Some(error) => {
                    &&& r matches Err(e)
                    &&& e@ == error
                    &&& final(engine).log() == old(engine).log()
                },
                None => {
                    let steps = final(engine).log().steps.skip(
                        old(engine).log().steps.len() as int,
                    );
                    &&& crate::engine::goes_on(old(engine).log(), final(engine).log(), steps)
                    &&& crate::engine::runs(
                        evaluation_plan_of(self@, canonical@),
                        crate::engine::result_view(r),
                        steps,
                    )
                },
            },
    {
        match self.evaluation_plan(canonical, display) {
            Ok(plan) => engine.eval_all(&plan),
            Err(error) => Err(error),
        }
    }
}

/// Runs a workflow whose load has finished, in a context of its own, and collects what it builds.
/// A workflow that is not ready is refused, so that the caller can turn to another way of running
/// it.
///
/// `canonical` is the canonical path of the workflow, where it has one, and `display` how messages
/// show its path. The resolver can be shared by many workflows: what they have in common is loaded
/// once.
pub fn execute_workflow(
    resolver: &ModuleResolver,
    canonical: Option<&str>,
    display: &str,
) -> (r: BuildRun)
    requires
        resolver.well_formed(),
    ensures
        match canonical {
            Some(path) if crate::resolver::is_ready(resolver@, path@) => r.follows(
                evaluation_plan_of(resolver@, path@),
            ),
            _ => {
                &&& r.log@ == (LogView { steps: Seq::empty(), calls: Seq::empty() })
                &&& r.result matches Err(error)
                &&& error@ == (ExecuteErrorView::CannotProcess {
                    display: display@,
                    reason: crate::resolver::unavailable_reason(
                        resolver@,
                        crate::resolver::optional_path(canonical),
                    ),
                })
            },
        },
{
    if let Some(path) = canonical {
        if let Ok(plan) = resolver.evaluation_plan(path, display) {
            return run_scripts(&plan);
        }
    }
    BuildRun {
        result: Err(
            ExecuteError::CannotProcess {
                display: display.to_owned(),
                reason: resolver.na_reason(canonical).to_owned(),
            },
        ),
        log: Log::new(),
    }
}

/// Each script of a plan is the one that is kept for its module, whatever the module depends on,
/// and the last is that of the module asked for.
pub proof fn law_plan_holds_kept_scripts(m: ModuleMap, path: Seq<char>)
    requires
        m.dom().finite(),
        m.contains_key(path),
        m[path] is Ok,
    ensures
        ({
            let plan = evaluation_plan_of(m, path);
            &&& plan.len() > 0
            &&& plan.last().module == Some(path)
            &&& plan.last().text == m[path]->Ok_0.script
            &&& forall|i: int|
                0 <= i < plan.len() ==> {
                    &&& (#[trigger] plan[i]).module matches Some(p)
                    &&& m.contains_key(p)
                    &&& m[p] is Ok
                    &&& plan[i].text == m[p]->Ok_0.script
                }
        }),
{
    let order = crate::resolver::evaluation_order(m, path);
    assert(order.skip(0) == order);
    crate::order::law_each_module_once(m, path, Set::empty(), Seq::empty());
    assert(order.last() == path);
    lemma_ready_scripts(m, order);
}

proof fn lemma_ready_scripts(m: ModuleMap, order: Seq<Seq<char>>)
    ensures
        forall|i: int|
            0 <= i < ready_scripts(m, order).len() ==> {
                &&& (#[trigger] ready_scripts(m, order)[i]).module matches Some(p)
                &&& m.contains_key(p)
                &&& m[p] is Ok
                &&& ready_scripts(m, order)[i].text == m[p]->Ok_0.script
            },
    decreases order.len(),
{
    if order.len() > 0 {
        lemma_ready_scripts(m, order.drop_last());
        let front = ready_scripts(m, order.drop_last());
        let all = ready_scripts(m, order);
        assert forall|i: int| 0 <= i < all.len() implies {
            &&& (#[trigger] all[i]).module matches Some(p)
            &&& m.contains_key(p)
            &&& m[p] is Ok
            &&& all[i].text == m[p]->Ok_0.script
        } by {
            if i < front.len() {
                assert(all[i] == front[i]);
            }
        }
    }
}

/// A plan goes through the evaluation order and leaves out only what is not ready.
pub proof fn law_plan_follows_the_order(m: ModuleMap, order: Seq<Seq<char>>, next: Seq<char>)
    ensures
        ready_scripts(m, Seq::empty()) == Seq::<ScriptView>::empty(),
        m.contains_key(next) && m[next] is Ok ==> ready_scripts(m, order.push(next))
            == ready_scripts(m, order).push(
            (ScriptView { module: Some(next), text: m[next]->Ok_0.script }),
        ),
        !m.contains_key(next) || m[next] is Err ==> ready_scripts(m, order.push(next))
            == ready_scripts(m, order),
        evaluation_plan_of(m, next) == ready_scripts(
            m,
            crate::resolver::evaluation_order(m, next),
        ),
{
    assert(order.push(next).drop_last() == order);
}

/// A module that was not loaded, or was refused, cannot be evaluated, and every other can.
pub proof fn law_module_error(m: ModuleMap, path: Seq<char>, display: Seq<char>)
    ensures
        !m.contains_key(path) ==> module_error(m, path, display) == Some(
            ExecuteErrorView::NotLoaded { display },
        ),
        m.contains_key(path) && m[path] is Err ==> module_error(m, path, display) == Some(
            ExecuteErrorView::NotAvailable { display, reason: m[path]->Err_0 },
        ),
        m.contains_key(path) && m[path] is Ok ==> module_error(m, path, display) is None,
{
}

/// Whether an order holds a module and all that it depends on, each once, dependencies before the
/// modules that import them and the module itself last.
pub open spec fn is_full_order(m: ModuleMap, path: Seq<char>, order: Seq<Seq<char>>) -> bool {
    &&& order.no_duplicates()
    &&& crate::order::dependencies_first(m, Set::empty(), order)
    &&& order.len() > 0
    &&& order.last() == path
    &&& forall|other: Seq<char>| #[trigger]
        order.contains(other) <==> crate::order::depends_on(m, path, other)
}

/// A module that is ready is evaluated with all that it depends on, each once, dependencies
/// before the modules that import them and the module itself last.
pub proof fn law_plan_holds_every_dependency(m: ModuleMap, path: Seq<char>)
    requires
        m.dom().finite(),
        crate::resolver::is_sound(m),
        crate::resolver::is_ready(m, path),
    ensures
        is_full_order(m, path, crate::resolver::evaluation_order(m, path)),
        evaluation_plan_of(m, path) == crate::resolver::evaluation_order(m, path).map_values(
            |p: Seq<char>| script_at(m, p),
        ),
{
    let order = crate::resolver::evaluation_order(m, path);
    assert(order.skip(0) == order);
    crate::order::law_sound_is_acyclic(m, path);
    crate::order::law_each_module_once(m, path, Set::empty(), Seq::empty());
    crate::order::law_dependencies_first(m, path, Set::empty(), Seq::empty());
    assert forall|other: Seq<char>| #[trigger]
        order.contains(other) <==> crate::order::depends_on(m, path, other) by {
        crate::order::law_order_is_complete(m, path, Set::empty(), Seq::empty(), other);
    }
    assert forall|i: int| 0 <= i < order.len() implies crate::resolver::is_ready(
        m,
        #[trigger] order[i],
    ) by {
        assert(order.contains(order[i]));
        let n = choose|n: nat| crate::order::is_within(m, Set::empty(), path, order[i], n);
        lemma_dependency_is_ready(m, path, order[i], n);
    }
    lemma_all_ready(m, order);
}

/// A workflow without dependencies is evaluated as its own script is: the runs that succeed are the
/// same.
pub proof fn law_workflow_without_imports_is_its_script(
    m: ModuleMap,
    path: Seq<char>,
    run: BuildRun,
)
    requires
        m.dom().finite(),
        crate::resolver::is_ready(m, path),
        crate::resolver::deps_of(m, path).len() == 0,
        run.result is Ok,
    ensures
        run.follows(evaluation_plan_of(m, path)) <==> run.follows(
            seq![ScriptView { module: None, text: m[path]->Ok_0.script }],
        ),
{
    let alone = seq![ScriptView { module: None, text: m[path]->Ok_0.script }];
    reveal_with_fuel(crate::resolver::visit_all, 2);
    reveal_with_fuel(ready_scripts, 2);
    assert(crate::resolver::evaluation_order(m, path) == seq![path]);
    assert(seq![path].drop_last() == Seq::<Seq<char>>::empty());
    assert(evaluation_plan_of(m, path) == seq![script_at(m, path)]);
    assert(crate::engine::successes(alone) == crate::engine::successes(
        evaluation_plan_of(m, path),
    ));
}

proof fn lemma_dependency_is_ready(m: ModuleMap, a: Seq<char>, b: Seq<char>, n: nat)
    requires
        crate::resolver::is_sound(m),
        crate::resolver::is_ready(m, a),
        crate::order::is_within(m, Set::empty(), a, b, n),
    ensures
        crate::resolver::is_ready(m, b),
    decreases n,
{
    if a != b {
        let i = choose|i: int|
            0 <= i < crate::resolver::deps_of(m, a).len() && crate::order::is_within(
                m,
                Set::empty(),
                #[trigger] crate::resolver::deps_of(m, a)[i],
                b,
                (n - 1) as nat,
            );
        let rank = choose|rank: spec_fn(Seq<char>) -> nat| crate::resolver::is_ranked(m, rank);
        lemma_dependency_is_ready(m, crate::resolver::deps_of(m, a)[i], b, (n - 1) as nat);
    }
}

proof fn lemma_all_ready(m: ModuleMap, order: Seq<Seq<char>>)
    requires
        forall|i: int|
            0 <= i < order.len() ==> crate::resolver::is_ready(m, #[trigger] order[i]),
    ensures
        ready_scripts(m, order) == order.map_values(|p: Seq<char>| script_at(m, p)),
    decreases order.len(),
{
    let scripts = order.map_values(|p: Seq<char>| script_at(m, p));
    if order.len() > 0 {
        let front = order.drop_last();
        assert forall|i: int| 0 <= i < front.len() implies crate::resolver::is_ready(
            m,
            #[trigger] front[i],
        ) by {
            assert(front[i] == order[i]);
        }
        lemma_all_ready(m, front);
        assert(scripts == front.map_values(|p: Seq<char>| script_at(m, p)).push(
            script_at(m, order.last()),
        ));
    }
}

} // verus!
