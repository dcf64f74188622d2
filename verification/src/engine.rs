//! Runs scripts in the QuickJS engine and collects what they build.

use rquickjs::{Context, Ctx};
use vstd::prelude::*;
use vstd::string::*;

use crate::error::{ExecuteError, ExecuteErrorView};
use crate::output::BuildOutput;
use crate::quickjs::{engine_message, Log, LogView, Record, Scope, Step};

verus! {

/// A script to evaluate.
#[derive(Debug)]
pub struct Script {
    /// The canonical path of the module, where the script is one.
    pub module: Option<String>,
    /// The text of the script.
    pub text: String,
}

/// A script to evaluate, as the contracts see it.
pub struct ScriptView {
    /// The canonical path of the module, where the script is one.
    pub module: Option<Seq<char>>,
    /// The text of the script.
    pub text: Seq<char>,
}

impl View for Script {
    type V = ScriptView;

    open spec fn view(&self) -> ScriptView {
        ScriptView { module: crate::error::optional_text(self.module), text: self.text@ }
    }
}

/// The views of a list of scripts.
pub open spec fn script_views(scripts: Seq<Script>) -> Seq<ScriptView> {
    scripts.map_values(|script: Script| script@)
}

/// The contents of what came of a run.
pub open spec fn result_view(result: Result<(), ExecuteError>) -> Result<(), ExecuteErrorView> {
    match result {
        Ok(()) => Ok(()),
        Err(error) => Err(error@),
    }
}

/// The steps of an engine that evaluates the scripts in turn without a failure.
pub open spec fn successes(scripts: Seq<ScriptView>) -> Seq<Step> {
    scripts.map_values(|script: ScriptView| Step::Evaluate(script.text, None))
}

/// Whether evaluating a script comes to the result by the step.
pub open spec fn evaluates(
    script: ScriptView,
    result: Result<(), ExecuteErrorView>,
    step: Step,
) -> bool {
    &&& step matches Step::Evaluate(text, failure)
    &&& text == script.text
    &&& match failure {
        None => result is Ok,
        Some(error) => {
            &&& result matches Err(ExecuteErrorView::Eval { module, cause })
            &&& module == script.module
            &&& crate::quickjs::says(error, cause)
        },
    }
}

/// Whether evaluating the scripts in turn comes to the result by the steps: all of the scripts
/// are evaluated, or those up to the first that fails.
pub open spec fn runs(
    scripts: Seq<ScriptView>,
    result: Result<(), ExecuteErrorView>,
    steps: Seq<Step>,
) -> bool {
    match result {
        Ok(()) => steps == successes(scripts),
        Err(_) => {
            &&& 0 < steps.len() <= scripts.len()
            &&& steps.drop_last() == successes(scripts.take(steps.len() - 1))
            &&& evaluates(scripts[steps.len() - 1], result, steps.last())
        },
    }
}

/// The name under which scripts reach the function that hands over what they build.
pub const BUILD_FUNCTION: &'static str = "__gha_build";

/// Turns what the engine made of a script into an error that names the module.
pub fn eval_outcome(module: &Option<String>, outcome: Result<(), String>) -> (r: Result<
    (),
    ExecuteError,
>)
    ensures
        match outcome {
            Ok(()) => r is Ok,
            Err(cause) => r matches Err(error) && error@ == (ExecuteErrorView::Eval {
                module: crate::error::optional_text(*module),
                cause: cause@,
            }),
        },
{
    match outcome {
        Ok(()) => Ok(()),
        Err(cause) => Err(
            ExecuteError::Eval {
                module: match module {
                    Some(path) => Some(path.clone()),
                    None => None,
                },
                cause,
            },
        ),
    }
}

/// Turns what came of setting up a runtime into the runtime or the error that says so.
pub fn runtime_outcome<T>(outcome: Result<T, String>) -> (r: Result<T, ExecuteError>)
    ensures
        match outcome {
            Ok(runtime) => r == Ok::<T, ExecuteError>(runtime),
            Err(cause) => r matches Err(error) && error@ == (ExecuteErrorView::Runtime {
                cause: cause@,
            }),
        },
{
    match outcome {
        Ok(runtime) => Ok(runtime),
        Err(cause) => Err(ExecuteError::Runtime { cause }),
    }
}

/// Turns what came of setting up a context into the context or the error that says so.
pub fn context_outcome<T>(outcome: Result<T, String>) -> (r: Result<T, ExecuteError>)
    ensures
        match outcome {
            Ok(context) => r == Ok::<T, ExecuteError>(context),
            Err(cause) => r matches Err(error) && error@ == (ExecuteErrorView::Context {
                cause: cause@,
            }),
        },
{
    match outcome {
        Ok(context) => Ok(context),
        Err(cause) => Err(ExecuteError::Context { cause }),
    }
}

/// Whether an engine has gone on from one log to another by the steps.
pub open spec fn goes_on(before: LogView, after: LogView, steps: Seq<Step>) -> bool {
    &&& after.steps == before.steps + steps
    &&& before.calls.is_prefix_of(after.calls)
}

/// A context in use, which scripts are evaluated in.
pub struct Engine<'js> {
    scope: Scope<'js>,
}

impl<'js> Engine<'js> {
    /// What the engine was given.
    pub closed spec fn log(&self) -> LogView {
        self.scope.log()
    }

    /// Takes a context that the caller has prepared.
    pub fn new(ctx: Ctx<'js>) -> (r: Engine<'js>)
        ensures
            r.log() == (LogView { steps: Seq::empty(), calls: Seq::empty() }),
    {
        Engine { scope: Scope::open(ctx, Record::new()) }
    }

    /// Evaluates a script.
    pub fn eval(&mut self, script: &Script) -> (r: Result<(), ExecuteError>)
        ensures
            goes_on(
                old(self).log(),
                final(self).log(),
                seq![final(self).log().steps.last()],
            ),
            evaluates(script@, result_view(r), final(self).log().steps.last()),
    {
        let outcome = in_words(self.scope.eval_text(script.text.as_str()));
        assert(self.log().steps == old(self).log().steps + seq![self.log().steps.last()]);
        eval_outcome(&script.module, outcome)
    }

    /// Evaluates scripts in turn, up to the first that fails.
    pub fn eval_all(&mut self, scripts: &Vec<Script>) -> (r: Result<(), ExecuteError>)
        ensures
            ({
                let steps = final(self).log().steps.skip(old(self).log().steps.len() as int);
                &&& goes_on(old(self).log(), final(self).log(), steps)
                &&& runs(script_views(scripts@), result_view(r), steps)
            }),
    {
        let ghost start = self.log();
        let ghost views = script_views(scripts@);
        assert(start.steps + successes(views.take(0)) == start.steps);
        for i in 0..scripts.len()
            invariant
                start == old(self).log(),
                views == script_views(scripts@),
                goes_on(start, self.log(), successes(views.take(i as int))),
        {
            let ghost before = self.log();
            let result = self.eval(&scripts[i]);
            proof {
                let done = successes(views.take(i as int));
                let steps = done.push(self.log().steps.last());
                assert(self.log().steps == start.steps + steps);
                assert(self.log().steps.skip(start.steps.len() as int) == steps);
                assert(steps.drop_last() == done);
                assert(before.calls.is_prefix_of(self.log().calls));
                lemma_prefix_of_prefix(start.calls, before.calls, self.log().calls);
                if result is Ok {
                    assert(successes(views.take(i + 1)) == steps);
                }
            }
            if let Err(error) = result {
                return Err(error);
            }
        }
        proof {
            assert(views.take(views.len() as int) == views);
            assert(self.log().steps.skip(start.steps.len() as int) == successes(views));
        }
        Ok(())
    }
}

proof fn lemma_prefix_of_prefix<A>(a: Seq<A>, b: Seq<A>, c: Seq<A>)
    requires
        a.is_prefix_of(b),
        b.is_prefix_of(c),
    ensures
        a.is_prefix_of(c),
{
    assert(c.subrange(0, a.len() as int) == b.subrange(0, a.len() as int));
}

/// Whether scripts that can call the build function come to the result by the steps: the function
/// is made known under its name first.
pub open spec fn runs_with_build(
    scripts: Seq<ScriptView>,
    result: Result<(), ExecuteErrorView>,
    steps: Seq<Step>,
) -> bool {
    &&& steps.len() > 0
    &&& steps.first() matches Step::Register(name, failure)
    &&& name == BUILD_FUNCTION@
    &&& match failure {
        None => runs(scripts, result, steps.drop_first()),
        Some(error) => {
            &&& steps.len() == 1
            &&& result matches Err(ExecuteErrorView::Register { cause })
            &&& crate::quickjs::says(error, cause)
        },
    }
}

/// Whether scripts come to the result by the steps in a context of their own, which is set up
/// first.
pub open spec fn runs_in_context(
    scripts: Seq<ScriptView>,
    result: Result<(), ExecuteErrorView>,
    steps: Seq<Step>,
) -> bool {
    &&& steps.len() > 0
    &&& steps.first() matches Step::Context(failure)
    &&& match failure {
        None => runs_with_build(scripts, result, steps.drop_first()),
        Some(error) => {
            &&& steps.len() == 1
            &&& result matches Err(ExecuteErrorView::Context { cause })
            &&& crate::quickjs::says(error, cause)
        },
    }
}

/// Whether scripts come to the result by the steps in a runtime of their own, which is set up
/// first.
pub open spec fn runs_alone(
    scripts: Seq<ScriptView>,
    result: Result<(), ExecuteErrorView>,
    steps: Seq<Step>,
) -> bool {
    &&& steps.len() > 0
    &&& steps.first() matches Step::Runtime(failure)
    &&& match failure {
        None => runs_in_context(scripts, result, steps.drop_first()),
        Some(error) => {
            &&& steps.len() == 1
            &&& result matches Err(ExecuteErrorView::Runtime { cause })
            &&& crate::quickjs::says(error, cause)
        },
    }
}

/// How the evaluation of scripts in an engine of their own ended.
struct Session {
    /// Whether all of them were evaluated.
    result: Result<(), ExecuteError>,
    /// What the engine was given.
    record: Record,
}

impl Session {
    /// Whether the session goes on from a log and comes to its result with the build function.
    spec fn goes_on_from(self, before: LogView, scripts: Seq<ScriptView>) -> bool {
        let steps = self.record.log().steps.skip(before.steps.len() as int);
        &&& goes_on(before, self.record.log(), steps)
        &&& runs_with_build(scripts, result_view(self.result), steps)
    }
}

fn evaluate_all(ctx: Ctx<'_>, scripts: &Vec<Script>, record: Record) -> (r: Session)
    ensures
        r.goes_on_from(record.log(), script_views(scripts@)),
{
    let ghost start = record.log();
    let mut engine = Engine { scope: Scope::open(ctx, record) };
    let result = match in_words(engine.scope.register_build(BUILD_FUNCTION)) {
        Err(cause) => {
            proof {
                let step = engine.log().steps.last();
                assert(engine.log().steps == start.steps + seq![step]);
                assert(engine.log().steps.skip(start.steps.len() as int) == seq![step]);
            }
            Err(ExecuteError::Register { cause })
        },
        Ok(()) => {
            let ghost registered = engine.log();
            let result = engine.eval_all(scripts);
            proof {
                let steps = engine.log().steps.skip(start.steps.len() as int);
                assert(engine.log().steps == start.steps + steps);
                assert(steps.first() == registered.steps.last());
                assert(steps.drop_first() == engine.log().steps.skip(
                    registered.steps.len() as int,
                ));
                lemma_prefix_of_prefix(start.calls, registered.calls, engine.log().calls);
            }
            result
        },
    };
    Session { result, record: engine.scope.close() }
}

/// `Context::with` calls [`evaluate_all`] once, with the context in use, and gives what it gives.
/// The context is gone then. Claimed: what [`evaluate_all`] ensures of its result.
#[verifier::external_body]
fn with_context(context: Context, scripts: &Vec<Script>, record: Record) -> (r: Session)
    ensures
        r.goes_on_from(record.log(), script_views(scripts@)),
{
    context.with(|ctx| evaluate_all(ctx, scripts, record))
}

fn in_words<T>(outcome: Result<T, rquickjs::Error>) -> (r: Result<T, String>)
    ensures
        match outcome {
            Ok(value) => r == Ok::<T, String>(value),
            Err(error) => r matches Err(message) && crate::quickjs::says(error, message@),
        },
{
    match outcome {
        Ok(value) => Ok(value),
        Err(error) => Err(engine_message(&error)),
    }
}

fn run_session(scripts: &Vec<Script>) -> (r: Session)
    ensures
        runs_alone(script_views(scripts@), result_view(r.result), r.record.log().steps),
{
    let mut record = Record::new();
    let runtime = match runtime_outcome(in_words(record.new_runtime())) {
        Ok(runtime) => runtime,
        Err(error) => {
            return Session { result: Err(error), record };
        },
    };
    let context = match context_outcome(in_words(record.full_context(&runtime))) {
        Ok(context) => context,
        Err(error) => {
            return Session { result: Err(error), record };
        },
    };
    let session = with_context(context, scripts, record);
    assert(session.record.log().steps.drop_first().drop_first()
        == session.record.log().steps.skip(2));
    session
}

/// What came of scripts that build outputs.
pub struct BuildRun {
    /// The outputs, in the order in which they were handed over.
    pub result: Result<Vec<BuildOutput>, ExecuteError>,
    /// What the engine was given.
    pub log: Log,
}

impl BuildRun {
    /// Whether the run is one that evaluates the scripts: all of them in their order, or up to
    /// the first that fails, or none if the engine could not be made ready. The outputs are what
    /// the calls of the build function hand over.
    pub open spec fn follows(self, scripts: Seq<ScriptView>) -> bool {
        match self.result {
            Ok(outputs) => {
                &&& runs_alone(scripts, Ok(()), self.log@.steps)
                &&& crate::output::output_views(outputs@) == crate::output::outputs_of(
                    self.log@.calls,
                )
            },
            Err(error) => runs_alone(scripts, Err(error@), self.log@.steps),
        }
    }
}

/// Scripts that are all evaluated without a failure give what their calls of the build function
/// hand over.
pub proof fn law_finished_run_gives_outputs(run: BuildRun, scripts: Seq<ScriptView>)
    requires
        run.follows(scripts),
        runs_alone(scripts, Ok(()), run.log@.steps),
    ensures
        run.result matches Ok(outputs) && crate::output::output_views(outputs@)
            == crate::output::outputs_of(run.log@.calls),
{
    let steps = run.log@.steps.drop_first().drop_first().drop_first();
    if steps.len() > 0 {
        assert(steps.last() == successes(scripts)[steps.len() - 1]);
    }
}

/// Evaluates scripts in a context of their own, where they can call the build function, and
/// collects what they build.
pub fn run_scripts(scripts: &Vec<Script>) -> (r: BuildRun)
    ensures
        r.follows(script_views(scripts@)),
{
    let session = run_session(scripts);
    let (outputs, log) = session.record.into_outputs();
    let result = match session.result {
        Err(error) => Err(error),
        Ok(()) => Ok(outputs),
    };
    BuildRun { result, log }
}

/// Evaluates a script that needs no modules, where it can call the build function, and collects
/// what it builds.
pub fn execute_js(code: &str) -> (r: BuildRun)
    ensures
        r.follows(seq![ScriptView { module: None, text: code@ }]),
{
    let script = Script { module: None, text: code.to_owned() };
    let mut scripts: Vec<Script> = Vec::new();
    scripts.push(script);
    assert(script_views(scripts@) == seq![ScriptView { module: None, text: code@ }]);
    run_scripts(&scripts)
}

/// What the contracts see of scripts is what they hold.
pub proof fn law_script_views(scripts: Seq<Script>)
    ensures
        script_views(scripts).len() == scripts.len(),
        forall|i: int|
            0 <= i < scripts.len() ==> (#[trigger] script_views(scripts)[i]).text
                == scripts[i].text@ && script_views(scripts)[i].module == (
            match scripts[i].module {
                Some(path) => Some(path@),
                None => None,
            }),
{
}

/// Scripts that are evaluated in turn are each evaluated once, in their order, with their own
/// texts. Where one fails, the error names its module and says what the engine says, all before it
/// were evaluated without a failure, and none behind it was evaluated.
pub proof fn law_scripts_run_in_turn(
    scripts: Seq<ScriptView>,
    result: Result<(), ExecuteErrorView>,
    steps: Seq<Step>,
)
    ensures
        result is Ok ==> (runs(scripts, result, steps) <==> {
            &&& steps.len() == scripts.len()
            &&& forall|i: int|
                0 <= i < scripts.len() ==> #[trigger] steps[i] == Step::Evaluate(
                    scripts[i].text,
                    None,
                )
        }),
        result is Err ==> (runs(scripts, result, steps) <==> {
            &&& 0 < steps.len() <= scripts.len()
            &&& forall|i: int|
                0 <= i < steps.len() - 1 ==> #[trigger] steps[i] == Step::Evaluate(
                    scripts[i].text,
                    None,
                )
            &&& steps[steps.len() - 1] matches Step::Evaluate(text, Some(error))
            &&& text == scripts[steps.len() - 1].text
            &&& result matches Err(ExecuteErrorView::Eval { module, cause })
            &&& module == scripts[steps.len() - 1].module
            &&& crate::quickjs::says(error, cause)
        }),
{
    if result is Ok {
        if runs(scripts, result, steps) {
            assert forall|i: int| 0 <= i < scripts.len() implies #[trigger] steps[i]
                == Step::Evaluate(scripts[i].text, None) by {
                assert(steps[i] == successes(scripts)[i]);
            }
        }
        if steps.len() == scripts.len() && (forall|i: int|
            0 <= i < scripts.len() ==> #[trigger] steps[i] == Step::Evaluate(
                scripts[i].text,
                None,
            )) {
            assert(steps == successes(scripts));
        }
    } else if 0 < steps.len() <= scripts.len() {
        let n = steps.len() - 1;
        let front = successes(scripts.take(n));
        if runs(scripts, result, steps) {
            assert forall|i: int| 0 <= i < n implies #[trigger] steps[i] == Step::Evaluate(
                scripts[i].text,
                None,
            ) by {
                assert(steps.drop_last()[i] == front[i]);
            }
        }
        if forall|i: int|
            0 <= i < n ==> #[trigger] steps[i] == Step::Evaluate(scripts[i].text, None) {
            assert(steps.drop_last() == front);
        }
    }
}

/// One script is evaluated by one step: its text is evaluated, and the result says whether that
/// failed, with the module and what the engine says.
pub proof fn law_script_runs(
    script: ScriptView,
    result: Result<(), ExecuteErrorView>,
    text: Seq<char>,
    failure: Option<rquickjs::Error>,
    before: LogView,
    after: LogView,
    steps: Seq<Step>,
)
    ensures
        evaluates(script, result, Step::Evaluate(text, failure)) <==> text == script.text && (
        match failure {
            None => result is Ok,
            Some(error) => result matches Err(ExecuteErrorView::Eval { module, cause }) && module
                == script.module && crate::quickjs::says(error, cause),
        }),
        goes_on(before, after, steps) <==> after.steps == before.steps + steps
            && before.calls.is_prefix_of(after.calls),
{
}

/// A run that succeeds has set up a runtime and a context, made `__gha_build` known, and evaluated
/// each script once, in its order, with its own text. Each output is that of one call, with the
/// arguments of the call.
pub proof fn law_run_evaluates_its_scripts(run: BuildRun, scripts: Seq<ScriptView>)
    requires
        run.follows(scripts),
        run.result is Ok,
    ensures
        ({
            let steps = run.log@.steps;
            let outputs = run.result->Ok_0@;
            let calls = run.log@.calls;
            &&& steps.len() == scripts.len() + 3
            &&& steps[0] == Step::Runtime(None)
            &&& steps[1] == Step::Context(None)
            &&& steps[2] == Step::Register("__gha_build"@, None)
            &&& forall|i: int|
                0 <= i < scripts.len() ==> steps[i + 3] == Step::Evaluate(
                    (#[trigger] scripts[i]).text,
                    None,
                )
            &&& outputs.len() == calls.len()
            &&& forall|i: int|
                0 <= i < calls.len() ==> (#[trigger] outputs[i]).id@ == calls[i].id
                    && outputs[i].json@ == calls[i].json && outputs[i].output_type@ == (
                match calls[i].output_type {
                    Some(given) => given,
                    None => "workflow"@,
                })
        }),
{
    let steps = run.log@.steps;
    let rest = steps.drop_first().drop_first().drop_first();
    crate::output::law_outputs_keep_arguments(run.result->Ok_0@, run.log@.calls);
    law_scripts_run_in_turn(scripts, Ok(()), rest);
    assert(steps[1] == steps.drop_first()[0]);
    assert(steps[2] == steps.drop_first().drop_first()[0]);
    assert forall|i: int| 0 <= i < scripts.len() implies steps[i + 3] == Step::Evaluate(
        (#[trigger] scripts[i]).text,
        None,
    ) by {
        assert(rest[i] == steps[i + 3]);
    }
}

/// A run that fails says what failed: the step that came last, with what the engine says of it.
/// All steps before it succeeded, and no step follows.
pub proof fn law_run_says_what_failed(run: BuildRun, scripts: Seq<ScriptView>)
    requires
        run.follows(scripts),
        run.result is Err,
    ensures
        ({
            let steps = run.log@.steps;
            let n = steps.len() - 1;
            &&& 0 <= n < scripts.len() + 3
            &&& n > 0 ==> steps[0] == Step::Runtime(None)
            &&& n > 1 ==> steps[1] == Step::Context(None)
            &&& n > 2 ==> steps[2] == Step::Register("__gha_build"@, None)
            &&& forall|i: int|
                0 <= i < n - 3 ==> steps[i + 3] == Step::Evaluate(
                    (#[trigger] scripts[i]).text,
                    None,
                )
            &&& match run.result->Err_0 {
                ExecuteError::Runtime { cause } => n == 0 && (steps[n] matches Step::Runtime(
                    Some(error),
                ) && crate::quickjs::says(error, cause@)),
                ExecuteError::Context { cause } => n == 1 && (steps[n] matches Step::Context(
                    Some(error),
                ) && crate::quickjs::says(error, cause@)),
                ExecuteError::Register { cause } => n == 2 && (steps[n] matches Step::Register(
                    name,
                    Some(error),
                ) && name == "__gha_build"@ && crate::quickjs::says(error, cause@)),
                ExecuteError::Eval { module, cause } => n > 2 && (steps[n] matches Step::Evaluate(
                    text,
                    Some(error),
                ) && text == scripts[n - 3].text && crate::quickjs::says(error, cause@)) && (
                match module {
                    Some(path) => scripts[n - 3].module == Some(path@),
                    None => scripts[n - 3].module is None,
                }),
                _ => false,
            }
        }),
{
    let steps = run.log@.steps;
    let n = steps.len() - 1;
    let result = Err::<(), ExecuteErrorView>(run.result->Err_0@);
    let rest = steps.drop_first().drop_first().drop_first();
    if n > 0 {
        assert(steps[1] == steps.drop_first()[0]);
    }
    if n > 1 {
        assert(steps[2] == steps.drop_first().drop_first()[0]);
    }
    if n > 2 {
        law_scripts_run_in_turn(scripts, result, rest);
        assert(rest.len() == n - 2);
        assert(rest[n - 3] == steps[n]);
        assert forall|i: int| 0 <= i < n - 3 implies steps[i + 3] == Step::Evaluate(
            (#[trigger] scripts[i]).text,
            None,
        ) by {
            assert(rest[i] == steps[i + 3]);
        }
    }
}

} // verus!
