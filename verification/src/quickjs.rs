//! The QuickJS engine, and a record of what it was given and what came of it.
//!
//! The log in the record exists for the contracts alone. Only the functions of this module add to
//! it, so it holds nothing that the engine was not given. A context in use is held together with
//! its record, and nothing else can give it scripts, so the log holds all that the context was
//! given since. The cell that scripts fill goes with the log of the context that they run in.

use std::cell::RefCell;
use std::rc::Rc;

use rquickjs::function::{Func, Opt};
use rquickjs::{Context, Ctx, Runtime};
use vstd::prelude::*;
use vstd::string::*;

use crate::output::{record_build, BuildOutput, CallView};

verus! {

/// A QuickJS runtime.
#[verifier::external_type_specification]
#[verifier::external_body]
pub struct ExRuntime(rquickjs::Runtime);

/// A QuickJS context, with global variables of its own.
#[verifier::external_type_specification]
#[verifier::external_body]
pub struct ExContext(rquickjs::Context);

/// A QuickJS context in use.
#[verifier::external_type_specification]
#[verifier::external_body]
pub struct ExCtx<'js>(rquickjs::Ctx<'js>);

/// A QuickJS failure.
#[verifier::external_type_specification]
#[verifier::external_body]
pub struct ExJsError(rquickjs::Error);

/// A cell that is borrowed at run time.
#[verifier::external_type_specification]
#[verifier::external_body]
#[verifier::reject_recursive_types(T)]
pub struct ExRefCell<T: ?Sized>(std::cell::RefCell<T>);

/// What an engine was asked to do, and how it failed where it failed.
pub enum Step {
    /// To set up a runtime.
    Runtime(Option<rquickjs::Error>),
    /// To set up a context.
    Context(Option<rquickjs::Error>),
    /// To make the build function known to scripts under a name.
    Register(Seq<char>, Option<rquickjs::Error>),
    /// To evaluate a script.
    Evaluate(Seq<char>, Option<rquickjs::Error>),
}

/// The failure in what came of a step.
pub open spec fn failure_of<T>(outcome: Result<T, rquickjs::Error>) -> Option<rquickjs::Error> {
    match outcome {
        Ok(_) => None,
        Err(error) => Some(error),
    }
}

/// What an engine was given, as the contracts see it.
pub struct LogView {
    /// What the engine was asked to do, in its order.
    pub steps: Seq<Step>,
    /// The calls that scripts made of the build function, in their order.
    pub calls: Seq<CallView>,
}

/// What an engine was given.
pub struct Log {
    log: Ghost<LogView>,
}

impl View for Log {
    type V = LogView;

    closed spec fn view(&self) -> LogView {
        self.log@
    }
}

impl Log {
    /// The log of an engine that was given nothing.
    pub fn new() -> (r: Log)
        ensures
            r@ == (LogView { steps: Seq::empty(), calls: Seq::empty() }),
    {
        Log { log: Ghost(LogView { steps: Seq::empty(), calls: Seq::empty() }) }
    }
}

/// Whether a text is what the engine says of a failure.
pub open spec fn says(error: rquickjs::Error, text: Seq<char>) -> bool {
    exists|message: String| #[trigger]
        to_string_from_display_ensures::<rquickjs::Error>(&error, message) && message@ == text
}

/// What the engine says of a failure.
pub(crate) fn engine_message(error: &rquickjs::Error) -> (r: String)
    ensures
        says(*error, r@),
{
    error.to_string()
}

/// `Default` of an `Rc` makes a shared cell that holds an empty list. What a cell holds changes
/// behind shared references, so nothing is claimed of the result. That the list is empty is part
/// of what [`Record::into_outputs`] claims.
#[verifier::external_body]
fn empty_cell() -> (r: Rc<RefCell<Vec<BuildOutput>>>) {
    Rc::default()
}

/// What an engine was given, and the cell that its build function fills.
pub struct Record {
    cell: Rc<RefCell<Vec<BuildOutput>>>,
    log: Log,
}

impl Record {
    /// What the engine was given.
    pub closed spec fn log(&self) -> LogView {
        self.log@
    }

    /// The record of an engine that was given nothing.
    pub(crate) fn new() -> (r: Record)
        ensures
            r.log() == (LogView { steps: Seq::empty(), calls: Seq::empty() }),
    {
        Record { cell: empty_cell(), log: Log::new() }
    }

    /// `Runtime::new` sets up an engine. Claimed: the log shows what came of it. It fails when
    /// memory is short, so nothing else is claimed of the result.
    #[verifier::external_body]
    pub(crate) fn new_runtime(&mut self) -> (r: Result<Runtime, rquickjs::Error>)
        ensures
            final(self).log() == (LogView {
                steps: old(self).log().steps.push(Step::Runtime(failure_of(r))),
                calls: old(self).log().calls,
            }),
    {
        Runtime::new()
    }

    /// `Context::full` sets up a context with all of the standard objects. Claimed: the log shows
    /// what came of it. It fails when memory is short, so nothing else is claimed of the result.
    #[verifier::external_body]
    pub(crate) fn full_context(&mut self, runtime: &Runtime) -> (r: Result<
        Context,
        rquickjs::Error,
    >)
        ensures
            final(self).log() == (LogView {
                steps: old(self).log().steps.push(Step::Context(failure_of(r))),
                calls: old(self).log().calls,
            }),
    {
        Context::full(runtime)
    }

    /// `RefCell::take` gives what a cell holds, and leaves it empty. Claimed of the cell of a
    /// record, which begins empty and which [`record_build`] alone fills, once for each call of
    /// the build function: it holds what the calls in the log hand over. The log stays as it is.
    /// The cell is never borrowed here: the build function borrows it only while it runs.
    #[verifier::external_body]
    pub(crate) fn into_outputs(self) -> (r: (Vec<BuildOutput>, Log))
        ensures
            r.1@ == self.log(),
            crate::output::output_views(r.0@) == crate::output::outputs_of(self.log().calls),
    {
        (self.cell.take(), self.log)
    }
}

/// A context in use, with the record of what it is given.
pub struct Scope<'js> {
    ctx: Ctx<'js>,
    record: Record,
}

impl<'js> Scope<'js> {
    /// What the engine was given.
    pub closed spec fn log(&self) -> LogView {
        self.record.log()
    }

    /// Takes a context, and goes on with a record.
    pub(crate) fn open(ctx: Ctx<'js>, record: Record) -> (r: Scope<'js>)
        ensures
            r.log() == record.log(),
    {
        Scope { ctx, record }
    }

    /// Lets go of the context, and gives the record.
    pub(crate) fn close(self) -> (r: Record)
        ensures
            r.log() == self.log(),
    {
        self.record
    }

    /// `Object::set` binds a function, which `Func::from` makes of [`record_build`], to a global
    /// name of the context. Claimed: the log shows the name and what came of it; the calls that
    /// were made before stay in it. What comes of it depends on what the context holds, so nothing
    /// else is claimed of the result.
    #[verifier::external_body]
    pub(crate) fn register_build(&mut self, name: &str) -> (r: Result<(), rquickjs::Error>)
        ensures
            final(self).log().steps == old(self).log().steps.push(
                Step::Register(name@, failure_of(r)),
            ),
            old(self).log().calls.is_prefix_of(final(self).log().calls),
    {
        let cell = Rc::clone(&self.record.cell);
        let build = Func::from(
            move |id: String, json: String, output_type: Opt<String>|
                record_build(&mut cell.borrow_mut(), id, json, output_type.0),
        );
        self.ctx.globals().set(name, build)
    }

    /// `Ctx::eval` evaluates a script in the global scope of the context. Claimed: the log shows
    /// the script and what came of it; the calls of the build function that the script makes
    /// follow those that were made before. What comes of it depends on what the context holds, so
    /// nothing else is claimed of the result.
    #[verifier::external_body]
    pub(crate) fn eval_text(&mut self, text: &str) -> (r: Result<(), rquickjs::Error>)
        ensures
            final(self).log().steps == old(self).log().steps.push(
                Step::Evaluate(text@, failure_of(r)),
            ),
            old(self).log().calls.is_prefix_of(final(self).log().calls),
    {
        self.ctx.eval::<(), _>(text.as_bytes())
    }
}

/// What came of a step is a failure if and only if it is an error, which is then that error.
pub proof fn law_failures<T>(outcome: Result<T, rquickjs::Error>)
    ensures
        match outcome {
            Ok(_) => failure_of(outcome) is None,
            Err(error) => failure_of(outcome) == Some(error),
        },
{
}

/// What the engine says of a failure is what the failure is displayed as.
pub proof fn law_engine_messages(error: rquickjs::Error, text: Seq<char>)
    ensures
        says(error, text) <==> exists|message: String|
            message@ == text && #[trigger] to_string_from_display_ensures::<rquickjs::Error>(
                &error,
                message,
            ),
{
}

} // verus!
