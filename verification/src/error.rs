//! Why a module or a workflow could not be run.

use vstd::prelude::*;
use vstd::string::*;

verus! {

/// Why a module or a workflow could not be run.
#[derive(Debug)]
pub enum ExecuteError {
    /// The module was not loaded.
    NotLoaded {
        /// How messages show the path.
        display: String,
    },
    /// The module was loaded, and cannot be had.
    NotAvailable {
        /// How messages show the path.
        display: String,
        /// Why it cannot be had.
        reason: String,
    },
    /// The workflow was loaded, and cannot be had.
    CannotProcess {
        /// How messages show the path.
        display: String,
        /// Why it cannot be had.
        reason: String,
    },
    /// The engine could not be set up.
    Runtime {
        /// What the engine says of it.
        cause: String,
    },
    /// The engine's context could not be set up.
    Context {
        /// What the engine says of it.
        cause: String,
    },
    /// The function that scripts call could not be registered.
    Register {
        /// What the engine says of it.
        cause: String,
    },
    /// A script failed.
    Eval {
        /// The canonical path of the module, where the script is one.
        module: Option<String>,
        /// What the engine says of it.
        cause: String,
    },
}

/// Why a module or a workflow could not be run, as the contracts see it.
pub enum ExecuteErrorView {
    /// The module was not loaded.
    NotLoaded { display: Seq<char> },
    /// The module was loaded, and cannot be had.
    NotAvailable { display: Seq<char>, reason: Seq<char> },
    /// The workflow was loaded, and cannot be had.
    CannotProcess { display: Seq<char>, reason: Seq<char> },
    /// The engine could not be set up.
    Runtime { cause: Seq<char> },
    /// The engine's context could not be set up.
    Context { cause: Seq<char> },
    /// The function that scripts call could not be registered.
    Register { cause: Seq<char> },
    /// A script failed.
    Eval { module: Option<Seq<char>>, cause: Seq<char> },
}

/// The contents of a string that may be missing.
pub open spec fn optional_text(text: Option<String>) -> Option<Seq<char>> {
    match text {
        Some(text) => Some(text@),
        None => None,
    }
}

impl View for ExecuteError {
    type V = ExecuteErrorView;

    open spec fn view(&self) -> ExecuteErrorView {
        match *self {
            ExecuteError::NotLoaded { display } => ExecuteErrorView::NotLoaded {
                display: display@,
            },
            ExecuteError::NotAvailable { display, reason } => ExecuteErrorView::NotAvailable {
                display: display@,
                reason: reason@,
            },
            ExecuteError::CannotProcess { display, reason } => ExecuteErrorView::CannotProcess {
                display: display@,
                reason: reason@,
            },
            ExecuteError::Runtime { cause } => ExecuteErrorView::Runtime { cause: cause@ },
            ExecuteError::Context { cause } => ExecuteErrorView::Context { cause: cause@ },
            ExecuteError::Register { cause } => ExecuteErrorView::Register { cause: cause@ },
            ExecuteError::Eval { module, cause } => ExecuteErrorView::Eval {
                module: optional_text(module),
                cause: cause@,
            },
        }
    }
}

impl ExecuteErrorView {
    /// What a message says of the failure.
    pub open spec fn message(self) -> Seq<char> {
        match self {
            ExecuteErrorView::NotLoaded { display } => "Module "@ + display + " was not loaded"@,
            ExecuteErrorView::NotAvailable { display, reason } => "Module "@ + display
                + " is not available for QuickJS: "@ + reason,
            ExecuteErrorView::CannotProcess { display, reason } => "Workflow "@ + display
                + " cannot be processed by QuickJS: "@ + reason,
            ExecuteErrorView::Runtime { .. } => "Failed to create QuickJS runtime"@,
            ExecuteErrorView::Context { .. } => "Failed to create QuickJS context"@,
            ExecuteErrorView::Register { cause } => "Failed to set __gha_build: "@ + cause,
            ExecuteErrorView::Eval { module, cause } => match module {
                Some(path) => "QuickJS eval error in "@ + path + ": "@ + cause,
                None => "QuickJS evaluation error: "@ + cause,
            },
        }
    }
}

impl ExecuteError {
    /// Says what failed. Where the engine could not be set up, its cause is not part of it.
    pub fn message(&self) -> (r: String)
        ensures
            r@ == self@.message(),
    {
        match self {
            ExecuteError::NotLoaded { display } => "Module ".to_owned().concat(
                display.as_str(),
            ).concat(" was not loaded"),
            ExecuteError::NotAvailable { display, reason } => "Module ".to_owned().concat(
                display.as_str(),
            ).concat(" is not available for QuickJS: ").concat(reason.as_str()),
            ExecuteError::CannotProcess { display, reason } => "Workflow ".to_owned().concat(
                display.as_str(),
            ).concat(" cannot be processed by QuickJS: ").concat(reason.as_str()),
            ExecuteError::Runtime { .. } => "Failed to create QuickJS runtime".to_owned(),
            ExecuteError::Context { .. } => "Failed to create QuickJS context".to_owned(),
            ExecuteError::Register { cause } => "Failed to set __gha_build: ".to_owned().concat(
                cause.as_str(),
            ),
            ExecuteError::Eval { module, cause } => match module {
                Some(path) => "QuickJS eval error in ".to_owned().concat(path.as_str()).concat(
                    ": ",
                ).concat(cause.as_str()),
                None => "QuickJS evaluation error: ".to_owned().concat(cause.as_str()),
            },
        }
    }
}

/// What is said of each error, on its own fields.
pub proof fn law_execute_messages(error: ExecuteError)
    ensures
        error@.message() == (match error {
            ExecuteError::NotLoaded { display } => "Module "@ + display@ + " was not loaded"@,
            ExecuteError::NotAvailable { display, reason } => "Module "@ + display@
                + " is not available for QuickJS: "@ + reason@,
            ExecuteError::CannotProcess { display, reason } => "Workflow "@ + display@
                + " cannot be processed by QuickJS: "@ + reason@,
            ExecuteError::Runtime { .. } => "Failed to create QuickJS runtime"@,
            ExecuteError::Context { .. } => "Failed to create QuickJS context"@,
            ExecuteError::Register { cause } => "Failed to set __gha_build: "@ + cause@,
            ExecuteError::Eval { module: Some(path), cause } => "QuickJS eval error in "@ + path@
                + ": "@ + cause@,
            ExecuteError::Eval { module: None, cause } => "QuickJS evaluation error: "@ + cause@,
        }),
{
}

} // verus!
