# gha_executor

Prepares JavaScript and TypeScript modules for the QuickJS engine, and runs workflow scripts in it.
A workflow script calls `__gha_build(id, json, type)`; what it hands over is collected.

Modules are evaluated as plain scripts, one after the other, in one global scope. TypeScript loses
its types, import lines are taken out, and what a module exports becomes a `var`. What a module
imports is evaluated before it. A module that imports something which cannot be had is kept with
the reason, so that a caller can run the workflow in another way.

## Layout

- `src/text.rs`: trimming, searching, splitting and joining of text.
- `src/rewrite.rs`: what each line of a module becomes.
- `src/typescript.rs`: stripping of types, with oxc.
- `src/resolver.rs`: the modules that are known, and the order of evaluation.
- `src/order.rs`: what holds of that order.
- `src/loading.rs`: loading of a module and of what it imports, as a dialogue with whoever reads
  the files.
- `src/disk.rs`: what holds of a load from files that do not change.
- `src/output.rs`: what scripts hand over.
- `src/quickjs.rs`: the engine, with a log of what it was given.
- `src/engine.rs`: running of scripts in it.
- `src/workflow.rs`: evaluation of modules and running of workflows.
- `src/error.rs`: why something could not be run.
- `app/`: paths, files and error reports.

The library is verified with Verus. It does no input or output of its own.
