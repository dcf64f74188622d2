use std::collections::BTreeMap;

use gha_executor::engine::{execute_js, Engine};
use gha_executor::error::ExecuteError;
use gha_executor::loading::{LoadError, Progress, ScriptPath};
use gha_executor::resolver::ModuleResolver;
use gha_executor::workflow::execute_workflow;
use rquickjs::{Context as JsContext, Runtime as JsRuntime};
use vstd::hash_set::StringHashSet;

/// Files held in memory, all in one directory.
struct Files {
    texts: BTreeMap<String, String>,
    unreadable: Vec<String>,
    reads: Vec<String>,
}

impl Files {
    fn of(files: &[(&str, &str)]) -> Files {
        Files {
            texts: files.iter().map(|(path, text)| (path.to_string(), text.to_string())).collect(),
            unreadable: Vec::new(),
            reads: Vec::new(),
        }
    }

    fn canonical(&self, path: &str) -> Option<String> {
        let name = path.trim_start_matches("./");
        self.texts.contains_key(name).then_some(name.to_string())
    }

    fn run(&mut self, resolver: &mut ModuleResolver, start: Progress) -> Result<bool, LoadError> {
        let mut progress = start;
        loop {
            progress = match progress {
                Progress::Canonicalize(wanted) => {
                    let answer = self.canonical(wanted.path());
                    wanted.answer(resolver, answer)
                }
                Progress::Read(wanted) => {
                    let path = wanted.path().trim_start_matches("./").to_string();
                    let answer = if self.unreadable.contains(&path) {
                        None
                    } else {
                        self.texts.get(&path).cloned()
                    };
                    self.reads.push(path);
                    wanted.answer(resolver, answer)
                }
                Progress::Resolve(wanted) => {
                    let answer = self.canonical(wanted.specifier()).map(|path| script(&path));
                    wanted.answer(resolver, answer)
                }
                Progress::Finished(ready) => return Ok(ready),
                Progress::Failed(error) => return Err(error),
            };
        }
    }

    fn load(&mut self, resolver: &mut ModuleResolver, path: &str) -> Result<bool, LoadError> {
        let start = resolver.load(script(path));
        self.run(resolver, start)
    }

    fn load_lenient(&mut self, resolver: &mut ModuleResolver, path: &str) -> Result<bool, LoadError> {
        let start = resolver.load_lenient(script(path));
        self.run(resolver, start)
    }
}

fn script(path: &str) -> ScriptPath {
    let file_name = path.trim_start_matches("./").to_string();
    let extension = file_name.rsplit_once('.').map(|(_, e)| e.to_string());
    ScriptPath { path: path.to_string(), display: path.to_string(), file_name, extension }
}

#[test]
fn test_module_export_as_global() {
    let mut files = Files::of(&[(
        "test.js",
        "export const x = 42;\nexport function greet() { return \"hello\"; }\n",
    )]);

    let mut resolver = ModuleResolver::default();
    assert!(files.load(&mut resolver, "test.js").unwrap());

    let rt = JsRuntime::new().unwrap();
    let ctx = JsContext::full(&rt).unwrap();
    ctx.with(|ctx| {
        let mut engine = Engine::new(ctx.clone());
        resolver.execute_module("test.js", "test.js", &mut engine).unwrap();
        let x: i32 = ctx.globals().get("x").unwrap();
        assert_eq!(x, 42);
        let greeting: String = ctx.eval("greet()").unwrap();
        assert_eq!(greeting, "hello");
    });
}

#[test]
fn test_module_na_on_missing_dep() {
    let mut files = Files::of(&[(
        "test.js",
        "import { X } from \"./nonexistent.js\";\nvar y = 1;\n",
    )]);

    let mut resolver = ModuleResolver::default();
    assert!(!files.load(&mut resolver, "test.js").unwrap());
    assert_eq!(
        resolver.na_reason(Some("test.js")),
        "test.js:1: cannot resolve './nonexistent.js'"
    );
}

#[test]
fn test_module_dep_ordering() {
    let mut files = Files::of(&[
        ("dep.js", "export const BASE = 10;\n"),
        (
            "main.js",
            "import { BASE } from \"./dep.js\";\nexport const VALUE = BASE + 5;\n",
        ),
    ]);

    let mut resolver = ModuleResolver::default();
    assert!(files.load(&mut resolver, "main.js").unwrap());

    let rt = JsRuntime::new().unwrap();
    let ctx = JsContext::full(&rt).unwrap();
    ctx.with(|ctx| {
        let mut engine = Engine::new(ctx.clone());
        resolver.execute_module("main.js", "main.js", &mut engine).unwrap();
        let value: i32 = ctx.globals().get("VALUE").unwrap();
        assert_eq!(value, 15);
    });
}

#[test]
fn scripts_are_kept_by_canonical_path() {
    let mut files = Files::of(&[("a.js", "export let a = 1;\n// done\n")]);
    let mut resolver = ModuleResolver::default();
    assert_eq!(resolver.get_preprocessed_script("a.js"), None);
    assert!(files.load(&mut resolver, "./a.js").unwrap());
    assert_eq!(resolver.get_preprocessed_script("a.js"), Some("var a = 1;\n// done"));
    assert_eq!(resolver.get_preprocessed_script("./a.js"), None);
}

#[test]
fn known_modules_are_not_read_again() {
    let mut files = Files::of(&[
        ("base.js", "export const base = 1;"),
        ("left.js", "import { base } from './base.js';"),
        ("right.js", "import { base } from './base.js';\nimport './left.js';"),
        ("top.js", "import l from './left.js'\nimport r from './right.js'\nbase;"),
        ("bad.js", "import x from './gone.js'"),
    ]);
    let mut resolver = ModuleResolver::default();
    assert!(files.load(&mut resolver, "top.js").unwrap());
    assert_eq!(files.reads, vec!["top.js", "left.js", "base.js", "right.js"]);
    assert!(files.load(&mut resolver, "right.js").unwrap());
    assert!(!files.load(&mut resolver, "bad.js").unwrap());
    assert!(!files.load(&mut resolver, "bad.js").unwrap());
    assert_eq!(files.reads.len(), 5);

    let plan = resolver.evaluation_plan("top.js", "top.js").unwrap();
    let order: Vec<String> = plan.into_iter().map(|script| script.module.unwrap()).collect();
    assert_eq!(order, vec!["base.js", "left.js", "right.js", "top.js"]);
}

#[test]
fn reasons_point_to_the_import() {
    let mut files = Files::of(&[
        ("a.js", "let a;\n\nimport b from './b.js';"),
        ("b.js", "import c from './c.ts';"),
        ("c.ts", "const = ;"),
        ("d.js", "import gone from './gone.js';\nimport c from './c.ts';"),
    ]);
    let mut resolver = ModuleResolver::default();
    assert!(!files.load(&mut resolver, "a.js").unwrap());
    let inner = resolver.na_reason(Some("c.ts")).to_string();
    assert!(inner.starts_with("c.ts: Parse errors:\n"));
    assert_eq!(resolver.na_reason(Some("b.js")), format!("b.js:1: {}", inner));
    assert_eq!(resolver.na_reason(Some("a.js")), format!("a.js:3: b.js:1: {}", inner));
    assert_eq!(resolver.get_preprocessed_script("a.js"), None);
    assert_eq!(resolver.na_reason(Some("d.js")), "unresolvable dependency");
    assert_eq!(resolver.na_reason(None), "unresolvable dependency");
}

#[test]
fn typescript_is_stripped() {
    let mut files = Files::of(&[
        ("a.ts", "import { n } from './b.ts';\nexport const a: number = n;\na;"),
        ("b.ts", "export const n: number = 3;\n"),
    ]);
    let mut resolver = ModuleResolver::default();
    assert!(files.load(&mut resolver, "a.ts").unwrap());
    assert!(!resolver.get_preprocessed_script("a.ts").unwrap().contains("number"));
    assert!(resolver.get_preprocessed_script("b.ts").unwrap().contains("var n = 3;"));
    let plan = resolver.evaluation_plan("a.ts", "a.ts").unwrap();
    assert_eq!(plan.len(), 2);
}

#[test]
fn lenient_loads_pass_over_what_cannot_be_had() {
    let mut files = Files::of(&[
        (
            "config.js",
            "import { defineConfig } from 'tool';\nimport bad from './bad.js';\nimport ok from './ok.js';\nexport default defineConfig({});",
        ),
        ("bad.js", "import x from './gone.js'"),
        ("ok.js", "export const ok = 1;"),
    ]);
    let mut resolver = ModuleResolver::default();
    assert!(!files.load(&mut resolver, "config.js").unwrap());
    assert_eq!(
        resolver.na_reason(Some("config.js")),
        "config.js:1: cannot resolve 'tool'"
    );
    assert!(files.load_lenient(&mut resolver, "config.js").unwrap());
    assert_eq!(resolver.get_preprocessed_script("config.js"), Some("defineConfig({});"));
    let plan = resolver.evaluation_plan("config.js", "config.js").unwrap();
    let order: Vec<String> = plan.into_iter().map(|script| script.module.unwrap()).collect();
    assert_eq!(order, vec!["ok.js", "config.js"]);
    assert_eq!(resolver.na_reason(Some("bad.js")), "bad.js:1: cannot resolve './gone.js'");
    let reads = files.reads.len();
    assert!(files.load_lenient(&mut resolver, "config.js").unwrap());
    assert!(files.load(&mut resolver, "config.js").unwrap());
    assert_eq!(files.reads.len(), reads);
}

#[test]
fn failures_end_a_load() {
    let mut files = Files::of(&[("b.js", "1;"), ("bad.ts", "const = ;")]);
    files.unreadable.push("b.js".to_string());
    let mut resolver = ModuleResolver::default();
    let error = files.load(&mut resolver, "gone.js").unwrap_err();
    assert!(matches!(error, LoadError::Canonicalize));
    assert_eq!(error.message(), "Failed to canonicalize script path");
    let error = files.load(&mut resolver, "b.js").unwrap_err();
    assert_eq!(error.message(), "Failed to read JS: b.js");
    assert!(matches!(
        resolver.evaluation_plan("b.js", "b.js"),
        Err(ExecuteError::NotLoaded { .. })
    ));
    let error = files.load_lenient(&mut resolver, "b.js").unwrap_err();
    assert_eq!(error.message(), "Failed to read: b.js");
    let error = files.load_lenient(&mut resolver, "bad.ts").unwrap_err();
    assert_eq!(error.message(), "Failed to strip TypeScript: bad.ts");
    match error {
        LoadError::Strip { cause, .. } => assert!(cause.starts_with("Parse errors:\n")),
        other => panic!("{:?}", other),
    }
    assert!(!files.load(&mut resolver, "bad.ts").unwrap());
    let error = files.load_lenient(&mut resolver, "bad.ts").unwrap_err();
    assert!(matches!(error, LoadError::Strip { .. }));
    assert!(resolver.na_reason(Some("bad.ts")).starts_with("bad.ts: Parse errors:\n"));
}

#[test]
fn imports_that_cannot_be_read_make_a_module_unavailable() {
    let mut files = Files::of(&[
        ("main.js", "import { A } from './dep';\n"),
        ("top.js", "import main from './main.js';"),
        ("dep", ""),
    ]);
    files.unreadable.push("dep".to_string());
    let mut resolver = ModuleResolver::default();
    assert!(!files.load(&mut resolver, "main.js").unwrap());
    assert_eq!(resolver.na_reason(Some("main.js")), "main.js:1: dep");
    assert_eq!(resolver.na_reason(Some("dep")), "unresolvable dependency");
    assert!(!files.load(&mut resolver, "top.js").unwrap());
    assert_eq!(resolver.na_reason(Some("top.js")), "top.js:1: main.js:1: dep");
}

#[test]
fn lenient_loads_succeed_whatever_they_import() {
    let mut files = Files::of(&[
        ("config.js", "import a from './a.js';\nimport b from './b.js';\nconfig();"),
        ("a.js", "import b from './b.js';"),
        ("b.js", "1;"),
        ("ok.js", "import gone from './gone.js';\nimport t from './t.ts';\nconfig();"),
        ("t.ts", "const = ;"),
    ]);
    files.unreadable.push("b.js".to_string());
    let mut resolver = ModuleResolver::default();
    assert!(files.load_lenient(&mut resolver, "config.js").unwrap());
    assert_eq!(resolver.get_preprocessed_script("config.js"), Some("config();"));
    assert_eq!(resolver.na_reason(Some("a.js")), "a.js:1: b.js");
    assert!(files.load_lenient(&mut resolver, "ok.js").unwrap());
    assert_eq!(resolver.get_preprocessed_script("ok.js"), Some("config();"));
    assert_eq!(resolver.evaluation_plan("ok.js", "ok.js").unwrap().len(), 1);
}

#[test]
fn circular_imports_make_modules_unavailable() {
    let mut files = Files::of(&[
        ("a.js", "import { B } from './b.js';\nexport const A = 1;\n"),
        ("b.js", "import { A } from './a.js';\nexport const B = 2;\n"),
        ("self.js", "let x;\nimport me from './self.js';"),
        ("config.js", "import c from './c.js';\nimport me from './config.js';\nconfig();"),
        ("c.js", "import config from './config.js';"),
    ]);
    let mut resolver = ModuleResolver::default();
    assert!(!files.load(&mut resolver, "a.js").unwrap());
    assert_eq!(resolver.na_reason(Some("b.js")), "b.js:1: circular import of './a.js'");
    assert_eq!(resolver.na_reason(Some("a.js")), "a.js:1: b.js:1: circular import of './a.js'");
    assert!(!files.load(&mut resolver, "self.js").unwrap());
    assert_eq!(resolver.na_reason(Some("self.js")), "self.js:2: circular import of './self.js'");
    assert!(files.load_lenient(&mut resolver, "config.js").unwrap());
    assert_eq!(resolver.get_preprocessed_script("config.js"), Some("config();"));
    assert_eq!(resolver.na_reason(Some("c.js")), "c.js:1: circular import of './config.js'");
    assert_eq!(resolver.evaluation_plan("config.js", "config.js").unwrap().len(), 1);
}

#[test]
fn recorded_reasons_come_before_circular_imports() {
    let mut files = Files::of(&[
        ("p.js", "import tool from 'tool';\nimport d from './d.js';\np();"),
        ("d.js", "import p from './p.js';"),
    ]);
    let mut resolver = ModuleResolver::default();
    assert!(!files.load(&mut resolver, "p.js").unwrap());
    assert!(files.load_lenient(&mut resolver, "p.js").unwrap());
    assert_eq!(
        resolver.na_reason(Some("d.js")),
        "d.js:1: p.js:1: cannot resolve 'tool'"
    );
    assert_eq!(resolver.get_preprocessed_script("p.js"), Some("p();"));
}

#[test]
fn imports_of_a_lenient_module_give_what_it_passed_over() {
    let mut files = Files::of(&[
        ("p.js", "import t from './gone.js';\nimport d from './d.js';\nimport e from './e.js';"),
        ("d.js", "import p from './p.js';\n"),
        ("e.js", "let e;\nimport d from './d.js';"),
        ("q.js", "import bad from './bad.js';\nimport f from './f.js';\nimport q from './q.js';"),
        ("bad.js", "import x from 'x';"),
        ("f.js", "import q from './q.js';"),
    ]);
    let mut resolver = ModuleResolver::default();
    assert!(files.load_lenient(&mut resolver, "p.js").unwrap());
    let reason = "d.js:1: p.js:1: cannot resolve './gone.js'";
    assert_eq!(resolver.na_reason(Some("d.js")), reason);
    assert_eq!(resolver.na_reason(Some("e.js")), format!("e.js:2: {}", reason));
    assert_eq!(resolver.get_preprocessed_script("p.js"), Some(""));
    assert!(files.load_lenient(&mut resolver, "q.js").unwrap());
    assert_eq!(
        resolver.na_reason(Some("f.js")),
        "f.js:1: q.js:1: bad.js:1: cannot resolve 'x'"
    );
}

#[test]
fn lenient_loads_agree_with_strict_ones() {
    let texts = [
        ("main.js", "import dep from './dep.js';\nexport const a = 1;"),
        ("dep.js", "export const b = 2;"),
        ("other.js", "3;"),
    ];
    let mut strict = ModuleResolver::default();
    let mut lenient = ModuleResolver::default();
    assert!(Files::of(&texts).load(&mut strict, "main.js").unwrap());
    assert!(Files::of(&texts).load_lenient(&mut lenient, "main.js").unwrap());
    for path in ["main.js", "dep.js", "other.js"] {
        assert_eq!(
            strict.get_preprocessed_script(path),
            lenient.get_preprocessed_script(path)
        );
    }
    assert_eq!(strict.get_preprocessed_script("other.js"), None);
    assert_eq!(strict.evaluation_plan("main.js", "main.js").unwrap().len(), 2);
    assert_eq!(lenient.evaluation_plan("main.js", "main.js").unwrap().len(), 2);
}

#[test]
fn workflows_without_imports_are_their_scripts() {
    let mut files = Files::of(&[("wf.js", "export const id = 'a';\n__gha_build(id, '{}');")]);
    let mut resolver = ModuleResolver::default();
    assert!(files.load(&mut resolver, "wf.js").unwrap());
    let workflow = execute_workflow(&resolver, Some("wf.js"), "wf.js").result.unwrap();
    let script = resolver.get_preprocessed_script("wf.js").unwrap();
    let alone = execute_js(script).result.unwrap();
    assert_eq!(workflow.len(), 1);
    assert_eq!(alone.len(), 1);
    assert_eq!((&workflow[0].id, &workflow[0].json), (&alone[0].id, &alone[0].json));
    assert_eq!(alone[0].id, "a");
}

#[test]
fn workflows_that_throw_give_no_outputs() {
    let mut files =
        Files::of(&[("wf.js", "__gha_build('a', '{}');\nthrow new Error('boom');\n")]);
    let mut resolver = ModuleResolver::default();
    assert!(files.load(&mut resolver, "wf.js").unwrap());
    let error = execute_workflow(&resolver, Some("wf.js"), "wf.js").result.unwrap_err();
    assert!(error.message().starts_with("QuickJS eval error in wf.js: "));
    assert!(resolver.get_preprocessed_script("wf.js").is_some());
}

#[test]
fn visits_leave_out_what_was_visited() {
    let mut files = Files::of(&[
        ("base.js", "1;"),
        ("left.js", "import base from './base.js';"),
        ("top.js", "import l from './left.js';\nimport b from './base.js';"),
    ]);
    let mut resolver = ModuleResolver::default();
    assert!(files.load(&mut resolver, "top.js").unwrap());
    let mut visited = StringHashSet::new();
    let mut order = vec!["first".to_string()];
    visited.insert("left.js".to_string());
    resolver.collect_ordered(&"top.js".to_string(), &mut visited, &mut order);
    assert_eq!(order, vec!["first", "base.js", "top.js"]);
    resolver.collect_ordered(&"top.js".to_string(), &mut visited, &mut order);
    resolver.collect_ordered(&"unknown.js".to_string(), &mut visited, &mut order);
    assert_eq!(order, vec!["first", "base.js", "top.js", "unknown.js"]);
}

#[test]
fn modules_that_are_not_ready_are_refused() {
    let mut files = Files::of(&[("bad.js", "import x from './gone.js'")]);
    let mut resolver = ModuleResolver::default();
    assert!(!files.load(&mut resolver, "bad.js").unwrap());
    let rt = JsRuntime::new().unwrap();
    let ctx = JsContext::full(&rt).unwrap();
    ctx.with(|ctx| {
        let mut engine = Engine::new(ctx.clone());
        let error = resolver.execute_module("bad.js", "dir/bad.js", &mut engine).unwrap_err();
        assert_eq!(
            error.message(),
            "Module dir/bad.js is not available for QuickJS: bad.js:1: cannot resolve './gone.js'"
        );
        let error = resolver.execute_module("other.js", "other.js", &mut engine).unwrap_err();
        assert_eq!(error.message(), "Module other.js was not loaded");
    });
    let error = execute_workflow(&resolver, Some("bad.js"), "bad.js").result.unwrap_err();
    assert_eq!(
        error.message(),
        "Workflow bad.js cannot be processed by QuickJS: bad.js:1: cannot resolve './gone.js'"
    );
    let error = execute_workflow(&resolver, None, "x.js").result.unwrap_err();
    assert_eq!(
        error.message(),
        "Workflow x.js cannot be processed by QuickJS: unresolvable dependency"
    );
}

#[test]
fn workflows_build_outputs() {
    let mut files = Files::of(&[
        (
            "runtime.js",
            "export class Workflow {\n  constructor(name) { this.name = name; }\n  build(id) { __gha_build(id, JSON.stringify(this)); }\n}\n",
        ),
        (
            "ci.ts",
            "import { Workflow } from './runtime.js';\nconst wf: Workflow = new Workflow(\"CI\");\nwf.build(\"ci\");\n",
        ),
        ("fails.js", "import { Workflow } from './runtime.js';\nmissing();"),
    ]);
    let mut resolver = ModuleResolver::default();
    assert!(files.load(&mut resolver, "ci.ts").unwrap());
    let outputs = execute_workflow(&resolver, Some("ci.ts"), "ci.ts").result.unwrap();
    assert_eq!(outputs.len(), 1);
    assert_eq!(outputs[0].id, "ci");
    assert_eq!(outputs[0].json, "{\"name\":\"CI\"}");
    assert_eq!(outputs[0].output_type, "workflow");
    assert!(files.load(&mut resolver, "fails.js").unwrap());
    let error = execute_workflow(&resolver, Some("fails.js"), "fails.js").result.unwrap_err();
    assert_eq!(
        error.message(),
        "QuickJS eval error in fails.js: Exception generated by QuickJS"
    );
}
