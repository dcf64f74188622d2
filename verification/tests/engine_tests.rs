use gha_executor::engine::{
    context_outcome, eval_outcome, execute_js, run_scripts, runtime_outcome, Engine, Script,
};
use gha_executor::error::ExecuteError;
use gha_executor::output::{record_build, BuildOutput};
use rquickjs::{Context as JsContext, Runtime as JsRuntime};

#[test]
fn test_execute_js_basic() {
    let code = r#"
            function __test() {
                __gha_build("test-workflow", '{"name":"test","on":{"push":{}},"jobs":{}}', "workflow");
            }
            __test();
        "#;
    let outputs = execute_js(code).result.unwrap();
    assert_eq!(outputs.len(), 1);
    assert_eq!(outputs[0].id, "test-workflow");
    assert_eq!(outputs[0].output_type, "workflow");
}

#[test]
fn test_execute_js_multiple_outputs() {
    let code = r#"
            __gha_build("wf1", '{"name":"first"}', "workflow");
            __gha_build("wf2", '{"name":"second"}', "workflow");
            __gha_build("act1", '{"name":"action1"}', "action");
        "#;
    let outputs = execute_js(code).result.unwrap();
    assert_eq!(outputs.len(), 3);
    assert_eq!(outputs[0].output_type, "workflow");
    assert_eq!(outputs[2].output_type, "action");
}

#[test]
fn outputs_default_to_workflows() {
    let outputs = execute_js("__gha_build('a', '{}');").result.unwrap();
    assert_eq!(outputs[0].id, "a");
    assert_eq!(outputs[0].json, "{}");
    assert_eq!(outputs[0].output_type, "workflow");
    assert!(execute_js("1 + 1;").result.unwrap().is_empty());
}

#[test]
fn records_are_appended() {
    let mut outputs: Vec<BuildOutput> = Vec::new();
    record_build(&mut outputs, "a".to_string(), "1".to_string(), None);
    record_build(&mut outputs, "b".to_string(), "2".to_string(), Some("action".to_string()));
    let copy = outputs[1].clone();
    assert_eq!(outputs[0].output_type, "workflow");
    assert_eq!((copy.id, copy.json, copy.output_type), ("b".into(), "2".into(), "action".into()));
}

#[test]
fn failing_scripts_are_reported() {
    let error = execute_js("throw new Error('no');").result.unwrap_err();
    assert!(matches!(error, ExecuteError::Eval { module: None, .. }));
    assert_eq!(error.message(), "QuickJS evaluation error: Exception generated by QuickJS");
    let nul = execute_js("1;\0").result;
    assert!(nul.is_err());
}

#[test]
fn scripts_share_globals_and_stop_at_a_failure() {
    let script = |module: &str, text: &str| Script {
        module: Some(module.to_string()),
        text: text.to_string(),
    };
    let scripts = vec![
        script("a", "var a = 'x';"),
        script("b", "__gha_build(a, '1', 'action');"),
    ];
    let outputs = run_scripts(&scripts).result.unwrap();
    assert_eq!(outputs[0].id, "x");
    let scripts = vec![
        script("a", "var a = 1;"),
        script("b", "missing();"),
        script("c", "syntax error"),
    ];
    let error = run_scripts(&scripts).result.unwrap_err();
    assert_eq!(
        error.message(),
        "QuickJS eval error in b: Exception generated by QuickJS"
    );
}

#[test]
fn engines_evaluate_in_the_callers_context() {
    let rt = JsRuntime::new().unwrap();
    let ctx = JsContext::full(&rt).unwrap();
    ctx.with(|ctx| {
        let mut engine = Engine::new(ctx.clone());
        let script = Script { module: None, text: "var seen = 7;".to_string() };
        engine.eval(&script).unwrap();
        let seen: i32 = ctx.globals().get("seen").unwrap();
        assert_eq!(seen, 7);
    });
}

#[test]
fn outcomes_name_the_module() {
    assert!(eval_outcome(&None, Ok(())).is_ok());
    let error = eval_outcome(&Some("/m.js".to_string()), Err("bad".to_string())).unwrap_err();
    assert_eq!(error.message(), "QuickJS eval error in /m.js: bad");
}

#[test]
fn set_up_outcomes_name_what_failed() {
    assert_eq!(runtime_outcome(Ok(7)).unwrap(), 7);
    assert_eq!(context_outcome(Ok(8)).unwrap(), 8);
    let error = runtime_outcome::<u8>(Err("short".to_string())).unwrap_err();
    assert!(matches!(error, ExecuteError::Runtime { cause } if cause == "short"));
    let error = context_outcome::<u8>(Err("short".to_string())).unwrap_err();
    assert!(matches!(error, ExecuteError::Context { cause } if cause == "short"));
}

#[test]
fn messages_say_what_failed() {
    let display = || "w.ts".to_string();
    let reason = || "why".to_string();
    let cause = || "cause".to_string();
    assert_eq!(
        ExecuteError::NotLoaded { display: display() }.message(),
        "Module w.ts was not loaded"
    );
    assert_eq!(
        ExecuteError::NotAvailable { display: display(), reason: reason() }.message(),
        "Module w.ts is not available for QuickJS: why"
    );
    assert_eq!(
        ExecuteError::CannotProcess { display: display(), reason: reason() }.message(),
        "Workflow w.ts cannot be processed by QuickJS: why"
    );
    assert_eq!(
        ExecuteError::Runtime { cause: cause() }.message(),
        "Failed to create QuickJS runtime"
    );
    assert_eq!(
        ExecuteError::Context { cause: cause() }.message(),
        "Failed to create QuickJS context"
    );
    assert_eq!(
        ExecuteError::Register { cause: cause() }.message(),
        "Failed to set __gha_build: cause"
    );
}
