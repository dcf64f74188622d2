use gha_executor::typescript::{report, strip_typescript};

#[test]
fn test_strip_typescript_basic() {
    let ts_source = "const x: number = 42;\nconst y: string = \"hello\";";
    let result = strip_typescript(ts_source, "test.ts").unwrap();
    assert!(result.contains("const x = 42"));
    assert!(result.contains("const y = \"hello\""));
    assert!(!result.contains(": number"));
    assert!(!result.contains(": string"));
}

#[test]
fn parse_errors_are_listed() {
    let message = strip_typescript("const = ;", "test.ts").unwrap_err();
    assert!(message.starts_with("Parse errors:\n"));
    assert!(message.len() > "Parse errors:\n".len());
}

#[test]
fn unknown_extensions_are_read_as_tsx() {
    let source = "const a: number = 1;\nconst b = <T,>(x: T) => x;\nexport const c = <div>{a}</div>;";
    assert!(strip_typescript(source, "test.ts").is_err());
    let result = strip_typescript(source, "test.unknown").unwrap();
    assert!(result.contains("const a = 1"));
    assert_eq!(strip_typescript(source, "noextension").unwrap(), result);
}

#[test]
fn known_extensions_pick_the_dialect() {
    assert!(strip_typescript("const a: number = 1;", "test.js").is_err());
    assert!(strip_typescript("const a = 1;", "test.js").unwrap().contains("const a = 1"));
}

#[test]
fn the_last_component_picks_the_dialect() {
    let source = "const c = <div>{1}</div>;";
    assert!(strip_typescript(source, "dir.tsx/test.ts").is_err());
    assert!(strip_typescript(source, "dir.ts/test.tsx").is_ok());
    assert!(strip_typescript(source, "dir.ts/test").is_ok());
    assert!(strip_typescript(source, "dir.ts/.ts").is_ok());
    assert!(strip_typescript(source, "/a/b.c/test.ts").is_err());
}

#[test]
fn reports_join_the_errors() {
    assert_eq!(report(Ok("code".to_string())), Ok("code".to_string()));
    assert_eq!(
        report(Err(vec!["first".to_string(), "second".to_string()])),
        Err("Parse errors:\nfirst\nsecond".to_string())
    );
    assert_eq!(report(Err(vec![])), Err("Parse errors:\n".to_string()));
}
