use gha_executor::rewrite::{find_import, read_line, read_lines, write_script, Line};
use gha_executor::text::to_chars;

fn kept(line: &str) -> String {
    match read_line(&to_chars(line)) {
        Line::Kept(text) => text,
        other => panic!("{:?}", other),
    }
}

fn import(line: &str) -> String {
    match read_line(&to_chars(line)) {
        Line::Import(specifier) => specifier,
        other => panic!("{:?}", other),
    }
}

fn dropped(line: &str) -> bool {
    matches!(read_line(&to_chars(line)), Line::Dropped)
}

#[test]
fn imports_name_a_specifier() {
    assert_eq!(import("import { X } from \"./x.js\";"), "./x.js");
    assert_eq!(import("  import{Y} from './y.ts' ; "), "./y.ts");
    assert_eq!(import("import Z from \"./z.js\";;"), "./z.js");
    assert_eq!(import("import a from b from 'c'"), "b from 'c");
    assert!(dropped("import \"./side-effect.js\";"));
    assert!(dropped("import{"));
    assert_eq!(kept("imports from 'x'"), "imports from 'x'");
    assert_eq!(kept("import\t{ X } from 'x'"), "import\t{ X } from 'x'");
}

#[test]
fn exports_become_variables() {
    assert_eq!(kept("export const x = 42;"), "var x = 42;");
    assert_eq!(kept("  export let y = 1;"), "var y = 1;");
    assert_eq!(kept("export var z;"), "var z;");
    assert_eq!(
        kept("export function greet(a) { return a; }"),
        "var greet = function greet(a) { return a; }"
    );
    assert_eq!(
        kept("export async function wait (ms) {"),
        "var wait = async function wait (ms) {"
    );
    assert_eq!(kept("export function broken"), "broken");
    assert_eq!(kept("export async function broken"), "broken");
    assert_eq!(kept("export class Job {"), "var Job = class Job {");
    assert_eq!(kept("export class Job{"), "var Job = class Job{");
    assert_eq!(kept("export class Job"), "var Job = class Job");
    assert_eq!(
        kept("export class A extends B {"),
        "var A = class A extends B {"
    );
}

#[test]
fn other_exports_lose_the_keyword() {
    assert_eq!(kept("export default new Workflow();"), "new Workflow();");
    assert_eq!(kept("export default function f() {}"), "function f() {}");
    assert_eq!(kept("export * from './a.js';"), "* from './a.js';");
    assert_eq!(kept("export type T = string;"), "type T = string;");
    assert!(dropped("export { a, b };"));
    assert!(dropped("\texport { a } from './a.js';"));
    assert_eq!(kept("export{ a };"), "export{ a };");
    assert_eq!(kept("exported();"), "exported();");
}

#[test]
fn other_lines_stay_as_they_are() {
    assert_eq!(kept("    return 1; "), "    return 1; ");
    assert_eq!(kept(""), "");
    assert_eq!(kept("\u{3000}é"), "\u{3000}é");
}

#[test]
fn scripts_hold_the_kept_lines() {
    let lines = read_lines("import a from 'b';\nexport const x = 1;\r\n\n  x;\nexport { x };\n");
    assert_eq!(write_script(&lines), "var x = 1;\n\n  x;");
    assert_eq!(find_import(&lines, 0), 0);
    assert_eq!(find_import(&lines, 1), 5);
    assert_eq!(write_script(&read_lines("")), "");
}

#[test]
fn joined_texts_give_joined_scripts() {
    let script = |text: &str| write_script(&read_lines(text));
    let a = "import x from 'y';\nexport const a = 1;";
    let b = "export { a };\n  a;\n";
    let both = script(&(a.to_string() + "\n" + b));
    assert_eq!(both, "var a = 1;\n  a;");
    assert_eq!(both, script(a) + "\n" + &script(b));
}
