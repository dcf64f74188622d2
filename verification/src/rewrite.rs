//! Turns the lines of a module into lines of a plain script.
//!
//! The script engine evaluates each module as a script of its own. What a module exports becomes
//! a `var`, which stays visible to the scripts that follow; import lines are taken out, and what
//! they name is evaluated first.

use vstd::prelude::*;
use vstd::slice::slice_subrange;
use vstd::string::*;

use crate::text::{
    find_class, join, push_chars, split_after, split_lines, starts_with, strip_prefix, to_text,
    trim, trim_back, CharClass,
};

verus! {

broadcast use vstd::seq_lib::group_seq_properties;

/// What a line of a module is, as the contracts see it.
pub enum LineView {
    /// An import of the module that the specifier names.
    Import(Seq<char>),
    /// A line that has no place in the script.
    Dropped,
    /// A line of the script.
    Kept(Seq<char>),
}

/// What a line of a module is.
#[derive(Debug)]
pub enum Line {
    /// An import of the module that the specifier names.
    Import(String),
    /// A line that has no place in the script.
    Dropped,
    /// A line of the script.
    Kept(String),
}

impl View for Line {
    type V = LineView;

    open spec fn view(&self) -> LineView {
        match *self {
            Line::Import(specifier) => LineView::Import(specifier@),
            Line::Dropped => LineView::Dropped,
            Line::Kept(text) => LineView::Kept(text@),
        }
    }
}

/// The module specifier in what follows ` from `: without white space around it, without the
/// semicolons that end the statement, and without its quotes.
pub open spec fn specifier_of(from_part: Seq<char>) -> Seq<char> {
    crate::text::trimmed(
        crate::text::trimmed_back(
            crate::text::trimmed(from_part, CharClass::WhiteSpace),
            CharClass::Semicolon,
        ),
        CharClass::Quoting,
    )
}

/// An exported function as a variable that holds the function. `rest` is what follows the
/// keyword; a line without a parameter list is left as `rest`.
pub open spec fn function_line(keyword: Seq<char>, rest: Seq<char>) -> Seq<char> {
    let paren: nat = crate::text::first_of(rest, CharClass::Parenthesis);
    if paren < rest.len() {
        "var "@ + crate::text::trimmed(rest.take(paren as int), CharClass::WhiteSpace) + " = "@
            + keyword + " "@ + rest
    } else {
        rest
    }
}

/// An exported class as a variable that holds the class. `rest` is what follows the keyword.
pub open spec fn class_line(rest: Seq<char>) -> Seq<char> {
    let end: nat = crate::text::first_of(rest, CharClass::NameEnd);
    let name = rest.take(end as int);
    "var "@ + name + " = class "@ + name + rest.skip(end as int)
}

/// Whether a trimmed line is an import.
pub open spec fn is_import(t: Seq<char>) -> bool {
    "import "@.is_prefix_of(t) || "import{"@.is_prefix_of(t)
}

/// What an export becomes, where the trimmed line is one.
pub open spec fn export_line(t: Seq<char>) -> Option<LineView> {
    if "export {"@.is_prefix_of(t) {
        Some(LineView::Dropped)
    } else if let Some(rest) = crate::text::without_prefix(t, "export default "@) {
        Some(LineView::Kept(rest))
    } else if let Some(rest) = crate::text::without_prefix(t, "export async function "@) {
        Some(LineView::Kept(function_line("async function"@, rest)))
    } else if let Some(rest) = crate::text::without_prefix(t, "export function "@) {
        Some(LineView::Kept(function_line("function"@, rest)))
    } else if let Some(rest) = crate::text::without_prefix(t, "export class "@) {
        Some(LineView::Kept(class_line(rest)))
    } else if let Some(rest) = crate::text::without_prefix(t, "export const "@) {
        Some(LineView::Kept("var "@ + rest))
    } else if let Some(rest) = crate::text::without_prefix(t, "export let "@) {
        Some(LineView::Kept("var "@ + rest))
    } else if let Some(rest) = crate::text::without_prefix(t, "export var "@) {
        Some(LineView::Kept("var "@ + rest))
    } else if let Some(rest) = crate::text::without_prefix(t, "export "@) {
        Some(LineView::Kept(rest))
    } else {
        None
    }
}

/// What a line is. White space around it plays no part, except that a line which is neither an
/// import nor an export is kept as it stands.
pub open spec fn line_of(line: Seq<char>) -> LineView {
    let t = crate::text::trimmed(line, CharClass::WhiteSpace);
    if is_import(t) {
        match crate::text::after_first(t, " from "@) {
            Some(from_part) => LineView::Import(specifier_of(from_part)),
            None => LineView::Dropped,
        }
    } else {
        match export_line(t) {
            Some(view) => view,
            None => LineView::Kept(line),
        }
    }
}

/// What the lines of a source text are.
pub open spec fn source_lines(source: Seq<char>) -> Seq<LineView> {
    crate::text::lines_of(source).map_values(|line: Seq<char>| line_of(line))
}

/// The lines that stay in the script.
pub open spec fn kept_lines(lines: Seq<LineView>) -> Seq<Seq<char>>
    decreases lines.len(),
{
    if lines.len() == 0 {
        Seq::empty()
    } else {
        match lines.last() {
            LineView::Kept(text) => kept_lines(lines.drop_last()).push(text),
            _ => kept_lines(lines.drop_last()),
        }
    }
}

/// The script that the lines of a module make.
pub open spec fn script_of(lines: Seq<LineView>) -> Seq<char> {
    crate::text::joined(kept_lines(lines), "\n"@)
}

/// The position of the first import at or after `from`, or the number of lines.
pub open spec fn next_import(lines: Seq<LineView>, from: nat) -> nat
    decreases lines.len() - from,
{
    if from >= lines.len() || lines[from as int] is Import {
        from
    } else {
        next_import(lines, from + 1)
    }
}

/// The next import is not before `from`, it is an import unless it is the end, and there is none
/// before it.
pub proof fn lemma_next_import(lines: Seq<LineView>, from: nat)
    ensures
        from <= next_import(lines, from),
        from <= lines.len() ==> next_import(lines, from) <= lines.len(),
        next_import(lines, from) < lines.len() ==> lines[next_import(lines, from) as int] is Import,
        forall|i: int|
            from <= i < next_import(lines, from) && i < lines.len() ==> !(#[trigger] lines[
                i
            ] is Import),
    decreases lines.len() - from,
{
    if from < lines.len() && !(lines[from as int] is Import) {
        lemma_next_import(lines, from + 1);
    }
}

/// The views of a list of lines.
pub open spec fn line_views(lines: Seq<Line>) -> Seq<LineView> {
    lines.map_values(|line: Line| line@)
}

/// Reads the specifier in what follows ` from `.
pub fn read_specifier(from_part: &[char]) -> (r: String)
    ensures
        r@ == specifier_of(from_part@),
{
    let statement = trim(from_part, CharClass::WhiteSpace);
    let quoted = trim_back(statement, CharClass::Semicolon);
    to_text(trim(quoted, CharClass::Quoting))
}

fn export_function(keyword: &str, rest: &[char]) -> (r: String)
    ensures
        r@ == function_line(keyword@, rest@),
{
    let paren: usize = find_class(rest, CharClass::Parenthesis);
    if paren < rest.len() {
        let head = slice_subrange(rest, 0, paren);
        assert(head@ == rest@.take(paren as int));
        let mut r = "var ".to_owned();
        push_chars(&mut r, trim(head, CharClass::WhiteSpace));
        r.append(" = ");
        r.append(keyword);
        r.append(" ");
        push_chars(&mut r, rest);
        r
    } else {
        to_text(rest)
    }
}

fn export_class(rest: &[char]) -> (r: String)
    ensures
        r@ == class_line(rest@),
{
    let end: usize = find_class(rest, CharClass::NameEnd);
    let name = slice_subrange(rest, 0, end);
    let tail = slice_subrange(rest, end, rest.len());
    assert(name@ == rest@.take(end as int));
    assert(tail@ == rest@.skip(end as int));
    let mut r = "var ".to_owned();
    push_chars(&mut r, name);
    r.append(" = class ");
    push_chars(&mut r, name);
    push_chars(&mut r, tail);
    r
}

fn export_variable(rest: &[char]) -> (r: String)
    ensures
        r@ == "var "@ + rest@,
{
    let mut r = "var ".to_owned();
    push_chars(&mut r, rest);
    r
}

fn read_export(t: &[char]) -> (r: Option<Line>)
    ensures
        match r {
            Some(line) => export_line(t@) == Some(line@),
            None => export_line(t@) is None,
        },
{
    if starts_with(t, "export {") {
        Some(Line::Dropped)
    } else if let Some(rest) = strip_prefix(t, "export default ") {
        Some(Line::Kept(to_text(rest)))
    } else if let Some(rest) = strip_prefix(t, "export async function ") {
        Some(Line::Kept(export_function("async function", rest)))
    } else if let Some(rest) = strip_prefix(t, "export function ") {
        Some(Line::Kept(export_function("function", rest)))
    } else if let Some(rest) = strip_prefix(t, "export class ") {
        Some(Line::Kept(export_class(rest)))
    } else if let Some(rest) = strip_prefix(t, "export const ") {
        Some(Line::Kept(export_variable(rest)))
    } else if let Some(rest) = strip_prefix(t, "export let ") {
        Some(Line::Kept(export_variable(rest)))
    } else if let Some(rest) = strip_prefix(t, "export var ") {
        Some(Line::Kept(export_variable(rest)))
    } else if let Some(rest) = strip_prefix(t, "export ") {
        Some(Line::Kept(to_text(rest)))
    } else {
        None
    }
}

/// Reads one line of a module.
pub fn read_line(line: &[char]) -> (r: Line)
    ensures
        r@ == line_of(line@),
{
    let t = trim(line, CharClass::WhiteSpace);
    if starts_with(t, "import ") || starts_with(t, "import{") {
        match split_after(t, " from ") {
            Some(from_part) => Line::Import(read_specifier(from_part)),
            None => Line::Dropped,
        }
    } else {
        match read_export(t) {
            Some(export) => export,
            None => Line::Kept(to_text(line)),
        }
    }
}

/// Reads the lines of a source text.
pub fn read_lines(source: &str) -> (r: Vec<Line>)
    ensures
        line_views(r@) == source_lines(source@),
{
    let lines = split_lines(source);
    let mut r: Vec<Line> = Vec::new();
    let ghost texts = lines@.map_values(|line: Vec<char>| line@);
    for i in 0..lines.len()
        invariant
            texts == lines@.map_values(|line: Vec<char>| line@),
            r@.len() == i,
            forall|k: int| 0 <= k < i ==> (#[trigger] r@[k])@ == line_of(texts[k]),
    {
        r.push(read_line(lines[i].as_slice()));
    }
    assert(line_views(r@) == source_lines(source@));
    r
}

/// Makes the script of the lines that stay.
pub fn write_script(lines: &Vec<Line>) -> (r: String)
    ensures
        r@ == script_of(line_views(lines@)),
{
    let mut kept: Vec<String> = Vec::new();
    let ghost views = line_views(lines@);
    for i in 0..lines.len()
        invariant
            views == line_views(lines@),
            crate::text::texts(kept@) == kept_lines(views.take(i as int)),
    {
        let ghost before = kept@;
        assert(views.take(i + 1).drop_last() == views.take(i as int));
        assert(views.take(i + 1).last() == lines@[i as int]@);
        if let Line::Kept(text) = &lines[i] {
            kept.push(text.clone());
            assert(crate::text::texts(kept@) == crate::text::texts(before).push(text@));
        }
    }
    assert(views.take(views.len() as int) == views);
    join(&kept, "\n")
}

/// Finds the first import at or after `from`; the number of lines if there is none.
pub fn find_import(lines: &Vec<Line>, from: usize) -> (r: usize)
    requires
        from <= lines@.len(),
    ensures
        r == next_import(line_views(lines@), from as nat),
        r <= lines@.len(),
        r < lines@.len() ==> lines@[r as int]@ is Import,
{
    let mut i: usize = from;
    while i < lines.len()
        invariant
            from <= i <= lines@.len(),
            next_import(line_views(lines@), from as nat) == next_import(
                line_views(lines@),
                i as nat,
            ),
        decreases lines.len() - i,
    {
        if let Line::Import(_) = &lines[i] {
            return i;
        }
        i = i + 1;
    }
    i
}

/// No import line stays in a script.
pub proof fn law_imports_are_taken_out(line: Seq<char>)
    requires
        is_import(crate::text::trimmed(line, CharClass::WhiteSpace)),
    ensures
        !(line_of(line) is Kept),
{
}

/// What is exported becomes a variable of the script, under the name that the export gives it.
pub proof fn law_exports_become_variables(line: Seq<char>, rest: Seq<char>)
    ensures
        ({
            let t = crate::text::trimmed(line, CharClass::WhiteSpace);
            &&& t == "export const "@ + rest ==> line_of(line) == LineView::Kept("var "@ + rest)
            &&& t == "export let "@ + rest ==> line_of(line) == LineView::Kept("var "@ + rest)
            &&& t == "export var "@ + rest ==> line_of(line) == LineView::Kept("var "@ + rest)
            &&& t == "export class "@ + rest ==> line_of(line) == LineView::Kept(class_line(rest))
            &&& t == "export function "@ + rest ==> line_of(line) == LineView::Kept(
                function_line("function"@, rest),
            )
            &&& t == "export async function "@ + rest ==> line_of(line) == LineView::Kept(
                function_line("async function"@, rest),
            )
        }),
{
    reveal_strlit("import ");
    reveal_strlit("import{");
    reveal_strlit("export {");
    reveal_strlit("export default ");
    reveal_strlit("export async function ");
    reveal_strlit("export function ");
    reveal_strlit("export class ");
    reveal_strlit("export const ");
    reveal_strlit("export let ");
    reveal_strlit("export var ");
    let t = crate::text::trimmed(line, CharClass::WhiteSpace);
    lemma_prefix("export const "@, rest);
    lemma_prefix("export let "@, rest);
    lemma_prefix("export var "@, rest);
    lemma_prefix("export class "@, rest);
    lemma_prefix("export function "@, rest);
    lemma_prefix("export async function "@, rest);
    lemma_differs("import "@, t, 0);
    lemma_differs("import{"@, t, 0);
    lemma_differs("export {"@, t, 7);
    lemma_differs("export default "@, t, 7);
    lemma_differs("export async function "@, t, 7);
    lemma_differs("export function "@, t, 7);
    lemma_differs("export class "@, t, 8);
    lemma_differs("export class "@, t, 7);
    lemma_differs("export const "@, t, 8);
    lemma_differs("export const "@, t, 7);
    lemma_differs("export let "@, t, 7);
}

proof fn lemma_prefix(prefix: Seq<char>, rest: Seq<char>)
    ensures
        crate::text::without_prefix(prefix + rest, prefix) == Some(rest),
        forall|i: int| 0 <= i < prefix.len() ==> (prefix + rest)[i] == #[trigger] prefix[i],
{
    assert((prefix + rest).subrange(0, prefix.len() as int) == prefix);
    assert((prefix + rest).skip(prefix.len() as int) == rest);
}

proof fn lemma_differs(prefix: Seq<char>, t: Seq<char>, i: int)
    ensures
        0 <= i < prefix.len() && i < t.len() && prefix[i] != t[i] ==> !prefix.is_prefix_of(t),
{
    if prefix.is_prefix_of(t) && 0 <= i < prefix.len() {
        assert(t.subrange(0, prefix.len() as int)[i] == t[i]);
    }
}

proof fn lemma_line_end(a: Seq<char>, rest: Seq<char>)
    ensures
        crate::text::line_end(a) <= a.len(),
        crate::text::line_end(a) < a.len() ==> a[crate::text::line_end(a) as int] == '\n'
            && crate::text::line_end(a + rest) == crate::text::line_end(a),
        crate::text::line_end(a) == a.len() && rest.len() > 0 && rest[0] == '\n'
            ==> crate::text::line_end(a + rest) == a.len(),
    decreases a.len(),
{
    if a.len() == 0 {
        assert(a + rest == rest);
    } else if a[0] != '\n' {
        lemma_line_end(a.drop_first(), rest);
        assert((a + rest).drop_first() == a.drop_first() + rest);
    }
}

proof fn lemma_lines_of_joined(a: Seq<char>, b: Seq<char>)
    requires
        a.len() > 0,
        a.last() != '\n',
        a.last() != '\r',
    ensures
        crate::text::lines_of(a + seq!['\n'] + b) == crate::text::lines_of(a)
            + crate::text::lines_of(b),
    decreases a.len(),
{
    let c = a + seq!['\n'] + b;
    let rest = seq!['\n'] + b;
    assert(c == a + rest);
    lemma_line_end(a, rest);
    let end = crate::text::line_end(a) as int;
    assert(c.take(end) == a.take(end));
    if end < a.len() {
        let tail = a.skip(end + 1);
        assert(c.skip(end + 1) == tail + seq!['\n'] + b);
        lemma_lines_of_joined(tail, b);
        assert(crate::text::lines_of(c) == seq![crate::text::without_return(a.take(end))]
            + crate::text::lines_of(c.skip(end + 1)));
    } else {
        assert(a.take(end) == a);
        assert(c.skip(end + 1) == b);
        assert(crate::text::lines_of(a) == seq![a]);
        assert(crate::text::lines_of(c) == seq![a] + crate::text::lines_of(b));
    }
}

proof fn lemma_kept_lines_of_both(a: Seq<LineView>, b: Seq<LineView>)
    ensures
        kept_lines(a + b) == kept_lines(a) + kept_lines(b),
    decreases b.len(),
{
    if b.len() == 0 {
        assert(a + b == a);
    } else {
        lemma_kept_lines_of_both(a, b.drop_last());
        assert((a + b).drop_last() == a + b.drop_last());
    }
}

proof fn lemma_joined_both(a: Seq<Seq<char>>, b: Seq<Seq<char>>, separator: Seq<char>)
    requires
        a.len() > 0,
        b.len() > 0,
    ensures
        crate::text::joined(a + b, separator) == crate::text::joined(a, separator) + separator
            + crate::text::joined(b, separator),
    decreases b.len(),
{
    assert((a + b).drop_last() == a + b.drop_last());
    if b.len() == 1 {
        assert(a + b.drop_last() == a);
    } else {
        lemma_joined_both(a, b.drop_last(), separator);
    }
}

/// Each line is converted on its own, and the lines stay in their order: two texts that a line
/// feed joins keep the lines of both. Where both keep any, the script is the two scripts joined
/// by a line feed.
pub proof fn law_joined_texts_give_joined_scripts(a: Seq<char>, b: Seq<char>)
    requires
        a.len() > 0,
        a.last() != '\n',
        a.last() != '\r',
    ensures
        kept_lines(source_lines(a + "\n"@ + b)) == kept_lines(source_lines(a)) + kept_lines(
            source_lines(b),
        ),
        kept_lines(source_lines(a)).len() > 0 && kept_lines(source_lines(b)).len() > 0 ==> script_of(
            source_lines(a + "\n"@ + b),
        ) == script_of(source_lines(a)) + "\n"@ + script_of(source_lines(b)),
{
    reveal_strlit("\n");
    assert("\n"@ == seq!['\n']);
    lemma_lines_of_joined(a, b);
    assert(source_lines(a + "\n"@ + b) == source_lines(a) + source_lines(b));
    lemma_kept_lines_of_both(source_lines(a), source_lines(b));
    if kept_lines(source_lines(a)).len() > 0 && kept_lines(source_lines(b)).len() > 0 {
        lemma_joined_both(kept_lines(source_lines(a)), kept_lines(source_lines(b)), "\n"@);
    }
}

} // verus!
