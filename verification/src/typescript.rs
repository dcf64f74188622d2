//! Strips the types from TypeScript with the oxc compiler.

use std::path::Path;

use oxc_allocator::Allocator;
use oxc_codegen::Codegen;
use oxc_parser::Parser;
use oxc_semantic::SemanticBuilder;
use oxc_span::SourceType;
use oxc_transformer::{TransformOptions, Transformer};
use vstd::prelude::*;
use vstd::string::*;

use crate::text::{concat2, join};

verus! {

/// What oxc makes of a source text whose dialect the file's extension names: the generated
/// code, or the texts of the parse errors. `None` where oxc does not know the extension.
pub uninterp spec fn oxc_by_extension(source: Seq<char>, filename: Seq<char>) -> Option<
    Result<Seq<char>, Seq<Seq<char>>>,
>;

/// What oxc makes of a source text read as TypeScript with JSX: the generated code, or the texts
/// of the parse errors.
pub uninterp spec fn oxc_as_tsx(source: Seq<char>, filename: Seq<char>) -> Result<
    Seq<char>,
    Seq<Seq<char>>,
>;

/// What follows the last slash of a path.
pub open spec fn last_component(path: Seq<char>) -> Seq<char>
    decreases path.len(),
{
    if path.len() == 0 || path.last() == '/' {
        Seq::empty()
    } else {
        last_component(path.drop_last()).push(path.last())
    }
}

/// Whether what follows the last slash of a path is its file name on every platform.
pub open spec fn ends_in_file_name(path: Seq<char>) -> bool {
    &&& forall|i: int| 0 <= i < path.len() ==> path[i] != '\\' && path[i] != ':'
    &&& !(path.len() > 1 && path[0] == '/' && path[1] == '/')
    &&& path.contains('/') ==> {
        &&& last_component(path) != ""@
        &&& last_component(path) != "."@
        &&& last_component(path) != ".."@
    }
}

/// The extensions that oxc knows.
pub open spec fn is_known_extension(extension: Seq<char>) -> bool {
    ||| extension == "js"@
    ||| extension == "mjs"@
    ||| extension == "cjs"@
    ||| extension == "jsx"@
    ||| extension == "ts"@
    ||| extension == "mts"@
    ||| extension == "cts"@
    ||| extension == "tsx"@
}

/// Whether a file name has an extension that oxc knows, after a stem that is not empty.
pub open spec fn has_known_extension(name: Seq<char>) -> bool {
    exists|stem: Seq<char>, extension: Seq<char>| #[trigger]
        (stem + "."@ + extension) == name && stem.len() > 0 && is_known_extension(extension)
}

/// The contents of what a run of oxc gave.
pub open spec fn outcome_view(outcome: Result<String, Vec<String>>) -> Result<
    Seq<char>,
    Seq<Seq<char>>,
> {
    match outcome {
        Ok(code) => Ok(code@),
        Err(errors) => Err(crate::text::texts(errors@)),
    }
}

/// What oxc makes of a source text. A file whose extension oxc does not know is read as
/// TypeScript with JSX.
pub open spec fn oxc_outcome(source: Seq<char>, filename: Seq<char>) -> Result<
    Seq<char>,
    Seq<Seq<char>>,
> {
    match oxc_by_extension(source, filename) {
        Some(outcome) => outcome,
        None => oxc_as_tsx(source, filename),
    }
}

/// The code, or the message that lists the parse errors, one to a line.
pub open spec fn reported(outcome: Result<Seq<char>, Seq<Seq<char>>>) -> Result<
    Seq<char>,
    Seq<char>,
> {
    match outcome {
        Ok(code) => Ok(code),
        Err(errors) => Err("Parse errors:\n"@ + crate::text::joined(errors, "\n"@)),
    }
}

/// The plain JavaScript of a TypeScript source text, or the message of the failure.
pub open spec fn stripped(source: Seq<char>, filename: Seq<char>) -> Result<Seq<char>, Seq<char>> {
    reported(oxc_outcome(source, filename))
}

/// Runs oxc on a source text: `SourceType::from_path` picks the dialect by the file's extension,
/// then `Parser::parse`, `SemanticBuilder::build`, `Transformer::build_with_scoping` and
/// `Codegen::build` follow one another. Claimed: the outcome depends on the source text and the
/// file name alone. It is `None` where `from_path` does not know the extension, `Err` with the
/// text of each error where the parser reports errors, and the generated code otherwise. Of a
/// path that ends in its file name on every platform, `from_path` knows the eight extensions that
/// its documentation lists.
#[verifier::external_body]
fn run_oxc_by_extension(source: &str, filename: &str) -> (r: Option<Result<String, Vec<String>>>)
    ensures
        match r {
            Some(outcome) => oxc_by_extension(source@, filename@) == Some(outcome_view(outcome)),
            None => oxc_by_extension(source@, filename@) is None,
        },
        r matches Some(Err(errors)) ==> errors@.len() > 0,
        ends_in_file_name(filename@) ==> (r is Some <==> has_known_extension(
            last_component(filename@),
        )),
{
    let source_type = SourceType::from_path(Path::new(filename)).ok()?;
    let allocator = Allocator::default();
    let parsed = Parser::new(&allocator, source, source_type).parse();
    if !parsed.errors.is_empty() {
        return Some(Err(parsed.errors.iter().map(|e| e.to_string()).collect()));
    }
    let mut program = parsed.program;
    let scoping = SemanticBuilder::new().build(&program).semantic.into_scoping();
    let options = TransformOptions::default();
    let transformer = Transformer::new(&allocator, Path::new(filename), &options);
    let _ = transformer.build_with_scoping(scoping, &mut program);
    Some(Ok(Codegen::new().build(&program).code))
}

/// Runs oxc on a source text as [`run_oxc_by_extension`] does, with the dialect that
/// `SourceType::tsx` names. Claimed: the outcome depends on the source text and the file name
/// alone. It is `Err` with the text of each error where the parser reports errors, and the
/// generated code otherwise.
#[verifier::external_body]
fn run_oxc_as_tsx(source: &str, filename: &str) -> (r: Result<String, Vec<String>>)
    ensures
        outcome_view(r) == oxc_as_tsx(source@, filename@),
        r matches Err(errors) ==> errors@.len() > 0,
{
    let allocator = Allocator::default();
    let parsed = Parser::new(&allocator, source, SourceType::tsx()).parse();
    if !parsed.errors.is_empty() {
        return Err(parsed.errors.iter().map(|e| e.to_string()).collect());
    }
    let mut program = parsed.program;
    let scoping = SemanticBuilder::new().build(&program).semantic.into_scoping();
    let options = TransformOptions::default();
    let transformer = Transformer::new(&allocator, Path::new(filename), &options);
    let _ = transformer.build_with_scoping(scoping, &mut program);
    Ok(Codegen::new().build(&program).code)
}

/// Turns what oxc gave into the code or a message that lists the parse errors.
pub fn report(outcome: Result<String, Vec<String>>) -> (r: Result<String, String>)
    ensures
        match outcome {
            Ok(made) => r matches Ok(code) && code@ == made@,
            Err(errors) => r matches Err(message) && message@ == "Parse errors:\n"@
                + crate::text::joined(crate::text::texts(errors@), "\n"@),
        },
        match r {
            Ok(code) => reported(outcome_view(outcome)) == Ok::<Seq<char>, Seq<char>>(code@),
            Err(message) => reported(outcome_view(outcome)) == Err::<Seq<char>, Seq<char>>(
                message@,
            ),
        },
{
    match outcome {
        Ok(code) => Ok(code),
        Err(errors) => Err(concat2("Parse errors:\n", join(&errors, "\n").as_str())),
    }
}

/// Strips the types from TypeScript source code, which leaves plain JavaScript. The error is the
/// message that lists the parse errors, of which there is at least one. The extension of the file
/// name picks the dialect if oxc knows the extension; otherwise it is TypeScript with JSX.
pub fn strip_typescript(source: &str, filename: &str) -> (r: Result<String, String>)
    ensures
        match r {
            Ok(code) => stripped(source@, filename@) == Ok::<Seq<char>, Seq<char>>(code@),
            Err(message) => stripped(source@, filename@) == Err::<Seq<char>, Seq<char>>(message@),
        },
        match oxc_by_extension(source@, filename@) {
            Some(Ok(made)) => r matches Ok(code) && code@ == made,
            Some(Err(_)) => r is Err,
            None => match oxc_as_tsx(source@, filename@) {
                Ok(made) => r matches Ok(code) && code@ == made,
                Err(_) => r is Err,
            },
        },
        r is Err ==> (oxc_outcome(source@, filename@) matches Err(errors) && errors.len() > 0),
        ends_in_file_name(filename@) ==> (oxc_by_extension(source@, filename@) is Some
            <==> has_known_extension(last_component(filename@))),
        ends_in_file_name(filename@) ==> stripped(source@, filename@) == reported(
            if has_known_extension(last_component(filename@)) {
                oxc_by_extension(source@, filename@)->0
            } else {
                oxc_as_tsx(source@, filename@)
            },
        ),
{
    let outcome = match run_oxc_by_extension(source, filename) {
        Some(outcome) => outcome,
        None => run_oxc_as_tsx(source, filename),
    };
    report(outcome)
}

/// Stripping gives the code that oxc makes, as it is, or a message that lists what oxc found, each
/// error on a line of its own. The dialect is TypeScript with JSX only where oxc does not know the
/// extension.
pub proof fn law_stripping_gives_what_oxc_made(source: Seq<char>, filename: Seq<char>)
    ensures
        stripped(source, filename) == (match oxc_by_extension(source, filename) {
            Some(Ok(code)) => Ok::<Seq<char>, Seq<char>>(code),
            Some(Err(errors)) => Err(
                "Parse errors:\n"@ + crate::text::joined(errors, "\n"@),
            ),
            None => match oxc_as_tsx(source, filename) {
                Ok(code) => Ok(code),
                Err(errors) => Err("Parse errors:\n"@ + crate::text::joined(errors, "\n"@)),
            },
        }),
{
}

/// What is seen of a run of oxc is the code, or the text of each error in its order.
pub proof fn law_outcome_view(outcome: Result<String, Vec<String>>)
    ensures
        match outcome {
            Ok(code) => outcome_view(outcome) == Ok::<Seq<char>, Seq<Seq<char>>>(code@),
            Err(errors) => {
                &&& outcome_view(outcome) matches Err(texts)
                &&& texts.len() == errors@.len()
                &&& forall|i: int| 0 <= i < texts.len() ==> #[trigger] texts[i] == errors@[i]@
            },
        },
{
}

/// The last component of a path is what stands behind its last slash.
pub proof fn law_last_component(front: Seq<char>, last: Seq<char>)
    requires
        forall|i: int| 0 <= i < last.len() ==> #[trigger] last[i] != '/',
    ensures
        last_component(last) == last,
        last_component(front + seq!['/'] + last) == last,
    decreases last.len(),
{
    let path = front + seq!['/'] + last;
    if last.len() == 0 {
        assert(path.last() == '/');
    } else {
        let shorter = last.drop_last();
        assert forall|i: int| 0 <= i < shorter.len() implies #[trigger] shorter[i] != '/' by {
            assert(shorter[i] == last[i]);
        }
        law_last_component(front, shorter);
        assert(last[last.len() - 1] != '/');
        assert(path.drop_last() == front + seq!['/'] + shorter);
        assert(shorter.push(last.last()) == last);
    }
}

} // verus!
