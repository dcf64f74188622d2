//! What becomes of the lines of a module, stated on their texts.

use vstd::prelude::*;
use vstd::string::*;

use crate::rewrite::{Line, LineView};
use crate::text::CharClass;

verus! {

broadcast use vstd::seq_lib::group_seq_properties;

proof fn lemma_trim_line(before: Seq<char>, t: Seq<char>, after: Seq<char>)
    requires
        crate::text_laws::all_blank(before),
        crate::text_laws::all_blank(after),
        crate::text_laws::has_no_blank_ends(t),
    ensures
        crate::text::trimmed(before + t + after, CharClass::WhiteSpace) == t,
{
    assert forall|c: char| #[trigger]
        CharClass::WhiteSpace.holds(c) == crate::text_laws::is_blank(c) by {
        crate::text_laws::law_classes(c);
    }
    crate::text_laws::law_trimmed(before, t, after, CharClass::WhiteSpace);
}

proof fn lemma_longer_prefix(p: Seq<char>, q: Seq<char>, rest: Seq<char>)
    ensures
        (p + q).is_prefix_of(p + rest) <==> q.is_prefix_of(rest),
        q.is_prefix_of(rest) ==> (p + rest).skip((p + q).len() as int) == rest.skip(
            q.len() as int,
        ),
        p.is_prefix_of(p + rest),
        (p + rest).skip(p.len() as int) == rest,
{
    let s = p + rest;
    let n: int = p.len() as int;
    assert(s.subrange(0, n) == p);
    assert(s.skip(n) == rest);
    if q.is_prefix_of(rest) {
        assert(s.subrange(0, n + q.len()) == p + q) by {
            assert forall|i: int| 0 <= i < n + q.len() implies s.subrange(0, n + q.len())[i] == (p
                + q)[i] by {
                if i >= n {
                    assert(rest.subrange(0, q.len() as int)[i - n] == q[i - n]);
                }
            }
        }
        assert(s.skip(n + q.len()) == rest.skip(q.len() as int));
    }
    if (p + q).is_prefix_of(s) {
        assert(rest.subrange(0, q.len() as int) == q) by {
            assert forall|i: int| 0 <= i < q.len() implies rest.subrange(0, q.len() as int)[i]
                == q[i] by {
                assert(s.subrange(0, n + q.len())[n + i] == (p + q)[n + i]);
            }
        }
    }
}

proof fn lemma_other_prefix(p: Seq<char>, s: Seq<char>, i: int)
    requires
        0 <= i < p.len(),
        i < s.len() ==> p[i] != s[i],
    ensures
        !p.is_prefix_of(s),
{
    if p.is_prefix_of(s) {
        assert(s.subrange(0, p.len() as int)[i] == s[i]);
    }
}

proof fn lemma_own_prefix(p: Seq<char>, rest: Seq<char>)
    ensures
        p.is_prefix_of(p + rest),
        (p + rest).skip(p.len() as int) == rest,
{
    assert((p + rest).subrange(0, p.len() as int) == p);
}

/// An export is told by what follows the keyword.
proof fn lemma_export_words(rest: Seq<char>)
    ensures
        !crate::rewrite::is_import("export "@ + rest),
        crate::rewrite::export_line("export "@ + rest) == Some(
            if "{"@.is_prefix_of(rest) {
                LineView::Dropped
            } else if "default "@.is_prefix_of(rest) {
                LineView::Kept(rest.skip(8))
            } else if "async function "@.is_prefix_of(rest) {
                LineView::Kept(
                    crate::rewrite::function_line("async function"@, rest.skip(15)),
                )
            } else if "function "@.is_prefix_of(rest) {
                LineView::Kept(crate::rewrite::function_line("function"@, rest.skip(9)))
            } else if "class "@.is_prefix_of(rest) {
                LineView::Kept(crate::rewrite::class_line(rest.skip(6)))
            } else if "const "@.is_prefix_of(rest) {
                LineView::Kept("var "@ + rest.skip(6))
            } else if "let "@.is_prefix_of(rest) {
                LineView::Kept("var "@ + rest.skip(4))
            } else if "var "@.is_prefix_of(rest) {
                LineView::Kept("var "@ + rest.skip(4))
            } else {
                LineView::Kept(rest)
            },
        ),
{
    reveal_strlit("import ");
    reveal_strlit("import{");
    reveal_strlit("export ");
    reveal_strlit("export {");
    reveal_strlit("export default ");
    reveal_strlit("export async function ");
    reveal_strlit("export function ");
    reveal_strlit("export class ");
    reveal_strlit("export const ");
    reveal_strlit("export let ");
    reveal_strlit("export var ");
    reveal_strlit("{");
    reveal_strlit("default ");
    reveal_strlit("async function ");
    reveal_strlit("function ");
    reveal_strlit("class ");
    reveal_strlit("const ");
    reveal_strlit("let ");
    reveal_strlit("var ");
    let t = "export "@ + rest;
    assert(t[0] == 'e');
    lemma_other_prefix("import "@, t, 0);
    lemma_other_prefix("import{"@, t, 0);
    assert("export {"@ == "export "@ + "{"@);
    assert("export default "@ == "export "@ + "default "@);
    assert("export async function "@ == "export "@ + "async function "@);
    assert("export function "@ == "export "@ + "function "@);
    assert("export class "@ == "export "@ + "class "@);
    assert("export const "@ == "export "@ + "const "@);
    assert("export let "@ == "export "@ + "let "@);
    assert("export var "@ == "export "@ + "var "@);
    lemma_longer_prefix("export "@, "{"@, rest);
    lemma_longer_prefix("export "@, "default "@, rest);
    lemma_longer_prefix("export "@, "async function "@, rest);
    lemma_longer_prefix("export "@, "function "@, rest);
    lemma_longer_prefix("export "@, "class "@, rest);
    lemma_longer_prefix("export "@, "const "@, rest);
    lemma_longer_prefix("export "@, "let "@, rest);
    lemma_longer_prefix("export "@, "var "@, rest);
}

/// What an exported line comes to when white space stands around it.
proof fn lemma_export_line(before: Seq<char>, rest: Seq<char>, after: Seq<char>)
    requires
        crate::text_laws::all_blank(before),
        crate::text_laws::all_blank(after),
        rest.len() > 0,
        !crate::text_laws::is_blank(rest[rest.len() - 1]),
    ensures
        Some(crate::rewrite::line_of(before + ("export "@ + rest) + after))
            == crate::rewrite::export_line("export "@ + rest),
{
    reveal_strlit("export ");
    let t = "export "@ + rest;
    assert(t[0] == 'e');
    assert(t[t.len() - 1] == rest[rest.len() - 1]);
    lemma_trim_line(before, t, after);
    lemma_export_words(rest);
}

/// An exported constant or variable becomes a `var`, with the same text behind the keyword.
pub proof fn law_exported_variable(before: Seq<char>, rest: Seq<char>, after: Seq<char>)
    requires
        crate::text_laws::all_blank(before),
        crate::text_laws::all_blank(after),
        rest.len() > 0,
        !crate::text_laws::is_blank(rest[rest.len() - 1]),
    ensures
        crate::rewrite::line_of(before + "export const "@ + rest + after) == LineView::Kept(
            "var "@ + rest,
        ),
        crate::rewrite::line_of(before + "export let "@ + rest + after) == LineView::Kept(
            "var "@ + rest,
        ),
        crate::rewrite::line_of(before + "export var "@ + rest + after) == LineView::Kept(
            "var "@ + rest,
        ),
{
    lemma_words();
    lemma_exported_word(before, "export const "@, "const "@, rest, after);
    lemma_exported_word(before, "export let "@, "let "@, rest, after);
    lemma_exported_word(before, "export var "@, "var "@, rest, after);
}

/// A default export is its expression.
pub proof fn law_exported_default(before: Seq<char>, rest: Seq<char>, after: Seq<char>)
    requires
        crate::text_laws::all_blank(before),
        crate::text_laws::all_blank(after),
        rest.len() > 0,
        !crate::text_laws::is_blank(rest[rest.len() - 1]),
    ensures
        crate::rewrite::line_of(before + "export default "@ + rest + after) == LineView::Kept(
            rest,
        ),
{
    lemma_words();
    lemma_exported_word(before, "export default "@, "default "@, rest, after);
}

/// A list of exported names has no place in the script.
pub proof fn law_exported_names(before: Seq<char>, rest: Seq<char>, after: Seq<char>)
    requires
        crate::text_laws::all_blank(before),
        crate::text_laws::all_blank(after),
        rest.len() > 0 ==> !crate::text_laws::is_blank(rest[rest.len() - 1]),
    ensures
        crate::rewrite::line_of(before + "export {"@ + rest + after) == LineView::Dropped,
{
    lemma_words();
    let word = "{"@ + rest;
    reveal_strlit("{");
    assert(word[0] == '{');
    assert(rest.len() > 0 ==> word[word.len() - 1] == rest[rest.len() - 1]);
    assert(before + "export {"@ + rest + after == before + ("export "@ + word) + after);
    lemma_own_prefix("{"@, rest);
    lemma_export_line(before, word, after);
    lemma_export_words(word);
}

/// Any other export loses the keyword.
pub proof fn law_other_export(before: Seq<char>, rest: Seq<char>, after: Seq<char>)
    requires
        crate::text_laws::all_blank(before),
        crate::text_laws::all_blank(after),
        rest.len() > 0,
        !crate::text_laws::is_blank(rest[rest.len() - 1]),
        !"{"@.is_prefix_of(rest),
        !"default "@.is_prefix_of(rest),
        !"async function "@.is_prefix_of(rest),
        !"function "@.is_prefix_of(rest),
        !"class "@.is_prefix_of(rest),
        !"const "@.is_prefix_of(rest),
        !"let "@.is_prefix_of(rest),
        !"var "@.is_prefix_of(rest),
    ensures
        crate::rewrite::line_of(before + "export "@ + rest + after) == LineView::Kept(rest),
{
    assert(before + "export "@ + rest + after == before + ("export "@ + rest) + after);
    lemma_export_line(before, rest, after);
    lemma_export_words(rest);
}

/// An exported function becomes a variable that holds it: its name is what stands before the first
/// opening bracket, without white space, whatever the line holds further on. A line without a
/// bracket loses the keywords.
pub proof fn law_exported_function(
    before: Seq<char>,
    left: Seq<char>,
    name: Seq<char>,
    right: Seq<char>,
    tail: Seq<char>,
    after: Seq<char>,
)
    requires
        crate::text_laws::all_blank(before),
        crate::text_laws::all_blank(left),
        crate::text_laws::all_blank(right),
        crate::text_laws::all_blank(after),
        crate::text_laws::has_no_blank_ends(name),
        forall|i: int| 0 <= i < name.len() ==> #[trigger] name[i] != '(',
        tail.len() > 0,
        tail[0] == '(',
        !crate::text_laws::is_blank(tail[tail.len() - 1]),
    ensures
        crate::rewrite::line_of(
            before + "export function "@ + (left + name + right + tail) + after,
        ) == LineView::Kept(
            "var "@ + name + " = function "@ + (left + name + right + tail),
        ),
        crate::rewrite::line_of(
            before + "export async function "@ + (left + name + right + tail) + after,
        ) == LineView::Kept(
            "var "@ + name + " = async function "@ + (left + name + right + tail),
        ),
{
    lemma_words();
    let rest = left + name + right + tail;
    assert(rest[rest.len() - 1] == tail[tail.len() - 1]);
    lemma_exported_word(before, "export function "@, "function "@, rest, after);
    lemma_exported_word(before, "export async function "@, "async function "@, rest, after);
    let head = left + name + right;
    let n: int = head.len() as int;
    crate::text_laws::law_first_of(rest, CharClass::Parenthesis);
    let paren = crate::text::first_of(rest, CharClass::Parenthesis);
    assert forall|i: int| 0 <= i < n implies #[trigger] rest[i] != '(' by {
        if i < left.len() {
            assert(rest[i] == left[i]);
        } else if i < left.len() + name.len() {
            assert(rest[i] == name[i - left.len()]);
        } else {
            assert(rest[i] == right[i - left.len() - name.len()]);
        }
    }
    assert(rest[n] == tail[0]);
    assert forall|c: char| #[trigger] CharClass::Parenthesis.holds(c) <==> c == '(' by {
        crate::text_laws::law_classes(c);
    }
    assert(paren == n);
    assert(rest.take(n) == head);
    lemma_trim_line(left, name, right);
    assert(" = function "@ == " = "@ + "function"@ + " "@);
    assert(" = async function "@ == " = "@ + "async function"@ + " "@);
    assert(crate::rewrite::function_line("function"@, rest) == "var "@ + name + " = function "@
        + rest);
    assert(crate::rewrite::function_line("async function"@, rest) == "var "@ + name
        + " = async function "@ + rest);
}

/// An exported function whose line holds no opening bracket loses the keywords.
pub proof fn law_exported_function_without_bracket(
    before: Seq<char>,
    rest: Seq<char>,
    after: Seq<char>,
)
    requires
        crate::text_laws::all_blank(before),
        crate::text_laws::all_blank(after),
        rest.len() > 0,
        !crate::text_laws::is_blank(rest[rest.len() - 1]),
        forall|i: int| 0 <= i < rest.len() ==> #[trigger] rest[i] != '(',
    ensures
        crate::rewrite::line_of(before + "export function "@ + rest + after) == LineView::Kept(
            rest,
        ),
        crate::rewrite::line_of(before + "export async function "@ + rest + after)
            == LineView::Kept(rest),
{
    lemma_words();
    lemma_exported_word(before, "export function "@, "function "@, rest, after);
    lemma_exported_word(before, "export async function "@, "async function "@, rest, after);
    crate::text_laws::law_first_of(rest, CharClass::Parenthesis);
    let paren = crate::text::first_of(rest, CharClass::Parenthesis);
    if paren < rest.len() {
        crate::text_laws::law_classes(rest[paren as int]);
    }
}

/// An exported class becomes a variable that holds it. Its name ends at the first space or opening
/// brace, whatever the line holds further on.
pub proof fn law_exported_class(
    before: Seq<char>,
    name: Seq<char>,
    tail: Seq<char>,
    after: Seq<char>,
)
    requires
        crate::text_laws::all_blank(before),
        crate::text_laws::all_blank(after),
        forall|i: int| 0 <= i < name.len() ==> #[trigger] name[i] != ' ' && name[i] != '{',
        tail.len() > 0 ==> tail[0] == ' ' || tail[0] == '{',
        (name + tail).len() > 0,
        !crate::text_laws::is_blank((name + tail)[(name + tail).len() - 1]),
    ensures
        crate::rewrite::line_of(before + "export class "@ + (name + tail) + after)
            == LineView::Kept("var "@ + name + " = class "@ + name + tail),
{
    lemma_words();
    let rest = name + tail;
    lemma_exported_word(before, "export class "@, "class "@, rest, after);
    crate::text_laws::law_first_of(rest, CharClass::NameEnd);
    let end = crate::text::first_of(rest, CharClass::NameEnd);
    let n: int = name.len() as int;
    assert forall|c: char| #[trigger]
        CharClass::NameEnd.holds(c) <==> c == ' ' || c == '{' by {
        crate::text_laws::law_classes(c);
    }
    assert forall|i: int| 0 <= i < n implies #[trigger] rest[i] != ' ' && rest[i] != '{' by {
        assert(rest[i] == name[i]);
    }
    if tail.len() > 0 {
        assert(rest[n] == tail[0]);
    }
    assert(end == n);
    assert(rest.take(n) == name);
    assert(rest.skip(n) == tail);
}

/// A line that is neither an import nor an export stays as it is, white space and all.
pub proof fn law_other_line(before: Seq<char>, t: Seq<char>, after: Seq<char>)
    requires
        crate::text_laws::all_blank(before),
        crate::text_laws::all_blank(after),
        crate::text_laws::has_no_blank_ends(t),
        !"import "@.is_prefix_of(t),
        !"import{"@.is_prefix_of(t),
        !"export "@.is_prefix_of(t),
    ensures
        crate::rewrite::line_of(before + t + after) == LineView::Kept(before + t + after),
{
    lemma_trim_line(before, t, after);
    lemma_words();
    lemma_not_longer("export "@, "{"@, t);
    lemma_not_longer("export "@, "default "@, t);
    lemma_not_longer("export "@, "async function "@, t);
    lemma_not_longer("export "@, "function "@, t);
    lemma_not_longer("export "@, "class "@, t);
    lemma_not_longer("export "@, "const "@, t);
    lemma_not_longer("export "@, "let "@, t);
    lemma_not_longer("export "@, "var "@, t);
}

proof fn lemma_not_longer(p: Seq<char>, q: Seq<char>, t: Seq<char>)
    requires
        !p.is_prefix_of(t),
    ensures
        !(p + q).is_prefix_of(t),
{
    if (p + q).is_prefix_of(t) {
        assert(t.subrange(0, p.len() as int) == p) by {
            assert forall|i: int| 0 <= i < p.len() implies t.subrange(0, p.len() as int)[i]
                == p[i] by {
                assert(t.subrange(0, (p + q).len() as int)[i] == (p + q)[i]);
            }
        }
    }
}

/// How the keywords are made up.
proof fn lemma_words()
    ensures
        "export {"@ == "export "@ + "{"@,
        "export default "@ == "export "@ + "default "@,
        "export async function "@ == "export "@ + "async function "@,
        "export function "@ == "export "@ + "function "@,
        "export class "@ == "export "@ + "class "@,
        "export const "@ == "export "@ + "const "@,
        "export let "@ == "export "@ + "let "@,
        "export var "@ == "export "@ + "var "@,
        " = function "@ == " = "@ + "function"@ + " "@,
        " = async function "@ == " = "@ + "async function"@ + " "@,
        is_word("{"@),
        is_word("default "@),
        is_word("async function "@),
        is_word("function "@),
        is_word("class "@),
        is_word("const "@),
        is_word("let "@),
        is_word("var "@),
        "{"@.len() == 1,
        "default "@.len() == 8,
        "async function "@.len() == 15,
        "function "@.len() == 9,
        "class "@.len() == 6,
        "const "@.len() == 6,
        "let "@.len() == 4,
        "var "@.len() == 4,
        "class "@ != "const "@,
        "let "@ != "var "@,
{
    reveal_strlit("export ");
    reveal_strlit("export {");
    reveal_strlit("export default ");
    reveal_strlit("export async function ");
    reveal_strlit("export function ");
    reveal_strlit("export class ");
    reveal_strlit("export const ");
    reveal_strlit("export let ");
    reveal_strlit("export var ");
    reveal_strlit("{");
    reveal_strlit("default ");
    reveal_strlit("async function ");
    reveal_strlit("function ");
    reveal_strlit("class ");
    reveal_strlit("const ");
    reveal_strlit("let ");
    reveal_strlit("var ");
    reveal_strlit(" = ");
    reveal_strlit(" ");
    reveal_strlit("function");
    reveal_strlit("async function");
    reveal_strlit(" = function ");
    reveal_strlit(" = async function ");
    assert("class "@[1] != "const "@[1]);
    assert("let "@[0] != "var "@[0]);
    assert("export {"@ == "export "@ + "{"@);
    assert("export default "@ == "export "@ + "default "@);
    assert("export async function "@ == "export "@ + "async function "@);
    assert("export function "@ == "export "@ + "function "@);
    assert("export class "@ == "export "@ + "class "@);
    assert("export const "@ == "export "@ + "const "@);
    assert("export let "@ == "export "@ + "let "@);
    assert("export var "@ == "export "@ + "var "@);
    assert(" = function "@ == " = "@ + "function"@ + " "@);
    assert(" = async function "@ == " = "@ + "async function"@ + " "@);
}

/// Whether a text is one of the words that tell exports apart.
spec fn is_word(word: Seq<char>) -> bool {
    ||| word == "{"@
    ||| word == "default "@
    ||| word == "async function "@
    ||| word == "function "@
    ||| word == "class "@
    ||| word == "const "@
    ||| word == "let "@
    ||| word == "var "@
}

/// A line that begins with one of the words begins with no other.
proof fn lemma_one_word(word: Seq<char>, rest: Seq<char>)
    requires
        is_word(word),
    ensures
        word.is_prefix_of(word + rest),
        (word + rest).skip(word.len() as int) == rest,
        forall|other: Seq<char>|
            is_word(other) && other != word ==> !(#[trigger] other.is_prefix_of(word + rest)),
{
    reveal_strlit("{");
    reveal_strlit("default ");
    reveal_strlit("async function ");
    reveal_strlit("function ");
    reveal_strlit("class ");
    reveal_strlit("const ");
    reveal_strlit("let ");
    reveal_strlit("var ");
    let s = word + rest;
    lemma_own_prefix(word, rest);
    assert forall|other: Seq<char>| is_word(other) && other != word implies !(
    #[trigger] other.is_prefix_of(s)) by {
        assert(s[0] == word[0]);
        if other[0] != word[0] {
            lemma_other_prefix(other, s, 0);
        } else {
            assert(s[1] == word[1]);
            lemma_other_prefix(other, s, 1);
        }
    }
}

proof fn lemma_exported_word(
    before: Seq<char>,
    keywords: Seq<char>,
    word: Seq<char>,
    rest: Seq<char>,
    after: Seq<char>,
)
    requires
        crate::text_laws::all_blank(before),
        crate::text_laws::all_blank(after),
        rest.len() > 0,
        !crate::text_laws::is_blank(rest[rest.len() - 1]),
        is_word(word),
        keywords == "export "@ + word,
    ensures
        ({
            let r = crate::rewrite::line_of(before + keywords + rest + after);
            &&& word == "{"@ ==> r == LineView::Dropped
            &&& word == "default "@ ==> r == LineView::Kept(rest)
            &&& word == "async function "@ ==> r == LineView::Kept(
                crate::rewrite::function_line("async function"@, rest),
            )
            &&& word == "function "@ ==> r == LineView::Kept(
                crate::rewrite::function_line("function"@, rest),
            )
            &&& word == "class "@ ==> r == LineView::Kept(crate::rewrite::class_line(rest))
            &&& word == "const "@ || word == "let "@ || word == "var "@ ==> r == LineView::Kept(
                "var "@ + rest,
            )
        }),
{
    lemma_words();
    let whole = word + rest;
    assert(before + keywords + rest + after == before + ("export "@ + whole) + after);
    lemma_one_word(word, rest);
    assert(whole[whole.len() - 1] == rest[rest.len() - 1]);
    lemma_export_line(before, whole, after);
    lemma_export_words(whole);
}

/// An import without ` from ` names nothing and has no place in the script.
pub proof fn law_import_for_its_effect(before: Seq<char>, t: Seq<char>, after: Seq<char>)
    requires
        crate::text_laws::all_blank(before),
        crate::text_laws::all_blank(after),
        crate::text_laws::has_no_blank_ends(t),
        "import "@.is_prefix_of(t) || "import{"@.is_prefix_of(t),
        forall|i: int| !(#[trigger] crate::text_laws::stands_at(t, " from "@, i)),
    ensures
        crate::rewrite::line_of(before + t + after) == LineView::Dropped,
{
    lemma_trim_line(before, t, after);
    crate::text_laws::law_after_none(t, " from "@);
}

/// Whether all of a text is white space and quotes.
pub open spec fn all_quoting(s: Seq<char>) -> bool {
    forall|i: int| 0 <= i < s.len() ==> crate::text_laws::is_quoting(#[trigger] s[i])
}

/// Whether all of a text is semicolons.
pub open spec fn all_semicolons(s: Seq<char>) -> bool {
    forall|i: int| 0 <= i < s.len() ==> #[trigger] s[i] == ';'
}

/// How long the white space is that a text begins with.
spec fn blank_front(s: Seq<char>) -> int
    decreases s.len(),
{
    if s.len() > 0 && crate::text_laws::is_blank(s[0]) {
        1 + blank_front(s.drop_first())
    } else {
        0
    }
}

proof fn lemma_blank_front(s: Seq<char>)
    ensures
        0 <= blank_front(s) <= s.len(),
        crate::text_laws::all_blank(s.take(blank_front(s))),
        blank_front(s) < s.len() ==> !crate::text_laws::is_blank(s[blank_front(s)]),
    decreases s.len(),
{
    if s.len() > 0 && crate::text_laws::is_blank(s[0]) {
        let rest = s.drop_first();
        lemma_blank_front(rest);
        let n = blank_front(s);
        assert forall|i: int| 0 <= i < n implies crate::text_laws::is_blank(
            #[trigger] s.take(n)[i],
        ) by {
            if i > 0 {
                assert(s.take(n)[i] == rest.take(n - 1)[i - 1]);
            }
        }
    }
}

/// The specifier is what stands between white space and quotes, before the semicolons.
proof fn lemma_specifier(open: Seq<char>, name: Seq<char>, close: Seq<char>, ends: Seq<char>)
    requires
        all_quoting(open),
        all_quoting(close),
        all_semicolons(ends),
        name.len() > 0 ==> !crate::text_laws::is_quoting(name[0])
            && !crate::text_laws::is_quoting(name[name.len() - 1]),
        close.len() == 0 && name.len() > 0 ==> name[name.len() - 1] != ';',
        (open + name + close + ends).len() > 0,
        !crate::text_laws::is_blank(
            (open + name + close + ends)[(open + name + close + ends).len() - 1],
        ),
    ensures
        crate::rewrite::specifier_of(open + name + close + ends) == name,
{
    assert forall|c: char| #[trigger]
        CharClass::WhiteSpace.holds(c) <==> crate::text_laws::is_blank(c) by {
        crate::text_laws::law_classes(c);
    }
    assert forall|c: char| #[trigger]
        CharClass::Quoting.holds(c) <==> crate::text_laws::is_quoting(c) by {
        crate::text_laws::law_classes(c);
    }
    assert forall|c: char| #[trigger] CharClass::Semicolon.holds(c) <==> c == ';' by {
        crate::text_laws::law_classes(c);
    }
    if name.len() == 0 && close.len() > 0 {
        let both = open + close;
        let none = Seq::<char>::empty();
        assert forall|i: int| 0 <= i < both.len() implies crate::text_laws::is_quoting(
            #[trigger] both[i],
        ) by {
            if i < open.len() {
                assert(both[i] == open[i]);
            } else {
                assert(both[i] == close[i - open.len()]);
            }
        }
        assert(open + name + close + ends == both + none + none + ends);
        assert(name == none);
        lemma_specifier_parts(both, none, none, ends);
    } else {
        lemma_specifier_parts(open, name, close, ends);
    }
}

proof fn lemma_specifier_parts(
    open: Seq<char>,
    name: Seq<char>,
    close: Seq<char>,
    ends: Seq<char>,
)
    requires
        all_quoting(open),
        all_quoting(close),
        all_semicolons(ends),
        name.len() == 0 ==> close.len() == 0,
        name.len() > 0 ==> !crate::text_laws::is_quoting(name[0])
            && !crate::text_laws::is_quoting(name[name.len() - 1]),
        close.len() == 0 && name.len() > 0 ==> name[name.len() - 1] != ';',
        (open + name + close + ends).len() > 0,
        !crate::text_laws::is_blank(
            (open + name + close + ends)[(open + name + close + ends).len() - 1],
        ),
        forall|c: char| #[trigger]
            CharClass::WhiteSpace.holds(c) <==> crate::text_laws::is_blank(c),
        forall|c: char| #[trigger]
            CharClass::Quoting.holds(c) <==> crate::text_laws::is_quoting(c),
        forall|c: char| #[trigger] CharClass::Semicolon.holds(c) <==> c == ';',
    ensures
        crate::rewrite::specifier_of(open + name + close + ends) == name,
{
    let whole = open + name + close + ends;
    let none = Seq::<char>::empty();
    let n = blank_front(open);
    lemma_blank_front(open);
    let front = open.take(n);
    let quotes = open.skip(n);
    let middle = quotes + name + close;
    let shown = middle + ends;
    assert(whole == front + shown + none);
    assert(shown.len() > 0) by {
        if shown.len() == 0 {
            assert(whole == front);
            assert(crate::text_laws::is_blank(front[front.len() - 1]));
        }
    }
    assert(shown[shown.len() - 1] == whole[whole.len() - 1]);
    assert(!crate::text_laws::is_blank(shown[0])) by {
        if quotes.len() > 0 {
            assert(shown[0] == quotes[0]);
            assert(quotes[0] == open[n]);
        } else if name.len() > 0 {
            assert(shown[0] == name[0]);
        } else {
            assert(shown[0] == ends[0]);
        }
    }
    crate::text_laws::law_trimmed(front, shown, none, CharClass::WhiteSpace);
    assert(middle.len() > 0 ==> middle[middle.len() - 1] != ';') by {
        if close.len() > 0 {
            assert(middle[middle.len() - 1] == close[close.len() - 1]);
            assert(crate::text_laws::is_quoting(close[close.len() - 1]));
        } else if name.len() > 0 {
            assert(middle[middle.len() - 1] == name[name.len() - 1]);
        } else if quotes.len() > 0 {
            assert(middle[middle.len() - 1] == quotes[quotes.len() - 1]);
            assert(quotes[quotes.len() - 1] == open[open.len() - 1]);
            assert(crate::text_laws::is_quoting(open[open.len() - 1]));
        }
    }
    crate::text_laws::law_trimmed_back(middle, ends, CharClass::Semicolon);
    assert forall|i: int| 0 <= i < quotes.len() implies CharClass::Quoting.holds(
        #[trigger] quotes[i],
    ) by {
        assert(quotes[i] == open[n + i]);
        assert(crate::text_laws::is_quoting(open[n + i]));
    }
    crate::text_laws::law_trimmed(quotes, name, close, CharClass::Quoting);
}

/// An import names what stands behind the first ` from `, without the white space and quotes
/// around it and without the semicolons behind it.
pub proof fn law_import_names_its_module(
    before: Seq<char>,
    clause: Seq<char>,
    open: Seq<char>,
    name: Seq<char>,
    close: Seq<char>,
    ends: Seq<char>,
    after: Seq<char>,
)
    requires
        crate::text_laws::all_blank(before),
        crate::text_laws::all_blank(after),
        "import "@.is_prefix_of(clause) || "import{"@.is_prefix_of(clause),
        all_quoting(open),
        all_quoting(close),
        all_semicolons(ends),
        name.len() > 0 ==> !crate::text_laws::is_quoting(name[0])
            && !crate::text_laws::is_quoting(name[name.len() - 1]),
        close.len() == 0 && name.len() > 0 ==> name[name.len() - 1] != ';',
        (open + name + close + ends).len() > 0,
        !crate::text_laws::is_blank(
            (open + name + close + ends)[(open + name + close + ends).len() - 1],
        ),
        forall|i: int|
            0 <= i < clause.len() ==> !(#[trigger] crate::text_laws::stands_at(
                clause + " from "@ + (open + name + close + ends),
                " from "@,
                i,
            )),
    ensures
        crate::rewrite::line_of(
            before + (clause + " from "@ + (open + name + close + ends)) + after,
        ) == LineView::Import(name),
{
    reveal_strlit("import ");
    reveal_strlit("import{");
    let from_part = open + name + close + ends;
    let t = clause + " from "@ + from_part;
    assert(clause.subrange(0, 7)[0] == clause[0]);
    assert(clause[0] == 'i');
    assert(t[0] == 'i');
    assert(t[t.len() - 1] == from_part[from_part.len() - 1]);
    lemma_trim_line(before, t, after);
    assert(t.subrange(0, 7) == clause.subrange(0, 7));
    crate::text_laws::law_after_first(clause, " from "@, from_part);
    lemma_specifier(open, name, close, ends);
}

/// The lines of a source text are told one by one.
pub proof fn law_source_lines(source: Seq<char>)
    ensures
        crate::rewrite::source_lines(source).len() == crate::text::lines_of(source).len(),
        forall|i: int|
            0 <= i < crate::text::lines_of(source).len()
                ==> #[trigger] crate::rewrite::source_lines(source)[i] == crate::rewrite::line_of(
                crate::text::lines_of(source)[i],
            ),
{
}

/// Whether a list holds a line of the script.
pub open spec fn keeps_any(lines: Seq<LineView>) -> bool {
    exists|i: int| 0 <= i < lines.len() && (#[trigger] lines[i]) is Kept
}

proof fn lemma_kept_of_both(a: Seq<LineView>, b: Seq<LineView>)
    ensures
        crate::rewrite::kept_lines(a + b) == crate::rewrite::kept_lines(a)
            + crate::rewrite::kept_lines(b),
    decreases b.len(),
{
    if b.len() == 0 {
        assert(a + b == a);
    } else {
        lemma_kept_of_both(a, b.drop_last());
        assert((a + b).drop_last() == a + b.drop_last());
    }
}

proof fn lemma_keeps_any(lines: Seq<LineView>)
    ensures
        keeps_any(lines) <==> crate::rewrite::kept_lines(lines).len() > 0,
    decreases lines.len(),
{
    if lines.len() > 0 {
        let front = lines.drop_last();
        lemma_keeps_any(front);
        if keeps_any(front) {
            let i = choose|i: int| 0 <= i < front.len() && (#[trigger] front[i]) is Kept;
            assert(lines[i] is Kept);
        }
        if keeps_any(lines) && !(lines.last() is Kept) {
            let i = choose|i: int| 0 <= i < lines.len() && (#[trigger] lines[i]) is Kept;
            assert(front[i] is Kept);
        }
        if lines.last() is Kept {
            assert(lines[lines.len() - 1] is Kept);
        }
    }
}

/// The script of a list of lines: a line that is kept is its own script, other lines have none, and
/// the scripts of two lists are put together with a line feed where both keep any lines.
pub proof fn law_script(text: Seq<char>, a: Seq<LineView>, b: Seq<LineView>)
    ensures
        crate::rewrite::script_of(seq![LineView::Kept(text)]) == text,
        !keeps_any(a) ==> crate::rewrite::script_of(a) == Seq::<char>::empty(),
        keeps_any(a) && keeps_any(b) ==> crate::rewrite::script_of(a + b)
            == crate::rewrite::script_of(a) + seq!['\n'] + crate::rewrite::script_of(b),
        !keeps_any(a) ==> crate::rewrite::script_of(a + b) == crate::rewrite::script_of(b),
        !keeps_any(b) ==> crate::rewrite::script_of(a + b) == crate::rewrite::script_of(a),
{
    reveal_strlit("\n");
    assert("\n"@ == seq!['\n']);
    reveal_with_fuel(crate::rewrite::kept_lines, 2);
    let one = seq![LineView::Kept(text)];
    assert(one.drop_last() == Seq::<LineView>::empty());
    let kept_a = crate::rewrite::kept_lines(a);
    let kept_b = crate::rewrite::kept_lines(b);
    lemma_kept_of_both(a, b);
    lemma_keeps_any(a);
    lemma_keeps_any(b);
    crate::text_laws::law_joined(text, kept_a, kept_b, "\n"@);
    assert(crate::rewrite::kept_lines(one) == seq![text]);
    if kept_a.len() == 0 {
        assert(kept_a + kept_b == kept_b);
    }
    if kept_b.len() == 0 {
        assert(kept_a + kept_b == kept_a);
    }
}

/// What the contracts see of lines is what the lines hold.
pub proof fn law_line_views(lines: Seq<Line>)
    ensures
        crate::rewrite::line_views(lines).len() == lines.len(),
        forall|i: int|
            0 <= i < lines.len() ==> #[trigger] crate::rewrite::line_views(lines)[i] == (
            match lines[i] {
                Line::Import(specifier) => LineView::Import(specifier@),
                Line::Dropped => LineView::Dropped,
                Line::Kept(text) => LineView::Kept(text@),
            }),
{
}

} // verus!
