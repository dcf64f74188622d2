//! What the text functions do, stated on the characters themselves.

use vstd::prelude::*;
use vstd::string::*;

use crate::text::CharClass;

verus! {

broadcast use vstd::seq_lib::group_seq_properties;

/// Whether a character is white space, by its number.
pub open spec fn is_blank(c: char) -> bool {
    let n = c as u32;
    ||| 9 <= n <= 13
    ||| n == 32
    ||| n == 133
    ||| n == 160
    ||| n == 5760
    ||| 8192 <= n <= 8202
    ||| n == 8232
    ||| n == 8233
    ||| n == 8239
    ||| n == 8287
    ||| n == 12288
}

/// Whether all of a text is white space.
pub open spec fn all_blank(s: Seq<char>) -> bool {
    forall|i: int| 0 <= i < s.len() ==> is_blank(#[trigger] s[i])
}

/// Whether a text neither begins nor ends with white space.
pub open spec fn has_no_blank_ends(s: Seq<char>) -> bool {
    s.len() > 0 ==> !is_blank(s[0]) && !is_blank(s[s.len() - 1])
}

/// White space or a quote.
pub open spec fn is_quoting(c: char) -> bool {
    is_blank(c) || c == '\'' || c == '"'
}

/// The classes hold the characters that they are named after.
pub proof fn law_classes(c: char)
    ensures
        CharClass::WhiteSpace.holds(c) <==> is_blank(c),
        CharClass::Semicolon.holds(c) <==> c == ';',
        CharClass::Quoting.holds(c) <==> is_quoting(c),
        CharClass::Parenthesis.holds(c) <==> c == '(',
        CharClass::NameEnd.holds(c) <==> c == ' ' || c == '{',
{
}

/// Trimming takes away what is of the class at the front, and no more.
pub proof fn law_trimmed_front(a: Seq<char>, t: Seq<char>, class: CharClass)
    requires
        forall|i: int| 0 <= i < a.len() ==> class.holds(#[trigger] a[i]),
        t.len() > 0 ==> !class.holds(t[0]),
    ensures
        crate::text::trimmed_front(a + t, class) == t,
    decreases a.len(),
{
    if a.len() == 0 {
        assert(a + t == t);
    } else {
        let rest = a.drop_first();
        assert forall|i: int| 0 <= i < rest.len() implies class.holds(#[trigger] rest[i]) by {
            assert(rest[i] == a[i + 1]);
        }
        law_trimmed_front(rest, t, class);
        assert((a + t)[0] == a[0]);
        assert((a + t).drop_first() == rest + t);
    }
}

/// Trimming takes away what is of the class at the back, and no more.
pub proof fn law_trimmed_back(t: Seq<char>, b: Seq<char>, class: CharClass)
    requires
        forall|i: int| 0 <= i < b.len() ==> class.holds(#[trigger] b[i]),
        t.len() > 0 ==> !class.holds(t[t.len() - 1]),
    ensures
        crate::text::trimmed_back(t + b, class) == t,
    decreases b.len(),
{
    if b.len() == 0 {
        assert(t + b == t);
    } else {
        let rest = b.drop_last();
        assert forall|i: int| 0 <= i < rest.len() implies class.holds(#[trigger] rest[i]) by {
            assert(rest[i] == b[i]);
        }
        law_trimmed_back(t, rest, class);
        assert((t + b).last() == b[b.len() - 1]);
        assert((t + b).drop_last() == t + rest);
    }
}

/// Trimming takes away what is of the class at both ends, and no more.
pub proof fn law_trimmed(a: Seq<char>, t: Seq<char>, b: Seq<char>, class: CharClass)
    requires
        forall|i: int| 0 <= i < a.len() ==> class.holds(#[trigger] a[i]),
        forall|i: int| 0 <= i < b.len() ==> class.holds(#[trigger] b[i]),
        t.len() > 0 ==> !class.holds(t[0]) && !class.holds(t[t.len() - 1]),
    ensures
        crate::text::trimmed(a + t + b, class) == t,
{
    if t.len() == 0 {
        let all = a + t + b;
        assert forall|i: int| 0 <= i < all.len() implies class.holds(#[trigger] all[i]) by {
            if i < a.len() {
                assert(all[i] == a[i]);
            } else {
                assert(all[i] == b[i - a.len()]);
            }
        }
        assert(all + t == all);
        law_trimmed_front(all, t, class);
        assert(t + t == t);
        law_trimmed_back(t, t, class);
    } else {
        assert(a + t + b == a + (t + b));
        assert((t + b)[0] == t[0]);
        law_trimmed_front(a, t + b, class);
        law_trimmed_back(t, b, class);
    }
}

/// The first character of a class is where none stands before it.
pub proof fn law_first_of(s: Seq<char>, class: CharClass)
    ensures
        ({
            let first = crate::text::first_of(s, class);
            &&& first <= s.len()
            &&& first < s.len() ==> class.holds(s[first as int])
            &&& forall|i: int| 0 <= i < first ==> !class.holds(#[trigger] s[i])
        }),
    decreases s.len(),
{
    if s.len() > 0 && !class.holds(s.first()) {
        let rest = s.drop_first();
        law_first_of(rest, class);
        let first = crate::text::first_of(s, class);
        assert forall|i: int| 0 <= i < first implies !class.holds(#[trigger] s[i]) by {
            if i > 0 {
                assert(s[i] == rest[i - 1]);
            }
        }
        if first < s.len() {
            assert(s[first as int] == rest[first - 1]);
        }
    }
}

/// Whether a needle stands at a place of a text.
pub open spec fn stands_at(s: Seq<char>, needle: Seq<char>, i: int) -> bool {
    0 <= i && i + needle.len() <= s.len() && s.subrange(i, i + needle.len()) == needle
}

/// The first occurrence of a needle is where it stands and no other stands before it. There is
/// none only if it stands nowhere.
pub proof fn law_first_occurrence(s: Seq<char>, needle: Seq<char>)
    ensures
        match crate::text::first_occurrence(s, needle) {
            Some(first) => {
                &&& stands_at(s, needle, first as int)
                &&& forall|i: int| 0 <= i < first ==> !(#[trigger] stands_at(s, needle, i))
            },
            None => forall|i: int| !(#[trigger] stands_at(s, needle, i)),
        },
    decreases s.len(),
{
    if needle.is_prefix_of(s) {
        assert(s.subrange(0, needle.len() as int) == needle);
    } else {
        assert(!stands_at(s, needle, 0)) by {
            if stands_at(s, needle, 0) {
                assert(s.subrange(0, needle.len() as int) == needle);
            }
        }
        if s.len() > 0 {
            let rest = s.drop_first();
            law_first_occurrence(rest, needle);
            assert forall|i: int| i > 0 implies #[trigger] stands_at(s, needle, i) == stands_at(
                rest,
                needle,
                i - 1,
            ) by {
                if i + needle.len() <= s.len() {
                    assert(s.subrange(i, i + needle.len()) == rest.subrange(
                        i - 1,
                        i - 1 + needle.len(),
                    ));
                }
            }
            if let Some(first) = crate::text::first_occurrence(s, needle) {
                assert forall|i: int| 0 <= i < first implies !(#[trigger] stands_at(
                    s,
                    needle,
                    i,
                )) by {
                    if i > 0 {
                        assert(!stands_at(rest, needle, i - 1));
                    }
                }
                assert(stands_at(s, needle, first as int) == stands_at(rest, needle, first - 1));
            } else {
                assert forall|i: int| !(#[trigger] stands_at(s, needle, i)) by {
                    if i > 0 {
                        assert(!stands_at(rest, needle, i - 1));
                    }
                }
            }
        } else {
            assert forall|i: int| !(#[trigger] stands_at(s, needle, i)) by {
                if stands_at(s, needle, i) {
                    assert(i == 0);
                }
            }
        }
    }
}

/// What follows the separator is what stands behind its first occurrence.
pub proof fn law_after_first(a: Seq<char>, separator: Seq<char>, b: Seq<char>)
    requires
        forall|i: int|
            0 <= i < a.len() ==> !(#[trigger] stands_at(a + separator + b, separator, i)),
    ensures
        crate::text::after_first(a + separator + b, separator) == Some(b),
{
    let s = a + separator + b;
    law_first_occurrence(s, separator);
    let n: int = a.len() as int;
    assert(s.subrange(n, n + separator.len()) == separator);
    assert(stands_at(s, separator, n));
    let first = crate::text::first_occurrence(s, separator)->0;
    assert(first == n);
    assert(s.skip(n + separator.len()) == b);
}

/// Nothing follows a separator that stands nowhere.
pub proof fn law_after_none(s: Seq<char>, separator: Seq<char>)
    requires
        forall|i: int| !(#[trigger] stands_at(s, separator, i)),
    ensures
        crate::text::after_first(s, separator) is None,
{
    law_first_occurrence(s, separator);
}

/// What follows a prefix is the rest, and a text that does not begin with it has none.
pub proof fn law_without_prefix(s: Seq<char>, prefix: Seq<char>, rest: Seq<char>)
    ensures
        crate::text::without_prefix(prefix + rest, prefix) == Some(rest),
        crate::text::without_prefix(s, prefix) is Some <==> stands_at(s, prefix, 0),
{
    assert((prefix + rest).subrange(0, prefix.len() as int) == prefix);
    assert((prefix + rest).skip(prefix.len() as int) == rest);
}

proof fn lemma_no_line_end(s: Seq<char>)
    requires
        forall|i: int| 0 <= i < s.len() ==> #[trigger] s[i] != '\n',
    ensures
        crate::text::line_end(s) == s.len(),
    decreases s.len(),
{
    if s.len() > 0 {
        let rest = s.drop_first();
        assert forall|i: int| 0 <= i < rest.len() implies #[trigger] rest[i] != '\n' by {
            assert(rest[i] == s[i + 1]);
        }
        lemma_no_line_end(rest);
    }
}

proof fn lemma_first_line_end(line: Seq<char>, rest: Seq<char>)
    requires
        forall|i: int| 0 <= i < line.len() ==> #[trigger] line[i] != '\n',
    ensures
        crate::text::line_end(line + seq!['\n'] + rest) == line.len(),
    decreases line.len(),
{
    let s = line + seq!['\n'] + rest;
    if line.len() > 0 {
        let shorter = line.drop_first();
        assert forall|i: int| 0 <= i < shorter.len() implies #[trigger] shorter[i] != '\n' by {
            assert(shorter[i] == line[i + 1]);
        }
        lemma_first_line_end(shorter, rest);
        assert(s.drop_first() == shorter + seq!['\n'] + rest);
        assert(s.first() == line[0]);
    } else {
        assert(s.first() == '\n');
    }
}

/// The lines of a text: an empty text has none. A text without a line feed is one line. Otherwise
/// the first line is what stands before the line feed, without the carriage return that may stand
/// there, and the other lines are those of what stands behind it.
pub proof fn law_lines(line: Seq<char>, rest: Seq<char>)
    requires
        forall|i: int| 0 <= i < line.len() ==> #[trigger] line[i] != '\n',
    ensures
        crate::text::lines_of(Seq::empty()) == Seq::<Seq<char>>::empty(),
        line.len() > 0 ==> crate::text::lines_of(line) == seq![line],
        line.len() == 0 || line[line.len() - 1] != '\r' ==> crate::text::lines_of(
            line + seq!['\n'] + rest,
        ) == seq![line] + crate::text::lines_of(rest),
        crate::text::lines_of(line + seq!['\r'] + seq!['\n'] + rest) == seq![line]
            + crate::text::lines_of(rest),
{
    lemma_no_line_end(line);
    lemma_first_line_end(line, rest);
    let s = line + seq!['\n'] + rest;
    assert(s.take(line.len() as int) == line);
    assert(s.skip((line.len() + 1) as int) == rest);
    let returned = line + seq!['\r'];
    assert forall|i: int| 0 <= i < returned.len() implies #[trigger] returned[i] != '\n' by {
        if i < line.len() {
            assert(returned[i] == line[i]);
        }
    }
    lemma_first_line_end(returned, rest);
    let t = returned + seq!['\n'] + rest;
    assert(t.take(returned.len() as int) == returned);
    assert(t.skip((returned.len() + 1) as int) == rest);
    assert(returned.drop_last() == line);
    assert(returned.last() == '\r');
}

/// Joining puts the separator between neighbours and nowhere else.
pub proof fn law_joined(
    part: Seq<char>,
    a: Seq<Seq<char>>,
    b: Seq<Seq<char>>,
    separator: Seq<char>,
)
    ensures
        crate::text::joined(Seq::empty(), separator) == Seq::<char>::empty(),
        crate::text::joined(seq![part], separator) == part,
        a.len() > 0 && b.len() > 0 ==> crate::text::joined(a + b, separator)
            == crate::text::joined(a, separator) + separator + crate::text::joined(b, separator),
    decreases b.len(),
{
    if a.len() > 0 && b.len() > 0 {
        assert((a + b).drop_last() == a + b.drop_last());
        if b.len() == 1 {
            assert(a + b.drop_last() == a);
        } else {
            law_joined(part, a, b.drop_last(), separator);
        }
    }
}

/// The number that digits stand for.
pub open spec fn value_of(digits: Seq<char>) -> int
    decreases digits.len(),
{
    if digits.len() == 0 {
        0
    } else {
        10 * value_of(digits.drop_last()) + (digits.last() as u32 - 48)
    }
}

/// A number in decimal notation is made of digits, stands for the number, and begins with a zero
/// only if it is zero.
pub proof fn law_decimal(n: nat)
    ensures
        value_of(crate::text::decimal(n)) == n,
        crate::text::decimal(n).len() > 0,
        forall|i: int|
            0 <= i < crate::text::decimal(n).len() ==> 48 <= #[trigger] crate::text::decimal(n)[i]
                as u32 <= 57,
        n > 0 ==> crate::text::decimal(n)[0] as u32 != 48,
    decreases n,
{
    reveal_with_fuel(value_of, 2);
    if n < 10 {
        let d = crate::text::digit(n);
        assert(seq![d].drop_last() == Seq::<char>::empty());
        assert(d as u32 == 48 + n);
    } else {
        law_decimal(n / 10);
        let front = crate::text::decimal(n / 10);
        let d = crate::text::digit(n % 10);
        assert(d as u32 == 48 + n % 10);
        assert(front.push(d).drop_last() == front);
    }
}

/// The contents of a list of strings are those of its strings, in their order.
pub proof fn law_texts(list: Seq<String>)
    ensures
        crate::text::texts(list).len() == list.len(),
        forall|i: int| 0 <= i < list.len() ==> #[trigger] crate::text::texts(list)[i] == list[i]@,
{
}

} // verus!
