//! Text as sequences of characters: trimming, searching, splitting and joining.

use vstd::prelude::*;
use vstd::slice::{slice_subrange, slice_to_vec};
use vstd::string::*;

verus! {

/// `String::push` appends one character to the end of the string.
pub assume_specification[ String::push ](s: &mut String, ch: char)
    ensures
        final(s)@ == old(s)@.push(ch),
;

/// The contents of each string of a list.
pub open spec fn texts(list: Seq<String>) -> Seq<Seq<char>> {
    list.map_values(|s: String| s@)
}

/// The characters with the Unicode property `White_Space`.
pub open spec fn is_white_space(c: char) -> bool {
    ||| '\u{9}' <= c && c <= '\u{d}'
    ||| c == '\u{20}'
    ||| c == '\u{85}'
    ||| c == '\u{a0}'
    ||| c == '\u{1680}'
    ||| '\u{2000}' <= c && c <= '\u{200a}'
    ||| c == '\u{2028}'
    ||| c == '\u{2029}'
    ||| c == '\u{202f}'
    ||| c == '\u{205f}'
    ||| c == '\u{3000}'
}

/// Sets of characters that the text functions trim or search for.
#[derive(Clone, Copy, Debug)]
pub enum CharClass {
    /// Unicode white space.
    WhiteSpace,
    /// The semicolon.
    Semicolon,
    /// White space and both kinds of quote.
    Quoting,
    /// An opening round bracket.
    Parenthesis,
    /// A space or an opening brace, which end the name of a class.
    NameEnd,
}

impl CharClass {
    /// Whether the class holds the character.
    pub open spec fn holds(self, c: char) -> bool {
        match self {
            CharClass::WhiteSpace => is_white_space(c),
            CharClass::Semicolon => c == ';',
            CharClass::Quoting => is_white_space(c) || c == '\'' || c == '"',
            CharClass::Parenthesis => c == '(',
            CharClass::NameEnd => c == ' ' || c == '{',
        }
    }

    /// Tells whether the class holds the character.
    pub fn contains(self, c: char) -> (r: bool)
        ensures
            r == self.holds(c),
    {
        match self {
            CharClass::WhiteSpace => white_space(c),
            CharClass::Semicolon => c == ';',
            CharClass::Quoting => white_space(c) || c == '\'' || c == '"',
            CharClass::Parenthesis => c == '(',
            CharClass::NameEnd => c == ' ' || c == '{',
        }
    }
}

/// Tells whether a character is white space.
pub fn white_space(c: char) -> (r: bool)
    ensures
        r == is_white_space(c),
{
    ('\u{9}' <= c && c <= '\u{d}') || c == '\u{20}' || c == '\u{85}' || c == '\u{a0}' || c
        == '\u{1680}' || ('\u{2000}' <= c && c <= '\u{200a}') || c == '\u{2028}' || c == '\u{2029}'
        || c == '\u{202f}' || c == '\u{205f}' || c == '\u{3000}'
}

/// The text without the characters of the class at its front.
pub open spec fn trimmed_front(s: Seq<char>, class: CharClass) -> Seq<char>
    decreases s.len(),
{
    if s.len() > 0 && class.holds(s.first()) {
        trimmed_front(s.drop_first(), class)
    } else {
        s
    }
}

/// The text without the characters of the class at its back.
pub open spec fn trimmed_back(s: Seq<char>, class: CharClass) -> Seq<char>
    decreases s.len(),
{
    if s.len() > 0 && class.holds(s.last()) {
        trimmed_back(s.drop_last(), class)
    } else {
        s
    }
}

/// The text without the characters of the class at either end.
pub open spec fn trimmed(s: Seq<char>, class: CharClass) -> Seq<char> {
    trimmed_back(trimmed_front(s, class), class)
}

/// The position of the first character of the class, or the length if there is none.
pub open spec fn first_of(s: Seq<char>, class: CharClass) -> nat
    decreases s.len(),
{
    if s.len() == 0 || class.holds(s.first()) {
        0
    } else {
        1 + first_of(s.drop_first(), class)
    }
}

/// Where the needle first occurs in the text.
pub open spec fn first_occurrence(s: Seq<char>, needle: Seq<char>) -> Option<nat>
    decreases s.len(),
{
    if needle.is_prefix_of(s) {
        Some(0)
    } else if s.len() == 0 {
        None
    } else {
        match first_occurrence(s.drop_first(), needle) {
            Some(i) => Some(1 + i),
            None => None,
        }
    }
}

/// What follows the first occurrence of the separator.
pub open spec fn after_first(s: Seq<char>, separator: Seq<char>) -> Option<Seq<char>> {
    match first_occurrence(s, separator) {
        Some(i) => Some(s.skip((i + separator.len()) as int)),
        None => None,
    }
}

/// What follows the prefix, where the text has it.
pub open spec fn without_prefix(s: Seq<char>, prefix: Seq<char>) -> Option<Seq<char>> {
    if prefix.is_prefix_of(s) {
        Some(s.skip(prefix.len() as int))
    } else {
        None
    }
}

/// Drops one carriage return from the end.
pub open spec fn without_return(s: Seq<char>) -> Seq<char> {
    if s.len() > 0 && s.last() == '\r' {
        s.drop_last()
    } else {
        s
    }
}

/// The position of the first line feed, or the length if there is none.
pub open spec fn line_end(s: Seq<char>) -> nat
    decreases s.len(),
{
    if s.len() == 0 || s.first() == '\n' {
        0
    } else {
        1 + line_end(s.drop_first())
    }
}

/// The lines of a text. A line ends with a line feed, which may follow a carriage return; the
/// last line need not end so.
pub open spec fn lines_of(s: Seq<char>) -> Seq<Seq<char>>
    decreases s.len(),
{
    if s.len() == 0 {
        Seq::empty()
    } else if line_end(s) < s.len() {
        seq![without_return(s.take(line_end(s) as int))] + lines_of(s.skip((line_end(s) + 1) as int))
    } else {
        seq![s]
    }
}

/// The parts in order, with the separator between neighbours.
pub open spec fn joined(parts: Seq<Seq<char>>, separator: Seq<char>) -> Seq<char>
    decreases parts.len(),
{
    if parts.len() == 0 {
        Seq::empty()
    } else if parts.len() == 1 {
        parts[0]
    } else {
        joined(parts.drop_last(), separator) + separator + parts.last()
    }
}

/// The digit of a number below ten.
pub open spec fn digit(n: nat) -> char {
    (('0' as u32) + n) as char
}

/// A number in decimal notation.
pub open spec fn decimal(n: nat) -> Seq<char>
    decreases n,
{
    if n < 10 {
        seq![digit(n)]
    } else {
        decimal(n / 10).push(digit(n % 10))
    }
}

/// The characters of a string.
pub fn to_chars(s: &str) -> (r: Vec<char>)
    ensures
        r@ == s@,
{
    let mut r: Vec<char> = Vec::new();
    for c in it: s.chars()
        invariant
            r@ == it.seq().take(it.index()),
            it.seq() == s@,
    {
        r.push(c);
    }
    r
}

/// Appends characters to a string.
pub fn push_chars(out: &mut String, chars: &[char])
    ensures
        final(out)@ == old(out)@ + chars@,
{
    let ghost start = out@;
    for i in 0..chars.len()
        invariant
            out@ == start + chars@.take(i as int),
    {
        out.push(chars[i]);
        assert(chars@.take(i + 1) == chars@.take(i as int).push(chars@[i as int]));
    }
    assert(chars@.take(chars@.len() as int) == chars@);
}

/// The string made of the characters.
pub fn to_text(chars: &[char]) -> (r: String)
    ensures
        r@ == chars@,
{
    let mut r = String::new();
    push_chars(&mut r, chars);
    r
}

/// Trims the characters of a class from both ends.
pub fn trim<'a>(s: &'a [char], class: CharClass) -> (r: &'a [char])
    ensures
        r@ == trimmed(s@, class),
{
    trim_back(trim_front(s, class), class)
}

/// Trims the characters of a class from the front.
pub fn trim_front<'a>(s: &'a [char], class: CharClass) -> (r: &'a [char])
    ensures
        r@ == trimmed_front(s@, class),
{
    let mut i: usize = 0;
    assert(s@.skip(0) == s@);
    while i < s.len() && class.contains(s[i])
        invariant
            i <= s@.len(),
            trimmed_front(s@, class) == trimmed_front(s@.skip(i as int), class),
        decreases s.len() - i,
    {
        assert(s@.skip(i as int).drop_first() == s@.skip(i + 1));
        i = i + 1;
    }
    assert(s@.subrange(i as int, s@.len() as int) == s@.skip(i as int));
    slice_subrange(s, i, s.len())
}

/// Trims the characters of a class from the back.
pub fn trim_back<'a>(s: &'a [char], class: CharClass) -> (r: &'a [char])
    ensures
        r@ == trimmed_back(s@, class),
{
    let mut j: usize = s.len();
    assert(s@.take(j as int) == s@);
    while j > 0 && class.contains(s[j - 1])
        invariant
            j <= s@.len(),
            trimmed_back(s@, class) == trimmed_back(s@.take(j as int), class),
        decreases j,
    {
        assert(s@.take(j as int).drop_last() == s@.take(j - 1));
        j = j - 1;
    }
    slice_subrange(s, 0, j)
}

/// Finds the first character of a class; the length if there is none.
pub fn find_class(s: &[char], class: CharClass) -> (r: usize)
    ensures
        r == first_of(s@, class),
        r <= s@.len(),
{
    let mut i: usize = 0;
    assert(s@.skip(0) == s@);
    while i < s.len() && !class.contains(s[i])
        invariant
            i <= s@.len(),
            first_of(s@, class) == i + first_of(s@.skip(i as int), class),
        decreases s.len() - i,
    {
        assert(s@.skip(i as int).drop_first() == s@.skip(i + 1));
        i = i + 1;
    }
    i
}

/// Tells whether the text begins with the prefix.
pub fn starts_with(s: &[char], prefix: &str) -> (r: bool)
    ensures
        r == prefix@.is_prefix_of(s@),
{
    let n: usize = prefix.unicode_len();
    if s.len() < n {
        return false;
    }
    for i in 0..n
        invariant
            n == prefix@.len(),
            n <= s@.len(),
            forall|k: int| 0 <= k < i ==> s@[k] == prefix@[k],
    {
        if s[i] != prefix.get_char(i) {
            assert(s@.subrange(0, n as int)[i as int] != prefix@[i as int]);
            return false;
        }
    }
    assert(s@.subrange(0, n as int) == prefix@);
    true
}

/// Gives what follows the prefix, where the text has it.
pub fn strip_prefix<'a>(s: &'a [char], prefix: &str) -> (r: Option<&'a [char]>)
    ensures
        match r {
            Some(rest) => without_prefix(s@, prefix@) == Some(rest@),
            None => without_prefix(s@, prefix@) is None,
        },
{
    if starts_with(s, prefix) {
        let rest = slice_subrange(s, prefix.unicode_len(), s.len());
        assert(rest@ == s@.skip(prefix@.len() as int));
        Some(rest)
    } else {
        None
    }
}

/// Gives what follows the first occurrence of the separator.
pub fn split_after<'a>(s: &'a [char], separator: &str) -> (r: Option<&'a [char]>)
    ensures
        match r {
            Some(rest) => after_first(s@, separator@) == Some(rest@),
            None => after_first(s@, separator@) is None,
        },
{
    let n: usize = separator.unicode_len();
    let mut i: usize = 0;
    assert(s@.skip(0) == s@);
    loop
        invariant
            i <= s@.len(),
            n == separator@.len(),
            first_occurrence(s@, separator@) == (match first_occurrence(
                s@.skip(i as int),
                separator@,
            ) {
                Some(k) => Some((i + k) as nat),
                None => None,
            }),
        decreases s.len() - i,
    {
        let tail = slice_subrange(s, i, s.len());
        assert(tail@ == s@.skip(i as int));
        if starts_with(tail, separator) {
            assert(i + n <= s@.len());
            let rest = slice_subrange(s, i + n, s.len());
            assert(rest@ == s@.skip(i + n));
            return Some(rest);
        }
        if i == s.len() {
            return None;
        }
        assert(s@.skip(i as int).drop_first() == s@.skip(i + 1));
        i = i + 1;
    }
}

/// Splits a text into its lines.
pub fn split_lines(s: &str) -> (r: Vec<Vec<char>>)
    ensures
        r@.map_values(|line: Vec<char>| line@) == lines_of(s@),
{
    let chars = to_chars(s);
    let all = chars.as_slice();
    let mut r: Vec<Vec<char>> = Vec::new();
    let mut start: usize = 0;
    let ghost view = |line: Vec<char>| line@;
    assert(all@.skip(0) == s@);
    while start < all.len()
        invariant
            start <= all@.len(),
            view == (|line: Vec<char>| line@),
            lines_of(s@) == r@.map_values(view) + lines_of(all@.skip(start as int)),
        decreases all.len() - start,
    {
        let tail = slice_subrange(all, start, all.len());
        assert(tail@ == all@.skip(start as int));
        let end: usize = find_line_feed(tail);
        let ghost before = r@;
        if end < tail.len() {
            let line = slice_subrange(tail, 0, end);
            assert(line@ == tail@.take(end as int));
            r.push(slice_to_vec(drop_return(line)));
            assert(r@.map_values(view) == before.map_values(view).push(without_return(line@)));
            assert(tail@.skip(end + 1) == all@.skip(start + end + 1));
            assert(lines_of(tail@) == seq![without_return(line@)] + lines_of(tail@.skip(end + 1)));
            start = start + end + 1;
        } else {
            r.push(slice_to_vec(tail));
            assert(r@.map_values(view) == before.map_values(view).push(tail@));
            start = all.len();
            assert(lines_of(all@.skip(start as int)) == Seq::<Seq<char>>::empty());
            assert(lines_of(tail@) == seq![tail@]);
        }
    }
    assert(lines_of(all@.skip(start as int)) == Seq::<Seq<char>>::empty());
    r
}

fn find_line_feed(s: &[char]) -> (r: usize)
    ensures
        r == line_end(s@),
        r <= s@.len(),
{
    let mut i: usize = 0;
    assert(s@.skip(0) == s@);
    while i < s.len() && s[i] != '\n'
        invariant
            i <= s@.len(),
            line_end(s@) == i + line_end(s@.skip(i as int)),
        decreases s.len() - i,
    {
        assert(s@.skip(i as int).drop_first() == s@.skip(i + 1));
        i = i + 1;
    }
    i
}

fn drop_return<'a>(s: &'a [char]) -> (r: &'a [char])
    ensures
        r@ == without_return(s@),
{
    if s.len() > 0 && s[s.len() - 1] == '\r' {
        let r = slice_subrange(s, 0, s.len() - 1);
        assert(r@ == s@.drop_last());
        r
    } else {
        s
    }
}

/// Joins strings with a separator between neighbours.
pub fn join(parts: &Vec<String>, separator: &str) -> (r: String)
    ensures
        r@ == joined(texts(parts@), separator@),
{
    let mut r = String::new();
    let ghost all = texts(parts@);
    for i in 0..parts.len()
        invariant
            all == texts(parts@),
            r@ == joined(all.take(i as int), separator@),
    {
        assert(all.take(i + 1).drop_last() == all.take(i as int));
        if i > 0 {
            r.append(separator);
        }
        r.append(parts[i].as_str());
    }
    assert(all.take(parts@.len() as int) == all);
    r
}

/// Writes a number in decimal notation.
pub fn decimal_text(n: usize) -> (r: String)
    ensures
        r@ == decimal(n as nat),
    decreases n,
{
    let digits: [char; 10] = ['0', '1', '2', '3', '4', '5', '6', '7', '8', '9'];
    if n < 10 {
        let mut r = String::new();
        r.push(digits[n]);
        assert(r@ == decimal(n as nat));
        r
    } else {
        let mut r = decimal_text(n / 10);
        r.push(digits[n % 10]);
        r
    }
}

/// Joins two strings.
pub fn concat2(a: &str, b: &str) -> (r: String)
    ensures
        r@ == a@ + b@,
{
    let mut r = String::new();
    r.append(a);
    r.append(b);
    r
}

} // verus!
