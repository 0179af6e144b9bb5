//! The casings in which a manifest can show an instruction's name.
//!
//! A name is read as words separated by underscores. Camel case drops the
//! underscores and capitalises the first letter of a word.

use vstd::prelude::*;

verus! {

/// What `str::to_lowercase` of the standard library returns for a string
/// with these characters: its lowercase equivalent by the rules of Unicode.
pub uninterp spec fn lowercase_of(text: Seq<char>) -> Seq<char>;

/// Calls `str::to_lowercase` of the standard library. Taken on trust, not
/// proved: the result depends on the characters of `text` alone, and
/// [`lowercase_of`] is the name for it. Nothing is claimed of what it is.
#[verifier::external_body]
fn lowercase(text: &str) -> (lowered: String)
    ensures
        lowered@ == lowercase_of(text@),
{
    text.to_lowercase()
}

/// `c` as a capital where it is one of the letters `a` to `z`, and `c` itself
/// where it is anything else.
pub open spec fn capital(c: char) -> char {
    if 97 <= c as u32 <= 122 {
        ((c as u32 - 32) as u8) as char
    } else {
        c
    }
}

/// The camel case of `text`, read from the middle of a name: underscores are
/// dropped, the first character of each word is capitalised, and `at_start`
/// says whether `text` begins a word.
pub open spec fn camel_tail(text: Seq<char>, at_start: bool) -> Seq<char>
    decreases text.len(),
{
    if text.len() == 0 {
        Seq::empty()
    } else if text[0] == '_' {
        camel_tail(text.drop_first(), true)
    } else if at_start {
        seq![capital(text[0])] + camel_tail(text.drop_first(), false)
    } else {
        seq![text[0]] + camel_tail(text.drop_first(), false)
    }
}

/// A name in upper camel case: every word capitalised, no underscores.
pub open spec fn upper_camel(name: Seq<char>) -> Seq<char> {
    camel_tail(name, true)
}

/// The first word of `name`: the characters before the first underscore.
pub open spec fn first_word(name: Seq<char>) -> Seq<char>
    decreases name.len(),
{
    if name.len() == 0 || name[0] == '_' {
        Seq::empty()
    } else {
        seq![name[0]] + first_word(name.drop_first())
    }
}

/// What is left of `name` after its first word: nothing, or the first
/// underscore and what follows it.
pub open spec fn after_first_word(name: Seq<char>) -> Seq<char>
    decreases name.len(),
{
    if name.len() == 0 || name[0] == '_' {
        name
    } else {
        after_first_word(name.drop_first())
    }
}

/// A name in lower camel case: the first word in lowercase, every later word
/// capitalised, no underscores.
pub open spec fn lower_camel(name: Seq<char>) -> Seq<char> {
    lowercase_of(first_word(name)) + camel_tail(after_first_word(name), false)
}

/// `c` as a capital where it is one of the letters `a` to `z`.
pub fn to_capital(c: char) -> (upper: char)
    ensures
        upper == capital(c),
{
    let point = c as u32;
    if 97 <= point && point <= 122 {
        ((point - 32) as u8) as char
    } else {
        c
    }
}

/// Appends the camel case of `text` to `out`.
pub fn push_camel_tail(out: &mut String, text: &str, at_start: bool)
    ensures
        final(out)@ == old(out)@ + camel_tail(text@, at_start),
{
    let mut word_start = at_start;
    assert(text@.skip(0) == text@);
    for c in it: text.chars()
        invariant
            it.seq() == text@,
            out@ + camel_tail(text@.skip(it.index() as int), word_start) == old(out)@ + camel_tail(
                text@,
                at_start,
            ),
    {
        proof {
            let rest = text@.skip(it.index() as int);
            assert(rest[0] == c);
            assert(rest.drop_first() == text@.skip(it.index() as int + 1));
        }
        if c == '_' {
            word_start = true;
        } else if word_start {
            out.push(to_capital(c));
            word_start = false;
        } else {
            out.push(c);
        }
    }
}

/// `s` in upper camel case.
pub fn to_upper_camel_case(s: &str) -> (name: String)
    ensures
        name@ == upper_camel(s@),
{
    let mut name = String::new();
    push_camel_tail(&mut name, s, true);
    name
}

/// The first word of `s`: its characters before the first underscore.
pub fn leading_word(s: &str) -> (word: String)
    ensures
        word@ == first_word(s@),
{
    let mut word = String::new();
    let mut inside = true;
    assert(s@.skip(0) == s@);
    for c in it: s.chars()
        invariant
            it.seq() == s@,
            inside ==> word@ + first_word(s@.skip(it.index() as int)) == first_word(s@),
            !inside ==> word@ == first_word(s@),
    {
        proof {
            let rest = s@.skip(it.index() as int);
            assert(rest[0] == c);
            assert(rest.drop_first() == s@.skip(it.index() as int + 1));
        }
        if inside {
            if c == '_' {
                inside = false;
            } else {
                word.push(c);
            }
        }
    }
    word
}

/// The lower camel case of `s`, given the lowercase of its first word.
pub fn lower_camel_from(lowered: String, s: &str) -> (name: String)
    ensures
        name@ == lowered@ + camel_tail(after_first_word(s@), false),
{
    let mut name = lowered;
    let mut inside = true;
    let mut word_start = false;
    assert(s@.skip(0) == s@);
    for c in it: s.chars()
        invariant
            it.seq() == s@,
            inside ==> name@ == lowered@ && !word_start && after_first_word(
                s@.skip(it.index() as int),
            ) == after_first_word(s@),
            !inside ==> name@ + camel_tail(s@.skip(it.index() as int), word_start) == lowered@
                + camel_tail(after_first_word(s@), false),
    {
        proof {
            let rest = s@.skip(it.index() as int);
            assert(rest[0] == c);
            assert(rest.drop_first() == s@.skip(it.index() as int + 1));
        }
        if c == '_' {
            inside = false;
            word_start = true;
        } else if inside {
        } else if word_start {
            name.push(to_capital(c));
            word_start = false;
        } else {
            name.push(c);
        }
    }
    name
}

/// `s` in lower camel case.
pub fn to_lower_camel_case(s: &str) -> (name: String)
    ensures
        name@ == lower_camel(s@),
{
    let word = leading_word(s);
    let lowered = lowercase(word.as_str());
    lower_camel_from(lowered, s)
}

} // verus!
