//! Which tree a text denotes, in mathematical terms.
//!
//! A text is a sequence of characters and a place in it is an index. Each
//! production is a function from a text and the place where it starts to
//! either what it denotes and the place behind it, or the failure that ends
//! the parse. The place behind a production is always behind the whitespace
//! that follows it.
use crate::error::Failure;
use crate::value::{literal_of, Literal, StructuralChar, Tree, NEW_LINE, SPACE, TAB};
use vstd::prelude::*;

verus! {

/// Space, tab and line feed separate tokens. A carriage return does not.
pub open spec fn is_white(c: char) -> bool {
    c == SPACE || c == TAB || c == NEW_LINE
}

/// One of the seven characters `[ ] { } : , "`.
pub open spec fn is_structural(c: char) -> bool {
    exists|sc: StructuralChar| sc.spec_char() == c
}

/// One of the ten ASCII digits.
pub open spec fn is_digit(c: char) -> bool {
    '0' <= c <= '9'
}

/// A character that can stand in a bare word.
pub open spec fn is_word(c: char) -> bool {
    !is_structural(c) && !is_white(c)
}

/// A character that can stand between the quotation marks of a string.
pub open spec fn is_quoted(c: char) -> bool {
    c != '"'
}

/// The lookahead at place `i`: the character there, or `None` at the end.
pub open spec fn look_at(s: Seq<char>, i: int) -> Option<char> {
    if 0 <= i < s.len() {
        Some(s[i])
    } else {
        None
    }
}

/// The end of the longest run of characters that satisfy `keep` and that
/// starts at `i`: the first place at or behind `i` where the text ends or a
/// character fails `keep`.
pub open spec fn run_end(s: Seq<char>, i: int, keep: spec_fn(char) -> bool) -> int
    decreases s.len() - i,
{
    if 0 <= i < s.len() && keep(s[i]) {
        run_end(s, i + 1, keep)
    } else {
        i
    }
}

/// The place behind the whitespace that starts at `i`.
pub open spec fn white_end(s: Seq<char>, i: int) -> int {
    run_end(s, i, |c: char| is_white(c))
}

/// The place behind the bare word that starts at `i`.
pub open spec fn word_end(s: Seq<char>, i: int) -> int {
    run_end(s, i, |c: char| is_word(c))
}

/// The place behind the digits that start at `i`.
pub open spec fn digits_end(s: Seq<char>, i: int) -> int {
    run_end(s, i, |c: char| is_digit(c))
}

/// The place of the first quotation mark at or behind `i`, or the end of
/// the text if there is none.
pub open spec fn quote_at(s: Seq<char>, i: int) -> int {
    run_end(s, i, |c: char| is_quoted(c))
}

/// `run_end` stays within the text, passes only characters that satisfy
/// `keep`, and stops at the first that does not.
pub proof fn lemma_run_end(s: Seq<char>, i: int, keep: spec_fn(char) -> bool)
    requires
        0 <= i <= s.len(),
    ensures
        i <= run_end(s, i, keep) <= s.len(),
        forall|k: int| i <= k < run_end(s, i, keep) ==> keep(#[trigger] s[k]),
        run_end(s, i, keep) < s.len() ==> !keep(s[run_end(s, i, keep)]),
    decreases s.len() - i,
{
    if i < s.len() && keep(s[i]) {
        lemma_run_end(s, i + 1, keep);
    }
}

/// The three properties of `lemma_run_end` hold of one place only.
pub proof fn lemma_run_end_unique(s: Seq<char>, i: int, keep: spec_fn(char) -> bool, j: int)
    requires
        0 <= i <= j <= s.len(),
        forall|k: int| i <= k < j ==> keep(#[trigger] s[k]),
        j < s.len() ==> !keep(s[j]),
    ensures
        run_end(s, i, keep) == j,
    decreases j - i,
{
    if i < j {
        assert(keep(s[i]));
        lemma_run_end_unique(s, i + 1, keep, j);
    }
}

/// The structural characters are the seven that [`StructuralChar`] names.
/// None of them is whitespace, a digit or part of a bare word.
pub proof fn lemma_structural(c: char)
    ensures
        is_structural(c) <==> (c == '[' || c == ']' || c == '{' || c == '}' || c == ':' || c == ','
            || c == '"'),
        is_structural(c) ==> !is_white(c) && !is_word(c) && !is_digit(c),
{
    if c == '[' {
        assert(StructuralChar::BeginArray.spec_char() == c);
    } else if c == ']' {
        assert(StructuralChar::EndArray.spec_char() == c);
    } else if c == '{' {
        assert(StructuralChar::BeginObject.spec_char() == c);
    } else if c == '}' {
        assert(StructuralChar::EndObject.spec_char() == c);
    } else if c == ':' {
        assert(StructuralChar::NameSeperator.spec_char() == c);
    } else if c == ',' {
        assert(StructuralChar::ValueSeperator.spec_char() == c);
    } else if c == '"' {
        assert(StructuralChar::QuotationMark.spec_char() == c);
    } else {
        assert forall|sc: StructuralChar| sc.spec_char() != c by {
            match sc {
                StructuralChar::BeginArray => {},
                StructuralChar::EndArray => {},
                StructuralChar::BeginObject => {},
                StructuralChar::EndObject => {},
                StructuralChar::NameSeperator => {},
                StructuralChar::ValueSeperator => {},
                StructuralChar::QuotationMark => {},
            }
        }
    }
}

/// The outcome is `value`.
pub open spec fn yields<T>(outcome: Result<T, Failure>, value: T) -> bool {
    outcome == Ok::<T, Failure>(value)
}

/// The outcome is the failure `failure`.
pub open spec fn fails_with<T>(outcome: Result<T, Failure>, failure: Failure) -> bool {
    outcome == Err::<T, Failure>(failure)
}

/// What expecting the structural character `c` at `i` gives: the place
/// behind it and behind the whitespace that follows, or a syntax error that
/// names `c` and what stands at `i` instead.
pub open spec fn expect_at(s: Seq<char>, i: int, c: char) -> Result<int, Failure> {
    if look_at(s, i) == Some(c) {
        Ok(white_end(s, i + 1))
    } else {
        Err(Failure::SyntaxError { expected: c, found: look_at(s, i) })
    }
}

/// The string at `i`: a quotation mark, whitespace that does not count, the
/// content up to the next quotation mark, and that mark.
pub open spec fn string_at(s: Seq<char>, i: int) -> Result<(Seq<char>, int), Failure> {
    match expect_at(s, i, '"') {
        Err(e) => Err(e),
        Ok(start) => {
            let end = quote_at(s, start);
            if end < s.len() {
                Ok((s.subrange(start, end), white_end(s, end + 1)))
            } else {
                Err(Failure::UnterminatedStringError)
            }
        },
    }
}

/// A string has at least its two quotation marks and ends within the text.
pub proof fn lemma_string_at(s: Seq<char>, i: int)
    ensures
        string_at(s, i) matches Ok((_, next)) ==> 0 <= i && i + 2 <= next <= s.len(),
{
    if look_at(s, i) == Some('"') {
        lemma_run_end(s, i + 1, |c: char| is_white(c));
        let start = white_end(s, i + 1);
        lemma_run_end(s, start, |c: char| is_quoted(c));
        let end = quote_at(s, start);
        if end < s.len() {
            lemma_run_end(s, end + 1, |c: char| is_white(c));
        }
    }
}

/// The number at `i`: the longest run of digits, which must not be empty.
pub open spec fn number_at(s: Seq<char>, i: int) -> Result<(Seq<char>, int), Failure> {
    if 0 <= i < s.len() && is_digit(s[i]) {
        let end = digits_end(s, i);
        Ok((s.subrange(i, end), white_end(s, end)))
    } else {
        Err(Failure::IntegerExpectedError)
    }
}

/// The bare word at `i`, which may be empty, and the place behind it.
pub open spec fn token_at(s: Seq<char>, i: int) -> (Seq<char>, int) {
    let end = word_end(s, i);
    (s.subrange(i, end), white_end(s, end))
}

/// The literal at `i`: the bare word there must be a keyword.
pub open spec fn literal_at(s: Seq<char>, i: int) -> Result<(Literal, int), Failure> {
    let (token, next) = token_at(s, i);
    match literal_of(token) {
        Some(l) => Ok((l, next)),
        None => Err(Failure::UnexpectedLiteralError { token }),
    }
}

/// The value at `i`. The character at `i` decides the production: a
/// quotation mark a string, `[` an array, `{` an object, a digit a number
/// and anything else, the end of the text too, a literal.
pub open spec fn value_at(s: Seq<char>, i: int) -> Result<(Tree, int), Failure>
    decreases s.len() - i, 1int,
{
    if look_at(s, i) == Some('"') {
        match string_at(s, i) {
            Ok((content, next)) => Ok((Tree::String(content), next)),
            Err(e) => Err(e),
        }
    } else if look_at(s, i) == Some('[') {
        array_at(s, i)
    } else if look_at(s, i) == Some('{') {
        object_at(s, i)
    } else if 0 <= i < s.len() && is_digit(s[i]) {
        match number_at(s, i) {
            Ok((digits, next)) => Ok((Tree::Number(digits), next)),
            Err(e) => Err(e),
        }
    } else {
        match literal_at(s, i) {
            Ok((l, next)) => Ok((Tree::Literal(l), next)),
            Err(e) => Err(e),
        }
    }
}

/// The array at `i`: `[`, the elements, `]`.
pub open spec fn array_at(s: Seq<char>, i: int) -> Result<(Tree, int), Failure>
    decreases s.len() - i, 0int,
{
    match expect_at(s, i, '[') {
        Err(e) => Err(e),
        Ok(first) => {
            proof {
                lemma_run_end(s, i + 1, |c: char| is_white(c));
            }
            match elements_at(s, first, Seq::empty()) {
                Ok((elements, next)) => Ok((Tree::Array(elements), next)),
                Err(e) => Err(e),
            }
        },
    }
}

/// The rest of an array from `i` on, where `i` is behind `[` or behind a
/// `,` and `before` holds the elements read so far. A `]` at `i` closes the
/// array, so a `,` may stand behind the last element. After an element
/// only `,` and `]` can follow. Where the text ends first, the array is
/// unterminated. (The place behind an element is always behind where the
/// element starts; that this definition asks for it makes it well founded.)
pub open spec fn elements_at(s: Seq<char>, i: int, before: Seq<Tree>) -> Result<
    (Seq<Tree>, int),
    Failure,
>
    decreases s.len() - i, 2int,
{
    if !(0 <= i < s.len()) {
        Err(Failure::UnterminatedContainerError)
    } else if s[i] == ']' {
        Ok((before, white_end(s, i + 1)))
    } else {
        match value_at(s, i) {
            Err(e) => Err(e),
            Ok((element, next)) => {
                let elements = before.push(element);
                if !(i < next < s.len()) {
                    Err(Failure::UnterminatedContainerError)
                } else if s[next] == ',' {
                    proof {
                        lemma_run_end(s, next + 1, |c: char| is_white(c));
                    }
                    elements_at(s, white_end(s, next + 1), elements)
                } else if s[next] == ']' {
                    Ok((elements, white_end(s, next + 1)))
                } else {
                    Err(Failure::SyntaxError { expected: ']', found: Some(s[next]) })
                }
            },
        }
    }
}

/// The object at `i`: `{`, the members, `}`.
pub open spec fn object_at(s: Seq<char>, i: int) -> Result<(Tree, int), Failure>
    decreases s.len() - i, 0int,
{
    match expect_at(s, i, '{') {
        Err(e) => Err(e),
        Ok(first) => {
            proof {
                lemma_run_end(s, i + 1, |c: char| is_white(c));
            }
            match members_at(s, first, Map::empty()) {
                Ok((members, next)) => Ok((Tree::Object(members), next)),
                Err(e) => Err(e),
            }
        },
    }
}

/// The rest of an object from `i` on, where `i` is behind `{` or behind a
/// `,` and `before` holds the members read so far. A `}` at `i` closes the
/// object, so a `,` may stand behind the last member. A member is a string,
/// `:` and a value; of two members with one key the later one counts.
/// After a member only `,` and `}` can follow. Where the text ends first,
/// the object is unterminated. (The place behind a value is always behind
/// where the value starts; that this definition asks for it makes it well
/// founded.)
pub open spec fn members_at(s: Seq<char>, i: int, before: Map<Seq<char>, Tree>) -> Result<
    (Map<Seq<char>, Tree>, int),
    Failure,
>
    decreases s.len() - i, 2int,
{
    if !(0 <= i < s.len()) {
        Err(Failure::UnterminatedContainerError)
    } else if s[i] == '}' {
        Ok((before, white_end(s, i + 1)))
    } else if s[i] != '"' {
        Err(Failure::TypeError)
    } else {
        match string_at(s, i) {
            Err(e) => Err(e),
            Ok((key, colon)) => {
                if colon >= s.len() {
                    Err(Failure::UnterminatedContainerError)
                } else {
                    match expect_at(s, colon, ':') {
                        Err(e) => Err(e),
                        Ok(start) => {
                            proof {
                                lemma_string_at(s, i);
                                lemma_run_end(s, colon + 1, |c: char| is_white(c));
                            }
                            if start >= s.len() {
                                Err(Failure::UnterminatedContainerError)
                            } else {
                                match value_at(s, start) {
                                    Err(e) => Err(e),
                                    Ok((member, next)) => {
                                        let members = before.insert(key, member);
                                        if !(start < next < s.len()) {
                                            Err(Failure::UnterminatedContainerError)
                                        } else if s[next] == ',' {
                                            proof {
                                                lemma_run_end(s, next + 1, |c: char| is_white(c));
                                            }
                                            members_at(s, white_end(s, next + 1), members)
                                        } else if s[next] == '}' {
                                            Ok((members, white_end(s, next + 1)))
                                        } else {
                                            Err(
                                                Failure::SyntaxError {
                                                    expected: '}',
                                                    found: Some(s[next]),
                                                },
                                            )
                                        }
                                    },
                                }
                            }
                        },
                    }
                }
            },
        }
    }
}

/// What parsing the whole text `s` gives: the value at its start. What
/// follows that value is not looked at.
pub open spec fn parse_text(s: Seq<char>) -> Result<Tree, Failure> {
    match value_at(s, 0) {
        Ok((tree, _)) => Ok(tree),
        Err(e) => Err(e),
    }
}

} // verus!
