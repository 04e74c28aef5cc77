//! What holds of every parse: laws of the grammar, each proved from the
//! definitions in [`crate::grammar`].
use crate::grammar::{
    array_at, digits_end, elements_at, is_digit, is_quoted, is_white, is_word, lemma_run_end,
    lemma_run_end_unique, lemma_string_at, lemma_structural, literal_at, members_at, number_at,
    object_at, parse_text, string_at, value_at, white_end, word_end, yields,
};
use crate::value::{literal_of, Literal, Tree};
use vstd::prelude::*;

verus! {

/// Every character of `space` is whitespace.
pub open spec fn all_white(space: Seq<char>) -> bool {
    forall|k: int| 0 <= k < space.len() ==> is_white(#[trigger] space[k])
}

/// Every character of `digits` is a digit.
pub open spec fn all_digits(digits: Seq<char>) -> bool {
    forall|k: int| 0 <= k < digits.len() ==> is_digit(#[trigger] digits[k])
}

/// No character of `content` is a quotation mark.
pub open spec fn quote_free(content: Seq<char>) -> bool {
    forall|k: int| 0 <= k < content.len() ==> is_quoted(#[trigger] content[k])
}

/// A text that can stand between quotation marks and come back from a
/// parse as it is: no quotation mark in it and no whitespace at its start.
pub open spec fn plain(content: Seq<char>) -> bool {
    quote_free(content) && (content.len() == 0 || !is_white(content[0]))
}

/// What the parser promises of every tree it gives: a number is a run of
/// digits that is not empty, a string and a key are `plain`, and an object
/// has finitely many members.
pub open spec fn well_formed(t: Tree) -> bool
    decreases t,
{
    match t {
        Tree::Literal(_) => true,
        Tree::Number(digits) => digits.len() > 0 && all_digits(digits),
        Tree::String(content) => plain(content),
        Tree::Array(elements) => forall|k: int|
            0 <= k < elements.len() ==> well_formed(#[trigger] elements[k]),
        Tree::Object(members) => {
            &&& members.dom().finite()
            &&& forall|key: Seq<char>| members.contains_key(key) ==> plain(key)
            &&& forall|key: Seq<char>|
                members.contains_key(key) ==> well_formed(#[trigger] members[key])
        },
    }
}

/// A keyword followed by nothing but whitespace parses to its literal,
/// and the parse reads the keyword and all of the whitespace.
pub proof fn law_literal(word: Seq<char>, space: Seq<char>)
    requires
        literal_of(word) is Some,
        all_white(space),
    ensures
        yields(
            value_at(word + space, 0),
            (Tree::Literal(literal_of(word)->0), (word + space).len() as int),
        ),
        yields(parse_text(word + space), Tree::Literal(literal_of(word)->0)),
{
    let s = word + space;
    let n = word.len() as int;
    assert(n == 4 || n == 5);
    assert forall|k: int| 0 <= k < n implies is_word(#[trigger] s[k]) && !is_digit(s[k]) by {
        assert(s[k] == word[k]);
        lemma_structural(word[k]);
    }
    assert(n < s.len() ==> !is_word(s[n])) by {
        if n < s.len() {
            assert(s[n] == space[0]);
        }
    }
    lemma_run_end_unique(s, 0, |c: char| is_word(c), n);
    assert forall|k: int| n <= k < s.len() implies is_white(#[trigger] s[k]) by {
        assert(s[k] == space[k - n]);
    }
    lemma_run_end_unique(s, n, |c: char| is_white(c), s.len() as int);
    assert(s.subrange(0, n) =~= word);
    assert(is_word(s[0]));
    assert(yields(literal_at(s, 0), (literal_of(word)->0, s.len() as int)));
}

/// A text of digits parses to the number with exactly those digits.
pub proof fn law_number(digits: Seq<char>)
    requires
        digits.len() > 0,
        all_digits(digits),
    ensures
        yields(value_at(digits, 0), (Tree::Number(digits), digits.len() as int),),
        yields(parse_text(digits), Tree::Number(digits)),
{
    let n = digits.len() as int;
    lemma_run_end_unique(digits, 0, |c: char| is_digit(c), n);
    lemma_run_end_unique(digits, n, |c: char| is_white(c), n);
    assert(digits.subrange(0, n) =~= digits);
    assert(is_digit(digits[0]));
    assert(yields(number_at(digits, 0), (digits, n)));
}

/// A text between quotation marks that holds no quotation mark parses to
/// the string of that text without the whitespace it begins with.
pub proof fn law_string(content: Seq<char>)
    requires
        quote_free(content),
    ensures
        yields(
            value_at(seq!['"'] + content + seq!['"'], 0),
            (Tree::String(content.skip(white_end(content, 0))), (content.len() + 2) as int),
        ),
        0 <= white_end(content, 0) <= content.len(),
        content.len() == 0 || !is_white(content[0]) ==> yields(
            parse_text(seq!['"'] + content + seq!['"']),
            Tree::String(content),
        ),
{
    let s = seq!['"'] + content + seq!['"'];
    let n = content.len() as int;
    let w = white_end(content, 0);
    lemma_run_end(content, 0, |c: char| is_white(c));
    assert forall|k: int| 1 <= k < 1 + n implies s[k] == content[k - 1] by {}
    assert(s[n + 1] == '"');
    assert forall|k: int| 1 <= k < 1 + w implies is_white(#[trigger] s[k]) by {
        assert(is_white(content[k - 1]));
    }
    assert(!is_white(s[1 + w])) by {
        if w < n {
            assert(s[1 + w] == content[w]);
        }
    }
    lemma_run_end_unique(s, 1, |c: char| is_white(c), 1 + w);
    assert forall|k: int| 1 + w <= k < 1 + n implies is_quoted(#[trigger] s[k]) by {
        assert(is_quoted(content[k - 1]));
    }
    lemma_run_end_unique(s, 1 + w, |c: char| is_quoted(c), 1 + n);
    lemma_run_end_unique(s, n + 2, |c: char| is_white(c), n + 2);
    assert(s.subrange(1 + w, 1 + n) =~= content.skip(w));
    assert(yields(string_at(s, 0), (content.skip(w), n + 2)));
    if n == 0 || !is_white(content[0]) {
        assert(w == 0);
        assert(content.skip(0) =~= content);
    }
}

/// Braces with nothing but whitespace between them parse to the object
/// without members.
pub proof fn law_empty_object(space: Seq<char>)
    requires
        all_white(space),
    ensures
        yields(
            value_at(seq!['{'] + space + seq!['}'], 0),
            (Tree::Object(Map::empty()), (space.len() + 2) as int),
        ),
        yields(parse_text(seq!['{'] + space + seq!['}']), Tree::Object(Map::empty()),),
{
    let s = seq!['{'] + space + seq!['}'];
    let n = space.len() as int;
    assert forall|k: int| 1 <= k < 1 + n implies is_white(#[trigger] s[k]) by {
        assert(s[k] == space[k - 1]);
    }
    assert(s[n + 1] == '}');
    lemma_run_end_unique(s, 1, |c: char| is_white(c), 1 + n);
    lemma_run_end_unique(s, n + 2, |c: char| is_white(c), n + 2);
    assert(yields(members_at(s, 1 + n, Map::empty()), (Map::empty(), n + 2),));
    assert(yields(object_at(s, 0), (Tree::Object(Map::empty()), n + 2)));
}

/// Brackets with nothing but whitespace between them parse to the array
/// without elements.
pub proof fn law_empty_array(space: Seq<char>)
    requires
        all_white(space),
    ensures
        yields(
            value_at(seq!['['] + space + seq![']'], 0),
            (Tree::Array(Seq::empty()), (space.len() + 2) as int),
        ),
        yields(parse_text(seq!['['] + space + seq![']']), Tree::Array(Seq::empty()),),
{
    let s = seq!['['] + space + seq![']'];
    let n = space.len() as int;
    assert forall|k: int| 1 <= k < 1 + n implies is_white(#[trigger] s[k]) by {
        assert(s[k] == space[k - 1]);
    }
    assert(s[n + 1] == ']');
    lemma_run_end_unique(s, 1, |c: char| is_white(c), 1 + n);
    lemma_run_end_unique(s, n + 2, |c: char| is_white(c), n + 2);
    assert(yields(elements_at(s, 1 + n, Seq::empty()), (Seq::empty(), n + 2),));
    assert(yields(array_at(s, 0), (Tree::Array(Seq::empty()), n + 2)));
}

proof fn lemma_string_plain(s: Seq<char>, i: int)
    ensures
        string_at(s, i) matches Ok((content, next)) ==> plain(content) && 0 <= i && i + 2 <= next
            <= s.len(),
{
    lemma_string_at(s, i);
    if let Ok((content, next)) = string_at(s, i) {
        let start = white_end(s, i + 1);
        lemma_run_end(s, i + 1, |c: char| is_white(c));
        lemma_run_end(s, start, |c: char| is_quoted(c));
        assert forall|k: int| 0 <= k < content.len() implies is_quoted(#[trigger] content[k]) by {
            assert(content[k] == s[start + k]);
        }
        if content.len() > 0 {
            assert(content[0] == s[start]);
        }
    }
}

proof fn lemma_elements_well_formed(s: Seq<char>, i: int, before: Seq<Tree>)
    requires
        0 <= i <= s.len(),
        forall|k: int| 0 <= k < before.len() ==> well_formed(#[trigger] before[k]),
    ensures
        elements_at(s, i, before) matches Ok((elements, next)) ==> 0 <= i < next <= s.len() && (
        forall|k: int| 0 <= k < elements.len() ==> well_formed(#[trigger] elements[k])),
    decreases s.len() - i, 2int,
{
    if 0 <= i < s.len() {
        lemma_run_end(s, i + 1, |c: char| is_white(c));
        if s[i] != ']' {
            lemma_value_well_formed(s, i);
            if let Ok((element, next)) = value_at(s, i) {
                let elements = before.push(element);
                assert forall|k: int| 0 <= k < elements.len() implies well_formed(
                    #[trigger] elements[k],
                ) by {
                    if k < before.len() {
                        assert(elements[k] == before[k]);
                    }
                }
                if i < next < s.len() {
                    lemma_run_end(s, next + 1, |c: char| is_white(c));
                    if s[next] == ',' {
                        lemma_elements_well_formed(s, white_end(s, next + 1), elements);
                    }
                }
            }
        }
    }
}

proof fn lemma_members_well_formed(s: Seq<char>, i: int, before: Map<Seq<char>, Tree>)
    requires
        0 <= i <= s.len(),
        well_formed(Tree::Object(before)),
    ensures
        members_at(s, i, before) matches Ok((members, next)) ==> 0 <= i < next <= s.len()
            && well_formed(Tree::Object(members)),
    decreases s.len() - i, 2int,
{
    if 0 <= i < s.len() {
        lemma_run_end(s, i + 1, |c: char| is_white(c));
        if s[i] == '"' {
            lemma_string_plain(s, i);
            if let Ok((key, colon)) = string_at(s, i) {
                if i < colon < s.len() && s[colon] == ':' {
                    lemma_run_end(s, colon + 1, |c: char| is_white(c));
                    let start = white_end(s, colon + 1);
                    if colon < start < s.len() {
                        lemma_value_well_formed(s, start);
                        if let Ok((member, next)) = value_at(s, start) {
                            let members = before.insert(key, member);
                            assert(members.dom() =~= before.dom().insert(key));
                            if start < next < s.len() {
                                lemma_run_end(s, next + 1, |c: char| is_white(c));
                                if s[next] == ',' {
                                    lemma_members_well_formed(
                                        s,
                                        white_end(s, next + 1),
                                        members,
                                    );
                                }
                            }
                        }
                    }
                }
            }
        }
    }
}

proof fn lemma_value_well_formed(s: Seq<char>, i: int)
    requires
        0 <= i <= s.len(),
    ensures
        value_at(s, i) matches Ok((tree, next)) ==> 0 <= i < next <= s.len() && well_formed(tree),
    decreases s.len() - i, 1int,
{
    if 0 <= i < s.len() {
        lemma_run_end(s, i + 1, |c: char| is_white(c));
        if s[i] == '"' {
            lemma_string_plain(s, i);
        } else if s[i] == '[' {
            let first = white_end(s, i + 1);
            lemma_elements_well_formed(s, first, Seq::empty());
        } else if s[i] == '{' {
            let first = white_end(s, i + 1);
            assert(Map::<Seq<char>, Tree>::empty().dom() =~= Set::empty());
            lemma_members_well_formed(s, first, Map::empty());
        } else if is_digit(s[i]) {
            let end = digits_end(s, i);
            lemma_run_end(s, i, |c: char| is_digit(c));
            lemma_run_end(s, end, |c: char| is_white(c));
            let digits = s.subrange(i, end);
            assert forall|k: int| 0 <= k < digits.len() implies is_digit(#[trigger] digits[k]) by {
                assert(digits[k] == s[i + k]);
            }
        } else {
            let end = word_end(s, i);
            lemma_run_end(s, i, |c: char| is_word(c));
            lemma_run_end(s, end, |c: char| is_white(c));
            if literal_of(s.subrange(i, end)) is Some {
                assert(s.subrange(i, end).len() >= 4);
            }
        }
    } else {
        assert(s.subrange(i, i).len() == 0);
    }
}

/// Every value that a parse gives is well formed, and the parse has read
/// at least one character and none behind the end of the text.
pub proof fn law_parsed_well_formed(s: Seq<char>, i: int)
    requires
        0 <= i <= s.len(),
    ensures
        value_at(s, i) matches Ok((tree, next)) ==> 0 <= i < next <= s.len() && well_formed(tree),
        parse_text(s) matches Ok(tree) ==> well_formed(tree),
{
    lemma_value_well_formed(s, i);
    lemma_value_well_formed(s, 0);
}

} // verus!
