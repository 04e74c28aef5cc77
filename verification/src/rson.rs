//! The scanner and the recursive-descent parser.
//!
//! A [`Rson`] holds a byte source and one character of lookahead. Each
//! production is a method that reads from the lookahead on and leaves the
//! lookahead behind what it read; its contract names the function of
//! [`crate::grammar`] that it computes.
use crate::error::{Failure, ParseError};
use crate::grammar::{
    array_at, digits_end, elements_at, expect_at, fails_with, is_digit, is_quoted, is_structural,
    is_white, is_word, lemma_run_end, lemma_structural, literal_at, look_at, members_at,
    number_at, object_at, parse_text, quote_at, string_at, token_at, value_at, white_end,
    word_end, yields,
};
use crate::text::{decode, lemma_decode_ascii};
use crate::value::{
    lemma_trees_of_push, trees_of, Literal, Number, RsonMap, StructuralChar, Tree, Value,
    NEW_LINE, SPACE, TAB,
};
use vstd::prelude::*;
use vstd::string::{is_ascii_spec_bytes, StringSliceAdditionalSpecFns};

verus! {

/// A parser over a byte source. Every byte is one character, the one whose
/// code is the byte.
pub struct Rson<'a> {
    source: &'a [u8],
    cursor: usize,
    look: Option<char>,
}

/// Tells whether `c` is a space, a tab or a line feed.
fn white(c: char) -> (yes: bool)
    ensures
        yes == is_white(c),
{
    c == SPACE || c == TAB || c == NEW_LINE
}

/// Tells whether `c` is one of the seven structural characters.
fn structural(c: char) -> (yes: bool)
    ensures
        yes == is_structural(c),
{
    proof {
        lemma_structural(c);
    }
    c == '[' || c == ']' || c == '{' || c == '}' || c == ':' || c == ',' || c == '"'
}

/// Tells whether `c` is an ASCII digit.
fn digit(c: char) -> (yes: bool)
    ensures
        yes == is_digit(c),
{
    c >= '0' && c <= '9'
}

impl<'a> Rson<'a> {
    #[verifier::type_invariant]
    closed spec fn in_step(self) -> bool {
        &&& self.cursor <= self.source@.len()
        &&& self.look == look_at(decode(self.source@), self.cursor as int)
    }

    /// The whole text of the source, read or not.
    pub closed spec fn text(self) -> Seq<char> {
        decode(self.source@)
    }

    /// The place of the lookahead in the text; the length of the text when
    /// the source is exhausted.
    pub closed spec fn place(self) -> int {
        self.cursor as int
    }

    /// The lookahead: the character at `place`, or `None` at the end.
    pub open spec fn lookahead(self) -> Option<char> {
        look_at(self.text(), self.place())
    }

    /// A parser at the start of `source`, with its first character as the
    /// lookahead.
    pub fn new(source: &'a [u8]) -> (rson: Self)
        ensures
            rson.text() == decode(source@),
            rson.place() == 0,
    {
        let look = if source.len() > 0 {
            Some(source[0] as char)
        } else {
            None
        };
        Rson { source, cursor: 0, look }
    }

    /// The lookahead.
    pub fn look(&self) -> (look: Option<char>)
        ensures
            look == self.lookahead(),
            0 <= self.place() <= self.text().len(),
    {
        proof {
            use_type_invariant(self);
        }
        self.look
    }

    /// Moves the lookahead one character on and returns it; at the end of
    /// the source it stays there and is `None`.
    pub fn get_char(&mut self) -> (look: Option<char>)
        ensures
            final(self).text() == old(self).text(),
            final(self).place() == if old(self).place() < old(self).text().len() {
                old(self).place() + 1
            } else {
                old(self).place()
            },
            look == final(self).lookahead(),
    {
        proof {
            use_type_invariant(&*self);
        }
        let source = self.source;
        let cursor = if self.cursor < source.len() {
            self.cursor + 1
        } else {
            self.cursor
        };
        let look = if cursor < source.len() {
            Some(source[cursor] as char)
        } else {
            None
        };
        *self = Rson { source, cursor, look };
        look
    }

    /// Tells whether the lookahead is whitespace.
    pub fn is_white(&self) -> (yes: bool)
        ensures
            yes == match self.lookahead() {
                Some(c) => is_white(c),
                None => false,
            },
    {
        match self.look() {
            Some(c) => white(c),
            None => false,
        }
    }

    /// Moves the lookahead behind the whitespace it stands at.
    pub fn skip_white(&mut self)
        ensures
            final(self).text() == old(self).text(),
            final(self).place() == white_end(old(self).text(), old(self).place()),
            old(self).place() <= final(self).place() <= old(self).text().len(),
            forall|k: int|
                old(self).place() <= k < final(self).place() ==> is_white(
                    #[trigger] old(self).text()[k],
                ),
            match final(self).lookahead() {
                Some(c) => !is_white(c),
                None => true,
            },
    {
        let ghost s = self.text();
        let ghost start = self.place();
        proof {
            use_type_invariant(&*self);
            lemma_run_end(s, start, |c: char| is_white(c));
        }
        while self.is_white()
            invariant
                self.text() == s,
                start <= self.place() <= s.len(),
                white_end(s, self.place()) == white_end(s, start),
            decreases s.len() - self.place(),
        {
            self.get_char();
        }
    }

    /// Tells whether the lookahead is `x`. Nothing is read.
    pub fn accept(&self, x: char) -> (yes: bool)
        ensures
            yes == (self.lookahead() == Some(x)),
    {
        match self.look() {
            Some(c) => c == x,
            None => false,
        }
    }

    /// Reads the structural character `x` and the whitespace behind it. If
    /// the lookahead is not `x`, nothing is read and the error names both.
    pub fn match_char(&mut self, x: StructuralChar) -> (done: Result<(), ParseError>)
        ensures
            final(self).text() == old(self).text(),
            match done {
                Ok(()) => yields(
                    expect_at(old(self).text(), old(self).place(), x.spec_char()),
                    final(self).place(),
                ),
                Err(e) => fails_with(
                    expect_at(old(self).text(), old(self).place(), x.spec_char()),
                    e@,
                ) && final(self).place() == old(self).place(),
            },
    {
        let c: char = x.into();
        if self.accept(c) {
            self.get_char();
            self.skip_white();
            Ok(())
        } else {
            Err(ParseError::SyntaxError { expected: c, found: self.look() })
        }
    }

    /// Reads the bare word at the lookahead, which may be empty, and the
    /// whitespace behind it.
    pub fn get_token(&mut self) -> (token: String)
        ensures
            final(self).text() == old(self).text(),
            (token@, final(self).place()) == token_at(old(self).text(), old(self).place()),
    {
        let ghost s = self.text();
        let ghost start = self.place();
        proof {
            use_type_invariant(&*self);
            lemma_run_end(s, start, |c: char| is_word(c));
        }
        let mut token = String::new();
        loop
            invariant_except_break
                self.text() == s,
                0 <= start <= self.place() <= s.len(),
                word_end(s, self.place()) == word_end(s, start),
                token@ == s.subrange(start, self.place()),
            ensures
                self.text() == s,
                0 <= start <= self.place() <= s.len(),
                self.place() == word_end(s, start),
                token@ == s.subrange(start, self.place()),
            decreases s.len() - self.place(),
        {
            match self.look() {
                Some(c) => {
                    if !structural(c) && !white(c) {
                        token.push(c);
                        assert(s.subrange(start, self.place()).push(c) =~= s.subrange(
                            start,
                            self.place() + 1,
                        ));
                    } else {
                        break ;
                    }
                },
                None => {
                    break ;
                },
            }
            self.get_char();
        }
        self.skip_white();
        token
    }

    /// Reads the string at the lookahead and gives its content: what stands
    /// between the quotation marks, as it is, but for whitespace right
    /// behind the opening mark, which is passed over. A backslash is a
    /// character like any other. Fails where no quotation mark stands at
    /// the lookahead, and where the source ends before the closing mark.
    pub fn quoted(&mut self) -> (done: Result<String, ParseError>)
        ensures
            final(self).text() == old(self).text(),
            match done {
                Ok(content) => yields(
                    string_at(old(self).text(), old(self).place()),
                    (content@, final(self).place()),
                ) && old(self).place() < final(self).place() <= old(self).text().len(),
                Err(e) => fails_with(string_at(old(self).text(), old(self).place()), e@),
            },
    {
        let ghost s = self.text();
        let ghost i = self.place();
        match self.match_char(StructuralChar::QuotationMark) {
            Err(e) => {
                return Err(e);
            },
            Ok(()) => {},
        }
        let ghost start = self.place();
        proof {
            lemma_run_end(s, i + 1, |c: char| is_white(c));
            lemma_run_end(s, start, |c: char| is_quoted(c));
        }
        let mut content = String::new();
        loop
            invariant_except_break
                self.text() == s,
                0 <= i < start <= self.place() <= s.len(),
                quote_at(s, self.place()) == quote_at(s, start),
                content@ == s.subrange(start, self.place()),
            ensures
                self.text() == s,
                0 <= i < start <= self.place() <= s.len(),
                self.place() == quote_at(s, start),
                content@ == s.subrange(start, self.place()),
            decreases s.len() - self.place(),
        {
            match self.look() {
                Some(c) => {
                    if c != '"' {
                        content.push(c);
                        assert(s.subrange(start, self.place()).push(c) =~= s.subrange(
                            start,
                            self.place() + 1,
                        ));
                    } else {
                        break ;
                    }
                },
                None => {
                    break ;
                },
            }
            self.get_char();
        }
        match self.look() {
            None => Err(ParseError::UnterminatedStringError),
            Some(_) => {
                proof {
                    lemma_run_end(s, quote_at(s, start) + 1, |c: char| is_white(c));
                }
                let _ = self.match_char(StructuralChar::QuotationMark);
                Ok(content)
            },
        }
    }

    /// Reads the string at the lookahead; see [`Rson::quoted`].
    pub fn string(&mut self) -> (done: Result<Value, ParseError>)
        ensures
            final(self).text() == old(self).text(),
            match done {
                Ok(v) => string_at(old(self).text(), old(self).place()) matches Ok((content, next))
                    && v@ == Tree::String(content) && next == final(self).place()
                    && old(self).place() < final(self).place() <= old(self).text().len(),
                Err(e) => fails_with(string_at(old(self).text(), old(self).place()), e@),
            },
    {
        match self.quoted() {
            Ok(content) => Ok(Value::String(content)),
            Err(e) => Err(e),
        }
    }

    /// Reads the number at the lookahead: the digits that stand there, up
    /// to the first character that is none; sign, fraction and exponent are
    /// no part of a number. Fails where no digit stands at the lookahead.
    pub fn number(&mut self) -> (done: Result<Value, ParseError>)
        ensures
            final(self).text() == old(self).text(),
            match done {
                Ok(v) => number_at(old(self).text(), old(self).place()) matches Ok((digits, next))
                    && v@ == Tree::Number(digits) && next == final(self).place()
                    && old(self).place() < final(self).place() <= old(self).text().len(),
                Err(e) => fails_with(number_at(old(self).text(), old(self).place()), e@),
            },
    {
        let ghost s = self.text();
        let ghost start = self.place();
        let first = match self.look() {
            Some(c) => digit(c),
            None => false,
        };
        if !first {
            return Err(ParseError::IntegerExpectedError);
        }
        proof {
            lemma_run_end(s, start, |c: char| is_digit(c));
        }
        let mut digits = String::new();
        loop
            invariant_except_break
                self.text() == s,
                0 <= start <= self.place() <= s.len(),
                digits_end(s, self.place()) == digits_end(s, start),
                digits@ == s.subrange(start, self.place()),
            ensures
                self.text() == s,
                0 <= start <= self.place() <= s.len(),
                self.place() == digits_end(s, start),
                digits@ == s.subrange(start, self.place()),
            decreases s.len() - self.place(),
        {
            match self.look() {
                Some(c) => {
                    if digit(c) {
                        digits.push(c);
                        assert(s.subrange(start, self.place()).push(c) =~= s.subrange(
                            start,
                            self.place() + 1,
                        ));
                    } else {
                        break ;
                    }
                },
                None => {
                    break ;
                },
            }
            self.get_char();
        }
        self.skip_white();
        Ok(Value::Number(Number::new(digits)))
    }

    /// Reads the literal at the lookahead: the bare word there, which must
    /// be `null`, `true` or `false`. Any other word, the empty one too, is
    /// handed back in the error.
    pub fn literal(&mut self) -> (done: Result<Value, ParseError>)
        ensures
            final(self).text() == old(self).text(),
            match done {
                Ok(v) => literal_at(old(self).text(), old(self).place()) matches Ok((l, next))
                    && v@ == Tree::Literal(l) && next == final(self).place()
                    && old(self).place() < final(self).place() <= old(self).text().len(),
                Err(e) => fails_with(literal_at(old(self).text(), old(self).place()), e@),
            },
    {
        let ghost s = self.text();
        let ghost start = self.place();
        proof {
            use_type_invariant(&*self);
            lemma_run_end(s, start, |c: char| is_word(c));
            lemma_run_end(s, word_end(s, start), |c: char| is_white(c));
        }
        let token = self.get_token();
        match Literal::from_str(token.as_str()) {
            Ok(l) => {
                assert(token@.len() >= 4);
                Ok(Value::Literal(l))
            },
            Err(e) => Err(e),
        }
    }

    /// Reads the value at the lookahead: a string where a quotation mark
    /// stands, an array at `[`, an object at `{`, a number at a digit and a
    /// literal anywhere else. Whitespace before the value is not passed
    /// over; whitespace behind it is.
    ///
    /// Arrays and objects are read by recursion, one call deep for each
    /// level of nesting: how deep a text may nest is bounded by the stack.
    pub fn parse(&mut self) -> (done: Result<Value, ParseError>)
        ensures
            final(self).text() == old(self).text(),
            agrees(done, final(self).place(), value_at(old(self).text(), old(self).place())),
            done is Ok ==> old(self).place() < final(self).place() <= old(self).text().len(),
        decreases old(self).text().len() - old(self).place(), 1int,
    {
        if self.accept('"') {
            return self.string();
        }
        if self.accept('[') {
            return self.array();
        }
        if self.accept('{') {
            return self.object();
        }
        let number = match self.look() {
            Some(c) => digit(c),
            None => false,
        };
        if number {
            return self.number();
        }
        self.literal()
    }

    /// Reads the array at the lookahead: `[`, values separated by `,`, and
    /// `]`. A `,` may stand behind the last value. Fails where the source
    /// ends before the `]`, and where something else than `,` or `]`
    /// follows a value.
    pub fn array(&mut self) -> (done: Result<Value, ParseError>)
        ensures
            final(self).text() == old(self).text(),
            agrees(done, final(self).place(), array_at(old(self).text(), old(self).place())),
            done is Ok ==> old(self).place() < final(self).place() <= old(self).text().len(),
        decreases old(self).text().len() - old(self).place(), 0int,
    {
        let ghost s = self.text();
        let ghost i = self.place();
        match self.match_char(StructuralChar::BeginArray) {
            Err(e) => {
                return Err(e);
            },
            Ok(()) => {},
        }
        let ghost first = self.place();
        proof {
            use_type_invariant(&*self);
            lemma_run_end(s, i + 1, |c: char| is_white(c));
        }
        let ghost whole = elements_at(s, first, Seq::empty());
        let mut items: Vec<Value> = Vec::new();
        let mut failed: Option<ParseError> = None;
        loop
            invariant_except_break
                0 <= i < self.place() <= s.len(),
                failed is None,
                whole == elements_at(s, self.place(), trees_of(items@)),
            invariant
                self.text() == s,
                s == old(self).text(),
                i == old(self).place(),
            ensures
                match failed {
                    Some(e) => fails_with(whole, e@),
                    None => 0 <= i < self.place() < s.len() && s[self.place()] == ']' && yields(
                        whole,
                        (trees_of(items@), white_end(s, self.place() + 1)),
                    ),
                },
            decreases s.len() - self.place(),
        {
            match self.look() {
                None => {
                    failed = Some(ParseError::UnterminatedContainerError);
                    break ;
                },
                Some(c) => {
                    if c == ']' {
                        break ;
                    }
                },
            }
            match self.parse() {
                Err(e) => {
                    failed = Some(e);
                    break ;
                },
                Ok(item) => {
                    proof {
                        lemma_trees_of_push(items@, item);
                    }
                    items.push(item);
                },
            }
            match self.look() {
                None => {
                    failed = Some(ParseError::UnterminatedContainerError);
                    break ;
                },
                Some(c) => {
                    if c == ',' {
                        proof {
                            lemma_run_end(s, self.place() + 1, |c: char| is_white(c));
                        }
                        let _ = self.match_char(StructuralChar::ValueSeperator);
                    } else if c == ']' {
                        break ;
                    } else {
                        failed = Some(
                            ParseError::SyntaxError { expected: ']', found: Some(c) },
                        );
                        break ;
                    }
                },
            }
        }
        match failed {
            Some(e) => Err(e),
            None => {
                proof {
                    lemma_run_end(s, self.place() + 1, |c: char| is_white(c));
                }
                let _ = self.match_char(StructuralChar::EndArray);
                Ok(Value::Array(items))
            },
        }
    }

    /// Reads the object at the lookahead: `{`, members separated by `,`,
    /// and `}`. A member is a string, `:` and a value; where a key comes
    /// twice the later member replaces the earlier one. A `,` may stand
    /// behind the last member. Fails where a key is no string, where the
    /// source ends before the `}`, and where something else than `,` or
    /// `}` follows a member.
    pub fn object(&mut self) -> (done: Result<Value, ParseError>)
        ensures
            final(self).text() == old(self).text(),
            agrees(done, final(self).place(), object_at(old(self).text(), old(self).place())),
            done is Ok ==> old(self).place() < final(self).place() <= old(self).text().len(),
        decreases old(self).text().len() - old(self).place(), 0int,
    {
        let ghost s = self.text();
        let ghost i = self.place();
        match self.match_char(StructuralChar::BeginObject) {
            Err(e) => {
                return Err(e);
            },
            Ok(()) => {},
        }
        let ghost first = self.place();
        proof {
            use_type_invariant(&*self);
            lemma_run_end(s, i + 1, |c: char| is_white(c));
        }
        let ghost whole = members_at(s, first, Map::empty());
        let mut map = RsonMap::new();
        let mut failed: Option<ParseError> = None;
        loop
            invariant_except_break
                0 <= i < self.place() <= s.len(),
                failed is None,
                whole == members_at(s, self.place(), map@),
            invariant
                self.text() == s,
                s == old(self).text(),
                i == old(self).place(),
            ensures
                match failed {
                    Some(e) => fails_with(whole, e@),
                    None => 0 <= i < self.place() < s.len() && s[self.place()] == '}' && yields(
                        whole,
                        (map@, white_end(s, self.place() + 1)),
                    ),
                },
            decreases s.len() - self.place(),
        {
            match self.look() {
                None => {
                    failed = Some(ParseError::UnterminatedContainerError);
                    break ;
                },
                Some(c) => {
                    if c == '}' {
                        break ;
                    }
                    if c != '"' {
                        failed = Some(ParseError::TypeError);
                        break ;
                    }
                },
            }
            let key = match self.quoted() {
                Err(e) => {
                    failed = Some(e);
                    break ;
                },
                Ok(key) => key,
            };
            if self.look().is_none() {
                failed = Some(ParseError::UnterminatedContainerError);
                break ;
            }
            proof {
                lemma_run_end(s, self.place() + 1, |c: char| is_white(c));
            }
            match self.match_char(StructuralChar::NameSeperator) {
                Err(e) => {
                    failed = Some(e);
                    break ;
                },
                Ok(()) => {},
            }
            if self.look().is_none() {
                failed = Some(ParseError::UnterminatedContainerError);
                break ;
            }
            match self.parse() {
                Err(e) => {
                    failed = Some(e);
                    break ;
                },
                Ok(member) => {
                    map.insert(key, member);
                },
            }
            match self.look() {
                None => {
                    failed = Some(ParseError::UnterminatedContainerError);
                    break ;
                },
                Some(c) => {
                    if c == ',' {
                        proof {
                            lemma_run_end(s, self.place() + 1, |c: char| is_white(c));
                        }
                        let _ = self.match_char(StructuralChar::ValueSeperator);
                    } else if c == '}' {
                        break ;
                    } else {
                        failed = Some(
                            ParseError::SyntaxError { expected: '}', found: Some(c) },
                        );
                        break ;
                    }
                },
            }
        }
        match failed {
            Some(e) => Err(e),
            None => {
                proof {
                    lemma_run_end(s, self.place() + 1, |c: char| is_white(c));
                }
                let _ = self.match_char(StructuralChar::EndObject);
                Ok(Value::Object(map))
            },
        }
    }

    /// Parses the value that `source` begins with. What follows the value
    /// is not read.
    pub fn from_reader(source: &[u8]) -> (done: Result<Value, ParseError>)
        ensures
            match done {
                Ok(v) => yields(parse_text(decode(source@)), v@),
                Err(e) => fails_with(parse_text(decode(source@)), e@),
            },
    {
        let mut rson = Rson::new(source);
        rson.parse()
    }

    /// Parses the value that `text` begins with, read byte by byte: a
    /// character outside ASCII counts as the several characters that its
    /// bytes stand for.
    pub fn from_str(text: &str) -> (done: Result<Value, ParseError>)
        ensures
            match done {
                Ok(v) => yields(parse_text(decode(text.spec_bytes())), v@),
                Err(e) => fails_with(parse_text(decode(text.spec_bytes())), e@),
            },
            text.is_ascii() ==> decode(text.spec_bytes()) == text@,
    {
        proof {
            if text.is_ascii() {
                lemma_decode_ascii(text@);
                is_ascii_spec_bytes(text);
            }
        }
        Rson::from_reader(text.as_bytes())
    }
}

/// `got`, with the place of the lookahead behind it, is what the grammar
/// gives.
pub open spec fn agrees(
    got: Result<Value, ParseError>,
    place: int,
    expected: Result<(Tree, int), Failure>,
) -> bool {
    match got {
        Ok(v) => yields(expected, (v@, place)),
        Err(e) => fails_with(expected, e@),
    }
}

} // verus!
