//! The classes of single characters in an armor, recognized by the parsers
//! of `combine`.
//!
//! Each class has a parser that takes one character off the input where
//! the character is of the class. `inner_armor_lexer` takes the first class
//! that fits, in a fixed order; `armor_lexer` does so for every character
//! of the input.

use crate::token::{is_digit_char, is_newline_char, is_whitespace_char};
use vstd::prelude::*;

verus! {

/// One character with its class.
#[derive(Copy, Clone, Debug, Eq, PartialEq, Structural)]
pub enum ArmorToken {
    /// A character of no other class.
    OtherUtf8(char),
    /// An uppercase letter.
    UpperCaseLetter(char),
    /// A lowercase letter.
    LowerCaseLetter(char),
    /// One of `0` to `9`.
    Digit(char),
    /// `=`.
    EqualSign(char),
    /// `:`.
    Colon(char),
    /// A white space.
    WhiteSpace(char),
    /// A line feed.
    NewLine(char),
    /// `,`.
    Comma(char),
    /// `/`.
    ForwardSlash(char),
}

/// Whether `c` is an uppercase letter: what `char::is_uppercase` says of it.
pub uninterp spec fn is_uppercase(c: char) -> bool;

/// Whether `c` is a lowercase letter: what `char::is_lowercase` says of it.
pub uninterp spec fn is_lowercase(c: char) -> bool;

/// Whether `c` is white space: what `char::is_whitespace` says of it.
pub uninterp spec fn is_space(c: char) -> bool;

/// What a parser gives that takes one character off `input` where
/// `accepts` holds of that character: the character and the rest of the
/// input, or nothing where the input is empty or the character is not
/// accepted.
pub open spec fn one_char(
    input: Seq<char>,
    accepts: spec_fn(char) -> bool,
    parsed: Option<(char, Seq<char>)>,
) -> bool {
    if input.len() > 0 && accepts(input[0]) {
        parsed == Some((input[0], input.drop_first()))
    } else {
        parsed is None
    }
}

/// What was parsed, with the rest of the input as a value of
/// specifications.
pub open spec fn parsed_view(parsed: Option<(char, &str)>) -> Option<(char, Seq<char>)> {
    match parsed {
        Some((c, rest)) => Some((c, rest@)),
        None => None,
    }
}

/// `char::is_uppercase`, which tells whether `c` has the Unicode property
/// `Uppercase`.
#[verifier::external_body]
fn char_is_uppercase(c: char) -> (upper: bool)
    ensures
        upper == is_uppercase(c),
{
    c.is_uppercase()
}

/// `char::is_lowercase`, which tells whether `c` has the Unicode property
/// `Lowercase`.
#[verifier::external_body]
fn char_is_lowercase(c: char) -> (lower: bool)
    ensures
        lower == is_lowercase(c),
{
    c.is_lowercase()
}

/// `char::is_digit` with the radix ten, which holds of `0` to `9` and of no
/// other character.
#[verifier::external_body]
fn char_is_decimal_digit(c: char) -> (digit: bool)
    ensures
        digit == is_digit_char(c),
{
    c.is_digit(10)
}

/// `combine::parser::char::upper` run on `input`: the parser takes one
/// character off the input where `char::is_uppercase` holds of it.
#[verifier::external_body]
fn parse_upper<'a>(input: &'a str) -> (parsed: Option<(char, &'a str)>)
    ensures
        one_char(input@, |c: char| is_uppercase(c), parsed_view(parsed)),
{
    combine::Parser::parse(&mut combine::parser::char::upper::<&'a str>(), input).ok()
}

/// `combine::parser::char::lower` run on `input`: the parser takes one
/// character off the input where `char::is_lowercase` holds of it.
#[verifier::external_body]
fn parse_lower<'a>(input: &'a str) -> (parsed: Option<(char, &'a str)>)
    ensures
        one_char(input@, |c: char| is_lowercase(c), parsed_view(parsed)),
{
    combine::Parser::parse(&mut combine::parser::char::lower::<&'a str>(), input).ok()
}

/// `combine::parser::char::digit` run on `input`: the parser takes one
/// character off the input where it is one of `0` to `9`.
#[verifier::external_body]
fn parse_digit<'a>(input: &'a str) -> (parsed: Option<(char, &'a str)>)
    ensures
        one_char(input@, |c: char| is_digit_char(c), parsed_view(parsed)),
{
    combine::Parser::parse(&mut combine::parser::char::digit::<&'a str>(), input).ok()
}

/// `combine::parser::char::space` run on `input`: the parser takes one
/// character off the input where `char::is_whitespace` holds of it.
#[verifier::external_body]
fn parse_space<'a>(input: &'a str) -> (parsed: Option<(char, &'a str)>)
    ensures
        one_char(input@, |c: char| is_space(c), parsed_view(parsed)),
{
    combine::Parser::parse(&mut combine::parser::char::space::<&'a str>(), input).ok()
}

/// `combine::parser::char::newline` run on `input`: the parser takes one
/// character off the input where it is a line feed.
#[verifier::external_body]
fn parse_newline<'a>(input: &'a str) -> (parsed: Option<(char, &'a str)>)
    ensures
        one_char(input@, |c: char| c == '\n', parsed_view(parsed)),
{
    combine::Parser::parse(&mut combine::parser::char::newline::<&'a str>(), input).ok()
}

/// `combine::parser::char::char` with the character `wanted`, run on
/// `input`: the parser takes one character off the input where it is
/// `wanted`.
#[verifier::external_body]
fn parse_char<'a>(wanted: char, input: &'a str) -> (parsed: Option<(char, &'a str)>)
    ensures
        one_char(input@, |c: char| c == wanted, parsed_view(parsed)),
{
    combine::Parser::parse(&mut combine::parser::char::char::<&'a str>(wanted), input).ok()
}

/// `combine::parser::token::satisfy` with `is_other_utf8`, run on `input`:
/// the parser takes one character off the input where `is_other_utf8`
/// holds of it.
#[verifier::external_body]
fn parse_other<'a>(input: &'a str) -> (parsed: Option<(char, &'a str)>)
    ensures
        one_char(input@, |c: char| other_utf8_char(c), parsed_view(parsed)),
{
    combine::Parser::parse(
        &mut combine::parser::token::satisfy::<&'a str, _>(|c: char| is_other_utf8(c)),
        input,
    ).ok()
}

/// Whether `c` is of no class of its own: no space or tab, no letter, no
/// digit, no end of line, and none of `/`, `,`, `:` and `=`.
pub open spec fn other_utf8_char(c: char) -> bool {
    !(is_whitespace_char(c) || is_uppercase(c) || is_lowercase(c) || is_digit_char(c)
        || is_newline_char(c) || c == '/' || c == ',' || c == ':' || c == '=')
}

/// Whether `ch` is of no class of its own.
pub fn is_other_utf8(ch: char) -> (other: bool)
    ensures
        other == other_utf8_char(ch),
{
    !(is_whitespace(ch) || char_is_uppercase(ch) || char_is_lowercase(ch)
        || char_is_decimal_digit(ch) || is_newline(ch) || ch == '/' || ch == ',' || ch == ':'
        || ch == '=')
}

/// Whether `ch` is a space or a tab.
#[inline]
pub fn is_whitespace(ch: char) -> (blank: bool)
    ensures
        blank == is_whitespace_char(ch),
{
    ch == ' ' || ch == '\t'
}

/// Whether `ch` ends a line.
#[inline]
pub fn is_newline(ch: char) -> (ends: bool)
    ensures
        ends == is_newline_char(ch),
{
    (ch == '\n') || (ch == '\r')
}

/// What was lexed, with the rest of the input as a value of
/// specifications.
pub open spec fn lexed_view(lexed: Option<(ArmorToken, &str)>) -> Option<(ArmorToken, Seq<char>)> {
    match lexed {
        Some((token, rest)) => Some((token, rest@)),
        None => None,
    }
}

/// What a lexer gives that takes one character off `input` where `accepts`
/// holds of it and makes it the token `class` of that character.
pub open spec fn one_token(
    input: Seq<char>,
    accepts: spec_fn(char) -> bool,
    class: spec_fn(char) -> ArmorToken,
    lexed: Option<(ArmorToken, Seq<char>)>,
) -> bool {
    if input.len() > 0 && accepts(input[0]) {
        lexed == Some((class(input[0]), input.drop_first()))
    } else {
        lexed is None
    }
}

/// Takes an uppercase letter off the input.
pub fn uppercase_letter<'a>(input: &'a str) -> (lexed: Option<(ArmorToken, &'a str)>)
    ensures
        one_token(
            input@,
            |c: char| is_uppercase(c),
            |c: char| ArmorToken::UpperCaseLetter(c),
            lexed_view(lexed),
        ),
{
    match parse_upper(input) {
        Some((c, rest)) => Some((ArmorToken::UpperCaseLetter(c), rest)),
        None => None,
    }
}

/// Takes a lowercase letter off the input.
pub fn lowercase_letter<'a>(input: &'a str) -> (lexed: Option<(ArmorToken, &'a str)>)
    ensures
        one_token(
            input@,
            |c: char| is_lowercase(c),
            |c: char| ArmorToken::LowerCaseLetter(c),
            lexed_view(lexed),
        ),
{
    match parse_lower(input) {
        Some((c, rest)) => Some((ArmorToken::LowerCaseLetter(c), rest)),
        None => None,
    }
}

/// Takes `=` off the input.
pub fn equal_sign<'a>(input: &'a str) -> (lexed: Option<(ArmorToken, &'a str)>)
    ensures
        one_token(
            input@,
            |c: char| c == '=',
            |c: char| ArmorToken::EqualSign(c),
            lexed_view(lexed),
        ),
{
    match parse_char('=', input) {
        Some((c, rest)) => Some((ArmorToken::EqualSign(c), rest)),
        None => None,
    }
}

/// Takes `:` off the input.
pub fn colon<'a>(input: &'a str) -> (lexed: Option<(ArmorToken, &'a str)>)
    ensures
        one_token(
            input@,
            |c: char| c == ':',
            |c: char| ArmorToken::Colon(c),
            lexed_view(lexed),
        ),
{
    match parse_char(':', input) {
        Some((c, rest)) => Some((ArmorToken::Colon(c), rest)),
        None => None,
    }
}

/// Takes one of `0` to `9` off the input.
pub fn digit<'a>(input: &'a str) -> (lexed: Option<(ArmorToken, &'a str)>)
    ensures
        one_token(
            input@,
            |c: char| is_digit_char(c),
            |c: char| ArmorToken::Digit(c),
            lexed_view(lexed),
        ),
{
    match parse_digit(input) {
        Some((c, rest)) => Some((ArmorToken::Digit(c), rest)),
        None => None,
    }
}

/// Takes a white space off the input.
pub fn whitespace<'a>(input: &'a str) -> (lexed: Option<(ArmorToken, &'a str)>)
    ensures
        one_token(
            input@,
            |c: char| is_space(c),
            |c: char| ArmorToken::WhiteSpace(c),
            lexed_view(lexed),
        ),
{
    match parse_space(input) {
        Some((c, rest)) => Some((ArmorToken::WhiteSpace(c), rest)),
        None => None,
    }
}

/// Takes `,` off the input.
pub fn comma<'a>(input: &'a str) -> (lexed: Option<(ArmorToken, &'a str)>)
    ensures
        one_token(
            input@,
            |c: char| c == ',',
            |c: char| ArmorToken::Comma(c),
            lexed_view(lexed),
        ),
{
    match parse_char(',', input) {
        Some((c, rest)) => Some((ArmorToken::Comma(c), rest)),
        None => None,
    }
}

/// Takes `/` off the input.
pub fn forward_slash<'a>(input: &'a str) -> (lexed: Option<(ArmorToken, &'a str)>)
    ensures
        one_token(
            input@,
            |c: char| c == '/',
            |c: char| ArmorToken::ForwardSlash(c),
            lexed_view(lexed),
        ),
{
    match parse_char('/', input) {
        Some((c, rest)) => Some((ArmorToken::ForwardSlash(c), rest)),
        None => None,
    }
}

/// Takes a line feed off the input.
pub fn newline<'a>(input: &'a str) -> (lexed: Option<(ArmorToken, &'a str)>)
    ensures
        one_token(
            input@,
            |c: char| c == '\n',
            |c: char| ArmorToken::NewLine(c),
            lexed_view(lexed),
        ),
{
    match parse_newline(input) {
        Some((c, rest)) => Some((ArmorToken::NewLine(c), rest)),
        None => None,
    }
}

/// Takes a character of no class of its own off the input.
pub fn other_utf8<'a>(input: &'a str) -> (lexed: Option<(ArmorToken, &'a str)>)
    ensures
        one_token(
            input@,
            |c: char| other_utf8_char(c),
            |c: char| ArmorToken::OtherUtf8(c),
            lexed_view(lexed),
        ),
{
    match parse_other(input) {
        Some((c, rest)) => Some((ArmorToken::OtherUtf8(c), rest)),
        None => None,
    }
}

/// The token of the character `c`: that of the first class that fits, in
/// the order uppercase letter, lowercase letter, `=`, `:`, digit, white
/// space, `,`, `/`, line feed, other. Nothing where no class fits.
pub open spec fn token_of(c: char) -> Option<ArmorToken> {
    if is_uppercase(c) {
        Some(ArmorToken::UpperCaseLetter(c))
    } else if is_lowercase(c) {
        Some(ArmorToken::LowerCaseLetter(c))
    } else if c == '=' {
        Some(ArmorToken::EqualSign(c))
    } else if c == ':' {
        Some(ArmorToken::Colon(c))
    } else if is_digit_char(c) {
        Some(ArmorToken::Digit(c))
    } else if is_space(c) {
        Some(ArmorToken::WhiteSpace(c))
    } else if c == ',' {
        Some(ArmorToken::Comma(c))
    } else if c == '/' {
        Some(ArmorToken::ForwardSlash(c))
    } else if c == '\n' {
        Some(ArmorToken::NewLine(c))
    } else if other_utf8_char(c) {
        Some(ArmorToken::OtherUtf8(c))
    } else {
        None
    }
}

/// The first of the given results that is a token, in the order in which
/// they are given.
pub open spec fn first_of(results: Seq<Option<(ArmorToken, Seq<char>)>>) -> Option<
    (ArmorToken, Seq<char>),
>
    decreases results.len(),
{
    if results.len() == 0 {
        None
    } else if results[0] is Some {
        results[0]
    } else {
        first_of(results.drop_first())
    }
}

/// The first of the results of the lexers of the classes that is a token,
/// in the order of the classes.
pub fn first_token<'a>(results: &[Option<(ArmorToken, &'a str)>]) -> (lexed: Option<
    (ArmorToken, &'a str),
>)
    ensures
        lexed_view(lexed) == first_of(Seq::new(results@.len(), |i: int| lexed_view(results@[i]))),
{
    let ghost views = Seq::new(results@.len(), |i: int| lexed_view(results@[i]));
    let mut i: usize = 0;
    assert(views.skip(0) =~= views);
    while i < results.len()
        invariant
            i <= results@.len(),
            views == Seq::new(results@.len(), |i: int| lexed_view(results@[i])),
            first_of(views) == first_of(views.skip(i as int)),
        decreases results@.len() - i,
    {
        match results[i] {
            Some((token, rest)) => {
                assert(views.skip(i as int)[0] == views[i as int]);
                return Some((token, rest));
            },
            None => {
                assert(views.skip(i as int)[0] == views[i as int]);
                assert(views.skip(i as int).drop_first() =~= views.skip(i + 1));
            },
        }
        i = i + 1;
    }
    assert(views.skip(i as int).len() == 0);
    None
}

/// Takes one character off the input and gives its token: that of the
/// first class that fits.
pub fn inner_armor_lexer<'a>(input: &'a str) -> (lexed: Option<(ArmorToken, &'a str)>)
    ensures
        match lexed {
            Some((token, rest)) => input@.len() > 0 && token_of(input@[0]) == Some(token)
                && rest@ == input@.drop_first(),
            None => input@.len() == 0 || token_of(input@[0]) is None,
        },
{
    let results = [
        uppercase_letter(input),
        lowercase_letter(input),
        equal_sign(input),
        colon(input),
        digit(input),
        whitespace(input),
        comma(input),
        forward_slash(input),
        newline(input),
        other_utf8(input),
    ];
    let ghost views = Seq::new(results@.len(), |i: int| lexed_view(results@[i]));
    proof {
        reveal_with_fuel(first_of, 11);
        assert(views.len() == 10);
        assert(views[0] == lexed_view(results@[0]));
        assert(views[1] == lexed_view(results@[1]));
        assert(views[2] == lexed_view(results@[2]));
        assert(views[3] == lexed_view(results@[3]));
        assert(views[4] == lexed_view(results@[4]));
        assert(views[5] == lexed_view(results@[5]));
        assert(views[6] == lexed_view(results@[6]));
        assert(views[7] == lexed_view(results@[7]));
        assert(views[8] == lexed_view(results@[8]));
        assert(views[9] == lexed_view(results@[9]));
    }
    first_token(results.as_slice())
}

/// The tokens of all the characters of `input`, in order. Nothing where
/// the input is empty or holds a character that no class fits.
pub fn armor_lexer(input: &str) -> (tokens: Option<Vec<ArmorToken>>)
    ensures
        match tokens {
            Some(tokens) => input@.len() > 0 && tokens@.len() == input@.len() && forall|i: int|
                0 <= i < input@.len() ==> token_of(#[trigger] input@[i]) == Some(tokens@[i]),
            None => input@.len() == 0 || exists|i: int|
                0 <= i < input@.len() && token_of(#[trigger] input@[i]) is None,
        },
{
    if input.is_empty() {
        return None;
    }
    let mut parsed: Vec<ArmorToken> = Vec::new();
    let mut rest = input;
    while !rest.is_empty()
        invariant
            parsed@.len() + rest@.len() == input@.len(),
            rest@ == input@.skip(parsed@.len() as int),
            forall|i: int|
                0 <= i < parsed@.len() ==> token_of(#[trigger] input@[i]) == Some(parsed@[i]),
        decreases rest@.len(),
    {
        match inner_armor_lexer(rest) {
            Some((token, remaining)) => {
                assert(rest@[0] == input@[parsed@.len() as int]);
                assert(rest@.drop_first() =~= input@.skip(parsed@.len() as int + 1));
                parsed.push(token);
                rest = remaining;
            },
            None => {
                assert(rest@[0] == input@[parsed@.len() as int]);
                return None;
            },
        }
    }
    Some(parsed)
}

} // verus!
