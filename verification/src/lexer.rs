//! The tokenizer: from characters to the terminal symbols of the armor
//! grammar.
//!
//! At each place the tokenizer takes the first kind of token that fits, in
//! this order: the five dashes, `BEGIN ` and `END `, the `PGP ...` labels
//! with the longest first, `: `, the reserved header keys, the blank line,
//! and last the kinds that are one character long. Every character belongs
//! to some token, so the tokenizer never fails; when the input is used up it
//! gives `Eof`.

use crate::text::to_chars;
use crate::token::{
    is_blank_line, is_digit_char, is_letter_char, is_newline_char, is_whitespace_char,
    string_to_token_type, token_type_of, valid_lexeme, Location, Token, TokenType, TokenView,
};
use vstd::prelude::*;

verus! {

/// How many octets the UTF-8 form of `c` takes.
pub open spec fn char_width(c: char) -> int {
    if (c as u32) < 0x80 {
        1
    } else if (c as u32) < 0x800 {
        2
    } else if (c as u32) < 0x10000 {
        3
    } else {
        4
    }
}

/// How many octets the UTF-8 form of `text` takes.
pub open spec fn utf8_len(text: Seq<char>) -> int
    decreases text.len(),
{
    if text.len() == 0 {
        0
    } else {
        utf8_len(text.drop_last()) + char_width(text.last())
    }
}

/// The offset in octets of the character at index `pos` of `input`.
pub open spec fn offset_of(input: Seq<char>, pos: int) -> int {
    utf8_len(input.take(pos))
}

/// One character more moves the offset on by the width of that character.
pub proof fn lemma_offset_step(input: Seq<char>, pos: int)
    requires
        0 <= pos < input.len(),
    ensures
        offset_of(input, pos + 1) == offset_of(input, pos) + char_width(input[pos]),
        offset_of(input, pos) >= 0,
    decreases pos,
{
    assert(input.take(pos + 1).drop_last() =~= input.take(pos));
    if pos > 0 {
        lemma_offset_step(input, pos - 1);
    }
}

/// Offsets grow with the index, by at least one octet for every character.
pub proof fn lemma_offset_monotone(input: Seq<char>, a: int, b: int)
    requires
        0 <= a <= b <= input.len(),
    ensures
        0 <= offset_of(input, a),
        offset_of(input, a) + (b - a) <= offset_of(input, b),
    decreases b - a,
{
    if a < b {
        lemma_offset_monotone(input, a, b - 1);
        lemma_offset_step(input, b - 1);
    } else if a > 0 {
        lemma_offset_step(input, a - 1);
    }
}

/// The length of text in octets is additive.
pub proof fn lemma_utf8_len_concat(a: Seq<char>, b: Seq<char>)
    ensures
        utf8_len(a + b) == utf8_len(a) + utf8_len(b),
    decreases b.len(),
{
    if b.len() == 0 {
        assert(a + b =~= a);
    } else {
        assert((a + b).drop_last() =~= a + b.drop_last());
        lemma_utf8_len_concat(a, b.drop_last());
    }
}

/// `utf8_len` is the length of the UTF-8 form as `vstd` defines it.
pub proof fn lemma_utf8_len_is_encoded_len(text: Seq<char>)
    ensures
        utf8_len(text) == vstd::utf8::encode_utf8(text).len(),
    decreases text.len(),
{
    if text.len() > 0 {
        let head = seq![text[0]];
        let tail = text.drop_first();
        assert(head + tail =~= text);
        lemma_utf8_len_concat(head, tail);
        lemma_utf8_len_is_encoded_len(tail);
        assert(head.drop_last() =~= Seq::<char>::empty());
        assert(utf8_len(head.drop_last()) == 0);
        assert(utf8_len(head) == char_width(text[0]));
        vstd::utf8::char_is_scalar(text[0]);
    }
}

/// Whether the characters of `literal` stand in `input` from index `pos` on.
pub open spec fn matches_at(input: Seq<char>, pos: int, literal: Seq<char>) -> bool {
    0 <= pos && pos + literal.len() <= input.len() && input.subrange(
        pos,
        pos + literal.len(),
    ) == literal
}

/// The least index from `from` on that holds no space or tab, or the length
/// of `input`.
pub open spec fn skip_blanks(input: Seq<char>, from: int) -> int
    decreases input.len() - from,
{
    if from < 0 || from >= input.len() {
        input.len() as int
    } else if !is_whitespace_char(input[from]) {
        from
    } else {
        skip_blanks(input, from + 1)
    }
}

/// The length of the blank line that begins at `pos`, or zero where none
/// does: a line end at `pos`, then spaces and tabs, then a line end again,
/// but not a line feed right behind a carriage return at `pos`.
pub open spec fn blank_line_len(input: Seq<char>, pos: int) -> int {
    if 0 <= pos < input.len() && is_newline_char(input[pos]) {
        let end = skip_blanks(input, pos + 1);
        if end < input.len() && is_newline_char(input[end]) && !(end == pos + 1 && input[pos]
            == '\r' && input[end] == '\n') {
            end + 1 - pos
        } else {
            0
        }
    } else {
        0
    }
}

/// The kind of the token that is the one character `c`.
pub open spec fn single_kind(c: char) -> TokenType {
    if c == '/' {
        TokenType::ForwardSlash
    } else if c == '=' {
        TokenType::Pad
    } else if c == '+' {
        TokenType::PlusSign
    } else if c == ':' {
        TokenType::Colon
    } else if c == ',' {
        TokenType::Comma
    } else if is_digit_char(c) {
        TokenType::Digit
    } else if is_letter_char(c) {
        TokenType::Letter
    } else if is_whitespace_char(c) {
        TokenType::WhiteSpace
    } else if is_newline_char(c) {
        TokenType::NewLine
    } else {
        TokenType::OtherUtf8
    }
}

/// Whether the text that stands for `kind` is found at `pos`.
pub open spec fn symbol_at(input: Seq<char>, pos: int, kind: TokenType) -> bool {
    kind.lexeme() is Some && matches_at(input, pos, kind.lexeme()->0)
}

/// The kind of the token at `pos`: the first that fits, in the order of
/// priority; `Eof` at and behind the end of the input.
pub open spec fn kind_at(input: Seq<char>, pos: int) -> TokenType {
    if pos < 0 || pos >= input.len() {
        TokenType::Eof
    } else if symbol_at(input, pos, TokenType::FiveDashes) {
        TokenType::FiveDashes
    } else if symbol_at(input, pos, TokenType::Begin) {
        TokenType::Begin
    } else if symbol_at(input, pos, TokenType::End) {
        TokenType::End
    } else if symbol_at(input, pos, TokenType::PGPMessagePart) {
        TokenType::PGPMessagePart
    } else if symbol_at(input, pos, TokenType::PGPPublicKeyBlock) {
        TokenType::PGPPublicKeyBlock
    } else if symbol_at(input, pos, TokenType::PGPPrivateKeyBlock) {
        TokenType::PGPPrivateKeyBlock
    } else if symbol_at(input, pos, TokenType::PGPMessage) {
        TokenType::PGPMessage
    } else if symbol_at(input, pos, TokenType::PGPSignature) {
        TokenType::PGPSignature
    } else if symbol_at(input, pos, TokenType::ColonSpace) {
        TokenType::ColonSpace
    } else if symbol_at(input, pos, TokenType::Version) {
        TokenType::Version
    } else if symbol_at(input, pos, TokenType::Comment) {
        TokenType::Comment
    } else if symbol_at(input, pos, TokenType::MessageID) {
        TokenType::MessageID
    } else if symbol_at(input, pos, TokenType::Hash) {
        TokenType::Hash
    } else if symbol_at(input, pos, TokenType::Charset) {
        TokenType::Charset
    } else if blank_line_len(input, pos) > 0 {
        TokenType::BlankLine
    } else {
        single_kind(input[pos])
    }
}

/// How many characters the token at `pos` takes up: none at the end of the
/// input, else at least one.
pub open spec fn len_at(input: Seq<char>, pos: int) -> int {
    let kind = kind_at(input, pos);
    if kind == TokenType::Eof {
        0
    } else if kind == TokenType::BlankLine {
        blank_line_len(input, pos)
    } else if kind == single_kind(input[pos]) {
        1
    } else {
        kind.lexeme()->0.len() as int
    }
}

/// Where the token behind the one at `pos` begins.
pub open spec fn next_pos(input: Seq<char>, pos: int) -> int {
    pos + len_at(input, pos)
}

/// The token at `pos`: its kind, the characters of the input that it takes
/// up, and the offset in octets of the first of them. The token at the end
/// of the input is `Eof`; its text is `EOF`, which is no part of the input.
pub open spec fn token_at(input: Seq<char>, pos: int) -> TokenView {
    let kind = kind_at(input, pos);
    if kind == TokenType::Eof {
        TokenView {
            token_type: TokenType::Eof,
            text: "EOF"@,
            location: Location { absolute: utf8_len(input) as usize },
        }
    } else {
        TokenView {
            token_type: kind,
            text: input.subrange(pos, next_pos(input, pos)),
            location: Location { absolute: offset_of(input, pos) as usize },
        }
    }
}

/// The length and the first character of each text that stands for a kind.
proof fn lemma_symbol_texts()
    ensures
        "="@.len() == 1,
        "="@[0] == '=',
        "/"@.len() == 1,
        "/"@[0] == '/',
        ":"@.len() == 1,
        ":"@[0] == ':',
        ","@.len() == 1,
        ","@[0] == ',',
        "+"@.len() == 1,
        "+"@[0] == '+',
        " "@.len() == 1,
        " "@[0] == ' ',
        ": "@.len() == 2,
        ": "@[0] == ':',
        "\n"@.len() == 1,
        "\n"@[0] == '\n',
        "-----"@.len() == 5,
        "-----"@[0] == '-',
        "BEGIN "@.len() == 6,
        "BEGIN "@[0] == 'B',
        "END "@.len() == 4,
        "END "@[0] == 'E',
        "Version"@.len() == 7,
        "Version"@[0] == 'V',
        "Comment"@.len() == 7,
        "Comment"@[0] == 'C',
        "MessageID"@.len() == 9,
        "MessageID"@[0] == 'M',
        "Hash"@.len() == 4,
        "Hash"@[0] == 'H',
        "Charset"@.len() == 7,
        "Charset"@[0] == 'C',
        "PGP MESSAGE"@.len() == 11,
        "PGP MESSAGE"@[0] == 'P',
        "PGP PUBLIC KEY BLOCK"@.len() == 20,
        "PGP PUBLIC KEY BLOCK"@[0] == 'P',
        "PGP PRIVATE KEY BLOCK"@.len() == 21,
        "PGP PRIVATE KEY BLOCK"@[0] == 'P',
        "PGP MESSAGE, PART "@.len() == 18,
        "PGP MESSAGE, PART "@[0] == 'P',
        "PGP SIGNATURE"@.len() == 13,
        "PGP SIGNATURE"@[0] == 'P',
        "EOF"@.len() == 3,
        "EOF"@[0] == 'E',
        "\t"@.len() == 1,
        "\t"@[0] == '\t',
        "\r"@.len() == 1,
        "\r"@[0] == '\r',
        "Comment"@[1] == 'o',
        "Charset"@[1] == 'h',
{
    reveal_strlit("=");
    reveal_strlit("/");
    reveal_strlit(":");
    reveal_strlit(",");
    reveal_strlit("+");
    reveal_strlit(" ");
    reveal_strlit(": ");
    reveal_strlit("\n");
    reveal_strlit("-----");
    reveal_strlit("BEGIN ");
    reveal_strlit("END ");
    reveal_strlit("Version");
    reveal_strlit("Comment");
    reveal_strlit("MessageID");
    reveal_strlit("Hash");
    reveal_strlit("Charset");
    reveal_strlit("PGP MESSAGE");
    reveal_strlit("PGP PUBLIC KEY BLOCK");
    reveal_strlit("PGP PRIVATE KEY BLOCK");
    reveal_strlit("PGP MESSAGE, PART ");
    reveal_strlit("PGP SIGNATURE");
    reveal_strlit("EOF");
    reveal_strlit("\t");
    reveal_strlit("\r");
}

/// The text that stands for a kind stands for that kind and no other.
pub proof fn lemma_lexeme_inverse(kind: TokenType)
    requires
        kind.lexeme() is Some,
    ensures
        token_type_of(kind.lexeme()->0) == Some(kind),
        kind.lexeme()->0.len() >= 1,
        valid_lexeme(kind, kind.lexeme()->0),
{
    lemma_symbol_texts();
}

/// A symbol of more than one character is found only where its first
/// character stands.
pub proof fn lemma_symbol_first_char(input: Seq<char>, pos: int)
    requires
        0 <= pos < input.len(),
    ensures
        input[pos] != '-' ==> !symbol_at(input, pos, TokenType::FiveDashes),
        input[pos] != 'B' ==> !symbol_at(input, pos, TokenType::Begin),
        input[pos] != 'E' ==> !symbol_at(input, pos, TokenType::End),
        input[pos] != 'P' ==> !symbol_at(input, pos, TokenType::PGPMessagePart),
        input[pos] != 'P' ==> !symbol_at(input, pos, TokenType::PGPPublicKeyBlock),
        input[pos] != 'P' ==> !symbol_at(input, pos, TokenType::PGPPrivateKeyBlock),
        input[pos] != 'P' ==> !symbol_at(input, pos, TokenType::PGPMessage),
        input[pos] != 'P' ==> !symbol_at(input, pos, TokenType::PGPSignature),
        input[pos] != ':' ==> !symbol_at(input, pos, TokenType::ColonSpace),
        input[pos] != 'V' ==> !symbol_at(input, pos, TokenType::Version),
        input[pos] != 'C' ==> !symbol_at(input, pos, TokenType::Comment),
        input[pos] != 'M' ==> !symbol_at(input, pos, TokenType::MessageID),
        input[pos] != 'H' ==> !symbol_at(input, pos, TokenType::Hash),
        input[pos] != 'C' ==> !symbol_at(input, pos, TokenType::Charset),
{
    reveal_strlit("-----");
    if symbol_at(input, pos, TokenType::FiveDashes) {
        assert(input.subrange(pos, pos + TokenType::FiveDashes.lexeme()->0.len())[0] == input[pos]);
    }
    reveal_strlit("BEGIN ");
    if symbol_at(input, pos, TokenType::Begin) {
        assert(input.subrange(pos, pos + TokenType::Begin.lexeme()->0.len())[0] == input[pos]);
    }
    reveal_strlit("END ");
    if symbol_at(input, pos, TokenType::End) {
        assert(input.subrange(pos, pos + TokenType::End.lexeme()->0.len())[0] == input[pos]);
    }
    reveal_strlit("PGP MESSAGE, PART ");
    if symbol_at(input, pos, TokenType::PGPMessagePart) {
        assert(input.subrange(pos, pos + TokenType::PGPMessagePart.lexeme()->0.len())[0]
            == input[pos]);
    }
    reveal_strlit("PGP PUBLIC KEY BLOCK");
    if symbol_at(input, pos, TokenType::PGPPublicKeyBlock) {
        assert(input.subrange(pos, pos + TokenType::PGPPublicKeyBlock.lexeme()->0.len())[0]
            == input[pos]);
    }
    reveal_strlit("PGP PRIVATE KEY BLOCK");
    if symbol_at(input, pos, TokenType::PGPPrivateKeyBlock) {
        assert(input.subrange(pos, pos + TokenType::PGPPrivateKeyBlock.lexeme()->0.len())[0]
            == input[pos]);
    }
    reveal_strlit("PGP MESSAGE");
    if symbol_at(input, pos, TokenType::PGPMessage) {
        assert(input.subrange(pos, pos + TokenType::PGPMessage.lexeme()->0.len())[0] == input[pos]);
    }
    reveal_strlit("PGP SIGNATURE");
    if symbol_at(input, pos, TokenType::PGPSignature) {
        assert(input.subrange(pos, pos + TokenType::PGPSignature.lexeme()->0.len())[0]
            == input[pos]);
    }
    reveal_strlit(": ");
    if symbol_at(input, pos, TokenType::ColonSpace) {
        assert(input.subrange(pos, pos + TokenType::ColonSpace.lexeme()->0.len())[0] == input[pos]);
    }
    reveal_strlit("Version");
    if symbol_at(input, pos, TokenType::Version) {
        assert(input.subrange(pos, pos + TokenType::Version.lexeme()->0.len())[0] == input[pos]);
    }
    reveal_strlit("Comment");
    if symbol_at(input, pos, TokenType::Comment) {
        assert(input.subrange(pos, pos + TokenType::Comment.lexeme()->0.len())[0] == input[pos]);
    }
    reveal_strlit("MessageID");
    if symbol_at(input, pos, TokenType::MessageID) {
        assert(input.subrange(pos, pos + TokenType::MessageID.lexeme()->0.len())[0] == input[pos]);
    }
    reveal_strlit("Hash");
    if symbol_at(input, pos, TokenType::Hash) {
        assert(input.subrange(pos, pos + TokenType::Hash.lexeme()->0.len())[0] == input[pos]);
    }
    reveal_strlit("Charset");
    if symbol_at(input, pos, TokenType::Charset) {
        assert(input.subrange(pos, pos + TokenType::Charset.lexeme()->0.len())[0] == input[pos]);
    }
}

/// A symbol of one character is found wherever that character stands.
pub proof fn lemma_symbol_single_char(input: Seq<char>, pos: int)
    requires
        0 <= pos < input.len(),
    ensures
        symbol_at(input, pos, TokenType::ForwardSlash) <==> input[pos] == '/',
        symbol_at(input, pos, TokenType::Pad) <==> input[pos] == '=',
        symbol_at(input, pos, TokenType::PlusSign) <==> input[pos] == '+',
        symbol_at(input, pos, TokenType::Colon) <==> input[pos] == ':',
        symbol_at(input, pos, TokenType::Comma) <==> input[pos] == ',',
{
    lemma_symbol_texts();
    let one = input.subrange(pos, pos + 1);
    assert(one.len() == 1 && one[0] == input[pos]);
    if input[pos] == '/' {
        assert(one =~= "/"@);
    }
    if input[pos] == '=' {
        assert(one =~= "="@);
    }
    if input[pos] == '+' {
        assert(one =~= "+"@);
    }
    if input[pos] == ':' {
        assert(one =~= ":"@);
    }
    if input[pos] == ',' {
        assert(one =~= ","@);
    }
}

/// `skip_blanks` is the least index from `from` on that holds no space or
/// tab.
pub proof fn lemma_skip_blanks(input: Seq<char>, from: int)
    requires
        0 <= from <= input.len(),
    ensures
        from <= skip_blanks(input, from) <= input.len(),
        forall|j: int| from <= j < skip_blanks(input, from)
            ==> is_whitespace_char(#[trigger] input[j]),
        skip_blanks(input, from) < input.len() ==> !is_whitespace_char(
            input[skip_blanks(input, from)],
        ),
    decreases input.len() - from,
{
    if from < input.len() && is_whitespace_char(input[from]) {
        lemma_skip_blanks(input, from + 1);
    }
}

/// An index up to which spaces and tabs stand, and at which none does or the
/// input ends, is `skip_blanks`.
pub proof fn lemma_skip_blanks_is(input: Seq<char>, from: int, at: int)
    requires
        0 <= from <= at <= input.len(),
        forall|j: int| from <= j < at ==> is_whitespace_char(#[trigger] input[j]),
        at < input.len() ==> !is_whitespace_char(input[at]),
    ensures
        skip_blanks(input, from) == at,
    decreases at - from,
{
    if from < at {
        lemma_skip_blanks_is(input, from + 1, at);
    }
}

/// Every token but `Eof` takes up at least one character and ends within
/// the input; its text can be the text of a token of its kind.
pub proof fn lemma_token_at(input: Seq<char>, pos: int)
    requires
        0 <= pos < input.len(),
    ensures
        kind_at(input, pos) != TokenType::Eof,
        1 <= len_at(input, pos),
        next_pos(input, pos) <= input.len(),
        valid_lexeme(kind_at(input, pos), token_at(input, pos).text),
{
    let kind = kind_at(input, pos);
    if kind == TokenType::BlankLine {
        lemma_skip_blanks(input, pos + 1);
        let text = input.subrange(pos, next_pos(input, pos));
        assert(is_blank_line(text));
    } else if kind == single_kind(input[pos]) {
        let text = input.subrange(pos, pos + 1);
        assert(text.len() == 1 && text[0] == input[pos]);
        reveal_strlit("/");
        reveal_strlit("=");
        reveal_strlit("+");
        reveal_strlit(":");
        reveal_strlit(",");
        assert(text =~= seq![input[pos]]);
        if kind == TokenType::ForwardSlash {
            assert(text =~= "/"@);
        } else if kind == TokenType::Pad {
            assert(text =~= "="@);
        } else if kind == TokenType::PlusSign {
            assert(text =~= "+"@);
        } else if kind == TokenType::Colon {
            assert(text =~= ":"@);
        } else if kind == TokenType::Comma {
            assert(text =~= ","@);
        }
    } else {
        lemma_lexeme_inverse(kind);
    }
}

/// `nom::character::is_digit`, which holds of the octets `0x30` to `0x39`,
/// the ASCII digits, and of no other.
#[verifier::external_body]
fn is_digit_octet(chr: u8) -> (digit: bool)
    ensures
        digit == (0x30 <= chr && chr <= 0x39),
{
    nom::character::is_digit(chr)
}

/// `nom::character::is_alphabetic`, which holds of the octets `0x41` to
/// `0x5A` and `0x61` to `0x7A`, the ASCII letters, and of no other.
#[verifier::external_body]
fn is_alphabetic_octet(chr: u8) -> (letter: bool)
    ensures
        letter == ((0x41 <= chr && chr <= 0x5A) || (0x61 <= chr && chr <= 0x7A)),
{
    nom::character::is_alphabetic(chr)
}

/// Whether `c` is one of `0` to `9`.
pub fn is_digit(c: char) -> (digit: bool)
    ensures
        digit == is_digit_char(c),
{
    (c as u32) < 128 && is_digit_octet(c as u8)
}

/// Whether `c` is an ASCII letter.
pub fn is_letter(c: char) -> (letter: bool)
    ensures
        letter == is_letter_char(c),
{
    (c as u32) < 128 && is_alphabetic_octet(c as u8)
}

/// The width in octets of the UTF-8 form of `c`.
pub fn width_of(c: char) -> (width: usize)
    ensures
        width == char_width(c),
{
    let v = c as u32;
    if v < 0x80 {
        1
    } else if v < 0x800 {
        2
    } else if v < 0x10000 {
        3
    } else {
        4
    }
}

/// The tokenizer over one input. It holds the characters, the place up to
/// which they have been made into tokens, and the offset of that place.
pub struct Lexer {
    input: Vec<char>,
    position: usize,
    offset: usize,
    location: Location,
}

/// What `scan` functions promise: where `found` holds, the token of kind
/// `kind` with the text `text` at the place where `before` stood, and the
/// tokenizer moved behind it; else nothing, and the tokenizer where it was.
pub open spec fn scanned(
    before: Lexer,
    after: Lexer,
    token: Option<Token>,
    found: bool,
    kind: TokenType,
    text: Seq<char>,
) -> bool {
    &&& after.wf()
    &&& after.input() == before.input()
    &&& after.pending() == 0
    &&& found ==> token is Some && token->0@ == (TokenView {
        token_type: kind,
        text: text,
        location: before.location(),
    }) && after.position() == before.position() + text.len()
    &&& !found ==> token is None && after.position() == before.position()
}

impl Lexer {
    /// Whether the tokenizer is sound: the place lies within the input and
    /// the offset that goes with it is the offset of that place.
    pub closed spec fn wf(&self) -> bool {
        &&& self.input@.len() <= usize::MAX
        &&& self.position + self.offset <= self.input@.len()
        &&& self.location.absolute == offset_of(self.input@, self.position as int)
        &&& utf8_len(self.input@) <= usize::MAX
    }

    /// The characters of the input.
    pub closed spec fn input(&self) -> Seq<char> {
        self.input@
    }

    /// The index of the first character that no token has taken up yet.
    pub closed spec fn position(&self) -> int {
        self.position as int
    }

    /// How many characters behind `position` have been looked at on the way
    /// to the next token.
    pub closed spec fn pending(&self) -> int {
        self.offset as int
    }

    /// The offset in octets of `position`.
    pub closed spec fn location(&self) -> Location {
        self.location
    }

    /// The input and its form in UTF-8 are no longer than the machine can
    /// count, and the place of the tokenizer lies within the input.
    pub proof fn lemma_bounds(&self)
        requires
            self.wf(),
        ensures
            self.input().len() <= usize::MAX,
            utf8_len(self.input()) <= usize::MAX,
            0 <= self.position() <= self.input().len(),
            self.location().absolute == offset_of(self.input(), self.position()),
    {
    }

    /// A tokenizer at the start of `input`.
    pub fn new(input: &str) -> (lexer: Lexer)
        ensures
            lexer.wf(),
            lexer.input() == input@,
            lexer.position() == 0,
            lexer.pending() == 0,
    {
        let chars = to_chars(input);
        let count = chars.len();
        let octets = input.as_bytes();
        let length = octets.len();
        proof {
            lemma_utf8_len_is_encoded_len(input@);
            assert(chars@.take(0) =~= Seq::<char>::empty());
        }
        Lexer { input: chars, position: 0, offset: 0, location: Location { absolute: 0 } }
    }

    /// The index of the first character that no token has taken up yet.
    pub fn position_index(&self) -> (index: usize)
        requires
            self.wf(),
        ensures
            index == self.position(),
    {
        self.position
    }

    /// The next token, which the tokenizer then has behind it.
    pub fn next_token(&mut self) -> (token: Token)
        requires
            old(self).wf(),
        ensures
            final(self).wf(),
            token@ == token_at(old(self).input(), old(self).position()),
            final(self).input() == old(self).input(),
            final(self).position() == next_pos(old(self).input(), old(self).position()),
            final(self).pending() == 0,
            valid_lexeme(token@.token_type, token@.text),
    {
        self.reset_offset();
        proof {
            if self.position < self.input@.len() {
                lemma_token_at(self.input@, self.position as int);
                lemma_symbol_first_char(self.input@, self.position as int);
                lemma_symbol_single_char(self.input@, self.position as int);
                lemma_symbol_texts();
            }
        }
        let token = match self.peek_char() {
            Some('-') => {
                match self.scan_five_dashes() {
                    Some(token) => token,
                    None => self.scan_other_utf8().unwrap(),
                }
            },
            Some('=') => self.scan_pad_symbol().unwrap(),
            Some('/') => self.scan_forwardslash().unwrap(),
            Some(':') => {
                match self.scan_colon_space() {
                    Some(token) => token,
                    None => self.scan_colon().unwrap(),
                }
            },
            Some('+') => self.scan_plus_sign().unwrap(),
            Some(',') => self.scan_comma().unwrap(),
            Some(' ') | Some('\t') => self.scan_whitespace_symbol().unwrap(),
            Some('B') => {
                match self.scan_begin() {
                    Some(token) => token,
                    None => self.scan_letter().unwrap(),
                }
            },
            Some('E') => {
                match self.scan_end() {
                    Some(token) => token,
                    None => self.scan_letter().unwrap(),
                }
            },
            Some('V') => {
                match self.scan_version() {
                    Some(token) => token,
                    None => self.scan_letter().unwrap(),
                }
            },
            Some('C') => {
                match self.scan_comment() {
                    Some(token) => token,
                    None => match self.scan_charset() {
                        Some(token) => token,
                        None => self.scan_letter().unwrap(),
                    },
                }
            },
            Some('H') => {
                match self.scan_hash() {
                    Some(token) => token,
                    None => self.scan_letter().unwrap(),
                }
            },
            Some('P') => {
                match self.scan_pgp_message_part() {
                    Some(token) => token,
                    None => match self.scan_pgp_public_key_block() {
                        Some(token) => token,
                        None => match self.scan_pgp_private_key_block() {
                            Some(token) => token,
                            None => match self.scan_pgp_message() {
                                Some(token) => token,
                                None => match self.scan_pgp_signature() {
                                    Some(token) => token,
                                    None => self.scan_letter().unwrap(),
                                },
                            },
                        },
                    },
                }
            },
            Some('M') => {
                match self.scan_messageid() {
                    Some(token) => token,
                    None => self.scan_letter().unwrap(),
                }
            },
            Some('\n') | Some('\r') => {
                match self.scan_blankline() {
                    Some(token) => token,
                    None => self.scan_newline().unwrap(),
                }
            },
            Some(c) => {
                if is_digit(c) {
                    self.scan_digit().unwrap()
                } else if is_letter(c) {
                    self.scan_letter().unwrap()
                } else {
                    self.scan_other_utf8().unwrap()
                }
            },
            None => self.scan_eof().unwrap(),
        };
        token
    }

    /// The next token, or nothing where the input is used up.
    pub fn next(&mut self) -> (token: Option<Token>)
        requires
            old(self).wf(),
        ensures
            final(self).wf(),
            final(self).input() == old(self).input(),
            final(self).position() == next_pos(old(self).input(), old(self).position()),
            final(self).pending() == 0,
            old(self).position() >= old(self).input().len() ==> token is None,
            old(self).position() < old(self).input().len() ==> token is Some && token->0@
                == token_at(old(self).input(), old(self).position()),
    {
        let next_token = self.next_token();
        if next_token.has_token_type(TokenType::Eof) {
            None
        } else {
            proof {
                if old(self).position() < old(self).input().len() {
                    lemma_token_at(old(self).input(), old(self).position());
                }
            }
            Some(next_token)
        }
    }

    fn peek_char(&self) -> (ch: Option<char>)
        requires
            self.wf(),
        ensures
            self.position + self.offset < self.input@.len() ==> ch == Some(
                self.input@[self.position + self.offset],
            ),
            self.position + self.offset >= self.input@.len() ==> ch is None,
    {
        if self.position + self.offset < self.input.len() {
            Some(self.input[self.position + self.offset])
        } else {
            None
        }
    }

    fn read_char(&mut self) -> (ch: Option<char>)
        requires
            old(self).wf(),
        ensures
            final(self).wf(),
            final(self).input@ == old(self).input@,
            final(self).position == old(self).position,
            old(self).position + old(self).offset < old(self).input@.len() ==> ch == Some(
                old(self).input@[old(self).position + old(self).offset],
            ) && final(self).offset == old(self).offset + 1,
            old(self).position + old(self).offset >= old(self).input@.len() ==> ch is None
                && final(self).offset == old(self).offset,
    {
        match self.peek_char() {
            Some(ch) => {
                self.offset += 1;
                Some(ch)
            },
            None => None,
        }
    }

    fn reset_offset(&mut self)
        requires
            old(self).wf(),
        ensures
            final(self).wf(),
            final(self).input@ == old(self).input@,
            final(self).position == old(self).position,
            final(self).location == old(self).location,
            final(self).offset == 0,
    {
        self.offset = 0;
    }

    fn consume(&mut self)
        requires
            old(self).wf(),
        ensures
            final(self).wf(),
            final(self).input@ == old(self).input@,
            final(self).position == old(self).position + old(self).offset,
            final(self).offset == 0,
    {
        let mut left = self.offset;
        self.offset = 0;
        while left > 0
            invariant
                self.input@ == old(self).input@,
                self.offset == 0,
                self.position + left == old(self).position + old(self).offset,
                self.position + left <= self.input@.len(),
                self.wf(),
            decreases left,
        {
            proof {
                lemma_offset_step(self.input@, self.position as int);
                lemma_offset_monotone(
                    self.input@,
                    self.position + 1,
                    self.input@.len() as int,
                );
                assert(self.input@.take(self.input@.len() as int) =~= self.input@);
            }
            let width = width_of(self.input[self.position]);
            let mut location = self.location;
            location.increment(width);
            self.location = location;
            self.position = self.position + 1;
            left = left - 1;
        }
    }

    fn consume_char(&mut self)
        requires
            old(self).wf(),
        ensures
            final(self).wf(),
            final(self).input@ == old(self).input@,
            old(self).position < old(self).input@.len() ==> final(self).position == old(
                self,
            ).position + 1 && final(self).offset == (if old(self).offset > 0 {
                old(self).offset - 1
            } else {
                0
            }),
            old(self).position >= old(self).input@.len() ==> final(self).position == old(
                self,
            ).position && final(self).offset == 0,
    {
        if self.position >= self.input.len() {
            self.offset = 0;
        } else {
            proof {
                lemma_offset_step(self.input@, self.position as int);
                lemma_offset_monotone(
                    self.input@,
                    self.position + 1,
                    self.input@.len() as int,
                );
                assert(self.input@.take(self.input@.len() as int) =~= self.input@);
            }
            let width = width_of(self.input[self.position]);
            let left = if self.offset > 0 {
                self.offset - 1
            } else {
                0
            };
            self.offset = 0;
            let mut location = self.location;
            location.increment(width);
            self.location = location;
            self.position = self.position + 1;
            self.offset = left;
        }
    }

    fn backtrack(&mut self, amount: usize)
        requires
            old(self).wf(),
        ensures
            final(self).wf(),
            final(self).input@ == old(self).input@,
            final(self).position == old(self).position,
            final(self).location == old(self).location,
            final(self).offset == (if amount > old(self).offset {
                0
            } else {
                old(self).offset - amount
            }),
    {
        if amount > self.offset {
            self.offset = 0;
        } else {
            self.offset -= amount;
        }
    }

    fn match_terminal_symbol(&mut self, token_string: &str) -> (token: Option<Token>)
        requires
            old(self).wf(),
            old(self).pending() == 0,
            token_type_of(token_string@) is Some,
        ensures
            scanned(
                *old(self),
                *final(self),
                token,
                matches_at(old(self).input(), old(self).position(), token_string@),
                token_type_of(token_string@)->0,
                token_string@,
            ),
    {
        let symbol = to_chars(token_string);
        let location = self.location;
        let mut read: usize = 0;
        while read < symbol.len()
            invariant
                read <= symbol.len(),
                symbol@ == token_string@,
                self.input@ == old(self).input@,
                self.position == old(self).position,
                self.location == old(self).location,
                self.offset == read,
                self.wf(),
                self.position + read <= self.input@.len(),
                self.input@.subrange(self.position as int, self.position + read)
                    == symbol@.take(read as int),
            decreases symbol.len() - read,
        {
            match self.peek_char() {
                Some(other_ch) => {
                    if other_ch == symbol[read] {
                        self.read_char();
                        assert(self.input@.subrange(self.position as int, self.position + read + 1)
                            =~= symbol@.take(read + 1));
                        read = read + 1;
                    } else {
                        self.backtrack(read);
                        proof {
                            if matches_at(self.input@, self.position as int, symbol@) {
                                assert(self.input@.subrange(
                                    self.position as int,
                                    self.position + symbol@.len(),
                                )[read as int] == symbol@[read as int]);
                            }
                        }
                        return None;
                    }
                },
                None => {
                    self.backtrack(read);
                    return None;
                },
            }
        }
        assert(symbol@.take(read as int) =~= symbol@);
        self.consume();
        let token_type = string_to_token_type(token_string).unwrap();
        Some(Token::new(token_type, token_string, location))
    }

    #[inline]
    fn scan_symbol(&mut self, token_type: TokenType) -> (token: Option<Token>)
        requires
            old(self).wf(),
            old(self).pending() == 0,
            token_type.lexeme() is Some,
        ensures
            scanned(
                *old(self),
                *final(self),
                token,
                symbol_at(old(self).input(), old(self).position(), token_type),
                token_type,
                token_type.lexeme()->0,
            ),
    {
        proof {
            lemma_lexeme_inverse(token_type);
        }
        self.match_terminal_symbol(token_type.armor_string().unwrap())
    }

    fn scan_five_dashes(&mut self) -> (token: Option<Token>)
        requires
            old(self).wf(),
            old(self).pending() == 0,
        ensures
            scanned(
                *old(self),
                *final(self),
                token,
                symbol_at(old(self).input(), old(self).position(), TokenType::FiveDashes),
                TokenType::FiveDashes,
                TokenType::FiveDashes.lexeme()->0,
            ),
    {
        self.scan_symbol(TokenType::FiveDashes)
    }

    fn scan_colon_space(&mut self) -> (token: Option<Token>)
        requires
            old(self).wf(),
            old(self).pending() == 0,
        ensures
            scanned(
                *old(self),
                *final(self),
                token,
                symbol_at(old(self).input(), old(self).position(), TokenType::ColonSpace),
                TokenType::ColonSpace,
                TokenType::ColonSpace.lexeme()->0,
            ),
    {
        self.scan_symbol(TokenType::ColonSpace)
    }

    fn scan_forwardslash(&mut self) -> (token: Option<Token>)
        requires
            old(self).wf(),
            old(self).pending() == 0,
        ensures
            scanned(
                *old(self),
                *final(self),
                token,
                symbol_at(old(self).input(), old(self).position(), TokenType::ForwardSlash),
                TokenType::ForwardSlash,
                TokenType::ForwardSlash.lexeme()->0,
            ),
    {
        self.scan_symbol(TokenType::ForwardSlash)
    }

    fn scan_colon(&mut self) -> (token: Option<Token>)
        requires
            old(self).wf(),
            old(self).pending() == 0,
        ensures
            scanned(
                *old(self),
                *final(self),
                token,
                symbol_at(old(self).input(), old(self).position(), TokenType::Colon),
                TokenType::Colon,
                TokenType::Colon.lexeme()->0,
            ),
    {
        self.scan_symbol(TokenType::Colon)
    }

    fn scan_plus_sign(&mut self) -> (token: Option<Token>)
        requires
            old(self).wf(),
            old(self).pending() == 0,
        ensures
            scanned(
                *old(self),
                *final(self),
                token,
                symbol_at(old(self).input(), old(self).position(), TokenType::PlusSign),
                TokenType::PlusSign,
                TokenType::PlusSign.lexeme()->0,
            ),
    {
        self.scan_symbol(TokenType::PlusSign)
    }

    fn scan_pad_symbol(&mut self) -> (token: Option<Token>)
        requires
            old(self).wf(),
            old(self).pending() == 0,
        ensures
            scanned(
                *old(self),
                *final(self),
                token,
                symbol_at(old(self).input(), old(self).position(), TokenType::Pad),
                TokenType::Pad,
                TokenType::Pad.lexeme()->0,
            ),
    {
        self.scan_symbol(TokenType::Pad)
    }

    fn scan_comma(&mut self) -> (token: Option<Token>)
        requires
            old(self).wf(),
            old(self).pending() == 0,
        ensures
            scanned(
                *old(self),
                *final(self),
                token,
                symbol_at(old(self).input(), old(self).position(), TokenType::Comma),
                TokenType::Comma,
                TokenType::Comma.lexeme()->0,
            ),
    {
        self.scan_symbol(TokenType::Comma)
    }

    fn scan_begin(&mut self) -> (token: Option<Token>)
        requires
            old(self).wf(),
            old(self).pending() == 0,
        ensures
            scanned(
                *old(self),
                *final(self),
                token,
                symbol_at(old(self).input(), old(self).position(), TokenType::Begin),
                TokenType::Begin,
                TokenType::Begin.lexeme()->0,
            ),
    {
        self.scan_symbol(TokenType::Begin)
    }

    fn scan_end(&mut self) -> (token: Option<Token>)
        requires
            old(self).wf(),
            old(self).pending() == 0,
        ensures
            scanned(
                *old(self),
                *final(self),
                token,
                symbol_at(old(self).input(), old(self).position(), TokenType::End),
                TokenType::End,
                TokenType::End.lexeme()->0,
            ),
    {
        self.scan_symbol(TokenType::End)
    }

    fn scan_version(&mut self) -> (token: Option<Token>)
        requires
            old(self).wf(),
            old(self).pending() == 0,
        ensures
            scanned(
                *old(self),
                *final(self),
                token,
                symbol_at(old(self).input(), old(self).position(), TokenType::Version),
                TokenType::Version,
                TokenType::Version.lexeme()->0,
            ),
    {
        self.scan_symbol(TokenType::Version)
    }

    fn scan_comment(&mut self) -> (token: Option<Token>)
        requires
            old(self).wf(),
            old(self).pending() == 0,
        ensures
            scanned(
                *old(self),
                *final(self),
                token,
                symbol_at(old(self).input(), old(self).position(), TokenType::Comment),
                TokenType::Comment,
                TokenType::Comment.lexeme()->0,
            ),
    {
        self.scan_symbol(TokenType::Comment)
    }

    fn scan_messageid(&mut self) -> (token: Option<Token>)
        requires
            old(self).wf(),
            old(self).pending() == 0,
        ensures
            scanned(
                *old(self),
                *final(self),
                token,
                symbol_at(old(self).input(), old(self).position(), TokenType::MessageID),
                TokenType::MessageID,
                TokenType::MessageID.lexeme()->0,
            ),
    {
        self.scan_symbol(TokenType::MessageID)
    }

    fn scan_hash(&mut self) -> (token: Option<Token>)
        requires
            old(self).wf(),
            old(self).pending() == 0,
        ensures
            scanned(
                *old(self),
                *final(self),
                token,
                symbol_at(old(self).input(), old(self).position(), TokenType::Hash),
                TokenType::Hash,
                TokenType::Hash.lexeme()->0,
            ),
    {
        self.scan_symbol(TokenType::Hash)
    }

    fn scan_charset(&mut self) -> (token: Option<Token>)
        requires
            old(self).wf(),
            old(self).pending() == 0,
        ensures
            scanned(
                *old(self),
                *final(self),
                token,
                symbol_at(old(self).input(), old(self).position(), TokenType::Charset),
                TokenType::Charset,
                TokenType::Charset.lexeme()->0,
            ),
    {
        self.scan_symbol(TokenType::Charset)
    }

    fn scan_pgp_message(&mut self) -> (token: Option<Token>)
        requires
            old(self).wf(),
            old(self).pending() == 0,
        ensures
            scanned(
                *old(self),
                *final(self),
                token,
                symbol_at(old(self).input(), old(self).position(), TokenType::PGPMessage),
                TokenType::PGPMessage,
                TokenType::PGPMessage.lexeme()->0,
            ),
    {
        self.scan_symbol(TokenType::PGPMessage)
    }

    fn scan_pgp_public_key_block(&mut self) -> (token: Option<Token>)
        requires
            old(self).wf(),
            old(self).pending() == 0,
        ensures
            scanned(
                *old(self),
                *final(self),
                token,
                symbol_at(old(self).input(), old(self).position(), TokenType::PGPPublicKeyBlock),
                TokenType::PGPPublicKeyBlock,
                TokenType::PGPPublicKeyBlock.lexeme()->0,
            ),
    {
        self.scan_symbol(TokenType::PGPPublicKeyBlock)
    }

    fn scan_pgp_private_key_block(&mut self) -> (token: Option<Token>)
        requires
            old(self).wf(),
            old(self).pending() == 0,
        ensures
            scanned(
                *old(self),
                *final(self),
                token,
                symbol_at(old(self).input(), old(self).position(), TokenType::PGPPrivateKeyBlock),
                TokenType::PGPPrivateKeyBlock,
                TokenType::PGPPrivateKeyBlock.lexeme()->0,
            ),
    {
        self.scan_symbol(TokenType::PGPPrivateKeyBlock)
    }

    fn scan_pgp_message_part(&mut self) -> (token: Option<Token>)
        requires
            old(self).wf(),
            old(self).pending() == 0,
        ensures
            scanned(
                *old(self),
                *final(self),
                token,
                symbol_at(old(self).input(), old(self).position(), TokenType::PGPMessagePart),
                TokenType::PGPMessagePart,
                TokenType::PGPMessagePart.lexeme()->0,
            ),
    {
        self.scan_symbol(TokenType::PGPMessagePart)
    }

    fn scan_pgp_signature(&mut self) -> (token: Option<Token>)
        requires
            old(self).wf(),
            old(self).pending() == 0,
        ensures
            scanned(
                *old(self),
                *final(self),
                token,
                symbol_at(old(self).input(), old(self).position(), TokenType::PGPSignature),
                TokenType::PGPSignature,
                TokenType::PGPSignature.lexeme()->0,
            ),
    {
        self.scan_symbol(TokenType::PGPSignature)
    }

    fn process_char(&mut self, ch: char, token_type: TokenType) -> (token: Option<Token>)
        requires
            old(self).wf(),
            old(self).pending() == 0,
            old(self).position() < old(self).input().len(),
            old(self).input()[old(self).position()] == ch,
        ensures
            scanned(
                *old(self),
                *final(self),
                token,
                true,
                token_type,
                old(self).input().subrange(old(self).position(), old(self).position() + 1),
            ),
    {
        proof {
            assert(self.input@.subrange(self.position as int, self.position + 1) =~= seq![ch]);
        }
        let result = Some(Token::from_char(token_type, ch, self.location));
        self.consume_char();
        result
    }

    fn scan_whitespace_symbol(&mut self) -> (token: Option<Token>)
        requires
            old(self).wf(),
            old(self).pending() == 0,
        ensures
            scanned(
                *old(self),
                *final(self),
                token,
                old(self).position() < old(self).input().len() && is_whitespace_char(
                    old(self).input()[old(self).position()],
                ),
                TokenType::WhiteSpace,
                old(self).input().subrange(old(self).position(), old(self).position() + 1),
            ),
    {
        match self.peek_char() {
            Some(' ') => self.process_char(' ', TokenType::WhiteSpace),
            Some('\t') => self.process_char('\t', TokenType::WhiteSpace),
            _ => None,
        }
    }

    fn scan_newline(&mut self) -> (token: Option<Token>)
        requires
            old(self).wf(),
            old(self).pending() == 0,
        ensures
            scanned(
                *old(self),
                *final(self),
                token,
                old(self).position() < old(self).input().len() && is_newline_char(
                    old(self).input()[old(self).position()],
                ),
                TokenType::NewLine,
                old(self).input().subrange(old(self).position(), old(self).position() + 1),
            ),
    {
        match self.peek_char() {
            Some('\n') => self.process_char('\n', TokenType::NewLine),
            Some('\r') => self.process_char('\r', TokenType::NewLine),
            _ => None,
        }
    }

    fn scan_other_utf8(&mut self) -> (token: Option<Token>)
        requires
            old(self).wf(),
            old(self).pending() == 0,
        ensures
            scanned(
                *old(self),
                *final(self),
                token,
                old(self).position() < old(self).input().len(),
                TokenType::OtherUtf8,
                old(self).input().subrange(old(self).position(), old(self).position() + 1),
            ),
    {
        match self.peek_char() {
            Some(ch) => self.process_char(ch, TokenType::OtherUtf8),
            None => None,
        }
    }

    fn scan_letter(&mut self) -> (token: Option<Token>)
        requires
            old(self).wf(),
            old(self).pending() == 0,
        ensures
            scanned(
                *old(self),
                *final(self),
                token,
                old(self).position() < old(self).input().len() && is_letter_char(
                    old(self).input()[old(self).position()],
                ),
                TokenType::Letter,
                old(self).input().subrange(old(self).position(), old(self).position() + 1),
            ),
    {
        match self.peek_char() {
            Some(ch) => {
                if is_letter(ch) {
                    self.process_char(ch, TokenType::Letter)
                } else {
                    None
                }
            },
            None => None,
        }
    }

    fn scan_digit(&mut self) -> (token: Option<Token>)
        requires
            old(self).wf(),
            old(self).pending() == 0,
        ensures
            scanned(
                *old(self),
                *final(self),
                token,
                old(self).position() < old(self).input().len() && is_digit_char(
                    old(self).input()[old(self).position()],
                ),
                TokenType::Digit,
                old(self).input().subrange(old(self).position(), old(self).position() + 1),
            ),
    {
        match self.peek_char() {
            Some(ch) => {
                if is_digit(ch) {
                    self.process_char(ch, TokenType::Digit)
                } else {
                    None
                }
            },
            None => None,
        }
    }

    fn scan_blankline(&mut self) -> (token: Option<Token>)
        requires
            old(self).wf(),
            old(self).pending() == 0,
        ensures
            scanned(
                *old(self),
                *final(self),
                token,
                blank_line_len(old(self).input(), old(self).position()) > 0,
                TokenType::BlankLine,
                old(self).input().subrange(
                    old(self).position(),
                    old(self).position() + blank_line_len(
                        old(self).input(),
                        old(self).position(),
                    ),
                ),
            ),
    {
        let mut result = String::new();
        let location = self.location;
        let first = match self.peek_char() {
            Some('\n') => '\n',
            Some('\r') => '\r',
            _ => {
                return None;
            },
        };
        crate::text::push_char(&mut result, first);
        self.read_char();
        assert(result@ =~= self.input@.subrange(self.position as int, self.position + 1));
        loop
            invariant_except_break
                forall|j: int|
                    self.position < j < self.position + self.offset ==> is_whitespace_char(
                        #[trigger] self.input@[j],
                    ),
            invariant
                self.input@ == old(self).input@,
                self.position == old(self).position,
                self.location == old(self).location,
                self.offset >= 1,
                self.wf(),
                self.position + self.offset <= self.input@.len(),
                is_newline_char(self.input@[self.position as int]),
                self.input@[self.position as int] == first,
                result@ == self.input@.subrange(
                    self.position as int,
                    self.position + self.offset,
                ),
            ensures
                self.offset == blank_line_len(self.input@, self.position as int),
                self.offset >= 2,
            decreases self.input@.len() - self.position - self.offset,
        {
            let at_first = self.offset == 1;
            match self.peek_char() {
                Some(c) => {
                    if c == ' ' || c == '\t' {
                        crate::text::push_char(&mut result, c);
                        self.read_char();
                        assert(result@ =~= self.input@.subrange(
                            self.position as int,
                            self.position + self.offset,
                        ));
                    } else if (c == '\n' || c == '\r') && !(at_first && first == '\r' && c
                        == '\n') {
                        proof {
                            lemma_skip_blanks_is(
                                self.input@,
                                self.position + 1,
                                self.position + self.offset,
                            );
                        }
                        crate::text::push_char(&mut result, c);
                        self.read_char();
                        assert(result@ =~= self.input@.subrange(
                            self.position as int,
                            self.position + self.offset,
                        ));
                        break ;
                    } else {
                        proof {
                            lemma_skip_blanks_is(
                                self.input@,
                                self.position + 1,
                                self.position + self.offset,
                            );
                        }
                        self.backtrack(self.offset);
                        return None;
                    }
                },
                None => {
                    proof {
                        lemma_skip_blanks_is(
                            self.input@,
                            self.position + 1,
                            self.position + self.offset,
                        );
                    }
                    self.backtrack(self.offset);
                    return None;
                },
            }
        }
        self.consume();
        Some(Token::new(TokenType::BlankLine, result.as_str(), location))
    }

    fn scan_eof(&mut self) -> (token: Option<Token>)
        requires
            old(self).wf(),
            old(self).pending() == 0,
        ensures
            *final(self) == *old(self),
            old(self).position() >= old(self).input().len() ==> token is Some && token->0@ == (
            TokenView {
                token_type: TokenType::Eof,
                text: "EOF"@,
                location: Location { absolute: utf8_len(old(self).input()) as usize },
            }),
            old(self).position() < old(self).input().len() ==> token is None,
    {
        match self.peek_char() {
            Some(_) => None,
            None => {
                assert(self.input@.take(self.position as int) =~= self.input@);
                let token_string = TokenType::Eof.armor_string().unwrap();
                Some(Token::new(TokenType::Eof, token_string, self.location))
            },
        }
    }
}

} // verus!
