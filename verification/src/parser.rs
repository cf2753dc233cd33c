//! The grammar of an armor, over the tokens of the input.
//!
//! ```text
//! Armor       ::= BeginLine LineEnd { HeaderLine LineEnd } BlankLine
//!                 { PayloadLine LineEnd } ChecksumLine LineEnd EndLine
//! BeginLine   ::= "-----" "BEGIN " Envelope "-----"
//! EndLine     ::= "-----" "END " Envelope "-----"
//! Envelope    ::= "PGP MESSAGE" | "PGP PUBLIC KEY BLOCK" | "PGP PRIVATE KEY BLOCK"
//!               | "PGP SIGNATURE" | "PGP MESSAGE, PART " Number [ "/" Number ]
//! HeaderLine  ::= Name ": " Value
//! PayloadLine ::= radix-64 characters, then spaces and tabs
//! ChecksumLine::= "=" four radix-64 characters
//! ```
//!
//! Each rule is a specification function from the input and the index at
//! which a token begins to the value of the rule and the index behind it,
//! or to the error; the function that parses is proved to compute it.
//!
//! A rule for one line marks the place where it begins. Where it fails, it
//! goes back to the mark, so that a failed rule has consumed nothing; where
//! it succeeds, it forgets the mark. The grammar needs no second try: the
//! current token decides which rule applies, and an error within a rule is
//! the error of the armor.

use crate::base64::{base64_decode, first_invalid, is_base64_char, Base64Error};
use crate::lexer::{
    kind_at, lemma_offset_monotone, lemma_token_at, lemma_utf8_len_concat, next_pos, offset_of,
    token_at, utf8_len, width_of,
};
use crate::message::{
    add_header, decimal_value, diagnostics_view, is_name_char, key_of, replaces_header, valid_name,
    ArmorError, ArmorHeader, ArmorType, Diagnostic, DiagnosticView, HeaderKey, HeaderLineType,
    HeaderView,
};
use crate::text::{from_chars, to_chars};
use crate::token::{is_whitespace_char, Location, TokenType, TokenView};
use crate::tokenizer::Tokenizer;
use vstd::prelude::*;

verus! {

/// The place of the token at `pos`.
pub open spec fn location_at(input: Seq<char>, pos: int) -> Location {
    token_at(input, pos).location
}

/// The error for a token at `pos` that the grammar has no use for:
/// `UnexpectedEof` where the input ends there, else `otherwise`.
pub open spec fn unexpected(input: Seq<char>, pos: int, otherwise: ArmorError) -> ArmorError {
    if kind_at(input, pos) == TokenType::Eof {
        ArmorError::UnexpectedEof { location: location_at(input, pos) }
    } else {
        otherwise
    }
}

/// Where the first token from `pos` on begins that is not `wanted`.
pub open spec fn scan_while(input: Seq<char>, pos: int, wanted: spec_fn(TokenView) -> bool) -> int
    decreases input.len() - pos,
{
    let next = next_pos(input, pos);
    if 0 <= pos && pos < next && next <= input.len() && wanted(token_at(input, pos)) {
        scan_while(input, next, wanted)
    } else {
        pos
    }
}

/// The digits.
pub open spec fn digit_tokens() -> spec_fn(TokenView) -> bool {
    |t: TokenView| t.token_type == TokenType::Digit
}

/// The spaces and tabs.
pub open spec fn blank_tokens() -> spec_fn(TokenView) -> bool {
    |t: TokenView| t.token_type == TokenType::WhiteSpace
}

/// The tokens that end a line.
pub open spec fn break_tokens() -> spec_fn(TokenView) -> bool {
    |t: TokenView| t.token_type == TokenType::NewLine || t.token_type == TokenType::BlankLine
}

/// The tokens that stand within a line: all but those that end a line and
/// the end of the input.
pub open spec fn line_tokens() -> spec_fn(TokenView) -> bool {
    |t: TokenView|
        t.token_type != TokenType::NewLine && t.token_type != TokenType::BlankLine && t.token_type
            != TokenType::Eof
}

/// Whether a token of kind `kind` with the text `text` may stand in the
/// name of a header: letters, digits and hyphens, also where the tokenizer
/// took several of them for a reserved key or for five dashes.
pub open spec fn is_name_token(kind: TokenType, text: Seq<char>) -> bool {
    kind == TokenType::Letter || kind == TokenType::Digit || kind == TokenType::FiveDashes || kind
        == TokenType::Version || kind == TokenType::Comment || kind == TokenType::MessageID || kind
        == TokenType::Hash || kind == TokenType::Charset || (kind == TokenType::OtherUtf8 && text
        == seq!['-'])
}

/// The tokens that may stand in the name of a header.
pub open spec fn name_tokens() -> spec_fn(TokenView) -> bool {
    |t: TokenView| is_name_token(t.token_type, t.text)
}

/// Where the first blank line begins among the tokens that end a line from
/// `pos` on, or -1 where there is none among them.
pub open spec fn first_blank(input: Seq<char>, pos: int) -> int
    decreases input.len() - pos,
{
    let next = next_pos(input, pos);
    if kind_at(input, pos) == TokenType::BlankLine {
        pos
    } else if kind_at(input, pos) == TokenType::NewLine && 0 <= pos && pos < next && next
        <= input.len() {
        first_blank(input, next)
    } else {
        -1
    }
}

/// How much of `text` is left when the spaces and tabs at its end are taken
/// away.
pub open spec fn trimmed_len(text: Seq<char>) -> int
    decreases text.len(),
{
    if text.len() > 0 && is_whitespace_char(text.last()) {
        trimmed_len(text.drop_last())
    } else {
        text.len() as int
    }
}

/// `text` without the spaces and tabs at its end.
pub open spec fn trimmed(text: Seq<char>) -> Seq<char> {
    text.take(trimmed_len(text))
}

/// The number at `pos`: one digit or more, to base ten. A number that does
/// not fit the machine's word is an error.
pub open spec fn number_at(input: Seq<char>, pos: int) -> Result<(usize, int), ArmorError> {
    let end = scan_while(input, pos, digit_tokens());
    let value = decimal_value(input.subrange(pos, end));
    if end == pos {
        Err(
            unexpected(
                input,
                pos,
                ArmorError::MalformedHeaderLine { location: location_at(input, pos) },
            ),
        )
    } else if value > usize::MAX {
        Err(ArmorError::MalformedHeaderLine { location: location_at(input, pos) })
    } else {
        Ok((value as usize, end))
    }
}

/// The kind of envelope that is named at `pos`. A part `x` of `y` needs
/// `1 <= x <= y`, a part `x` needs `1 <= x`. Where a slash follows the
/// number of the part, the number of parts must follow the slash.
pub open spec fn envelope_at(input: Seq<char>, pos: int) -> Result<(ArmorType, int), ArmorError> {
    let next = next_pos(input, pos);
    let kind = kind_at(input, pos);
    if kind == TokenType::PGPMessage {
        Ok((ArmorType::Message, next))
    } else if kind == TokenType::PGPPublicKeyBlock {
        Ok((ArmorType::PublicKeyBlock, next))
    } else if kind == TokenType::PGPPrivateKeyBlock {
        Ok((ArmorType::PrivateKeyBlock, next))
    } else if kind == TokenType::PGPSignature {
        Ok((ArmorType::Signature, next))
    } else if kind == TokenType::PGPMessagePart {
        match number_at(input, next) {
            Err(e) => Err(e),
            Ok((x, after_x)) => {
                if kind_at(input, after_x) == TokenType::ForwardSlash {
                    match number_at(input, next_pos(input, after_x)) {
                        Err(e) => Err(e),
                        Ok((y, after_y)) => {
                            if 1 <= x && x <= y {
                                Ok((ArmorType::MessagePartXofY(x, y), after_y))
                            } else {
                                Err(
                                    ArmorError::InvalidPartIndex {
                                        x,
                                        y,
                                        location: location_at(input, pos),
                                    },
                                )
                            }
                        },
                    }
                } else if 1 <= x {
                    Ok((ArmorType::MessagePartX(x), after_x))
                } else {
                    Err(
                        ArmorError::InvalidPartIndex {
                            x,
                            y: 0,
                            location: location_at(input, pos),
                        },
                    )
                }
            },
        }
    } else {
        Err(
            unexpected(
                input,
                pos,
                ArmorError::MalformedHeaderLine { location: location_at(input, pos) },
            ),
        )
    }
}

/// The `BEGIN` line (where `opening` holds) or the `END` line at `pos`:
/// five dashes, the word, the kind of envelope, five dashes.
pub open spec fn boundary_at(input: Seq<char>, pos: int, opening: bool) -> Result<
    (ArmorType, int),
    ArmorError,
> {
    let word = next_pos(input, pos);
    let name = next_pos(input, word);
    if kind_at(input, pos) != TokenType::FiveDashes {
        Err(
            unexpected(
                input,
                pos,
                ArmorError::MalformedHeaderLine { location: location_at(input, pos) },
            ),
        )
    } else if kind_at(input, word) != (if opening {
        TokenType::Begin
    } else {
        TokenType::End
    }) {
        Err(
            unexpected(
                input,
                word,
                ArmorError::MalformedHeaderLine { location: location_at(input, word) },
            ),
        )
    } else {
        match envelope_at(input, name) {
            Err(e) => Err(e),
            Ok((kind, dashes)) => {
                if kind_at(input, dashes) != TokenType::FiveDashes {
                    Err(
                        unexpected(
                            input,
                            dashes,
                            ArmorError::MalformedHeaderLine {
                                location: location_at(input, dashes),
                            },
                        ),
                    )
                } else {
                    Ok((kind, next_pos(input, dashes)))
                }
            },
        }
    }
}

/// A header line, as the grammar gives it.
pub struct HeaderLine {
    /// The key.
    pub key: HeaderKey,
    /// The value, without the spaces and tabs at its end.
    pub value: Seq<char>,
    /// The place of the name.
    pub location: Location,
    /// Where the token begins that ends the line.
    pub end: int,
}

/// The header line at `pos`: spaces and tabs, which do not count; the name;
/// `: `; and the value, which is the rest of the line without the spaces
/// and tabs at its end.
pub open spec fn header_line_at(input: Seq<char>, pos: int) -> Result<HeaderLine, ArmorError> {
    let start = scan_while(input, pos, blank_tokens());
    let colon = scan_while(input, start, name_tokens());
    let name = input.subrange(start, colon);
    let value = next_pos(input, colon);
    let end = scan_while(input, value, line_tokens());
    if kind_at(input, colon) != TokenType::ColonSpace {
        Err(
            unexpected(
                input,
                colon,
                ArmorError::MalformedHeaderBlock { location: location_at(input, colon) },
            ),
        )
    } else if !valid_name(name) {
        Err(ArmorError::MalformedHeaderBlock { location: location_at(input, start) })
    } else if kind_at(input, end) == TokenType::Eof {
        Err(ArmorError::UnexpectedEof { location: location_at(input, end) })
    } else {
        Ok(
            HeaderLine {
                key: key_of(name),
                value: trimmed(input.subrange(value, end)),
                location: location_at(input, start),
                end,
            },
        )
    }
}

/// The headers of an armor, as the grammar gives them.
pub struct HeaderBlock {
    /// The headers.
    pub headers: Seq<HeaderView>,
    /// A remark for each header that took the place of an earlier one.
    pub diagnostics: Seq<DiagnosticView>,
    /// Where the first token behind the blank line begins.
    pub end: int,
}

/// The header lines from `pos` on, where the line before them has ended at
/// `pos`, up to the blank line; `headers` and `diagnostics` are what the
/// lines before have given.
#[verifier::opaque]
pub open spec fn headers_from(
    input: Seq<char>,
    pos: int,
    headers: Seq<HeaderView>,
    diagnostics: Seq<DiagnosticView>,
) -> Result<HeaderBlock, ArmorError>
    decreases input.len() - pos,
{
    let start = scan_while(input, pos, break_tokens());
    if start == pos {
        Err(
            unexpected(
                input,
                pos,
                ArmorError::MalformedHeaderLine { location: location_at(input, pos) },
            ),
        )
    } else if first_blank(input, pos) >= 0 {
        Ok(HeaderBlock { headers, diagnostics, end: start })
    } else {
        match header_line_at(input, start) {
            Err(e) => Err(e),
            Ok(line) => {
                if pos < line.end && line.end <= input.len() {
                    headers_from(
                        input,
                        line.end,
                        add_header(headers, line.key, line.value),
                        if replaces_header(headers, line.key) {
                            diagnostics.push(
                                DiagnosticView::DuplicateHeader {
                                    key: line.key,
                                    location: line.location,
                                },
                            )
                        } else {
                            diagnostics
                        },
                    )
                } else {
                    Err(ArmorError::MalformedHeaderBlock { location: line.location })
                }
            },
        }
    }
}

/// The place of the character at index `pos`.
pub open spec fn char_location(input: Seq<char>, pos: int) -> Location {
    Location { absolute: offset_of(input, pos) as usize }
}

/// The radix-64 text of the payload lines from `pos` on, where a line
/// begins at `pos`, up to the line that begins with a pad; `text` is what
/// the lines before have given. Of each line the spaces and tabs at its
/// end do not count; what is left is one character or more, all of them
/// radix-64 characters.
#[verifier::opaque]
pub open spec fn payload_from(input: Seq<char>, pos: int, text: Seq<char>) -> Result<
    (Seq<char>, int),
    ArmorError,
>
    decreases input.len() - pos,
{
    let end = scan_while(input, pos, line_tokens());
    let line = input.subrange(pos, end);
    let kept = trimmed_len(line);
    let bad = first_invalid(line, 0);
    let next = scan_while(input, end, break_tokens());
    if kind_at(input, pos) == TokenType::Pad {
        Ok((text, pos))
    } else if kind_at(input, end) == TokenType::Eof {
        Err(ArmorError::UnexpectedEof { location: location_at(input, end) })
    } else if end == pos {
        Err(
            ArmorError::InvalidBase64Character {
                ch: input[pos],
                location: location_at(input, pos),
            },
        )
    } else if kept == 0 || bad < kept {
        Err(
            ArmorError::InvalidBase64Character {
                ch: line[bad],
                location: char_location(input, pos + bad),
            },
        )
    } else if first_blank(input, end) >= 0 {
        Err(
            ArmorError::InvalidBase64Character {
                ch: input[first_blank(input, end)],
                location: location_at(input, first_blank(input, end)),
            },
        )
    } else if pos < next && next <= input.len() {
        payload_from(input, next, text + line.take(kept))
    } else {
        Err(ArmorError::UnexpectedEof { location: location_at(input, end) })
    }
}

/// The checksum line at `pos`: a pad, then four characters of the radix-64
/// alphabet, which spell the 24 bits of the checksum; spaces and tabs at
/// the end of the line do not count.
pub open spec fn checksum_at(input: Seq<char>, pos: int) -> Result<(u32, int), ArmorError> {
    let start = next_pos(input, pos);
    let end = scan_while(input, start, line_tokens());
    let text = trimmed(input.subrange(start, end));
    if kind_at(input, pos) != TokenType::Pad {
        Err(
            unexpected(
                input,
                pos,
                ArmorError::InvalidPadding { location: location_at(input, pos) },
            ),
        )
    } else if kind_at(input, end) == TokenType::Eof {
        Err(ArmorError::UnexpectedEof { location: location_at(input, end) })
    } else {
        match crate::base64::decode_spec(text) {
            Err(Base64Error::InvalidCharacter { ch, index }) => Err(
                ArmorError::InvalidBase64Character {
                    ch,
                    location: char_location(input, start + index),
                },
            ),
            Err(_) => Err(ArmorError::InvalidPadding { location: location_at(input, pos) }),
            Ok((octets, _)) => {
                if octets.len() != 3 {
                    Err(ArmorError::InvalidPadding { location: location_at(input, pos) })
                } else {
                    Ok(((octets[0] * 65536 + octets[1] * 256 + octets[2]) as u32, end))
                }
            },
        }
    }
}

/// The lines of an armor as the grammar gives them, before the two boundary
/// lines are held against each other and the payload is decoded.
pub struct ArmorLines {
    /// The kind of envelope that the `BEGIN` line names.
    pub begin: ArmorType,
    /// The kind of envelope that the `END` line names.
    pub end: ArmorType,
    /// The place of the `END` line.
    pub end_location: Location,
    /// The headers.
    pub headers: Seq<HeaderView>,
    /// A remark for each header that took the place of an earlier one.
    pub diagnostics: Seq<DiagnosticView>,
    /// The radix-64 text of the payload.
    pub text: Seq<char>,
    /// The place where the payload begins.
    pub text_location: Location,
    /// The checksum that the armor states.
    pub declared_crc: u32,
    /// The place of the checksum line.
    pub crc_location: Location,
}

/// The lines of the armor that `input` is. The `BEGIN` line is the first
/// line of the input; behind the `END` line nothing follows but ends of
/// lines.
pub open spec fn lines_of(input: Seq<char>) -> Result<ArmorLines, ArmorError> {
    match boundary_at(input, 0, true) {
        Err(e) => Err(e),
        Ok((begin, after_begin)) => match headers_from(
            input,
            after_begin,
            Seq::empty(),
            Seq::empty(),
        ) {
            Err(e) => Err(e),
            Ok(block) => match payload_from(input, block.end, Seq::empty()) {
                Err(e) => Err(e),
                Ok((text, pad)) => match checksum_at(input, pad) {
                    Err(e) => Err(e),
                    Ok((declared_crc, after_crc)) => {
                        let tail = scan_while(input, after_crc, break_tokens());
                        if first_blank(input, after_crc) >= 0 {
                            Err(
                                ArmorError::MalformedHeaderLine {
                                    location: location_at(input, first_blank(input, after_crc)),
                                },
                            )
                        } else {
                            match boundary_at(input, tail, false) {
                                Err(e) => Err(e),
                                Ok((end, after_end)) => {
                                    let last = scan_while(input, after_end, break_tokens());
                                    if kind_at(input, last) != TokenType::Eof {
                                        Err(
                                            ArmorError::MalformedHeaderLine {
                                                location: location_at(input, last),
                                            },
                                        )
                                    } else {
                                        Ok(
                                            ArmorLines {
                                                begin,
                                                end,
                                                end_location: location_at(input, tail),
                                                headers: block.headers,
                                                diagnostics: block.diagnostics,
                                                text,
                                                text_location: location_at(input, block.end),
                                                declared_crc,
                                                crc_location: location_at(input, pad),
                                            },
                                        )
                                    }
                                },
                            }
                        }
                    },
                },
            },
        },
    }
}

/// An armor as the grammar gives it: what the lines say, before the payload
/// is decoded and the checksum is held against it.
pub struct ParsedArmorView {
    pub envelope: ArmorType,
    pub headers: Seq<HeaderView>,
    pub diagnostics: Seq<DiagnosticView>,
    pub text: Seq<char>,
    pub text_location: Location,
    pub declared_crc: u32,
    pub crc_location: Location,
}

/// The armor that `input` is: its lines, of which the `BEGIN` and the `END`
/// line must name the same kind of envelope.
pub open spec fn armor_of(input: Seq<char>) -> Result<ParsedArmorView, ArmorError> {
    match lines_of(input) {
        Err(e) => Err(e),
        Ok(lines) => {
            if lines.begin != lines.end {
                Err(
                    ArmorError::MismatchedEnvelope {
                        begin: lines.begin,
                        end: lines.end,
                        location: lines.end_location,
                    },
                )
            } else {
                Ok(
                    ParsedArmorView {
                        envelope: lines.begin,
                        headers: lines.headers,
                        diagnostics: lines.diagnostics,
                        text: lines.text,
                        text_location: lines.text_location,
                        declared_crc: lines.declared_crc,
                        crc_location: lines.crc_location,
                    },
                )
            }
        },
    }
}

/// A token that is `wanted` is passed over.
pub proof fn lemma_scan_step(input: Seq<char>, pos: int, wanted: spec_fn(TokenView) -> bool)
    requires
        0 <= pos < input.len(),
        wanted(token_at(input, pos)),
    ensures
        scan_while(input, pos, wanted) == scan_while(input, next_pos(input, pos), wanted),
        pos < next_pos(input, pos) <= input.len(),
{
    lemma_token_at(input, pos);
}

/// `scan_while` stops within the input, at a token that is not `wanted`,
/// and every token that it passes over is `wanted`.
pub proof fn lemma_scan_while(input: Seq<char>, pos: int, wanted: spec_fn(TokenView) -> bool)
    requires
        0 <= pos <= input.len(),
    ensures
        pos <= scan_while(input, pos, wanted) <= input.len(),
        scan_while(input, pos, wanted) < input.len() ==> !wanted(
            token_at(input, scan_while(input, pos, wanted)),
        ),
    decreases input.len() - pos,
{
    let next = next_pos(input, pos);
    if pos < input.len() {
        lemma_token_at(input, pos);
        if wanted(token_at(input, pos)) {
            lemma_scan_while(input, next, wanted);
        }
    }
}

/// What holds of a tokenizer that a function has not moved.
pub open spec fn stayed(before: Tokenizer, after: Tokenizer) -> bool {
    &&& after.wf()
    &&& after.input() == before.input()
    &&& after.marks() == before.marks()
    &&& after.lookahead() == before.lookahead()
    &&& after.position() == before.position()
}

/// What holds of a tokenizer that a function has used: it is sound, over
/// the same input, with the same places marked.
pub open spec fn used(before: Tokenizer, after: Tokenizer) -> bool {
    &&& after.wf()
    &&& after.input() == before.input()
    &&& after.marks() == before.marks()
    &&& after.lookahead() == before.lookahead()
}

/// The kind of the current token.
pub fn current_kind(tokens: &mut Tokenizer) -> (kind: TokenType)
    requires
        old(tokens).wf(),
    ensures
        stayed(*old(tokens), *final(tokens)),
        kind == kind_at(old(tokens).input(), old(tokens).position()),
{
    proof {
        tokens.lemma_lookahead();
    }
    tokens.peek(1).token_type()
}

/// The place of the current token.
pub fn current_location(tokens: &mut Tokenizer) -> (location: Location)
    requires
        old(tokens).wf(),
    ensures
        stayed(*old(tokens), *final(tokens)),
        location == location_at(old(tokens).input(), old(tokens).position()),
{
    proof {
        tokens.lemma_lookahead();
    }
    tokens.peek(1).location()
}

/// The error for a current token that the grammar has no use for.
pub fn unexpected_here(tokens: &mut Tokenizer, otherwise: ArmorError) -> (error: ArmorError)
    requires
        old(tokens).wf(),
    ensures
        stayed(*old(tokens), *final(tokens)),
        error == unexpected(old(tokens).input(), old(tokens).position(), otherwise),
{
    proof {
        tokens.lemma_lookahead();
    }
    let token = tokens.peek(1);
    if token.has_token_type(TokenType::Eof) {
        ArmorError::UnexpectedEof { location: token.location() }
    } else {
        otherwise
    }
}

/// Passes over the tokens that end a line. Gives the first character and
/// the place of the first blank line among them, if there is one.
pub fn parse_blankline(tokens: &mut Tokenizer) -> (blank: Option<(char, Location)>)
    requires
        old(tokens).wf(),
    ensures
        used(*old(tokens), *final(tokens)),
        final(tokens).position() == scan_while(
            old(tokens).input(),
            old(tokens).position(),
            break_tokens(),
        ),
        match blank {
            Some((ch, location)) => {
                let at = first_blank(old(tokens).input(), old(tokens).position());
                0 <= at < old(tokens).input().len() && ch == old(tokens).input()[at] && location
                    == location_at(old(tokens).input(), at)
            },
            None => first_blank(old(tokens).input(), old(tokens).position()) == -1,
        },
{
    let mut blank: Option<(char, Location)> = None;
    let ghost input = tokens.input();
    let ghost start = tokens.position();
    loop
        invariant
            used(*old(tokens), *tokens),
            input == tokens.input(),
            start == old(tokens).position(),
            scan_while(input, start, break_tokens()) == scan_while(
                input,
                tokens.position(),
                break_tokens(),
            ),
            match blank {
                Some((ch, location)) => {
                    let at = first_blank(input, start);
                    0 <= at < input.len() && ch == input[at] && location == location_at(input, at)
                },
                None => first_blank(input, start) == first_blank(input, tokens.position()),
            },
        ensures
            tokens.position() == scan_while(input, start, break_tokens()),
            match blank {
                Some((ch, location)) => {
                    let at = first_blank(input, start);
                    0 <= at < input.len() && ch == input[at] && location == location_at(input, at)
                },
                None => first_blank(input, start) == -1,
            },
        decreases input.len() - tokens.position(),
    {
        proof {
            tokens.lemma_bounds();
            tokens.lemma_lookahead();
            if tokens.position() < input.len() {
                lemma_token_at(input, tokens.position());
            }
        }
        let ghost here = tokens.position();
        let token = tokens.peek(1);
        let kind = token.token_type();
        if kind == TokenType::BlankLine {
            if blank.is_none() {
                let text = token.as_str();
                let ch = text.get_char(0);
                blank = Some((ch, token.location()));
            }
        } else if kind != TokenType::NewLine {
            break ;
        }
        proof {
            lemma_scan_step(input, here, break_tokens());
        }
        tokens.advance();
    }
    blank
}

/// Passes over spaces and tabs.
pub fn skip_blanks(tokens: &mut Tokenizer)
    requires
        old(tokens).wf(),
    ensures
        used(*old(tokens), *final(tokens)),
        final(tokens).position() == scan_while(
            old(tokens).input(),
            old(tokens).position(),
            blank_tokens(),
        ),
{
    let ghost input = tokens.input();
    let ghost start = tokens.position();
    loop
        invariant
            used(*old(tokens), *tokens),
            input == tokens.input(),
            start == old(tokens).position(),
            scan_while(input, start, blank_tokens()) == scan_while(
                input,
                tokens.position(),
                blank_tokens(),
            ),
        ensures
            tokens.position() == scan_while(input, start, blank_tokens()),
        decreases input.len() - tokens.position(),
    {
        proof {
            tokens.lemma_bounds();
        }
        let ghost here = tokens.position();
        if current_kind(tokens) != TokenType::WhiteSpace {
            break ;
        }
        proof {
            lemma_scan_step(input, here, blank_tokens());
        }
        tokens.advance();
    }
}

/// The value of a number of which the last digit is `digit` and the digits
/// before it spell `value`.
proof fn lemma_decimal_push(digits: Seq<char>, digit: char)
    ensures
        decimal_value(digits.push(digit)) == decimal_value(digits) * 10 + (digit as int
            - '0' as int) as nat,
{
    assert(digits.push(digit).drop_last() =~= digits);
}

/// Parses a number: one digit or more, to base ten. On failure the
/// tokenizer is back where it stood.
pub fn parse_number(tokens: &mut Tokenizer) -> (number: Result<usize, ArmorError>)
    requires
        old(tokens).wf(),
    ensures
        used(*old(tokens), *final(tokens)),
        match number {
            Ok(value) => number_at(old(tokens).input(), old(tokens).position()) == Ok::<
                (usize, int),
                ArmorError,
            >((value, final(tokens).position())),
            Err(e) => number_at(old(tokens).input(), old(tokens).position()) == Err::<
                (usize, int),
                ArmorError,
            >(e),
        },
        number is Err ==> final(tokens).position() == old(tokens).position(),
{
    tokens.mark();
    let number = scan_number(tokens);
    if number.is_ok() {
        tokens.commit();
    } else {
        tokens.restore();
    }
    assert(tokens.marks() =~= old(tokens).marks());
    number
}

/// Reads the digits of a number and gives its value.
fn scan_number(tokens: &mut Tokenizer) -> (number: Result<usize, ArmorError>)
    requires
        old(tokens).wf(),
    ensures
        used(*old(tokens), *final(tokens)),
        match number {
            Ok(value) => number_at(old(tokens).input(), old(tokens).position()) == Ok::<
                (usize, int),
                ArmorError,
            >((value, final(tokens).position())),
            Err(e) => number_at(old(tokens).input(), old(tokens).position()) == Err::<
                (usize, int),
                ArmorError,
            >(e),
        },
{
    let ghost input = tokens.input();
    let ghost start = tokens.position();
    let location = current_location(tokens);
    let mut value: usize = 0;
    let mut count: usize = 0;
    let mut overflow = false;
    proof {
        tokens.lemma_bounds();
        assert(input.subrange(start, start) =~= Seq::<char>::empty());
    }
    loop
        invariant
            used(*old(tokens), *tokens),
            input == tokens.input(),
            start == old(tokens).position(),
            0 <= start <= tokens.position() <= input.len(),
            scan_while(input, start, digit_tokens()) == scan_while(
                input,
                tokens.position(),
                digit_tokens(),
            ),
            forall|i: int|
                start <= i < tokens.position() ==> '0' <= #[trigger] input[i] && input[i] <= '9',
            (count == 0) == (tokens.position() == start),
            !overflow ==> value == decimal_value(input.subrange(start, tokens.position())),
            overflow ==> decimal_value(input.subrange(start, tokens.position())) > usize::MAX,
        ensures
            tokens.position() == scan_while(input, start, digit_tokens()),
        decreases input.len() - tokens.position(),
    {
        proof {
            tokens.lemma_bounds();
            tokens.lemma_lookahead();
            if tokens.position() < input.len() {
                lemma_token_at(input, tokens.position());
            }
        }
        let ghost here = tokens.position();
        let token = tokens.peek(1);
        if !token.has_token_type(TokenType::Digit) {
            break ;
        }
        let digit = token.as_str().get_char(0);
        proof {
            lemma_scan_step(input, here, digit_tokens());
            assert(token@.text == input.subrange(here, here + 1));
            assert(token@.text[0] == input[here]);
            assert(input.subrange(start, here + 1) =~= input.subrange(start, here).push(digit));
            lemma_decimal_push(input.subrange(start, here), digit);
        }
        let d: usize = (digit as u8 - 48) as usize;
        if !overflow {
            match value.checked_mul(10) {
                Some(tens) => match tens.checked_add(d) {
                    Some(sum) => {
                        value = sum;
                    },
                    None => {
                        overflow = true;
                    },
                },
                None => {
                    overflow = true;
                },
            }
        }
        if count == 0 {
            count = 1;
        }
        tokens.advance();
    }
    if count == 0 {
        proof {
            assert(scan_while(input, start, digit_tokens()) == start);
        }
        Err(unexpected_here(tokens, ArmorError::MalformedHeaderLine { location }))
    } else if overflow {
        Err(ArmorError::MalformedHeaderLine { location })
    } else {
        Ok(value)
    }
}

/// Parses the kind of an envelope. On failure the tokenizer is back where
/// it stood.
pub fn parse_message_type(tokens: &mut Tokenizer) -> (parsed: Result<ArmorType, ArmorError>)
    requires
        old(tokens).wf(),
    ensures
        used(*old(tokens), *final(tokens)),
        match parsed {
            Ok(kind) => envelope_at(old(tokens).input(), old(tokens).position()) == Ok::<
                (ArmorType, int),
                ArmorError,
            >((kind, final(tokens).position())),
            Err(e) => envelope_at(old(tokens).input(), old(tokens).position()) == Err::<
                (ArmorType, int),
                ArmorError,
            >(e),
        },
        parsed is Err ==> final(tokens).position() == old(tokens).position(),
{
    tokens.mark();
    let parsed = scan_message_type(tokens);
    if parsed.is_ok() {
        tokens.commit();
    } else {
        tokens.restore();
    }
    assert(tokens.marks() =~= old(tokens).marks());
    parsed
}

/// Reads the tokens that name the kind of an envelope.
fn scan_message_type(tokens: &mut Tokenizer) -> (parsed: Result<ArmorType, ArmorError>)
    requires
        old(tokens).wf(),
    ensures
        used(*old(tokens), *final(tokens)),
        match parsed {
            Ok(kind) => envelope_at(old(tokens).input(), old(tokens).position()) == Ok::<
                (ArmorType, int),
                ArmorError,
            >((kind, final(tokens).position())),
            Err(e) => envelope_at(old(tokens).input(), old(tokens).position()) == Err::<
                (ArmorType, int),
                ArmorError,
            >(e),
        },
{
    let location = current_location(tokens);
    let kind = current_kind(tokens);
    match kind {
        TokenType::PGPMessage => {
            tokens.advance();
            Ok(ArmorType::Message)
        },
        TokenType::PGPPublicKeyBlock => {
            tokens.advance();
            Ok(ArmorType::PublicKeyBlock)
        },
        TokenType::PGPPrivateKeyBlock => {
            tokens.advance();
            Ok(ArmorType::PrivateKeyBlock)
        },
        TokenType::PGPSignature => {
            tokens.advance();
            Ok(ArmorType::Signature)
        },
        TokenType::PGPMessagePart => {
            tokens.advance();
            let x = match parse_number(tokens) {
                Ok(x) => x,
                Err(e) => {
                    return Err(e);
                },
            };
            tokens.mark();
            if current_kind(tokens) == TokenType::ForwardSlash {
                tokens.advance();
                let number = parse_number(tokens);
                tokens.commit();
                assert(tokens.marks() =~= old(tokens).marks());
                match number {
                    Ok(y) => {
                        if 1 <= x && x <= y {
                            Ok(ArmorType::MessagePartXofY(x, y))
                        } else {
                            Err(ArmorError::InvalidPartIndex { x, y, location })
                        }
                    },
                    Err(e) => Err(e),
                }
            } else {
                tokens.restore();
                assert(tokens.marks() =~= old(tokens).marks());
                if 1 <= x {
                    Ok(ArmorType::MessagePartX(x))
                } else {
                    Err(ArmorError::InvalidPartIndex { x, y: 0, location })
                }
            }
        },
        _ => Err(unexpected_here(tokens, ArmorError::MalformedHeaderLine { location })),
    }
}

/// Parses a boundary line. On failure the tokenizer is back where the line
/// began.
fn parse_boundary(tokens: &mut Tokenizer, opening: bool) -> (parsed: Result<
    ArmorType,
    ArmorError,
>)
    requires
        old(tokens).wf(),
    ensures
        used(*old(tokens), *final(tokens)),
        match parsed {
            Ok(kind) => boundary_at(old(tokens).input(), old(tokens).position(), opening) == Ok::<
                (ArmorType, int),
                ArmorError,
            >((kind, final(tokens).position())),
            Err(e) => boundary_at(old(tokens).input(), old(tokens).position(), opening) == Err::<
                (ArmorType, int),
                ArmorError,
            >(e),
        },
        parsed is Err ==> final(tokens).position() == old(tokens).position(),
{
    tokens.mark();
    let parsed = scan_boundary(tokens, opening);
    if parsed.is_ok() {
        tokens.commit();
    } else {
        tokens.restore();
    }
    assert(tokens.marks() =~= old(tokens).marks());
    parsed
}

/// Reads the tokens of a boundary line.
fn scan_boundary(tokens: &mut Tokenizer, opening: bool) -> (parsed: Result<
    ArmorType,
    ArmorError,
>)
    requires
        old(tokens).wf(),
    ensures
        used(*old(tokens), *final(tokens)),
        match parsed {
            Ok(kind) => boundary_at(old(tokens).input(), old(tokens).position(), opening) == Ok::<
                (ArmorType, int),
                ArmorError,
            >((kind, final(tokens).position())),
            Err(e) => boundary_at(old(tokens).input(), old(tokens).position(), opening) == Err::<
                (ArmorType, int),
                ArmorError,
            >(e),
        },
{
    if current_kind(tokens) != TokenType::FiveDashes {
        let location = current_location(tokens);
        return Err(unexpected_here(tokens, ArmorError::MalformedHeaderLine { location }));
    }
    tokens.advance();
    let word = if opening {
        TokenType::Begin
    } else {
        TokenType::End
    };
    if current_kind(tokens) != word {
        let location = current_location(tokens);
        return Err(unexpected_here(tokens, ArmorError::MalformedHeaderLine { location }));
    }
    tokens.advance();
    let kind = match parse_message_type(tokens) {
        Ok(kind) => kind,
        Err(e) => {
            return Err(e);
        },
    };
    if current_kind(tokens) != TokenType::FiveDashes {
        let location = current_location(tokens);
        return Err(unexpected_here(tokens, ArmorError::MalformedHeaderLine { location }));
    }
    tokens.advance();
    Ok(kind)
}

/// Parses the `BEGIN` line: five dashes, `BEGIN `, the kind of the
/// envelope, five dashes. On failure the tokenizer is back where the line
/// began.
pub fn parse_armor_header_line(tokens: &mut Tokenizer) -> (parsed: Result<ArmorType, ArmorError>)
    requires
        old(tokens).wf(),
    ensures
        used(*old(tokens), *final(tokens)),
        match parsed {
            Ok(kind) => boundary_at(old(tokens).input(), old(tokens).position(), true) == Ok::<
                (ArmorType, int),
                ArmorError,
            >((kind, final(tokens).position())),
            Err(e) => boundary_at(old(tokens).input(), old(tokens).position(), true) == Err::<
                (ArmorType, int),
                ArmorError,
            >(e),
        },        parsed is Err ==> final(tokens).position() == old(tokens).position(),
{
    parse_boundary(tokens, true)
}

/// Parses the `END` line: five dashes, `END `, the kind of the envelope,
/// five dashes. On failure the tokenizer is back where the line began.
pub fn parse_armor_tail_line(tokens: &mut Tokenizer) -> (parsed: Result<ArmorType, ArmorError>)
    requires
        old(tokens).wf(),
    ensures
        used(*old(tokens), *final(tokens)),
        match parsed {
            Ok(kind) => boundary_at(old(tokens).input(), old(tokens).position(), false) == Ok::<
                (ArmorType, int),
                ArmorError,
            >((kind, final(tokens).position())),
            Err(e) => boundary_at(old(tokens).input(), old(tokens).position(), false) == Err::<
                (ArmorType, int),
                ArmorError,
            >(e),
        },        parsed is Err ==> final(tokens).position() == old(tokens).position(),
{
    parse_boundary(tokens, false)
}

/// Reads the rest of the line: the text of the tokens up to the one that
/// ends the line or the input.
pub fn read_line(tokens: &mut Tokenizer) -> (text: Vec<char>)
    requires
        old(tokens).wf(),
    ensures
        used(*old(tokens), *final(tokens)),
        final(tokens).position() == scan_while(
            old(tokens).input(),
            old(tokens).position(),
            line_tokens(),
        ),
        old(tokens).position() <= final(tokens).position() <= old(tokens).input().len(),
        text@ == old(tokens).input().subrange(old(tokens).position(), final(tokens).position()),
{
    let ghost input = tokens.input();
    let ghost start = tokens.position();
    let mut text: Vec<char> = Vec::new();
    proof {
        tokens.lemma_bounds();
        assert(input.subrange(start, start) =~= Seq::<char>::empty());
    }
    loop
        invariant
            used(*old(tokens), *tokens),
            input == tokens.input(),
            start == old(tokens).position(),
            0 <= start <= tokens.position() <= input.len(),
            scan_while(input, start, line_tokens()) == scan_while(
                input,
                tokens.position(),
                line_tokens(),
            ),
            text@ == input.subrange(start, tokens.position()),
        ensures
            tokens.position() == scan_while(input, start, line_tokens()),
        decreases input.len() - tokens.position(),
    {
        proof {
            tokens.lemma_bounds();
            tokens.lemma_lookahead();
            if tokens.position() < input.len() {
                lemma_token_at(input, tokens.position());
            }
        }
        let ghost here = tokens.position();
        let token = tokens.peek(1);
        let kind = token.token_type();
        if kind == TokenType::NewLine || kind == TokenType::BlankLine || kind == TokenType::Eof {
            break ;
        }
        let mut chars = to_chars(token.as_str());
        proof {
            lemma_scan_step(input, here, line_tokens());
            assert(text@ + chars@ =~= input.subrange(start, next_pos(input, here)));
        }
        text.append(&mut chars);
        tokens.advance();
    }
    text
}

/// Reads the name of a header: the text of the tokens that may stand in
/// one.
pub fn read_name(tokens: &mut Tokenizer) -> (text: Vec<char>)
    requires
        old(tokens).wf(),
    ensures
        used(*old(tokens), *final(tokens)),
        final(tokens).position() == scan_while(
            old(tokens).input(),
            old(tokens).position(),
            name_tokens(),
        ),
        old(tokens).position() <= final(tokens).position() <= old(tokens).input().len(),
        text@ == old(tokens).input().subrange(old(tokens).position(), final(tokens).position()),
{
    let ghost input = tokens.input();
    let ghost start = tokens.position();
    let mut text: Vec<char> = Vec::new();
    proof {
        tokens.lemma_bounds();
        assert(input.subrange(start, start) =~= Seq::<char>::empty());
    }
    loop
        invariant
            used(*old(tokens), *tokens),
            input == tokens.input(),
            start == old(tokens).position(),
            0 <= start <= tokens.position() <= input.len(),
            scan_while(input, start, name_tokens()) == scan_while(
                input,
                tokens.position(),
                name_tokens(),
            ),
            text@ == input.subrange(start, tokens.position()),
        ensures
            tokens.position() == scan_while(input, start, name_tokens()),
        decreases input.len() - tokens.position(),
    {
        proof {
            tokens.lemma_bounds();
            tokens.lemma_lookahead();
            if tokens.position() < input.len() {
                lemma_token_at(input, tokens.position());
            }
        }
        let ghost here = tokens.position();
        let token = tokens.peek(1);
        let kind = token.token_type();
        let wanted = match kind {
            TokenType::Letter => true,
            TokenType::Digit => true,
            TokenType::FiveDashes => true,
            TokenType::Version => true,
            TokenType::Comment => true,
            TokenType::MessageID => true,
            TokenType::Hash => true,
            TokenType::Charset => true,
            TokenType::OtherUtf8 => {
                let c = token.as_str().get_char(0);
                assert(token@.text =~= seq![c]);
                c == '-'
            },
            _ => false,
        };
        if !wanted {
            break ;
        }
        let mut chars = to_chars(token.as_str());
        proof {
            lemma_scan_step(input, here, name_tokens());
            assert(text@ + chars@ =~= input.subrange(start, next_pos(input, here)));
        }
        text.append(&mut chars);
        tokens.advance();
    }
    text
}

/// Behind `trimmed_len` stand spaces and tabs only, and none stands right
/// before it.
pub proof fn lemma_trimmed_len(text: Seq<char>)
    ensures
        0 <= trimmed_len(text) <= text.len(),
        forall|i: int| trimmed_len(text) <= i < text.len()
            ==> is_whitespace_char(#[trigger] text[i]),
        trimmed_len(text) > 0 ==> !is_whitespace_char(text[trimmed_len(text) - 1]),
    decreases text.len(),
{
    if text.len() > 0 && is_whitespace_char(text.last()) {
        lemma_trimmed_len(text.drop_last());
        assert forall|i: int| trimmed_len(text) <= i < text.len() implies is_whitespace_char(
            #[trigger] text[i],
        ) by {
            if i < text.len() - 1 {
                assert(text.drop_last()[i] == text[i]);
            }
        }
    }
}

/// An index behind which spaces and tabs stand only, and right before which
/// none stands, is `trimmed_len`.
pub proof fn lemma_trimmed_len_is(text: Seq<char>, kept: int)
    requires
        0 <= kept <= text.len(),
        forall|i: int| kept <= i < text.len() ==> is_whitespace_char(#[trigger] text[i]),
        kept > 0 ==> !is_whitespace_char(text[kept - 1]),
    ensures
        trimmed_len(text) == kept,
    decreases text.len(),
{
    if kept < text.len() {
        lemma_trimmed_len_is(text.drop_last(), kept);
    }
}

/// How much of `text` is left without the spaces and tabs at its end.
pub fn trimmed_length(text: &[char]) -> (kept: usize)
    ensures
        kept == trimmed_len(text@),
        kept <= text@.len(),
{
    let mut kept = text.len();
    while kept > 0 && (text[kept - 1] == ' ' || text[kept - 1] == '\t')
        invariant
            kept <= text@.len(),
            forall|i: int| kept <= i < text@.len() ==> is_whitespace_char(#[trigger] text@[i]),
        decreases kept,
    {
        kept = kept - 1;
    }
    proof {
        lemma_trimmed_len_is(text@, kept as int);
    }
    kept
}

/// The index of the first character of `text` that may not stand in
/// radix-64 text, or the length of `text`.
pub fn find_invalid(text: &[char]) -> (index: usize)
    ensures
        index == first_invalid(text@, 0),
        index <= text@.len(),
{
    let mut index: usize = 0;
    while index < text.len() && crate::base64::is_base64_text(text[index])
        invariant
            index <= text@.len(),
            forall|j: int| 0 <= j < index ==> is_base64_char(#[trigger] text@[j]),
        decreases text@.len() - index,
    {
        index = index + 1;
    }
    proof {
        crate::base64::lemma_first_invalid_is(text@, 0, index as int);
    }
    index
}

/// The place `count` characters into `text`, where `text` begins at
/// `start`.
pub fn place_within(text: &[char], start: Location, count: usize) -> (location: Location)
    requires
        count <= text@.len(),
        start.absolute + utf8_len(text@.take(count as int)) <= usize::MAX,
    ensures
        location.absolute == start.absolute + utf8_len(text@.take(count as int)),
{
    let mut location = start;
    let mut i: usize = 0;
    assert(text@.take(0) =~= Seq::<char>::empty());
    while i < count
        invariant
            i <= count <= text@.len(),
            location.absolute == start.absolute + utf8_len(text@.take(i as int)),
            start.absolute + utf8_len(text@.take(count as int)) <= usize::MAX,
        decreases count - i,
    {
        proof {
            assert(text@.take(i + 1).drop_last() =~= text@.take(i as int));
            assert(text@.take(count as int).take(i + 1) =~= text@.take(i + 1));
            lemma_offset_monotone(text@.take(count as int), i + 1, count as int);
            assert(text@.take(count as int).take(count as int) =~= text@.take(count as int));
        }
        location.increment(width_of(text[i]));
        i = i + 1;
    }
    location
}

/// The place of the character `count` characters behind the token at
/// `pos` is the place of the token moved on by those characters.
pub proof fn lemma_char_location(input: Seq<char>, pos: int, count: int)
    requires
        0 <= pos,
        0 <= count,
        pos + count <= input.len(),
        utf8_len(input) <= usize::MAX,
    ensures
        location_at(input, pos).absolute == offset_of(input, pos),
        char_location(input, pos + count).absolute == location_at(input, pos).absolute + utf8_len(
            input.subrange(pos, pos + count),
        ),
        char_location(input, pos + count).absolute <= usize::MAX,
{
    lemma_offset_monotone(input, pos, input.len() as int);
    lemma_offset_monotone(input, pos + count, input.len() as int);
    assert(input.take(input.len() as int) =~= input);
    assert(input.take(pos + count) =~= input.take(pos) + input.subrange(pos, pos + count));
    lemma_utf8_len_concat(input.take(pos), input.subrange(pos, pos + count));
    if pos < input.len() {
        lemma_token_at(input, pos);
    }
}

/// Whether `name` can be the name of a header.
pub fn is_valid_name(name: &[char]) -> (valid: bool)
    ensures
        valid == valid_name(name@),
{
    if name.len() == 0 || name[0] == '-' {
        return false;
    }
    let mut i: usize = 0;
    while i < name.len()
        invariant
            i <= name@.len(),
            forall|j: int| 0 <= j < i ==> is_name_char(#[trigger] name@[j]),
        decreases name@.len() - i,
    {
        let c = name[i];
        if !((c >= 'a' && c <= 'z') || (c >= 'A' && c <= 'Z') || (c >= '0' && c <= '9') || c
            == '-') {
            return false;
        }
        i = i + 1;
    }
    true
}

/// Parses a header line: the name, `: ` and the value. On failure the
/// tokenizer is back where the line began.
pub fn parse_header(tokens: &mut Tokenizer) -> (parsed: Result<
    (HeaderLineType, String, Location),
    ArmorError,
>)
    requires
        old(tokens).wf(),
    ensures
        used(*old(tokens), *final(tokens)),
        match parsed {
            Ok((key, value, location)) => header_line_at(
                old(tokens).input(),
                old(tokens).position(),
            ) == Ok::<HeaderLine, ArmorError>(
                HeaderLine { key: key@, value: value@, location, end: final(tokens).position() },
            ),
            Err(e) => header_line_at(old(tokens).input(), old(tokens).position()) == Err::<
                HeaderLine,
                ArmorError,
            >(e),
        },
        parsed is Err ==> final(tokens).position() == old(tokens).position(),
{
    tokens.mark();
    let parsed = scan_header(tokens);
    if parsed.is_ok() {
        tokens.commit();
    } else {
        tokens.restore();
    }
    assert(tokens.marks() =~= old(tokens).marks());
    parsed
}

/// Reads the tokens of a header line.
fn scan_header(tokens: &mut Tokenizer) -> (parsed: Result<
    (HeaderLineType, String, Location),
    ArmorError,
>)
    requires
        old(tokens).wf(),
    ensures
        used(*old(tokens), *final(tokens)),
        match parsed {
            Ok((key, value, location)) => header_line_at(
                old(tokens).input(),
                old(tokens).position(),
            ) == Ok::<HeaderLine, ArmorError>(
                HeaderLine { key: key@, value: value@, location, end: final(tokens).position() },
            ),
            Err(e) => header_line_at(old(tokens).input(), old(tokens).position()) == Err::<
                HeaderLine,
                ArmorError,
            >(e),
        },
{
    skip_blanks(tokens);
    let location = current_location(tokens);
    let name = read_name(tokens);
    if current_kind(tokens) != TokenType::ColonSpace {
        let here = current_location(tokens);
        return Err(unexpected_here(tokens, ArmorError::MalformedHeaderBlock { location: here }));
    }
    if !is_valid_name(name.as_slice()) {
        return Err(ArmorError::MalformedHeaderBlock { location });
    }
    tokens.advance();
    let mut raw = read_line(tokens);
    if current_kind(tokens) == TokenType::Eof {
        let here = current_location(tokens);
        return Err(ArmorError::UnexpectedEof { location: here });
    }
    let kept = trimmed_length(raw.as_slice());
    raw.truncate(kept);
    let name_text = from_chars(name.as_slice());
    let key = HeaderLineType::from_name(name_text.as_str());
    let value = from_chars(raw.as_slice());
    Ok((key, value, location))
}

/// A token that is not `wanted` stops the scan where it stands; one that
/// is, within the input, does not.
pub proof fn lemma_scan_first(input: Seq<char>, pos: int, wanted: spec_fn(TokenView) -> bool)
    requires
        0 <= pos <= input.len(),
    ensures
        !wanted(token_at(input, pos)) ==> scan_while(input, pos, wanted) == pos,
        pos < input.len() && wanted(token_at(input, pos)) ==> scan_while(input, pos, wanted)
            > pos,
        pos == input.len() ==> scan_while(input, pos, wanted) == pos,
{
    if pos < input.len() {
        lemma_token_at(input, pos);
        if wanted(token_at(input, pos)) {
            lemma_scan_while(input, next_pos(input, pos), wanted);
        }
    }
}

/// Parses the header lines up to the blank line, from the end of the line
/// before them on.
pub fn parse_header_block(tokens: &mut Tokenizer) -> (parsed: Result<
    (ArmorHeader, Vec<Diagnostic>),
    ArmorError,
>)
    requires
        old(tokens).wf(),
    ensures
        used(*old(tokens), *final(tokens)),
        match parsed {
            Ok((headers, diagnostics)) => headers_from(
                old(tokens).input(),
                old(tokens).position(),
                Seq::empty(),
                Seq::empty(),
            ) == Ok::<HeaderBlock, ArmorError>(
                HeaderBlock {
                    headers: headers@,
                    diagnostics: diagnostics_view(diagnostics@),
                    end: final(tokens).position(),
                },
            ),
            Err(e) => headers_from(
                old(tokens).input(),
                old(tokens).position(),
                Seq::empty(),
                Seq::empty(),
            ) == Err::<HeaderBlock, ArmorError>(e),
        },
{
    let ghost input = tokens.input();
    let ghost start = tokens.position();
    let mut headers = ArmorHeader::new();
    let mut diagnostics: Vec<Diagnostic> = Vec::new();
    assert(diagnostics_view(diagnostics@) =~= Seq::<DiagnosticView>::empty());
    loop
        invariant
            used(*old(tokens), *tokens),
            input == tokens.input(),
            start == old(tokens).position(),
            headers_from(input, start, Seq::empty(), Seq::empty()) == headers_from(
                input,
                tokens.position(),
                headers@,
                diagnostics_view(diagnostics@),
            ),
        decreases input.len() - tokens.position(),
    {
        let ghost here = tokens.position();
        proof {
            reveal_with_fuel(headers_from, 1);
            tokens.lemma_bounds();
            lemma_scan_first(input, here, break_tokens());
            lemma_scan_while(input, here, break_tokens());
        }
        let kind = current_kind(tokens);
        if kind != TokenType::NewLine && kind != TokenType::BlankLine {
            let location = current_location(tokens);
            return Err(unexpected_here(tokens, ArmorError::MalformedHeaderLine { location }));
        }
        let blank = parse_blankline(tokens);
        if blank.is_some() {
            return Ok((headers, diagnostics));
        }
        let ghost line_start = tokens.position();
        match parse_header(tokens) {
            Err(e) => {
                return Err(e);
            },
            Ok((key, value, location)) => {
                proof {
                    tokens.lemma_bounds();
                    lemma_scan_while(input, line_start, blank_tokens());
                    let name_start = scan_while(input, line_start, blank_tokens());
                    lemma_scan_while(input, name_start, name_tokens());
                    let colon = scan_while(input, name_start, name_tokens());
                    lemma_token_at(input, colon);
                    lemma_scan_while(input, next_pos(input, colon), line_tokens());
                }
                let again = key.duplicate();
                let ghost before = diagnostics_view(diagnostics@);
                let replaced = headers.add(key, value);
                if replaced {
                    diagnostics.push(Diagnostic::DuplicateHeader { key: again, location });
                    assert(diagnostics_view(diagnostics@) =~= before.push(
                        DiagnosticView::DuplicateHeader { key: again@, location },
                    ));
                }
            },
        }
    }
}

/// Parses the payload lines up to the line that begins with a pad, and
/// gives their radix-64 text.
pub fn parse_payload(tokens: &mut Tokenizer) -> (parsed: Result<Vec<char>, ArmorError>)
    requires
        old(tokens).wf(),
    ensures
        used(*old(tokens), *final(tokens)),
        match parsed {
            Ok(text) => payload_from(old(tokens).input(), old(tokens).position(), Seq::empty())
                == Ok::<(Seq<char>, int), ArmorError>((text@, final(tokens).position())),
            Err(e) => payload_from(old(tokens).input(), old(tokens).position(), Seq::empty())
                == Err::<(Seq<char>, int), ArmorError>(e),
        },
{
    let ghost input = tokens.input();
    let ghost start = tokens.position();
    let mut text: Vec<char> = Vec::new();
    loop
        invariant
            used(*old(tokens), *tokens),
            input == tokens.input(),
            start == old(tokens).position(),
            payload_from(input, start, Seq::empty()) == payload_from(
                input,
                tokens.position(),
                text@,
            ),
        decreases input.len() - tokens.position(),
    {
        let ghost here = tokens.position();
        proof {
            reveal_with_fuel(payload_from, 1);
            tokens.lemma_bounds();
            tokens.lemma_lookahead();
            lemma_scan_while(input, here, line_tokens());
            lemma_scan_first(input, here, line_tokens());
        }
        let token = tokens.peek(1);
        let kind = token.token_type();
        let location = token.location();
        proof {
            reveal_strlit("EOF");
            if here < input.len() {
                lemma_token_at(input, here);
            }
        }
        let first = token.as_str().get_char(0);
        if kind == TokenType::Pad {
            return Ok(text);
        }
        let mut line = read_line(tokens);
        let ghost end = tokens.position();
        if current_kind(tokens) == TokenType::Eof {
            let here_location = current_location(tokens);
            return Err(ArmorError::UnexpectedEof { location: here_location });
        }
        if line.len() == 0 {
            proof {
                lemma_token_at(input, here);
                assert(input.subrange(here, next_pos(input, here))[0] == input[here]);
            }
            return Err(ArmorError::InvalidBase64Character { ch: first, location });
        }
        let kept = trimmed_length(line.as_slice());
        let bad = find_invalid(line.as_slice());
        proof {
            lemma_trimmed_len(line@);
            crate::base64::lemma_first_invalid(line@, 0);
            if kept == 0 {
                assert(is_whitespace_char(line@[0]));
                crate::base64::lemma_first_invalid_is(line@, 0, 0);
            }
        }
        if kept == 0 || bad < kept {
            proof {
                lemma_char_location(input, here, bad as int);
                assert(input.subrange(here, here + bad) =~= line@.take(bad as int));
            }
            let place = place_within(line.as_slice(), location, bad);
            return Err(ArmorError::InvalidBase64Character { ch: line[bad], location: place });
        }
        proof {
            lemma_scan_while(input, end, break_tokens());
            lemma_scan_first(input, end, break_tokens());
        }
        match parse_blankline(tokens) {
            Some((ch, place)) => {
                return Err(ArmorError::InvalidBase64Character { ch, location: place });
            },
            None => {},
        }
        line.truncate(kept);
        text.append(&mut line);
    }
}

/// Parses the checksum line: a pad and four characters of the alphabet.
/// On failure the tokenizer is back where the line began.
pub fn parse_checksum(tokens: &mut Tokenizer) -> (parsed: Result<u32, ArmorError>)
    requires
        old(tokens).wf(),
    ensures
        used(*old(tokens), *final(tokens)),
        match parsed {
            Ok(crc) => checksum_at(old(tokens).input(), old(tokens).position()) == Ok::<
                (u32, int),
                ArmorError,
            >((crc, final(tokens).position())),
            Err(e) => checksum_at(old(tokens).input(), old(tokens).position()) == Err::<
                (u32, int),
                ArmorError,
            >(e),
        },
        parsed is Err ==> final(tokens).position() == old(tokens).position(),
{
    tokens.mark();
    let parsed = scan_checksum(tokens);
    if parsed.is_ok() {
        tokens.commit();
    } else {
        tokens.restore();
    }
    assert(tokens.marks() =~= old(tokens).marks());
    parsed
}

/// Reads the tokens of the checksum line.
fn scan_checksum(tokens: &mut Tokenizer) -> (parsed: Result<u32, ArmorError>)
    requires
        old(tokens).wf(),
    ensures
        used(*old(tokens), *final(tokens)),
        match parsed {
            Ok(crc) => checksum_at(old(tokens).input(), old(tokens).position()) == Ok::<
                (u32, int),
                ArmorError,
            >((crc, final(tokens).position())),
            Err(e) => checksum_at(old(tokens).input(), old(tokens).position()) == Err::<
                (u32, int),
                ArmorError,
            >(e),
        },
{
    let ghost input = tokens.input();
    let location = current_location(tokens);
    if current_kind(tokens) != TokenType::Pad {
        return Err(unexpected_here(tokens, ArmorError::InvalidPadding { location }));
    }
    tokens.advance();
    let ghost start = tokens.position();
    let begins = current_location(tokens);
    let mut raw = read_line(tokens);
    if current_kind(tokens) == TokenType::Eof {
        let here = current_location(tokens);
        return Err(ArmorError::UnexpectedEof { location: here });
    }
    let kept = trimmed_length(raw.as_slice());
    raw.truncate(kept);
    match base64_decode(raw.as_slice()) {
        Err(Base64Error::InvalidCharacter { ch, index }) => {
            proof {
                tokens.lemma_bounds();
                crate::base64::lemma_first_invalid(raw@, 0);
                lemma_char_location(input, start, index as int);
                assert(input.subrange(start, start + index) =~= raw@.take(index as int));
            }
            let place = place_within(raw.as_slice(), begins, index);
            Err(ArmorError::InvalidBase64Character { ch, location: place })
        },
        Err(_) => Err(ArmorError::InvalidPadding { location }),
        Ok(decoded) => {
            if decoded.octets.len() != 3 {
                Err(ArmorError::InvalidPadding { location })
            } else {
                let crc: u32 = (decoded.octets[0] as u32) * 65536 + (decoded.octets[1] as u32)
                    * 256 + decoded.octets[2] as u32;
                Ok(crc)
            }
        },
    }
}

/// An armor as its lines give it, before the payload is decoded.
#[derive(Clone, Debug, PartialEq, Eq)]
pub struct ParsedArmor {
    /// The kind of the envelope.
    pub envelope: ArmorType,
    /// The headers.
    pub headers: ArmorHeader,
    /// A remark for each header that took the place of an earlier one.
    pub diagnostics: Vec<Diagnostic>,
    /// The radix-64 text of the payload.
    pub text: Vec<char>,
    /// The place where the payload begins.
    pub text_location: Location,
    /// The checksum that the armor states.
    pub declared_crc: u32,
    /// The place of the checksum line.
    pub crc_location: Location,
}

impl View for ParsedArmor {
    type V = ParsedArmorView;

    open spec fn view(&self) -> ParsedArmorView {
        ParsedArmorView {
            envelope: self.envelope,
            headers: self.headers@,
            diagnostics: diagnostics_view(self.diagnostics@),
            text: self.text@,
            text_location: self.text_location,
            declared_crc: self.declared_crc,
            crc_location: self.crc_location,
        }
    }
}

/// Parses an armor.
pub fn parse_armor(input: &str) -> (parsed: Result<ParsedArmor, ArmorError>)
    ensures
        match parsed {
            Ok(armor) => armor_of(input@) == Ok::<ParsedArmorView, ArmorError>(armor@),
            Err(e) => armor_of(input@) == Err::<ParsedArmorView, ArmorError>(e),
        },
{
    let mut tokens = Tokenizer::new(input);
    let begin = match parse_armor_header_line(&mut tokens) {
        Ok(kind) => kind,
        Err(e) => {
            return Err(e);
        },
    };
    let (headers, diagnostics) = match parse_header_block(&mut tokens) {
        Ok(block) => block,
        Err(e) => {
            return Err(e);
        },
    };
    let text_location = current_location(&mut tokens);
    let text = match parse_payload(&mut tokens) {
        Ok(text) => text,
        Err(e) => {
            return Err(e);
        },
    };
    let crc_location = current_location(&mut tokens);
    let declared_crc = match parse_checksum(&mut tokens) {
        Ok(crc) => crc,
        Err(e) => {
            return Err(e);
        },
    };
    match parse_blankline(&mut tokens) {
        Some((_, place)) => {
            return Err(ArmorError::MalformedHeaderLine { location: place });
        },
        None => {},
    }
    let tail_location = current_location(&mut tokens);
    let end = match parse_armor_tail_line(&mut tokens) {
        Ok(kind) => kind,
        Err(e) => {
            return Err(e);
        },
    };
    parse_blankline(&mut tokens);
    if current_kind(&mut tokens) != TokenType::Eof {
        let location = current_location(&mut tokens);
        return Err(ArmorError::MalformedHeaderLine { location });
    }
    if begin != end {
        return Err(ArmorError::MismatchedEnvelope { begin, end, location: tail_location });
    }
    Ok(
        ParsedArmor {
            envelope: begin,
            headers,
            diagnostics,
            text,
            text_location,
            declared_crc,
            crc_location,
        },
    )
}

} // verus!
