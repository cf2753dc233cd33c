//! How the tokenizer cuts up text of a known make: what the token at a
//! place can be, where a line, a name and a number end, and which ends of
//! lines are blank lines.

use crate::lexer::{
    blank_line_len, kind_at, lemma_skip_blanks_is, lemma_symbol_first_char, lemma_token_at,
    next_pos, single_kind, symbol_at, token_at,
};
use crate::message::is_name_char;
use crate::parser::{
    break_tokens, digit_tokens, first_blank, is_name_token, lemma_scan_first, lemma_scan_step,
    line_tokens, name_tokens, scan_while,
};
use crate::token::{is_digit_char, is_newline_char, is_whitespace_char, TokenType};
use vstd::prelude::*;

verus! {

/// Whether `kind` is one of the kinds whose text is a fixed symbol of more
/// than one character.
pub open spec fn is_symbol(kind: TokenType) -> bool {
    kind == TokenType::FiveDashes || kind == TokenType::Begin || kind == TokenType::End || kind
        == TokenType::PGPMessagePart || kind == TokenType::PGPPublicKeyBlock || kind
        == TokenType::PGPPrivateKeyBlock || kind == TokenType::PGPMessage || kind
        == TokenType::PGPSignature || kind == TokenType::ColonSpace || kind == TokenType::Version
        || kind == TokenType::Comment || kind == TokenType::MessageID || kind == TokenType::Hash
        || kind == TokenType::Charset
}

/// Whether `kind` is a symbol made of letters and hyphens only.
pub open spec fn is_name_symbol(kind: TokenType) -> bool {
    kind == TokenType::FiveDashes || kind == TokenType::Version || kind == TokenType::Comment
        || kind == TokenType::MessageID || kind == TokenType::Hash || kind == TokenType::Charset
}

proof fn lemma_text_fivedashes()
    ensures
        TokenType::FiveDashes.lexeme() == Some("-----"@),
        "-----"@.len() == 5,
        "-----"@[0] == '-',
        "-----"@[1] == '-',
        "-----"@[2] == '-',
        "-----"@[3] == '-',
        "-----"@[4] == '-',
{
    reveal_strlit("-----");
}

proof fn lemma_text_begin()
    ensures
        TokenType::Begin.lexeme() == Some("BEGIN "@),
        "BEGIN "@.len() == 6,
        "BEGIN "@[0] == 'B',
        "BEGIN "@[1] == 'E',
        "BEGIN "@[2] == 'G',
        "BEGIN "@[3] == 'I',
        "BEGIN "@[4] == 'N',
        "BEGIN "@[5] == ' ',
{
    reveal_strlit("BEGIN ");
}

proof fn lemma_text_end()
    ensures
        TokenType::End.lexeme() == Some("END "@),
        "END "@.len() == 4,
        "END "@[0] == 'E',
        "END "@[1] == 'N',
        "END "@[2] == 'D',
        "END "@[3] == ' ',
{
    reveal_strlit("END ");
}

proof fn lemma_text_pgpmessagepart()
    ensures
        TokenType::PGPMessagePart.lexeme() == Some("PGP MESSAGE, PART "@),
        "PGP MESSAGE, PART "@.len() == 18,
        "PGP MESSAGE, PART "@[0] == 'P',
        "PGP MESSAGE, PART "@[1] == 'G',
        "PGP MESSAGE, PART "@[2] == 'P',
        "PGP MESSAGE, PART "@[3] == ' ',
        "PGP MESSAGE, PART "@[4] == 'M',
        "PGP MESSAGE, PART "@[5] == 'E',
        "PGP MESSAGE, PART "@[6] == 'S',
        "PGP MESSAGE, PART "@[7] == 'S',
        "PGP MESSAGE, PART "@[8] == 'A',
        "PGP MESSAGE, PART "@[9] == 'G',
        "PGP MESSAGE, PART "@[10] == 'E',
        "PGP MESSAGE, PART "@[11] == ',',
        "PGP MESSAGE, PART "@[12] == ' ',
        "PGP MESSAGE, PART "@[13] == 'P',
        "PGP MESSAGE, PART "@[14] == 'A',
        "PGP MESSAGE, PART "@[15] == 'R',
        "PGP MESSAGE, PART "@[16] == 'T',
        "PGP MESSAGE, PART "@[17] == ' ',
{
    reveal_strlit("PGP MESSAGE, PART ");
}

proof fn lemma_text_pgppublickeyblock()
    ensures
        TokenType::PGPPublicKeyBlock.lexeme() == Some("PGP PUBLIC KEY BLOCK"@),
        "PGP PUBLIC KEY BLOCK"@.len() == 20,
        "PGP PUBLIC KEY BLOCK"@[0] == 'P',
        "PGP PUBLIC KEY BLOCK"@[1] == 'G',
        "PGP PUBLIC KEY BLOCK"@[2] == 'P',
        "PGP PUBLIC KEY BLOCK"@[3] == ' ',
        "PGP PUBLIC KEY BLOCK"@[4] == 'P',
        "PGP PUBLIC KEY BLOCK"@[5] == 'U',
        "PGP PUBLIC KEY BLOCK"@[6] == 'B',
        "PGP PUBLIC KEY BLOCK"@[7] == 'L',
        "PGP PUBLIC KEY BLOCK"@[8] == 'I',
        "PGP PUBLIC KEY BLOCK"@[9] == 'C',
        "PGP PUBLIC KEY BLOCK"@[10] == ' ',
        "PGP PUBLIC KEY BLOCK"@[11] == 'K',
        "PGP PUBLIC KEY BLOCK"@[12] == 'E',
        "PGP PUBLIC KEY BLOCK"@[13] == 'Y',
        "PGP PUBLIC KEY BLOCK"@[14] == ' ',
        "PGP PUBLIC KEY BLOCK"@[15] == 'B',
        "PGP PUBLIC KEY BLOCK"@[16] == 'L',
        "PGP PUBLIC KEY BLOCK"@[17] == 'O',
        "PGP PUBLIC KEY BLOCK"@[18] == 'C',
        "PGP PUBLIC KEY BLOCK"@[19] == 'K',
{
    reveal_strlit("PGP PUBLIC KEY BLOCK");
}

proof fn lemma_text_pgpprivatekeyblock()
    ensures
        TokenType::PGPPrivateKeyBlock.lexeme() == Some("PGP PRIVATE KEY BLOCK"@),
        "PGP PRIVATE KEY BLOCK"@.len() == 21,
        "PGP PRIVATE KEY BLOCK"@[0] == 'P',
        "PGP PRIVATE KEY BLOCK"@[1] == 'G',
        "PGP PRIVATE KEY BLOCK"@[2] == 'P',
        "PGP PRIVATE KEY BLOCK"@[3] == ' ',
        "PGP PRIVATE KEY BLOCK"@[4] == 'P',
        "PGP PRIVATE KEY BLOCK"@[5] == 'R',
        "PGP PRIVATE KEY BLOCK"@[6] == 'I',
        "PGP PRIVATE KEY BLOCK"@[7] == 'V',
        "PGP PRIVATE KEY BLOCK"@[8] == 'A',
        "PGP PRIVATE KEY BLOCK"@[9] == 'T',
        "PGP PRIVATE KEY BLOCK"@[10] == 'E',
        "PGP PRIVATE KEY BLOCK"@[11] == ' ',
        "PGP PRIVATE KEY BLOCK"@[12] == 'K',
        "PGP PRIVATE KEY BLOCK"@[13] == 'E',
        "PGP PRIVATE KEY BLOCK"@[14] == 'Y',
        "PGP PRIVATE KEY BLOCK"@[15] == ' ',
        "PGP PRIVATE KEY BLOCK"@[16] == 'B',
        "PGP PRIVATE KEY BLOCK"@[17] == 'L',
        "PGP PRIVATE KEY BLOCK"@[18] == 'O',
        "PGP PRIVATE KEY BLOCK"@[19] == 'C',
        "PGP PRIVATE KEY BLOCK"@[20] == 'K',
{
    reveal_strlit("PGP PRIVATE KEY BLOCK");
}

proof fn lemma_text_pgpmessage()
    ensures
        TokenType::PGPMessage.lexeme() == Some("PGP MESSAGE"@),
        "PGP MESSAGE"@.len() == 11,
        "PGP MESSAGE"@[0] == 'P',
        "PGP MESSAGE"@[1] == 'G',
        "PGP MESSAGE"@[2] == 'P',
        "PGP MESSAGE"@[3] == ' ',
        "PGP MESSAGE"@[4] == 'M',
        "PGP MESSAGE"@[5] == 'E',
        "PGP MESSAGE"@[6] == 'S',
        "PGP MESSAGE"@[7] == 'S',
        "PGP MESSAGE"@[8] == 'A',
        "PGP MESSAGE"@[9] == 'G',
        "PGP MESSAGE"@[10] == 'E',
{
    reveal_strlit("PGP MESSAGE");
}

proof fn lemma_text_pgpsignature()
    ensures
        TokenType::PGPSignature.lexeme() == Some("PGP SIGNATURE"@),
        "PGP SIGNATURE"@.len() == 13,
        "PGP SIGNATURE"@[0] == 'P',
        "PGP SIGNATURE"@[1] == 'G',
        "PGP SIGNATURE"@[2] == 'P',
        "PGP SIGNATURE"@[3] == ' ',
        "PGP SIGNATURE"@[4] == 'S',
        "PGP SIGNATURE"@[5] == 'I',
        "PGP SIGNATURE"@[6] == 'G',
        "PGP SIGNATURE"@[7] == 'N',
        "PGP SIGNATURE"@[8] == 'A',
        "PGP SIGNATURE"@[9] == 'T',
        "PGP SIGNATURE"@[10] == 'U',
        "PGP SIGNATURE"@[11] == 'R',
        "PGP SIGNATURE"@[12] == 'E',
{
    reveal_strlit("PGP SIGNATURE");
}

proof fn lemma_text_colonspace()
    ensures
        TokenType::ColonSpace.lexeme() == Some(": "@),
        ": "@.len() == 2,
        ": "@[0] == ':',
        ": "@[1] == ' ',
{
    reveal_strlit(": ");
}

proof fn lemma_text_version()
    ensures
        TokenType::Version.lexeme() == Some("Version"@),
        "Version"@.len() == 7,
        "Version"@[0] == 'V',
        "Version"@[1] == 'e',
        "Version"@[2] == 'r',
        "Version"@[3] == 's',
        "Version"@[4] == 'i',
        "Version"@[5] == 'o',
        "Version"@[6] == 'n',
{
    reveal_strlit("Version");
}

proof fn lemma_text_comment()
    ensures
        TokenType::Comment.lexeme() == Some("Comment"@),
        "Comment"@.len() == 7,
        "Comment"@[0] == 'C',
        "Comment"@[1] == 'o',
        "Comment"@[2] == 'm',
        "Comment"@[3] == 'm',
        "Comment"@[4] == 'e',
        "Comment"@[5] == 'n',
        "Comment"@[6] == 't',
{
    reveal_strlit("Comment");
}

proof fn lemma_text_messageid()
    ensures
        TokenType::MessageID.lexeme() == Some("MessageID"@),
        "MessageID"@.len() == 9,
        "MessageID"@[0] == 'M',
        "MessageID"@[1] == 'e',
        "MessageID"@[2] == 's',
        "MessageID"@[3] == 's',
        "MessageID"@[4] == 'a',
        "MessageID"@[5] == 'g',
        "MessageID"@[6] == 'e',
        "MessageID"@[7] == 'I',
        "MessageID"@[8] == 'D',
{
    reveal_strlit("MessageID");
}

proof fn lemma_text_hash()
    ensures
        TokenType::Hash.lexeme() == Some("Hash"@),
        "Hash"@.len() == 4,
        "Hash"@[0] == 'H',
        "Hash"@[1] == 'a',
        "Hash"@[2] == 's',
        "Hash"@[3] == 'h',
{
    reveal_strlit("Hash");
}

proof fn lemma_text_charset()
    ensures
        TokenType::Charset.lexeme() == Some("Charset"@),
        "Charset"@.len() == 7,
        "Charset"@[0] == 'C',
        "Charset"@[1] == 'h',
        "Charset"@[2] == 'a',
        "Charset"@[3] == 'r',
        "Charset"@[4] == 's',
        "Charset"@[5] == 'e',
        "Charset"@[6] == 't',
{
    reveal_strlit("Charset");
}

/// Of the text of a symbol: no character of it ends a line, and none but
/// the first is a colon.
pub proof fn lemma_symbol_chars(kind: TokenType, i: int)
    requires
        is_symbol(kind),
        0 <= i < kind.lexeme()->0.len(),
    ensures
        !is_newline_char(kind.lexeme()->0[i]),
        i >= 1 ==> kind.lexeme()->0[i] != ':',
        is_name_symbol(kind) ==> is_name_char(kind.lexeme()->0[i]),
{
    if kind == TokenType::FiveDashes {
        lemma_text_fivedashes();
    }
    if kind == TokenType::Begin {
        lemma_text_begin();
    }
    if kind == TokenType::End {
        lemma_text_end();
    }
    if kind == TokenType::PGPMessagePart {
        lemma_text_pgpmessagepart();
    }
    if kind == TokenType::PGPPublicKeyBlock {
        lemma_text_pgppublickeyblock();
    }
    if kind == TokenType::PGPPrivateKeyBlock {
        lemma_text_pgpprivatekeyblock();
    }
    if kind == TokenType::PGPMessage {
        lemma_text_pgpmessage();
    }
    if kind == TokenType::PGPSignature {
        lemma_text_pgpsignature();
    }
    if kind == TokenType::ColonSpace {
        lemma_text_colonspace();
    }
    if kind == TokenType::Version {
        lemma_text_version();
    }
    if kind == TokenType::Comment {
        lemma_text_comment();
    }
    if kind == TokenType::MessageID {
        lemma_text_messageid();
    }
    if kind == TokenType::Hash {
        lemma_text_hash();
    }
    if kind == TokenType::Charset {
        lemma_text_charset();
    }
}

/// A symbol that is no name symbol holds a space or begins with a colon.
pub proof fn lemma_symbol_not_name(kind: TokenType)
    requires
        is_symbol(kind),
        !is_name_symbol(kind),
    ensures
        exists|i: int|
            0 <= i < kind.lexeme()->0.len() && !is_name_char(#[trigger] kind.lexeme()->0[i]),
{
    if kind == TokenType::Begin {
        lemma_text_begin();
        assert(!is_name_char(kind.lexeme()->0[5]));
    }
    if kind == TokenType::End {
        lemma_text_end();
        assert(!is_name_char(kind.lexeme()->0[3]));
    }
    if kind == TokenType::PGPMessagePart {
        lemma_text_pgpmessagepart();
        assert(!is_name_char(kind.lexeme()->0[3]));
    }
    if kind == TokenType::PGPPublicKeyBlock {
        lemma_text_pgppublickeyblock();
        assert(!is_name_char(kind.lexeme()->0[3]));
    }
    if kind == TokenType::PGPPrivateKeyBlock {
        lemma_text_pgpprivatekeyblock();
        assert(!is_name_char(kind.lexeme()->0[3]));
    }
    if kind == TokenType::PGPMessage {
        lemma_text_pgpmessage();
        assert(!is_name_char(kind.lexeme()->0[3]));
    }
    if kind == TokenType::PGPSignature {
        lemma_text_pgpsignature();
        assert(!is_name_char(kind.lexeme()->0[3]));
    }
    if kind == TokenType::ColonSpace {
        lemma_text_colonspace();
        assert(!is_name_char(kind.lexeme()->0[0]));
    }
}

/// Where a symbol is found, its characters stand in the input.
pub proof fn lemma_symbol_at(input: Seq<char>, pos: int, kind: TokenType, i: int)
    requires
        symbol_at(input, pos, kind),
        0 <= i < kind.lexeme()->0.len(),
    ensures
        pos + i < input.len(),
        input[pos + i] == kind.lexeme()->0[i],
{
    assert(input.subrange(pos, pos + kind.lexeme()->0.len())[i] == input[pos + i]);
}

/// The token at `pos` is a symbol that is found there, a blank line, or
/// the one character at `pos`.
pub proof fn lemma_kind_cases(input: Seq<char>, pos: int)
    requires
        0 <= pos < input.len(),
    ensures
        ({
            let kind = kind_at(input, pos);
            ||| (is_symbol(kind) && symbol_at(input, pos, kind) && next_pos(input, pos) == pos
                + kind.lexeme()->0.len())
            ||| (kind == TokenType::BlankLine && blank_line_len(input, pos) > 0)
            ||| (kind == single_kind(input[pos]) && next_pos(input, pos) == pos + 1
                && !is_symbol(kind) && blank_line_len(input, pos) == 0)
        }),
{
    let kind = kind_at(input, pos);
    let one = single_kind(input[pos]);
    crate::lexer::lemma_skip_blanks(input, pos + 1);
    assert(!is_symbol(one));
    assert(one != TokenType::BlankLine && one != TokenType::Eof);
    if symbol_at(input, pos, TokenType::FiveDashes) {
        assert(kind == TokenType::FiveDashes);
    }     else if symbol_at(input, pos, TokenType::Begin) {
        assert(kind == TokenType::Begin);
    }     else if symbol_at(input, pos, TokenType::End) {
        assert(kind == TokenType::End);
    }     else if symbol_at(input, pos, TokenType::PGPMessagePart) {
        assert(kind == TokenType::PGPMessagePart);
    }     else if symbol_at(input, pos, TokenType::PGPPublicKeyBlock) {
        assert(kind == TokenType::PGPPublicKeyBlock);
    }     else if symbol_at(input, pos, TokenType::PGPPrivateKeyBlock) {
        assert(kind == TokenType::PGPPrivateKeyBlock);
    }     else if symbol_at(input, pos, TokenType::PGPMessage) {
        assert(kind == TokenType::PGPMessage);
    }     else if symbol_at(input, pos, TokenType::PGPSignature) {
        assert(kind == TokenType::PGPSignature);
    }     else if symbol_at(input, pos, TokenType::ColonSpace) {
        assert(kind == TokenType::ColonSpace);
    }     else if symbol_at(input, pos, TokenType::Version) {
        assert(kind == TokenType::Version);
    }     else if symbol_at(input, pos, TokenType::Comment) {
        assert(kind == TokenType::Comment);
    }     else if symbol_at(input, pos, TokenType::MessageID) {
        assert(kind == TokenType::MessageID);
    }     else if symbol_at(input, pos, TokenType::Hash) {
        assert(kind == TokenType::Hash);
    }     else if symbol_at(input, pos, TokenType::Charset) {
        assert(kind == TokenType::Charset);
    } else if blank_line_len(input, pos) > 0 {
        assert(kind == TokenType::BlankLine);
    } else {
        assert(kind == one);
    }
}

/// Within a line a token is one that stands within a line, and it ends
/// before the line does: no token but the blank line holds the end of a
/// line.
pub proof fn lemma_line_token(input: Seq<char>, pos: int, end: int)
    requires
        0 <= pos < end <= input.len(),
        forall|i: int| pos <= i < end ==> !is_newline_char(#[trigger] input[i]),
        end < input.len() ==> is_newline_char(input[end]),
    ensures
        line_tokens()(token_at(input, pos)),
        pos < next_pos(input, pos) <= end,
{
    lemma_kind_cases(input, pos);
    lemma_token_at(input, pos);
    let kind = kind_at(input, pos);
    assert(!is_newline_char(input[pos]));
    if is_symbol(kind) {
        if next_pos(input, pos) > end {
            lemma_symbol_at(input, pos, kind, end - pos);
            lemma_symbol_chars(kind, end - pos);
        }
    }
}

/// A line ends for the grammar where its first end-of-line character
/// stands.
pub proof fn lemma_line_end(input: Seq<char>, pos: int, end: int)
    requires
        0 <= pos <= end < input.len(),
        forall|i: int| pos <= i < end ==> !is_newline_char(#[trigger] input[i]),
        is_newline_char(input[end]),
    ensures
        scan_while(input, pos, line_tokens()) == end,
        kind_at(input, end) == TokenType::NewLine || kind_at(input, end) == TokenType::BlankLine,
    decreases end - pos,
{
    if pos < end {
        lemma_line_token(input, pos, end);
        lemma_scan_step(input, pos, line_tokens());
        lemma_line_end(input, next_pos(input, pos), end);
    } else {
        lemma_kind_cases(input, end);
        lemma_symbol_first_char(input, end);
        lemma_scan_first(input, end, line_tokens());
    }
}

/// The tokens of a name are tokens that may stand in a name, and the name
/// ends for the grammar where `: ` stands behind it.
pub proof fn lemma_name_end(input: Seq<char>, pos: int, colon: int)
    requires
        0 <= pos <= colon,
        colon + 1 < input.len(),
        forall|i: int| pos <= i < colon ==> is_name_char(#[trigger] input[i]),
        input[colon] == ':',
        input[colon + 1] == ' ',
    ensures
        scan_while(input, pos, name_tokens()) == colon,
        kind_at(input, colon) == TokenType::ColonSpace,
        next_pos(input, colon) == colon + 2,
    decreases colon - pos,
{
    if pos < colon {
        lemma_kind_cases(input, pos);
        lemma_token_at(input, pos);
        let kind = kind_at(input, pos);
        assert(is_name_char(input[pos]));
        if is_symbol(kind) {
            let len = kind.lexeme()->0.len() as int;
            if pos + len > colon {
                lemma_symbol_at(input, pos, kind, colon - pos);
                lemma_symbol_chars(kind, colon - pos);
            }
            if !is_name_symbol(kind) {
                lemma_symbol_not_name(kind);
                let i = choose|i: int|
                    0 <= i < kind.lexeme()->0.len() && !is_name_char(
                        #[trigger] kind.lexeme()->0[i],
                    );
                lemma_symbol_at(input, pos, kind, i);
                assert(is_name_char(input[pos + i]));
            }
            assert(is_name_token(kind, token_at(input, pos).text));
        } else {
            assert(kind == single_kind(input[pos]));
            assert(token_at(input, pos).text =~= seq![input[pos]]);
            assert(is_name_token(kind, token_at(input, pos).text));
        }
        lemma_scan_step(input, pos, name_tokens());
        lemma_name_end(input, next_pos(input, pos), colon);
    } else {
        lemma_symbol_first_char(input, colon);
        lemma_text_colonspace();
        assert(input.subrange(colon, colon + 2) =~= ": "@);
        assert(symbol_at(input, colon, TokenType::ColonSpace));
        assert(kind_at(input, colon) == TokenType::ColonSpace);
        lemma_kind_cases(input, colon);
        lemma_scan_first(input, colon, name_tokens());
    }
}

/// A character that begins no symbol and ends no line is a token of its
/// own.
pub proof fn lemma_single_token(input: Seq<char>, pos: int)
    requires
        0 <= pos < input.len(),
        !is_newline_char(input[pos]),
        input[pos] != '-' && input[pos] != 'B' && input[pos] != 'E' && input[pos] != 'P'
            && input[pos] != ':' && input[pos] != 'V' && input[pos] != 'C' && input[pos] != 'M'
            && input[pos] != 'H',
    ensures
        kind_at(input, pos) == single_kind(input[pos]),
        next_pos(input, pos) == pos + 1,
{
    lemma_symbol_first_char(input, pos);
    lemma_kind_cases(input, pos);
}

/// Digits end for the grammar where the first character stands that is no
/// digit.
pub proof fn lemma_digits_end(input: Seq<char>, pos: int, end: int)
    requires
        0 <= pos <= end <= input.len(),
        forall|i: int| pos <= i < end ==> is_digit_char(#[trigger] input[i]),
        end < input.len() ==> !is_digit_char(input[end]),
    ensures
        scan_while(input, pos, digit_tokens()) == end,
    decreases end - pos,
{
    if pos < end {
        assert(is_digit_char(input[pos]));
        lemma_single_token(input, pos);
        lemma_scan_step(input, pos, digit_tokens());
        lemma_digits_end(input, pos + 1, end);
    } else if end < input.len() {
        lemma_kind_cases(input, end);
        lemma_scan_first(input, end, digit_tokens());
    } else {
        lemma_scan_first(input, end, digit_tokens());
    }
}

/// A token that begins with a character that ends no line is no token that
/// ends a line.
pub proof fn lemma_no_break(input: Seq<char>, pos: int)
    requires
        0 <= pos <= input.len(),
        pos < input.len() ==> !is_newline_char(input[pos]),
    ensures
        !break_tokens()(token_at(input, pos)),
        scan_while(input, pos, break_tokens()) == pos,
        first_blank(input, pos) == -1,
{
    if pos < input.len() {
        lemma_kind_cases(input, pos);
    }
    lemma_scan_first(input, pos, break_tokens());
}

/// One line feed before a character that is neither blank nor the end of a
/// line, or before the end of the input, is the end of one line and no
/// blank line.
pub proof fn lemma_line_break(input: Seq<char>, pos: int)
    requires
        0 <= pos < input.len(),
        input[pos] == '\n',
        pos + 1 < input.len() ==> !is_newline_char(input[pos + 1]) && !is_whitespace_char(
            input[pos + 1],
        ),
    ensures
        kind_at(input, pos) == TokenType::NewLine,
        next_pos(input, pos) == pos + 1,
        scan_while(input, pos, break_tokens()) == pos + 1,
        first_blank(input, pos) == -1,
{
    lemma_symbol_first_char(input, pos);
    lemma_skip_blanks_is(input, pos + 1, pos + 1);
    lemma_kind_cases(input, pos);
    assert(blank_line_len(input, pos) == 0);
    lemma_token_at(input, pos);
    lemma_scan_step(input, pos, break_tokens());
    lemma_no_break(input, pos + 1);
}

/// Two line feeds before a character that ends no line are a blank line.
pub proof fn lemma_blank_break(input: Seq<char>, pos: int)
    requires
        0 <= pos,
        pos + 1 < input.len(),
        input[pos] == '\n',
        input[pos + 1] == '\n',
        pos + 2 < input.len() ==> !is_newline_char(input[pos + 2]),
    ensures
        kind_at(input, pos) == TokenType::BlankLine,
        next_pos(input, pos) == pos + 2,
        scan_while(input, pos, break_tokens()) == pos + 2,
        first_blank(input, pos) == pos,
{
    lemma_symbol_first_char(input, pos);
    lemma_skip_blanks_is(input, pos + 1, pos + 1);
    assert(blank_line_len(input, pos) == 2);
    lemma_kind_cases(input, pos);
    lemma_token_at(input, pos);
    lemma_scan_step(input, pos, break_tokens());
    lemma_no_break(input, pos + 2);
}

} // verus!
