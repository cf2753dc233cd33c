//! The laws of the codec: what is encoded decodes to what it was made of,
//! and what was decoded is encoded and decoded again without change.

use crate::armor::{
    boundary_text, crc_octets_of, decode_spec, encodable, encode_spec, envelope_text, header_text,
    headers_encodable, headers_text, repeats_at, valid_value, wrapped, LINE_WIDTH,
};
use crate::base64::{is_alphabet, is_base64_char, lemma_first_invalid_is};
use crate::crc24::{crc24, lemma_crc24_range};
use crate::lexer::{
    kind_at, lemma_symbol_first_char, lemma_token_at, matches_at, next_pos, symbol_at, token_at,
};
use crate::lexer_laws::{
    is_symbol, lemma_blank_break, lemma_digits_end, lemma_kind_cases, lemma_line_break,
    lemma_line_end, lemma_name_end, lemma_single_token, lemma_symbol_at, lemma_symbol_chars,
};
use crate::message::{
    add_header, decimal, index_of_key, is_name_char, is_single_key, key_of, lemma_decimal,
    lemma_index_of_key, name_of, replaces_header, valid_key, valid_name, ArmorError, ArmorType,
    ArmoredMessageView, DiagnosticView, HeaderKey, HeaderView,
};
use crate::parser::{
    blank_tokens, boundary_at, break_tokens, checksum_at, digit_tokens, envelope_at, first_blank,
    header_line_at, headers_from, lemma_scan_first, lemma_trimmed_len_is, line_tokens, lines_of,
    location_at, name_tokens, number_at, payload_from, scan_while, trimmed, trimmed_len,
    ArmorLines, HeaderBlock, HeaderLine,
};
use crate::token::{is_digit_char, is_newline_char, is_whitespace_char, TokenType};
use vstd::prelude::*;

verus! {

/// Text that stands in the input stands there with each of its two parts.
pub proof fn lemma_matches_split(input: Seq<char>, pos: int, first: Seq<char>, second: Seq<char>)
    requires
        matches_at(input, pos, first + second),
    ensures
        matches_at(input, pos, first),
        matches_at(input, pos + first.len(), second),
{
    let whole = input.subrange(pos, pos + (first + second).len());
    assert(input.subrange(pos, pos + first.len()) =~= whole.subrange(0, first.len() as int));
    assert(whole.subrange(0, first.len() as int) =~= first);
    assert(input.subrange(pos + first.len(), pos + first.len() + second.len())
        =~= whole.subrange(first.len() as int, (first + second).len() as int));
    assert(whole.subrange(first.len() as int, (first + second).len() as int) =~= second);
}

/// The characters of text that stands in the input stand in the input.
pub proof fn lemma_matches_index(input: Seq<char>, pos: int, text: Seq<char>, i: int)
    requires
        matches_at(input, pos, text),
        0 <= i < text.len(),
    ensures
        pos + i < input.len(),
        input[pos + i] == text[i],
{
    assert(input.subrange(pos, pos + text.len())[i] == input[pos + i]);
}

/// Five dashes in the input are the token of that kind.
pub proof fn lemma_five_dashes(input: Seq<char>, pos: int)
    requires
        matches_at(input, pos, "-----"@),
    ensures
        kind_at(input, pos) == TokenType::FiveDashes,
        next_pos(input, pos) == pos + 5,
{
    reveal_strlit("-----");
    assert(symbol_at(input, pos, TokenType::FiveDashes));
    lemma_kind_cases(input, pos);
}

/// `BEGIN ` in the input is the token of that kind, and so is `END `.
pub proof fn lemma_word(input: Seq<char>, pos: int, opening: bool)
    requires
        matches_at(input, pos, if opening { "BEGIN "@ } else { "END "@ }),
    ensures
        kind_at(input, pos) == (if opening {
            TokenType::Begin
        } else {
            TokenType::End
        }),
        next_pos(input, pos) == pos + (if opening { 6int } else { 4int }),
{
    reveal_strlit("BEGIN ");
    reveal_strlit("END ");
    if opening {
        lemma_matches_index(input, pos, "BEGIN "@, 0);
        assert(symbol_at(input, pos, TokenType::Begin));
    } else {
        lemma_matches_index(input, pos, "END "@, 0);
        assert(symbol_at(input, pos, TokenType::End));
    }
    lemma_symbol_first_char(input, pos);
    lemma_kind_cases(input, pos);
}

/// The number `n` written to base ten and followed by no digit is that
/// number for the grammar.
pub proof fn lemma_number(input: Seq<char>, pos: int, n: usize)
    requires
        matches_at(input, pos, decimal(n as nat)),
        pos + decimal(n as nat).len() < input.len() ==> !is_digit_char(
            input[pos + decimal(n as nat).len()],
        ),
    ensures
        number_at(input, pos) == Ok::<(usize, int), ArmorError>(
            (n, pos + decimal(n as nat).len()),
        ),
{
    let digits = decimal(n as nat);
    let end = pos + digits.len();
    lemma_decimal(n as nat);
    assert forall|i: int| pos <= i < end implies is_digit_char(#[trigger] input[i]) by {
        lemma_matches_index(input, pos, digits, i - pos);
    }
    lemma_digits_end(input, pos, end);
}

/// The kind of token that names the envelope `kind`.
pub open spec fn envelope_symbol(kind: ArmorType) -> TokenType {
    match kind {
        ArmorType::Message => TokenType::PGPMessage,
        ArmorType::PublicKeyBlock => TokenType::PGPPublicKeyBlock,
        ArmorType::PrivateKeyBlock => TokenType::PGPPrivateKeyBlock,
        ArmorType::Signature => TokenType::PGPSignature,
        ArmorType::MessagePartXofY(_, _) => TokenType::PGPMessagePart,
        ArmorType::MessagePartX(_) => TokenType::PGPMessagePart,
    }
}

/// The name of a kind of envelope begins with the symbol of the kind, and
/// the token at its start is that symbol.
pub proof fn lemma_envelope_symbol(input: Seq<char>, pos: int, kind: ArmorType)
    requires
        matches_at(input, pos, envelope_text(kind)),
        pos + envelope_text(kind).len() < input.len(),
        input[pos + envelope_text(kind).len()] == '-',
    ensures
        kind_at(input, pos) == envelope_symbol(kind),
        next_pos(input, pos) == pos + envelope_symbol(kind).lexeme()->0.len(),
        envelope_symbol(kind).lexeme() is Some,
        matches_at(input, pos, envelope_symbol(kind).lexeme()->0),
{
    reveal_strlit("PGP MESSAGE");
    reveal_strlit("PGP PUBLIC KEY BLOCK");
    reveal_strlit("PGP PRIVATE KEY BLOCK");
    reveal_strlit("PGP SIGNATURE");
    reveal_strlit("PGP MESSAGE, PART ");
    let symbol = envelope_symbol(kind).lexeme()->0;
    match kind {
        ArmorType::MessagePartXofY(x, y) => {
            lemma_matches_split(input, pos, symbol + decimal(x as nat) + "/"@, decimal(y as nat));
            lemma_matches_split(input, pos, symbol + decimal(x as nat), "/"@);
            lemma_matches_split(input, pos, symbol, decimal(x as nat));
        },
        ArmorType::MessagePartX(x) => {
            lemma_matches_split(input, pos, symbol, decimal(x as nat));
        },
        _ => {},
    }
    assert(matches_at(input, pos, symbol));
    lemma_matches_index(input, pos, symbol, 0);
    lemma_matches_index(input, pos, symbol, 4);
    lemma_matches_index(input, pos, symbol, 5);
    lemma_symbol_first_char(input, pos);
    if symbol_at(input, pos, TokenType::PGPMessagePart) {
        lemma_symbol_at(input, pos, TokenType::PGPMessagePart, 4);
        lemma_symbol_at(input, pos, TokenType::PGPMessagePart, 11);
    }
    if symbol_at(input, pos, TokenType::PGPPublicKeyBlock) {
        lemma_symbol_at(input, pos, TokenType::PGPPublicKeyBlock, 4);
        lemma_symbol_at(input, pos, TokenType::PGPPublicKeyBlock, 5);
    }
    if symbol_at(input, pos, TokenType::PGPPrivateKeyBlock) {
        lemma_symbol_at(input, pos, TokenType::PGPPrivateKeyBlock, 4);
        lemma_symbol_at(input, pos, TokenType::PGPPrivateKeyBlock, 5);
    }
    if symbol_at(input, pos, TokenType::PGPMessage) {
        lemma_symbol_at(input, pos, TokenType::PGPMessage, 4);
    }
    assert(symbol_at(input, pos, envelope_symbol(kind)));
    lemma_kind_cases(input, pos);
}

/// The name of a kind of envelope whose parts are numbered in order, with
/// a dash behind it, is that kind for the grammar.
#[verifier::rlimit(40)]
pub proof fn lemma_envelope(input: Seq<char>, pos: int, kind: ArmorType)
    requires
        kind.valid(),
        matches_at(input, pos, envelope_text(kind)),
        pos + envelope_text(kind).len() < input.len(),
        input[pos + envelope_text(kind).len()] == '-',
    ensures
        envelope_at(input, pos) == Ok::<(ArmorType, int), ArmorError>(
            (kind, pos + envelope_text(kind).len()),
        ),
{
    lemma_envelope_symbol(input, pos, kind);
    reveal_strlit("PGP MESSAGE, PART ");
    reveal_strlit("/");
    let symbol = envelope_symbol(kind).lexeme()->0;
    let next = pos + symbol.len();
    match kind {
        ArmorType::MessagePartXofY(x, y) => {
            let dx = decimal(x as nat);
            let dy = decimal(y as nat);
            lemma_decimal(x as nat);
            lemma_decimal(y as nat);
            lemma_matches_split(input, pos, symbol + dx + "/"@, dy);
            lemma_matches_split(input, pos, symbol + dx, "/"@);
            lemma_matches_split(input, pos, symbol, dx);
            let slash = next + dx.len();
            lemma_matches_index(input, slash, "/"@, 0);
            assert(input[slash] == '/');
            lemma_number(input, next, x);
            lemma_single_token(input, slash);
            assert(kind_at(input, slash) == TokenType::ForwardSlash);
            assert((symbol + dx + "/"@).len() == symbol.len() + dx.len() + 1);
            lemma_number(input, slash + 1, y);
        },
        ArmorType::MessagePartX(x) => {
            let dx = decimal(x as nat);
            lemma_decimal(x as nat);
            lemma_matches_split(input, pos, symbol, dx);
            let after = next + dx.len();
            lemma_number(input, next, x);
            lemma_kind_cases(input, after);
            assert(kind_at(input, after) != TokenType::ForwardSlash);
        },
        _ => {},
    }
}

/// A boundary line in the input is that line for the grammar.
pub proof fn lemma_boundary(input: Seq<char>, pos: int, opening: bool, kind: ArmorType)
    requires
        kind.valid(),
        matches_at(input, pos, boundary_text(if opening { "BEGIN "@ } else { "END "@ }, kind)),
    ensures
        boundary_at(input, pos, opening) == Ok::<(ArmorType, int), ArmorError>(
            (kind, pos + boundary_text(if opening { "BEGIN "@ } else { "END "@ }, kind).len()),
        ),
{
    reveal_strlit("-----");
    reveal_strlit("BEGIN ");
    reveal_strlit("END ");
    let word = if opening {
        "BEGIN "@
    } else {
        "END "@
    };
    let name = envelope_text(kind);
    lemma_matches_split(input, pos, "-----"@ + word + name, "-----"@);
    lemma_matches_split(input, pos, "-----"@ + word, name);
    lemma_matches_split(input, pos, "-----"@, word);
    let at_word = pos + 5;
    let at_name = at_word + word.len();
    let at_dashes = at_name + name.len();
    lemma_five_dashes(input, pos);
    lemma_word(input, at_word, opening);
    lemma_matches_index(input, at_dashes, "-----"@, 0);
    lemma_envelope(input, at_name, kind);
    lemma_five_dashes(input, at_dashes);
}

/// The names of the reserved keys are names of headers, and each stands
/// for its key.
pub proof fn lemma_reserved_names(key: HeaderKey)
    requires
        !(key is Other),
    ensures
        valid_name(name_of(key)),
        key_of(name_of(key)) == key,
{
    reveal_strlit("Version");
    reveal_strlit("Comment");
    reveal_strlit("MessageID");
    reveal_strlit("Hash");
    reveal_strlit("Charset");
    let name = name_of(key);
    assert(name[0] != '-');
    assert("Version"@[0] == 'V');
    assert("Comment"@[0] == 'C');
    assert("Comment"@[1] == 'o');
    assert("MessageID"@[0] == 'M');
    assert("Hash"@[0] == 'H');
    assert("Charset"@[1] == 'h');
    assert forall|i: int| 0 <= i < name.len() implies is_name_char(#[trigger] name[i]) by {
        lemma_symbol_chars(
            match key {
                HeaderKey::Version => TokenType::Version,
                HeaderKey::Comment => TokenType::Comment,
                HeaderKey::MessageID => TokenType::MessageID,
                HeaderKey::Hash => TokenType::Hash,
                _ => TokenType::Charset,
            },
            i,
        );
    }
}

/// A header line in the input is that header for the grammar.
pub proof fn lemma_header_line(input: Seq<char>, pos: int, header: HeaderView)
    requires
        valid_key(header.0),
        valid_value(header.1),
        matches_at(input, pos, header_text(header)),
    ensures
        header_line_at(input, pos) == Ok::<HeaderLine, ArmorError>(
            HeaderLine {
                key: header.0,
                value: header.1,
                location: location_at(input, pos),
                end: pos + header_text(header).len() - 1,
            },
        ),
        input[pos + header_text(header).len() - 1] == '\n',
        !is_newline_char(input[pos]),
        !is_whitespace_char(input[pos]),
{
    reveal_strlit(": ");
    reveal_strlit("\n");
    let name = name_of(header.0);
    let value = header.1;
    if !(header.0 is Other) {
        lemma_reserved_names(header.0);
    }
    assert(valid_name(name));
    assert(key_of(name) == header.0);
    lemma_matches_split(input, pos, name + ": "@ + value, "\n"@);
    lemma_matches_split(input, pos, name + ": "@, value);
    lemma_matches_split(input, pos, name, ": "@);
    let colon = pos + name.len();
    let begins = colon + 2;
    let end = begins + value.len();
    lemma_matches_index(input, colon, ": "@, 0);
    lemma_matches_index(input, colon, ": "@, 1);
    lemma_matches_index(input, end, "\n"@, 0);
    assert forall|i: int| pos <= i < colon implies is_name_char(#[trigger] input[i]) by {
        lemma_matches_index(input, pos, name, i - pos);
    }
    assert(is_name_char(input[pos]));
    lemma_kind_cases(input, pos);
    assert(kind_at(input, pos) != TokenType::WhiteSpace);
    lemma_scan_first(input, pos, blank_tokens());
    lemma_name_end(input, pos, colon);
    assert(input.subrange(pos, colon) =~= name);
    assert forall|i: int| begins <= i < end implies !is_newline_char(#[trigger] input[i]) by {
        lemma_matches_index(input, begins, value, i - begins);
    }
    lemma_line_end(input, begins, end);
    assert(input.subrange(begins, end) =~= value);
    assert(trimmed(value) =~= value);
}

/// One header line more: what the grammar gives for the lines from the
/// end of the line before it on is what it gives from the end of this line
/// on, with the header of this line taken in.
proof fn lemma_headers_step(
    input: Seq<char>,
    pos: int,
    before: Seq<HeaderView>,
    diagnostics: Seq<DiagnosticView>,
    line: HeaderLine,
)
    requires
        scan_while(input, pos, break_tokens()) == pos + 1,
        first_blank(input, pos) == -1,
        header_line_at(input, pos + 1) == Ok::<HeaderLine, ArmorError>(line),
        pos < line.end <= input.len(),
        !replaces_header(before, line.key),
    ensures
        headers_from(input, pos, before, diagnostics) == headers_from(
            input,
            line.end,
            before.push((line.key, line.value)),
            diagnostics,
        ),
{
    reveal_with_fuel(headers_from, 1);
}

/// The blank line: the headers before it are the headers.
proof fn lemma_headers_stop(
    input: Seq<char>,
    pos: int,
    before: Seq<HeaderView>,
    diagnostics: Seq<DiagnosticView>,
)
    requires
        scan_while(input, pos, break_tokens()) == pos + 2,
        first_blank(input, pos) == pos,
        0 <= pos,
    ensures
        headers_from(input, pos, before, diagnostics) == Ok::<HeaderBlock, ArmorError>(
            HeaderBlock { headers: before, diagnostics: diagnostics, end: pos + 2 },
        ),
{
    reveal_with_fuel(headers_from, 1);
}

/// No header among the first `done` of headers that can be encoded has the
/// key of the header at `done`, where that key is one of which there is
/// one header only.
proof fn lemma_no_replacement(all: Seq<HeaderView>, done: int)
    requires
        0 <= done < all.len(),
        !repeats_at(all, done),
    ensures
        !replaces_header(all.take(done), all[done].0),
        add_header(all.take(done), all[done].0, all[done].1) == all.take(done + 1),
{
    let before = all.take(done);
    let header = all[done];
    if is_single_key(header.0) {
        lemma_index_of_key(before, header.0);
        let found = index_of_key(before, header.0);
        if found >= 0 {
            assert(before[found] == all[found]);
            assert(repeats_at(all, done));
        }
    }
    assert(before.push(header) =~= all.take(done + 1));
}

/// How the tokenizer and the grammar take the first of the header lines
/// that stand behind the end of a line: the end of the line before it is
/// the end of one line, the line is the header, and the header lines
/// behind it stand behind its end.
proof fn lemma_headers_next(input: Seq<char>, pos: int, header: HeaderView, later: Seq<char>)
    requires
        valid_key(header.0),
        valid_value(header.1),
        0 <= pos < input.len(),
        input[pos] == '\n',
        matches_at(input, pos + 1, header_text(header) + later + "\n"@),
    ensures
        header_text(header).len() >= 1,
        header_line_at(input, pos + 1) == Ok::<HeaderLine, ArmorError>(
            HeaderLine {
                key: header.0,
                value: header.1,
                location: location_at(input, pos + 1),
                end: pos + header_text(header).len(),
            },
        ),
        scan_while(input, pos, break_tokens()) == pos + 1,
        first_blank(input, pos) == -1,
        pos + header_text(header).len() < input.len(),
        input[pos + header_text(header).len()] == '\n',
        matches_at(input, pos + header_text(header).len() + 1, later + "\n"@),
{
    let line = header_text(header);
    let newline = "\n"@;
    assert(newline.len() == 1 && newline[0] == '\n') by {
        reveal_strlit("\n");
    }
    lemma_matches_split(input, pos + 1, line + later, newline);
    lemma_matches_split(input, pos + 1, line, later);
    lemma_header_line(input, pos + 1, header);
    lemma_line_break(input, pos);
    let end = pos + line.len();
    assert(matches_at(input, end + 1, later + newline)) by {
        assert forall|i: int| 0 <= i < later.len() + 1 implies input[end + 1 + i] == (later
            + newline)[i] by {
            if i < later.len() {
                lemma_matches_index(input, pos + 1 + line.len(), later, i);
            } else {
                lemma_matches_index(input, pos + 1 + line.len() + later.len(), newline, 0);
            }
        }
        assert(input.subrange(end + 1, end + 1 + (later + newline).len()) =~= later + newline);
    }
}

/// How the tokenizer takes the blank line behind the end of a line.
proof fn lemma_headers_last(input: Seq<char>, pos: int)
    requires
        0 <= pos < input.len(),
        input[pos] == '\n',
        matches_at(input, pos + 1, "\n"@),
        pos + 2 < input.len() ==> !is_newline_char(input[pos + 2]),
    ensures
        scan_while(input, pos, break_tokens()) == pos + 2,
        first_blank(input, pos) == pos,
{
    reveal_strlit("\n");
    lemma_matches_index(input, pos + 1, "\n"@, 0);
    lemma_blank_break(input, pos);
}

/// The header lines are the line of the first header and the lines of the
/// headers behind it.
proof fn lemma_headers_text_first(headers: Seq<HeaderView>, from: int)
    requires
        0 <= from < headers.len(),
    ensures
        headers_text(headers.skip(from)) == header_text(headers[from]) + headers_text(
            headers.skip(from + 1),
        ),
{
    let rest = headers.skip(from);
    assert(rest[0] == headers[from]);
    assert(rest.drop_first() =~= headers.skip(from + 1));
}

/// Whether the header lines of `all` from index `done` on stand in the
/// input behind the end of a line at `pos`, with the blank line behind
/// them and no end of a line behind that.
#[verifier::opaque]
pub open spec fn headers_stand(input: Seq<char>, pos: int, all: Seq<HeaderView>,
    done: int) -> bool {
    &&& 0 <= pos < input.len()
    &&& input[pos] == '\n'
    &&& matches_at(input, pos + 1, headers_text(all.skip(done)) + "\n"@)
    &&& pos + 1 + headers_text(all.skip(done)).len() + 1 < input.len() ==> !is_newline_char(
        input[pos + 1 + headers_text(all.skip(done)).len() + 1],
    )
}

/// Where the first token behind the blank line begins: behind the header
/// lines of `all` from index `done` on, which stand behind the end of a
/// line at `pos`.
pub open spec fn behind_headers(pos: int, all: Seq<HeaderView>, done: int) -> int {
    pos + 1 + headers_text(all.skip(done)).len() + 1
}

/// Where all header lines have been taken, the blank line follows.
proof fn lemma_stand_last(input: Seq<char>, pos: int, all: Seq<HeaderView>)
    requires
        headers_stand(input, pos, all, all.len() as int),
    ensures
        scan_while(input, pos, break_tokens()) == pos + 2,
        first_blank(input, pos) == pos,
        0 <= pos,
        behind_headers(pos, all, all.len() as int) == pos + 2,
{
    reveal(headers_stand);
    let done = all.len() as int;
    assert(all.skip(done).len() == 0);
    assert(headers_text(all.skip(done)) =~= Seq::<char>::empty());
    assert(headers_text(all.skip(done)) + "\n"@ =~= "\n"@);
    lemma_headers_last(input, pos);
}

/// Where header lines are left, the first of them is taken as its header,
/// and the others stand behind its end.
#[verifier::rlimit(40)]
proof fn lemma_stand_next(input: Seq<char>, pos: int, all: Seq<HeaderView>, done: int)
    requires
        0 <= done < all.len(),
        valid_key(all[done].0),
        valid_value(all[done].1),
        headers_stand(input, pos, all, done),
    ensures
        header_line_at(input, pos + 1) == Ok::<HeaderLine, ArmorError>(
            HeaderLine {
                key: all[done].0,
                value: all[done].1,
                location: location_at(input, pos + 1),
                end: pos + header_text(all[done]).len(),
            },
        ),
        scan_while(input, pos, break_tokens()) == pos + 1,
        first_blank(input, pos) == -1,
        pos < pos + header_text(all[done]).len() < input.len(),
        headers_stand(input, pos + header_text(all[done]).len(), all, done + 1),
        behind_headers(pos + header_text(all[done]).len(), all, done + 1) == behind_headers(
            pos,
            all,
            done,
        ),
{
    reveal(headers_stand);
    let header = all[done];
    let later = headers_text(all.skip(done + 1));
    lemma_headers_text_first(all, done);
    lemma_headers_next(input, pos, header, later);
}

/// The header lines of `all` from index `done` on, behind the end of a
/// line and before the blank line, give the grammar the headers of `all`,
/// where the lines before have given the first `done` of them.
pub proof fn lemma_headers(input: Seq<char>, pos: int, all: Seq<HeaderView>, done: int)
    requires
        0 <= done <= all.len(),
        headers_encodable(all),
        headers_stand(input, pos, all, done),
    ensures
        headers_from(input, pos, all.take(done), Seq::empty()) == Ok::<HeaderBlock, ArmorError>(
            HeaderBlock {
                headers: all,
                diagnostics: Seq::empty(),
                end: behind_headers(pos, all, done),
            },
        ),
    decreases all.len() - done,
{
    if done == all.len() {
        lemma_stand_last(input, pos, all);
        assert(all.take(done) =~= all);
        lemma_headers_stop(input, pos, all.take(done), Seq::empty());
    } else {
        let header = all[done];
        assert(valid_key(header.0) && valid_value(header.1));
        assert(!repeats_at(all, done));
        lemma_stand_next(input, pos, all, done);
        let end = pos + header_text(header).len();
        let parsed = HeaderLine {
            key: header.0,
            value: header.1,
            location: location_at(input, pos + 1),
            end: end,
        };
        lemma_no_replacement(all, done);
        lemma_headers_step(input, pos, all.take(done), Seq::empty(), parsed);
        lemma_headers(input, end, all, done + 1);
    }
}

/// The lines of radix-64 text, before the pad of the checksum line, give
/// the grammar the text.
pub proof fn lemma_payload(input: Seq<char>, pos: int, text: Seq<char>, before: Seq<char>)
    requires
        forall|j: int| 0 <= j < text.len() ==> is_base64_char(#[trigger] text[j]),
        forall|j: int| 0 <= j < text.len() && j % 64 == 0 ==> #[trigger] text[j] != '=',
        matches_at(input, pos, wrapped(text) + "="@),
    ensures
        payload_from(input, pos, before) == Ok::<(Seq<char>, int), ArmorError>(
            (before + text, pos + wrapped(text).len()),
        ),
    decreases text.len(),
{
    reveal_with_fuel(payload_from, 1);
    reveal_strlit("\n");
    reveal_strlit("=");
    lemma_matches_split(input, pos, wrapped(text), "="@);
    if text.len() == 0 {
        lemma_matches_index(input, pos, "="@, 0);
        lemma_single_token(input, pos);
        assert(before + text =~= before);
    } else {
        let line = if text.len() <= LINE_WIDTH {
            text
        } else {
            text.take(LINE_WIDTH as int)
        };
        let rest = if text.len() <= LINE_WIDTH {
            Seq::<char>::empty()
        } else {
            text.skip(LINE_WIDTH as int)
        };
        let k = line.len() as int;
        assert(wrapped(rest).len() >= 0);
        assert(wrapped(text) =~= line + "\n"@ + wrapped(rest)) by {
            if text.len() <= LINE_WIDTH {
                assert(wrapped(rest) =~= Seq::<char>::empty());
            }
        }
        lemma_matches_split(input, pos, line + "\n"@, wrapped(rest));
        lemma_matches_split(input, pos, line, "\n"@);
        lemma_matches_index(input, pos + k, "\n"@, 0);
        assert forall|i: int| pos <= i < pos + k implies !is_newline_char(#[trigger] input[i]) by {
            lemma_matches_index(input, pos, line, i - pos);
            assert(is_base64_char(text[i - pos]));
        }
        lemma_matches_index(input, pos, line, 0);
        assert(text[0] != '=');
        assert(input[pos] == text[0]);
        lemma_kind_cases(input, pos);
        assert(kind_at(input, pos) != TokenType::Pad);
        lemma_line_end(input, pos, pos + k);
        assert(input.subrange(pos, pos + k) =~= line);
        assert(is_base64_char(text[k - 1]));
        lemma_trimmed_len_is(line, k);
        assert forall|j: int| 0 <= j < k implies is_base64_char(#[trigger] line[j]) by {
            assert(is_base64_char(text[j]));
        }
        lemma_first_invalid_is(line, 0, k);
        let next = pos + k + 1;
        assert(matches_at(input, next, wrapped(rest) + "="@)) by {
            assert forall|i: int| 0 <= i < wrapped(rest).len() + 1 implies input[next + i] == (
            wrapped(rest) + "="@)[i] by {
                if i < wrapped(rest).len() {
                    lemma_matches_index(input, next, wrapped(rest), i);
                } else {
                    lemma_matches_index(input, pos + wrapped(text).len(), "="@, 0);
                }
            }
            assert(input.subrange(next, next + (wrapped(rest) + "="@).len()) =~= wrapped(rest)
                + "="@);
        }
        assert forall|j: int| 0 <= j < rest.len() implies is_base64_char(#[trigger] rest[j]) by {
            assert(is_base64_char(text[j + LINE_WIDTH]));
        }
        assert forall|j: int| 0 <= j < rest.len() && j % 64 == 0 implies #[trigger] rest[j]
            != '=' by {
            assert(text[j + LINE_WIDTH] != '=');
        }
        lemma_matches_index(input, next, wrapped(rest) + "="@, 0);
        assert(!is_newline_char(input[next]) && !is_whitespace_char(input[next])) by {
            if rest.len() > 0 {
                assert(is_base64_char(rest[0]));
                assert(wrapped(rest)[0] == rest[0]);
            } else {
                assert(wrapped(rest) =~= Seq::<char>::empty());
            }
        }
        lemma_line_break(input, pos + k);
        lemma_payload(input, next, rest, before + line);
        assert(before + line + rest =~= before + text);
        assert(line.take(k) =~= line);
    }
}

/// The three octets of a checksum of 24 bits spell the checksum.
proof fn lemma_crc_octets(crc: u32)
    requires
        crc < 0x1000000,
    ensures
        crc_octets_of(crc).len() == 3,
        crc_octets_of(crc)[0] * 65536 + crc_octets_of(crc)[1] * 256 + crc_octets_of(crc)[2]
            == crc,
{
}

/// The text of a checksum is four characters of the alphabet, which decode
/// to the three octets of the checksum.
proof fn lemma_crc_text(crc: u32)
    ensures
        crate::base64::encode_spec(crc_octets_of(crc)).len() == 4,
        forall|i: int|
            0 <= i < 4 ==> is_alphabet(#[trigger] crate::base64::encode_spec(crc_octets_of(crc))[i]),
        crate::base64::decode_spec(crate::base64::encode_spec(crc_octets_of(crc))) == Ok::<
            (Seq<u8>, bool),
            crate::base64::Base64Error,
        >((crc_octets_of(crc), true)),
{
    let octets = crc_octets_of(crc);
    crate::base64::lemma_encoded_shape(octets);
    crate::base64::lemma_decode_encode(octets);
}

/// How the tokenizer cuts up a checksum line: the pad, then the text up
/// to the end of the line.
proof fn lemma_checksum_cut(input: Seq<char>, pos: int, text: Seq<char>)
    requires
        text.len() == 4,
        forall|i: int| 0 <= i < 4 ==> is_alphabet(#[trigger] text[i]),
        matches_at(input, pos, "="@ + text + "\n"@),
    ensures
        kind_at(input, pos) == TokenType::Pad,
        next_pos(input, pos) == pos + 1,
        scan_while(input, pos + 1, line_tokens()) == pos + 5,
        kind_at(input, pos + 5) != TokenType::Eof,
        trimmed(input.subrange(pos + 1, pos + 5)) == text,
        pos + 5 < input.len(),
        input[pos + 5] == '\n',
{
    reveal_strlit("\n");
    reveal_strlit("=");
    lemma_matches_split(input, pos, "="@ + text, "\n"@);
    lemma_matches_split(input, pos, "="@, text);
    lemma_matches_index(input, pos, "="@, 0);
    lemma_matches_index(input, pos + 5, "\n"@, 0);
    lemma_single_token(input, pos);
    assert forall|i: int| pos + 1 <= i < pos + 5 implies !is_newline_char(#[trigger] input[i]) by {
        lemma_matches_index(input, pos + 1, text, i - pos - 1);
        assert(is_alphabet(text[i - pos - 1]));
    }
    lemma_line_end(input, pos + 1, pos + 5);
    assert(input.subrange(pos + 1, pos + 5) =~= text);
    assert(is_alphabet(text[3]));
    lemma_trimmed_len_is(text, 4);
    assert(trimmed(text) =~= text);
}

/// The checksum line of a checksum of 24 bits gives the grammar the
/// checksum.
pub proof fn lemma_checksum(input: Seq<char>, pos: int, crc: u32)
    requires
        crc < 0x1000000,
        matches_at(
            input,
            pos,
            "="@ + crate::base64::encode_spec(crc_octets_of(crc)) + "\n"@,
        ),
    ensures
        checksum_at(input, pos) == Ok::<(u32, int), ArmorError>((crc, pos + 5)),
        pos + 5 < input.len(),
        input[pos + 5] == '\n',
{
    let text = crate::base64::encode_spec(crc_octets_of(crc));
    lemma_crc_text(crc);
    lemma_crc_octets(crc);
    lemma_checksum_cut(input, pos, text);
}

/// The middle of three texts put together stands behind the first.
pub proof fn lemma_concat_matches(first: Seq<char>, middle: Seq<char>, last: Seq<char>)
    ensures
        matches_at(first + middle + last, first.len() as int, middle),
{
    let whole = first + middle + last;
    assert(whole.subrange(first.len() as int, (first.len() + middle.len()) as int) =~= middle);
}

/// Where the parts of an armor stand in its text.
pub struct Layout {
    /// The length of the `BEGIN` line without the end of the line.
    pub begin: int,
    /// The length of the header lines.
    pub headers: int,
    /// The length of the payload lines.
    pub payload: int,
    /// The length of the `END` line without the end of the line.
    pub end: int,
}

/// Where the parts of the armor of this envelope, these headers and this
/// payload stand in its text.
pub open spec fn layout_of(envelope: ArmorType, headers: Seq<HeaderView>,
    payload: Seq<u8>) -> Layout {
    Layout {
        begin: boundary_text("BEGIN "@, envelope).len() as int,
        headers: headers_text(headers).len() as int,
        payload: wrapped(crate::base64::encode_spec(payload)).len() as int,
        end: boundary_text("END "@, envelope).len() as int,
    }
}

/// Ten texts put together: where five of them and the single characters
/// between them stand.
proof fn lemma_ten_parts(
    b: Seq<char>,
    n: Seq<char>,
    h: Seq<char>,
    w: Seq<char>,
    p: Seq<char>,
    c: Seq<char>,
    e: Seq<char>,
)
    requires
        n.len() == 1,
        p.len() == 1,
        c.len() == 4,
    ensures
        ({
            let input = b + n + h + n + w + p + c + n + e + n;
            let begin = b.len() as int;
            let pad = begin + 1 + h.len() + 1 + w.len();
            &&& matches_at(input, 0, b)
            &&& input[begin] == n[0]
            &&& matches_at(input, begin + 1, h + n)
            &&& matches_at(input, begin + 1 + h.len() + 1, w + p)
            &&& matches_at(input, pad, p + c + n)
            &&& matches_at(input, pad + 6, e)
            &&& input.len() == pad + 6 + e.len() + 1
            &&& input[pad + 6 + e.len()] == n[0]
        }),
{
    let input = b + n + h + n + w + p + c + n + e + n;
    let empty = Seq::<char>::empty();
    assert(input =~= empty + b + (n + h + n + w + p + c + n + e + n));
    lemma_concat_matches(empty, b, n + h + n + w + p + c + n + e + n);
    assert(input =~= (b + n) + (h + n) + (w + p + c + n + e + n));
    lemma_concat_matches(b + n, h + n, w + p + c + n + e + n);
    assert(input =~= (b + n + h + n) + (w + p) + (c + n + e + n));
    lemma_concat_matches(b + n + h + n, w + p, c + n + e + n);
    assert(input =~= (b + n + h + n + w) + (p + c + n) + (e + n));
    lemma_concat_matches(b + n + h + n + w, p + c + n, e + n);
    assert(input =~= (b + n + h + n + w + p + c + n) + e + n);
    lemma_concat_matches(b + n + h + n + w + p + c + n, e, n);
}

/// The parts of an armor stand in its text one behind the other.
pub proof fn lemma_encoded_parts(envelope: ArmorType, headers: Seq<HeaderView>, payload: Seq<u8>)
    ensures
        ({
            let input = encode_spec(envelope, headers, payload);
            let at = layout_of(envelope, headers, payload);
            let pad = at.begin + 1 + at.headers + 1 + at.payload;
            &&& matches_at(input, 0, boundary_text("BEGIN "@, envelope))
            &&& input[at.begin] == '\n'
            &&& matches_at(input, at.begin + 1, headers_text(headers) + "\n"@)
            &&& matches_at(
                input,
                at.begin + 1 + at.headers + 1,
                wrapped(crate::base64::encode_spec(payload)) + "="@,
            )
            &&& matches_at(
                input,
                pad,
                "="@ + crate::base64::encode_spec(crc_octets_of(crc24(payload))) + "\n"@,
            )
            &&& matches_at(input, pad + 6, boundary_text("END "@, envelope))
            &&& input.len() == pad + 6 + at.end + 1
            &&& input[pad + 6 + at.end] == '\n'
        }),
{
    reveal(encode_spec);
    reveal_strlit("\n");
    reveal_strlit("=");
    lemma_crc_text(crc24(payload));
    lemma_ten_parts(
        boundary_text("BEGIN "@, envelope),
        "\n"@,
        headers_text(headers),
        wrapped(crate::base64::encode_spec(payload)),
        "="@,
        crate::base64::encode_spec(crc_octets_of(crc24(payload))),
        boundary_text("END "@, envelope),
    );
}

/// A line of the radix-64 text of `len` octets begins before the pads.
proof fn lemma_line_start(len: int, j: int)
    requires
        len >= 0,
        0 <= j < crate::base64::encoded_len(len),
        j % 64 == 0,
    ensures
        j < crate::base64::encoded_sextets(len),
{
    let groups = (len + 2) / 3;
    let n = crate::base64::encoded_len(len);
    assert(n == groups * 4);
    let q = j / 64;
    assert(j == 64 * q);
    assert(16 * q < groups);
    assert(j + 4 <= n);
}

/// The radix-64 text of octets is of radix-64 characters, and no line of
/// it begins with a pad.
pub proof fn lemma_body_text(payload: Seq<u8>)
    ensures
        forall|j: int|
            0 <= j < crate::base64::encode_spec(payload).len() ==> is_base64_char(
                #[trigger] crate::base64::encode_spec(payload)[j],
            ),
        forall|j: int|
            0 <= j < crate::base64::encode_spec(payload).len() && j % 64 == 0
                ==> #[trigger] crate::base64::encode_spec(payload)[j] != '=',
{
    let text = crate::base64::encode_spec(payload);
    crate::base64::lemma_encoded_shape(payload);
    let sextets = crate::base64::encoded_sextets(payload.len() as int);
    assert forall|j: int| 0 <= j < text.len() implies is_base64_char(#[trigger] text[j]) by {
        if j < sextets {
            assert(is_alphabet(text[j]));
        }
    }
    assert forall|j: int| 0 <= j < text.len() && j % 64 == 0 implies #[trigger] text[j]
        != '=' by {
        lemma_line_start(payload.len() as int, j);
        assert(is_alphabet(text[j]));
    }
}

/// The first character of the payload lines with the pad behind them ends
/// no line.
proof fn lemma_body_start(text: Seq<char>)
    requires
        forall|j: int| 0 <= j < text.len() ==> is_base64_char(#[trigger] text[j]),
    ensures
        (wrapped(text) + "="@).len() >= 1,
        !is_newline_char((wrapped(text) + "="@)[0]),
{
    reveal_strlit("=");
    if text.len() > 0 {
        assert(is_base64_char(text[0]));
        assert(wrapped(text)[0] == text[0]);
    } else {
        assert(wrapped(text) =~= Seq::<char>::empty());
    }
}

/// The lines of an armor, from what each rule of the grammar gives.
proof fn lemma_lines_from_rules(
    input: Seq<char>,
    envelope: ArmorType,
    closing: ArmorType,
    headers: Seq<HeaderView>,
    text: Seq<char>,
    crc: u32,
    begin: int,
    body: int,
    pad: int,
    line: int,
    tail: int,
    end: int,
    last: int,
)
    requires
        boundary_at(input, 0, true) == Ok::<(ArmorType, int), ArmorError>((envelope, begin)),
        headers_from(input, begin, Seq::empty(), Seq::empty()) == Ok::<HeaderBlock, ArmorError>(
            HeaderBlock { headers: headers, diagnostics: Seq::empty(), end: body },
        ),
        payload_from(input, body, Seq::empty()) == Ok::<(Seq<char>, int), ArmorError>((text, pad)),
        checksum_at(input, pad) == Ok::<(u32, int), ArmorError>((crc, line)),
        first_blank(input, line) == -1,
        scan_while(input, line, break_tokens()) == tail,
        boundary_at(input, tail, false) == Ok::<(ArmorType, int), ArmorError>((closing, end)),
        scan_while(input, end, break_tokens()) == last,
        kind_at(input, last) == TokenType::Eof,
    ensures
        lines_of(input) == Ok::<ArmorLines, ArmorError>(
            ArmorLines {
                begin: envelope,
                end: closing,
                end_location: location_at(input, tail),
                headers: headers,
                diagnostics: Seq::empty(),
                text: text,
                text_location: location_at(input, body),
                declared_crc: crc,
                crc_location: location_at(input, pad),
            },
        ),
{
}

/// Where the payload lines begin in the text of an armor.
pub open spec fn body_of(at: Layout) -> int {
    at.begin + 1 + at.headers + 1
}

/// Where the checksum line begins in the text of an armor.
pub open spec fn pad_of(at: Layout) -> int {
    at.begin + 1 + at.headers + 1 + at.payload
}

/// The `BEGIN` line of an armor that was encoded.
proof fn lemma_encoded_begin(envelope: ArmorType, headers: Seq<HeaderView>, payload: Seq<u8>)
    requires
        envelope.valid(),
    ensures
        boundary_at(encode_spec(envelope, headers, payload), 0, true) == Ok::<
            (ArmorType, int),
            ArmorError,
        >((envelope, layout_of(envelope, headers, payload).begin)),
{
    lemma_encoded_parts(envelope, headers, payload);
    lemma_boundary(encode_spec(envelope, headers, payload), 0, true, envelope);
}

/// The header lines of an armor that was encoded.
proof fn lemma_encoded_headers(envelope: ArmorType, headers: Seq<HeaderView>, payload: Seq<u8>)
    requires
        headers_encodable(headers),
    ensures
        headers_from(
            encode_spec(envelope, headers, payload),
            layout_of(envelope, headers, payload).begin,
            Seq::empty(),
            Seq::empty(),
        ) == Ok::<HeaderBlock, ArmorError>(
            HeaderBlock {
                headers: headers,
                diagnostics: Seq::empty(),
                end: body_of(layout_of(envelope, headers, payload)),
            },
        ),
{
    let input = encode_spec(envelope, headers, payload);
    let at = layout_of(envelope, headers, payload);
    let text = crate::base64::encode_spec(payload);
    lemma_encoded_parts(envelope, headers, payload);
    lemma_body_text(payload);
    lemma_body_start(text);
    lemma_matches_index(input, body_of(at), wrapped(text) + "="@, 0);
    assert(headers.skip(0) =~= headers);
    assert(headers.take(0) =~= Seq::<HeaderView>::empty());
    assert(headers_stand(input, at.begin, headers, 0)) by {
        reveal(headers_stand);
    }
    lemma_headers(input, at.begin, headers, 0);
}

/// The payload lines of an armor that was encoded.
proof fn lemma_encoded_payload(envelope: ArmorType, headers: Seq<HeaderView>, payload: Seq<u8>)
    ensures
        payload_from(
            encode_spec(envelope, headers, payload),
            body_of(layout_of(envelope, headers, payload)),
            Seq::empty(),
        ) == Ok::<(Seq<char>, int), ArmorError>(
            (crate::base64::encode_spec(payload), pad_of(layout_of(envelope, headers, payload))),
        ),
{
    let input = encode_spec(envelope, headers, payload);
    let at = layout_of(envelope, headers, payload);
    let text = crate::base64::encode_spec(payload);
    lemma_encoded_parts(envelope, headers, payload);
    lemma_body_text(payload);
    lemma_payload(input, body_of(at), text, Seq::empty());
    assert(Seq::<char>::empty() + text =~= text);
}

/// The checksum line of an armor that was encoded, and the end of that
/// line.
proof fn lemma_encoded_checksum(envelope: ArmorType, headers: Seq<HeaderView>, payload: Seq<u8>)
    ensures
        checksum_at(
            encode_spec(envelope, headers, payload),
            pad_of(layout_of(envelope, headers, payload)),
        ) == Ok::<(u32, int), ArmorError>(
            (crc24(payload), pad_of(layout_of(envelope, headers, payload)) + 5),
        ),
        first_blank(
            encode_spec(envelope, headers, payload),
            pad_of(layout_of(envelope, headers, payload)) + 5,
        ) == -1,
        scan_while(
            encode_spec(envelope, headers, payload),
            pad_of(layout_of(envelope, headers, payload)) + 5,
            break_tokens(),
        ) == pad_of(layout_of(envelope, headers, payload)) + 6,
{
    let input = encode_spec(envelope, headers, payload);
    let at = layout_of(envelope, headers, payload);
    let pad = pad_of(at);
    let tail = pad + 6;
    lemma_encoded_parts(envelope, headers, payload);
    lemma_crc24_range(payload);
    lemma_checksum(input, pad, crc24(payload));
    reveal_strlit("-----");
    lemma_matches_split(input, tail, "-----"@ + "END "@ + envelope_text(envelope), "-----"@);
    lemma_matches_split(input, tail, "-----"@ + "END "@, envelope_text(envelope));
    lemma_matches_split(input, tail, "-----"@, "END "@);
    lemma_matches_index(input, tail, "-----"@, 0);
    lemma_line_break(input, pad + 5);
}

/// The `END` line of an armor that was encoded, and the end of the input
/// behind it.
proof fn lemma_encoded_end(envelope: ArmorType, headers: Seq<HeaderView>, payload: Seq<u8>)
    requires
        envelope.valid(),
    ensures
        boundary_at(
            encode_spec(envelope, headers, payload),
            pad_of(layout_of(envelope, headers, payload)) + 6,
            false,
        ) == Ok::<(ArmorType, int), ArmorError>(
            (
                envelope,
                pad_of(layout_of(envelope, headers, payload)) + 6 + layout_of(
                    envelope,
                    headers,
                    payload,
                ).end,
            ),
        ),
        scan_while(
            encode_spec(envelope, headers, payload),
            pad_of(layout_of(envelope, headers, payload)) + 6 + layout_of(
                envelope,
                headers,
                payload,
            ).end,
            break_tokens(),
        ) == encode_spec(envelope, headers, payload).len(),
        kind_at(
            encode_spec(envelope, headers, payload),
            encode_spec(envelope, headers, payload).len() as int,
        ) == TokenType::Eof,
{
    let input = encode_spec(envelope, headers, payload);
    let at = layout_of(envelope, headers, payload);
    let tail = pad_of(at) + 6;
    lemma_encoded_parts(envelope, headers, payload);
    lemma_boundary(input, tail, false, envelope);
    lemma_line_break(input, tail + at.end);
}

/// The lines of an armor that was encoded are the lines that the encoder
/// was given.
pub proof fn lemma_lines_of_encoded(
    envelope: ArmorType,
    headers: Seq<HeaderView>,
    payload: Seq<u8>,
)
    requires
        encodable(envelope, headers),
    ensures
        ({
            let input = encode_spec(envelope, headers, payload);
            let at = layout_of(envelope, headers, payload);
            lines_of(input) == Ok::<ArmorLines, ArmorError>(
                ArmorLines {
                    begin: envelope,
                    end: envelope,
                    end_location: location_at(input, pad_of(at) + 6),
                    headers: headers,
                    diagnostics: Seq::empty(),
                    text: crate::base64::encode_spec(payload),
                    text_location: location_at(input, body_of(at)),
                    declared_crc: crc24(payload),
                    crc_location: location_at(input, pad_of(at)),
                },
            )
        }),
{
    let input = encode_spec(envelope, headers, payload);
    let at = layout_of(envelope, headers, payload);
    lemma_encoded_begin(envelope, headers, payload);
    lemma_encoded_headers(envelope, headers, payload);
    lemma_encoded_payload(envelope, headers, payload);
    lemma_encoded_checksum(envelope, headers, payload);
    lemma_encoded_end(envelope, headers, payload);
    lemma_lines_from_rules(
        input,
        envelope,
        envelope,
        headers,
        crate::base64::encode_spec(payload),
        crc24(payload),
        at.begin,
        body_of(at),
        pad_of(at),
        pad_of(at) + 5,
        pad_of(at) + 6,
        pad_of(at) + 6 + at.end,
        input.len() as int,
    );
}

/// What decoding gives for lines that name one kind of envelope, hold
/// radix-64 text against which nothing is to be said, and state the
/// checksum of their payload.
proof fn lemma_decode_from_lines(input: Seq<char>, lines: ArmorLines, payload: Seq<u8>)
    requires
        lines_of(input) == Ok::<ArmorLines, ArmorError>(lines),
        lines.begin == lines.end,
        crate::base64::decode_spec(lines.text) == Ok::<
            (Seq<u8>, bool),
            crate::base64::Base64Error,
        >((payload, true)),
        crc24(payload) == lines.declared_crc,
    ensures
        decode_spec(input) == Ok::<(ArmoredMessageView, Seq<DiagnosticView>), ArmorError>(
            (
                ArmoredMessageView {
                    envelope: lines.begin,
                    headers: lines.headers,
                    payload: payload,
                    declared_crc: lines.declared_crc,
                    computed_crc: lines.declared_crc,
                },
                lines.diagnostics,
            ),
        ),
{
}

/// What is encoded decodes to what it was made of: the kind of envelope,
/// the headers and the payload, with the checksum of the payload and with
/// no remark.
pub proof fn lemma_decode_encode(envelope: ArmorType, headers: Seq<HeaderView>, payload: Seq<u8>)
    requires
        encodable(envelope, headers),
    ensures
        decode_spec(encode_spec(envelope, headers, payload)) == Ok::<
            (ArmoredMessageView, Seq<DiagnosticView>),
            ArmorError,
        >(
            (
                ArmoredMessageView {
                    envelope: envelope,
                    headers: headers,
                    payload: payload,
                    declared_crc: crc24(payload),
                    computed_crc: crc24(payload),
                },
                Seq::empty(),
            ),
        ),
{
    let input = encode_spec(envelope, headers, payload);
    lemma_lines_of_encoded(envelope, headers, payload);
    crate::base64::lemma_decode_encode(payload);
    let lines = lines_of(input)->Ok_0;
    lemma_decode_from_lines(input, lines, payload);
}

/// A kind of envelope that the grammar gives has its parts numbered in
/// order.
pub proof fn lemma_boundary_valid(input: Seq<char>, pos: int, opening: bool)
    requires
        boundary_at(input, pos, opening) is Ok,
    ensures
        boundary_at(input, pos, opening)->Ok_0.0.valid(),
{
    let name = next_pos(input, next_pos(input, pos));
    assert(envelope_at(input, name) is Ok);
}

/// Between the start of a line and its end for the grammar stands no
/// character that ends a line.
pub proof fn lemma_line_chars(input: Seq<char>, pos: int)
    requires
        0 <= pos <= input.len(),
    ensures
        pos <= scan_while(input, pos, line_tokens()) <= input.len(),
        forall|i: int|
            pos <= i < scan_while(input, pos, line_tokens()) ==> !is_newline_char(
                #[trigger] input[i],
            ),
    decreases input.len() - pos,
{
    crate::parser::lemma_scan_while(input, pos, line_tokens());
    if pos < input.len() && line_tokens()(token_at(input, pos)) {
        let next = next_pos(input, pos);
        lemma_token_at(input, pos);
        lemma_kind_cases(input, pos);
        crate::parser::lemma_scan_step(input, pos, line_tokens());
        lemma_line_chars(input, next);
        let kind = kind_at(input, pos);
        assert forall|i: int| pos <= i < next implies !is_newline_char(#[trigger] input[i]) by {
            if is_symbol(kind) {
                lemma_symbol_at(input, pos, kind, i - pos);
                lemma_symbol_chars(kind, i - pos);
            }
        }
    } else {
        lemma_scan_first(input, pos, line_tokens());
    }
}

/// What is left of text without the spaces and tabs at its end does not
/// end in a space or tab.
pub proof fn lemma_trimmed_is_trimmed(text: Seq<char>)
    ensures
        trimmed_len(trimmed(text)) == trimmed(text).len(),
{
    crate::parser::lemma_trimmed_len(text);
    let kept = trimmed_len(text);
    lemma_trimmed_len_is(trimmed(text), kept);
}

/// A header that the grammar gives can stand in a header line.
pub proof fn lemma_header_line_valid(input: Seq<char>, pos: int)
    requires
        0 <= pos <= input.len(),
        header_line_at(input, pos) is Ok,
    ensures
        valid_key(header_line_at(input, pos)->Ok_0.key),
        valid_value(header_line_at(input, pos)->Ok_0.value),
        pos < header_line_at(input, pos)->Ok_0.end <= input.len(),
{
    let start = scan_while(input, pos, blank_tokens());
    let colon = scan_while(input, start, name_tokens());
    let value = next_pos(input, colon);
    let end = scan_while(input, value, line_tokens());
    crate::parser::lemma_scan_while(input, pos, blank_tokens());
    crate::parser::lemma_scan_while(input, start, name_tokens());
    assert(colon < input.len());
    lemma_token_at(input, colon);
    lemma_line_chars(input, value);
    let raw = input.subrange(value, end);
    lemma_trimmed_is_trimmed(raw);
    crate::parser::lemma_trimmed_len(raw);
    assert forall|i: int| 0 <= i < trimmed(raw).len() implies !is_newline_char(
        #[trigger] trimmed(raw)[i],
    ) by {
        assert(trimmed(raw)[i] == input[value + i]);
    }
}

/// A header among headers of which one was taken away stood among them.
proof fn lemma_removed(headers: Seq<HeaderView>, at: int, j: int)
    requires
        0 <= at < headers.len(),
        0 <= j < headers.len() - 1,
    ensures
        headers.remove(at)[j] == headers[if j < at { j } else { j + 1 }],
        headers.remove(at).len() == headers.len() - 1,
{
}

/// Headers that can be encoded can be encoded with one header more taken
/// in, where that header can stand in a header line.
pub proof fn lemma_add_header_encodable(
    headers: Seq<HeaderView>,
    key: HeaderKey,
    value: Seq<char>,
)
    requires
        headers_encodable(headers),
        valid_key(key),
        valid_value(value),
    ensures
        headers_encodable(add_header(headers, key, value)),
{
    let after = add_header(headers, key, value);
    lemma_index_of_key(headers, key);
    let found = index_of_key(headers, key);
    let last = after.len() - 1;
    if is_single_key(key) && found >= 0 {
        let kept = headers.remove(found);
        assert(after == kept.push((key, value)));
        assert forall|j: int| 0 <= j < after.len() implies valid_key((#[trigger] after[j]).0)
            && valid_value(after[j].1) by {
            if j < last {
                lemma_removed(headers, found, j);
                let from = if j < found {
                    j
                } else {
                    j + 1
                };
                assert(valid_key(headers[from].0) && valid_value(headers[from].1));
            }
        }
        assert forall|j: int| 0 <= j < after.len() implies !#[trigger] repeats_at(after, j) by {
            if repeats_at(after, j) {
                let i = choose|i: int| 0 <= i < j && (#[trigger] after[i]).0 == after[j].0;
                lemma_removed(headers, found, i);
                let from_i = if i < found {
                    i
                } else {
                    i + 1
                };
                if j < last {
                    lemma_removed(headers, found, j);
                    let from_j = if j < found {
                        j
                    } else {
                        j + 1
                    };
                    assert(headers[from_i].0 == headers[from_j].0);
                    assert(repeats_at(headers, from_j));
                } else {
                    assert(headers[from_i].0 == key);
                    if from_i < found {
                        assert(false);
                    } else {
                        assert(headers[found].0 == headers[from_i].0);
                        assert(repeats_at(headers, from_i));
                    }
                }
            }
        }
    } else {
        assert(after == headers.push((key, value)));
        assert forall|j: int| 0 <= j < after.len() implies valid_key((#[trigger] after[j]).0)
            && valid_value(after[j].1) by {
            if j < last {
                assert(valid_key(headers[j].0) && valid_value(headers[j].1));
            }
        }
        assert forall|j: int| 0 <= j < after.len() implies !#[trigger] repeats_at(after, j) by {
            if repeats_at(after, j) {
                let i = choose|i: int| 0 <= i < j && (#[trigger] after[i]).0 == after[j].0;
                if j < last {
                    assert(headers[i].0 == headers[j].0);
                    assert(repeats_at(headers, j));
                } else {
                    assert(headers[i].0 == key);
                }
            }
        }
    }
}

/// The headers that the grammar gives can be encoded, where those that the
/// lines before have given can.
pub proof fn lemma_headers_from_valid(
    input: Seq<char>,
    pos: int,
    headers: Seq<HeaderView>,
    diagnostics: Seq<DiagnosticView>,
)
    requires
        0 <= pos <= input.len(),
        headers_encodable(headers),
        headers_from(input, pos, headers, diagnostics) is Ok,
    ensures
        headers_encodable(headers_from(input, pos, headers, diagnostics)->Ok_0.headers),
    decreases input.len() - pos,
{
    reveal_with_fuel(headers_from, 1);
    let start = scan_while(input, pos, break_tokens());
    crate::parser::lemma_scan_while(input, pos, break_tokens());
    if start != pos && first_blank(input, pos) < 0 {
        let line = header_line_at(input, start)->Ok_0;
        lemma_header_line_valid(input, start);
        lemma_add_header_encodable(headers, line.key, line.value);
        lemma_headers_from_valid(
            input,
            line.end,
            add_header(headers, line.key, line.value),
            if replaces_header(headers, line.key) {
                diagnostics.push(
                    DiagnosticView::DuplicateHeader { key: line.key, location: line.location },
                )
            } else {
                diagnostics
            },
        );
    }
}

/// The message that an armor decodes to can be encoded: the parts of its
/// envelope are numbered in order and its headers can stand in header
/// lines.
pub proof fn lemma_decoded_is_encodable(input: Seq<char>)
    requires
        decode_spec(input) is Ok,
    ensures
        encodable(decode_spec(input)->Ok_0.0.envelope, decode_spec(input)->Ok_0.0.headers),
{
    let lines = lines_of(input)->Ok_0;
    lemma_boundary_valid(input, 0, true);
    let begin = boundary_at(input, 0, true)->Ok_0.1;
    assert(headers_from(input, begin, Seq::empty(), Seq::empty()) is Ok);
    assert(0 <= begin <= input.len()) by {
        lemma_boundary_end(input, 0, true);
    }
    lemma_headers_from_valid(input, begin, Seq::empty(), Seq::empty());
}

/// A boundary line that the grammar gives ends within the input.
pub proof fn lemma_boundary_end(input: Seq<char>, pos: int, opening: bool)
    requires
        0 <= pos <= input.len(),
        boundary_at(input, pos, opening) is Ok,
    ensures
        pos <= boundary_at(input, pos, opening)->Ok_0.1 <= input.len(),
{
    let word = next_pos(input, pos);
    let name = next_pos(input, word);
    lemma_token_at(input, pos);
    assert(word <= input.len());
    if word < input.len() {
        lemma_token_at(input, word);
    }
    let dashes = envelope_at(input, name)->Ok_0.1;
    assert(kind_at(input, dashes) == TokenType::FiveDashes);
    assert(dashes < input.len());
    lemma_token_at(input, dashes);
    assert(name <= dashes) by {
        lemma_token_at(input, name);
        let kind = kind_at(input, name);
        if kind == TokenType::PGPMessagePart {
            let first = next_pos(input, name);
            crate::parser::lemma_scan_while(input, first, digit_tokens());
            let after_x = number_at(input, first)->Ok_0.1;
            if kind_at(input, after_x) == TokenType::ForwardSlash {
                lemma_token_at(input, after_x);
                crate::parser::lemma_scan_while(input, next_pos(input, after_x), digit_tokens());
            }
        }
    }
}

/// Decoding is stable: the message that an armor decodes to is encoded and
/// decoded again to the same message, with no remark.
#[verifier::rlimit(40)]
pub proof fn lemma_decode_is_stable(input: Seq<char>)
    requires
        decode_spec(input) is Ok,
    ensures
        encodable(decode_spec(input)->Ok_0.0.envelope, decode_spec(input)->Ok_0.0.headers),
        decode_spec(
            encode_spec(
                decode_spec(input)->Ok_0.0.envelope,
                decode_spec(input)->Ok_0.0.headers,
                decode_spec(input)->Ok_0.0.payload,
            ),
        ) == Ok::<(ArmoredMessageView, Seq<DiagnosticView>), ArmorError>(
            (decode_spec(input)->Ok_0.0, Seq::empty()),
        ),
{
    let message = decode_spec(input)->Ok_0.0;
    lemma_decoded_is_encodable(input);
    lemma_decode_encode(message.envelope, message.headers, message.payload);
}

/// The message that an armor decodes to has the kind of envelope that both
/// its boundary lines name; lines that name different kinds are not
/// decoded.
pub proof fn lemma_envelopes_agree(input: Seq<char>)
    ensures
        decode_spec(input) is Ok ==> lines_of(input) is Ok && decode_spec(input)->Ok_0.0.envelope
            == lines_of(input)->Ok_0.begin && decode_spec(input)->Ok_0.0.envelope == lines_of(
            input,
        )->Ok_0.end,
        lines_of(input) is Ok && lines_of(input)->Ok_0.begin != lines_of(input)->Ok_0.end
            ==> decode_spec(input) == Err::<
            (ArmoredMessageView, Seq<DiagnosticView>),
            ArmorError,
        >(
            ArmorError::MismatchedEnvelope {
                begin: lines_of(input)->Ok_0.begin,
                end: lines_of(input)->Ok_0.end,
                location: lines_of(input)->Ok_0.end_location,
            },
        ),
{
}

/// The message that an armor decodes to holds the checksum that the armor
/// states, and that is the CRC-24 of its payload.
pub proof fn lemma_checksums_agree(input: Seq<char>)
    requires
        decode_spec(input) is Ok,
    ensures
        decode_spec(input)->Ok_0.0.declared_crc == decode_spec(input)->Ok_0.0.computed_crc,
        decode_spec(input)->Ok_0.0.computed_crc == crc24(decode_spec(input)->Ok_0.0.payload),
{
}

} // verus!
