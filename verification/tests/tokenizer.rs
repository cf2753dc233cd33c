use pgp_armor::message::{ArmorError, ArmorType, HeaderLineType};
use pgp_armor::parser::{
    current_kind, current_location, find_invalid, is_valid_name, parse_armor,
    parse_armor_header_line, parse_armor_tail_line, parse_blankline, parse_checksum,
    parse_header, parse_header_block, parse_message_type, parse_number, parse_payload,
    place_within, read_line, read_name, skip_blanks, trimmed_length, unexpected_here,
};
use pgp_armor::token::{Location, TokenType};
use pgp_armor::tokenizer::{Tokenizer, LOOKAHEAD, MIN_LOOKAHEAD};

fn at(absolute: usize) -> Location {
    Location { absolute }
}

fn chars(text: &str) -> Vec<char> {
    text.chars().collect()
}

#[test]
fn peek_looks_ahead_without_consuming() {
    let mut tokens = Tokenizer::new("-----BEGIN PGP MESSAGE-----\n");
    assert_eq!(tokens.peek(1).token_type(), TokenType::FiveDashes);
    assert_eq!(tokens.peek(2).token_type(), TokenType::Begin);
    assert_eq!(tokens.peek(3).token_type(), TokenType::PGPMessage);
    assert_eq!(tokens.peek(4).token_type(), TokenType::FiveDashes);
    assert_eq!(tokens.peek(5).token_type(), TokenType::NewLine);
    assert_eq!(tokens.peek(6).token_type(), TokenType::Eof);
    assert_eq!(tokens.peek(LOOKAHEAD).token_type(), TokenType::Eof);
    assert_eq!(tokens.peek(1).token_type(), TokenType::FiveDashes);
    assert_eq!(tokens.peek(1).location(), at(0));
    assert_eq!(tokens.peek(3).location(), at(11));
}

#[test]
fn lookahead_is_eight_tokens_at_the_least() {
    assert!(MIN_LOOKAHEAD >= 8);
    assert!(LOOKAHEAD >= MIN_LOOKAHEAD);
    let mut tokens = Tokenizer::with_lookahead("abcdefghijkl", 2);
    assert_eq!(tokens.peek(8).as_str(), "h");
    let mut tokens = Tokenizer::with_lookahead("abcdefghijkl", 12);
    assert_eq!(tokens.peek(12).as_str(), "l");
    tokens.advance();
    assert_eq!(tokens.peek(12).token_type(), TokenType::Eof);
    assert_eq!(tokens.peek(1).as_str(), "b");
}

#[test]
fn advance_consumes_the_current_token() {
    let mut tokens = Tokenizer::new("a1=");
    assert_eq!(tokens.peek(1).as_str(), "a");
    tokens.advance();
    assert_eq!(tokens.peek(1).as_str(), "1");
    assert_eq!(tokens.peek(2).as_str(), "=");
    tokens.advance();
    tokens.advance();
    assert_eq!(tokens.peek(1).token_type(), TokenType::Eof);
    tokens.advance();
    assert_eq!(tokens.peek(1).token_type(), TokenType::Eof);
    assert_eq!(tokens.peek(1).location(), at(3));
}

#[test]
fn restore_goes_back_to_the_mark() {
    let mut tokens = Tokenizer::new("abcdef");
    tokens.advance();
    tokens.mark();
    tokens.advance();
    tokens.advance();
    assert_eq!(tokens.peek(1).as_str(), "d");
    tokens.restore();
    assert_eq!(tokens.peek(1).as_str(), "b");
    assert_eq!(tokens.peek(1).location(), at(1));
}

#[test]
fn commit_stays_where_it_is() {
    let mut tokens = Tokenizer::new("abcdef");
    tokens.mark();
    tokens.advance();
    tokens.advance();
    tokens.commit();
    assert_eq!(tokens.peek(1).as_str(), "c");
    tokens.advance();
    assert_eq!(tokens.peek(1).as_str(), "d");
}

#[test]
fn marks_nest() {
    let mut tokens = Tokenizer::new("abcdef");
    tokens.mark();
    tokens.advance();
    tokens.mark();
    tokens.advance();
    tokens.mark();
    tokens.advance();
    tokens.restore();
    assert_eq!(tokens.peek(1).as_str(), "c");
    tokens.commit();
    assert_eq!(tokens.peek(1).as_str(), "c");
    tokens.restore();
    assert_eq!(tokens.peek(1).as_str(), "a");
}

#[test]
fn current_token_and_unexpected() {
    let mut tokens = Tokenizer::new("x");
    assert_eq!(current_kind(&mut tokens), TokenType::Letter);
    assert_eq!(current_location(&mut tokens), at(0));
    let otherwise = ArmorError::MalformedHeaderLine { location: at(0) };
    assert_eq!(unexpected_here(&mut tokens, otherwise), otherwise);
    tokens.advance();
    assert_eq!(
        unexpected_here(&mut tokens, otherwise),
        ArmorError::UnexpectedEof { location: at(1) }
    );
}

#[test]
fn numbers() {
    let mut tokens = Tokenizer::new("0123/");
    assert_eq!(parse_number(&mut tokens), Ok(123));
    assert_eq!(current_kind(&mut tokens), TokenType::ForwardSlash);
    let mut tokens = Tokenizer::new("18446744073709551615-");
    assert_eq!(parse_number(&mut tokens), Ok(18446744073709551615));
    let mut tokens = Tokenizer::new("18446744073709551616-");
    assert_eq!(parse_number(&mut tokens), Err(ArmorError::MalformedHeaderLine { location: at(0) }));
    assert_eq!(current_location(&mut tokens), at(0));
    let mut tokens = Tokenizer::new("x1");
    assert_eq!(parse_number(&mut tokens), Err(ArmorError::MalformedHeaderLine { location: at(0) }));
    let mut tokens = Tokenizer::new("");
    assert_eq!(parse_number(&mut tokens), Err(ArmorError::UnexpectedEof { location: at(0) }));
}

#[test]
fn kinds_of_envelope() {
    for (text, kind) in [
        ("PGP MESSAGE-", ArmorType::Message),
        ("PGP PUBLIC KEY BLOCK-", ArmorType::PublicKeyBlock),
        ("PGP PRIVATE KEY BLOCK-", ArmorType::PrivateKeyBlock),
        ("PGP SIGNATURE-", ArmorType::Signature),
        ("PGP MESSAGE, PART 3/4-", ArmorType::MessagePartXofY(3, 4)),
        ("PGP MESSAGE, PART 3-", ArmorType::MessagePartX(3)),
    ] {
        let mut tokens = Tokenizer::new(text);
        assert_eq!(parse_message_type(&mut tokens), Ok(kind));
        assert_eq!(tokens.peek(1).as_str(), "-");
    }
    let mut tokens = Tokenizer::new("PGP MESSAGE, PART 3/x");
    assert_eq!(
        parse_message_type(&mut tokens),
        Err(ArmorError::MalformedHeaderLine { location: at(20) })
    );
    // A rule that fails has consumed nothing.
    assert_eq!(current_location(&mut tokens), at(0));
    assert_eq!(current_kind(&mut tokens), TokenType::PGPMessagePart);
}

#[test]
fn boundary_lines() {
    let mut tokens = Tokenizer::new("-----BEGIN PGP SIGNATURE-----\n");
    assert_eq!(parse_armor_header_line(&mut tokens), Ok(ArmorType::Signature));
    assert_eq!(current_kind(&mut tokens), TokenType::NewLine);
    let mut tokens = Tokenizer::new("-----END PGP SIGNATURE-----");
    assert_eq!(parse_armor_tail_line(&mut tokens), Ok(ArmorType::Signature));
    assert_eq!(current_kind(&mut tokens), TokenType::Eof);
    let mut tokens = Tokenizer::new("-----END PGP SIGNATURE-----");
    assert_eq!(
        parse_armor_header_line(&mut tokens),
        Err(ArmorError::MalformedHeaderLine { location: at(5) })
    );
    assert_eq!(current_location(&mut tokens), at(0));
    let mut tokens = Tokenizer::new("-----BEGIN PGP SIGNATURE-----");
    assert_eq!(
        parse_armor_tail_line(&mut tokens),
        Err(ArmorError::MalformedHeaderLine { location: at(5) })
    );
}

#[test]
fn ends_of_lines() {
    let mut tokens = Tokenizer::new("\nx");
    assert_eq!(parse_blankline(&mut tokens), None);
    assert_eq!(current_location(&mut tokens), at(1));
    let mut tokens = Tokenizer::new("\r\nx");
    assert_eq!(parse_blankline(&mut tokens), None);
    assert_eq!(current_location(&mut tokens), at(2));
    let mut tokens = Tokenizer::new("\n \t\n\nx");
    assert_eq!(parse_blankline(&mut tokens), Some(('\n', at(0))));
    assert_eq!(current_location(&mut tokens), at(5));
    let mut tokens = Tokenizer::new("\r\n\r\nx");
    assert_eq!(parse_blankline(&mut tokens), Some(('\n', at(1))));
    assert_eq!(current_location(&mut tokens), at(4));
    let mut tokens = Tokenizer::new("x\n");
    assert_eq!(parse_blankline(&mut tokens), None);
    assert_eq!(current_location(&mut tokens), at(0));
}

#[test]
fn lines_and_names() {
    let mut tokens = Tokenizer::new(" \t x");
    skip_blanks(&mut tokens);
    assert_eq!(current_location(&mut tokens), at(3));
    let mut tokens = Tokenizer::new("Hash: -----BEGIN \u{e9}\nnext");
    assert_eq!(read_line(&mut tokens), chars("Hash: -----BEGIN \u{e9}"));
    assert_eq!(current_kind(&mut tokens), TokenType::NewLine);
    let mut tokens = Tokenizer::new("X-Version-----9: v");
    assert_eq!(read_name(&mut tokens), chars("X-Version-----9"));
    assert_eq!(current_kind(&mut tokens), TokenType::ColonSpace);
    let mut tokens = Tokenizer::new("a_b");
    assert_eq!(read_name(&mut tokens), chars("a"));
    assert!(is_valid_name(&chars("X-9")));
    assert!(is_valid_name(&chars("9")));
    assert!(!is_valid_name(&chars("")));
    assert!(!is_valid_name(&chars("-X")));
    assert!(!is_valid_name(&chars("X Y")));
    assert!(!is_valid_name(&chars("X\u{e9}")));
}

#[test]
fn trimming_and_places() {
    assert_eq!(trimmed_length(&chars("ab \t ")), 2);
    assert_eq!(trimmed_length(&chars(" \t")), 0);
    assert_eq!(trimmed_length(&chars(" a")), 2);
    assert_eq!(trimmed_length(&chars("")), 0);
    assert_eq!(find_invalid(&chars("aZ09+/=")), 7);
    assert_eq!(find_invalid(&chars("ab cd")), 2);
    assert_eq!(find_invalid(&chars("-")), 0);
    assert_eq!(place_within(&chars("a\u{e9}\u{20ac}\u{1F600}z"), at(10), 0), at(10));
    assert_eq!(place_within(&chars("a\u{e9}\u{20ac}\u{1F600}z"), at(10), 1), at(11));
    assert_eq!(place_within(&chars("a\u{e9}\u{20ac}\u{1F600}z"), at(10), 2), at(13));
    assert_eq!(place_within(&chars("a\u{e9}\u{20ac}\u{1F600}z"), at(10), 3), at(16));
    assert_eq!(place_within(&chars("a\u{e9}\u{20ac}\u{1F600}z"), at(10), 4), at(20));
    assert_eq!(place_within(&chars("a\u{e9}\u{20ac}\u{1F600}z"), at(10), 5), at(21));
}

#[test]
fn header_lines() {
    let mut tokens = Tokenizer::new("  Comment: a b  \nx");
    assert_eq!(
        parse_header(&mut tokens),
        Ok((HeaderLineType::Comment, String::from("a b"), at(2)))
    );
    assert_eq!(current_location(&mut tokens), at(16));
    let mut tokens = Tokenizer::new("Comment\n");
    assert_eq!(
        parse_header(&mut tokens),
        Err(ArmorError::MalformedHeaderBlock { location: at(7) })
    );
    assert_eq!(current_location(&mut tokens), at(0));
    let mut tokens = Tokenizer::new("Comment: never ends");
    assert_eq!(parse_header(&mut tokens), Err(ArmorError::UnexpectedEof { location: at(19) }));
}

#[test]
fn header_blocks() {
    let mut tokens = Tokenizer::new("\nHash: a\nHash: b\n\nbody");
    let (headers, diagnostics) = parse_header_block(&mut tokens).unwrap();
    assert_eq!(
        headers.entries,
        vec![
            (HeaderLineType::Hash, String::from("a")),
            (HeaderLineType::Hash, String::from("b"))
        ]
    );
    assert!(diagnostics.is_empty());
    assert_eq!(current_location(&mut tokens), at(18));
    let mut tokens = Tokenizer::new("\n\nbody");
    let (headers, _) = parse_header_block(&mut tokens).unwrap();
    assert_eq!(headers.len(), 0);
    assert_eq!(current_location(&mut tokens), at(2));
}

#[test]
fn payload_and_checksum_lines() {
    let mut tokens = Tokenizer::new("abcd  \nefgh\n=ijkl \n-----");
    assert_eq!(parse_payload(&mut tokens), Ok(chars("abcdefgh")));
    assert_eq!(current_kind(&mut tokens), TokenType::Pad);
    assert_eq!(parse_checksum(&mut tokens), Ok(0x8A3925));
    assert_eq!(current_kind(&mut tokens), TokenType::NewLine);
    let mut tokens = Tokenizer::new("=AAAB\n");
    assert_eq!(parse_checksum(&mut tokens), Ok(1));
    let mut tokens = Tokenizer::new("=twTO\n");
    assert_eq!(parse_checksum(&mut tokens), Ok(0xB704CE));
    let mut tokens = Tokenizer::new("=////\n");
    assert_eq!(parse_checksum(&mut tokens), Ok(0xFFFFFF));
    let mut tokens = Tokenizer::new("=//\n");
    assert_eq!(parse_checksum(&mut tokens), Err(ArmorError::InvalidPadding { location: at(0) }));
    assert_eq!(current_location(&mut tokens), at(0));
    let mut tokens = Tokenizer::new("x");
    assert_eq!(parse_checksum(&mut tokens), Err(ArmorError::InvalidPadding { location: at(0) }));
}

#[test]
fn lines_of_an_armor() {
    let parsed = parse_armor(
        "-----BEGIN PGP MESSAGE-----\nVersion: 1\n\nZm9v\nYg==\n=AAAA\n-----END PGP MESSAGE-----\n",
    )
    .unwrap();
    assert_eq!(parsed.envelope, ArmorType::Message);
    assert_eq!(parsed.headers.entries, vec![(HeaderLineType::Version, String::from("1"))]);
    assert_eq!(parsed.text, chars("Zm9vYg=="));
    assert_eq!(parsed.text_location, at(40));
    assert_eq!(parsed.declared_crc, 0);
    assert_eq!(parsed.crc_location, at(50));
    assert!(parsed.diagnostics.is_empty());
}
