use pgp_armor::lexer::Lexer;
use pgp_armor::token::TokenType::{
    Begin, BlankLine, Charset, Colon, ColonSpace, Comma, Comment, Digit, End, FiveDashes,
    ForwardSlash, Letter, MessageID, NewLine, OtherUtf8, PGPMessage, PGPMessagePart,
    PGPPrivateKeyBlock, PGPPublicKeyBlock, PGPSignature, Pad, PlusSign, Version, WhiteSpace,
};
use pgp_armor::token::{Location, Token, TokenType};

fn ascii_armored_data() -> String {
    String::from(
        "-----BEGIN PGP MESSAGE-----\n\
         Version: OpenPrivacy 0.99\n      \n\
         yDgBO22WxBHv7O8X7O/jygAEzol56iUKiXmV+XmpCtmpqQUKiQrFqclFqUDBovzS\n\
         vBSFjNSiVHsuAA==\n\
         =njUN\n\
         -----END PGP MESSAGE-----",
    )
}

fn all_tokens(input: &str) -> Vec<Token> {
    let mut lexer = Lexer::new(input);
    let mut tokens = Vec::new();
    while let Some(token) = lexer.next() {
        tokens.push(token);
    }
    tokens
}

fn kinds(input: &str) -> Vec<TokenType> {
    all_tokens(input).iter().map(|t| t.token_type()).collect()
}

#[test]
fn lexer_test_armor_lexer() {
    let armored_data = ascii_armored_data();
    let mut lexer = Lexer::new(&armored_data);

    while let Some(token) = lexer.next() {
        assert!(token.is_valid_token());
    }
}

#[test]
fn tokens_take_up_the_whole_input() {
    let armored_data = ascii_armored_data();
    let mut text = String::new();
    let mut offset = 0;
    for token in all_tokens(&armored_data) {
        assert_eq!(token.location(), Location { absolute: offset });
        offset += token.as_bytes().len();
        text.push_str(token.as_str());
    }
    assert_eq!(text, armored_data);
}

#[test]
fn begin_line_is_four_tokens() {
    assert_eq!(
        kinds("-----BEGIN PGP MESSAGE-----\n"),
        vec![FiveDashes, Begin, PGPMessage, FiveDashes, NewLine]
    );
    assert_eq!(
        kinds("-----END PGP MESSAGE, PART 12/34-----"),
        vec![FiveDashes, End, PGPMessagePart, Digit, Digit, ForwardSlash, Digit, Digit, FiveDashes]
    );
    assert_eq!(kinds("PGP PUBLIC KEY BLOCK"), vec![PGPPublicKeyBlock]);
    assert_eq!(kinds("PGP PRIVATE KEY BLOCK"), vec![PGPPrivateKeyBlock]);
    assert_eq!(kinds("PGP SIGNATURE"), vec![PGPSignature]);
}

#[test]
fn a_symbol_cut_short_falls_back_to_single_characters() {
    assert_eq!(kinds("----"), vec![OtherUtf8, OtherUtf8, OtherUtf8, OtherUtf8]);
    assert_eq!(kinds("BEGIN"), vec![Letter, Letter, Letter, Letter, Letter]);
    assert_eq!(kinds("PGP X"), vec![Letter, Letter, Letter, WhiteSpace, Letter]);
    assert_eq!(kinds("Versio"), vec![Letter; 6]);
}

#[test]
fn colon_space_is_preferred_to_colon() {
    assert_eq!(kinds("Hash: x"), vec![TokenType::Hash, ColonSpace, Letter]);
    assert_eq!(kinds("Hash:x"), vec![TokenType::Hash, Colon, Letter]);
    assert_eq!(kinds("Charset,Comment"), vec![Charset, Comma, Comment]);
    assert_eq!(kinds("MessageID"), vec![MessageID]);
    assert_eq!(kinds("Version"), vec![Version]);
}

#[test]
fn single_character_kinds() {
    assert_eq!(
        kinds("=/+:,7q \t*\u{e9}"),
        vec![
            Pad, ForwardSlash, PlusSign, Colon, Comma, Digit, Letter, WhiteSpace, WhiteSpace,
            OtherUtf8, OtherUtf8
        ]
    );
}

#[test]
fn blank_line_is_one_token() {
    assert_eq!(kinds("a\n\nb"), vec![Letter, BlankLine, Letter]);
    assert_eq!(kinds("a\n \t \nb"), vec![Letter, BlankLine, Letter]);
    assert_eq!(kinds("a\r\rb"), vec![Letter, BlankLine, Letter]);
    assert_eq!(kinds("a\n b"), vec![Letter, NewLine, WhiteSpace, Letter]);
    assert_eq!(kinds("a\n"), vec![Letter, NewLine]);
    let tokens = all_tokens("a\n  \nb");
    assert_eq!(tokens[1].as_str(), "\n  \n");
}

#[test]
fn carriage_return_and_line_feed_are_two_tokens() {
    assert_eq!(kinds("a\r\nb"), vec![Letter, NewLine, NewLine, Letter]);
    assert_eq!(kinds("a\r\n\r\nb"), vec![Letter, NewLine, BlankLine, NewLine, Letter]);
    let tokens = all_tokens("a\r\n\r\nb");
    assert_eq!(tokens[1].as_str(), "\r");
    assert_eq!(tokens[2].as_str(), "\n\r");
    assert_eq!(tokens[3].as_str(), "\n");
}

#[test]
fn end_of_input_is_eof_again_and_again() {
    let mut lexer = Lexer::new("a\u{e9}");
    assert_eq!(lexer.next_token(), Token::new(TokenType::Letter, "a", Location { absolute: 0 }));
    assert_eq!(
        lexer.next_token(),
        Token::new(TokenType::OtherUtf8, "\u{e9}", Location { absolute: 1 })
    );
    assert_eq!(lexer.next_token(), Token::new(TokenType::Eof, "EOF", Location { absolute: 3 }));
    assert_eq!(lexer.next_token(), Token::new(TokenType::Eof, "EOF", Location { absolute: 3 }));
    assert!(lexer.next().is_none());
}

#[test]
fn location_counts_octets() {
    let tokens = all_tokens("\u{20ac}\u{1F600}x");
    assert_eq!(tokens[0].location(), Location { absolute: 0 });
    assert_eq!(tokens[1].location(), Location { absolute: 3 });
    assert_eq!(tokens[2].location(), Location { absolute: 7 });
}
