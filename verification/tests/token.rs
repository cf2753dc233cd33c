use pgp_armor::message::{ArmorHeader, HeaderLineType};
use pgp_armor::text::{from_chars, push_str, str_eq, to_chars};
use pgp_armor::token::{string_to_token_type, Location, Token, TokenType};

const ALL: [TokenType; 26] = [
    TokenType::Pad,
    TokenType::ForwardSlash,
    TokenType::Colon,
    TokenType::Comma,
    TokenType::Digit,
    TokenType::Letter,
    TokenType::PlusSign,
    TokenType::WhiteSpace,
    TokenType::OtherUtf8,
    TokenType::ColonSpace,
    TokenType::NewLine,
    TokenType::FiveDashes,
    TokenType::Begin,
    TokenType::End,
    TokenType::Version,
    TokenType::Comment,
    TokenType::MessageID,
    TokenType::Hash,
    TokenType::Charset,
    TokenType::BlankLine,
    TokenType::PGPMessage,
    TokenType::PGPPublicKeyBlock,
    TokenType::PGPPrivateKeyBlock,
    TokenType::PGPMessagePart,
    TokenType::PGPSignature,
    TokenType::Eof,
];

fn at(absolute: usize) -> Location {
    Location { absolute }
}

#[test]
fn text_of_each_kind() {
    assert_eq!(TokenType::Pad.armor_string(), Some("="));
    assert_eq!(TokenType::ForwardSlash.armor_string(), Some("/"));
    assert_eq!(TokenType::Colon.armor_string(), Some(":"));
    assert_eq!(TokenType::Comma.armor_string(), Some(","));
    assert_eq!(TokenType::PlusSign.armor_string(), Some("+"));
    assert_eq!(TokenType::WhiteSpace.armor_string(), Some(" "));
    assert_eq!(TokenType::ColonSpace.armor_string(), Some(": "));
    assert_eq!(TokenType::NewLine.armor_string(), Some("\n"));
    assert_eq!(TokenType::FiveDashes.armor_string(), Some("-----"));
    assert_eq!(TokenType::Begin.armor_string(), Some("BEGIN "));
    assert_eq!(TokenType::End.armor_string(), Some("END "));
    assert_eq!(TokenType::Version.armor_string(), Some("Version"));
    assert_eq!(TokenType::Comment.armor_string(), Some("Comment"));
    assert_eq!(TokenType::MessageID.armor_string(), Some("MessageID"));
    assert_eq!(TokenType::Hash.armor_string(), Some("Hash"));
    assert_eq!(TokenType::Charset.armor_string(), Some("Charset"));
    assert_eq!(TokenType::Eof.armor_string(), Some("EOF"));
    assert_eq!(TokenType::PGPMessage.armor_string(), Some("PGP MESSAGE"));
    assert_eq!(TokenType::PGPPublicKeyBlock.armor_string(), Some("PGP PUBLIC KEY BLOCK"));
    assert_eq!(TokenType::PGPPrivateKeyBlock.armor_string(), Some("PGP PRIVATE KEY BLOCK"));
    assert_eq!(TokenType::PGPMessagePart.armor_string(), Some("PGP MESSAGE, PART "));
    assert_eq!(TokenType::PGPSignature.armor_string(), Some("PGP SIGNATURE"));
    assert_eq!(TokenType::Digit.armor_string(), None);
    assert_eq!(TokenType::Letter.armor_string(), None);
    assert_eq!(TokenType::OtherUtf8.armor_string(), None);
    assert_eq!(TokenType::BlankLine.armor_string(), None);
}

#[test]
fn kind_of_each_text() {
    for kind in ALL {
        if let Some(text) = kind.armor_string() {
            assert_eq!(string_to_token_type(text), Some(kind));
        }
    }
    assert_eq!(string_to_token_type("\r"), Some(TokenType::NewLine));
    assert_eq!(string_to_token_type("\t"), Some(TokenType::WhiteSpace));
    assert_eq!(string_to_token_type("7"), None);
    assert_eq!(string_to_token_type("x"), None);
    assert_eq!(string_to_token_type(""), None);
    assert_eq!(string_to_token_type("BEGIN"), None);
    assert_eq!(string_to_token_type("version"), None);
    assert_eq!(string_to_token_type("\n\n"), None);
}

#[test]
fn token_holds_what_it_was_made_of() {
    let token = Token::new(TokenType::Hash, "Hash", at(7));
    assert_eq!(token.token_type(), TokenType::Hash);
    assert!(token.has_token_type(TokenType::Hash));
    assert!(!token.has_token_type(TokenType::Letter));
    assert_eq!(token.as_str(), "Hash");
    assert_eq!(token.as_bytes(), b"Hash");
    assert_eq!(token.location(), at(7));
    assert_eq!(token.duplicate(), token);
    let token = Token::from_char(TokenType::OtherUtf8, '\u{20ac}', at(0));
    assert_eq!(token.as_str(), "\u{20ac}");
    assert_eq!(token.as_bytes(), [0xE2, 0x82, 0xAC]);
    assert_eq!(token, Token::new(TokenType::OtherUtf8, "\u{20ac}", at(0)));
}

#[test]
fn token_written_out() {
    assert_eq!(Token::new(TokenType::Pad, "=", at(0)).to_string(), "Pad(\"=\")");
    assert_eq!(Token::new(TokenType::Eof, "EOF", at(0)).to_string(), "EOF(\"EOF\")");
    assert_eq!(
        Token::new(TokenType::PGPPublicKeyBlock, "PGP PUBLIC KEY BLOCK", at(0)).to_string(),
        "PGPPublicKeyBlock(\"PGP PUBLIC KEY BLOCK\")"
    );
    assert_eq!(Token::new(TokenType::NewLine, "\n", at(0)).to_string(), "NewLine(\"\n\")");
    assert_eq!(Token::from_char(TokenType::Letter, 'q', at(0)).to_string(), "Letter(\"q\")");
}

fn valid(kind: TokenType, text: &str) -> bool {
    Token::new(kind, text, at(0)).is_valid_token()
}

#[test]
fn valid_tokens() {
    for kind in ALL {
        if let Some(text) = kind.armor_string() {
            assert!(valid(kind, text), "{:?}", kind);
            assert!(!valid(kind, ""), "{:?}", kind);
            assert!(!valid(kind, "??"), "{:?}", kind);
        }
    }
    assert!(valid(TokenType::Digit, "0"));
    assert!(valid(TokenType::Digit, "9"));
    assert!(!valid(TokenType::Digit, "a"));
    assert!(!valid(TokenType::Digit, "10"));
    assert!(valid(TokenType::Letter, "a"));
    assert!(valid(TokenType::Letter, "Z"));
    assert!(!valid(TokenType::Letter, "1"));
    assert!(!valid(TokenType::Letter, "\u{e9}"));
    assert!(!valid(TokenType::Letter, "ab"));
    assert!(valid(TokenType::WhiteSpace, " "));
    assert!(valid(TokenType::WhiteSpace, "\t"));
    assert!(!valid(TokenType::WhiteSpace, "\n"));
    assert!(valid(TokenType::NewLine, "\n"));
    assert!(valid(TokenType::NewLine, "\r"));
    assert!(!valid(TokenType::NewLine, "\r\n"));
    assert!(valid(TokenType::OtherUtf8, "*"));
    assert!(valid(TokenType::OtherUtf8, "\u{1F600}"));
    assert!(!valid(TokenType::OtherUtf8, ""));
    assert!(!valid(TokenType::OtherUtf8, "**"));
    assert!(valid(TokenType::BlankLine, "\n\n"));
    assert!(valid(TokenType::BlankLine, "\r\r"));
    assert!(valid(TokenType::BlankLine, "\n\r"));
    assert!(valid(TokenType::BlankLine, "\n \t \n"));
    assert!(valid(TokenType::BlankLine, "\r \n"));
    assert!(!valid(TokenType::BlankLine, "\r\n"));
    assert!(!valid(TokenType::BlankLine, "\n"));
    assert!(!valid(TokenType::BlankLine, "\nx\n"));
    assert!(!valid(TokenType::BlankLine, " \n"));
    assert!(!valid(TokenType::BlankLine, "\n\n "));
    assert!(!valid(TokenType::BlankLine, ""));
    assert!(valid(TokenType::PGPPrivateKeyBlock, "PGP PRIVATE KEY BLOCK"));
    assert!(!valid(TokenType::PGPPublicKeyBlock, "PGP PRIVATE KEY BLOCK"));
    assert!(!valid(TokenType::Version, "Comment"));
}

#[test]
fn places() {
    assert_eq!(Location::eof(), at(usize::MAX));
    let mut place = at(5);
    place.increment(3);
    assert_eq!(place, at(8));
    place.decrement(8);
    assert_eq!(place, at(0));
    place.increment(0);
    assert_eq!(place, at(0));
}

#[test]
fn text_as_characters() {
    assert_eq!(to_chars("a\u{e9}\u{20ac}"), vec!['a', '\u{e9}', '\u{20ac}']);
    assert_eq!(to_chars(""), Vec::<char>::new());
    assert_eq!(from_chars(&['a', '\u{e9}', '\u{20ac}']), "a\u{e9}\u{20ac}");
    assert_eq!(from_chars(&[]), "");
    assert!(str_eq("abc", "abc"));
    assert!(str_eq("", ""));
    assert!(!str_eq("abc", "abd"));
    assert!(!str_eq("abc", "ab"));
    assert!(!str_eq("\u{e9}", "e"));
    let mut out = vec!['x'];
    push_str(&mut out, "y\u{e9}");
    assert_eq!(out, vec!['x', 'y', '\u{e9}']);
}

#[test]
fn keys_of_headers() {
    assert_eq!(HeaderLineType::from_name("Version"), HeaderLineType::Version);
    assert_eq!(HeaderLineType::from_name("Comment"), HeaderLineType::Comment);
    assert_eq!(HeaderLineType::from_name("MessageID"), HeaderLineType::MessageID);
    assert_eq!(HeaderLineType::from_name("Hash"), HeaderLineType::Hash);
    assert_eq!(HeaderLineType::from_name("Charset"), HeaderLineType::Charset);
    assert_eq!(
        HeaderLineType::from_name("version"),
        HeaderLineType::Other(String::from("version"))
    );
    assert_eq!(HeaderLineType::Version.name(), "Version");
    assert_eq!(HeaderLineType::Other(String::from("X-Y")).name(), "X-Y");
    assert!(HeaderLineType::Hash.same_key(&HeaderLineType::Hash));
    assert!(!HeaderLineType::Hash.same_key(&HeaderLineType::Charset));
    assert!(HeaderLineType::Other(String::from("a")).same_key(&HeaderLineType::Other(String::from("a"))));
    assert!(!HeaderLineType::Other(String::from("a")).same_key(&HeaderLineType::Other(String::from("b"))));
    assert!(HeaderLineType::Version.is_single());
    assert!(HeaderLineType::Comment.is_single());
    assert!(HeaderLineType::MessageID.is_single());
    assert!(HeaderLineType::Charset.is_single());
    assert!(!HeaderLineType::Hash.is_single());
    assert!(!HeaderLineType::Other(String::from("a")).is_single());
    let key = HeaderLineType::Other(String::from("a"));
    assert_eq!(key.duplicate(), key);
}

#[test]
fn headers_take_in_one_more() {
    let mut headers = ArmorHeader::new();
    assert_eq!(headers.len(), 0);
    assert!(!headers.add(HeaderLineType::Version, String::from("1")));
    assert!(!headers.add(HeaderLineType::Hash, String::from("a")));
    assert!(!headers.add(HeaderLineType::Hash, String::from("b")));
    assert_eq!(headers.find(&HeaderLineType::Hash), Some(1));
    assert_eq!(headers.find(&HeaderLineType::Version), Some(0));
    assert_eq!(headers.find(&HeaderLineType::Comment), None);
    assert!(headers.add(HeaderLineType::Version, String::from("2")));
    assert_eq!(
        headers.entries,
        vec![
            (HeaderLineType::Hash, String::from("a")),
            (HeaderLineType::Hash, String::from("b")),
            (HeaderLineType::Version, String::from("2")),
        ]
    );
    assert_eq!(headers.len(), 3);
}
