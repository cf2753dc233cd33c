use pgp_armor::armor_lexer::{
    armor_lexer, colon, comma, digit, equal_sign, forward_slash, inner_armor_lexer,
    is_other_utf8, lowercase_letter, newline, other_utf8, uppercase_letter, whitespace,
    ArmorToken,
};

fn ascii_armored_data() -> String {
    String::from(
        "-----BEGIN PGP MESSAGE-----\n\
         Version: OpenPrivacy 0.99\n\
         \n\
         yDgBO22WxBHv7O8X7O/jygAEzol56iUKiXmV+XmpCtmpqQUKiQrFqclFqUDBovzS\n\
         vBSFjNSiVHsuAA==\n\
         =njUN\n\
         -----END PGP MESSAGE-----",
    )
}

#[test]
fn armor_lexer_test_armor_lexer() {
    let armored_data = ascii_armored_data();

    let result = armor_lexer(armored_data.as_ref());

    assert!(result.is_some());
}

#[test]
fn lexer_primitives_test_armor_lexer() {}

#[test]
fn armor_lexer_tests_test_armor_lexer() {
    let armored_data = ascii_armored_data();
    let tokens = armor_lexer(&armored_data).unwrap();

    for (token, ch) in tokens.iter().zip(armored_data.chars()) {
        let one = ch.to_string();
        assert_eq!(inner_armor_lexer(&one), Some((*token, "")));
    }
}

#[test]
fn every_character_gets_one_token() {
    let armored_data = ascii_armored_data();
    let tokens = armor_lexer(&armored_data).unwrap();
    assert_eq!(tokens.len(), armored_data.chars().count());
    assert_eq!(tokens[0], ArmorToken::OtherUtf8('-'));
    assert_eq!(tokens[5], ArmorToken::UpperCaseLetter('B'));
    assert_eq!(tokens[10], ArmorToken::WhiteSpace(' '));
    assert_eq!(tokens[27], ArmorToken::WhiteSpace('\n'));
}

#[test]
fn empty_input_has_no_tokens() {
    assert_eq!(armor_lexer(""), None);
    assert_eq!(inner_armor_lexer(""), None);
}

#[test]
fn each_class_takes_its_own_characters() {
    assert_eq!(uppercase_letter("Ab"), Some((ArmorToken::UpperCaseLetter('A'), "b")));
    assert_eq!(uppercase_letter("ab"), None);
    assert_eq!(lowercase_letter("ab"), Some((ArmorToken::LowerCaseLetter('a'), "b")));
    assert_eq!(lowercase_letter("Ab"), None);
    assert_eq!(equal_sign("=x"), Some((ArmorToken::EqualSign('='), "x")));
    assert_eq!(equal_sign("x="), None);
    assert_eq!(colon(": "), Some((ArmorToken::Colon(':'), " ")));
    assert_eq!(colon(" :"), None);
    assert_eq!(digit("42"), Some((ArmorToken::Digit('4'), "2")));
    assert_eq!(digit("x2"), None);
    assert_eq!(whitespace(" x"), Some((ArmorToken::WhiteSpace(' '), "x")));
    assert_eq!(whitespace("x "), None);
    assert_eq!(comma(",x"), Some((ArmorToken::Comma(','), "x")));
    assert_eq!(comma("x,"), None);
    assert_eq!(forward_slash("/x"), Some((ArmorToken::ForwardSlash('/'), "x")));
    assert_eq!(forward_slash("x/"), None);
    assert_eq!(newline("\nx"), Some((ArmorToken::NewLine('\n'), "x")));
    assert_eq!(newline("\rx"), None);
    assert_eq!(other_utf8("+x"), Some((ArmorToken::OtherUtf8('+'), "x")));
    assert_eq!(other_utf8("x+"), None);
}

#[test]
fn the_first_class_that_fits_is_taken() {
    assert_eq!(inner_armor_lexer("Q"), Some((ArmorToken::UpperCaseLetter('Q'), "")));
    assert_eq!(inner_armor_lexer("q"), Some((ArmorToken::LowerCaseLetter('q'), "")));
    assert_eq!(inner_armor_lexer("="), Some((ArmorToken::EqualSign('='), "")));
    assert_eq!(inner_armor_lexer(":"), Some((ArmorToken::Colon(':'), "")));
    assert_eq!(inner_armor_lexer("7"), Some((ArmorToken::Digit('7'), "")));
    // A tab and a line feed are white space and come before the line feed
    // of its own class.
    assert_eq!(inner_armor_lexer("\t"), Some((ArmorToken::WhiteSpace('\t'), "")));
    assert_eq!(inner_armor_lexer("\n"), Some((ArmorToken::WhiteSpace('\n'), "")));
    assert_eq!(inner_armor_lexer(","), Some((ArmorToken::Comma(','), "")));
    assert_eq!(inner_armor_lexer("/"), Some((ArmorToken::ForwardSlash('/'), "")));
    assert_eq!(inner_armor_lexer("+"), Some((ArmorToken::OtherUtf8('+'), "")));
    assert_eq!(inner_armor_lexer("\u{394}"), Some((ArmorToken::UpperCaseLetter('\u{394}'), "")));
}

#[test]
fn other_is_what_no_class_takes() {
    assert!(is_other_utf8('+'));
    assert!(is_other_utf8('-'));
    assert!(is_other_utf8('*'));
    assert!(!is_other_utf8('a'));
    assert!(!is_other_utf8('A'));
    assert!(!is_other_utf8('0'));
    assert!(!is_other_utf8(' '));
    assert!(!is_other_utf8('\t'));
    assert!(!is_other_utf8('\n'));
    assert!(!is_other_utf8('\r'));
    assert!(!is_other_utf8('/'));
    assert!(!is_other_utf8(','));
    assert!(!is_other_utf8(':'));
    assert!(!is_other_utf8('='));
}
