//! The terminal symbols of the armor grammar.

use crate::text::{str_eq, to_chars};
use vstd::prelude::*;

verus! {

/// The kind of a token.
#[derive(Copy, Clone, Debug, PartialEq, Eq, Structural)]
pub enum TokenType {
    /// The pad of radix-64, `=`.
    Pad,
    /// `/`.
    ForwardSlash,
    /// `:` where no space follows it.
    Colon,
    /// `,`.
    Comma,
    /// One of `0` to `9`.
    Digit,
    /// One ASCII letter.
    Letter,
    /// `+`.
    PlusSign,
    /// One space or tab.
    WhiteSpace,
    /// One character of no other kind.
    OtherUtf8,
    /// `: `, which parts a header's key from its value.
    ColonSpace,
    /// One line feed or carriage return.
    NewLine,
    /// `-----`.
    FiveDashes,
    /// `BEGIN `, with its space.
    Begin,
    /// `END `, with its space.
    End,
    /// The header key `Version`.
    Version,
    /// The header key `Comment`.
    Comment,
    /// The header key `MessageID`.
    MessageID,
    /// The header key `Hash`.
    Hash,
    /// The header key `Charset`.
    Charset,
    /// The end of a line together with a following line that holds
    /// nothing but spaces and tabs.
    BlankLine,
    /// `PGP MESSAGE`.
    PGPMessage,
    /// `PGP PUBLIC KEY BLOCK`.
    PGPPublicKeyBlock,
    /// `PGP PRIVATE KEY BLOCK`.
    PGPPrivateKeyBlock,
    /// `PGP MESSAGE, PART `, with its space.
    PGPMessagePart,
    /// `PGP SIGNATURE`.
    PGPSignature,
    /// The end of the input.
    Eof,
}

impl TokenType {
    /// The text of a token of this kind, where the kind has one text that
    /// stands for it. A line feed stands for `NewLine` and a space for
    /// `WhiteSpace`; the kinds `Digit`, `Letter`, `OtherUtf8` and
    /// `BlankLine` have none.
    pub open spec fn lexeme(self) -> Option<Seq<char>> {
        match self {
            TokenType::Pad => Some("="@),
            TokenType::ForwardSlash => Some("/"@),
            TokenType::Colon => Some(":"@),
            TokenType::Comma => Some(","@),
            TokenType::PlusSign => Some("+"@),
            TokenType::WhiteSpace => Some(" "@),
            TokenType::ColonSpace => Some(": "@),
            TokenType::NewLine => Some("\n"@),
            TokenType::FiveDashes => Some("-----"@),
            TokenType::Begin => Some("BEGIN "@),
            TokenType::End => Some("END "@),
            TokenType::Version => Some("Version"@),
            TokenType::Comment => Some("Comment"@),
            TokenType::MessageID => Some("MessageID"@),
            TokenType::Hash => Some("Hash"@),
            TokenType::Charset => Some("Charset"@),
            TokenType::PGPMessage => Some("PGP MESSAGE"@),
            TokenType::PGPPublicKeyBlock => Some("PGP PUBLIC KEY BLOCK"@),
            TokenType::PGPPrivateKeyBlock => Some("PGP PRIVATE KEY BLOCK"@),
            TokenType::PGPMessagePart => Some("PGP MESSAGE, PART "@),
            TokenType::PGPSignature => Some("PGP SIGNATURE"@),
            TokenType::Eof => Some("EOF"@),
            _ => None,
        }
    }

    /// The text that stands for this kind, if it has one.
    pub fn armor_string(self) -> (text: Option<&'static str>)
        ensures
            match text {
                Some(t) => self.lexeme() == Some(t@),
                None => self.lexeme() is None,
            },
    {
        match self {
            TokenType::Pad => Some("="),
            TokenType::ForwardSlash => Some("/"),
            TokenType::Colon => Some(":"),
            TokenType::Comma => Some(","),
            TokenType::PlusSign => Some("+"),
            TokenType::WhiteSpace => Some(" "),
            TokenType::ColonSpace => Some(": "),
            TokenType::NewLine => Some("\n"),
            TokenType::FiveDashes => Some("-----"),
            TokenType::Begin => Some("BEGIN "),
            TokenType::End => Some("END "),
            TokenType::Version => Some("Version"),
            TokenType::Comment => Some("Comment"),
            TokenType::MessageID => Some("MessageID"),
            TokenType::Hash => Some("Hash"),
            TokenType::Charset => Some("Charset"),
            TokenType::PGPMessage => Some("PGP MESSAGE"),
            TokenType::PGPPublicKeyBlock => Some("PGP PUBLIC KEY BLOCK"),
            TokenType::PGPPrivateKeyBlock => Some("PGP PRIVATE KEY BLOCK"),
            TokenType::PGPMessagePart => Some("PGP MESSAGE, PART "),
            TokenType::PGPSignature => Some("PGP SIGNATURE"),
            TokenType::Eof => Some("EOF"),
            _ => None,
        }
    }

    /// The name of this kind as it is written out.
    pub open spec fn name(self) -> Seq<char> {
        match self {
            TokenType::Pad => "Pad"@,
            TokenType::ForwardSlash => "ForwardSlash"@,
            TokenType::Colon => "Colon"@,
            TokenType::Comma => "Comma"@,
            TokenType::Digit => "Digit"@,
            TokenType::Letter => "Letter"@,
            TokenType::PlusSign => "PlusSign"@,
            TokenType::WhiteSpace => "WhiteSpace"@,
            TokenType::OtherUtf8 => "OtherUtf8"@,
            TokenType::ColonSpace => "ColonSpace"@,
            TokenType::NewLine => "NewLine"@,
            TokenType::FiveDashes => "FiveDashes"@,
            TokenType::Begin => "Begin"@,
            TokenType::End => "End"@,
            TokenType::Version => "Version"@,
            TokenType::Comment => "Comment"@,
            TokenType::MessageID => "MessageID"@,
            TokenType::Hash => "Hash"@,
            TokenType::Charset => "Charset"@,
            TokenType::BlankLine => "BlankLine"@,
            TokenType::PGPMessage => "PGPMessage"@,
            TokenType::PGPPublicKeyBlock => "PGPPublicKeyBlock"@,
            TokenType::PGPPrivateKeyBlock => "PGPPrivateKeyBlock"@,
            TokenType::PGPMessagePart => "PGPMessagePart"@,
            TokenType::PGPSignature => "PGPSignature"@,
            TokenType::Eof => "EOF"@,
        }
    }

    fn name_str(self) -> (name: &'static str)
        ensures
            name@ == self.name(),
    {
        match self {
            TokenType::Pad => "Pad",
            TokenType::ForwardSlash => "ForwardSlash",
            TokenType::Colon => "Colon",
            TokenType::Comma => "Comma",
            TokenType::Digit => "Digit",
            TokenType::Letter => "Letter",
            TokenType::PlusSign => "PlusSign",
            TokenType::WhiteSpace => "WhiteSpace",
            TokenType::OtherUtf8 => "OtherUtf8",
            TokenType::ColonSpace => "ColonSpace",
            TokenType::NewLine => "NewLine",
            TokenType::FiveDashes => "FiveDashes",
            TokenType::Begin => "Begin",
            TokenType::End => "End",
            TokenType::Version => "Version",
            TokenType::Comment => "Comment",
            TokenType::MessageID => "MessageID",
            TokenType::Hash => "Hash",
            TokenType::Charset => "Charset",
            TokenType::BlankLine => "BlankLine",
            TokenType::PGPMessage => "PGPMessage",
            TokenType::PGPPublicKeyBlock => "PGPPublicKeyBlock",
            TokenType::PGPPrivateKeyBlock => "PGPPrivateKeyBlock",
            TokenType::PGPMessagePart => "PGPMessagePart",
            TokenType::PGPSignature => "PGPSignature",
            TokenType::Eof => "EOF",
        }
    }
}

/// The kind that the text `text` stands for, if it stands for one: the
/// inverse of `lexeme`, with a carriage return for `NewLine` and a tab for
/// `WhiteSpace` besides.
pub open spec fn token_type_of(text: Seq<char>) -> Option<TokenType> {
    if text == "="@ {
        Some(TokenType::Pad)
    } else if text == "/"@ {
        Some(TokenType::ForwardSlash)
    } else if text == ":"@ {
        Some(TokenType::Colon)
    } else if text == ","@ {
        Some(TokenType::Comma)
    } else if text == "+"@ {
        Some(TokenType::PlusSign)
    } else if text == " "@ {
        Some(TokenType::WhiteSpace)
    } else if text == "\t"@ {
        Some(TokenType::WhiteSpace)
    } else if text == ": "@ {
        Some(TokenType::ColonSpace)
    } else if text == "\n"@ {
        Some(TokenType::NewLine)
    } else if text == "\r"@ {
        Some(TokenType::NewLine)
    } else if text == "-----"@ {
        Some(TokenType::FiveDashes)
    } else if text == "BEGIN "@ {
        Some(TokenType::Begin)
    } else if text == "END "@ {
        Some(TokenType::End)
    } else if text == "Version"@ {
        Some(TokenType::Version)
    } else if text == "Comment"@ {
        Some(TokenType::Comment)
    } else if text == "MessageID"@ {
        Some(TokenType::MessageID)
    } else if text == "Hash"@ {
        Some(TokenType::Hash)
    } else if text == "Charset"@ {
        Some(TokenType::Charset)
    } else if text == "EOF"@ {
        Some(TokenType::Eof)
    } else if text == "PGP MESSAGE"@ {
        Some(TokenType::PGPMessage)
    } else if text == "PGP PUBLIC KEY BLOCK"@ {
        Some(TokenType::PGPPublicKeyBlock)
    } else if text == "PGP PRIVATE KEY BLOCK"@ {
        Some(TokenType::PGPPrivateKeyBlock)
    } else if text == "PGP MESSAGE, PART "@ {
        Some(TokenType::PGPMessagePart)
    } else if text == "PGP SIGNATURE"@ {
        Some(TokenType::PGPSignature)
    } else {
        None
    }
}

/// The kind of token that `token_string` stands for, if it stands for one.
pub fn string_to_token_type(token_string: &str) -> (kind: Option<TokenType>)
    ensures
        kind == token_type_of(token_string@),
{
    if str_eq(token_string, "=") {
        Some(TokenType::Pad)
    } else if str_eq(token_string, "/") {
        Some(TokenType::ForwardSlash)
    } else if str_eq(token_string, ":") {
        Some(TokenType::Colon)
    } else if str_eq(token_string, ",") {
        Some(TokenType::Comma)
    } else if str_eq(token_string, "+") {
        Some(TokenType::PlusSign)
    } else if str_eq(token_string, " ") {
        Some(TokenType::WhiteSpace)
    } else if str_eq(token_string, "\t") {
        Some(TokenType::WhiteSpace)
    } else if str_eq(token_string, ": ") {
        Some(TokenType::ColonSpace)
    } else if str_eq(token_string, "\n") {
        Some(TokenType::NewLine)
    } else if str_eq(token_string, "\r") {
        Some(TokenType::NewLine)
    } else if str_eq(token_string, "-----") {
        Some(TokenType::FiveDashes)
    } else if str_eq(token_string, "BEGIN ") {
        Some(TokenType::Begin)
    } else if str_eq(token_string, "END ") {
        Some(TokenType::End)
    } else if str_eq(token_string, "Version") {
        Some(TokenType::Version)
    } else if str_eq(token_string, "Comment") {
        Some(TokenType::Comment)
    } else if str_eq(token_string, "MessageID") {
        Some(TokenType::MessageID)
    } else if str_eq(token_string, "Hash") {
        Some(TokenType::Hash)
    } else if str_eq(token_string, "Charset") {
        Some(TokenType::Charset)
    } else if str_eq(token_string, "EOF") {
        Some(TokenType::Eof)
    } else if str_eq(token_string, "PGP MESSAGE") {
        Some(TokenType::PGPMessage)
    } else if str_eq(token_string, "PGP PUBLIC KEY BLOCK") {
        Some(TokenType::PGPPublicKeyBlock)
    } else if str_eq(token_string, "PGP PRIVATE KEY BLOCK") {
        Some(TokenType::PGPPrivateKeyBlock)
    } else if str_eq(token_string, "PGP MESSAGE, PART ") {
        Some(TokenType::PGPMessagePart)
    } else if str_eq(token_string, "PGP SIGNATURE") {
        Some(TokenType::PGPSignature)
    } else {
        None
    }
}

/// A place in the input: the number of octets of UTF-8 that stand before it.
#[derive(Copy, Clone, PartialEq, Eq, Debug, Structural)]
pub struct Location {
    /// The offset in octets from the start of the input.
    pub absolute: usize,
}

impl Location {
    /// The mark that stands for no place in the input: it lies behind every
    /// offset.
    pub fn eof() -> (location: Location)
        ensures
            location.absolute == usize::MAX,
    {
        Location { absolute: usize::MAX }
    }

    /// Moves the place `amount` octets on.
    #[inline]
    pub fn increment(&mut self, amount: usize)
        requires
            old(self).absolute + amount <= usize::MAX,
        ensures
            final(self).absolute == old(self).absolute + amount,
    {
        self.absolute = self.absolute + amount;
    }

    /// Moves the place `amount` octets back.
    #[inline]
    pub fn decrement(&mut self, amount: usize)
        requires
            amount <= old(self).absolute,
        ensures
            final(self).absolute == old(self).absolute - amount,
    {
        self.absolute = self.absolute - amount;
    }
}

/// Whether `c` ends a line: a line feed or a carriage return.
pub open spec fn is_newline_char(c: char) -> bool {
    c == '\n' || c == '\r'
}

/// Whether `c` is blank within a line: a space or a tab.
pub open spec fn is_whitespace_char(c: char) -> bool {
    c == ' ' || c == '\t'
}

/// Whether `c` is one of `0` to `9`.
pub open spec fn is_digit_char(c: char) -> bool {
    '0' <= c && c <= '9'
}

/// Whether `c` is an ASCII letter.
pub open spec fn is_letter_char(c: char) -> bool {
    ('a' <= c && c <= 'z') || ('A' <= c && c <= 'Z')
}

/// Whether `text` is the end of a line together with a following line of
/// nothing but spaces and tabs: a line end, any number of spaces and tabs,
/// and a line end again. A carriage return with a line feed right behind it
/// is one end of line and no blank line.
pub open spec fn is_blank_line(text: Seq<char>) -> bool {
    &&& text.len() >= 2
    &&& is_newline_char(text[0])
    &&& is_newline_char(text[text.len() - 1])
    &&& forall|i: int| 0 < i < text.len() - 1 ==> is_whitespace_char(#[trigger] text[i])
    &&& !(text.len() == 2 && text[0] == '\r' && text[1] == '\n')
}

/// Whether `text` can be the text of a token of kind `kind`.
pub open spec fn valid_lexeme(kind: TokenType, text: Seq<char>) -> bool {
    match kind {
        TokenType::Digit => text.len() == 1 && is_digit_char(text[0]),
        TokenType::Letter => text.len() == 1 && is_letter_char(text[0]),
        TokenType::WhiteSpace => text.len() == 1 && is_whitespace_char(text[0]),
        TokenType::OtherUtf8 => text.len() == 1,
        TokenType::NewLine => text.len() == 1 && is_newline_char(text[0]),
        TokenType::BlankLine => is_blank_line(text),
        _ => kind.lexeme() == Some(text),
    }
}

/// What a token is: its kind, its text and the place where the text begins.
pub struct TokenView {
    pub token_type: TokenType,
    pub text: Seq<char>,
    pub location: Location,
}

/// A token: a terminal symbol of the grammar as it was found in the input.
#[derive(Clone, PartialEq, Eq, Debug)]
pub struct Token {
    token_type: TokenType,
    text: String,
    location: Location,
}

impl View for Token {
    type V = TokenView;

    closed spec fn view(&self) -> TokenView {
        TokenView { token_type: self.token_type, text: self.text@, location: self.location }
    }
}

impl Token {
    /// The token of kind `token_type` with the text `text`, found at
    /// `location`.
    pub fn new(token_type: TokenType, text: &str, location: Location) -> (token: Token)
        ensures
            token@ == (TokenView { token_type, text: text@, location }),
    {
        Token { token_type: token_type, text: text.to_owned(), location: location }
    }

    /// The token of kind `token_type` whose text is the one character `ch`,
    /// found at `location`.
    pub fn from_char(token_type: TokenType, ch: char, location: Location) -> (token: Token)
        ensures
            token@ == (TokenView { token_type, text: seq![ch], location }),
    {
        let mut text = String::new();
        crate::text::push_char(&mut text, ch);
        assert(text@ =~= seq![ch]);
        Token { token_type: token_type, text: text, location: location }
    }

    /// A second token like this one.
    pub fn duplicate(&self) -> (token: Token)
        ensures
            token@ == self@,
    {
        Token::new(self.token_type, self.text.as_str(), self.location)
    }

    /// Whether the token is of kind `token_type`.
    pub fn has_token_type(&self, token_type: TokenType) -> (has: bool)
        ensures
            has == (self@.token_type == token_type),
    {
        self.token_type == token_type
    }

    /// The kind of the token.
    pub fn token_type(&self) -> (kind: TokenType)
        ensures
            kind == self@.token_type,
    {
        self.token_type
    }

    /// The place where the token's text begins.
    pub fn location(&self) -> (location: Location)
        ensures
            location == self@.location,
    {
        self.location
    }

    /// The text of the token.
    pub fn as_str(&self) -> (text: &str)
        ensures
            text@ == self@.text,
    {
        self.text.as_str()
    }

    /// The text of the token as octets of UTF-8.
    pub fn as_bytes(&self) -> (octets: &[u8])
        ensures
            octets@ == vstd::utf8::encode_utf8(self@.text),
    {
        self.text.as_str().as_bytes()
    }

    fn has_one_char(&self) -> (ch: Option<char>)
        ensures
            match ch {
                Some(c) => self@.text == seq![c],
                None => self@.text.len() != 1,
            },
    {
        let text = self.text.as_str();
        if text.unicode_len() == 1 {
            let c = text.get_char(0);
            assert(text@ =~= seq![c]);
            Some(c)
        } else {
            None
        }
    }

    fn is_pad(&self) -> (valid: bool)
        ensures
            valid == (self@.token_type == TokenType::Pad && self@.text == "="@),
    {
        (self.token_type == TokenType::Pad) && str_eq(self.text.as_str(), "=")
    }

    fn is_forwardslash(&self) -> (valid: bool)
        ensures
            valid == (self@.token_type == TokenType::ForwardSlash && self@.text == "/"@),
    {
        (self.token_type == TokenType::ForwardSlash) && str_eq(self.text.as_str(), "/")
    }

    fn is_colon(&self) -> (valid: bool)
        ensures
            valid == (self@.token_type == TokenType::Colon && self@.text == ":"@),
    {
        (self.token_type == TokenType::Colon) && str_eq(self.text.as_str(), ":")
    }

    fn is_comma(&self) -> (valid: bool)
        ensures
            valid == (self@.token_type == TokenType::Comma && self@.text == ","@),
    {
        (self.token_type == TokenType::Comma) && str_eq(self.text.as_str(), ",")
    }

    fn is_plussign(&self) -> (valid: bool)
        ensures
            valid == (self@.token_type == TokenType::PlusSign && self@.text == "+"@),
    {
        (self.token_type == TokenType::PlusSign) && str_eq(self.text.as_str(), "+")
    }

    fn is_colonspace(&self) -> (valid: bool)
        ensures
            valid == (self@.token_type == TokenType::ColonSpace && self@.text == ": "@),
    {
        (self.token_type == TokenType::ColonSpace) && str_eq(self.text.as_str(), ": ")
    }

    fn is_fivedashes(&self) -> (valid: bool)
        ensures
            valid == (self@.token_type == TokenType::FiveDashes && self@.text == "-----"@),
    {
        (self.token_type == TokenType::FiveDashes) && str_eq(self.text.as_str(), "-----")
    }

    fn is_begin(&self) -> (valid: bool)
        ensures
            valid == (self@.token_type == TokenType::Begin && self@.text == "BEGIN "@),
    {
        (self.token_type == TokenType::Begin) && str_eq(self.text.as_str(), "BEGIN ")
    }

    fn is_end(&self) -> (valid: bool)
        ensures
            valid == (self@.token_type == TokenType::End && self@.text == "END "@),
    {
        (self.token_type == TokenType::End) && str_eq(self.text.as_str(), "END ")
    }

    fn is_version(&self) -> (valid: bool)
        ensures
            valid == (self@.token_type == TokenType::Version && self@.text == "Version"@),
    {
        (self.token_type == TokenType::Version) && str_eq(self.text.as_str(), "Version")
    }

    fn is_comment(&self) -> (valid: bool)
        ensures
            valid == (self@.token_type == TokenType::Comment && self@.text == "Comment"@),
    {
        (self.token_type == TokenType::Comment) && str_eq(self.text.as_str(), "Comment")
    }

    fn is_messageid(&self) -> (valid: bool)
        ensures
            valid == (self@.token_type == TokenType::MessageID && self@.text == "MessageID"@),
    {
        (self.token_type == TokenType::MessageID) && str_eq(self.text.as_str(), "MessageID")
    }

    fn is_hash(&self) -> (valid: bool)
        ensures
            valid == (self@.token_type == TokenType::Hash && self@.text == "Hash"@),
    {
        (self.token_type == TokenType::Hash) && str_eq(self.text.as_str(), "Hash")
    }

    fn is_charset(&self) -> (valid: bool)
        ensures
            valid == (self@.token_type == TokenType::Charset && self@.text == "Charset"@),
    {
        (self.token_type == TokenType::Charset) && str_eq(self.text.as_str(), "Charset")
    }

    fn is_pgp_message(&self) -> (valid: bool)
        ensures
            valid == (self@.token_type == TokenType::PGPMessage && self@.text == "PGP MESSAGE"@),
    {
        (self.token_type == TokenType::PGPMessage) && str_eq(self.text.as_str(), "PGP MESSAGE")
    }

    fn is_pgp_publickey_block(&self) -> (valid: bool)
        ensures
            valid == (self@.token_type == TokenType::PGPPublicKeyBlock
                && self@.text == "PGP PUBLIC KEY BLOCK"@),
    {
        (self.token_type == TokenType::PGPPublicKeyBlock)
            && str_eq(self.text.as_str(), "PGP PUBLIC KEY BLOCK")
    }

    fn is_pgp_privatekey_block(&self) -> (valid: bool)
        ensures
            valid == (self@.token_type == TokenType::PGPPrivateKeyBlock
                && self@.text == "PGP PRIVATE KEY BLOCK"@),
    {
        (self.token_type == TokenType::PGPPrivateKeyBlock)
            && str_eq(self.text.as_str(), "PGP PRIVATE KEY BLOCK")
    }

    fn is_pgp_message_part(&self) -> (valid: bool)
        ensures
            valid == (self@.token_type == TokenType::PGPMessagePart
                && self@.text == "PGP MESSAGE, PART "@),
    {
        (self.token_type == TokenType::PGPMessagePart)
            && str_eq(self.text.as_str(), "PGP MESSAGE, PART ")
    }

    fn is_pgp_signature(&self) -> (valid: bool)
        ensures
            valid == (self@.token_type == TokenType::PGPSignature
                && self@.text == "PGP SIGNATURE"@),
    {
        (self.token_type == TokenType::PGPSignature) && str_eq(self.text.as_str(), "PGP SIGNATURE")
    }

    fn is_eof(&self) -> (valid: bool)
        ensures
            valid == (self@.token_type == TokenType::Eof && self@.text == "EOF"@),
    {
        (self.token_type == TokenType::Eof) && str_eq(self.text.as_str(), "EOF")
    }

    fn is_digit(&self) -> (valid: bool)
        ensures
            valid == (self@.token_type == TokenType::Digit && self@.text.len() == 1
                && is_digit_char(self@.text[0])),
    {
        (self.token_type == TokenType::Digit) && match self.has_one_char() {
            Some(c) => c >= '0' && c <= '9',
            None => false,
        }
    }

    fn is_letter(&self) -> (valid: bool)
        ensures
            valid == (self@.token_type == TokenType::Letter && self@.text.len() == 1
                && is_letter_char(self@.text[0])),
    {
        (self.token_type == TokenType::Letter) && match self.has_one_char() {
            Some(c) => (c >= 'a' && c <= 'z') || (c >= 'A' && c <= 'Z'),
            None => false,
        }
    }

    fn is_whitespace(&self) -> (valid: bool)
        ensures
            valid == (self@.token_type == TokenType::WhiteSpace && self@.text.len() == 1
                && is_whitespace_char(self@.text[0])),
    {
        (self.token_type == TokenType::WhiteSpace) && match self.has_one_char() {
            Some(c) => c == ' ' || c == '\t',
            None => false,
        }
    }

    fn is_other_utf8(&self) -> (valid: bool)
        ensures
            valid == (self@.token_type == TokenType::OtherUtf8 && self@.text.len() == 1),
    {
        (self.token_type == TokenType::OtherUtf8) && self.has_one_char().is_some()
    }

    fn is_newline(&self) -> (valid: bool)
        ensures
            valid == (self@.token_type == TokenType::NewLine && self@.text.len() == 1
                && is_newline_char(self@.text[0])),
    {
        (self.token_type == TokenType::NewLine) && match self.has_one_char() {
            Some(c) => c == '\n' || c == '\r',
            None => false,
        }
    }

    fn is_blankline(&self) -> (valid: bool)
        ensures
            valid == (self@.token_type == TokenType::BlankLine && is_blank_line(self@.text)),
    {
        let chars = to_chars(self.text.as_str());
        let n = chars.len();
        if n < 2 {
            return false;
        }
        match chars[0] {
            '\n' | '\r' => {},
            _ => {
                return false;
            },
        }
        let mut i: usize = 1;
        while i < n - 1
            invariant
                1 <= i <= n - 1,
                n == chars@.len(),
                chars@ == self@.text,
                forall|j: int| 0 < j < i ==> is_whitespace_char(#[trigger] chars@[j]),
            decreases n - i,
        {
            match chars[i] {
                ' ' | '\t' => {},
                _ => {
                    return false;
                },
            }
            i = i + 1;
        }
        match chars[n - 1] {
            '\n' | '\r' => {},
            _ => {
                return false;
            },
        }
        if n == 2 && chars[0] == '\r' && chars[1] == '\n' {
            return false;
        }
        self.token_type == TokenType::BlankLine
    }

    /// Whether the text of the token can be the text of a token of its kind.
    pub fn is_valid_token(&self) -> (valid: bool)
        ensures
            valid == valid_lexeme(self@.token_type, self@.text),
    {
        match self.token_type {
            TokenType::Pad => self.is_pad(),
            TokenType::ForwardSlash => self.is_forwardslash(),
            TokenType::Colon => self.is_colon(),
            TokenType::Comma => self.is_comma(),
            TokenType::Digit => self.is_digit(),
            TokenType::Letter => self.is_letter(),
            TokenType::PlusSign => self.is_plussign(),
            TokenType::WhiteSpace => self.is_whitespace(),
            TokenType::OtherUtf8 => self.is_other_utf8(),
            TokenType::ColonSpace => self.is_colonspace(),
            TokenType::NewLine => self.is_newline(),
            TokenType::FiveDashes => self.is_fivedashes(),
            TokenType::Begin => self.is_begin(),
            TokenType::End => self.is_end(),
            TokenType::Version => self.is_version(),
            TokenType::Comment => self.is_comment(),
            TokenType::MessageID => self.is_messageid(),
            TokenType::Hash => self.is_hash(),
            TokenType::Charset => self.is_charset(),
            TokenType::BlankLine => self.is_blankline(),
            TokenType::PGPMessage => self.is_pgp_message(),
            TokenType::PGPPublicKeyBlock => self.is_pgp_publickey_block(),
            TokenType::PGPPrivateKeyBlock => self.is_pgp_privatekey_block(),
            TokenType::PGPMessagePart => self.is_pgp_message_part(),
            TokenType::PGPSignature => self.is_pgp_signature(),
            TokenType::Eof => self.is_eof(),
        }
    }

    /// The token written out: the name of its kind, then its text between
    /// quotes and brackets.
    pub fn to_string(&self) -> (shown: String)
        ensures
            shown@ == self@.token_type.name() + "(\""@ + self@.text + "\")"@,
    {
        let mut shown = String::from_str(self.token_type.name_str());
        shown.append("(\"");
        shown.append(self.text.as_str());
        shown.append("\")");
        shown
    }
}

} // verus!
