//! What an armor holds: the kind of its envelope, its headers, its payload
//! and its checksum; and what can be wrong with one.

use crate::text::{from_chars, push_str, str_eq};
use crate::token::Location;
use vstd::prelude::*;

verus! {

/// The kind of an envelope, as the `BEGIN` and `END` lines name it.
#[derive(Copy, Clone, Debug, PartialEq, Eq, Structural)]
pub enum ArmorType {
    /// `PGP MESSAGE`.
    Message,
    /// `PGP PUBLIC KEY BLOCK`.
    PublicKeyBlock,
    /// `PGP PRIVATE KEY BLOCK`.
    PrivateKeyBlock,
    /// `PGP SIGNATURE`.
    Signature,
    /// `PGP MESSAGE, PART x/y`: part `x` of `y` parts.
    MessagePartXofY(usize, usize),
    /// `PGP MESSAGE, PART x`: part `x` of a number of parts that is not
    /// given.
    MessagePartX(usize),
}

impl ArmorType {
    /// Whether the numbers of the parts are in order: parts count from one,
    /// and no part lies behind the last.
    pub open spec fn valid(self) -> bool {
        match self {
            ArmorType::MessagePartXofY(x, y) => 1 <= x && x <= y,
            ArmorType::MessagePartX(x) => 1 <= x,
            _ => true,
        }
    }

    /// Whether the numbers of the parts are in order.
    pub fn is_valid(self) -> (valid: bool)
        ensures
            valid == self.valid(),
    {
        match self {
            ArmorType::MessagePartXofY(x, y) => 1 <= x && x <= y,
            ArmorType::MessagePartX(x) => 1 <= x,
            _ => true,
        }
    }
}

/// The character that stands for the digit `d`.
pub open spec fn digit_char(d: int) -> char {
    (d + '0' as int) as char
}

/// The number `n` written to base ten, without leading zeros.
pub open spec fn decimal(n: nat) -> Seq<char>
    decreases n,
{
    if n < 10 {
        seq![digit_char(n as int)]
    } else {
        decimal(n / 10).push(digit_char((n % 10) as int))
    }
}

/// The number that the digits `digits` spell to base ten.
pub open spec fn decimal_value(digits: Seq<char>) -> nat
    decreases digits.len(),
{
    if digits.len() == 0 {
        0
    } else {
        decimal_value(digits.drop_last()) * 10 + (digits.last() as int - '0' as int) as nat
    }
}

/// A number written to base ten is digits throughout, begins with no zero
/// unless it is zero, and spells the number.
pub proof fn lemma_decimal(n: nat)
    ensures
        decimal(n).len() >= 1,
        forall|i: int|
            0 <= i < decimal(n).len() ==> '0' <= #[trigger] decimal(n)[i] && decimal(n)[i] <= '9',
        decimal_value(decimal(n)) == n,
        n > 0 ==> decimal(n)[0] != '0',
    decreases n,
{
    if n < 10 {
        let d = decimal(n);
        assert(d.drop_last() =~= Seq::<char>::empty());
        assert(decimal_value(d.drop_last()) == 0);
    } else {
        lemma_decimal(n / 10);
        let d = decimal(n);
        assert(d.drop_last() =~= decimal(n / 10));
    }
}

/// The label of an envelope behind `PGP `: what the `BEGIN` and `END` lines
/// say of the kind.
pub open spec fn label(kind: ArmorType) -> Seq<char> {
    match kind {
        ArmorType::Message => "MESSAGE"@,
        ArmorType::PublicKeyBlock => "PUBLIC KEY BLOCK"@,
        ArmorType::PrivateKeyBlock => "PRIVATE KEY BLOCK"@,
        ArmorType::Signature => "SIGNATURE"@,
        ArmorType::MessagePartXofY(x, y) => "MESSAGE, PART "@ + decimal(x as nat) + "/"@
            + decimal(y as nat),
        ArmorType::MessagePartX(x) => "MESSAGE, PART "@ + decimal(x as nat),
    }
}

/// The digits of `n` to base ten.
pub fn decimal_chars(n: usize) -> (digits: Vec<char>)
    ensures
        digits@ == decimal(n as nat),
    decreases n,
{
    if n < 10 {
        let mut digits: Vec<char> = Vec::new();
        digits.push((n as u8 + 48) as char);
        assert(digits@ =~= decimal(n as nat));
        digits
    } else {
        let mut digits = decimal_chars(n / 10);
        digits.push(((n % 10) as u8 + 48) as char);
        digits
    }
}

/// The label of an envelope behind `PGP `.
pub fn atype(at: ArmorType) -> (text: String)
    ensures
        text@ == label(at),
{
    let mut out: Vec<char> = Vec::new();
    match at {
        ArmorType::Message => {
            push_str(&mut out, "MESSAGE");
        },
        ArmorType::PublicKeyBlock => {
            push_str(&mut out, "PUBLIC KEY BLOCK");
        },
        ArmorType::PrivateKeyBlock => {
            push_str(&mut out, "PRIVATE KEY BLOCK");
        },
        ArmorType::Signature => {
            push_str(&mut out, "SIGNATURE");
        },
        ArmorType::MessagePartXofY(x, y) => {
            push_str(&mut out, "MESSAGE, PART ");
            let mut digits = decimal_chars(x);
            out.append(&mut digits);
            push_str(&mut out, "/");
            let mut digits = decimal_chars(y);
            out.append(&mut digits);
        },
        ArmorType::MessagePartX(x) => {
            push_str(&mut out, "MESSAGE, PART ");
            let mut digits = decimal_chars(x);
            out.append(&mut digits);
        },
    }
    assert(out@ =~= label(at));
    from_chars(out.as_slice())
}

/// The key of a header, as a value of specifications.
pub enum HeaderKey {
    Version,
    Comment,
    MessageID,
    Hash,
    Charset,
    Other(Seq<char>),
}

/// The key of a header: one of the five reserved keys, or another name.
#[derive(Clone, Debug, PartialEq, Eq)]
pub enum HeaderLineType {
    /// `Version`.
    Version,
    /// `Comment`.
    Comment,
    /// `MessageID`.
    MessageID,
    /// `Hash`.
    Hash,
    /// `Charset`.
    Charset,
    /// A name that is none of the reserved keys.
    Other(String),
}

impl View for HeaderLineType {
    type V = HeaderKey;

    open spec fn view(&self) -> HeaderKey {
        match self {
            HeaderLineType::Version => HeaderKey::Version,
            HeaderLineType::Comment => HeaderKey::Comment,
            HeaderLineType::MessageID => HeaderKey::MessageID,
            HeaderLineType::Hash => HeaderKey::Hash,
            HeaderLineType::Charset => HeaderKey::Charset,
            HeaderLineType::Other(name) => HeaderKey::Other(name@),
        }
    }
}

/// Whether `c` may stand in the name of a header: an ASCII letter, a digit
/// or a hyphen.
pub open spec fn is_name_char(c: char) -> bool {
    ('a' <= c && c <= 'z') || ('A' <= c && c <= 'Z') || ('0' <= c && c <= '9') || c == '-'
}

/// Whether `name` can be the name of a header: a letter or a digit, then
/// letters, digits and hyphens.
pub open spec fn valid_name(name: Seq<char>) -> bool {
    &&& name.len() >= 1
    &&& name[0] != '-'
    &&& forall|i: int| 0 <= i < name.len() ==> is_name_char(#[trigger] name[i])
}

/// The key that the name `name` stands for: a reserved key where it is the
/// name of one, else `Other` with that name.
pub open spec fn key_of(name: Seq<char>) -> HeaderKey {
    if name == "Version"@ {
        HeaderKey::Version
    } else if name == "Comment"@ {
        HeaderKey::Comment
    } else if name == "MessageID"@ {
        HeaderKey::MessageID
    } else if name == "Hash"@ {
        HeaderKey::Hash
    } else if name == "Charset"@ {
        HeaderKey::Charset
    } else {
        HeaderKey::Other(name)
    }
}

/// The name that stands for `key` in a header line.
pub open spec fn name_of(key: HeaderKey) -> Seq<char> {
    match key {
        HeaderKey::Version => "Version"@,
        HeaderKey::Comment => "Comment"@,
        HeaderKey::MessageID => "MessageID"@,
        HeaderKey::Hash => "Hash"@,
        HeaderKey::Charset => "Charset"@,
        HeaderKey::Other(name) => name,
    }
}

/// Whether `key` is as it should be: an `Other` holds a name that can be
/// the name of a header and is the name of no reserved key.
pub open spec fn valid_key(key: HeaderKey) -> bool {
    match key {
        HeaderKey::Other(name) => valid_name(name) && key_of(name) == key,
        _ => true,
    }
}

impl HeaderLineType {
    /// The key that `name` stands for.
    pub fn from_name(name: &str) -> (key: HeaderLineType)
        ensures
            key@ == key_of(name@),
    {
        if str_eq(name, "Version") {
            HeaderLineType::Version
        } else if str_eq(name, "Comment") {
            HeaderLineType::Comment
        } else if str_eq(name, "MessageID") {
            HeaderLineType::MessageID
        } else if str_eq(name, "Hash") {
            HeaderLineType::Hash
        } else if str_eq(name, "Charset") {
            HeaderLineType::Charset
        } else {
            HeaderLineType::Other(name.to_owned())
        }
    }

    /// The name that stands for the key in a header line.
    pub fn name(&self) -> (name: &str)
        ensures
            name@ == name_of(self@),
    {
        match self {
            HeaderLineType::Version => "Version",
            HeaderLineType::Comment => "Comment",
            HeaderLineType::MessageID => "MessageID",
            HeaderLineType::Hash => "Hash",
            HeaderLineType::Charset => "Charset",
            HeaderLineType::Other(name) => name.as_str(),
        }
    }

    /// A second key like this one.
    pub fn duplicate(&self) -> (key: HeaderLineType)
        ensures
            key@ == self@,
    {
        match self {
            HeaderLineType::Version => HeaderLineType::Version,
            HeaderLineType::Comment => HeaderLineType::Comment,
            HeaderLineType::MessageID => HeaderLineType::MessageID,
            HeaderLineType::Hash => HeaderLineType::Hash,
            HeaderLineType::Charset => HeaderLineType::Charset,
            HeaderLineType::Other(name) => HeaderLineType::Other(name.as_str().to_owned()),
        }
    }

    /// Whether this key and `other` are the same key.
    pub fn same_key(&self, other: &HeaderLineType) -> (same: bool)
        ensures
            same == (self@ == other@),
    {
        match (self, other) {
            (HeaderLineType::Version, HeaderLineType::Version) => true,
            (HeaderLineType::Comment, HeaderLineType::Comment) => true,
            (HeaderLineType::MessageID, HeaderLineType::MessageID) => true,
            (HeaderLineType::Hash, HeaderLineType::Hash) => true,
            (HeaderLineType::Charset, HeaderLineType::Charset) => true,
            (HeaderLineType::Other(a), HeaderLineType::Other(b)) => str_eq(
                a.as_str(),
                b.as_str(),
            ),
            _ => false,
        }
    }

    /// Whether the key is one of which a second header replaces the first:
    /// a reserved key other than `Hash`.
    pub fn is_single(&self) -> (single: bool)
        ensures
            single == is_single_key(self@),
    {
        match self {
            HeaderLineType::Version => true,
            HeaderLineType::Comment => true,
            HeaderLineType::MessageID => true,
            HeaderLineType::Charset => true,
            _ => false,
        }
    }
}

/// Whether `key` is one of which a second header replaces the first: a
/// reserved key other than `Hash`.
pub open spec fn is_single_key(key: HeaderKey) -> bool {
    key == HeaderKey::Version || key == HeaderKey::Comment || key == HeaderKey::MessageID || key
        == HeaderKey::Charset
}

/// A header as a value of specifications: its key and its value.
pub type HeaderView = (HeaderKey, Seq<char>);

/// The index of the first header with the key `key`, or -1 where there is
/// none.
pub open spec fn index_of_key(headers: Seq<HeaderView>, key: HeaderKey) -> int
    decreases headers.len(),
{
    if headers.len() == 0 {
        -1
    } else if index_of_key(headers.drop_last(), key) >= 0 {
        index_of_key(headers.drop_last(), key)
    } else if headers.last().0 == key {
        headers.len() - 1
    } else {
        -1
    }
}

/// `index_of_key` is the least index that holds the key.
pub proof fn lemma_index_of_key(headers: Seq<HeaderView>, key: HeaderKey)
    ensures
        -1 <= index_of_key(headers, key) < headers.len(),
        index_of_key(headers, key) >= 0 ==> headers[index_of_key(headers, key)].0 == key,
        forall|i: int|
            0 <= i < headers.len() && (index_of_key(headers, key) < 0 || i < index_of_key(
                headers,
                key,
            )) ==> (#[trigger] headers[i]).0 != key,
    decreases headers.len(),
{
    if headers.len() > 0 {
        lemma_index_of_key(headers.drop_last(), key);
        assert forall|i: int|
            0 <= i < headers.len() && (index_of_key(headers, key) < 0 || i < index_of_key(
                headers,
                key,
            )) implies (#[trigger] headers[i]).0 != key by {
            if i < headers.len() - 1 {
                assert(headers.drop_last()[i] == headers[i]);
            }
        }
    }
}

/// The headers after one more header line: the new header comes last, and
/// where its key is a reserved key other than `Hash` it takes the place of
/// an earlier header with that key.
pub open spec fn add_header(headers: Seq<HeaderView>, key: HeaderKey, value: Seq<char>) -> Seq<
    HeaderView,
> {
    if is_single_key(key) && index_of_key(headers, key) >= 0 {
        headers.remove(index_of_key(headers, key)).push((key, value))
    } else {
        headers.push((key, value))
    }
}

/// Whether one more header with the key `key` takes the place of an earlier
/// one.
pub open spec fn replaces_header(headers: Seq<HeaderView>, key: HeaderKey) -> bool {
    is_single_key(key) && index_of_key(headers, key) >= 0
}

/// The headers of an armor, in the order of their lines.
#[derive(Clone, Debug, PartialEq, Eq)]
pub struct ArmorHeader {
    /// The headers: each a key and a value.
    pub entries: Vec<(HeaderLineType, String)>,
}

impl View for ArmorHeader {
    type V = Seq<HeaderView>;

    open spec fn view(&self) -> Seq<HeaderView> {
        Seq::new(self.entries@.len(), |i: int| (self.entries@[i].0@, self.entries@[i].1@))
    }
}

impl ArmorHeader {
    /// No headers.
    pub fn new() -> (headers: ArmorHeader)
        ensures
            headers@ == Seq::<HeaderView>::empty(),
    {
        let headers = ArmorHeader { entries: Vec::new() };
        assert(headers@ =~= Seq::<HeaderView>::empty());
        headers
    }

    /// How many headers there are.
    pub fn len(&self) -> (len: usize)
        ensures
            len == self@.len(),
    {
        self.entries.len()
    }

    /// The index of the first header with the key `key`.
    pub fn find(&self, key: &HeaderLineType) -> (index: Option<usize>)
        ensures
            match index {
                Some(i) => i == index_of_key(self@, key@) && i < self@.len(),
                None => index_of_key(self@, key@) == -1,
            },
    {
        let mut i: usize = 0;
        while i < self.entries.len()
            invariant
                i <= self.entries@.len(),
                index_of_key(self@.take(i as int), key@) == -1,
            decreases self.entries@.len() - i,
        {
            assert(self@.take(i + 1).drop_last() =~= self@.take(i as int));
            if self.entries[i].0.same_key(key) {
                proof {
                    lemma_index_prefix(self@, i + 1, key@);
                }
                return Some(i);
            }
            i = i + 1;
        }
        assert(self@.take(i as int) =~= self@);
        None
    }

    /// Takes in one more header. The new header comes last; where its key
    /// is a reserved key other than `Hash`, an earlier header with that key
    /// leaves. Tells whether one left.
    pub fn add(&mut self, key: HeaderLineType, value: String) -> (replaced: bool)
        ensures
            final(self)@ == add_header(old(self)@, key@, value@),
            replaced == replaces_header(old(self)@, key@),
    {
        let mut replaced = false;
        if key.is_single() {
            match self.find(&key) {
                Some(i) => {
                    self.entries.remove(i);
                    assert(self@ =~= old(self)@.remove(i as int));
                    replaced = true;
                },
                None => {},
            }
        }
        self.entries.push((key, value));
        assert(self@ =~= add_header(old(self)@, key@, value@));
        replaced
    }
}

/// The first header with a key among the first `count` headers is the first
/// among all.
proof fn lemma_index_prefix(headers: Seq<HeaderView>, count: int, key: HeaderKey)
    requires
        0 <= count <= headers.len(),
        index_of_key(headers.take(count), key) >= 0,
    ensures
        index_of_key(headers, key) == index_of_key(headers.take(count), key),
    decreases headers.len() - count,
{
    if count < headers.len() {
        assert(headers.take(count + 1).drop_last() =~= headers.take(count));
        lemma_index_prefix(headers, count + 1, key);
    } else {
        assert(headers.take(count) =~= headers);
    }
}

/// An armor that was decoded, as a value of specifications.
pub struct ArmoredMessageView {
    pub envelope: ArmorType,
    pub headers: Seq<HeaderView>,
    pub payload: Seq<u8>,
    pub declared_crc: u32,
    pub computed_crc: u32,
}

/// An armor that was decoded.
#[derive(Clone, Debug, PartialEq, Eq)]
pub struct ArmoredMessage {
    /// The kind of the envelope, which the `BEGIN` and the `END` line name
    /// alike.
    pub envelope: ArmorType,
    /// The headers, in the order of their lines.
    pub headers: ArmorHeader,
    /// The octets that the radix-64 body holds.
    pub payload: Vec<u8>,
    /// The checksum that the armor states.
    pub declared_crc: u32,
    /// The CRC-24 of `payload`.
    pub computed_crc: u32,
}

impl View for ArmoredMessage {
    type V = ArmoredMessageView;

    open spec fn view(&self) -> ArmoredMessageView {
        ArmoredMessageView {
            envelope: self.envelope,
            headers: self.headers@,
            payload: self.payload@,
            declared_crc: self.declared_crc,
            computed_crc: self.computed_crc,
        }
    }
}

/// Why an armor could not be decoded. Each error holds the place in the
/// input at which it was found.
#[derive(Copy, Clone, Debug, PartialEq, Eq, Structural)]
pub enum ArmorError {
    /// The input ended within the armor.
    UnexpectedEof { location: Location },
    /// The `BEGIN` or the `END` line is not as it should be.
    MalformedHeaderLine { location: Location },
    /// The `BEGIN` and the `END` line name different kinds.
    MismatchedEnvelope { begin: ArmorType, end: ArmorType, location: Location },
    /// A part `x` of `y` parts with `x` zero or greater than `y`; for a part
    /// without a number of parts, `x` is zero and `y` is given as zero.
    InvalidPartIndex { x: usize, y: usize, location: Location },
    /// A header line is not a name, `: ` and a value.
    MalformedHeaderBlock { location: Location },
    /// The character `ch` stands in the radix-64 body or in the checksum and
    /// may not stand there.
    InvalidBase64Character { ch: char, location: Location },
    /// A pad stands where none may stand, or the number of pads is wrong.
    InvalidPadding { location: Location },
    /// The armor states the checksum `declared`; the checksum of its payload
    /// is `computed`.
    ChecksumMismatch { declared: u32, computed: u32, location: Location },
}

/// A remark on an armor that was decoded all the same, as a value of
/// specifications.
pub enum DiagnosticView {
    NonCanonicalTail { location: Location },
    DuplicateHeader { key: HeaderKey, location: Location },
}

/// A remark on an armor that was decoded all the same.
#[derive(Clone, Debug, PartialEq, Eq)]
pub enum Diagnostic {
    /// The radix-64 body ends in pads, and the last sextet before them has a
    /// bit set that no octet takes up.
    NonCanonicalTail { location: Location },
    /// A second header with the reserved key `key` took the place of the
    /// first.
    DuplicateHeader { key: HeaderLineType, location: Location },
}

impl View for Diagnostic {
    type V = DiagnosticView;

    open spec fn view(&self) -> DiagnosticView {
        match self {
            Diagnostic::NonCanonicalTail { location } => DiagnosticView::NonCanonicalTail {
                location: *location,
            },
            Diagnostic::DuplicateHeader { key, location } => DiagnosticView::DuplicateHeader {
                key: key@,
                location: *location,
            },
        }
    }
}

/// The remarks in `diagnostics` as values of specifications.
pub open spec fn diagnostics_view(diagnostics: Seq<Diagnostic>) -> Seq<DiagnosticView> {
    Seq::new(diagnostics.len(), |i: int| diagnostics[i]@)
}

} // verus!
