//! Radix-64: sextets, groups of four sextets, and the codec between octets
//! and the printable alphabet of RFC 4880, section 6.3.

use vstd::prelude::*;
use vstd::slice::slice_to_vec;

verus! {

/// A group of three octets held as one number of 24 bits, first octet on top.
pub type Octet = u32;

/// Keeps the 24 bits of a group.
pub const OCTET_MASK: u32 = 0x00FF_FFFF;

/// A value of six bits.
pub type Sextet = u32;

/// Keeps the six bits of a sextet.
pub const SEXTET_MASK: u32 = 0x3F;

/// The four sextets of a group of 24 bits, highest first.
pub open spec fn sextets_of(group: u32) -> Seq<u32> {
    seq![(group >> 18) & 0x3F, (group >> 12) & 0x3F, (group >> 6) & 0x3F, group & 0x3F]
}

/// The number whose digits to base 64 are `sextets`, highest first. Of each
/// sextet only the low six bits count.
pub open spec fn join_sextets(sextets: Seq<u32>) -> u32
    decreases sextets.len(),
{
    if sextets.len() == 0 {
        0
    } else {
        (join_sextets(sextets.drop_last()) << 6) | (sextets.last() & 0x3F)
    }
}

/// A run of sextets.
#[derive(Clone, Debug, PartialEq, Eq)]
pub struct Base64 {
    data: Vec<Sextet>,
}

impl View for Base64 {
    type V = Seq<u32>;

    closed spec fn view(&self) -> Seq<u32> {
        self.data@
    }
}

proof fn lemma_split_join(group: u32)
    by (bit_vector)
    ensures
        ((((((((0u32 << 6) | (((group >> 18) & 0x3F) & 0x3F)) << 6) | (((group >> 12) & 0x3F)
            & 0x3F)) << 6) | (((group >> 6) & 0x3F) & 0x3F)) << 6) | ((group & 0x3F) & 0x3F))
            == group & 0x00FF_FFFF,
{
}

/// Splitting a group into sextets and joining them again gives the group
/// back, cut to its 24 bits.
pub proof fn lemma_join_sextets_of(group: u32)
    ensures
        sextets_of(group).len() == 4,
        join_sextets(sextets_of(group)) == group & 0x00FF_FFFF,
{
    let s4 = sextets_of(group);
    let s3 = s4.drop_last();
    let s2 = s3.drop_last();
    let s1 = s2.drop_last();
    let s0 = s1.drop_last();
    assert(s0.len() == 0);
    assert(join_sextets(s0) == 0);
    assert(join_sextets(s1) == (0u32 << 6) | (s4[0] & 0x3F));
    assert(join_sextets(s2) == (join_sextets(s1) << 6) | (s4[1] & 0x3F));
    assert(join_sextets(s3) == (join_sextets(s2) << 6) | (s4[2] & 0x3F));
    assert(join_sextets(s4) == (join_sextets(s3) << 6) | (s4[3] & 0x3F));
    lemma_split_join(group);
}

impl Base64 {
    /// A run that holds `data` as it is given.
    pub fn new(data: &[Octet]) -> (run: Base64)
        ensures
            run@ == data@,
    {
        Base64 { data: slice_to_vec(data) }
    }

    /// Appends the low six bits of `sextet`.
    pub fn push(&mut self, sextet: Sextet)
        ensures
            final(self)@ == old(self)@.push(sextet & 0x3F),
    {
        self.data.push(sextet & SEXTET_MASK);
    }

    /// Appends the four sextets of the 24-bit group `octet`, highest first.
    pub fn push_octet(&mut self, octet: Octet)
        ensures
            final(self)@ == old(self)@ + sextets_of(octet),
    {
        let mut i: u32 = 0;
        while i < 4
            invariant
                i <= 4,
                self.data@ == old(self).data@ + sextets_of(octet).take(i as int),
            decreases 4 - i,
        {
            let shift: u32 = 6 * (3 - i);
            let sextet_i = octet & (SEXTET_MASK << shift);
            let sextet = sextet_i >> shift;
            assert(sextet == (octet >> shift) & 0x3F) by (bit_vector)
                requires
                    sextet == (octet & (0x3Fu32 << shift)) >> shift,
                    shift <= 18,
            ;
            assert(octet >> 0u32 == octet) by (bit_vector);
            self.data.push(sextet);
            assert(sextets_of(octet).take(i + 1) =~= sextets_of(octet).take(i as int).push(
                sextet,
            ));
            i = i + 1;
        }
        assert(sextets_of(octet).take(4) =~= sextets_of(octet));
    }

    /// The run of the four sextets of the 24-bit group `octet`.
    pub fn from_octet(octet: Octet) -> (run: Base64)
        ensures
            run@ == sextets_of(octet),
    {
        let mut run = Base64 { data: Vec::new() };
        run.push_octet(octet);
        assert(Seq::<u32>::empty() + sextets_of(octet) =~= sextets_of(octet));
        run
    }

    /// The number that a run of at most four sextets spells to base 64;
    /// nothing for a longer run.
    pub fn to_octet(&self) -> (octet: Option<Octet>)
        ensures
            self@.len() <= 4 ==> octet == Some(join_sextets(self@)),
            self@.len() > 4 ==> octet is None,
    {
        if self.data.len() <= 4 {
            let mut octet: u32 = 0;
            let mut i: usize = 0;
            while i < self.data.len()
                invariant
                    i <= self.data.len(),
                    octet == join_sextets(self.data@.take(i as int)),
                decreases self.data.len() - i,
            {
                let sextet = self.data[i];
                assert(self.data@.take(i + 1).drop_last() =~= self.data@.take(i as int));
                octet = (octet << 6) | (sextet & SEXTET_MASK);
                i = i + 1;
            }
            assert(self.data@.take(i as int) =~= self.data@);
            Some(octet)
        } else {
            None
        }
    }
}

/// A group that goes through `from_octet` and `to_octet` comes back cut to
/// its 24 bits.
pub proof fn lemma_group_round_trip(run: Base64, group: u32)
    requires
        run@ == sextets_of(group),
    ensures
        run@.len() <= 4,
        join_sextets(run@) == group & 0x00FF_FFFF,
{
    lemma_join_sextets_of(group);
}

/// Whether `c` is one of the 64 characters of the alphabet.
pub open spec fn is_alphabet(c: char) -> bool {
    ('A' <= c && c <= 'Z') || ('a' <= c && c <= 'z') || ('0' <= c && c <= '9') || c == '+' || c
        == '/'
}

/// Whether `c` may stand in radix-64 text: a character of the alphabet or
/// the pad.
pub open spec fn is_base64_char(c: char) -> bool {
    is_alphabet(c) || c == '='
}

/// The value of a character of the alphabet: `A`-`Z` are 0-25, `a`-`z` are
/// 26-51, `0`-`9` are 52-61, `+` is 62 and `/` is 63.
pub open spec fn sextet_of_char(c: char) -> int {
    if 'A' <= c && c <= 'Z' {
        c as int - 'A' as int
    } else if 'a' <= c && c <= 'z' {
        c as int - 'a' as int + 26
    } else if '0' <= c && c <= '9' {
        c as int - '0' as int + 52
    } else if c == '+' {
        62
    } else {
        63
    }
}

/// The character of the alphabet that stands for the value `v`.
pub open spec fn char_of_sextet(v: int) -> char {
    if v < 26 {
        (v + 'A' as int) as char
    } else if v < 52 {
        (v - 26 + 'a' as int) as char
    } else if v < 62 {
        (v - 52 + '0' as int) as char
    } else if v == 62 {
        '+'
    } else {
        '/'
    }
}

/// The two maps between values and characters undo each other.
pub proof fn lemma_alphabet_inverse(v: int)
    requires
        0 <= v < 64,
    ensures
        is_alphabet(char_of_sextet(v)),
        char_of_sextet(v) != '=',
        sextet_of_char(char_of_sextet(v)) == v,
{
}

/// Every character of the alphabet is the one that stands for its value.
pub proof fn lemma_alphabet_inverse_char(c: char)
    requires
        is_alphabet(c),
    ensures
        0 <= sextet_of_char(c) < 64,
        char_of_sextet(sextet_of_char(c)) == c,
{
}

/// What can be wrong with radix-64 text.
#[derive(Clone, Copy, Debug, PartialEq, Eq)]
pub enum Base64Error {
    /// The character `ch`, at `index`, is neither of the alphabet nor a pad.
    InvalidCharacter { ch: char, index: usize },
    /// A pad stands at `index`, before the last group of four.
    EmbeddedPad { index: usize },
    /// The last group is not four sextets, three sextets and a pad, or two
    /// sextets and two pads.
    InvalidPadding,
    /// The bits of the last sextet that no octet takes up are not zero.
    NonCanonicalTail,
}

/// The octets that radix-64 text stands for, and the one thing that may be
/// said against text that still decodes.
#[derive(Clone, Debug, PartialEq, Eq)]
pub struct Base64Decoded {
    /// The octets.
    pub octets: Vec<u8>,
    /// `Some(NonCanonicalTail)` where the text ends in pads and the last
    /// sextet before them has a bit set that no octet takes up.
    pub warning: Option<Base64Error>,
}

/// The least index at or after `from` whose character may not stand in
/// radix-64 text, or the length of `text` where there is none.
pub open spec fn first_invalid(text: Seq<char>, from: int) -> int
    decreases text.len() - from,
{
    if from < 0 || from >= text.len() {
        text.len() as int
    } else if !is_base64_char(text[from]) {
        from
    } else {
        first_invalid(text, from + 1)
    }
}

/// The least index at or after `from` that holds a pad, or the length of
/// `text` where there is none.
pub open spec fn first_pad(text: Seq<char>, from: int) -> int
    decreases text.len() - from,
{
    if from < 0 || from >= text.len() {
        text.len() as int
    } else if text[from] == '=' {
        from
    } else {
        first_pad(text, from + 1)
    }
}

/// Where the last group of four begins in text of `len` characters.
pub open spec fn last_group_start(len: int) -> int {
    if len <= 0 {
        0
    } else {
        (len - 1) / 4 * 4
    }
}

/// The value at index `i` of text, zero beyond the first `count` characters.
pub open spec fn sextet_at(text: Seq<char>, count: int, i: int) -> int {
    if 0 <= i < count {
        sextet_of_char(text[i])
    } else {
        0
    }
}

/// The 24 bits that the group of four at `group` spells among the first
/// `count` characters of `text`: its first sextet on top, zeros where the
/// group runs out.
pub open spec fn group_value(text: Seq<char>, count: int, group: int) -> int {
    ((sextet_at(text, count, 4 * group) * 64 + sextet_at(text, count, 4 * group + 1)) * 64
        + sextet_at(text, count, 4 * group + 2)) * 64 + sextet_at(text, count, 4 * group + 3)
}

/// The octet at index `j` that the first `count` characters of `text` hold:
/// octet `j` is the octet `j % 3` of group `j / 3`, first octet on top.
#[verifier::opaque]
pub open spec fn octet_at(text: Seq<char>, count: int, j: int) -> u8 {
    let v = group_value(text, count, j / 3);
    if j % 3 == 0 {
        (v / 65536) as u8
    } else if j % 3 == 1 {
        (v / 256 % 256) as u8
    } else {
        (v % 256) as u8
    }
}

/// How many whole octets `count` sextets hold.
pub open spec fn octet_count(count: int) -> int {
    count * 6 / 8
}

/// The octets that the first `count` characters of `text` hold.
pub open spec fn octets_of(text: Seq<char>, count: int) -> Seq<u8> {
    Seq::new(octet_count(count) as nat, |j: int| octet_at(text, count, j))
}

/// Whether the bits of the last of `count` sextets that no octet takes up
/// are zero: the low four of the second sextet of a group, the low two of
/// the third.
pub open spec fn tail_is_canonical(text: Seq<char>, count: int) -> bool {
    if count % 4 == 2 {
        sextet_at(text, count, count - 1) % 16 == 0
    } else if count % 4 == 3 {
        sextet_at(text, count, count - 1) % 4 == 0
    } else {
        true
    }
}

/// The result of decoding `text`: the error that comes first in the order
/// invalid character, pad before the last group, malformed last group; else
/// the octets together with whether the tail is canonical.
pub open spec fn decode_spec(text: Seq<char>) -> Result<(Seq<u8>, bool), Base64Error> {
    let n = text.len() as int;
    let bad = first_invalid(text, 0);
    let pad = first_pad(text, 0);
    if bad < n {
        Err(Base64Error::InvalidCharacter { ch: text[bad], index: bad as usize })
    } else if pad < last_group_start(n) {
        Err(Base64Error::EmbeddedPad { index: pad as usize })
    } else if n % 4 != 0 {
        Err(Base64Error::InvalidPadding)
    } else if pad == n || (pad == n - 1) || (pad == n - 2 && text[n - 1] == '=') {
        Ok((octets_of(text, pad), tail_is_canonical(text, pad)))
    } else {
        Err(Base64Error::InvalidPadding)
    }
}

/// The octet at index `j` of `octets`, zero beyond its end.
pub open spec fn octet_or_zero(octets: Seq<u8>, j: int) -> int {
    if 0 <= j < octets.len() {
        octets[j] as int
    } else {
        0
    }
}

/// The character at index `i` of the text that encodes `octets`: sextet
/// `i % 4` of the group of three octets `i / 4`, or a pad where the sextet
/// would hold no bit of any octet.
#[verifier::opaque]
pub open spec fn encoded_char(octets: Seq<u8>, i: int) -> char {
    let g = i / 4;
    let b0 = octet_or_zero(octets, 3 * g);
    let b1 = octet_or_zero(octets, 3 * g + 1);
    let b2 = octet_or_zero(octets, 3 * g + 2);
    if i % 4 == 0 {
        char_of_sextet(b0 / 4)
    } else if i % 4 == 1 {
        char_of_sextet(b0 % 4 * 16 + b1 / 16)
    } else if i % 4 == 2 {
        if 3 * g + 1 < octets.len() {
            char_of_sextet(b1 % 16 * 4 + b2 / 64)
        } else {
            '='
        }
    } else {
        if 3 * g + 2 < octets.len() {
            char_of_sextet(b2 % 64)
        } else {
            '='
        }
    }
}

/// How many characters encode `len` octets: four for every three octets
/// begun.
pub open spec fn encoded_len(len: int) -> int {
    (len + 2) / 3 * 4
}

/// The text that encodes `octets`.
pub open spec fn encode_spec(octets: Seq<u8>) -> Seq<char> {
    Seq::new(encoded_len(octets.len() as int) as nat, |i: int| encoded_char(octets, i))
}

/// `first_invalid` is the least index from `from` on that holds a character
/// that may not stand in radix-64 text.
pub proof fn lemma_first_invalid(text: Seq<char>, from: int)
    requires
        0 <= from <= text.len(),
    ensures
        from <= first_invalid(text, from) <= text.len(),
        forall|j: int| from <= j < first_invalid(text, from) ==> is_base64_char(#[trigger] text[j]),
        first_invalid(text, from) < text.len() ==> !is_base64_char(text[first_invalid(text, from)]),
    decreases text.len() - from,
{
    if from < text.len() && is_base64_char(text[from]) {
        lemma_first_invalid(text, from + 1);
    }
}

/// An index up to which every character may stand in radix-64 text, and at
/// which one may not or the text ends, is `first_invalid`.
pub proof fn lemma_first_invalid_is(text: Seq<char>, from: int, at: int)
    requires
        0 <= from <= at <= text.len(),
        forall|j: int| from <= j < at ==> is_base64_char(#[trigger] text[j]),
        at < text.len() ==> !is_base64_char(text[at]),
    ensures
        first_invalid(text, from) == at,
    decreases at - from,
{
    if from < at {
        lemma_first_invalid_is(text, from + 1, at);
    }
}

/// `first_pad` is the least index from `from` on that holds a pad.
pub proof fn lemma_first_pad(text: Seq<char>, from: int)
    requires
        0 <= from <= text.len(),
    ensures
        from <= first_pad(text, from) <= text.len(),
        forall|j: int| from <= j < first_pad(text, from) ==> #[trigger] text[j] != '=',
        first_pad(text, from) < text.len() ==> text[first_pad(text, from)] == '=',
    decreases text.len() - from,
{
    if from < text.len() && text[from] != '=' {
        lemma_first_pad(text, from + 1);
    }
}

/// An index before which no pad stands, and at which one does or the text
/// ends, is `first_pad`.
pub proof fn lemma_first_pad_is(text: Seq<char>, from: int, at: int)
    requires
        0 <= from <= at <= text.len(),
        forall|j: int| from <= j < at ==> #[trigger] text[j] != '=',
        at < text.len() ==> text[at] == '=',
    ensures
        first_pad(text, from) == at,
    decreases at - from,
{
    if from < at {
        lemma_first_pad_is(text, from + 1, at);
    }
}

proof fn lemma_join_four(a: u32, b: u32, c: u32, d: u32)
    by (bit_vector)
    requires
        a < 64,
        b < 64,
        c < 64,
        d < 64,
    ensures
        ((((((((0u32 << 6) | ((a & 0x3F) & 0x3F)) << 6) | ((b & 0x3F) & 0x3F)) << 6) | ((c & 0x3F)
            & 0x3F)) << 6) | ((d & 0x3F) & 0x3F)) == ((a * 64 + b) * 64 + c) * 64 + d,
        a & 0x3F == a,
        b & 0x3F == b,
        c & 0x3F == c,
        d & 0x3F == d,
{
}

/// Four sextets joined spell the number with those digits to base 64.
pub proof fn lemma_join_sextets_value(a: u32, b: u32, c: u32, d: u32)
    requires
        a < 64,
        b < 64,
        c < 64,
        d < 64,
    ensures
        join_sextets(seq![a, b, c, d]) == ((a * 64 + b) * 64 + c) * 64 + d,
{
    let s4 = seq![a, b, c, d];
    let s3 = s4.drop_last();
    let s2 = s3.drop_last();
    let s1 = s2.drop_last();
    let s0 = s1.drop_last();
    assert(s0.len() == 0);
    assert(join_sextets(s0) == 0);
    assert(join_sextets(s1) == (0u32 << 6) | (s4[0] & 0x3F));
    assert(join_sextets(s2) == (join_sextets(s1) << 6) | (s4[1] & 0x3F));
    assert(join_sextets(s3) == (join_sextets(s2) << 6) | (s4[2] & 0x3F));
    assert(join_sextets(s4) == (join_sextets(s3) << 6) | (s4[3] & 0x3F));
    lemma_join_four(a, b, c, d);
}

proof fn lemma_split_three(group: u32, b0: u32, b1: u32, b2: u32)
    by (bit_vector)
    requires
        b0 < 256,
        b1 < 256,
        b2 < 256,
        group == b0 * 65536 + b1 * 256 + b2,
    ensures
        (group >> 18) & 0x3F == b0 / 4,
        (group >> 12) & 0x3F == b0 % 4 * 16 + b1 / 16,
        (group >> 6) & 0x3F == b1 % 16 * 4 + b2 / 64,
        group & 0x3F == b2 % 64,
{
}

/// The sextets of three octets taken as one group of 24 bits.
pub proof fn lemma_sextets_of_octets(group: u32, b0: u8, b1: u8, b2: u8)
    requires
        group == b0 * 65536 + b1 * 256 + b2,
    ensures
        sextets_of(group) == seq![
            (b0 / 4) as u32,
            (b0 % 4 * 16 + b1 / 16) as u32,
            (b1 % 16 * 4 + b2 / 64) as u32,
            (b2 % 64) as u32,
        ],
{
    lemma_split_three(group, b0 as u32, b1 as u32, b2 as u32);
    assert(sextets_of(group) =~= seq![
        (b0 / 4) as u32,
        (b0 % 4 * 16 + b1 / 16) as u32,
        (b1 % 16 * 4 + b2 / 64) as u32,
        (b2 % 64) as u32,
    ]);
}

/// Whether the octet `ch` is a character of the alphabet.
pub fn is_base64(ch: u8) -> (of_alphabet: bool)
    ensures
        of_alphabet == is_alphabet(ch as char),
{
    (ch >= 65 && ch <= 90) || (ch >= 97 && ch <= 122) || (ch >= 48 && ch <= 57) || ch == 43 || ch
        == 47
}

/// Whether `c` may stand in radix-64 text.
pub fn is_base64_text(c: char) -> (allowed: bool)
    ensures
        allowed == is_base64_char(c),
{
    c == '=' || ((c as u32) < 128 && is_base64(c as u8))
}

/// The value of `c` where it is of the alphabet.
pub fn char_value(c: char) -> (v: Option<u8>)
    ensures
        is_alphabet(c) ==> v == Some(sextet_of_char(c) as u8) && 0 <= sextet_of_char(c) < 64,
        !is_alphabet(c) ==> v is None,
{
    if c >= 'A' && c <= 'Z' {
        Some(c as u8 - 65)
    } else if c >= 'a' && c <= 'z' {
        Some(c as u8 - 97 + 26)
    } else if c >= '0' && c <= '9' {
        Some(c as u8 - 48 + 52)
    } else if c == '+' {
        Some(62)
    } else if c == '/' {
        Some(63)
    } else {
        None
    }
}

/// The character of the alphabet that stands for `v`.
pub fn value_char(v: u8) -> (c: char)
    requires
        v < 64,
    ensures
        c == char_of_sextet(v as int),
        is_alphabet(c),
{
    if v < 26 {
        (v + 65) as char
    } else if v < 52 {
        (v - 26 + 97) as char
    } else if v < 62 {
        (v - 52 + 48) as char
    } else if v == 62 {
        '+'
    } else {
        '/'
    }
}

fn sextet_value(text: &[char], count: usize, i: usize) -> (v: u32)
    requires
        count <= text@.len(),
        forall|j: int| 0 <= j < count ==> is_alphabet(#[trigger] text@[j]),
    ensures
        v == sextet_at(text@, count as int, i as int),
        v < 64,
{
    if i < count {
        match char_value(text[i]) {
            Some(v) => v as u32,
            None => 0,
        }
    } else {
        0
    }
}

/// Decodes radix-64 text: characters of the alphabet, with one or two pads
/// at the end where the last group of four is short.
pub fn base64_decode(text: &[char]) -> (r: Result<Base64Decoded, Base64Error>)
    ensures
        match r {
            Ok(d) => decode_spec(text@) == Ok::<(Seq<u8>, bool), Base64Error>(
                (d.octets@, d.warning is None),
            ) && (d.warning is Some ==> d.warning == Some(Base64Error::NonCanonicalTail)),
            Err(e) => decode_spec(text@) == Err::<(Seq<u8>, bool), Base64Error>(e),
        },
{
    let n = text.len();
    let mut i: usize = 0;
    while i < n
        invariant
            i <= n,
            n == text@.len(),
            forall|j: int| 0 <= j < i ==> is_base64_char(#[trigger] text@[j]),
        decreases n - i,
    {
        let c = text[i];
        if c != '=' && char_value(c).is_none() {
            proof {
                lemma_first_invalid_is(text@, 0, i as int);
            }
            return Err(Base64Error::InvalidCharacter { ch: c, index: i });
        }
        i = i + 1;
    }
    let mut pad: usize = 0;
    while pad < n && text[pad] != '='
        invariant
            pad <= n,
            n == text@.len(),
            forall|j: int| 0 <= j < pad ==> #[trigger] text@[j] != '=',
        decreases n - pad,
    {
        pad = pad + 1;
    }
    proof {
        lemma_first_invalid_is(text@, 0, n as int);
        lemma_first_pad_is(text@, 0, pad as int);
    }
    let last: usize = if n == 0 {
        0
    } else {
        (n - 1) / 4 * 4
    };
    if pad < last {
        return Err(Base64Error::EmbeddedPad { index: pad });
    }
    if n % 4 != 0 {
        return Err(Base64Error::InvalidPadding);
    }
    if !(pad == n || pad == n - 1 || (pad == n - 2 && text[n - 1] == '=')) {
        return Err(Base64Error::InvalidPadding);
    }
    let total: usize = pad / 4 * 3 + (if pad % 4 == 2 {
        1
    } else if pad % 4 == 3 {
        2
    } else {
        0
    });
    assert(total == octet_count(pad as int));
    let mut octets: Vec<u8> = Vec::new();
    let mut g: usize = 0;
    while g < n / 4
        invariant
            pad <= n,
            n == text@.len(),
            n % 4 == 0,
            n <= pad + 2,
            g <= n / 4,
            total == octet_count(pad as int),
            forall|j: int| 0 <= j < pad ==> is_alphabet(#[trigger] text@[j]),
            octets@.len() == (if 3 * g <= total { 3 * g } else { total as int }),
            forall|j: int|
                0 <= j < octets@.len() ==> #[trigger] octets@[j] == octet_at(
                    text@,
                    pad as int,
                    j,
                ),
        decreases n / 4 - g,
    {
        let s0 = sextet_value(text, pad, 4 * g);
        let s1 = sextet_value(text, pad, 4 * g + 1);
        let s2 = sextet_value(text, pad, 4 * g + 2);
        let s3 = sextet_value(text, pad, 4 * g + 3);
        let mut run = Base64 { data: Vec::new() };
        run.push(s0);
        run.push(s1);
        run.push(s2);
        run.push(s3);
        proof {
            lemma_join_four(s0, s1, s2, s3);
            lemma_join_sextets_value(s0, s1, s2, s3);
            assert(run@ =~= seq![s0, s1, s2, s3]);
        }
        let v = run.to_octet().unwrap();
        proof {
            reveal(octet_at);
        }
        assert(v == group_value(text@, pad as int, g as int));
        assert(v < 16777216);
        if 3 * g < total {
            octets.push((v / 65536) as u8);
        }
        if 3 * g + 1 < total {
            octets.push((v / 256 % 256) as u8);
        }
        if 3 * g + 2 < total {
            octets.push((v % 256) as u8);
        }
        g = g + 1;
    }
    let canonical = if pad % 4 == 2 {
        sextet_value(text, pad, pad - 1) % 16 == 0
    } else if pad % 4 == 3 {
        sextet_value(text, pad, pad - 1) % 4 == 0
    } else {
        true
    };
    assert(octets@ =~= octets_of(text@, pad as int));
    let warning = if canonical {
        None
    } else {
        Some(Base64Error::NonCanonicalTail)
    };
    Ok(Base64Decoded { octets, warning })
}

/// Encodes `octets` as radix-64 text, with pads so that the length of the
/// text is a multiple of four.
pub fn base64_encode(octets: &[u8]) -> (text: Vec<char>)
    ensures
        text@ == encode_spec(octets@),
{
    let len = octets.len();
    let mut text: Vec<char> = Vec::new();
    let groups: usize = len / 3 + (if len % 3 != 0 {
        1
    } else {
        0
    });
    let mut g: usize = 0;
    while g < groups
        invariant
            len == octets@.len(),
            groups == (len + 2) / 3,
            g <= groups,
            text@.len() == 4 * g,
            forall|i: int| 0 <= i < text@.len() ==> #[trigger] text@[i] == encoded_char(octets@, i),
        decreases groups - g,
    {
        let b0: u8 = octets[3 * g];
        let b1: u8 = if 3 * g + 1 < len {
            octets[3 * g + 1]
        } else {
            0
        };
        let b2: u8 = if 3 * g + 2 < len {
            octets[3 * g + 2]
        } else {
            0
        };
        let group: u32 = (b0 as u32) * 65536 + (b1 as u32) * 256 + b2 as u32;
        let run = Base64::from_octet(group);
        proof {
            reveal(encoded_char);
            lemma_sextets_of_octets(group, b0, b1, b2);
        }
        text.push(value_char(run.data[0] as u8));
        text.push(value_char(run.data[1] as u8));
        if 3 * g + 1 < len {
            text.push(value_char(run.data[2] as u8));
        } else {
            text.push('=');
        }
        if 3 * g + 2 < len {
            text.push(value_char(run.data[3] as u8));
        } else {
            text.push('=');
        }
        g = g + 1;
    }
    assert(text@ =~= encode_spec(octets@));
    text
}

/// How many characters of the text that encodes `len` octets are sextets:
/// all but the pads.
pub open spec fn encoded_sextets(len: int) -> int {
    if len % 3 == 0 {
        encoded_len(len)
    } else if len % 3 == 1 {
        encoded_len(len) - 2
    } else {
        encoded_len(len) - 1
    }
}

/// In the text that encodes `octets`, the sextets come first and are
/// characters of the alphabet; what follows them is pads.
pub proof fn lemma_encoded_shape(octets: Seq<u8>)
    ensures
        encode_spec(octets).len() == encoded_len(octets.len() as int),
        encode_spec(octets).len() % 4 == 0,
        forall|i: int|
            0 <= i < encoded_sextets(octets.len() as int) ==> is_alphabet(
                #[trigger] encode_spec(octets)[i],
            ),
        forall|i: int|
            encoded_sextets(octets.len() as int) <= i < encode_spec(octets).len()
                ==> #[trigger] encode_spec(octets)[i] == '=',
{
    reveal(encoded_char);
    let text = encode_spec(octets);
    let m = octets.len() as int;
    let p = encoded_sextets(m);
    assert forall|i: int| 0 <= i < p implies is_alphabet(#[trigger] text[i]) by {
        let g = i / 4;
        let b0 = octet_or_zero(octets, 3 * g);
        let b1 = octet_or_zero(octets, 3 * g + 1);
        let b2 = octet_or_zero(octets, 3 * g + 2);
        lemma_alphabet_inverse(b0 / 4);
        lemma_alphabet_inverse(b0 % 4 * 16 + b1 / 16);
        lemma_alphabet_inverse(b1 % 16 * 4 + b2 / 64);
        lemma_alphabet_inverse(b2 % 64);
    }
    assert forall|i: int| p <= i < text.len() implies #[trigger] text[i] == '=' by {}
}

/// The sextet that the text encoding `octets` holds at index `i`, pads
/// counted as zero, is the sextet that the octets hold there.
proof fn lemma_encoded_sextet(octets: Seq<u8>, i: int)
    requires
        0 <= i < encoded_len(octets.len() as int),
    ensures
        ({
            let g = i / 4;
            let b0 = octet_or_zero(octets, 3 * g);
            let b1 = octet_or_zero(octets, 3 * g + 1);
            let b2 = octet_or_zero(octets, 3 * g + 2);
            sextet_at(encode_spec(octets), encoded_sextets(octets.len() as int), i) == (if i % 4
                == 0 {
                b0 / 4
            } else if i % 4 == 1 {
                b0 % 4 * 16 + b1 / 16
            } else if i % 4 == 2 {
                b1 % 16 * 4 + b2 / 64
            } else {
                b2 % 64
            })
        }),
{
    reveal(encoded_char);
    let g = i / 4;
    let b0 = octet_or_zero(octets, 3 * g);
    let b1 = octet_or_zero(octets, 3 * g + 1);
    let b2 = octet_or_zero(octets, 3 * g + 2);
    lemma_alphabet_inverse(b0 / 4);
    lemma_alphabet_inverse(b0 % 4 * 16 + b1 / 16);
    lemma_alphabet_inverse(b1 % 16 * 4 + b2 / 64);
    lemma_alphabet_inverse(b2 % 64);
}

/// The group `g` of the text that encodes `octets` spells the three octets
/// that it was made from.
proof fn lemma_encoded_group(octets: Seq<u8>, g: int)
    requires
        0 <= g,
        3 * g < octets.len(),
    ensures
        group_value(encode_spec(octets), encoded_sextets(octets.len() as int), g)
            == octet_or_zero(octets, 3 * g) * 65536 + octet_or_zero(octets, 3 * g + 1) * 256
            + octet_or_zero(octets, 3 * g + 2),
{
    lemma_encoded_sextet(octets, 4 * g);
    lemma_encoded_sextet(octets, 4 * g + 1);
    lemma_encoded_sextet(octets, 4 * g + 2);
    lemma_encoded_sextet(octets, 4 * g + 3);
    let text = encode_spec(octets);
    let p = encoded_sextets(octets.len() as int);
    let b0 = octet_or_zero(octets, 3 * g);
    let b1 = octet_or_zero(octets, 3 * g + 1);
    let b2 = octet_or_zero(octets, 3 * g + 2);
    assert((4 * g) / 4 == g && (4 * g) % 4 == 0);
    assert((4 * g + 1) / 4 == g && (4 * g + 1) % 4 == 1);
    assert((4 * g + 2) / 4 == g && (4 * g + 2) % 4 == 2);
    assert((4 * g + 3) / 4 == g && (4 * g + 3) % 4 == 3);
    let s0 = sextet_at(text, p, 4 * g);
    let s1 = sextet_at(text, p, 4 * g + 1);
    let s2 = sextet_at(text, p, 4 * g + 2);
    let s3 = sextet_at(text, p, 4 * g + 3);
    assert(s0 == b0 / 4);
    assert(s1 == b0 % 4 * 16 + b1 / 16);
    assert(s2 == b1 % 16 * 4 + b2 / 64);
    assert(s3 == b2 % 64);
    assert(((s0 * 64 + s1) * 64 + s2) * 64 + s3 == b0 * 65536 + b1 * 256 + b2);
}

proof fn lemma_three_octets(v: int, b0: int, b1: int, b2: int)
    requires
        0 <= b0 < 256,
        0 <= b1 < 256,
        0 <= b2 < 256,
        v == b0 * 65536 + b1 * 256 + b2,
    ensures
        v / 65536 == b0,
        v / 256 % 256 == b1,
        v % 256 == b2,
{
}

/// The octet `j` that the text encoding `octets` holds is octet `j` of
/// `octets`.
proof fn lemma_encoded_octet(octets: Seq<u8>, j: int)
    requires
        0 <= j < octets.len(),
    ensures
        octet_at(encode_spec(octets), encoded_sextets(octets.len() as int), j) == octets[j],
{
    reveal(octet_at);
    let g = j / 3;
    lemma_encoded_group(octets, g);
    let v = group_value(encode_spec(octets), encoded_sextets(octets.len() as int), g);
    let b0 = octet_or_zero(octets, 3 * g);
    let b1 = octet_or_zero(octets, 3 * g + 1);
    let b2 = octet_or_zero(octets, 3 * g + 2);
    lemma_three_octets(v, b0, b1, b2);
    if j % 3 == 0 {
        assert(j == 3 * g);
    } else if j % 3 == 1 {
        assert(j == 3 * g + 1);
    } else {
        assert(j == 3 * g + 2);
    }
}

/// Nothing is to be said against the tail of the text that encodes `octets`.
proof fn lemma_encoded_tail(octets: Seq<u8>)
    ensures
        tail_is_canonical(encode_spec(octets), encoded_sextets(octets.len() as int)),
{
    let p = encoded_sextets(octets.len() as int);
    if p % 4 != 0 {
        lemma_encoded_sextet(octets, p - 1);
    }
}

/// In the text that encodes `octets` every character may stand in radix-64
/// text, and the first pad stands right behind the sextets.
proof fn lemma_encoded_scan(octets: Seq<u8>)
    ensures
        first_invalid(encode_spec(octets), 0) == encode_spec(octets).len(),
        first_pad(encode_spec(octets), 0) == encoded_sextets(octets.len() as int),
{
    let text = encode_spec(octets);
    let p = encoded_sextets(octets.len() as int);
    lemma_encoded_shape(octets);
    assert forall|j: int| 0 <= j < text.len() implies is_base64_char(#[trigger] text[j]) by {
        if j < p {
            assert(is_alphabet(text[j]));
        }
    }
    lemma_first_invalid_is(text, 0, text.len() as int);
    assert forall|j: int| 0 <= j < p implies #[trigger] text[j] != '=' by {
        assert(is_alphabet(text[j]));
    }
    lemma_first_pad_is(text, 0, p);
}

/// The octets that the text encoding `octets` holds are `octets`.
proof fn lemma_encoded_octets(octets: Seq<u8>)
    ensures
        octets_of(encode_spec(octets), encoded_sextets(octets.len() as int)) == octets,
{
    let text = encode_spec(octets);
    let m = octets.len() as int;
    let p = encoded_sextets(m);
    assert(octet_count(p) == m);
    assert forall|j: int| 0 <= j < m implies octet_at(text, p, j) == octets[j] by {
        lemma_encoded_octet(octets, j);
    }
    assert(octets_of(text, p) =~= octets);
}

/// The text that encodes `octets` is whole groups of four, with pads in
/// the last group only and at most two of them.
proof fn lemma_encoded_groups(len: int)
    requires
        len >= 0,
    ensures
        encoded_len(len) % 4 == 0,
        encoded_len(len) >= 0,
        encoded_sextets(len) >= last_group_start(encoded_len(len)),
        encoded_sextets(len) == encoded_len(len) || encoded_sextets(len) == encoded_len(len) - 1
            || encoded_sextets(len) == encoded_len(len) - 2,
        encoded_sextets(len) >= 0,
{
}

/// Encoding and then decoding gives the octets back, whatever their number,
/// and finds nothing to say against the text.
pub proof fn lemma_decode_encode(octets: Seq<u8>)
    ensures
        decode_spec(encode_spec(octets)) == Ok::<(Seq<u8>, bool), Base64Error>((octets, true)),
{
    let text = encode_spec(octets);
    let n = text.len() as int;
    let p = encoded_sextets(octets.len() as int);
    lemma_encoded_groups(octets.len() as int);
    lemma_encoded_scan(octets);
    lemma_encoded_octets(octets);
    lemma_encoded_tail(octets);
    assert(n == encoded_len(octets.len() as int));
    if p == n - 2 {
        lemma_encoded_shape(octets);
        assert(text[n - 1] == '=');
    }
}

} // verus!
