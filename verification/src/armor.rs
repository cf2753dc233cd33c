//! Decoding an armor and encoding one: the parser, the radix-64 codec and
//! the checksum put together.

use crate::base64::{base64_decode, base64_encode, Base64Error};
use crate::crc24::{crc24, crc_octets};
use crate::message::{
    atype, decimal, diagnostics_view, is_single_key, label, name_of, valid_key,
    ArmorError, ArmorHeader, ArmorType, ArmoredMessage, ArmoredMessageView, Diagnostic,
    DiagnosticView, HeaderLineType, HeaderView,
};
use crate::parser::{armor_of, is_valid_name, parse_armor, trimmed_len, trimmed_length};
use crate::text::{from_chars, push_str, to_chars};
use crate::token::is_newline_char;
use vstd::prelude::*;

verus! {

/// What decoding `input` gives: the armor as the grammar gives it, with its
/// payload decoded and its checksum held against the CRC-24 of the payload.
/// The first error in the order of the stages is the error: first those of
/// the grammar, then those of the radix-64 text, then the checksum.
pub open spec fn decode_spec(input: Seq<char>) -> Result<
    (ArmoredMessageView, Seq<DiagnosticView>),
    ArmorError,
> {
    match armor_of(input) {
        Err(e) => Err(e),
        Ok(parsed) => match crate::base64::decode_spec(parsed.text) {
            Err(Base64Error::InvalidCharacter { ch, index }) => Err(
                ArmorError::InvalidBase64Character { ch, location: parsed.text_location },
            ),
            Err(_) => Err(ArmorError::InvalidPadding { location: parsed.text_location }),
            Ok((octets, canonical)) => {
                if crc24(octets) != parsed.declared_crc {
                    Err(
                        ArmorError::ChecksumMismatch {
                            declared: parsed.declared_crc,
                            computed: crc24(octets),
                            location: parsed.crc_location,
                        },
                    )
                } else {
                    Ok(
                        (
                            ArmoredMessageView {
                                envelope: parsed.envelope,
                                headers: parsed.headers,
                                payload: octets,
                                declared_crc: parsed.declared_crc,
                                computed_crc: crc24(octets),
                            },
                            if canonical {
                                parsed.diagnostics
                            } else {
                                parsed.diagnostics.push(
                                    DiagnosticView::NonCanonicalTail {
                                        location: parsed.text_location,
                                    },
                                )
                            },
                        ),
                    )
                }
            },
        },
    }
}

/// Decodes an armor. Gives the message with the remarks on it, or the
/// first error.
pub fn decode(input: &str) -> (decoded: Result<(ArmoredMessage, Vec<Diagnostic>), ArmorError>)
    ensures
        match decoded {
            Ok((message, diagnostics)) => decode_spec(input@) == Ok::<
                (ArmoredMessageView, Seq<DiagnosticView>),
                ArmorError,
            >((message@, diagnostics_view(diagnostics@))),
            Err(e) => decode_spec(input@) == Err::<
                (ArmoredMessageView, Seq<DiagnosticView>),
                ArmorError,
            >(e),
        },
{
    let parsed = match parse_armor(input) {
        Ok(parsed) => parsed,
        Err(e) => {
            return Err(e);
        },
    };
    let decoded = match base64_decode(parsed.text.as_slice()) {
        Ok(decoded) => decoded,
        Err(Base64Error::InvalidCharacter { ch, index }) => {
            return Err(
                ArmorError::InvalidBase64Character { ch, location: parsed.text_location },
            );
        },
        Err(_) => {
            return Err(ArmorError::InvalidPadding { location: parsed.text_location });
        },
    };
    let computed = crc_octets(decoded.octets.as_slice()) as u32;
    if computed != parsed.declared_crc {
        return Err(
            ArmorError::ChecksumMismatch {
                declared: parsed.declared_crc,
                computed,
                location: parsed.crc_location,
            },
        );
    }
    let mut diagnostics = parsed.diagnostics;
    if decoded.warning.is_some() {
        let ghost before = diagnostics_view(diagnostics@);
        diagnostics.push(Diagnostic::NonCanonicalTail { location: parsed.text_location });
        assert(diagnostics_view(diagnostics@) =~= before.push(
            DiagnosticView::NonCanonicalTail { location: parsed.text_location },
        ));
    }
    Ok(
        (
            ArmoredMessage {
                envelope: parsed.envelope,
                headers: parsed.headers,
                payload: decoded.octets,
                declared_crc: parsed.declared_crc,
                computed_crc: computed,
            },
            diagnostics,
        ),
    )
}

/// How many radix-64 characters the encoder puts on a line.
pub const LINE_WIDTH: usize = 64;

/// The name of the kind of an envelope, as a boundary line gives it.
pub open spec fn envelope_text(kind: ArmorType) -> Seq<char> {
    match kind {
        ArmorType::Message => "PGP MESSAGE"@,
        ArmorType::PublicKeyBlock => "PGP PUBLIC KEY BLOCK"@,
        ArmorType::PrivateKeyBlock => "PGP PRIVATE KEY BLOCK"@,
        ArmorType::Signature => "PGP SIGNATURE"@,
        ArmorType::MessagePartXofY(x, y) => "PGP MESSAGE, PART "@ + decimal(x as nat) + "/"@
            + decimal(y as nat),
        ArmorType::MessagePartX(x) => "PGP MESSAGE, PART "@ + decimal(x as nat),
    }
}

/// The name of a kind of envelope is `PGP ` and the label of the kind.
pub proof fn lemma_envelope_text(kind: ArmorType)
    ensures
        envelope_text(kind) == "PGP "@ + label(kind),
{
    reveal_strlit("PGP ");
    reveal_strlit("MESSAGE");
    reveal_strlit("PUBLIC KEY BLOCK");
    reveal_strlit("PRIVATE KEY BLOCK");
    reveal_strlit("SIGNATURE");
    reveal_strlit("MESSAGE, PART ");
    reveal_strlit("PGP MESSAGE");
    reveal_strlit("PGP PUBLIC KEY BLOCK");
    reveal_strlit("PGP PRIVATE KEY BLOCK");
    reveal_strlit("PGP SIGNATURE");
    reveal_strlit("PGP MESSAGE, PART ");
    assert(envelope_text(kind) =~= "PGP "@ + label(kind));
}

/// A boundary line without the end of the line: five dashes, `word`, the
/// name of the kind, five dashes.
pub open spec fn boundary_text(word: Seq<char>, kind: ArmorType) -> Seq<char> {
    "-----"@ + word + envelope_text(kind) + "-----"@
}

/// A header line with the end of the line.
pub open spec fn header_text(header: HeaderView) -> Seq<char> {
    name_of(header.0) + ": "@ + header.1 + "\n"@
}

/// The header lines.
pub open spec fn headers_text(headers: Seq<HeaderView>) -> Seq<char>
    decreases headers.len(),
{
    if headers.len() == 0 {
        Seq::empty()
    } else {
        header_text(headers[0]) + headers_text(headers.drop_first())
    }
}

/// `text` in lines of `LINE_WIDTH` characters, the last of them shorter
/// where the text does not fill it, each with the end of the line.
pub open spec fn wrapped(text: Seq<char>) -> Seq<char>
    decreases text.len(),
{
    if text.len() == 0 {
        Seq::empty()
    } else if text.len() <= LINE_WIDTH {
        text + "\n"@
    } else {
        text.take(LINE_WIDTH as int) + "\n"@ + wrapped(text.skip(LINE_WIDTH as int))
    }
}

/// The three octets of a checksum, highest first.
pub open spec fn crc_octets_of(crc: u32) -> Seq<u8> {
    seq![(crc / 65536 % 256) as u8, (crc / 256 % 256) as u8, (crc % 256) as u8]
}

/// The armor of `payload` with the kind `envelope` and the headers
/// `headers`.
#[verifier::opaque]
pub open spec fn encode_spec(envelope: ArmorType, headers: Seq<HeaderView>,
    payload: Seq<u8>) -> Seq<
    char,
> {
    boundary_text("BEGIN "@, envelope) + "\n"@ + headers_text(headers) + "\n"@ + wrapped(
        crate::base64::encode_spec(payload),
    ) + "="@ + crate::base64::encode_spec(crc_octets_of(crc24(payload))) + "\n"@ + boundary_text(
        "END "@,
        envelope,
    ) + "\n"@
}

/// Whether `value` can be the value of a header: it holds no end of line
/// and does not end in a space or tab.
pub open spec fn valid_value(value: Seq<char>) -> bool {
    &&& forall|i: int| 0 <= i < value.len() ==> !is_newline_char(#[trigger] value[i])
    &&& trimmed_len(value) == value.len()
}

/// Whether a header stands in `headers` before index `j` with the key that
/// the header at `j` has, that key being one of which there is one header
/// only.
pub open spec fn repeats_at(headers: Seq<HeaderView>, j: int) -> bool {
    is_single_key(headers[j].0) && exists|i: int| 0 <= i < j
        && (#[trigger] headers[i]).0 == headers[j].0
}

/// Whether every header of `headers` can stand in a header line, and no
/// reserved key but `Hash` comes twice.
pub open spec fn headers_encodable(headers: Seq<HeaderView>) -> bool {
    &&& forall|i: int| 0 <= i < headers.len() ==> valid_key((#[trigger] headers[i]).0)
    &&& forall|i: int| 0 <= i < headers.len() ==> valid_value((#[trigger] headers[i]).1)
    &&& forall|j: int| 0 <= j < headers.len() ==> !#[trigger] repeats_at(headers, j)
}

/// Whether an armor can be made of this: the numbers of the parts are in
/// order, every header has a key and a value that can stand in a header
/// line, and no reserved key but `Hash` comes twice.
pub open spec fn encodable(envelope: ArmorType, headers: Seq<HeaderView>) -> bool {
    envelope.valid() && headers_encodable(headers)
}

/// Whether `value` can be the value of a header.
pub fn is_valid_value(value: &[char]) -> (valid: bool)
    ensures
        valid == valid_value(value@),
{
    let mut i: usize = 0;
    while i < value.len()
        invariant
            i <= value@.len(),
            forall|j: int| 0 <= j < i ==> !is_newline_char(#[trigger] value@[j]),
        decreases value@.len() - i,
    {
        if value[i] == '\n' || value[i] == '\r' {
            return false;
        }
        i = i + 1;
    }
    trimmed_length(value) == value.len()
}

/// Whether `key` is as it should be.
pub fn is_valid_key(key: &HeaderLineType) -> (valid: bool)
    ensures
        valid == valid_key(key@),
{
    match key {
        HeaderLineType::Other(name) => {
            let chars = to_chars(name.as_str());
            if !is_valid_name(chars.as_slice()) {
                return false;
            }
            match HeaderLineType::from_name(name.as_str()) {
                HeaderLineType::Other(_) => true,
                _ => false,
            }
        },
        _ => true,
    }
}

/// Whether the header at index `j` repeats the key of an earlier header,
/// that key being one of which there is one header only.
pub fn repeats(headers: &ArmorHeader, j: usize) -> (repeated: bool)
    requires
        j < headers@.len(),
    ensures
        repeated == repeats_at(headers@, j as int),
{
    assert(headers@[j as int].0 == headers.entries@[j as int].0@);
    if !headers.entries[j].0.is_single() {
        return false;
    }
    let mut i: usize = 0;
    while i < j
        invariant
            i <= j < headers@.len(),
            is_single_key(headers@[j as int].0),
            forall|k: int| 0 <= k < i ==> (#[trigger] headers@[k]).0 != headers@[j as int].0,
        decreases j - i,
    {
        if headers.entries[i].0.same_key(&headers.entries[j].0) {
            assert(headers@[i as int].0 == headers.entries@[i as int].0@);
            assert(0 <= i < j && headers@[i as int].0 == headers@[j as int].0);
            assert(repeats_at(headers@, j as int));
            return true;
        }
        i = i + 1;
    }
    false
}

/// Whether an armor can be made of this envelope and these headers.
pub fn is_encodable(envelope: ArmorType, headers: &ArmorHeader) -> (can: bool)
    ensures
        can == encodable(envelope, headers@),
{
    if !envelope.is_valid() {
        return false;
    }
    let mut j: usize = 0;
    while j < headers.entries.len()
        invariant
            j <= headers@.len(),
            headers@.len() == headers.entries@.len(),
            forall|i: int| 0 <= i < j ==> valid_key((#[trigger] headers@[i]).0),
            forall|i: int| 0 <= i < j ==> valid_value((#[trigger] headers@[i]).1),
            forall|i: int| 0 <= i < j ==> !#[trigger] repeats_at(headers@, i),
        decreases headers@.len() - j,
    {
        if !is_valid_key(&headers.entries[j].0) {
            assert(!valid_key(headers@[j as int].0));
            return false;
        }
        let value = to_chars(headers.entries[j].1.as_str());
        if !is_valid_value(value.as_slice()) {
            assert(!valid_value(headers@[j as int].1));
            return false;
        }
        if repeats(headers, j) {
            return false;
        }
        j = j + 1;
    }
    true
}

/// The header lines of one header more are those of the headers before and
/// the line of that header.
pub proof fn lemma_headers_text_push(headers: Seq<HeaderView>, header: HeaderView)
    ensures
        headers_text(headers.push(header)) == headers_text(headers) + header_text(header),
    decreases headers.len(),
{
    let all = headers.push(header);
    if headers.len() == 0 {
        assert(all.drop_first() =~= Seq::<HeaderView>::empty());
        assert(headers_text(all.drop_first()) =~= Seq::<char>::empty());
        assert(headers_text(all) =~= header_text(header));
        assert(headers_text(headers) + header_text(header) =~= header_text(header));
    } else {
        lemma_headers_text_push(headers.drop_first(), header);
        assert(all.drop_first() =~= headers.drop_first().push(header));
        assert(all[0] == headers[0]);
        assert(headers_text(all) =~= headers_text(headers) + header_text(header));
    }
}

fn push_envelope(out: &mut Vec<char>, kind: ArmorType)
    ensures
        final(out)@ == old(out)@ + envelope_text(kind),
{
    push_str(out, "PGP ");
    let name = atype(kind);
    push_str(out, name.as_str());
    proof {
        lemma_envelope_text(kind);
        assert(out@ =~= old(out)@ + ("PGP "@ + label(kind)));
    }
}

fn push_boundary(out: &mut Vec<char>, word: &str, kind: ArmorType)
    ensures
        final(out)@ == old(out)@ + boundary_text(word@, kind),
{
    push_str(out, "-----");
    push_str(out, word);
    push_envelope(out, kind);
    push_str(out, "-----");
    assert(out@ =~= old(out)@ + boundary_text(word@, kind));
}

fn push_headers(out: &mut Vec<char>, headers: &ArmorHeader)
    ensures
        final(out)@ == old(out)@ + headers_text(headers@),
{
    let mut i: usize = 0;
    assert(headers@.take(0) =~= Seq::<HeaderView>::empty());
    assert(out@ =~= old(out)@ + headers_text(headers@.take(0)));
    while i < headers.entries.len()
        invariant
            i <= headers@.len(),
            headers@.len() == headers.entries@.len(),
            out@ == old(out)@ + headers_text(headers@.take(i as int)),
        decreases headers@.len() - i,
    {
        let ghost before = out@;
        push_str(out, headers.entries[i].0.name());
        push_str(out, ": ");
        push_str(out, headers.entries[i].1.as_str());
        push_str(out, "\n");
        proof {
            lemma_headers_text_push(headers@.take(i as int), headers@[i as int]);
            assert(headers@.take(i + 1) =~= headers@.take(i as int).push(headers@[i as int]));
            assert(out@ =~= before + header_text(headers@[i as int]));
            assert(out@ =~= old(out)@ + headers_text(headers@.take(i + 1)));
        }
        i = i + 1;
    }
    assert(headers@.take(i as int) =~= headers@);
}

fn push_wrapped(out: &mut Vec<char>, text: &[char])
    ensures
        final(out)@ == old(out)@ + wrapped(text@),
{
    let mut i: usize = 0;
    let ghost mut done: Seq<char> = Seq::empty();
    assert(text@.skip(0) =~= text@);
    assert(out@ =~= old(out)@ + done);
    while i < text.len()
        invariant
            i <= text@.len(),
            out@ == old(out)@ + done,
            done + wrapped(text@.skip(i as int)) == wrapped(text@),
        decreases text@.len() - i,
    {
        let length = text.len();
        let left = text.len() - i;
        let count = if left <= LINE_WIDTH {
            left
        } else {
            LINE_WIDTH
        };
        let ghost rest = text@.skip(i as int);
        let ghost before = out@;
        let mut k: usize = 0;
        while k < count
            invariant
                k <= count,
                i + count <= text@.len(),
                text@.len() <= usize::MAX,
                out@ == before + text@.subrange(i as int, i + k),
            decreases count - k,
        {
            out.push(text[i + k]);
            assert(out@ =~= before + text@.subrange(i as int, i + k + 1));
            k = k + 1;
        }
        push_str(out, "\n");
        proof {
            let line = text@.subrange(i as int, i + count);
            if left <= LINE_WIDTH {
                assert(line =~= rest);
                assert(text@.skip(i + count) =~= Seq::<char>::empty());
                assert(wrapped(text@.skip(i + count)) =~= Seq::<char>::empty());
                assert(wrapped(rest) =~= line + "\n"@ + wrapped(text@.skip(i + count)));
            } else {
                assert(line =~= rest.take(LINE_WIDTH as int));
                assert(rest.skip(LINE_WIDTH as int) =~= text@.skip(i + count));
            }
            assert(done + (line + "\n"@) + wrapped(text@.skip(i + count)) =~= done + wrapped(
                rest,
            ));
            done = done + (line + "\n"@);
            assert(out@ =~= old(out)@ + done);
        }
        i = i + count;
    }
    assert(wrapped(text@.skip(i as int)) =~= Seq::<char>::empty());
    assert(done =~= wrapped(text@));
}

/// Encodes `payload` as an armor of kind `envelope` with the headers
/// `headers`. Gives nothing where no armor can be made of the envelope and
/// the headers.
pub fn encode(envelope: ArmorType, headers: &ArmorHeader, payload: &[u8]) -> (armor: Option<
    String,
>)
    ensures
        match armor {
            Some(text) => encodable(envelope, headers@) && text@ == encode_spec(
                envelope,
                headers@,
                payload@,
            ),
            None => !encodable(envelope, headers@),
        },
{
    if !is_encodable(envelope, headers) {
        return None;
    }
    let mut out: Vec<char> = Vec::new();
    push_boundary(&mut out, "BEGIN ", envelope);
    push_str(&mut out, "\n");
    push_headers(&mut out, headers);
    push_str(&mut out, "\n");
    let body = base64_encode(payload);
    push_wrapped(&mut out, body.as_slice());
    push_str(&mut out, "=");
    let crc = crc_octets(payload) as u32;
    let mut octets: Vec<u8> = Vec::new();
    octets.push((crc / 65536 % 256) as u8);
    octets.push((crc / 256 % 256) as u8);
    octets.push((crc % 256) as u8);
    assert(octets@ =~= crc_octets_of(crc24(payload@)));
    let mut checksum = base64_encode(octets.as_slice());
    out.append(&mut checksum);
    push_str(&mut out, "\n");
    push_boundary(&mut out, "END ", envelope);
    push_str(&mut out, "\n");
    assert(out@ =~= encode_spec(envelope, headers@, payload@)) by {
        reveal(encode_spec);
    }
    Some(from_chars(out.as_slice()))
}

} // verus!
