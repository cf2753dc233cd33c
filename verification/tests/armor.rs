use pgp_armor::armor::{decode, encode, is_encodable};
use pgp_armor::crc24::crc_octets;
use pgp_armor::message::{
    atype, ArmorError, ArmorHeader, ArmorType, ArmoredMessage, Diagnostic, HeaderLineType,
};
use pgp_armor::token::Location;

fn rfc_message() -> String {
    String::from(
        "-----BEGIN PGP MESSAGE-----\n\
         Version: OpenPrivacy 0.99\n\
         \n\
         yDgBO22WxBHv7O8X7O/jygAEzol56iUKiXmV+XmpCtmpqQUKiQrFqclFqUDBovzS\n\
         vBSFjNSiVHsuAA==\n\
         =njUN\n\
         -----END PGP MESSAGE-----",
    )
}

fn headers(entries: &[(HeaderLineType, &str)]) -> ArmorHeader {
    let mut headers = ArmorHeader::new();
    for (key, value) in entries {
        headers.entries.push((key.clone(), String::from(*value)));
    }
    headers
}

fn other(name: &str) -> HeaderLineType {
    HeaderLineType::Other(String::from(name))
}

fn at(absolute: usize) -> Location {
    Location { absolute }
}

fn armor(kind: &str, header_lines: &str, body: &str) -> String {
    format!("-----BEGIN {}-----\n{}\n{}-----END {}-----\n", kind, header_lines, body, kind)
}

#[test]
fn canonical_message_decodes() {
    let (message, diagnostics) = decode(&rfc_message()).unwrap();
    assert_eq!(message.envelope, ArmorType::Message);
    assert_eq!(
        message.headers.entries,
        vec![(HeaderLineType::Version, String::from("OpenPrivacy 0.99"))]
    );
    assert_eq!(message.payload.len(), 58);
    assert_eq!(message.payload[0], 0xC8);
    assert_eq!(message.payload[57], 0x00);
    assert_eq!(message.declared_crc, 0x9E350D);
    assert_eq!(message.computed_crc, 0x9E350D);
    assert_eq!(message.computed_crc as usize, crc_octets(&message.payload));
    assert!(diagnostics.is_empty());
}

#[test]
fn corrupted_checksum_is_a_mismatch() {
    let text = rfc_message().replace("=njUN", "=njUM");
    assert_eq!(
        decode(&text),
        Err(ArmorError::ChecksumMismatch {
            declared: 0x9E350C,
            computed: 0x9E350D,
            location: at(137),
        })
    );
}

#[test]
fn empty_payload_round_trip() {
    let text = encode(ArmorType::Signature, &ArmorHeader::new(), &[]).unwrap();
    assert_eq!(text, "-----BEGIN PGP SIGNATURE-----\n\n=twTO\n-----END PGP SIGNATURE-----\n");
    let (message, diagnostics) = decode(&text).unwrap();
    assert_eq!(message.envelope, ArmorType::Signature);
    assert_eq!(message.payload.len(), 0);
    assert_eq!(message.declared_crc, 0xB704CE);
    assert_eq!(message.computed_crc, 0xB704CE);
    assert!(message.headers.entries.is_empty());
    assert!(diagnostics.is_empty());
}

#[test]
fn message_part_x_of_y() {
    let text = armor("PGP MESSAGE, PART 2/3", "", "Zm9v\n=T8JV\n");
    let (message, _) = decode(&text).unwrap();
    assert_eq!(message.envelope, ArmorType::MessagePartXofY(2, 3));
    assert_eq!(message.payload, b"foo".to_vec());
}

#[test]
fn message_part_edges() {
    let crc = format!("={}\n", crc_text(b"foo"));
    let body = format!("Zm9v\n{}", crc);
    let (message, _) = decode(&armor("PGP MESSAGE, PART 1/1", "", &body)).unwrap();
    assert_eq!(message.envelope, ArmorType::MessagePartXofY(1, 1));
    let (message, _) = decode(&armor("PGP MESSAGE, PART 7", "", &body)).unwrap();
    assert_eq!(message.envelope, ArmorType::MessagePartX(7));
    let (message, _) = decode(&armor("PGP MESSAGE, PART 007/10", "", &body)).unwrap();
    assert_eq!(message.envelope, ArmorType::MessagePartXofY(7, 10));
    assert_eq!(
        decode(&armor("PGP MESSAGE, PART 0/5", "", &body)),
        Err(ArmorError::InvalidPartIndex { x: 0, y: 5, location: at(11) })
    );
    assert_eq!(
        decode(&armor("PGP MESSAGE, PART 6/5", "", &body)),
        Err(ArmorError::InvalidPartIndex { x: 6, y: 5, location: at(11) })
    );
    assert_eq!(
        decode(&armor("PGP MESSAGE, PART 0", "", &body)),
        Err(ArmorError::InvalidPartIndex { x: 0, y: 0, location: at(11) })
    );
    assert_eq!(
        decode(&armor("PGP MESSAGE, PART 2/", "", &body)),
        Err(ArmorError::MalformedHeaderLine { location: at(31) })
    );
    assert_eq!(
        decode(&armor("PGP MESSAGE, PART x", "", &body)),
        Err(ArmorError::MalformedHeaderLine { location: at(29) })
    );
    assert_eq!(
        decode(&armor("PGP MESSAGE, PART 99999999999999999999999999", "", &body)),
        Err(ArmorError::MalformedHeaderLine { location: at(29) })
    );
}

fn crc_text(payload: &[u8]) -> String {
    let text = encode(ArmorType::Message, &ArmorHeader::new(), payload).unwrap();
    let at = text.find("\n=").unwrap();
    String::from(&text[at + 2..at + 6])
}

#[test]
fn envelope_mismatch_is_fatal() {
    let text = rfc_message().replace("END PGP MESSAGE", "END PGP SIGNATURE");
    assert_eq!(
        decode(&text),
        Err(ArmorError::MismatchedEnvelope {
            begin: ArmorType::Message,
            end: ArmorType::Signature,
            location: at(143),
        })
    );
    let text = armor("PGP MESSAGE, PART 1/2", "", "Zm9v\n=T8JV\n")
        .replace("END PGP MESSAGE, PART 1/2", "END PGP MESSAGE, PART 1/3");
    assert_eq!(
        decode(&text),
        Err(ArmorError::MismatchedEnvelope {
            begin: ArmorType::MessagePartXofY(1, 2),
            end: ArmorType::MessagePartXofY(1, 3),
            location: at(50),
        })
    );
}

#[test]
fn character_outside_the_alphabet_in_the_payload() {
    let text = rfc_message().replace("vBSFjNSiVHsuAA==", "vBSF*NSiVHsuAA==");
    assert_eq!(
        decode(&text),
        Err(ArmorError::InvalidBase64Character { ch: '*', location: at(124) })
    );
    // A space within a payload line is no white space at its end.
    let text = rfc_message().replace("vBSFjNSiVHsuAA==", "vBSF NSiVHsuAA==");
    assert_eq!(
        decode(&text),
        Err(ArmorError::InvalidBase64Character { ch: ' ', location: at(124) })
    );
    let text = rfc_message().replace("vBSFjNSiVHsuAA==", "\u{e9}BSF-----iVHsuAA==");
    assert_eq!(
        decode(&text),
        Err(ArmorError::InvalidBase64Character { ch: '\u{e9}', location: at(120) })
    );
    let text = rfc_message().replace("vBSFjNSiVHsuAA==", "vBSFBEGIN iVHsuAA==");
    assert_eq!(
        decode(&text),
        Err(ArmorError::InvalidBase64Character { ch: ' ', location: at(129) })
    );
}

#[test]
fn payload_may_hold_what_looks_like_a_keyword() {
    // "Hash", "Version" and the like are letters of the alphabet too.
    let payload: Vec<u8> = pgp_armor::base64::base64_decode(
        &"HashVersionCommentCharsetMessageIDBEGINEND+".chars().chain("A".chars()).collect::<Vec<char>>(),
    )
    .unwrap()
    .octets;
    let text = encode(ArmorType::Message, &ArmorHeader::new(), &payload).unwrap();
    assert!(text.contains("HashVersionCommentCharsetMessageIDBEGINEND+A"));
    let (message, _) = decode(&text).unwrap();
    assert_eq!(message.payload, payload);
}

#[test]
fn trailing_white_space_on_payload_lines_is_passed_over() {
    let text = rfc_message()
        .replace("FqUDBovzS\n", "FqUDBovzS  \t\n")
        .replace("=njUN\n", "=njUN \n");
    let (message, _) = decode(&text).unwrap();
    assert_eq!(message.payload.len(), 58);
}

#[test]
fn line_endings_of_all_three_kinds() {
    let (lf, _) = decode(&rfc_message()).unwrap();
    let (crlf, _) = decode(&rfc_message().replace("\n", "\r\n")).unwrap();
    let (cr, _) = decode(&rfc_message().replace("\n", "\r")).unwrap();
    assert_eq!(lf, crlf);
    assert_eq!(lf, cr);
    let (tail, _) = decode(&(rfc_message() + "\r\n")).unwrap();
    assert_eq!(lf, tail);
    let (tail, _) = decode(&(rfc_message() + "\n\n")).unwrap();
    assert_eq!(lf, tail);
}

#[test]
fn blank_line_may_hold_spaces() {
    let text = rfc_message().replace("0.99\n\n", "0.99\n  \t\n");
    let (message, _) = decode(&text).unwrap();
    assert_eq!(message.payload.len(), 58);
}

#[test]
fn hash_may_come_twice_other_reserved_keys_may_not() {
    let text = armor(
        "PGP SIGNATURE",
        "Hash: SHA1\nComment: first\nHash: SHA256\nX-Note: a\nComment: second\nX-Note: b\n",
        "Zm9v\n=T8JV\n",
    );
    let (message, diagnostics) = decode(&text).unwrap();
    assert_eq!(
        message.headers.entries,
        vec![
            (HeaderLineType::Hash, String::from("SHA1")),
            (HeaderLineType::Hash, String::from("SHA256")),
            (other("X-Note"), String::from("a")),
            (HeaderLineType::Comment, String::from("second")),
            (other("X-Note"), String::from("b")),
        ]
    );
    assert_eq!(
        diagnostics,
        vec![Diagnostic::DuplicateHeader { key: HeaderLineType::Comment, location: at(79) }]
    );
}

#[test]
fn header_lines_lose_the_white_space_around_them() {
    let text = armor(
        "PGP MESSAGE",
        "  Version: 1.0  \t\nComment:   two  words\nCharset: \nMessageID: BEGIN -----: x\n",
        "Zm9v\n=T8JV\n",
    );
    let (message, diagnostics) = decode(&text).unwrap();
    assert_eq!(
        message.headers.entries,
        vec![
            (HeaderLineType::Version, String::from("1.0")),
            (HeaderLineType::Comment, String::from("  two  words")),
            (HeaderLineType::Charset, String::from("")),
            (HeaderLineType::MessageID, String::from("BEGIN -----: x")),
        ]
    );
    assert!(diagnostics.is_empty());
}

#[test]
fn header_names() {
    let text = armor(
        "PGP MESSAGE",
        "Versions: a\nX-----Y: b\n9: c\nHashHash: d\n",
        "Zm9v\n=T8JV\n",
    );
    let (message, _) = decode(&text).unwrap();
    assert_eq!(
        message.headers.entries,
        vec![
            (other("Versions"), String::from("a")),
            (other("X-----Y"), String::from("b")),
            (other("9"), String::from("c")),
            (other("HashHash"), String::from("d")),
        ]
    );
    for (bad, place) in [
        ("-x: a\n", 28),
        ("x y: a\n", 29),
        ("x_y: a\n", 29),
        (": a\n", 28),
        ("x:a\n", 29),
        ("x\n", 29),
        ("BEGIN : a\n", 28),
    ] {
        assert_eq!(
            decode(&armor("PGP MESSAGE", bad, "Zm9v\n=T8JV\n")),
            Err(ArmorError::MalformedHeaderBlock { location: at(place) }),
            "{:?}",
            bad
        );
    }
}

#[test]
fn the_input_may_not_end_within_the_armor() {
    let whole = rfc_message();
    assert_eq!(decode(""), Err(ArmorError::UnexpectedEof { location: at(0) }));
    for cut in [5, 11, 22, 27, 28, 35, 37, 50, 54, 55, 70, 130, 136, 137, 142, 143, 148, 152, 163] {
        assert_eq!(
            decode(&whole[..cut]),
            Err(ArmorError::UnexpectedEof { location: at(cut) }),
            "cut at {}",
            cut
        );
    }
}

#[test]
fn boundary_lines_must_be_as_the_grammar_has_them() {
    for (bad, place) in [
        ("----BEGIN PGP MESSAGE-----\n\nZm9v\n=T8JV\n-----END PGP MESSAGE-----\n", 0),
        (" -----BEGIN PGP MESSAGE-----\n\nZm9v\n=T8JV\n-----END PGP MESSAGE-----\n", 0),
        ("-----BEGINPGP MESSAGE-----\n\nZm9v\n=T8JV\n-----END PGP MESSAGE-----\n", 5),
        ("-----END PGP MESSAGE-----\n\nZm9v\n=T8JV\n-----END PGP MESSAGE-----\n", 5),
        ("-----BEGIN PGP MASSAGE-----\n\nZm9v\n=T8JV\n-----END PGP MESSAGE-----\n", 11),
        ("-----BEGIN PGP MESSAGE----\n\nZm9v\n=T8JV\n-----END PGP MESSAGE-----\n", 22),
        ("-----BEGIN PGP MESSAGE----- \n\nZm9v\n=T8JV\n-----END PGP MESSAGE-----\n", 27),
        ("-----BEGIN PGP MESSAGE-----\n\nZm9v\n=T8JV\n-----BEGIN PGP MESSAGE-----\n", 45),
        ("-----BEGIN PGP MESSAGE-----\n\nZm9v\n=T8JV\n\n-----END PGP MESSAGE-----\n", 39),
        ("-----BEGIN PGP MESSAGE-----\n\nZm9v\n=T8JV\n-----END PGP MESSAGE-----\nx", 66),
    ] {
        assert_eq!(
            decode(bad),
            Err(ArmorError::MalformedHeaderLine { location: at(place) }),
            "{:?}",
            bad
        );
    }
}

#[test]
fn header_block_needs_its_blank_line() {
    assert_eq!(
        decode("-----BEGIN PGP MESSAGE-----\nZm9v\n=T8JV\n-----END PGP MESSAGE-----\n"),
        Err(ArmorError::MalformedHeaderBlock { location: at(32) })
    );
}

#[test]
fn blank_line_within_the_payload_is_an_error() {
    assert_eq!(
        decode("-----BEGIN PGP MESSAGE-----\n\nZm9v\n\nZm9v\n=T8JV\n-----END PGP MESSAGE-----\n"),
        Err(ArmorError::InvalidBase64Character { ch: '\n', location: at(33) })
    );
    assert_eq!(
        decode("-----BEGIN PGP MESSAGE-----\n\n  \nZm9v\n=T8JV\n-----END PGP MESSAGE-----\n"),
        Err(ArmorError::InvalidBase64Character { ch: ' ', location: at(29) })
    );
}

#[test]
fn pads_within_the_payload() {
    let text = armor("PGP MESSAGE", "", "Zg==\nZm9v\n=T8JV\n");
    assert_eq!(decode(&text), Err(ArmorError::InvalidPadding { location: at(29) }));
    let text = armor("PGP MESSAGE", "", "Zm9\n=T8JV\n");
    assert_eq!(decode(&text), Err(ArmorError::InvalidPadding { location: at(29) }));
}

#[test]
fn checksum_line_must_hold_four_characters_of_the_alphabet() {
    assert_eq!(
        decode(&armor("PGP MESSAGE", "", "Zm9v\n=8Dh\n")),
        Err(ArmorError::InvalidPadding { location: at(34) })
    );
    assert_eq!(
        decode(&armor("PGP MESSAGE", "", "Zm9v\n=T8JV8Dhz\n")),
        Err(ArmorError::InvalidPadding { location: at(34) })
    );
    assert_eq!(
        decode(&armor("PGP MESSAGE", "", "Zm9v\n=8D==\n")),
        Err(ArmorError::InvalidPadding { location: at(34) })
    );
    assert_eq!(
        decode(&armor("PGP MESSAGE", "", "Zm9v\n=\n")),
        Err(ArmorError::InvalidPadding { location: at(34) })
    );
    assert_eq!(
        decode(&armor("PGP MESSAGE", "", "Zm9v\n=8D!z\n")),
        Err(ArmorError::InvalidBase64Character { ch: '!', location: at(37) })
    );
    assert_eq!(
        decode(&armor("PGP MESSAGE", "", "Zm9v\n")),
        Err(ArmorError::InvalidBase64Character { ch: '-', location: at(34) })
    );
}

#[test]
fn tail_with_spare_bits_is_remarked_on() {
    // "Zh==" holds the octet "f" and has the low bits of its second sextet set.
    let crc = crc_text(b"f");
    let text = armor("PGP MESSAGE", "", &format!("Zh==\n={}\n", crc));
    let (message, diagnostics) = decode(&text).unwrap();
    assert_eq!(message.payload, b"f".to_vec());
    assert_eq!(diagnostics, vec![Diagnostic::NonCanonicalTail { location: at(29) }]);
}

fn round_trip(envelope: ArmorType, headers: &ArmorHeader, payload: &[u8]) {
    let text = encode(envelope, headers, payload).unwrap();
    let (message, diagnostics) = decode(&text).unwrap();
    assert_eq!(
        message,
        ArmoredMessage {
            envelope,
            headers: headers.clone(),
            payload: payload.to_vec(),
            declared_crc: crc_octets(payload) as u32,
            computed_crc: crc_octets(payload) as u32,
        }
    );
    assert!(diagnostics.is_empty());
    // Encoding what was decoded and decoding again changes nothing.
    let again = encode(message.envelope, &message.headers, &message.payload).unwrap();
    assert_eq!(again, text);
    assert_eq!(decode(&again).unwrap().0, message);
}

#[test]
fn payloads_of_every_length_modulo_three_round_trip() {
    let mut payload: Vec<u8> = Vec::new();
    for i in 0..200u32 {
        round_trip(ArmorType::Message, &ArmorHeader::new(), &payload);
        payload.push((i * 31 + 7) as u8);
    }
}

#[test]
fn every_kind_of_envelope_round_trips() {
    let some_headers = headers(&[
        (HeaderLineType::Version, "1"),
        (HeaderLineType::Hash, "SHA1"),
        (HeaderLineType::Hash, "SHA256, SHA512"),
        (HeaderLineType::Comment, "BEGIN -----END PGP MESSAGE----- : =="),
        (other("X-Custom-9"), ""),
        (other("Hashes"), "\t leading white space stays"),
        (HeaderLineType::MessageID, "\u{e9}\u{20ac}"),
        (HeaderLineType::Charset, "UTF-8"),
    ]);
    for envelope in [
        ArmorType::Message,
        ArmorType::PublicKeyBlock,
        ArmorType::PrivateKeyBlock,
        ArmorType::Signature,
        ArmorType::MessagePartXofY(1, 1),
        ArmorType::MessagePartXofY(12, 345),
        ArmorType::MessagePartX(1),
        ArmorType::MessagePartX(usize::MAX),
    ] {
        round_trip(envelope, &some_headers, b"some octets to put into an armor");
        round_trip(envelope, &ArmorHeader::new(), b"");
    }
}

#[test]
fn decoding_normalizes() {
    let text = rfc_message().replace("\n", "\r\n").replace("Version: ", " Version: ");
    let (first, _) = decode(&text).unwrap();
    let again = encode(first.envelope, &first.headers, &first.payload).unwrap();
    let (second, _) = decode(&again).unwrap();
    assert_eq!(first, second);
    assert_eq!(again, rfc_message() + "\n");
}

#[test]
fn encode_refuses_what_no_armor_can_hold() {
    let none = ArmorHeader::new();
    assert!(!is_encodable(ArmorType::MessagePartXofY(0, 5), &none));
    assert!(!is_encodable(ArmorType::MessagePartXofY(3, 2), &none));
    assert!(!is_encodable(ArmorType::MessagePartX(0), &none));
    assert!(is_encodable(ArmorType::MessagePartXofY(1, 1), &none));
    assert_eq!(encode(ArmorType::MessagePartXofY(0, 5), &none, b"x"), None);
    for bad in [
        headers(&[(HeaderLineType::Comment, "two\nlines")]),
        headers(&[(HeaderLineType::Comment, "ends in a space ")]),
        headers(&[(HeaderLineType::Comment, "ends in a tab\t")]),
        headers(&[(HeaderLineType::Comment, "carriage\rreturn")]),
        headers(&[(other(""), "x")]),
        headers(&[(other("-x"), "x")]),
        headers(&[(other("a b"), "x")]),
        headers(&[(other("a:b"), "x")]),
        headers(&[(other("Version"), "x")]),
        headers(&[(HeaderLineType::Version, "1"), (HeaderLineType::Version, "2")]),
        headers(&[
            (HeaderLineType::Charset, "a"),
            (HeaderLineType::Hash, "b"),
            (HeaderLineType::Charset, "c"),
        ]),
    ] {
        assert!(!is_encodable(ArmorType::Message, &bad), "{:?}", bad);
        assert_eq!(encode(ArmorType::Message, &bad, b"x"), None);
    }
    assert!(is_encodable(
        ArmorType::Message,
        &headers(&[(HeaderLineType::Hash, "a"), (HeaderLineType::Hash, "a")])
    ));
    assert!(is_encodable(ArmorType::Message, &headers(&[(other("x"), "a"), (other("x"), "b")])));
}

#[test]
fn encoder_breaks_lines_at_64_characters() {
    let payload = vec![0u8; 48 * 2 + 1];
    let text = encode(ArmorType::Message, &ArmorHeader::new(), &payload).unwrap();
    let lines: Vec<&str> = text.lines().collect();
    assert_eq!(lines[2].len(), 64);
    assert_eq!(lines[3].len(), 64);
    assert_eq!(lines[4], "AA==");
    assert!(lines[5].starts_with('='));
    assert_eq!(lines[5].len(), 5);
}

#[test]
fn label_of_each_kind_of_envelope() {
    assert_eq!(atype(ArmorType::Message), "MESSAGE");
    assert_eq!(atype(ArmorType::PublicKeyBlock), "PUBLIC KEY BLOCK");
    assert_eq!(atype(ArmorType::PrivateKeyBlock), "PRIVATE KEY BLOCK");
    assert_eq!(atype(ArmorType::Signature), "SIGNATURE");
    assert_eq!(atype(ArmorType::MessagePartXofY(2, 13)), "MESSAGE, PART 2/13");
    assert_eq!(atype(ArmorType::MessagePartX(40)), "MESSAGE, PART 40");
    assert_eq!(atype(ArmorType::MessagePartX(0)), "MESSAGE, PART 0");
}

struct Lcg(u64);

impl Lcg {
    fn next(&mut self) -> u64 {
        self.0 = self.0.wrapping_mul(6364136223846793005).wrapping_add(1442695040888963407);
        self.0 >> 33
    }

    fn below(&mut self, n: usize) -> usize {
        (self.next() % n as u64) as usize
    }
}

#[test]
fn armors_of_many_makes_round_trip() {
    let mut rng = Lcg(7);
    let names = ["X-A", "Versions", "hash", "9-9", "Q", "Comment-----", "BEGIN", "PGP"];
    let values = ["", "v", "a: b", "-----BEGIN PGP MESSAGE-----", "=AAAA", "  x",
        "\u{e9}\u{1F600}", "Hash"];
    for round in 0..300 {
        let mut headers = ArmorHeader::new();
        let mut seen: Vec<HeaderLineType> = Vec::new();
        for _ in 0..rng.below(5) {
            let key = match rng.below(7) {
                0 => HeaderLineType::Version,
                1 => HeaderLineType::Comment,
                2 => HeaderLineType::MessageID,
                3 => HeaderLineType::Hash,
                4 => HeaderLineType::Charset,
                _ => other(names[rng.below(names.len())]),
            };
            if key.is_single() && seen.contains(&key) {
                continue;
            }
            seen.push(key.clone());
            headers.entries.push((key, String::from(values[rng.below(values.len())])));
        }
        let envelope = match rng.below(6) {
            0 => ArmorType::Message,
            1 => ArmorType::PublicKeyBlock,
            2 => ArmorType::PrivateKeyBlock,
            3 => ArmorType::Signature,
            4 => {
                let y = 1 + rng.below(1000);
                ArmorType::MessagePartXofY(1 + rng.below(y), y)
            },
            _ => ArmorType::MessagePartX(1 + rng.below(1000)),
        };
        let payload: Vec<u8> = (0..rng.below(200)).map(|_| rng.next() as u8).collect();
        assert!(is_encodable(envelope, &headers), "round {}", round);
        round_trip(envelope, &headers, &payload);
    }
}

#[test]
fn damaged_armors_give_an_error_or_another_message() {
    let mut rng = Lcg(11);
    let whole: Vec<char> = rfc_message().chars().collect();
    let (good, _) = decode(&rfc_message()).unwrap();
    let spoilers = ['\n', '\r', ' ', '=', '-', ':', 'A', '\t', '*', '/', 'B', 'P', '\u{e9}'];
    let mut errors = 0;
    for _ in 0..2000 {
        let mut text = whole.clone();
        let at = rng.below(text.len());
        match rng.below(3) {
            0 => {
                text[at] = spoilers[rng.below(spoilers.len())];
            },
            1 => {
                text.remove(at);
            },
            _ => {
                text.insert(at, spoilers[rng.below(spoilers.len())]);
            },
        }
        let text: String = text.into_iter().collect();
        match decode(&text) {
            Ok((message, _)) => {
                // What still decodes holds a payload with its own checksum.
                assert_eq!(message.declared_crc, message.computed_crc);
                assert_eq!(message.computed_crc as usize, crc_octets(&message.payload));
                assert_eq!(message.envelope, good.envelope);
            },
            Err(_) => {
                errors += 1;
            },
        }
    }
    assert!(errors > 1000);
}
