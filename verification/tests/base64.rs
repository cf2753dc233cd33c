use pgp_armor::base64::{base64_decode, base64_encode, Base64, Base64Error, Octet};

struct Test {
    data: Vec<Octet>,
}

fn base64_test_cases() -> Test {
    Test {
        data: vec![
            0x6E7995, 0xDB36D1, 0x5BB967, 0x68BC48, 0x6A9552, 0x67C806, 0x5E1AFE, 0x8CB6AA,
            0xE6F722, 0xE9B626, 0x2E72D1, 0xE5ABFD, 0x3CDEA8, 0x428010, 0xACD964, 0x6F902C,
        ],
    }
}

fn run_tests(test: &Test) {
    for test_case in test.data.iter() {
        let base64 = Base64::from_octet(*test_case);
        let result = base64.to_octet().unwrap();
        assert_eq!(*test_case, result);
    }
}

#[test]
fn test_base64() {
    run_tests(&base64_test_cases());
}

fn chars(text: &str) -> Vec<char> {
    text.chars().collect()
}

fn text(chars: &[char]) -> String {
    chars.iter().collect()
}

#[test]
fn group_of_more_than_24_bits_is_cut() {
    let run = Base64::from_octet(0xAB12_3456);
    assert_eq!(run.to_octet(), Some(0x0012_3456));
}

#[test]
fn run_of_five_sextets_has_no_group() {
    let mut run = Base64::from_octet(0x00FF_FFFF);
    run.push(1);
    assert_eq!(run.to_octet(), None);
}

#[test]
fn push_keeps_six_bits() {
    let mut run = Base64::new(&[]);
    run.push(0xFFFF_FFC1);
    assert_eq!(run.to_octet(), Some(1));
    assert_eq!(run, Base64::new(&[1]));
}

#[test]
fn push_octet_appends_four_sextets() {
    let mut run = Base64::new(&[]);
    run.push_octet(0x4D616E);
    assert_eq!(run, Base64::new(&[19, 22, 5, 46]));
}

#[test]
fn encode_pads_to_a_multiple_of_four() {
    assert_eq!(text(&base64_encode(b"")), "");
    assert_eq!(text(&base64_encode(b"f")), "Zg==");
    assert_eq!(text(&base64_encode(b"fo")), "Zm8=");
    assert_eq!(text(&base64_encode(b"foo")), "Zm9v");
    assert_eq!(text(&base64_encode(b"foob")), "Zm9vYg==");
    assert_eq!(text(&base64_encode(b"fooba")), "Zm9vYmE=");
    assert_eq!(text(&base64_encode(b"foobar")), "Zm9vYmFy");
    assert_eq!(text(&base64_encode(&[0xFB, 0xFF, 0xBE])), "+/++");
}

#[test]
fn decode_of_each_length_modulo_three() {
    let d = base64_decode(&chars("Zm9v")).unwrap();
    assert_eq!(d.octets, b"foo".to_vec());
    assert_eq!(d.warning, None);
    let d = base64_decode(&chars("Zg==")).unwrap();
    assert_eq!(d.octets, b"f".to_vec());
    assert_eq!(d.warning, None);
    let d = base64_decode(&chars("Zm8=")).unwrap();
    assert_eq!(d.octets, b"fo".to_vec());
    assert_eq!(d.warning, None);
    let d = base64_decode(&chars("")).unwrap();
    assert_eq!(d.octets, Vec::<u8>::new());
    assert_eq!(d.warning, None);
}

#[test]
fn decode_undoes_encode() {
    let mut octets: Vec<u8> = Vec::new();
    for i in 0..200u32 {
        let encoded = base64_encode(&octets);
        assert_eq!(encoded.len() % 4, 0);
        let decoded = base64_decode(&encoded).unwrap();
        assert_eq!(decoded.octets, octets);
        assert_eq!(decoded.warning, None);
        octets.push((i * 37 + 11) as u8);
    }
}

#[test]
fn decode_rejects_a_character_outside_the_alphabet() {
    assert_eq!(
        base64_decode(&chars("Zm*v")),
        Err(Base64Error::InvalidCharacter { ch: '*', index: 2 })
    );
    assert_eq!(
        base64_decode(&chars("Zm9v Zm9v")),
        Err(Base64Error::InvalidCharacter { ch: ' ', index: 4 })
    );
    // An invalid character is reported before a misplaced pad.
    assert_eq!(
        base64_decode(&chars("Zg==Zm9v!")),
        Err(Base64Error::InvalidCharacter { ch: '!', index: 8 })
    );
}

#[test]
fn decode_rejects_a_pad_before_the_last_group() {
    assert_eq!(base64_decode(&chars("Zg==Zm9v")), Err(Base64Error::EmbeddedPad { index: 2 }));
    assert_eq!(base64_decode(&chars("Zm8=Zm9v")), Err(Base64Error::EmbeddedPad { index: 3 }));
    assert_eq!(base64_decode(&chars("Zg======")), Err(Base64Error::EmbeddedPad { index: 2 }));
}

#[test]
fn decode_rejects_a_malformed_last_group() {
    assert_eq!(base64_decode(&chars("Zm9")), Err(Base64Error::InvalidPadding));
    assert_eq!(base64_decode(&chars("Z")), Err(Base64Error::InvalidPadding));
    assert_eq!(base64_decode(&chars("Z===")), Err(Base64Error::InvalidPadding));
    assert_eq!(base64_decode(&chars("====")), Err(Base64Error::InvalidPadding));
    assert_eq!(base64_decode(&chars("Zm9v=")), Err(Base64Error::InvalidPadding));
    assert_eq!(base64_decode(&chars("Zg=v")), Err(Base64Error::InvalidPadding));
    assert_eq!(base64_decode(&chars("Zm9vZg=")), Err(Base64Error::InvalidPadding));
}

#[test]
fn decode_reports_a_tail_with_spare_bits_and_goes_on() {
    // `h` is 33: its low four bits are not zero.
    let d = base64_decode(&chars("Zh==")).unwrap();
    assert_eq!(d.octets, b"f".to_vec());
    assert_eq!(d.warning, Some(Base64Error::NonCanonicalTail));
    // `9` is 61: its low two bits are not zero.
    let d = base64_decode(&chars("Zm9=")).unwrap();
    assert_eq!(d.octets, b"fo".to_vec());
    assert_eq!(d.warning, Some(Base64Error::NonCanonicalTail));
}
