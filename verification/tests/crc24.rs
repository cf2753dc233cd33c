use pgp_armor::crc24::{crc_octets, Crc24, CRC24_INIT};

struct TestCase {
    octets: Vec<u8>,
    crc: Crc24,
}

struct Test {
    data: Vec<TestCase>,
}

// The checksum of no octets is the initial value of the register.
fn crc_octets_empty_case() -> Test {
    Test { data: vec![TestCase { octets: vec![], crc: CRC24_INIT as usize }] }
}

fn crc_octets_test_cases() -> Test {
    Test {
        data: vec![
            TestCase { octets: vec![0x14, 0xFB, 0x9C, 0x03, 0xD9, 0x7E], crc: 6927321 },
            TestCase { octets: vec![0x14, 0xFB, 0x9C, 0x03, 0xD9], crc: 8726480 },
            TestCase { octets: vec![0x14, 0xFB, 0x9C, 0x03], crc: 15804535 },
            TestCase {
                octets: vec![
                    0xD5, 0xF0, 0x32, 0x8A, 0xA0, 0xA9, 0x1F, 0xAD, 0x1D, 0xDC, 0x22, 0xB6,
                ],
                crc: 6688197,
            },
        ],
    }
}

fn run_tests(test: &Test) {
    for test_case in test.data.iter() {
        let crc24 = crc_octets(test_case.octets.as_ref());
        assert_eq!(test_case.crc, crc24);
    }
}

#[test]
fn test_crc_octets() {
    run_tests(&crc_octets_test_cases());
}

#[test]
fn test_crc_octets_empty_case() {
    run_tests(&crc_octets_empty_case());
}

#[test]
fn crc_of_no_octets_is_the_initial_value() {
    assert_eq!(crc_octets(&[]), 0xB704CE);
}

#[test]
fn crc_stays_within_24_bits() {
    let mut octets: Vec<u8> = Vec::new();
    for i in 0..300u32 {
        octets.push((i * 7 + 3) as u8);
        assert_eq!(crc_octets(&octets) & 0xFF00_0000, 0);
    }
}

#[test]
fn crc_of_one_octet() {
    // One octet of zeros leaves the initial value to be shifted eight times.
    assert_eq!(crc_octets(&[0x00]), 0x6169D3);
}
