use cidr_routing_table::{Ipv4Cidr, NetworkParseError};
use std::str::FromStr;

#[test]
fn test_parse_errors_by_kind() {
    assert_eq!(
        Ipv4Cidr::from_str("192.168.0.0/33"),
        Err(NetworkParseError::NetworkLengthError)
    );
    assert_eq!(
        Ipv4Cidr::from_str("bad/12"),
        Err(NetworkParseError::AddrParseError)
    );
    assert_eq!(
        Ipv4Cidr::from_str("192.168.0.0/notanumber"),
        Err(NetworkParseError::ParseIntError)
    );
    assert_eq!(
        Ipv4Cidr::from_str("nodash"),
        Err(NetworkParseError::CidrParseError)
    );
}

#[test]
fn test_parse_shape() {
    let test_cases = ["", "1.2.3.4", "1.2.3.4/8/9", "//", "1.2.3.4/8/", "/1.2.3.4/8"];

    for text in test_cases {
        assert_eq!(
            Ipv4Cidr::from_str(text),
            Err(NetworkParseError::CidrParseError),
            "we expect {text} to have the wrong shape"
        );
    }
}

#[test]
fn test_parse_address_part() {
    let test_cases = [
        "/8",
        "1.2.3/8",
        "1.2.3.4.5/8",
        "1.2.3./8",
        ".1.2.3/8",
        "1..2.3/8",
        "01.2.3.4/8",
        "1.2.3.04/8",
        "00.0.0.0/8",
        "256.0.0.0/8",
        "1.2.3.1000/8",
        "1.2.3.4 /8",
        " 1.2.3.4/8",
        "1.2.3.-4/8",
        "+1.2.3.4/8",
        "1.2.3.4a/8",
        "0x1.2.3.4/8",
        "1,2,3,4/8",
        "\u{ff11}.2.3.4/8",
        "1.2.3.4\u{0}/8",
    ];

    for text in test_cases {
        assert_eq!(
            Ipv4Cidr::from_str(text),
            Err(NetworkParseError::AddrParseError),
            "we expect the address of {text:?} to be invalid"
        );
    }
}

#[test]
fn test_parse_length_part() {
    let test_cases = [
        "0.0.0.0/",
        "0.0.0.0/+",
        "0.0.0.0/-",
        "0.0.0.0/-0",
        "0.0.0.0/-1",
        "0.0.0.0/++1",
        "0.0.0.0/1+",
        "0.0.0.0/ 1",
        "0.0.0.0/1 ",
        "0.0.0.0/256a",
        "0.0.0.0/99999999999999999999999999x",
        "0.0.0.0/300 ",
        "0.0.0.0/0x10",
        "0.0.0.0/1.0",
        "0.0.0.0/\u{ff11}",
        "0.0.0.0/8\n",
    ];

    for text in test_cases {
        assert_eq!(
            Ipv4Cidr::from_str(text),
            Err(NetworkParseError::ParseIntError),
            "we expect the length of {text:?} to be invalid"
        );
    }
}

#[test]
fn test_parse_accepts_sign_and_leading_zeros_in_length() {
    let expected = Ipv4Cidr::new(u32::from_be_bytes([10, 0, 0, 0]), 8);

    for text in ["10.0.0.0/8", "10.0.0.0/+8", "10.0.0.0/08", "10.0.0.0/+0000000000000000000008"] {
        assert_eq!(Ipv4Cidr::from_str(text), expected, "we expect {text} to be valid");
    }
    assert_eq!(
        Ipv4Cidr::from_str("0.0.0.0/000"),
        Ipv4Cidr::new(0, 0)
    );
}

#[test]
fn test_parse_length_above_32() {
    for len in 33..=1000u32 {
        let text = format!("0.0.0.0/{len}");
        assert_eq!(
            Ipv4Cidr::from_str(&text),
            Err(NetworkParseError::NetworkLengthError),
            "we expect {text} to name no block"
        );
    }
}

#[test]
fn test_parse_length_of_any_size_is_a_number() {
    let test_cases = [
        "192.168.0.0/256",
        "192.168.0.0/300",
        "0.0.0.0/255",
        "0.0.0.0/256",
        "0.0.0.0/+256",
        "0.0.0.0/0256",
        "0.0.0.0/288",
        "0.0.0.0/512",
        "0.0.0.0/65536",
        "0.0.0.0/4294967296",
        "0.0.0.0/4294967328",
        "0.0.0.0/18446744073709551616",
        "0.0.0.0/18446744073709551648",
        "0.0.0.0/99999999999999999999999999",
        "0.0.0.0/+340282366920938463463374607431768211488",
    ];

    for text in test_cases {
        assert_eq!(
            Ipv4Cidr::from_str(text),
            Err(NetworkParseError::NetworkLengthError),
            "we expect the length of {text} to be a number out of range"
        );
    }
}

#[test]
fn test_parse_exact_values() {
    let cidr = Ipv4Cidr::from_str("1.2.3.4/32").unwrap();
    assert_eq!(cidr.min(), 0x0102_0304);
    assert_eq!(cidr.prefix_len(), 32);

    let cidr = Ipv4Cidr::from_str("255.255.255.255/32").unwrap();
    assert_eq!(cidr.min(), 0xFFFF_FFFF);

    let cidr = Ipv4Cidr::from_str("0.0.0.0/0").unwrap();
    assert_eq!((cidr.min(), cidr.prefix_len()), (0, 0));

    let cidr = Ipv4Cidr::from_str("200.100.0.0/14").unwrap();
    assert_eq!((cidr.min(), cidr.prefix_len()), (0xC864_0000, 14));
}

#[test]
fn test_parse_reads_the_length_as_std_reads_a_number() {
    let lengths = [
        "0", "1", "8", "32", "33", "255", "256", "+0", "+32", "-0", "-1", "", "+", "-", "007",
        "0032", " 8", "8 ", "eight", "3.2", "1e1", "4294967296", "+-1", "0+", "\u{663}",
        "+4294967304", "300", "18446744073709551624",
    ];

    for length in lengths {
        let text = format!("0.0.0.0/{length}");
        let expected = match length.parse::<u128>() {
            Err(_) => Err(NetworkParseError::ParseIntError),
            Ok(len) if len <= 32 => Ipv4Cidr::new(0, len as u8),
            Ok(_) => Err(NetworkParseError::NetworkLengthError),
        };
        assert_eq!(
            Ipv4Cidr::from_str(&text),
            expected,
            "we expect the length of {text:?} to be read as std reads a number"
        );
    }
}

#[test]
fn test_parse_reads_each_byte_of_the_address() {
    for byte in 0..=255u32 {
        for place in 0..4usize {
            let mut bytes = [0u8; 4];
            bytes[place] = byte as u8;
            let text = format!("{}.{}.{}.{}/32", bytes[0], bytes[1], bytes[2], bytes[3]);
            assert_eq!(
                Ipv4Cidr::from_str(&text),
                Ok(Ipv4Cidr::new_host(u32::from_be_bytes(bytes))),
                "we expect {text} to be valid"
            );
        }
    }
}
