use cidr_routing_table::{cut_addr, get_cidr_mask, NetworkParseError};

#[test]
fn test_get_valid_cidr_mask() {
    let test_cases = [
        (0, 0b00000000000000000000000000000000),
        (1, 0b10000000000000000000000000000000),
        (4, 0b11110000000000000000000000000000),
        (5, 0b11111000000000000000000000000000),
        (10, 0b11111111110000000000000000000000),
        (28, 0b11111111111111111111111111110000),
        (31, 0b11111111111111111111111111111110),
        (32, 0b11111111111111111111111111111111),
    ];

    for (input, expected) in test_cases {
        let actual = get_cidr_mask(input);
        assert_eq!(
            Ok(expected),
            actual,
            "we expect cidr with math {input} to be {expected}"
        );
    }
}

#[test]
fn test_get_invalid_cidr_mask() {
    let test_cases = [33, 34, 35, 50, 100];

    for input in test_cases {
        let actual = get_cidr_mask(input);
        assert_eq!(Err(NetworkParseError::NetworkLengthError), actual);
    }
}

#[test]
fn test_cut_valid_addr() {
    let test_cases = [
        (
            0b11001101010111100001101010111010u32,
            7,
            0b11001100000000000000000000000000u32,
        ),
        (
            0b11001101010111100001101010111010,
            0,
            0b00000000000000000000000000000000,
        ),
        (
            0b11001101010111100001101010111010,
            32,
            0b11001101010111100001101010111010,
        ),
        (
            0b11001101010111100001101010111010,
            30,
            0b11001101010111100001101010111000,
        ),
    ];

    for (input, len, expected) in test_cases {
        let actual = cut_addr(input, len);

        assert_eq!(actual, Ok(expected));
    }
}

#[test]
fn test_cut_invalid_addr() {
    let test_cases = [33, 35, 100, u8::MAX];

    for len in test_cases {
        let addr = u32::from_be_bytes([127, 0, 0, 1]);
        let actual = cut_addr(addr, len);

        assert_eq!(actual, Err(NetworkParseError::NetworkLengthError));
    }
}
