use common_data::codec::{decode_base64, decode_formatted, decode_payload, decode_text, decode_visited, get_result_from_str};
use common_data::{Currency, CurrencyVisitorResult, ParseCurrencyError};

#[test]
fn format_writes_amount_and_unit() {
    assert_eq!(Currency::Gold(150).format(), "150 gp");
    assert_eq!(Currency::Platinum(1).format(), "1 pp");
    assert_eq!(Currency::Silver(0).format(), "0 sp");
    assert_eq!(Currency::Copper(u64::MAX).format(), "18446744073709551615 cp");
}

#[test]
fn formatted_amounts_parse() {
    assert_eq!(decode_formatted("150 gp"), Ok(Currency::Gold(150)));
    assert_eq!(decode_formatted("  3 PP "), Ok(Currency::Platinum(3)));
    assert_eq!(decode_formatted("12\tsP"), Ok(Currency::Silver(12)));
    assert_eq!(decode_formatted("7 cp"), Ok(Currency::Copper(7)));
    assert_eq!(decode_formatted("0042 cp"), Ok(Currency::Copper(42)));
}

#[test]
fn malformed_formatted_amounts_are_rejected() {
    assert_eq!(decode_formatted("150gp"), Err(ParseCurrencyError::InvalidFormat));
    assert_eq!(decode_formatted("150 xp"), Err(ParseCurrencyError::InvalidFormat));
    assert_eq!(decode_formatted("gp 150"), Err(ParseCurrencyError::InvalidFormat));
    assert_eq!(decode_formatted("150 gp extra"), Err(ParseCurrencyError::InvalidFormat));
    assert_eq!(decode_formatted(""), Err(ParseCurrencyError::InvalidFormat));
    assert_eq!(decode_formatted("-5 gp"), Err(ParseCurrencyError::InvalidFormat));
}

#[test]
fn oversized_formatted_amounts_are_rejected() {
    assert_eq!(decode_formatted("18446744073709551615 cp"), Ok(Currency::Copper(u64::MAX)));
    assert_eq!(decode_formatted("18446744073709551616 cp"), Err(ParseCurrencyError::AmountTooLarge));
}

#[test]
fn formatted_round_trip() {
    for c in [Currency::Copper(19), Currency::Silver(10), Currency::Gold(0), Currency::Platinum(123)] {
        assert_eq!(decode_formatted(&c.format()), Ok(c));
        assert_eq!(decode_text(&c.format()), Ok(c));
    }
}

#[test]
fn base64_encoding_is_sixteen_big_endian_bytes() {
    assert_eq!(Currency::Copper(1).encode_base64(), "AAAAAAAAAAAAAAAAAAAAAQ==");
    assert_eq!(Currency::Platinum(123).encode_base64(), "AAAAAAAAAAAAAAAAAAHgeA==");
}

#[test]
fn base64_round_trip() {
    for c in [
        Currency::Copper(1),
        Currency::Copper(123),
        Currency::Silver(123),
        Currency::Gold(1),
        Currency::Platinum(123),
        Currency::Platinum(u64::MAX),
        Currency::Copper(0),
    ] {
        let decoded = decode_base64(&c.encode_base64()).unwrap();
        assert_eq!(decoded.copper_value(), c.copper_value());
        assert_eq!(decoded, c.to_largest_denomination());
        assert_eq!(decode_text(&c.encode_base64()), Ok(decoded));
    }
}

#[test]
fn base64_payloads_of_eight_and_sixteen_bytes() {
    assert_eq!(decode_base64("AAAAAAAAAHs="), Ok(Currency::Copper(123)));
    assert_eq!(decode_base64("AAAAAAAABdw="), Ok(Currency::Gold(15)));
    assert_eq!(decode_base64("AAAAAAAAAAAAAAAAAAAJxAECAwQ="), Ok(Currency::Gold(25)));
}

#[test]
fn bad_base64_payloads_are_rejected() {
    assert_eq!(decode_base64("AAAA"), Err(ParseCurrencyError::InvalidLength));
    assert_eq!(decode_base64("AB=="), Err(ParseCurrencyError::InvalidBase64));
    assert_eq!(decode_base64("not base64!"), Err(ParseCurrencyError::InvalidBase64));
    assert_eq!(decode_base64("AAAAAAAAA+gAAAAAAAAAAA=="), Err(ParseCurrencyError::AmountTooLarge));
    assert_eq!(decode_base64("AAAAAAAAAEAAAAAAAAAAAQ=="), Err(ParseCurrencyError::AmountTooLarge));
}

#[test]
fn texts_are_classified() {
    match get_result_from_str("AAAAAAAAAHs=") {
        Some(CurrencyVisitorResult::Base64(t)) => assert_eq!(t, "AAAAAAAAAHs="),
        _ => panic!("expected base64"),
    }
    match get_result_from_str("  150 gp ") {
        Some(CurrencyVisitorResult::Formatted(t)) => assert_eq!(t, "150 gp"),
        _ => panic!("expected a formatted amount"),
    }
    assert!(get_result_from_str("hello").is_none());
    assert!(get_result_from_str("150").is_none());
}

#[test]
fn texts_decode_by_kind() {
    assert_eq!(decode_text("AAAAAAAAAHs="), Ok(Currency::Copper(123)));
    assert_eq!(decode_text(" 150 gp"), Ok(Currency::Gold(150)));
    assert_eq!(decode_text("hello"), Err(ParseCurrencyError::Unrecognized));
}

#[test]
fn visited_values_decode() {
    assert_eq!(decode_visited(&CurrencyVisitorResult::Integer(1000)), Ok(Currency::Platinum(1)));
    assert_eq!(
        decode_visited(&CurrencyVisitorResult::Formatted("9 sp".to_string())),
        Ok(Currency::Silver(9))
    );
    assert_eq!(
        decode_visited(&CurrencyVisitorResult::Base64("AAAAAAAAAAAAAAAAAAAAAQ==".to_string())),
        Ok(Currency::Copper(1))
    );
}

#[test]
fn integer_round_trip() {
    for c in [Currency::Copper(0), Currency::Silver(12), Currency::Gold(5), Currency::Platinum(7)] {
        let v = c.raw_amount().unwrap();
        assert_eq!(decode_visited(&CurrencyVisitorResult::Integer(v)).unwrap().copper_value(), c.copper_value());
    }
}

#[test]
fn payload_bytes_decode_by_length() {
    assert_eq!(decode_payload(&[0, 0, 0, 0, 0, 0, 3, 232]), Ok(Currency::Platinum(1)));
    assert_eq!(decode_payload(&[0, 0, 0, 0, 0, 0, 0, 19]), Ok(Currency::Copper(19)));
    let mut sixteen = [0u8; 16];
    sixteen[15] = 100;
    assert_eq!(decode_payload(&sixteen), Ok(Currency::Gold(1)));
    assert_eq!(decode_payload(&[1, 2, 3]), Err(ParseCurrencyError::InvalidLength));
    assert_eq!(decode_payload(&[0u8; 12]), Err(ParseCurrencyError::InvalidLength));
    assert_eq!(decode_payload(&[]), Err(ParseCurrencyError::InvalidLength));
}

#[test]
fn currencies_parse_from_str() {
    assert_eq!("150 gp".parse::<Currency>(), Ok(Currency::Gold(150)));
    assert_eq!("nope".parse::<Currency>(), Err(ParseCurrencyError::InvalidFormat));
    assert_eq!("  7 CP ".parse::<Currency>(), Ok(Currency::Copper(7)));
    assert_eq!("3 Pp".parse::<Currency>(), Ok(Currency::Platinum(3)));
    assert_eq!("1000  sP".parse::<Currency>(), Ok(Currency::Silver(1000)));
    for bad in ["150", "150gp", "1.5 gp", "-3 cp", "5 xp"] {
        assert_eq!(bad.parse::<Currency>(), Err(ParseCurrencyError::InvalidFormat));
    }
    assert_eq!("18446744073709551616 cp".parse::<Currency>(), Err(ParseCurrencyError::AmountTooLarge));
    for c in [Currency::Gold(150), Currency::Copper(0), Currency::Platinum(u64::MAX)] {
        assert_eq!(c.format().parse::<Currency>(), Ok(c));
    }
}
