use protohackers::json::JsonNumber;
use protohackers::parse::parse_json;
use protohackers::prime::{extract_number, is_prime_integer, malformed_response, prime_response};

#[test]
fn test_is_prime_integer() {
    let test_values = [
        (0, false),
        (1, false),
        (-1, false),
        (-1337, false),
        (2, true),
        (3, true),
        (7, true),
        (61, true),
        (4, false),
        (9, false),
        (25, false),
        (49, false),
        (7919, true),
        (7917, false),
        (2147483647, true),
        (4294967297, false),
        (i64::MIN, false),
    ];

    for (num, expected_result) in test_values {
        assert_eq!(is_prime_integer(num), expected_result, "{}", num);
    }
}

#[test]
fn extracts_the_number_of_a_well_formed_request() {
    let parsed = parse_json(r#"{"method":"isPrime","number":123}"#);
    assert_eq!(extract_number(&parsed), Some(JsonNumber::from_u64(123)));

    let parsed = parse_json(r#"{"number":-2.5,"method":"isPrime"}"#);
    assert_eq!(
        extract_number(&parsed),
        Some(JsonNumber::from_parts(true, vec![2], vec![5]))
    );
}

#[test]
fn malformed_requests_have_no_number() {
    let cases = [
        r#"{"method":"isPrime","number":"123"}"#,
        r#"{"method":"isprime","number":123}"#,
        r#"{"method":"isPrime"}"#,
        r#"{"number":123}"#,
        r#"[1,2,3]"#,
        r#"{"method":"isPrime","number":123"#,
        r#"7"#,
    ];
    for case in cases {
        assert_eq!(extract_number(&parse_json(case)), None, "{}", case);
    }
}

#[test]
fn responses_are_single_lines() {
    assert_eq!(prime_response(true), "{\"method\":\"isPrime\",\"prime\":true}\n");
    assert_eq!(prime_response(false), "{\"method\":\"isPrime\",\"prime\":false}\n");
    assert_eq!(malformed_response(), "{\n");
}
