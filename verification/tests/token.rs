use logban::daily_token;
use logban::token::to_hex;

#[test]
fn token_is_the_hex_digest_of_date_and_secret() {
    assert_eq!(daily_token("20220525", "s3cr3t"), b"85a19a33fc01dfdbab47564bcfe31868".to_vec());
}

#[test]
fn token_of_nothing_is_the_digest_of_the_empty_string() {
    assert_eq!(daily_token("", ""), b"d41d8cd98f00b204e9800998ecf8427e".to_vec());
}

#[test]
fn token_changes_with_the_day() {
    assert_ne!(daily_token("20220525", "s3cr3t"), daily_token("20220526", "s3cr3t"));
    assert_eq!(daily_token("2022", "0525s3cr3t"), daily_token("20220525", "s3cr3t"));
}

#[test]
fn hex_is_lower_case_with_the_high_half_first() {
    assert_eq!(to_hex(&[]), Vec::<u8>::new());
    assert_eq!(to_hex(&[0x00, 0x0f, 0xa9, 0xff]), b"000fa9ff".to_vec());
}
